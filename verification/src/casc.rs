//! The virtual file tree of a local CASC storage.
use vstd::prelude::*;

use crate::listfile::forward_slashes;
use crate::order::{key_views, sort_indices, stably_sorted, SortKey};
use crate::types::{
    match_views, AssetInspection, CascCatalogInfo, CascDirectoryListing, CascVirtualEntry,
    ListfileMatch,
};
use casc_lib::extract::CascStorage;
use crate::text::{
    chars_of, copy_range, find_first, find_last, first_index_of, join, join_chars,
    last_index_of, lower_seq, split, split_chars, string_of, to_lower,
};

verus! {

// ---------------------------------------------------------------------------
// Virtual paths
// ---------------------------------------------------------------------------

/// The non-empty parts, in order.
pub open spec fn nonempty_parts(parts: Seq<Seq<char>>) -> Seq<Seq<char>>
    decreases parts.len(),
{
    if parts.len() == 0 {
        Seq::empty()
    } else {
        let prev = nonempty_parts(parts.drop_last());
        if parts.last().len() > 0 {
            prev.push(parts.last())
        } else {
            prev
        }
    }
}

/// The folder and file names of a virtual path, `\` and `/` both separating.
pub open spec fn path_parts(path: Seq<char>) -> Seq<Seq<char>> {
    nonempty_parts(split(forward_slashes(path), '/'))
}

/// A virtual path with `/` separators, no empty parts and no `/` at either end.
pub open spec fn normalize_path(path: Seq<char>) -> Seq<char> {
    join(path_parts(path), '/')
}

proof fn lemma_nonempty_parts(x: Seq<Seq<char>>)
    ensures
        forall|i: int|
            0 <= i < nonempty_parts(x).len() ==> (#[trigger] nonempty_parts(x)[i]).len() > 0
                && exists|j: int| 0 <= j < x.len() && x[j] == nonempty_parts(x)[i],
        (forall|i: int| 0 <= i < x.len() ==> (#[trigger] x[i]).len() > 0) ==> nonempty_parts(x)
            == x,
    decreases x.len(),
{
    if x.len() > 0 {
        let d = x.drop_last();
        lemma_nonempty_parts(d);
        let o = nonempty_parts(x);
        let od = nonempty_parts(d);
        assert forall|i: int| 0 <= i < o.len() implies (#[trigger] o[i]).len() > 0 && exists|j: int|
            0 <= j < x.len() && x[j] == o[i] by {
            if i < od.len() {
                let j = choose|j: int| 0 <= j < d.len() && d[j] == od[i];
                assert(x[j] == o[i]);
            } else {
                assert(x[x.len() - 1] == o[i]);
            }
        }
        if forall|i: int| 0 <= i < x.len() ==> (#[trigger] x[i]).len() > 0 {
            assert forall|i: int| 0 <= i < d.len() implies (#[trigger] d[i]).len() > 0 by {
                assert(d[i] == x[i]);
            }
            assert(x.last().len() > 0) by {
                assert(x[x.len() - 1] == x.last());
            }
            assert(d.push(x.last()) =~= x);
        }
    }
}

proof fn lemma_forward_slashes(s: Seq<char>)
    ensures
        !forward_slashes(s).contains('\\'),
        !s.contains('\\') ==> forward_slashes(s) == s,
{
    let f = forward_slashes(s);
    if f.contains('\\') {
        let k = choose|k: int| 0 <= k < f.len() && f[k] == '\\';
        assert(f[k] == (if s[k] == '\\' { '/' } else { s[k] }));
    }
    if !s.contains('\\') {
        assert forall|k: int| 0 <= k < s.len() implies f[k] == s[k] by {
            if s[k] == '\\' {
                assert(s.contains('\\'));
            }
        }
        assert(f =~= s);
    }
}

/// The parts of a virtual path are non-empty and hold no separator.
pub proof fn lemma_path_parts(path: Seq<char>)
    ensures
        forall|i: int|
            0 <= i < path_parts(path).len() ==> (#[trigger] path_parts(path)[i]).len() > 0
                && !path_parts(path)[i].contains('/') && !path_parts(path)[i].contains('\\'),
{
    let f = forward_slashes(path);
    let x = split(f, '/');
    lemma_forward_slashes(path);
    crate::text::lemma_split_pieces_free(f, '/');
    crate::text::lemma_split_pieces_lack(f, '/', '\\');
    lemma_nonempty_parts(x);
    let o = path_parts(path);
    assert forall|i: int| 0 <= i < o.len() implies (#[trigger] o[i]).len() > 0 && !o[i].contains('/')
        && !o[i].contains('\\') by {
        let j = choose|j: int| 0 <= j < x.len() && x[j] == o[i];
        assert(!x[j].contains('\\'));
        if o[i].contains('/') {
            let k = choose|k: int| 0 <= k < o[i].len() && o[i][k] == '/';
            assert(x[j][k] == '/');
        }
    }
}

/// Normalising a normalised path changes nothing.
pub proof fn lemma_normalize_idempotent(path: Seq<char>)
    ensures
        normalize_path(normalize_path(path)) == normalize_path(path),
{
    let parts = path_parts(path);
    let n = normalize_path(path);
    lemma_path_parts(path);
    crate::text::lemma_join_free(parts, '/', '\\');
    lemma_forward_slashes(n);
    if parts.len() == 0 {
        assert(n == Seq::<char>::empty());
        assert(split(n, '/') == seq![Seq::<char>::empty()]);
        let x = seq![Seq::<char>::empty()];
        assert(x.drop_last() =~= Seq::<Seq<char>>::empty());
        assert(nonempty_parts(x) == nonempty_parts(x.drop_last()));
    } else {
        crate::text::lemma_split_join(parts, '/');
        lemma_nonempty_parts(parts);
    }
    assert(path_parts(n) == parts);
}

fn nonempty_chars(parts: &Vec<Vec<char>>) -> (r: Vec<Vec<char>>)
    ensures
        r@.map_values(|p: Vec<char>| p@) == nonempty_parts(parts@.map_values(|p: Vec<char>| p@)),
{
    let ghost pv = parts@.map_values(|p: Vec<char>| p@);
    let mut r: Vec<Vec<char>> = Vec::new();
    let mut i: usize = 0;
    while i < parts.len()
        invariant
            i <= parts.len(),
            pv == parts@.map_values(|p: Vec<char>| p@),
            r@.map_values(|p: Vec<char>| p@) == nonempty_parts(pv.take(i as int)),
        decreases parts.len() - i,
    {
        assert(pv.take(i as int + 1).drop_last() =~= pv.take(i as int));
        assert(pv.take(i as int + 1).last() == parts@[i as int]@);
        if parts[i].len() > 0 {
            r.push(copy_range(&parts[i], 0, parts[i].len()));
            assert(parts@[i as int]@.subrange(0, parts@[i as int]@.len() as int) =~= parts@[i as int]@);
        }
        i = i + 1;
        assert(r@.map_values(|p: Vec<char>| p@) =~= nonempty_parts(pv.take(i as int)));
    }
    assert(pv.take(parts.len() as int) =~= pv);
    r
}

fn forward_slash_chars(path: &Vec<char>) -> (r: Vec<char>)
    ensures
        r@ == forward_slashes(path@),
{
    let mut n: Vec<char> = Vec::new();
    let mut i: usize = 0;
    while i < path.len()
        invariant
            i <= path.len(),
            n@ == forward_slashes(path@.take(i as int)),
        decreases path.len() - i,
    {
        let c = path[i];
        n.push(if c == '\\' { '/' } else { c });
        i = i + 1;
        assert(n@ =~= forward_slashes(path@.take(i as int)));
    }
    assert(path@.take(path.len() as int) =~= path@);
    n
}

fn path_part_chars(path: &Vec<char>) -> (r: Vec<Vec<char>>)
    ensures
        r@.map_values(|p: Vec<char>| p@) == path_parts(path@),
{
    nonempty_chars(&split_chars(&forward_slash_chars(path), '/'))
}

fn normalize_chars(path: &Vec<char>) -> (r: Vec<char>)
    ensures
        r@ == normalize_path(path@),
{
    join_chars(&path_part_chars(path), '/')
}

/// A CASC path with `/` separators, without empty parts or outer slashes.
pub fn normalize_virtual_path(path: &str) -> (r: String)
    ensures
        r@ == normalize_path(path@),
{
    string_of(&normalize_chars(&chars_of(path)))
}

/// A folder path of the virtual tree, normalised like a file path.
pub fn normalize_directory(path: &str) -> (r: String)
    ensures
        r@ == normalize_path(path@),
{
    normalize_virtual_path(path)
}

/// The lower-cased text after the last `.` of a file name, when there is some.
pub open spec fn name_extension(name: Seq<char>) -> Option<Seq<char>> {
    match last_index_of(name, '.') {
        Some(k) => if k + 1 < name.len() {
            Some(lower_seq(name.skip(k + 1)))
        } else {
            None
        },
        None => None,
    }
}

fn extension_chars(name: &Vec<char>) -> (r: Option<Vec<char>>)
    ensures
        match r {
            Some(e) => name_extension(name@) == Some(e@),
            None => name_extension(name@) is None,
        },
{
    match find_last(name, '.') {
        Some(k) => {
            if k + 1 < name.len() {
                Some(to_lower(&copy_range(name, k + 1, name.len())))
            } else {
                None
            }
        },
        None => None,
    }
}

/// The extension of a file name: the lower-cased text after its last `.`,
/// when that text is not empty.
pub fn extension_of(name: &str) -> (r: Option<String>)
    ensures
        match r {
            Some(e) => name_extension(name@) == Some(e@),
            None => name_extension(name@) is None,
        },
{
    match extension_chars(&chars_of(name)) {
        Some(e) => Some(string_of(&e)),
        None => None,
    }
}

/// The parts other than `.`, in order.
pub open spec fn without_dots(parts: Seq<Seq<char>>) -> Seq<Seq<char>>
    decreases parts.len(),
{
    if parts.len() == 0 {
        Seq::empty()
    } else {
        let prev = without_dots(parts.drop_last());
        if parts.last() == seq!['.'] {
            prev
        } else {
            prev.push(parts.last())
        }
    }
}

/// `c` is an ASCII letter.
pub open spec fn is_ascii_letter(c: char) -> bool {
    ('A' <= c && c <= 'Z') || ('a' <= c && c <= 'z')
}

/// A part that starts with a drive such as `C:`: where a path begins with
/// it, Windows reads a drive prefix, not a folder name.
pub open spec fn is_drive_part(p: Seq<char>) -> bool {
    p.len() >= 2 && is_ascii_letter(p[0]) && p[1] == ':'
}

/// The relative path a virtual path may be written to: its parts, where none
/// is `..`, the first is not `.` and does not name a drive (other `.` parts
/// are dropped); none for an empty path or one that climbs out of its folder.
pub open spec fn safe_parts(path: Seq<char>) -> Option<Seq<Seq<char>>> {
    let parts = path_parts(path);
    if parts.len() == 0 || parts[0] == seq!['.'] || is_drive_part(parts[0]) || parts.contains(
        seq!['.', '.'],
    ) {
        None
    } else {
        Some(without_dots(parts))
    }
}

proof fn lemma_without_dots(x: Seq<Seq<char>>)
    ensures
        forall|i: int|
            0 <= i < without_dots(x).len() ==> #[trigger] without_dots(x)[i] != seq!['.']
                && exists|j: int| 0 <= j < x.len() && x[j] == without_dots(x)[i],
        x.len() > 0 && x[0] != seq!['.'] ==> without_dots(x).len() > 0 && without_dots(x)[0] == x[0],
    decreases x.len(),
{
    if x.len() > 0 {
        let d = x.drop_last();
        lemma_without_dots(d);
        let o = without_dots(x);
        let od = without_dots(d);
        assert forall|i: int| 0 <= i < o.len() implies #[trigger] o[i] != seq!['.'] && exists|j: int|
            0 <= j < x.len() && x[j] == o[i] by {
            if i < od.len() {
                let j = choose|j: int| 0 <= j < d.len() && d[j] == od[i];
                assert(x[j] == o[i]);
            } else {
                assert(x[x.len() - 1] == o[i]);
            }
        }
        if x[0] != seq!['.'] && d.len() > 0 {
            assert(d[0] == x[0]);
        }
        if x[0] != seq!['.'] && d.len() == 0 {
            assert(x.last() == x[0]);
        }
    }
}

/// A safe relative path has at least one part, its first part names no
/// drive, and no part is empty, `.` or `..`, or holds a separator. (A later
/// part may still hold a `:`.)
pub proof fn lemma_safe_parts(path: Seq<char>)
    ensures
        safe_parts(path) matches Some(q) ==> q.len() > 0 && !is_drive_part(q[0]) && forall|i: int|
            0 <= i < q.len() ==> (#[trigger] q[i]).len() > 0 && q[i] != seq!['.'] && q[i] != seq![
                '.',
                '.',
            ] && !q[i].contains('/') && !q[i].contains('\\'),
{
    let parts = path_parts(path);
    lemma_path_parts(path);
    lemma_without_dots(parts);
    if let Some(q) = safe_parts(path) {
        assert forall|i: int| 0 <= i < q.len() implies (#[trigger] q[i]).len() > 0 && q[i] != seq![
            '.',
        ] && q[i] != seq!['.', '.'] && !q[i].contains('/') && !q[i].contains('\\') by {
            let j = choose|j: int| 0 <= j < parts.len() && parts[j] == q[i];
            assert(parts.contains(parts[j]));
        }
    }
}

fn is_dot(p: &Vec<char>) -> (r: bool)
    ensures
        r == (p@ == seq!['.']),
{
    let r = p.len() == 1 && p[0] == '.';
    assert(r ==> p@ =~= seq!['.']);
    r
}

fn is_dot_dot(p: &Vec<char>) -> (r: bool)
    ensures
        r == (p@ == seq!['.', '.']),
{
    let r = p.len() == 2 && p[0] == '.' && p[1] == '.';
    assert(r ==> p@ =~= seq!['.', '.']);
    r
}

fn is_drive(p: &Vec<char>) -> (r: bool)
    ensures
        r == is_drive_part(p@),
{
    p.len() >= 2 && (('A' <= p[0] && p[0] <= 'Z') || ('a' <= p[0] && p[0] <= 'z')) && p[1] == ':'
}

/// The parts of a relative path under which a virtual file may be written:
/// none when the path is empty, starts with `.` or a drive such as `C:`, or
/// holds a `..` part.
pub fn safe_virtual_path(path: &str) -> (r: Option<Vec<String>>)
    ensures
        match r {
            Some(parts) => safe_parts(path@) == Some(parts@.map_values(|s: String| s@)),
            None => safe_parts(path@) is None,
        },
{
    let parts = path_part_chars(&chars_of(path));
    let ghost pv = parts@.map_values(|p: Vec<char>| p@);
    assert(pv == path_parts(path@));
    if parts.len() == 0 || is_dot(&parts[0]) || is_drive(&parts[0]) {
        return None;
    }
    let mut out: Vec<String> = Vec::new();
    let mut i: usize = 0;
    while i < parts.len()
        invariant
            i <= parts.len(),
            pv == parts@.map_values(|p: Vec<char>| p@),
            pv == path_parts(path@),
            pv.len() > 0,
            pv[0] != seq!['.'],
            !is_drive_part(pv[0]),
            !pv.take(i as int).contains(seq!['.', '.']),
            out@.map_values(|s: String| s@) == without_dots(pv.take(i as int)),
        decreases parts.len() - i,
    {
        assert(pv.take(i as int + 1).drop_last() =~= pv.take(i as int));
        assert(pv.take(i as int + 1).last() == parts@[i as int]@);
        if is_dot_dot(&parts[i]) {
            assert(pv[i as int] == seq!['.', '.']);
            assert(pv.contains(seq!['.', '.']));
            return None;
        }
        if !is_dot(&parts[i]) {
            out.push(string_of(&parts[i]));
        }
        i = i + 1;
        assert(out@.map_values(|s: String| s@) =~= without_dots(pv.take(i as int)));
        assert(!pv.take(i as int).contains(seq!['.', '.'])) by {
            if pv.take(i as int).contains(seq!['.', '.']) {
                let k = choose|k: int| 0 <= k < i && pv.take(i as int)[k] == seq!['.', '.'];
                if k < i - 1 {
                    assert(pv.take(i - 1)[k] == pv.take(i as int)[k]);
                }
            }
        }
    }
    assert(pv.take(parts.len() as int) =~= pv);
    Some(out)
}

// ---------------------------------------------------------------------------
// The catalog
// ---------------------------------------------------------------------------

pub open spec fn listing_views(l: Seq<(u32, String)>) -> Seq<(u32, Seq<char>)> {
    l.map_values(|e: (u32, String)| (e.0, e.1@))
}

/// The entries a storage listing gives: those whose path is not `unknown`
/// (in any ASCII case), with their paths normalised.
pub open spec fn catalog_candidates(listed: Seq<(u32, Seq<char>)>) -> Seq<(u32, Seq<char>)>
    decreases listed.len(),
{
    if listed.len() == 0 {
        Seq::empty()
    } else {
        let prev = catalog_candidates(listed.drop_last());
        let e = listed.last();
        if lower_seq(e.1) == "unknown"@ {
            prev
        } else {
            prev.push((e.0, normalize_path(e.1)))
        }
    }
}

/// Catalog order: by lower-cased path, then by FileDataID.
pub open spec fn catalog_keys(c: Seq<(u32, Seq<char>)>) -> Seq<(u64, Seq<char>, u64)> {
    c.map_values(|e: (u32, Seq<char>)| (0u64, lower_seq(e.1), e.0 as u64))
}

/// `s` without the entries whose FileDataID repeats the one just before.
pub open spec fn dedup_ids(s: Seq<(u32, Seq<char>)>) -> Seq<(u32, Seq<char>)>
    decreases s.len(),
{
    if s.len() <= 1 {
        s
    } else {
        let prev = dedup_ids(s.drop_last());
        if s[s.len() - 2].0 == s.last().0 {
            prev
        } else {
            prev.push(s.last())
        }
    }
}

proof fn lemma_dedup_ids(s: Seq<(u32, Seq<char>)>)
    ensures
        s.len() > 0 ==> dedup_ids(s).len() > 0 && dedup_ids(s).last().0 == s.last().0,
        forall|i: int|
            0 <= i < dedup_ids(s).len() - 1 ==> #[trigger] dedup_ids(s)[i].0 != dedup_ids(s)[i + 1].0,
    decreases s.len(),
{
    if s.len() > 1 {
        let d = s.drop_last();
        lemma_dedup_ids(d);
        assert(d.last() == s[s.len() - 2]);
        let o = dedup_ids(s);
        let od = dedup_ids(d);
        assert forall|i: int| 0 <= i < o.len() - 1 implies #[trigger] o[i].0 != o[i + 1].0 by {
            if i < od.len() - 1 {
                assert(o[i] == od[i] && o[i + 1] == od[i + 1]);
            } else {
                assert(o[i] == od.last());
            }
        }
    }
}

/// In a catalog no FileDataID follows itself: repeats were dropped.
pub proof fn lemma_catalog_no_repeats(files: Seq<(u32, Seq<char>)>, listed: Seq<(u32, Seq<char>)>)
    requires
        is_catalog_of(files, listed),
    ensures
        forall|i: int| 0 <= i < files.len() - 1 ==> #[trigger] files[i].0 != files[i + 1].0,
{
    let c = catalog_candidates(listed);
    let sorted = choose|sorted: Seq<(u32, Seq<char>)>|
        #[trigger] stably_sorted(sorted, c, catalog_keys(c)) && files == dedup_ids(sorted);
    lemma_dedup_ids(sorted);
}

/// Catalog order between two entries: by lower-cased path, then by FileDataID.
pub open spec fn catalog_le(a: (u32, Seq<char>), b: (u32, Seq<char>)) -> bool {
    crate::order::seq_lt(lower_seq(a.1), lower_seq(b.1)) || (lower_seq(a.1) == lower_seq(b.1) && a.0
        <= b.0)
}

/// The listing entry `e` is kept in a catalog: its path is not `unknown`.
pub open spec fn kept(e: (u32, Seq<char>)) -> bool {
    lower_seq(e.1) != "unknown"@
}

/// The catalog entry a kept listing entry becomes.
pub open spec fn candidate_of(e: (u32, Seq<char>)) -> (u32, Seq<char>) {
    (e.0, normalize_path(e.1))
}

proof fn lemma_candidates_from(listed: Seq<(u32, Seq<char>)>, m: int)
    requires
        0 <= m < catalog_candidates(listed).len(),
    ensures
        exists|k: int|
            0 <= k < listed.len() && kept(#[trigger] listed[k]) && catalog_candidates(listed)[m]
                == candidate_of(listed[k]),
    decreases listed.len(),
{
    let d = listed.drop_last();
    let c = catalog_candidates(listed);
    let cd = catalog_candidates(d);
    if m < cd.len() {
        lemma_candidates_from(d, m);
        assert(c[m] == cd[m]);
        let k = choose|k: int| 0 <= k < d.len() && kept(#[trigger] d[k]) && cd[m] == candidate_of(d[k]);
        assert(listed[k] == d[k]);
    } else {
        assert(listed[listed.len() - 1] == listed.last());
    }
}

proof fn lemma_candidates_len(listed: Seq<(u32, Seq<char>)>)
    ensures
        catalog_candidates(listed).len() <= listed.len(),
    decreases listed.len(),
{
    if listed.len() > 0 {
        lemma_candidates_len(listed.drop_last());
    }
}

proof fn lemma_candidates_cover(listed: Seq<(u32, Seq<char>)>, k: int)
    requires
        0 <= k < listed.len(),
        kept(listed[k]),
    ensures
        exists|m: int|
            0 <= m < catalog_candidates(listed).len() && #[trigger] catalog_candidates(listed)[m]
                == candidate_of(listed[k]),
    decreases listed.len(),
{
    let d = listed.drop_last();
    let c = catalog_candidates(listed);
    let cd = catalog_candidates(d);
    if k < d.len() {
        assert(d[k] == listed[k]);
        lemma_candidates_cover(d, k);
        let m = choose|m: int| 0 <= m < cd.len() && #[trigger] cd[m] == candidate_of(d[k]);
        assert(c[m] == cd[m]);
    } else {
        assert(listed[k] == listed.last());
        assert(c[c.len() - 1] == candidate_of(listed[k]));
    }
}

proof fn lemma_dedup_from(s: Seq<(u32, Seq<char>)>, i: int)
    requires
        0 <= i < dedup_ids(s).len(),
    ensures
        exists|j: int| 0 <= j < s.len() && dedup_ids(s)[i] == #[trigger] s[j],
    decreases s.len(),
{
    if s.len() <= 1 {
        assert(dedup_ids(s)[i] == s[i]);
    } else {
        let d = s.drop_last();
        let od = dedup_ids(d);
        if i < od.len() {
            lemma_dedup_from(d, i);
            assert(dedup_ids(s)[i] == od[i]);
            let j = choose|j: int| 0 <= j < d.len() && od[i] == #[trigger] d[j];
            assert(s[j] == d[j]);
        } else {
            assert(dedup_ids(s)[i] == s[s.len() - 1]);
        }
    }
}

proof fn lemma_dedup_cover(s: Seq<(u32, Seq<char>)>, j: int)
    requires
        0 <= j < s.len(),
    ensures
        exists|i: int| 0 <= i < dedup_ids(s).len() && (#[trigger] dedup_ids(s)[i]).0 == s[j].0,
    decreases s.len(),
{
    if s.len() <= 1 {
        assert(dedup_ids(s)[j] == s[j]);
    } else {
        let d = s.drop_last();
        let od = dedup_ids(d);
        if j < d.len() {
            lemma_dedup_cover(d, j);
            assert(d[j] == s[j]);
            let i = choose|i: int| 0 <= i < od.len() && (#[trigger] od[i]).0 == d[j].0;
            assert(dedup_ids(s)[i] == od[i]);
        } else if s[s.len() - 2].0 == s.last().0 {
            lemma_dedup_cover(d, d.len() - 1);
            assert(d[d.len() - 1] == s[s.len() - 2]);
            let i = choose|i: int| 0 <= i < od.len() && (#[trigger] od[i]).0 == d[d.len() - 1].0;
            assert(dedup_ids(s)[i] == od[i]);
        } else {
            assert(dedup_ids(s)[dedup_ids(s).len() - 1] == s.last());
        }
    }
}

/// Every entry of `s` comes before the later ones in catalog order.
pub open spec fn sorted_catalog(s: Seq<(u32, Seq<char>)>) -> bool {
    forall|i: int, j: int| 0 <= i < j < s.len() ==> catalog_le(#[trigger] s[i], #[trigger] s[j])
}

proof fn lemma_dedup_sorted(s: Seq<(u32, Seq<char>)>)
    requires
        sorted_catalog(s),
    ensures
        sorted_catalog(dedup_ids(s)),
    decreases s.len(),
{
    if s.len() > 1 {
        let d = s.drop_last();
        assert forall|i: int, j: int| 0 <= i < j < d.len() implies catalog_le(
            #[trigger] d[i],
            #[trigger] d[j],
        ) by {
            assert(d[i] == s[i] && d[j] == s[j]);
        }
        lemma_dedup_sorted(d);
        let o = dedup_ids(s);
        let od = dedup_ids(d);
        assert forall|i: int, j: int| 0 <= i < j < o.len() implies catalog_le(
            #[trigger] o[i],
            #[trigger] o[j],
        ) by {
            if j < od.len() {
                assert(o[i] == od[i] && o[j] == od[j]);
            } else {
                assert(o[j] == s[s.len() - 1]);
                assert(o[i] == od[i]);
                lemma_dedup_from(d, i);
                let k = choose|k: int| 0 <= k < d.len() && od[i] == #[trigger] d[k];
                assert(d[k] == s[k]);
            }
        }
    }
}

/// The shape of a catalog: it is ordered by lower-cased path and then by
/// FileDataID; each entry is a kept listing entry (path not `unknown`) with
/// its path normalised, and normalising it again changes nothing; and every
/// FileDataID of a kept listing entry is in it.
/// The sorted order that a catalog was cut from, and its positions.
spec fn catalog_sort(files: Seq<(u32, Seq<char>)>, listed: Seq<(u32, Seq<char>)>) -> (Seq<(u32, Seq<char>)>, Seq<usize>) {
    let c = catalog_candidates(listed);
    let keys = catalog_keys(c);
    let sorted = choose|sorted: Seq<(u32, Seq<char>)>|
        #[trigger] stably_sorted(sorted, c, keys) && files == dedup_ids(sorted);
    let p = choose|p: Seq<usize>|
        #[trigger] crate::order::is_sorted_perm(keys, p) && sorted.len() == c.len() && forall|i: int|
            0 <= i < sorted.len() ==> sorted[i] == c[p[i] as int];
    (sorted, p)
}

proof fn lemma_catalog_sort(files: Seq<(u32, Seq<char>)>, listed: Seq<(u32, Seq<char>)>)
    requires
        is_catalog_of(files, listed),
    ensures
        ({
            let (sorted, p) = catalog_sort(files, listed);
            let c = catalog_candidates(listed);
            &&& crate::order::is_sorted_perm(catalog_keys(c), p)
            &&& sorted.len() == c.len()
            &&& forall|i: int| 0 <= i < sorted.len() ==> #[trigger] sorted[i] == c[p[i] as int]
            &&& files == dedup_ids(sorted)
        }),
{
}

proof fn lemma_catalog_sorted(files: Seq<(u32, Seq<char>)>, listed: Seq<(u32, Seq<char>)>)
    requires
        is_catalog_of(files, listed),
    ensures
        sorted_catalog(files),
{
    lemma_catalog_sort(files, listed);
    let (sorted, p) = catalog_sort(files, listed);
    let keys = catalog_keys(catalog_candidates(listed));
    crate::order::lemma_sorted_keys(keys, p);
    assert forall|i: int, j: int| 0 <= i < j < sorted.len() implies catalog_le(
        #[trigger] sorted[i],
        #[trigger] sorted[j],
    ) by {
        assert(!crate::order::key_lt(keys[p[j] as int], keys[p[i] as int]));
        crate::order::lemma_seq_lt_total(lower_seq(sorted[i].1), lower_seq(sorted[j].1));
    }
    lemma_dedup_sorted(sorted);
}

proof fn lemma_catalog_entry(files: Seq<(u32, Seq<char>)>, listed: Seq<(u32, Seq<char>)>, i: int)
    requires
        is_catalog_of(files, listed),
        0 <= i < files.len(),
    ensures
        normalize_path(files[i].1) == files[i].1,
        exists|k: int|
            0 <= k < listed.len() && kept(#[trigger] listed[k]) && listed[k].0 == files[i].0
                && files[i].1 == normalize_path(listed[k].1),
{
    lemma_catalog_sort(files, listed);
    let (sorted, p) = catalog_sort(files, listed);
    let c = catalog_candidates(listed);
    lemma_dedup_from(sorted, i);
    let j = choose|j: int| 0 <= j < sorted.len() && files[i] == #[trigger] sorted[j];
    let m = p[j] as int;
    assert(sorted[j] == c[m]);
    lemma_candidates_from(listed, m);
    let k = choose|k: int| 0 <= k < listed.len() && kept(#[trigger] listed[k]) && c[m] == candidate_of(listed[k]);
    lemma_normalize_idempotent(listed[k].1);
}

proof fn lemma_catalog_covers(files: Seq<(u32, Seq<char>)>, listed: Seq<(u32, Seq<char>)>, k: int)
    requires
        is_catalog_of(files, listed),
        listed.len() <= usize::MAX,
        0 <= k < listed.len(),
        kept(listed[k]),
    ensures
        exists|i: int| 0 <= i < files.len() && (#[trigger] files[i]).0 == listed[k].0,
{
    lemma_catalog_sort(files, listed);
    let (sorted, p) = catalog_sort(files, listed);
    let c = catalog_candidates(listed);
    lemma_candidates_cover(listed, k);
    lemma_candidates_len(listed);
    let m = choose|m: int| 0 <= m < c.len() && #[trigger] c[m] == candidate_of(listed[k]);
    assert(p.contains(m as usize));
    let j = choose|j: int| 0 <= j < p.len() && p[j] == m as usize;
    assert(catalog_keys(c).len() == c.len());
    assert(sorted[j] == c[p[j] as int]);
    lemma_dedup_cover(sorted, j);
    let i = choose|i: int| 0 <= i < dedup_ids(sorted).len() && (#[trigger] dedup_ids(sorted)[i]).0 == sorted[j].0;
    assert(p[j] as int == m);
    assert(sorted[j] == c[m]);
    assert(sorted[j].0 == listed[k].0);
    assert(files == dedup_ids(sorted));
    assert(files[i].0 == listed[k].0);
}

/// The shape of a catalog: it is ordered by lower-cased path and then by
/// FileDataID; each entry is a kept listing entry (path not `unknown`) with
/// its path normalised, and normalising it again changes nothing; and every
/// FileDataID of a kept listing entry is in it.
pub proof fn lemma_catalog_shape(files: Seq<(u32, Seq<char>)>, listed: Seq<(u32, Seq<char>)>)
    requires
        is_catalog_of(files, listed),
        listed.len() <= usize::MAX,
    ensures
        sorted_catalog(files),
        forall|i: int|
            #![trigger files[i]]
            0 <= i < files.len() ==> normalize_path(files[i].1) == files[i].1 && exists|k: int|
                0 <= k < listed.len() && kept(#[trigger] listed[k]) && listed[k].0 == files[i].0
                    && files[i].1 == normalize_path(listed[k].1),
        forall|k: int|
            #![trigger listed[k]]
            0 <= k < listed.len() && kept(listed[k]) ==> exists|i: int|
                0 <= i < files.len() && (#[trigger] files[i]).0 == listed[k].0,
{
    lemma_catalog_sorted(files, listed);
    assert forall|i: int| #![trigger files[i]] 0 <= i < files.len() implies normalize_path(files[i].1)
        == files[i].1 && exists|k: int|
        0 <= k < listed.len() && kept(#[trigger] listed[k]) && listed[k].0 == files[i].0
            && files[i].1 == normalize_path(listed[k].1) by {
        lemma_catalog_entry(files, listed, i);
    }
    assert forall|k: int| #![trigger listed[k]] 0 <= k < listed.len() && kept(listed[k]) implies exists|i: int|
        0 <= i < files.len() && (#[trigger] files[i]).0 == listed[k].0 by {
        lemma_catalog_covers(files, listed, k);
    }
}

/// The catalog of a session is ordered by lower-cased path and then by
/// FileDataID, its paths are normalised, and no FileDataID follows itself.
pub proof fn lemma_session_catalog(files: Seq<(u32, Seq<char>)>)
    requires
        is_listing_catalog(files),
    ensures
        sorted_catalog(files),
        forall|i: int| 0 <= i < files.len() ==> normalize_path((#[trigger] files[i]).1) == files[i].1,
        forall|i: int| 0 <= i < files.len() - 1 ==> #[trigger] files[i].0 != files[i + 1].0,
{
    let listed = choose|listed: Seq<(u32, Seq<char>)>|
        #[trigger] is_catalog_of(files, listed) && ids_increasing(listed) && listed.len() <= usize::MAX;
    lemma_catalog_shape(files, listed);
    lemma_catalog_no_repeats(files, listed);
}

/// `files` is the catalog of `listed`: its candidates stably sorted by
/// lower-cased path and FileDataID, without repeats of a FileDataID in a row.
pub open spec fn is_catalog_of(files: Seq<(u32, Seq<char>)>, listed: Seq<(u32, Seq<char>)>) -> bool {
    let c = catalog_candidates(listed);
    exists|sorted: Seq<(u32, Seq<char>)>|
        #[trigger] stably_sorted(sorted, c, catalog_keys(c)) && files == dedup_ids(sorted)
}

/// Builds the catalog of a storage listing: `unknown` paths dropped, paths
/// normalised, entries ordered by lower-cased path and FileDataID, and an
/// entry dropped where its FileDataID repeats the one before it.
pub fn catalog_from_listing(listed: Vec<(u32, String)>) -> (r: Vec<ListfileMatch>)
    ensures
        is_catalog_of(match_views(r@), listing_views(listed@)),
{
    let ghost lv = listing_views(listed@);
    let unknown = chars_of("unknown");
    let mut cands: Vec<ListfileMatch> = Vec::new();
    let mut keys: Vec<SortKey> = Vec::new();
    let mut i: usize = 0;
    while i < listed.len()
        invariant
            i <= listed.len(),
            lv == listing_views(listed@),
            unknown@ == "unknown"@,
            match_views(cands@) == catalog_candidates(lv.take(i as int)),
            keys.len() == cands.len(),
            key_views(keys@) == catalog_keys(match_views(cands@)),
        decreases listed.len() - i,
    {
        assert(lv.take(i as int + 1).drop_last() =~= lv.take(i as int));
        assert(lv.take(i as int + 1).last() == lv[i as int]);
        let pc = chars_of(listed[i].1.as_str());
        let lower = to_lower(&pc);
        if !crate::text::same_chars(&lower, &unknown) {
            let n = normalize_chars(&pc);
            let ghost old_c = match_views(cands@);
            let ghost old_k = key_views(keys@);
            keys.push(SortKey { major: 0, text: to_lower(&n), minor: listed[i].0 as u64 });
            cands.push(ListfileMatch { file_data_id: listed[i].0, path: string_of(&n) });
            assert(match_views(cands@) =~= old_c.push((listed@[i as int].0, n@)));
            assert forall|x: int| 0 <= x < keys.len() implies #[trigger] key_views(keys@)[x]
                == catalog_keys(match_views(cands@))[x] by {
                if x < keys.len() - 1 {
                    assert(key_views(keys@)[x] == old_k[x]);
                    assert(match_views(cands@)[x] == old_c[x]);
                    assert(catalog_keys(match_views(cands@))[x] == catalog_keys(old_c)[x]);
                }
            }
            assert(key_views(keys@) =~= catalog_keys(match_views(cands@)));
        }
        i = i + 1;
    }
    assert(lv.take(listed.len() as int) =~= lv);
    let ghost cv = match_views(cands@);
    let order = sort_indices(&keys);
    let mut sorted: Vec<ListfileMatch> = Vec::new();
    let mut j: usize = 0;
    while j < order.len()
        invariant
            j <= order.len(),
            order.len() == cands.len(),
            crate::order::is_sorted_perm(key_views(keys@), order@),
            sorted.len() == j,
            forall|x: int| 0 <= x < j ==> #[trigger] sorted@[x] == cands@[order@[x] as int],
        decreases order.len() - j,
    {
        sorted.push(cands[order[j]].duplicate());
        j = j + 1;
    }
    let ghost sv = match_views(sorted@);
    assert(stably_sorted(sv, cv, catalog_keys(cv))) by {
        assert(crate::order::is_sorted_perm(catalog_keys(cv), order@));
        assert(sv.len() == cv.len() && forall|x: int|
            0 <= x < sv.len() ==> sv[x] == cv[order@[x] as int]);
    }
    let mut out: Vec<ListfileMatch> = Vec::new();
    let mut k: usize = 0;
    while k < sorted.len()
        invariant
            k <= sorted.len(),
            sv == match_views(sorted@),
            match_views(out@) == dedup_ids(sv.take(k as int)),
        decreases sorted.len() - k,
    {
        assert(sv.take(k as int + 1).drop_last() =~= sv.take(k as int));
        if k == 0 || sorted[k - 1].file_data_id != sorted[k].file_data_id {
            out.push(sorted[k].duplicate());
        }
        proof {
            if k == 0 {
                assert(sv.take(1) =~= seq![sv[0]]);
            } else {
                assert(sv.take(k as int + 1)[k - 1] == sv[k - 1]);
            }
        }
        k = k + 1;
        assert(match_views(out@) =~= dedup_ids(sv.take(k as int)));
    }
    assert(sv.take(sorted.len() as int) =~= sv);
    out
}

// ---------------------------------------------------------------------------
// Browsing
// ---------------------------------------------------------------------------

/// A listing entry: name, path, kind, FileDataID and extension.
pub type EntryView = (Seq<char>, Seq<char>, Seq<char>, Option<u32>, Option<Seq<char>>);

pub open spec fn opt_string_view(o: Option<String>) -> Option<Seq<char>> {
    match o {
        Some(s) => Some(s@),
        None => None,
    }
}

pub open spec fn entry_view(e: CascVirtualEntry) -> EntryView {
    (e.name@, e.path@, e.kind@, e.file_data_id, opt_string_view(e.extension))
}

pub open spec fn entry_views(s: Seq<CascVirtualEntry>) -> Seq<EntryView> {
    s.map_values(|e: CascVirtualEntry| entry_view(e))
}

/// The text a path inside folder `current` starts with.
pub open spec fn dir_prefix(current: Seq<char>) -> Seq<char> {
    if current.len() == 0 {
        Seq::empty()
    } else {
        current.push('/')
    }
}

/// What is left of a file's normalised path below folder `current`, when the
/// path lies below it (ignoring ASCII case) and something is left.
pub open spec fn dir_rest(current: Seq<char>, path: Seq<char>) -> Option<Seq<char>> {
    let n = normalize_path(path);
    let prefix = dir_prefix(current);
    if lower_seq(prefix).is_prefix_of(lower_seq(n)) && n.len() > prefix.len() {
        Some(n.skip(prefix.len() as int))
    } else {
        None
    }
}

/// The names of the sub-folders that the files below `current` lie in, one
/// per file, in file order.
pub open spec fn folder_candidates(files: Seq<(u32, Seq<char>)>, current: Seq<char>) -> Seq<Seq<char>>
    decreases files.len(),
{
    if files.len() == 0 {
        Seq::empty()
    } else {
        let prev = folder_candidates(files.drop_last(), current);
        match dir_rest(current, files.last().1) {
            Some(rest) => match first_index_of(rest, '/') {
                Some(k) => prev.push(rest.take(k)),
                None => prev,
            },
            None => prev,
        }
    }
}

/// The entries of the files directly inside `current`, in file order.
pub open spec fn file_candidates(files: Seq<(u32, Seq<char>)>, current: Seq<char>) -> Seq<EntryView>
    decreases files.len(),
{
    if files.len() == 0 {
        Seq::empty()
    } else {
        let prev = file_candidates(files.drop_last(), current);
        let f = files.last();
        match dir_rest(current, f.1) {
            Some(rest) => match first_index_of(rest, '/') {
                Some(k) => prev,
                None => prev.push(
                    (rest, normalize_path(f.1), "file"@, Some(f.0), name_extension(rest)),
                ),
            },
            None => prev,
        }
    }
}

/// Whether some name of `names` equals `n` ignoring ASCII case.
pub open spec fn has_name(names: Seq<Seq<char>>, n: Seq<char>) -> bool {
    exists|j: int| 0 <= j < names.len() && lower_seq(#[trigger] names[j]) == lower_seq(n)
}

/// The first of `names` for each name ignoring ASCII case, in order.
pub open spec fn first_by_name(names: Seq<Seq<char>>) -> Seq<Seq<char>>
    decreases names.len(),
{
    if names.len() == 0 {
        Seq::empty()
    } else {
        let prev = first_by_name(names.drop_last());
        if has_name(prev, names.last()) {
            prev
        } else {
            prev.push(names.last())
        }
    }
}

/// The entry of sub-folder `name` of `current`.
pub open spec fn folder_entry(current: Seq<char>, name: Seq<char>) -> EntryView {
    (
        name,
        if current.len() == 0 {
            name
        } else {
            current.push('/') + name
        },
        "folder"@,
        None,
        None,
    )
}

pub open spec fn folder_entries(current: Seq<char>, names: Seq<Seq<char>>) -> Seq<EntryView> {
    names.map_values(|n: Seq<char>| folder_entry(current, n))
}

/// Listing order: by lower-cased name.
pub open spec fn name_keys(es: Seq<EntryView>) -> Seq<(u64, Seq<char>, u64)> {
    es.map_values(|e: EntryView| (0u64, lower_seq(e.0), 0u64))
}

/// `l` lists folder `requested` of `files`: its normalised path, the first
/// sub-folder of each name (ignoring ASCII case) and the files directly in
/// it, each stably sorted by lower-cased name.
pub open spec fn lists(l: CascDirectoryListing, files: Seq<(u32, Seq<char>)>, requested: Seq<char>) -> bool {
    let current = normalize_path(requested);
    let folders = folder_entries(current, first_by_name(folder_candidates(files, current)));
    let fs = file_candidates(files, current);
    &&& l.path@ == current
    &&& stably_sorted(entry_views(l.folders@), folders, name_keys(folders))
    &&& stably_sorted(entry_views(l.files@), fs, name_keys(fs))
}

fn duplicate_entry(e: &CascVirtualEntry) -> (r: CascVirtualEntry)
    ensures
        entry_view(r) == entry_view(*e),
{
    CascVirtualEntry {
        name: e.name.clone(),
        path: e.path.clone(),
        kind: e.kind.clone(),
        file_data_id: e.file_data_id,
        extension: match &e.extension {
            Some(x) => Some(x.clone()),
            None => None,
        },
    }
}

/// `entries` stably sorted by their lower-cased names.
fn sort_by_name(entries: &Vec<CascVirtualEntry>) -> (r: Vec<CascVirtualEntry>)
    ensures
        stably_sorted(entry_views(r@), entry_views(entries@), name_keys(entry_views(entries@))),
{
    let ghost ev = entry_views(entries@);
    let mut keys: Vec<SortKey> = Vec::new();
    let mut i: usize = 0;
    while i < entries.len()
        invariant
            i <= entries.len(),
            ev == entry_views(entries@),
            keys.len() == i,
            forall|x: int| 0 <= x < i ==> #[trigger] key_views(keys@)[x] == name_keys(ev)[x],
        decreases entries.len() - i,
    {
        let ghost old_k = key_views(keys@);
        keys.push(SortKey { major: 0, text: to_lower(&chars_of(entries[i].name.as_str())), minor: 0 });
        proof {
            assert forall|x: int| 0 <= x < i + 1 implies #[trigger] key_views(keys@)[x] == name_keys(
                ev,
            )[x] by {
                if x < i {
                    assert(key_views(keys@)[x] == old_k[x]);
                }
            }
        }
        i = i + 1;
    }
    assert(key_views(keys@) =~= name_keys(ev));
    let order = sort_indices(&keys);
    let mut out: Vec<CascVirtualEntry> = Vec::new();
    let mut j: usize = 0;
    while j < order.len()
        invariant
            j <= order.len(),
            order.len() == entries.len(),
            crate::order::is_sorted_perm(key_views(keys@), order@),
            out.len() == j,
            forall|x: int|
                0 <= x < j ==> entry_view(#[trigger] out@[x]) == entry_view(
                    entries@[order@[x] as int],
                ),
        decreases order.len() - j,
    {
        out.push(duplicate_entry(&entries[order[j]]));
        j = j + 1;
    }
    proof {
        let ov = entry_views(out@);
        assert(crate::order::is_sorted_perm(name_keys(ev), order@));
        assert(ov.len() == ev.len() && forall|x: int| 0 <= x < ov.len() ==> ov[x] == ev[order@[x] as int]);
    }
    out
}

fn find_name(keys: &Vec<Vec<char>>, key: &Vec<char>) -> (r: bool)
    ensures
        r == exists|j: int| 0 <= j < keys.len() && #[trigger] keys@[j]@ == key@,
{
    let mut j: usize = 0;
    while j < keys.len()
        invariant
            j <= keys.len(),
            forall|x: int| 0 <= x < j ==> #[trigger] keys@[x]@ != key@,
        decreases keys.len() - j,
    {
        if crate::text::same_chars(&keys[j], key) {
            return true;
        }
        j = j + 1;
    }
    false
}

proof fn lemma_dir_rest_spelling(c1: Seq<char>, c2: Seq<char>, path: Seq<char>)
    requires
        lower_seq(c1) == lower_seq(c2),
    ensures
        dir_rest(c1, path) == dir_rest(c2, path),
{
    assert(c1.len() == lower_seq(c1).len() && c2.len() == lower_seq(c2).len());
    if c1.len() > 0 {
        assert(lower_seq(c1.push('/')) =~= lower_seq(c1).push('/'));
        assert(lower_seq(c2.push('/')) =~= lower_seq(c2).push('/'));
    }
}

proof fn lemma_candidates_spelling(files: Seq<(u32, Seq<char>)>, c1: Seq<char>, c2: Seq<char>)
    requires
        lower_seq(c1) == lower_seq(c2),
    ensures
        folder_candidates(files, c1) == folder_candidates(files, c2),
        file_candidates(files, c1) == file_candidates(files, c2),
    decreases files.len(),
{
    if files.len() > 0 {
        lemma_candidates_spelling(files.drop_last(), c1, c2);
        lemma_dir_rest_spelling(c1, c2, files.last().1);
    }
}

/// The names of the entries, in order.
pub open spec fn entry_names(es: Seq<EntryView>) -> Seq<Seq<char>> {
    es.map_values(|e: EntryView| e.0)
}

/// Listing two folder requests that differ only in ASCII case, in `\` for
/// `/` or in extra separators gives the same files and the same folder
/// names; only the spelling of the folder paths follows the request.
pub proof fn lemma_listing_ignores_spelling(
    files: Seq<(u32, Seq<char>)>,
    q1: Seq<char>,
    q2: Seq<char>,
    l1: CascDirectoryListing,
    l2: CascDirectoryListing,
)
    requires
        lists(l1, files, q1),
        lists(l2, files, q2),
        lower_seq(normalize_path(q1)) == lower_seq(normalize_path(q2)),
    ensures
        entry_views(l1.files@) == entry_views(l2.files@),
        entry_names(entry_views(l1.folders@)) == entry_names(entry_views(l2.folders@)),
{
    let c1 = normalize_path(q1);
    let c2 = normalize_path(q2);
    lemma_candidates_spelling(files, c1, c2);
    let fs = file_candidates(files, c1);
    let fk = name_keys(fs);
    let p1 = choose|p: Seq<usize>|
        #[trigger] crate::order::is_sorted_perm(fk, p) && entry_views(l1.files@).len() == fs.len()
            && forall|i: int| 0 <= i < entry_views(l1.files@).len() ==> entry_views(l1.files@)[i] == fs[p[i] as int];
    let p2 = choose|p: Seq<usize>|
        #[trigger] crate::order::is_sorted_perm(fk, p) && entry_views(l2.files@).len() == fs.len()
            && forall|i: int| 0 <= i < entry_views(l2.files@).len() ==> entry_views(l2.files@)[i] == fs[p[i] as int];
    crate::order::lemma_sorted_perm_unique(fk, p1, p2);
    assert(entry_views(l1.files@) =~= entry_views(l2.files@));

    let names = first_by_name(folder_candidates(files, c1));
    let f1 = folder_entries(c1, names);
    let f2 = folder_entries(c2, names);
    let k1 = name_keys(f1);
    assert(name_keys(f2) =~= k1);
    let v1 = entry_views(l1.folders@);
    let v2 = entry_views(l2.folders@);
    let r1 = choose|p: Seq<usize>|
        #[trigger] crate::order::is_sorted_perm(k1, p) && v1.len() == f1.len() && forall|i: int|
            0 <= i < v1.len() ==> v1[i] == f1[p[i] as int];
    let r2 = choose|p: Seq<usize>|
        #[trigger] crate::order::is_sorted_perm(name_keys(f2), p) && v2.len() == f2.len() && forall|i: int|
            0 <= i < v2.len() ==> v2[i] == f2[p[i] as int];
    crate::order::lemma_sorted_perm_unique(k1, r1, r2);
    assert forall|i: int| 0 <= i < v1.len() implies #[trigger] entry_names(v1)[i] == entry_names(v2)[i] by {
        assert(v1[i] == f1[r1[i] as int]);
        assert(v2[i] == f2[r1[i] as int]);
    }
    assert(entry_names(v1) =~= entry_names(v2));
}

/// The sub-folders and files directly inside folder `requested` of `files`.
pub fn list_directory(files: &Vec<ListfileMatch>, requested: &str) -> (r: CascDirectoryListing)
    ensures
        lists(r, match_views(files@), requested@),
{
    let ghost fv = match_views(files@);
    let current = normalize_chars(&chars_of(requested));
    let mut prefix = copy_range(&current, 0, current.len());
    if current.len() > 0 {
        prefix.push('/');
    }
    assert(prefix@ == dir_prefix(current@)) by {
        assert(current@.subrange(0, current@.len() as int) =~= current@);
    }
    let prefix_lower = to_lower(&prefix);
    let mut names: Vec<Vec<char>> = Vec::new();
    let mut name_keys_l: Vec<Vec<char>> = Vec::new();
    let mut file_entries: Vec<CascVirtualEntry> = Vec::new();
    let mut i: usize = 0;
    while i < files.len()
        invariant
            i <= files.len(),
            fv == match_views(files@),
            current@ == normalize_path(requested@),
            prefix@ == dir_prefix(current@),
            prefix_lower@ == lower_seq(prefix@),
            names@.map_values(|n: Vec<char>| n@) == first_by_name(
                folder_candidates(fv.take(i as int), current@),
            ),
            names.len() == name_keys_l.len(),
            forall|x: int|
                0 <= x < names.len() ==> #[trigger] name_keys_l@[x]@ == lower_seq(names@[x]@),
            entry_views(file_entries@) == file_candidates(fv.take(i as int), current@),
        decreases files.len() - i,
    {
        let ghost t = fv.take(i as int + 1);
        assert(t.drop_last() =~= fv.take(i as int));
        assert(t.last() == fv[i as int]);
        let n = normalize_chars(&chars_of(files[i].path.as_str()));
        let lower = to_lower(&n);
        let below = crate::text::has_prefix(&lower, &prefix_lower) && n.len() > prefix.len();
        assert(below == dir_rest(current@, fv[i as int].1) is Some);
        let ghost fc = folder_candidates(fv.take(i as int), current@);
        let ghost fl = file_candidates(fv.take(i as int), current@);
        if !below {
            assert(folder_candidates(t, current@) == fc);
            assert(file_candidates(t, current@) == fl);
        }
        if below {
            let rest = copy_range(&n, prefix.len(), n.len());
            assert(dir_rest(current@, fv[i as int].1) == Some(rest@));
            match find_first(&rest, '/') {
                Some(k) => {
                    let name = copy_range(&rest, 0, k);
                    let key = to_lower(&name);
                    let ghost prev = names@.map_values(|n: Vec<char>| n@);
                    let seen = find_name(&name_keys_l, &key);
                    proof {
                        assert(folder_candidates(t, current@) == fc.push(name@));
                        assert(file_candidates(t, current@) == fl);
                        assert(fc.push(name@).drop_last() =~= fc);
                        assert(fc.push(name@).last() == name@);
                        if seen {
                            let j = choose|j: int| 0 <= j < name_keys_l.len() && #[trigger] name_keys_l@[j]@ == key@;
                            assert(lower_seq(prev[j]) == lower_seq(name@));
                        } else {
                            assert forall|j: int| 0 <= j < prev.len() implies lower_seq(#[trigger] prev[j]) != lower_seq(name@) by {
                                assert(name_keys_l@[j]@ == lower_seq(prev[j]));
                            }
                        }
                        assert(rest@.take(k as int) == name@);
                    }
                    if !seen {
                        names.push(name);
                        name_keys_l.push(key);
                        assert(names@.map_values(|n: Vec<char>| n@) =~= prev.push(rest@.take(k as int)));
                    }
                },
                None => {
                    assert(folder_candidates(t, current@) == fc);
                    let ext = match extension_chars(&rest) {
                        Some(e) => Some(string_of(&e)),
                        None => None,
                    };
                    let ghost old_f = entry_views(file_entries@);
                    file_entries.push(
                        CascVirtualEntry {
                            name: string_of(&rest),
                            path: string_of(&n),
                            kind: "file".to_owned(),
                            file_data_id: Some(files[i].file_data_id),
                            extension: ext,
                        },
                    );
                    assert(entry_views(file_entries@) =~= old_f.push(
                        (rest@, n@, "file"@, Some(fv[i as int].0), name_extension(rest@)),
                    ));
                },
            }
        }
        i = i + 1;
    }
    assert(fv.take(files.len() as int) =~= fv);

    let mut folder_list: Vec<CascVirtualEntry> = Vec::new();
    let mut j: usize = 0;
    let ghost nv = names@.map_values(|n: Vec<char>| n@);
    while j < names.len()
        invariant
            j <= names.len(),
            nv == names@.map_values(|n: Vec<char>| n@),
            entry_views(folder_list@) == folder_entries(current@, nv.take(j as int)),
        decreases names.len() - j,
    {
        let mut path = copy_range(&current, 0, current.len());
        if current.len() > 0 {
            path.push('/');
        }
        let mut q: usize = 0;
        let ghost base = path@;
        while q < names[j].len()
            invariant
                j < names.len(),
                q <= names@[j as int].len(),
                path@ == base + names@[j as int]@.take(q as int),
            decreases names@[j as int].len() - q,
        {
            path.push(names[j][q]);
            q = q + 1;
            assert(path@ =~= base + names@[j as int]@.take(q as int));
        }
        assert(names@[j as int]@.take(names@[j as int].len() as int) =~= names@[j as int]@);
        assert(current@.subrange(0, current@.len() as int) =~= current@);
        let ghost old_f = entry_views(folder_list@);
        folder_list.push(
            CascVirtualEntry {
                name: string_of(&names[j]),
                path: string_of(&path),
                kind: "folder".to_owned(),
                file_data_id: None,
                extension: None,
            },
        );
        assert(entry_views(folder_list@) =~= old_f.push(folder_entry(current@, nv[j as int])));
        j = j + 1;
        assert(folder_entries(current@, nv.take(j as int)) =~= folder_entries(
            current@,
            nv.take(j - 1),
        ).push(folder_entry(current@, nv[j - 1])));
    }
    assert(nv.take(names.len() as int) =~= nv);
    let folders = sort_by_name(&folder_list);
    let files_sorted = sort_by_name(&file_entries);
    CascDirectoryListing { path: string_of(&current), folders, files: files_sorted }
}

// ---------------------------------------------------------------------------
// A session on one storage
// ---------------------------------------------------------------------------

/// Every locale bit: list and read files of all locales.
pub const ALL_LOCALES: u32 = 0xFFFF_FFFF;

#[verifier::external_type_specification]
#[verifier::external_body]
pub struct ExCascStorage(CascStorage);

/// What `casc_lib::extract::list_files` gives for a storage with all locale
/// bits and no filter. That function reads only the root and listfile that
/// the storage holds in memory, so its result is a function of the storage.
pub uninterp spec fn storage_listing(storage: CascStorage) -> Seq<(u32, Seq<char>)>;

/// `(FileDataID, path)` for every file of the storage's root in any locale
/// (`casc_lib::extract::list_files` with all locale bits and no filter).
///
/// The contract names the result `storage_listing` of the storage, and states
/// what that function's source shows of it: each FileDataID once, in
/// increasing order. Which files and paths a storage holds is left unsaid.
#[verifier::external_body]
fn list_all_files(storage: &CascStorage) -> (r: Vec<(u32, String)>)
    ensures
        listing_views(r@) == storage_listing(*storage),
        forall|i: int, j: int| 0 <= i < j < r.len() ==> #[trigger] r@[i].0 < #[trigger] r@[j].0,
{
    casc_lib::extract::list_files(storage, ALL_LOCALES, None)
}

/// Each FileDataID of the listing once, in increasing order.
#[verifier::opaque]
pub open spec fn ids_increasing(listed: Seq<(u32, Seq<char>)>) -> bool {
    forall|i: int, j: int| 0 <= i < j < listed.len() ==> #[trigger] listed[i].0 < #[trigger] listed[j].0
}

/// `files` is the catalog of some storage listing (each FileDataID once, in
/// increasing order).
pub open spec fn is_listing_catalog(files: Seq<(u32, Seq<char>)>) -> bool {
    exists|listed: Seq<(u32, Seq<char>)>|
        #[trigger] is_catalog_of(files, listed) && ids_increasing(listed) && listed.len() <= usize::MAX
}

/// Figures the storage reports about itself.
#[derive(Debug, Clone)]
pub struct StorageSummary {
    pub product: String,
    pub version: String,
    pub build_name: String,
    pub root_format: String,
    pub encoding_entries: usize,
    pub root_entries: usize,
    pub index_entries: usize,
    pub listfile_entries: usize,
}

/// The figures of a `StorageSummary`: product, version, build name, root
/// format, and the encoding, root, index and listfile entry counts.
pub type Figures = (Seq<char>, Seq<char>, Seq<char>, Seq<char>, usize, usize, usize, usize);

pub open spec fn summary_view(s: StorageSummary) -> Figures {
    (
        s.product@,
        s.version@,
        s.build_name@,
        s.root_format@,
        s.encoding_entries,
        s.root_entries,
        s.index_entries,
        s.listfile_entries,
    )
}

/// What `CascStorage::info` reports of a storage. It copies fields and
/// lengths of what the storage holds in memory, so it is a function of the
/// storage.
pub uninterp spec fn storage_figures(storage: CascStorage) -> (Seq<char>, Seq<char>, Seq<char>, Seq<char>, usize, usize, usize, usize);

/// `CascStorage::info`, its fields moved into a `StorageSummary`.
///
/// The contract names the figures `storage_figures` of the storage; what
/// they are for a given storage is left unsaid.
#[verifier::external_body]
fn storage_summary(storage: &CascStorage) -> (r: StorageSummary)
    ensures
        summary_view(r) == storage_figures(*storage),
{
    let info = storage.info();
    StorageSummary {
        product: info.product,
        version: info.version,
        build_name: info.build_name,
        root_format: info.root_format,
        encoding_entries: info.encoding_entries,
        root_entries: info.root_entries,
        index_entries: info.index_entries,
        listfile_entries: info.listfile_entries,
    }
}

/// `outcome` is something that `CascStorage::read_by_fdid` can return when it
/// reads FileDataID `id` (all locales) from `storage`: the bytes, or the text
/// of its error. A relation, not a function: two reads of the same file may
/// come back differently, since the bytes are read from disk.
pub uninterp spec fn read_of(storage: CascStorage, id: u32, outcome: Result<Seq<u8>, Seq<char>>) -> bool;

/// The outcome of a read, by views.
pub open spec fn read_view(read: Result<Vec<u8>, String>) -> Result<Seq<u8>, Seq<char>> {
    match read {
        Ok(b) => Ok(b@),
        Err(m) => Err(m@),
    }
}

/// The contents of FileDataID `file_data_id` in any locale
/// (`CascStorage::read_by_fdid` with all locale bits), or the text of its error.
///
/// The contract says only that the outcome is a read of that FileDataID from
/// that storage (`read_of`); which bytes or error come back depends on the
/// archives on disk and is left unsaid.
#[verifier::external_body]
fn read_fdid(storage: &CascStorage, file_data_id: u32) -> (r: Result<Vec<u8>, String>)
    ensures
        read_of(*storage, file_data_id, read_view(r)),
{
    match storage.read_by_fdid(file_data_id, casc_lib::root::flags::LocaleFlags(ALL_LOCALES)) {
        Ok(bytes) => Ok(bytes),
        Err(err) => Err(err.to_string()),
    }
}

/// Why a CASC session could not do what was asked.
#[derive(Debug, Clone, PartialEq, Eq)]
pub enum CascSessionError {
    /// No shared install root (a folder with `.build.info` and `Data`) was found.
    InstallRoot(String),
    /// The storage could not be opened or read; the text says why.
    Open(String),
    /// The FileDataID is not in the catalog.
    MissingFile(u32),
    /// The extracted file could not be written; the text says why.
    Write(String),
}

impl CascSessionError {
    pub open spec fn spec_message(self) -> Seq<char> {
        match self {
            CascSessionError::InstallRoot(p) => "could not locate the shared WoW install root for "@
                + p@,
            CascSessionError::Open(m) => "CASC open failed: "@ + m@,
            CascSessionError::MissingFile(id) => "FileDataID "@ + crate::number::decimal(id as nat)
                + " is not in the loaded catalog"@,
            CascSessionError::Write(m) => "failed to write extracted file: "@ + m@,
        }
    }

    /// The error's text.
    pub fn message(&self) -> (r: String)
        ensures
            r@ == self.spec_message(),
    {
        let v = match self {
            CascSessionError::InstallRoot(p) => crate::text::concat_chars(
                &chars_of("could not locate the shared WoW install root for "),
                &chars_of(p.as_str()),
            ),
            CascSessionError::Open(m) => crate::text::concat_chars(
                &chars_of("CASC open failed: "),
                &chars_of(m.as_str()),
            ),
            CascSessionError::MissingFile(id) => crate::text::concat_chars(
                &crate::text::concat_chars(&chars_of("FileDataID "), &crate::number::decimal_chars(*id)),
                &chars_of(" is not in the loaded catalog"),
            ),
            CascSessionError::Write(m) => crate::text::concat_chars(
                &chars_of("failed to write extracted file: "),
                &chars_of(m.as_str()),
            ),
        };
        string_of(&v)
    }
}

/// The path of the first catalog entry with FileDataID `id`.
pub open spec fn path_of_id(files: Seq<(u32, Seq<char>)>, id: u32) -> Option<Seq<char>>
    decreases files.len(),
{
    if files.len() == 0 {
        None
    } else if files[0].0 == id {
        Some(files[0].1)
    } else {
        path_of_id(files.drop_first(), id)
    }
}

/// The path of the first entry of `files` with FileDataID `id`.
pub fn find_file_path(files: &Vec<ListfileMatch>, id: u32) -> (r: Option<String>)
    ensures
        match r {
            Some(p) => path_of_id(match_views(files@), id) == Some(p@),
            None => path_of_id(match_views(files@), id) is None,
        },
{
    let ghost fv = match_views(files@);
    let mut i: usize = 0;
    assert(fv.skip(0) =~= fv);
    while i < files.len()
        invariant
            i <= files.len(),
            fv == match_views(files@),
            path_of_id(fv, id) == path_of_id(fv.skip(i as int), id),
        decreases files.len() - i,
    {
        assert(fv.skip(i as int)[0] == fv[i as int]);
        assert(fv.skip(i as int).drop_first() =~= fv.skip(i as int + 1));
        if files[i].file_data_id == id {
            return Some(files[i].path.clone());
        }
        i = i + 1;
    }
    None
}

/// `a` is the inspection of contents `bytes` labelled `label`.
pub open spec fn inspects(a: AssetInspection, label: Seq<char>, bytes: Seq<u8>) -> bool {
    &&& a.path@ == label
    &&& a.size == bytes.len()
    &&& a.format@ == crate::inspector::format_name(crate::inspector::asset_kind(bytes))
    &&& crate::inspector::details_match(a.details, bytes)
}

/// `r` is what a storage read that returned `read` gives: its bytes, or
/// `Open` with the read's text.
pub open spec fn read_outcome_of(r: Result<Vec<u8>, CascSessionError>, read: Result<Vec<u8>, String>) -> bool {
    match read {
        Ok(b) => r matches Ok(x) && x@ == b@,
        Err(m) => r == Err::<Vec<u8>, CascSessionError>(CascSessionError::Open(m)),
    }
}

/// `r` is the inspection, labelled `label`, of what a storage read returned:
/// the inspection of its bytes, or `Open` with the read's text.
pub open spec fn inspected_read(
    r: Result<AssetInspection, CascSessionError>,
    label: Seq<char>,
    read: Result<Vec<u8>, String>,
) -> bool {
    match read {
        Ok(b) => r matches Ok(a) && inspects(a, label, b@),
        Err(m) => r == Err::<AssetInspection, CascSessionError>(CascSessionError::Open(m)),
    }
}

/// What a storage read gives a session: the bytes read, or `Open` with the
/// text of the read's error.
pub fn read_outcome(read: Result<Vec<u8>, String>) -> (r: Result<Vec<u8>, CascSessionError>)
    ensures
        read_outcome_of(r, read),
{
    match read {
        Ok(bytes) => Ok(bytes),
        Err(message) => Err(CascSessionError::Open(message)),
    }
}

/// Where an extracted file goes: below the output folder, at the parts of
/// its virtual path when that path is safe, else at `unknown/<id>.dat`.
pub open spec fn extraction_parts(path: Seq<char>, id: u32) -> Seq<Seq<char>> {
    match safe_parts(path) {
        Some(p) => p,
        None => seq!["unknown"@, crate::number::decimal(id as nat) + ".dat"@],
    }
}

proof fn lemma_without_dots_none(x: Seq<Seq<char>>)
    requires
        forall|i: int| 0 <= i < x.len() ==> #[trigger] x[i] != seq!['.'],
    ensures
        without_dots(x) == x,
    decreases x.len(),
{
    if x.len() > 0 {
        let d = x.drop_last();
        assert forall|i: int| 0 <= i < d.len() implies #[trigger] d[i] != seq!['.'] by {
            assert(d[i] == x[i]);
        }
        lemma_without_dots_none(d);
        assert(x.last() == x[x.len() - 1]);
        assert(d.push(x.last()) =~= x);
    }
}

/// A file whose virtual path has parts, none of them `..`, the first neither
/// `.` nor a drive, is extracted under the folders of that path, in order:
/// its relative path is the path's parts without `.` parts. When no part is
/// `.`, joining them with `/` gives back the normalised virtual path.
pub proof fn lemma_extraction_keeps_folders(path: Seq<char>, id: u32)
    requires
        path_parts(path).len() > 0,
        path_parts(path)[0] != seq!['.'],
        !is_drive_part(path_parts(path)[0]),
        forall|i: int| 0 <= i < path_parts(path).len() ==> #[trigger] path_parts(path)[i] != seq!['.', '.'],
    ensures
        extraction_parts(path, id) == without_dots(path_parts(path)),
        (forall|i: int| 0 <= i < path_parts(path).len() ==> #[trigger] path_parts(path)[i] != seq!['.'])
            ==> join(extraction_parts(path, id), '/') == normalize_path(path),
{
    let parts = path_parts(path);
    if parts.contains(seq!['.', '.']) {
        let k = choose|k: int| 0 <= k < parts.len() && parts[k] == seq!['.', '.'];
        assert(parts[k] != seq!['.', '.']);
    }
    if forall|i: int| 0 <= i < parts.len() ==> #[trigger] parts[i] != seq!['.'] {
        lemma_without_dots_none(parts);
    }
}

/// The virtual path of a file and the relative path it is extracted to.
#[derive(Debug, Clone, PartialEq, Eq)]
pub struct ExtractPlan {
    pub virtual_path: String,
    pub relative: Vec<String>,
}

/// An open CASC storage and the catalog of its files.
pub struct CascSession {
    storage: CascStorage,
    files: Vec<ListfileMatch>,
    selected_path: String,
    install_root: String,
    product: String,
}

impl CascSession {
    /// The catalog: FileDataIDs and normalised paths, in catalog order.
    pub closed spec fn catalog(&self) -> Seq<(u32, Seq<char>)> {
        match_views(self.files@)
    }

    /// The storage the session reads from.
    pub closed spec fn spec_storage(&self) -> CascStorage {
        self.storage
    }

    pub closed spec fn spec_selected_path(&self) -> Seq<char> {
        self.selected_path@
    }

    pub closed spec fn spec_install_root(&self) -> Seq<char> {
        self.install_root@
    }

    pub closed spec fn spec_product(&self) -> Seq<char> {
        self.product@
    }

    /// Starts a session on an opened storage: builds the catalog of its
    /// files and reports what was found.
    pub fn open(
        storage: CascStorage,
        selected_path: String,
        install_root: String,
        product: String,
        default_extract_root: String,
    ) -> (r: (CascSession, CascCatalogInfo))
        ensures
            r.0.spec_storage() == storage,
            is_catalog_of(r.0.catalog(), storage_listing(storage)),
            is_listing_catalog(r.0.catalog()),
            (r.1.product@, r.1.version@, r.1.build_name@, r.1.root_format@, r.1.encoding_entries,
                r.1.root_entries, r.1.index_entries, r.1.listfile_entries) == storage_figures(storage),
            r.0.spec_selected_path() == selected_path@,
            r.0.spec_install_root() == install_root@,
            r.0.spec_product() == product@,
            r.1.selected_path@ == selected_path@,
            r.1.install_root@ == install_root@,
            r.1.files == r.0.catalog().len(),
            r.1.default_extract_root@ == default_extract_root@,
    {
        let listed = list_all_files(&storage);
        let ghost lv = listing_views(listed@);
        assert(lv.len() == listed.len());
        assert(lv.len() <= usize::MAX);
        assert forall|i: int, j: int| 0 <= i < j < lv.len() implies lv[i].0 < lv[j].0 by {
            assert(lv[i].0 == listed@[i].0 && lv[j].0 == listed@[j].0);
        }
        let files = catalog_from_listing(listed);
        let summary = storage_summary(&storage);
        let info = CascCatalogInfo {
            selected_path: selected_path.clone(),
            install_root: install_root.clone(),
            product: summary.product,
            version: summary.version,
            build_name: summary.build_name,
            root_format: summary.root_format,
            files: files.len(),
            encoding_entries: summary.encoding_entries,
            root_entries: summary.root_entries,
            index_entries: summary.index_entries,
            listfile_entries: summary.listfile_entries,
            default_extract_root,
        };
        let session = CascSession { storage, files, selected_path, install_root, product };
        assert(ids_increasing(lv)) by {
            reveal(ids_increasing);
        }
        assert(is_catalog_of(session.catalog(), lv));
        assert(is_listing_catalog(session.catalog()));
        assert(lv == storage_listing(session.storage));
        (session, info)
    }

    /// The catalog entries, in catalog order.
    pub fn files(&self) -> (r: &Vec<ListfileMatch>)
        ensures
            match_views(r@) == self.catalog(),
    {
        &self.files
    }

    /// The sub-folders and files directly inside folder `requested`.
    pub fn list_directory(&self, requested: &str) -> (r: CascDirectoryListing)
        ensures
            lists(r, self.catalog(), requested@),
    {
        list_directory(&self.files, requested)
    }

    /// The virtual path of FileDataID `file_data_id`, or `MissingFile`.
    pub fn file_path(&self, file_data_id: u32) -> (r: Result<String, CascSessionError>)
        ensures
            match path_of_id(self.catalog(), file_data_id) {
                Some(p) => r matches Ok(s) && s@ == p,
                None => r == Err::<String, CascSessionError>(
                    CascSessionError::MissingFile(file_data_id),
                ),
            },
    {
        match find_file_path(&self.files, file_data_id) {
            Some(p) => Ok(p),
            None => Err(CascSessionError::MissingFile(file_data_id)),
        }
    }

    /// Reads the contents of FileDataID `file_data_id` from the storage;
    /// `MissingFile` when it is not in the catalog (nothing is read then), and
    /// `Open` with the storage's text when the read fails.
    pub fn read_file(&self, file_data_id: u32) -> (r: Result<Vec<u8>, CascSessionError>)
        ensures
            path_of_id(self.catalog(), file_data_id) is None ==> r == Err::<Vec<u8>, CascSessionError>(
                CascSessionError::MissingFile(file_data_id),
            ),
            path_of_id(self.catalog(), file_data_id) is Some ==> exists|read: Result<Vec<u8>, String>|
                read_of(self.spec_storage(), file_data_id, read_view(read))
                    && #[trigger] read_outcome_of(r, read),
    {
        let _path = self.file_path(file_data_id)?;
        let read = read_fdid(&self.storage, file_data_id);
        let ghost seen = read;
        let r = read_outcome(read);
        proof {
            assert(read_of(self.spec_storage(), file_data_id, read_view(seen)) && read_outcome_of(r, seen));
        }
        r
    }

    /// Reads FileDataID `file_data_id` from the storage and inspects it,
    /// labelled with its virtual path. `MissingFile` when it is not in the
    /// catalog (nothing is read then), `Open` with the storage's text when the
    /// read fails.
    pub fn inspect_file(&self, file_data_id: u32) -> (r: Result<AssetInspection, CascSessionError>)
        ensures
            match path_of_id(self.catalog(), file_data_id) {
                Some(p) => exists|read: Result<Vec<u8>, String>|
                    read_of(self.spec_storage(), file_data_id, read_view(read))
                        && #[trigger] inspected_read(r, p, read),
                None => r == Err::<AssetInspection, CascSessionError>(
                    CascSessionError::MissingFile(file_data_id),
                ),
            },
    {
        let _path = self.file_path(file_data_id)?;
        let read = read_fdid(&self.storage, file_data_id);
        let ghost seen = read;
        let r = self.inspect_read(file_data_id, read);
        proof {
            assert(read_of(self.spec_storage(), file_data_id, read_view(seen)) && inspected_read(
                r,
                path_of_id(self.catalog(), file_data_id)->0,
                seen,
            ));
        }
        r
    }

    /// What inspecting FileDataID `file_data_id` gives when the storage read
    /// of it returned `read`: the inspection of the bytes, labelled with the
    /// virtual path, or `Open` with the read's text; `MissingFile` when the
    /// FileDataID is not in the catalog.
    pub fn inspect_read(&self, file_data_id: u32, read: Result<Vec<u8>, String>) -> (r: Result<
        AssetInspection,
        CascSessionError,
    >)
        ensures
            match path_of_id(self.catalog(), file_data_id) {
                Some(p) => inspected_read(r, p, read),
                None => r == Err::<AssetInspection, CascSessionError>(
                    CascSessionError::MissingFile(file_data_id),
                ),
            },
    {
        let path = self.file_path(file_data_id)?;
        match read {
            Ok(bytes) => Ok(crate::inspector::inspect_bytes(path.as_str(), bytes.as_slice())),
            Err(message) => Err(CascSessionError::Open(message)),
        }
    }

    /// Inspects the contents `bytes` read for FileDataID `file_data_id`,
    /// labelled with its virtual path; `MissingFile` when it is not in the catalog.
    pub fn inspect_contents(&self, file_data_id: u32, bytes: &[u8]) -> (r: Result<
        AssetInspection,
        CascSessionError,
    >)
        ensures
            match path_of_id(self.catalog(), file_data_id) {
                Some(p) => r matches Ok(a) && inspects(a, p, bytes@),
                None => r == Err::<AssetInspection, CascSessionError>(
                    CascSessionError::MissingFile(file_data_id),
                ),
            },
    {
        let path = self.file_path(file_data_id)?;
        Ok(crate::inspector::inspect_bytes(path.as_str(), bytes))
    }

    /// Where FileDataID `file_data_id` is extracted to, below the output folder.
    pub fn plan_extraction(&self, file_data_id: u32) -> (r: Result<ExtractPlan, CascSessionError>)
        ensures
            match path_of_id(self.catalog(), file_data_id) {
                Some(p) => r matches Ok(plan) && plan.virtual_path@ == p && plan.relative@.map_values(
                    |s: String| s@,
                ) == extraction_parts(p, file_data_id),
                None => r == Err::<ExtractPlan, CascSessionError>(
                    CascSessionError::MissingFile(file_data_id),
                ),
            },
    {
        let virtual_path = self.file_path(file_data_id)?;
        let relative = match safe_virtual_path(virtual_path.as_str()) {
            Some(parts) => parts,
            None => {
                let mut parts: Vec<String> = Vec::new();
                parts.push("unknown".to_owned());
                let name = crate::text::concat_chars(
                    &crate::number::decimal_chars(file_data_id),
                    &chars_of(".dat"),
                );
                parts.push(string_of(&name));
                assert(parts@.map_values(|s: String| s@) =~= seq![
                    "unknown"@,
                    crate::number::decimal(file_data_id as nat) + ".dat"@,
                ]);
                parts
            },
        };
        Ok(ExtractPlan { virtual_path, relative })
    }

    /// The folder that was selected when the session was opened.
    pub fn selected_path(&self) -> (r: &str)
        ensures
            r@ == self.spec_selected_path(),
    {
        self.selected_path.as_str()
    }

    /// The install root that holds `.build.info` and `Data`.
    pub fn install_root(&self) -> (r: &str)
        ensures
            r@ == self.spec_install_root(),
    {
        self.install_root.as_str()
    }

    /// The product the session was opened for.
    pub fn product(&self) -> (r: &str)
        ensures
            r@ == self.spec_product(),
    {
        self.product.as_str()
    }
}

} // verus!

//! Community ListFiles: `FileDataID;path` rows, their index and its search.
use vstd::prelude::*;

use crate::number::{decimal, decimal_chars, parse_u32, parse_u32_chars};
use crate::order::{key_views, sort_indices, stably_sorted, SortKey};
use crate::text::{
    chars_of, contains_chars, contains_seq, find_first, find_last, first_index_of, has_prefix,
    last_index_of, lower_seq, split, string_of, to_lower, trim, trim_chars,
};
use crate::types::{match_views, ExtensionCount, ListfileMatch, ListfileSummary};

verus! {

/// Why a ListFile could not be imported.
#[derive(Debug, Clone, PartialEq, Eq)]
pub enum ListfileError {
    /// The file could not be read; the text says why.
    Io(String),
    /// No line held a FileDataID and a path.
    Empty,
}

impl ListfileError {
    pub open spec fn spec_message(self) -> Seq<char> {
        match self {
            ListfileError::Io(m) => "failed to read ListFile: "@ + m@,
            ListfileError::Empty => "ListFile contained no FileDataID/path rows"@,
        }
    }

    /// The error's text.
    pub fn message(&self) -> (r: String)
        ensures
            r@ == self.spec_message(),
    {
        match self {
            ListfileError::Io(m) => string_of(
                &crate::text::concat_chars(
                    &chars_of("failed to read ListFile: "),
                    &chars_of(m.as_str()),
                ),
            ),
            ListfileError::Empty => "ListFile contained no FileDataID/path rows".to_owned(),
        }
    }
}

// ---------------------------------------------------------------------------
// Line format
// ---------------------------------------------------------------------------

/// `s` without its leading U+FEFF byte-order marks.
pub open spec fn strip_bom(s: Seq<char>) -> Seq<char>
    decreases s.len(),
{
    if s.len() > 0 && s[0] == '\u{feff}' {
        strip_bom(s.drop_first())
    } else {
        s
    }
}

/// The text before the first `;` of a line, or the whole line.
pub open spec fn id_field(l: Seq<char>) -> Seq<char> {
    match first_index_of(l, ';') {
        Some(k) => l.take(k),
        None => l,
    }
}

/// The text after the first `;` of a line, or nothing.
pub open spec fn path_field(l: Seq<char>) -> Seq<char> {
    match first_index_of(l, ';') {
        Some(k) => l.skip(k + 1),
        None => Seq::<char>::empty(),
    }
}

/// The FileDataID and path a ListFile line holds: blank lines, `#` comments,
/// lines whose id is not a `u32` and lines with an empty path hold none.
pub open spec fn listfile_line(line: Seq<char>) -> Option<(u32, Seq<char>)> {
    let l = trim(line);
    if l.len() == 0 || l[0] == '#' {
        None
    } else {
        let path = trim(path_field(l));
        match parse_u32(strip_bom(trim(id_field(l)))) {
            Some(id) => if path.len() > 0 {
                Some((id, path))
            } else {
                None
            },
            None => None,
        }
    }
}

/// The rows that `lines` hold, in order.
pub open spec fn listfile_rows(lines: Seq<Seq<char>>) -> Seq<(u32, Seq<char>)>
    decreases lines.len(),
{
    if lines.len() == 0 {
        Seq::empty()
    } else {
        let prev = listfile_rows(lines.drop_last());
        match listfile_line(lines.last()) {
            Some(e) => prev.push(e),
            None => prev,
        }
    }
}

/// The rows of a whole ListFile.
pub open spec fn listfile_text_rows(text: Seq<char>) -> Seq<(u32, Seq<char>)> {
    listfile_rows(split(text, '\n'))
}

// ---------------------------------------------------------------------------
// Extensions
// ---------------------------------------------------------------------------

/// `path` with every backslash turned into a slash.
pub open spec fn forward_slashes(path: Seq<char>) -> Seq<char> {
    path.map_values(|c: char| if c == '\\' { '/' } else { c })
}

/// The lower-cased text after the last `.` of a path, or `(none)` when that
/// text holds a folder separator.
pub open spec fn extension_spec(path: Seq<char>) -> Seq<char> {
    let n = forward_slashes(path);
    let last = match last_index_of(n, '.') {
        Some(k) => n.skip(k + 1),
        None => n,
    };
    if last.contains('/') {
        "(none)"@
    } else {
        lower_seq(last)
    }
}

/// How many of `rows` have the extension `e`.
pub open spec fn extension_count(rows: Seq<(u32, Seq<char>)>, e: Seq<char>) -> nat
    decreases rows.len(),
{
    if rows.len() == 0 {
        0
    } else {
        extension_count(rows.drop_last(), e) + if extension_spec(rows.last().1) == e {
            1nat
        } else {
            0nat
        }
    }
}

/// (extension, count) rows, most frequent first and by extension among equal
/// counts, one per extension of `rows`, each with its count.
pub open spec fn extension_summary(rows: Seq<(u32, Seq<char>)>, ext: Seq<(Seq<char>, usize)>) -> bool {
    &&& forall|i: int, j: int|
        0 <= i < j < ext.len() ==> #[trigger] ext[i].1 > #[trigger] ext[j].1 || (ext[i].1
            == ext[j].1 && crate::order::seq_lt(ext[i].0, ext[j].0))
    &&& forall|i: int|
        0 <= i < ext.len() ==> #[trigger] ext[i].1 == extension_count(rows, ext[i].0) && ext[i].1
            > 0
    &&& forall|r: int|
        0 <= r < rows.len() ==> exists|i: int|
            0 <= i < ext.len() && #[trigger] ext[i].0 == extension_spec(#[trigger] rows[r].1)
}

pub open spec fn extension_views(e: Seq<ExtensionCount>) -> Seq<(Seq<char>, usize)> {
    e.map_values(|x: ExtensionCount| (x.extension@, x.count))
}

/// The sort key that orders rows by FileDataID.
pub open spec fn id_keys(rows: Seq<(u32, Seq<char>)>) -> Seq<(u64, Seq<char>, u64)> {
    rows.map_values(|r: (u32, Seq<char>)| (r.0 as u64, Seq::<char>::empty(), 0u64))
}

/// The extension of a ListFile path, lower-cased: the text after its last `.`,
/// or `(none)` when that text holds a folder separator.
pub fn extension_of(path: &str) -> (r: String)
    ensures
        r@ == extension_spec(path@),
{
    let chars = chars_of(path);
    let mut n: Vec<char> = Vec::new();
    let mut i: usize = 0;
    while i < chars.len()
        invariant
            i <= chars.len(),
            n@ == forward_slashes(chars@.take(i as int)),
        decreases chars.len() - i,
    {
        let c = chars[i];
        n.push(if c == '\\' { '/' } else { c });
        i = i + 1;
        assert(n@ =~= forward_slashes(chars@.take(i as int)));
    }
    assert(chars@.take(chars.len() as int) =~= chars@);
    let last = match find_last(&n, '.') {
        Some(k) => crate::text::copy_range(&n, k + 1, n.len()),
        None => crate::text::copy_range(&n, 0, n.len()),
    };
    assert(n@.subrange(0, n@.len() as int) =~= n@);
    assert(n@.subrange(0, n@.len() as int) =~= n@.skip(0));
    if crate::text::contains_char(&last, '/') {
        "(none)".to_owned()
    } else {
        string_of(&to_lower(&last))
    }
}

} // verus!

verus! {

fn strip_bom_chars(s: &Vec<char>) -> (r: Vec<char>)
    ensures
        r@ == strip_bom(s@),
{
    let mut i: usize = 0;
    assert(s@.skip(0) =~= s@);
    while i < s.len() && s[i] == '\u{feff}'
        invariant
            i <= s.len(),
            strip_bom(s@) == strip_bom(s@.skip(i as int)),
        decreases s.len() - i,
    {
        assert(s@.skip(i as int).drop_first() =~= s@.skip(i as int + 1));
        i = i + 1;
    }
    crate::text::copy_range(s, i, s.len())
}

/// The entry a ListFile line holds, if any.
fn parse_line(line: &Vec<char>) -> (r: Option<ListfileMatch>)
    ensures
        match r {
            Some(m) => listfile_line(line@) == Some(m@),
            None => listfile_line(line@) is None,
        },
{
    let l = trim_chars(line);
    if l.len() == 0 || l[0] == '#' {
        return None;
    }
    let (id_part, path_part) = match find_first(&l, ';') {
        Some(k) => (crate::text::copy_range(&l, 0, k), crate::text::copy_range(&l, k + 1, l.len())),
        None => (crate::text::copy_range(&l, 0, l.len()), Vec::new()),
    };
    assert(l@.subrange(0, l@.len() as int) =~= l@);
    assert(id_part@ == id_field(l@));
    assert(path_part@ == path_field(l@));
    let id_text = strip_bom_chars(&trim_chars(&id_part));
    let path = trim_chars(&path_part);
    match parse_u32_chars(&id_text) {
        Some(id) => {
            if path.len() > 0 {
                Some(ListfileMatch { file_data_id: id, path: string_of(&path) })
            } else {
                None
            }
        },
        None => None,
    }
}

/// An index of FileDataIDs and paths, in FileDataID order.
#[derive(Debug, Clone)]
pub struct ListfileIndex {
    entries: Vec<ListfileMatch>,
}

impl View for ListfileIndex {
    type V = Seq<(u32, Seq<char>)>;

    closed spec fn view(&self) -> Seq<(u32, Seq<char>)> {
        match_views(self.entries@)
    }
}

impl Default for ListfileIndex {
    fn default() -> (r: Self)
        ensures
            r@ == Seq::<(u32, Seq<char>)>::empty(),
    {
        let r = ListfileIndex { entries: Vec::new() };
        assert(r@ =~= Seq::<(u32, Seq<char>)>::empty());
        r
    }
}

/// `idx` and `summary` are what indexing `rows` gives: the rows stably sorted
/// by FileDataID, their number, and their extensions with counts.
pub open spec fn indexed(
    rows: Seq<(u32, Seq<char>)>,
    idx: Seq<(u32, Seq<char>)>,
    summary: ListfileSummary,
) -> bool {
    &&& stably_sorted(idx, rows, id_keys(rows))
    &&& summary.entries == rows.len()
    &&& extension_summary(rows, extension_views(summary.extensions@))
}

/// The extension of a path given as characters.
fn extension_chars(path: &Vec<char>) -> (r: Vec<char>)
    ensures
        r@ == extension_spec(path@),
{
    let mut n: Vec<char> = Vec::new();
    let mut i: usize = 0;
    while i < path.len()
        invariant
            i <= path.len(),
            n@ == forward_slashes(path@.take(i as int)),
        decreases path.len() - i,
    {
        let c = path[i];
        n.push(if c == '\\' { '/' } else { c });
        i = i + 1;
        assert(n@ =~= forward_slashes(path@.take(i as int)));
    }
    assert(path@.take(path.len() as int) =~= path@);
    let last = match find_last(&n, '.') {
        Some(k) => crate::text::copy_range(&n, k + 1, n.len()),
        None => crate::text::copy_range(&n, 0, n.len()),
    };
    assert(n@.subrange(0, n@.len() as int) =~= n@);
    if crate::text::contains_char(&last, '/') {
        chars_of("(none)")
    } else {
        to_lower(&last)
    }
}

proof fn lemma_extension_count_absent(rows: Seq<(u32, Seq<char>)>, e: Seq<char>)
    requires
        forall|x: int| 0 <= x < rows.len() ==> extension_spec(#[trigger] rows[x].1) != e,
    ensures
        extension_count(rows, e) == 0,
    decreases rows.len(),
{
    if rows.len() > 0 {
        lemma_extension_count_absent(rows.drop_last(), e);
    }
}

fn find_text(list: &Vec<Vec<char>>, e: &Vec<char>) -> (r: Option<usize>)
    ensures
        match r {
            Some(a) => a < list.len() && list@[a as int]@ == e@,
            None => forall|b: int| 0 <= b < list.len() ==> #[trigger] list@[b]@ != e@,
        },
{
    let mut a: usize = 0;
    while a < list.len()
        invariant
            a <= list.len(),
            forall|b: int| 0 <= b < a ==> #[trigger] list@[b]@ != e@,
        decreases list.len() - a,
    {
        if crate::text::same_chars(&list[a], e) {
            return Some(a);
        }
        a = a + 1;
    }
    None
}

/// Counts the extensions of `rows` and orders them most frequent first.
fn summarize_extensions(rows: &Vec<ListfileMatch>) -> (r: Vec<ExtensionCount>)
    ensures
        extension_summary(match_views(rows@), extension_views(r@)),
{
    let ghost rv = match_views(rows@);
    let mut exts: Vec<Vec<char>> = Vec::new();
    let mut counts: Vec<usize> = Vec::new();
    let mut i: usize = 0;
    while i < rows.len()
        invariant
            rv == match_views(rows@),
            i <= rows.len(),
            exts.len() == counts.len(),
            forall|a: int, b: int|
                0 <= a < b < exts.len() ==> #[trigger] exts@[a]@ != #[trigger] exts@[b]@,
            forall|a: int|
                0 <= a < exts.len() ==> #[trigger] counts@[a] == extension_count(
                    rv.take(i as int),
                    exts@[a]@,
                ) && counts@[a] > 0 && counts@[a] <= i,
            forall|x: int|
                0 <= x < i ==> exists|a: int|
                    0 <= a < exts.len() && #[trigger] exts@[a]@ == extension_spec(#[trigger] rv[x].1),
        decreases rows.len() - i,
    {
        let e = extension_chars(&chars_of(rows[i].path.as_str()));
        let ghost prev = rv.take(i as int);
        assert(rv.take(i as int + 1).drop_last() =~= prev);
        assert(rv.take(i as int + 1).last() == rv[i as int]);
        let found = find_text(&exts, &e);
        let ghost old_exts = exts@;
        let ghost old_counts = counts@;
        let ghost slot: int;
        match found {
            Some(a) => {
                let c = counts[a];
                counts.set(a, c + 1);
                proof {
                    slot = a as int;
                }
            },
            None => {
                proof {
                    lemma_extension_count_absent(prev, e@);
                    slot = exts.len() as int;
                }
                exts.push(e);
                counts.push(1);
            },
        }
        i = i + 1;
        proof {
            assert forall|b: int|
                0 <= b < exts.len() implies #[trigger] counts@[b] == extension_count(
                rv.take(i as int),
                exts@[b]@,
            ) && counts@[b] > 0 && counts@[b] <= i by {
                if b < old_exts.len() {
                    assert(exts@[b] == old_exts[b]);
                }
                if b != slot {
                    assert(exts@[b]@ != e@);
                }
            }
            assert forall|x: int| 0 <= x < i implies exists|b: int|
                0 <= b < exts.len() && #[trigger] exts@[b]@ == extension_spec(#[trigger] rv[x].1) by {
                if x < i - 1 {
                    let b = choose|b: int|
                        0 <= b < old_exts.len() && #[trigger] old_exts[b]@ == extension_spec(rv[x].1);
                    assert(exts@[b] == old_exts[b]);
                } else {
                    assert(exts@[slot]@ == e@);
                }
            }
        }
    }
    assert(rv.take(rows.len() as int) =~= rv);

    let mut keys: Vec<SortKey> = Vec::new();
    let mut k: usize = 0;
    while k < exts.len()
        invariant
            k <= exts.len(),
            exts.len() == counts.len(),
            keys.len() == k,
            forall|a: int|
                0 <= a < k ==> #[trigger] keys@[a]@ == (
                    (u64::MAX - counts@[a]) as u64,
                    exts@[a]@,
                    0u64,
                ),
        decreases exts.len() - k,
    {
        keys.push(SortKey { major: u64::MAX - counts[k] as u64, text: exts[k].clone(), minor: 0 });
        k = k + 1;
    }
    let order = sort_indices(&keys);
    let ghost kv = key_views(keys@);
    let mut out: Vec<ExtensionCount> = Vec::new();
    let mut j: usize = 0;
    while j < order.len()
        invariant
            j <= order.len(),
            order.len() == exts.len(),
            exts.len() == counts.len(),
            crate::order::is_sorted_perm(kv, order@),
            out.len() == j,
            forall|x: int|
                0 <= x < j ==> (#[trigger] out@[x]).extension@ == exts@[order@[x] as int]@ && out@[x].count
                    == counts@[order@[x] as int],
        decreases order.len() - j,
    {
        let p = order[j];
        out.push(ExtensionCount { extension: string_of(&exts[p]), count: counts[p] });
        j = j + 1;
    }
    proof {
        let ev = extension_views(out@);
        assert forall|x: int, y: int| 0 <= x < y < ev.len() implies #[trigger] ev[x].1 > #[trigger] ev[y].1 || (
        ev[x].1 == ev[y].1 && crate::order::seq_lt(ev[x].0, ev[y].0)) by {
            let px = order@[x] as int;
            let py = order@[y] as int;
            assert(crate::order::before(kv, px, py));
            assert(kv[px] == keys@[px]@);
            assert(kv[py] == keys@[py]@);
            assert(px != py) by {
                if px == py {
                    crate::order::lemma_key_lt_irreflexive(kv[px]);
                }
            }
            assert(exts@[px]@ != exts@[py]@) by {
                if px < py {
                    assert(exts@[px]@ != exts@[py]@);
                } else {
                    assert(exts@[py]@ != exts@[px]@);
                }
            }
        }
        assert forall|x: int| 0 <= x < ev.len() implies #[trigger] ev[x].1 == extension_count(
            rv,
            ev[x].0,
        ) && ev[x].1 > 0 by {
            assert(counts@[order@[x] as int] == extension_count(rv, exts@[order@[x] as int]@));
        }
        assert forall|r: int| 0 <= r < rv.len() implies exists|x: int|
            0 <= x < ev.len() && #[trigger] ev[x].0 == extension_spec(#[trigger] rv[r].1) by {
            let a = choose|a: int| 0 <= a < exts.len() && #[trigger] exts@[a]@ == extension_spec(rv[r].1);
            assert(order@.contains(a as usize));
            let x = choose|x: int| 0 <= x < order@.len() && order@[x] == a as usize;
            assert(ev[x].0 == exts@[a]@);
        }
    }
    out
}

impl ListfileIndex {
    /// Indexes `entries`: stably sorted by FileDataID, with a summary of
    /// their number and extensions.
    pub fn from_entries(entries: Vec<ListfileMatch>) -> (r: (ListfileIndex, ListfileSummary))
        ensures
            indexed(match_views(entries@), r.0@, r.1),
    {
        let ghost rv = match_views(entries@);
        let extensions = summarize_extensions(&entries);
        let mut keys: Vec<SortKey> = Vec::new();
        let mut k: usize = 0;
        while k < entries.len()
            invariant
                rv == match_views(entries@),
                k <= entries.len(),
                keys.len() == k,
                key_views(keys@) == id_keys(rv.take(k as int)),
            decreases entries.len() - k,
        {
            let ghost old_keys = keys@;
            keys.push(SortKey { major: entries[k].file_data_id as u64, text: Vec::new(), minor: 0 });
            k = k + 1;
            assert forall|x: int| 0 <= x < k implies #[trigger] key_views(keys@)[x] == id_keys(
                rv.take(k as int),
            )[x] by {
                if x < k - 1 {
                    assert(keys@[x] == old_keys[x]);
                    assert(key_views(old_keys)[x] == id_keys(rv.take(k - 1))[x]);
                }
            }
            assert(key_views(keys@) =~= id_keys(rv.take(k as int)));
        }
        assert(rv.take(entries.len() as int) =~= rv);
        let order = sort_indices(&keys);
        let mut sorted: Vec<ListfileMatch> = Vec::new();
        let mut j: usize = 0;
        while j < order.len()
            invariant
                j <= order.len(),
                order.len() == entries.len(),
                crate::order::is_sorted_perm(key_views(keys@), order@),
                sorted.len() == j,
                forall|x: int| 0 <= x < j ==> #[trigger] sorted@[x] == entries@[order@[x] as int],
            decreases order.len() - j,
        {
            sorted.push(entries[order[j]].duplicate());
            j = j + 1;
        }
        let summary = ListfileSummary { entries: entries.len(), extensions };
        let idx = ListfileIndex { entries: sorted };
        proof {
            let sv = match_views(sorted@);
            assert(crate::order::is_sorted_perm(id_keys(rv), order@));
            assert(sv.len() == rv.len() && forall|x: int|
                0 <= x < sv.len() ==> sv[x] == rv[order@[x] as int]);
            assert(stably_sorted(idx@, rv, id_keys(rv)));
        }
        (idx, summary)
    }

    /// Imports the text of a ListFile: `FileDataID;path` per line, blank lines
    /// and `#` comments skipped, lines without a valid id or a path ignored.
    pub fn load(text: &str) -> (r: Result<(ListfileIndex, ListfileSummary), ListfileError>)
        ensures
            listfile_text_rows(text@).len() == 0 ==> r == Err::<
                (ListfileIndex, ListfileSummary),
                ListfileError,
            >(ListfileError::Empty),
            listfile_text_rows(text@).len() > 0 ==> (r matches Ok((idx, summary)) && indexed(
                listfile_text_rows(text@),
                idx@,
                summary,
            )),
    {
        let mut rows: Vec<ListfileMatch> = Vec::new();
        let mut cur: Vec<char> = Vec::new();
        for c in it: text.chars()
            invariant
                it.seq() == text@,
                match_views(rows@) == listfile_rows(
                    split(it.seq().take(it.index() as int), '\n').drop_last(),
                ),
                cur@ == split(it.seq().take(it.index() as int), '\n').last(),
        {
            let ghost done = it.seq().take(it.index() as int);
            assert(it.seq().take(it.index() + 1) =~= done.push(c));
            proof {
                crate::text::lemma_split_push(done, c, '\n');
                crate::text::lemma_split_nonempty(done, '\n');
            }
            if c == '\n' {
                let ghost pieces = split(done, '\n');
                assert(pieces.drop_last().push(pieces.last()) =~= pieces);
                if let Some(m) = parse_line(&cur) {
                    rows.push(m);
                }
                cur = Vec::new();
                assert(split(done.push(c), '\n').drop_last() =~= pieces);
            } else {
                cur.push(c);
                assert(split(done.push(c), '\n').drop_last() =~= split(done, '\n').drop_last());
            }
        }
        let ghost pieces = split(text@, '\n');
        proof {
            crate::text::lemma_split_nonempty(text@, '\n');
            assert(text@.take(text@.len() as int) =~= text@);
            assert(pieces.drop_last().push(pieces.last()) =~= pieces);
        }
        if let Some(m) = parse_line(&cur) {
            rows.push(m);
        }
        assert(match_views(rows@) == listfile_text_rows(text@));
        if rows.len() == 0 {
            return Err(ListfileError::Empty);
        }
        Ok(ListfileIndex::from_entries(rows))
    }
}

// ---------------------------------------------------------------------------
// Search
// ---------------------------------------------------------------------------

/// The text a query is matched with: trimmed and lower-cased.
pub open spec fn search_needle(query: Seq<char>) -> Seq<char> {
    lower_seq(trim(query))
}

/// An entry matches a needle when the needle is its FileDataID, when its
/// lower-cased path contains the needle, or when its FileDataID's decimal
/// text starts with the needle.
pub open spec fn entry_matches(e: (u32, Seq<char>), needle: Seq<char>) -> bool {
    parse_u32(needle) == Some(e.0) || contains_seq(lower_seq(e.1), needle) || needle.is_prefix_of(
        decimal(e.0 as nat),
    )
}

/// The entries that match `needle`, in order.
pub open spec fn hits(entries: Seq<(u32, Seq<char>)>, needle: Seq<char>) -> Seq<(u32, Seq<char>)>
    decreases entries.len(),
{
    if entries.len() == 0 {
        Seq::empty()
    } else {
        let prev = hits(entries.drop_last(), needle);
        if entry_matches(entries.last(), needle) {
            prev.push(entries.last())
        } else {
            prev
        }
    }
}

/// The most results a search with `limit` returns: `limit`, but at least one.
pub open spec fn result_cap(limit: usize) -> nat {
    if limit == 0 {
        1
    } else {
        limit as nat
    }
}

/// What a search returns: nothing for a blank query, else the first matches,
/// in index order, up to the cap.
pub open spec fn search_results(entries: Seq<(u32, Seq<char>)>, query: Seq<char>, limit: usize) -> Seq<
    (u32, Seq<char>),
> {
    let needle = search_needle(query);
    if needle.len() == 0 {
        Seq::empty()
    } else {
        let m = hits(entries, needle);
        m.take(
            if m.len() < result_cap(limit) {
                m.len() as int
            } else {
                result_cap(limit) as int
            },
        )
    }
}

proof fn lemma_hits_prefix(s: Seq<(u32, Seq<char>)>, needle: Seq<char>, k: int)
    requires
        0 <= k <= s.len(),
    ensures
        hits(s.take(k), needle).is_prefix_of(hits(s, needle)),
    decreases s.len(),
{
    if k < s.len() {
        assert(s.drop_last().take(k) =~= s.take(k));
        lemma_hits_prefix(s.drop_last(), needle, k);
    } else {
        assert(s.take(k) =~= s);
    }
}

impl ListfileIndex {
    /// Finds entries by FileDataID or by a piece of their path, ignoring ASCII
    /// case, in index order; stops after `limit` results (at least one).
    pub fn search(&self, query: &str, limit: usize) -> (r: Vec<ListfileMatch>)
        ensures
            match_views(r@) == search_results(self@, query@, limit),
    {
        let needle = to_lower(&trim_chars(&chars_of(query)));
        let ghost ev = self@;
        if needle.len() == 0 {
            let r: Vec<ListfileMatch> = Vec::new();
            assert(match_views(r@) =~= Seq::<(u32, Seq<char>)>::empty());
            return r;
        }
        let exact_id = parse_u32_chars(&needle);
        let ghost cap = result_cap(limit);
        let mut out: Vec<ListfileMatch> = Vec::new();
        let mut i: usize = 0;
        while i < self.entries.len()
            invariant
                ev == match_views(self.entries@),
                i <= self.entries.len(),
                needle@ == search_needle(query@),
                needle@.len() > 0,
                exact_id == parse_u32(needle@),
                cap == result_cap(limit),
                match_views(out@) == hits(ev.take(i as int), needle@),
                out.len() < cap,
            decreases self.entries.len() - i,
        {
            let entry = &self.entries[i];
            let id_match = match exact_id {
                Some(v) => v == entry.file_data_id,
                None => false,
            };
            let matches = id_match || contains_chars(
                &to_lower(&chars_of(entry.path.as_str())),
                &needle,
            ) || has_prefix(&decimal_chars(entry.file_data_id), &needle);
            assert(ev.take(i as int + 1).drop_last() =~= ev.take(i as int));
            assert(ev.take(i as int + 1).last() == ev[i as int]);
            assert(matches == entry_matches(ev[i as int], needle@));
            if matches {
                out.push(entry.duplicate());
                assert(match_views(out@) =~= hits(ev.take(i as int + 1), needle@));
                if out.len() >= limit {
                    proof {
                        lemma_hits_prefix(ev, needle@, i + 1);
                        assert(out.len() == cap);
                        assert(hits(ev, needle@).take(cap as int) =~= hits(
                            ev.take(i as int + 1),
                            needle@,
                        ));
                    }
                    return out;
                }
            }
            i = i + 1;
        }
        assert(ev.take(self.entries.len() as int) =~= ev);
        assert(hits(ev, needle@).take(hits(ev, needle@).len() as int) =~= hits(ev, needle@));
        out
    }
}

// ---------------------------------------------------------------------------
// What an index and a search promise
// ---------------------------------------------------------------------------

/// An index lists every row once, in FileDataID order.
pub proof fn lemma_index_ordered(rows: Seq<(u32, Seq<char>)>, idx: Seq<(u32, Seq<char>)>)
    requires
        stably_sorted(idx, rows, id_keys(rows)),
    ensures
        idx.len() == rows.len(),
        forall|i: int, j: int| 0 <= i < j < idx.len() ==> #[trigger] idx[i].0 <= #[trigger] idx[j].0,
{
    let keys = id_keys(rows);
    let p = choose|p: Seq<usize>|
        #[trigger] crate::order::is_sorted_perm(keys, p) && idx.len() == rows.len() && forall|i: int|
            0 <= i < idx.len() ==> idx[i] == rows[p[i] as int];
    crate::order::lemma_sorted_keys(keys, p);
    assert forall|i: int, j: int| 0 <= i < j < idx.len() implies #[trigger] idx[i].0 <= #[trigger] idx[j].0 by {
        assert(!crate::order::key_lt(keys[p[j] as int], keys[p[i] as int]));
        assert(keys[p[i] as int].0 == rows[p[i] as int].0 as u64);
        assert(keys[p[j] as int].0 == rows[p[j] as int].0 as u64);
    }
}

/// The sum of the counts of an extension summary.
pub open spec fn count_sum(ext: Seq<(Seq<char>, usize)>) -> int
    decreases ext.len(),
{
    if ext.len() == 0 {
        0
    } else {
        count_sum(ext.drop_last()) + ext.last().1
    }
}

/// How many of `names` equal `e`.
pub open spec fn occurrences(names: Seq<Seq<char>>, e: Seq<char>) -> int
    decreases names.len(),
{
    if names.len() == 0 {
        0
    } else {
        occurrences(names.drop_last(), e) + if names.last() == e {
            1int
        } else {
            0int
        }
    }
}

/// The rows counted under each of `names`, added up.
pub open spec fn counted(rows: Seq<(u32, Seq<char>)>, names: Seq<Seq<char>>) -> int
    decreases names.len(),
{
    if names.len() == 0 {
        0
    } else {
        counted(rows, names.drop_last()) + extension_count(rows, names.last())
    }
}

proof fn lemma_occurrences(names: Seq<Seq<char>>, e: Seq<char>)
    requires
        forall|i: int, j: int| 0 <= i < j < names.len() ==> #[trigger] names[i] != #[trigger] names[j],
    ensures
        names.contains(e) ==> occurrences(names, e) == 1,
        !names.contains(e) ==> occurrences(names, e) == 0,
    decreases names.len(),
{
    if names.len() > 0 {
        let d = names.drop_last();
        assert forall|i: int, j: int| 0 <= i < j < d.len() implies #[trigger] d[i] != #[trigger] d[j] by {
            assert(d[i] == names[i] && d[j] == names[j]);
        }
        lemma_occurrences(d, e);
        assert(names.last() == names[names.len() - 1]);
        if names.last() == e {
            assert(!d.contains(e)) by {
                if d.contains(e) {
                    let k = choose|k: int| 0 <= k < d.len() && d[k] == e;
                    assert(names[k] != names[names.len() - 1]);
                }
            }
        } else {
            if names.contains(e) {
                let k = choose|k: int| 0 <= k < names.len() && names[k] == e;
                assert(d[k] == e);
            }
            if d.contains(e) {
                let k = choose|k: int| 0 <= k < d.len() && d[k] == e;
                assert(names[k] == e);
            }
        }
    }
}

proof fn lemma_counted_step(rows: Seq<(u32, Seq<char>)>, names: Seq<Seq<char>>)
    requires
        rows.len() > 0,
    ensures
        counted(rows, names) == counted(rows.drop_last(), names) + occurrences(
            names,
            extension_spec(rows.last().1),
        ),
    decreases names.len(),
{
    if names.len() > 0 {
        lemma_counted_step(rows, names.drop_last());
    }
}

proof fn lemma_counted_total(rows: Seq<(u32, Seq<char>)>, names: Seq<Seq<char>>)
    requires
        forall|i: int, j: int| 0 <= i < j < names.len() ==> #[trigger] names[i] != #[trigger] names[j],
        forall|r: int| 0 <= r < rows.len() ==> names.contains(extension_spec(#[trigger] rows[r].1)),
    ensures
        counted(rows, names) == rows.len(),
    decreases rows.len(),
{
    if rows.len() == 0 {
        lemma_counted_empty(rows, names);
    } else {
        let d = rows.drop_last();
        assert forall|r: int| 0 <= r < d.len() implies names.contains(extension_spec(#[trigger] d[r].1)) by {
            assert(d[r] == rows[r]);
        }
        lemma_counted_total(d, names);
        lemma_counted_step(rows, names);
        assert(rows.last() == rows[rows.len() - 1]);
        lemma_occurrences(names, extension_spec(rows.last().1));
    }
}

proof fn lemma_counted_empty(rows: Seq<(u32, Seq<char>)>, names: Seq<Seq<char>>)
    requires
        rows.len() == 0,
    ensures
        counted(rows, names) == 0,
    decreases names.len(),
{
    if names.len() > 0 {
        lemma_counted_empty(rows, names.drop_last());
    }
}

proof fn lemma_count_sum_counted(rows: Seq<(u32, Seq<char>)>, ext: Seq<(Seq<char>, usize)>)
    requires
        forall|i: int| 0 <= i < ext.len() ==> #[trigger] ext[i].1 == extension_count(rows, ext[i].0),
    ensures
        count_sum(ext) == counted(rows, ext.map_values(|e: (Seq<char>, usize)| e.0)),
    decreases ext.len(),
{
    if ext.len() > 0 {
        let d = ext.drop_last();
        assert forall|i: int| 0 <= i < d.len() implies #[trigger] d[i].1 == extension_count(rows, d[i].0) by {
            assert(d[i] == ext[i]);
        }
        lemma_count_sum_counted(rows, d);
        assert(ext.map_values(|e: (Seq<char>, usize)| e.0).drop_last() =~= d.map_values(
            |e: (Seq<char>, usize)| e.0,
        ));
        assert(ext.last() == ext[ext.len() - 1]);
    }
}

/// An extension summary accounts for every row: its counts add up to the
/// number of rows.
pub proof fn lemma_summary_total(rows: Seq<(u32, Seq<char>)>, ext: Seq<(Seq<char>, usize)>)
    requires
        extension_summary(rows, ext),
    ensures
        count_sum(ext) == rows.len(),
{
    let names = ext.map_values(|e: (Seq<char>, usize)| e.0);
    assert forall|i: int, j: int| 0 <= i < j < names.len() implies #[trigger] names[i] != #[trigger] names[j] by {
        assert(ext[i].1 > ext[j].1 || (ext[i].1 == ext[j].1 && crate::order::seq_lt(ext[i].0, ext[j].0)));
        if names[i] == names[j] {
            crate::order::lemma_seq_lt_irreflexive(ext[i].0);
        }
    }
    assert forall|r: int| 0 <= r < rows.len() implies names.contains(extension_spec(#[trigger] rows[r].1)) by {
        let i = choose|i: int| 0 <= i < ext.len() && #[trigger] ext[i].0 == extension_spec(rows[r].1);
        assert(names[i] == ext[i].0);
    }
    lemma_counted_total(rows, names);
    lemma_count_sum_counted(rows, ext);
}

proof fn lemma_hits_nonempty(entries: Seq<(u32, Seq<char>)>, needle: Seq<char>, i: int)
    requires
        0 <= i < entries.len(),
        entry_matches(entries[i], needle),
    ensures
        hits(entries, needle).len() > 0,
    decreases entries.len(),
{
    if i < entries.len() - 1 {
        assert(entries.drop_last()[i] == entries[i]);
        lemma_hits_nonempty(entries.drop_last(), needle, i);
    }
}

proof fn lemma_decimal_plain(n: nat)
    ensures
        trim(decimal(n)) == decimal(n),
        lower_seq(decimal(n)) == decimal(n),
    decreases n,
{
    let d = decimal(n);
    crate::number::lemma_decimal_all_digits(n);
    assert(!crate::text::is_ws(d[0]));
    assert(d.drop_first() =~= d.drop_first());
    assert(crate::text::trim_start(d) == d);
    assert(d.last() == d[d.len() - 1]);
    assert(!crate::text::is_ws(d.last()));
    assert(crate::text::trim_end(d) == d);
    assert forall|k: int| 0 <= k < d.len() implies lower_seq(d)[k] == d[k] by {
        assert(crate::number::is_digit(d[k]));
    }
    assert(lower_seq(d) =~= d);
}

/// Searching for a FileDataID that the index holds finds at least one entry.
pub proof fn lemma_search_finds_id(entries: Seq<(u32, Seq<char>)>, i: int, limit: usize)
    requires
        0 <= i < entries.len(),
    ensures
        search_results(entries, decimal(entries[i].0 as nat), limit).len() > 0,
{
    let q = decimal(entries[i].0 as nat);
    lemma_decimal_plain(entries[i].0 as nat);
    crate::number::lemma_parse_decimal(entries[i].0);
    crate::number::lemma_decimal_all_digits(entries[i].0 as nat);
    assert(search_needle(q) == q);
    assert(entry_matches(entries[i], q));
    lemma_hits_nonempty(entries, q, i);
}

/// Every search result matches the query, and there are at most `limit`
/// of them (at least one is allowed).
pub proof fn lemma_search_results(entries: Seq<(u32, Seq<char>)>, query: Seq<char>, limit: usize)
    ensures
        search_results(entries, query, limit).len() <= result_cap(limit),
        forall|k: int|
            0 <= k < search_results(entries, query, limit).len() ==> entry_matches(
                #[trigger] search_results(entries, query, limit)[k],
                search_needle(query),
            ),
{
    let needle = search_needle(query);
    if needle.len() > 0 {
        lemma_hits_match(entries, needle);
    }
}

proof fn lemma_hits_match(entries: Seq<(u32, Seq<char>)>, needle: Seq<char>)
    ensures
        forall|k: int| 0 <= k < hits(entries, needle).len() ==> entry_matches(
            #[trigger] hits(entries, needle)[k],
            needle,
        ),
    decreases entries.len(),
{
    if entries.len() > 0 {
        lemma_hits_match(entries.drop_last(), needle);
        let h = hits(entries, needle);
        let hd = hits(entries.drop_last(), needle);
        assert forall|k: int| 0 <= k < h.len() implies entry_matches(#[trigger] h[k], needle) by {
            if k < hd.len() {
                assert(h[k] == hd[k]);
            }
        }
    }
}

/// A search ignores the ASCII case of its query and whitespace around it:
/// queries that differ only there give the same results.
pub proof fn lemma_search_ignores_case_and_padding(
    entries: Seq<(u32, Seq<char>)>,
    query: Seq<char>,
    pad1: Seq<char>,
    pad2: Seq<char>,
    limit: usize,
)
    requires
        forall|k: int| 0 <= k < pad1.len() ==> crate::text::is_ws(#[trigger] pad1[k]),
        forall|k: int| 0 <= k < pad2.len() ==> crate::text::is_ws(#[trigger] pad2[k]),
    ensures
        search_results(entries, crate::text::upper_seq(query), limit) == search_results(
            entries,
            query,
            limit,
        ),
        search_results(entries, pad1 + query + pad2, limit) == search_results(entries, query, limit),
{
    crate::text::lemma_trim_lower_upper(query);
    crate::text::lemma_trim_padded(pad1, query, pad2);
}

/// A search for a non-blank query returns the matching entries from the
/// start of the index, in index order, and stops only at the limit: it
/// returns min(max(limit, 1), number of matches) of them. A blank query
/// returns nothing.
pub proof fn lemma_search_count(entries: Seq<(u32, Seq<char>)>, query: Seq<char>, limit: usize)
    ensures
        search_needle(query).len() == 0 ==> search_results(entries, query, limit).len() == 0,
        search_needle(query).len() > 0 ==> ({
            let m = hits(entries, search_needle(query));
            let r = search_results(entries, query, limit);
            let cap: int = if limit == 0 {
                1
            } else {
                limit as int
            };
            &&& r.len() == (if m.len() < cap {
                m.len() as int
            } else {
                cap
            })
            &&& forall|i: int| 0 <= i < r.len() ==> #[trigger] r[i] == m[i]
        }),
{
}

proof fn lemma_split_newline_concat(a: Seq<char>, b: Seq<char>)
    ensures
        split(a.push('\n') + b, '\n') == split(a, '\n') + split(b, '\n'),
    decreases b.len(),
{
    if b.len() == 0 {
        assert(a.push('\n') + b =~= a.push('\n'));
        crate::text::lemma_split_push(a, '\n', '\n');
        assert(split(b, '\n') == seq![Seq::<char>::empty()]);
        assert(split(a, '\n').push(Seq::<char>::empty()) =~= split(a, '\n') + seq![Seq::<char>::empty()]);
    } else {
        let b0 = b.drop_last();
        let c = b.last();
        lemma_split_newline_concat(a, b0);
        assert(a.push('\n') + b =~= (a.push('\n') + b0).push(c));
        assert(b =~= b0.push(c));
        crate::text::lemma_split_push(a.push('\n') + b0, c, '\n');
        crate::text::lemma_split_push(b0, c, '\n');
        crate::text::lemma_split_nonempty(b0, '\n');
        let sa = split(a, '\n');
        let sb = split(b0, '\n');
        if c == '\n' {
            assert((sa + sb).push(Seq::<char>::empty()) =~= sa + sb.push(Seq::<char>::empty()));
        } else {
            assert((sa + sb).update((sa + sb).len() - 1, (sa + sb).last().push(c)) =~= sa + sb.update(
                sb.len() - 1,
                sb.last().push(c),
            ));
        }
    }
}

proof fn lemma_rows_concat(x: Seq<Seq<char>>, y: Seq<Seq<char>>)
    ensures
        listfile_rows(x + y) == listfile_rows(x) + listfile_rows(y),
    decreases y.len(),
{
    if y.len() == 0 {
        assert(x + y =~= x);
        assert(listfile_rows(x) + listfile_rows(y) =~= listfile_rows(x));
    } else {
        lemma_rows_concat(x, y.drop_last());
        assert((x + y).drop_last() =~= x + y.drop_last());
        assert((x + y).last() == y.last());
        match listfile_line(y.last()) {
            Some(e) => {
                assert((listfile_rows(x) + listfile_rows(y.drop_last())).push(e) =~= listfile_rows(x)
                    + listfile_rows(y.drop_last()).push(e));
            },
            None => {},
        }
    }
}

/// Each line of a ListFile is read on its own: the rows of two texts joined
/// by a line break are the rows of the first followed by those of the second.
pub proof fn lemma_text_rows_concat(a: Seq<char>, b: Seq<char>)
    ensures
        listfile_text_rows(a.push('\n') + b) == listfile_text_rows(a) + listfile_text_rows(b),
{
    lemma_split_newline_concat(a, b);
    lemma_rows_concat(split(a, '\n'), split(b, '\n'));
}

/// A final line break changes nothing: the last line is read whether or not
/// a line break ends it.
pub proof fn lemma_text_rows_final_newline(t: Seq<char>)
    ensures
        listfile_text_rows(t.push('\n')) == listfile_text_rows(t),
{
    lemma_text_rows_concat(t, Seq::<char>::empty());
    assert(t.push('\n') + Seq::<char>::empty() =~= t.push('\n'));
    assert(split(Seq::<char>::empty(), '\n') == seq![Seq::<char>::empty()]);
    let e = seq![Seq::<char>::empty()];
    assert(e.drop_last() =~= Seq::<Seq<char>>::empty());
    assert(trim(Seq::<char>::empty()) =~= Seq::<char>::empty()) by {
        reveal_with_fuel(crate::text::trim_start, 1);
    }
    assert(listfile_line(Seq::<char>::empty()) is None);
    assert(listfile_rows(e.drop_last()) == Seq::<(u32, Seq<char>)>::empty());
    assert(listfile_rows(e) == Seq::<(u32, Seq<char>)>::empty());
    assert(listfile_text_rows(Seq::<char>::empty()) =~= Seq::<(u32, Seq<char>)>::empty());
    assert(listfile_text_rows(t) + Seq::<(u32, Seq<char>)>::empty() =~= listfile_text_rows(t));
}

/// A text of one line (no line break) gives exactly the row that line holds,
/// if any.
pub proof fn lemma_text_rows_one_line(l: Seq<char>)
    requires
        !l.contains('\n'),
    ensures
        listfile_text_rows(l) == match listfile_line(l) {
            Some(e) => seq![e],
            None => Seq::<(u32, Seq<char>)>::empty(),
        },
{
    crate::text::lemma_split_free(l, '\n');
    let s = seq![l];
    assert(s.drop_last() =~= Seq::<Seq<char>>::empty());
    assert(listfile_rows(s.drop_last()) == Seq::<(u32, Seq<char>)>::empty());
    assert(s.last() == l);
    assert(listfile_text_rows(l) == listfile_rows(s));
    match listfile_line(l) {
        Some(e) => {
            assert(Seq::<(u32, Seq<char>)>::empty().push(e) =~= seq![e]);
        },
        None => {},
    }
}

} // verus!

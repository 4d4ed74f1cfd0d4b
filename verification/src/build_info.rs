//! `.build.info`: the Battle.net table that says which WoW builds a folder holds.
//!
//! The file is a table of `|`-separated text: the first non-blank line names
//! the columns (`Name!TYPE:size`), every further non-blank line is a row.
use vstd::prelude::*;

use crate::text::{
    chars_of, contains_chars, contains_seq, has_suffix, is_alnum, is_ascii_alphanumeric, lower,
    lower_char, split, split_chars, string_of, trim, trim_chars,
};
use crate::types::WowBuildInfo;

verus! {

/// Why a `.build.info` could not be inspected.
#[derive(Debug, Clone, PartialEq, Eq)]
pub enum BuildInfoError {
    /// Neither the folder nor its parent holds a `.build.info`.
    Missing(String),
    /// The file could not be read; the text says why.
    Io(String),
    /// The file holds no header or no row.
    Malformed,
}

impl BuildInfoError {
    pub open spec fn spec_message(self) -> Seq<char> {
        match self {
            BuildInfoError::Missing(p) => ".build.info was not found in "@ + p@
                + " or its parent folder"@,
            BuildInfoError::Io(m) => "failed to read .build.info: "@ + m@,
            BuildInfoError::Malformed => ".build.info is empty or malformed"@,
        }
    }

    /// The error's text.
    pub fn message(&self) -> (r: String)
        ensures
            r@ == self.spec_message(),
    {
        match self {
            BuildInfoError::Missing(p) => string_of(
                &crate::text::concat_chars(
                    &crate::text::concat_chars(
                        &chars_of(".build.info was not found in "),
                        &chars_of(p.as_str()),
                    ),
                    &chars_of(" or its parent folder"),
                ),
            ),
            BuildInfoError::Io(m) => string_of(
                &crate::text::concat_chars(
                    &chars_of("failed to read .build.info: "),
                    &chars_of(m.as_str()),
                ),
            ),
            BuildInfoError::Malformed => ".build.info is empty or malformed".to_owned(),
        }
    }
}

// ---------------------------------------------------------------------------
// Rows: association lists of column name to value
// ---------------------------------------------------------------------------

pub type Pairs = Seq<(Seq<char>, Seq<char>)>;

/// Whether `p` binds `k`.
pub open spec fn has_key(p: Pairs, k: Seq<char>) -> bool {
    exists|i: int| 0 <= i < p.len() && #[trigger] p[i].0 == k
}

/// `p` with `k` bound to `v`: the binding replaced in place where `k` is
/// bound, appended where it is not.
pub open spec fn assoc_insert(p: Pairs, k: Seq<char>, v: Seq<char>) -> Pairs {
    if has_key(p, k) {
        p.map_values(|e: (Seq<char>, Seq<char>)| if e.0 == k { (k, v) } else { e })
    } else {
        p.push((k, v))
    }
}

/// The value `p` binds `k` to.
pub open spec fn assoc_get(p: Pairs, k: Seq<char>) -> Option<Seq<char>>
    decreases p.len(),
{
    if p.len() == 0 {
        None
    } else if p.last().0 == k {
        Some(p.last().1)
    } else {
        assoc_get(p.drop_last(), k)
    }
}

/// No column name occurs twice.
pub open spec fn keys_unique(p: Pairs) -> bool {
    forall|i: int, j: int| 0 <= i < j < p.len() ==> #[trigger] p[i].0 != #[trigger] p[j].0
}

pub proof fn lemma_assoc_insert_present(p: Pairs, k: Seq<char>, v: Seq<char>, i: int)
    requires
        keys_unique(p),
        0 <= i < p.len(),
        p[i].0 == k,
    ensures
        assoc_insert(p, k, v) == p.update(i, (k, v)),
{
    assert(has_key(p, k));
    assert forall|j: int| 0 <= j < p.len() && j != i implies p[j].0 != k by {
        if j < i {
            assert(p[j].0 != p[i].0);
        } else {
            assert(p[i].0 != p[j].0);
        }
    }
    assert(assoc_insert(p, k, v) =~= p.update(i, (k, v)));
}

pub proof fn lemma_assoc_insert_absent(p: Pairs, k: Seq<char>, v: Seq<char>)
    requires
        forall|i: int| 0 <= i < p.len() ==> #[trigger] p[i].0 != k,
    ensures
        assoc_insert(p, k, v) == p.push((k, v)),
{
}

pub proof fn lemma_assoc_get(p: Pairs, k: Seq<char>)
    requires
        keys_unique(p),
    ensures
        forall|i: int| 0 <= i < p.len() && #[trigger] p[i].0 == k ==> assoc_get(p, k) == Some(p[i].1),
        (forall|i: int| 0 <= i < p.len() ==> #[trigger] p[i].0 != k) ==> assoc_get(p, k) is None,
    decreases p.len(),
{
    if p.len() > 0 {
        lemma_assoc_get(p.drop_last(), k);
        assert forall|i: int| 0 <= i < p.len() && #[trigger] p[i].0 == k implies assoc_get(p, k)
            == Some(p[i].1) by {
            if i < p.len() - 1 {
                assert(p.drop_last()[i] == p[i]);
            }
        }
        if forall|i: int| 0 <= i < p.len() ==> #[trigger] p[i].0 != k {
            assert(p.last().0 != k);
            assert forall|i: int| 0 <= i < p.drop_last().len() implies #[trigger] p.drop_last()[i].0
                != k by {
                assert(p.drop_last()[i] == p[i]);
            }
        }
    }
}

/// Reading a row after binding a column: the column gives the new value, every
/// other column what it gave before, and no name occurs twice.
pub proof fn lemma_insert_then_get(p: Pairs, k: Seq<char>, v: Seq<char>, other: Seq<char>)
    requires
        keys_unique(p),
    ensures
        keys_unique(assoc_insert(p, k, v)),
        assoc_get(assoc_insert(p, k, v), k) == Some(v),
        other != k ==> assoc_get(assoc_insert(p, k, v), other) == assoc_get(p, other),
{
    let q = assoc_insert(p, k, v);
    lemma_assoc_get(p, other);
    if has_key(p, k) {
        let i = choose|i: int| 0 <= i < p.len() && #[trigger] p[i].0 == k;
        lemma_assoc_insert_present(p, k, v, i);
        assert(q == p.update(i, (k, v)));
        assert forall|a: int, b: int| 0 <= a < b < q.len() implies #[trigger] q[a].0 != #[trigger] q[b].0 by {
            assert(p[a].0 != p[b].0);
        }
        lemma_assoc_get(q, k);
        assert(q[i].0 == k);
        lemma_assoc_get(q, other);
        if other != k {
            assert forall|j: int| 0 <= j < q.len() && #[trigger] q[j].0 == other implies p[j] == q[j] by {}
            if exists|j: int| 0 <= j < p.len() && #[trigger] p[j].0 == other {
                let j = choose|j: int| 0 <= j < p.len() && #[trigger] p[j].0 == other;
                assert(q[j].0 == other);
            }
        }
    } else {
        lemma_assoc_insert_absent(p, k, v);
        assert(q == p.push((k, v)));
        assert forall|a: int, b: int| 0 <= a < b < q.len() implies #[trigger] q[a].0 != #[trigger] q[b].0 by {
            if b < p.len() {
                assert(p[a].0 != p[b].0);
            } else {
                assert(q[b].0 == k);
                assert(q[a] == p[a]);
            }
        }
        lemma_assoc_get(q, k);
        assert(q[p.len() as int].0 == k);
        lemma_assoc_get(q, other);
        if other != k {
            if exists|j: int| 0 <= j < p.len() && #[trigger] p[j].0 == other {
                let j = choose|j: int| 0 <= j < p.len() && #[trigger] p[j].0 == other;
                assert(q[j].0 == other);
            }
        }
    }
}

pub open spec fn pair_views(s: Seq<(String, String)>) -> Pairs {
    s.map_values(|p: (String, String)| (p.0@, p.1@))
}

/// One row of `.build.info`: column names bound to values, each name once.
#[derive(Debug)]
pub struct BuildInfoRow {
    entries: Vec<(String, String)>,
}

impl View for BuildInfoRow {
    type V = Pairs;

    closed spec fn view(&self) -> Pairs {
        pair_views(self.entries@)
    }
}

impl BuildInfoRow {
    #[verifier::type_invariant]
    closed spec fn wf(self) -> bool {
        keys_unique(pair_views(self.entries@))
    }

    /// A row with no columns.
    pub fn new() -> (r: BuildInfoRow)
        ensures
            r@ == Seq::<(Seq<char>, Seq<char>)>::empty(),
    {
        let r = BuildInfoRow { entries: Vec::new() };
        assert(r@ =~= Seq::<(Seq<char>, Seq<char>)>::empty());
        r
    }

    /// Where `key` is bound in the row.
    fn position(&self, key: &Vec<char>) -> (r: Option<usize>)
        ensures
            match r {
                Some(i) => i < self@.len() && self@[i as int].0 == key@,
                None => forall|i: int| 0 <= i < self@.len() ==> #[trigger] self@[i].0 != key@,
            },
    {
        let mut i: usize = 0;
        while i < self.entries.len()
            invariant
                i <= self.entries.len(),
                forall|j: int| 0 <= j < i ==> #[trigger] self@[j].0 != key@,
            decreases self.entries.len() - i,
        {
            let k = chars_of(self.entries[i].0.as_str());
            if crate::text::same_chars(&k, key) {
                return Some(i);
            }
            i = i + 1;
        }
        None
    }

    /// Binds `key` to `value`, in place of any earlier value for `key`.
    pub fn insert(&mut self, key: String, value: String)
        ensures
            final(self)@ == assoc_insert(old(self)@, key@, value@),
    {
        proof {
            use_type_invariant(&*self);
        }
        let kc = chars_of(key.as_str());
        let ghost before = self@;
        match self.position(&kc) {
            Some(i) => {
                proof {
                    lemma_assoc_insert_present(before, key@, value@, i as int);
                }
                let mut entries: Vec<(String, String)> = Vec::new();
                std::mem::swap(&mut entries, &mut self.entries);
                entries.set(i, (key, value));
                assert(pair_views(entries@) =~= before.update(i as int, (kc@, value@)));
                self.entries = entries;
            },
            None => {
                proof {
                    lemma_assoc_insert_absent(before, key@, value@);
                }
                let mut entries: Vec<(String, String)> = Vec::new();
                std::mem::swap(&mut entries, &mut self.entries);
                entries.push((key, value));
                assert(pair_views(entries@) =~= before.push((kc@, value@)));
                self.entries = entries;
            },
        }
    }

    /// The value the row binds `key` to.
    pub fn get(&self, key: &str) -> (r: Option<String>)
        ensures
            match r {
                Some(v) => assoc_get(self@, key@) == Some(v@),
                None => assoc_get(self@, key@) is None,
            },
    {
        proof {
            use_type_invariant(self);
            lemma_assoc_get(self@, key@);
        }
        let kc = chars_of(key);
        match self.position(&kc) {
            Some(i) => Some(self.entries[i].1.clone()),
            None => None,
        }
    }

    /// The (column, value) pairs, each column once.
    pub fn entries(&self) -> (r: &Vec<(String, String)>)
        ensures
            pair_views(r@) == self@,
            keys_unique(self@),
    {
        proof {
            use_type_invariant(self);
        }
        &self.entries
    }
}

// ---------------------------------------------------------------------------
// Text helpers of the table format
// ---------------------------------------------------------------------------

/// A header cell without its `!TYPE:size` suffix, trimmed.
pub open spec fn clean_column_spec(raw: Seq<char>) -> Seq<char> {
    trim(split(raw, '!')[0])
}

/// The column name a header cell declares: the text before its first `!`, trimmed.
pub fn clean_column(raw: &str) -> (r: String)
    ensures
        r@ == clean_column_spec(raw@),
{
    string_of(&clean_column_chars(&chars_of(raw)))
}

fn clean_column_chars(raw: &Vec<char>) -> (r: Vec<char>)
    ensures
        r@ == clean_column_spec(raw@),
{
    let pieces = split_chars(raw, '!');
    proof {
        crate::text::lemma_split_nonempty(raw@, '!');
        assert(pieces@.map_values(|p: Vec<char>| p@)[0] == pieces@[0]@);
    }
    trim_chars(&pieces[0])
}

/// The ASCII letters and digits of `s`, lower-cased.
pub open spec fn normalize_spec(s: Seq<char>) -> Seq<char>
    decreases s.len(),
{
    if s.len() == 0 {
        Seq::empty()
    } else {
        let prev = normalize_spec(s.drop_last());
        if is_alnum(s.last()) {
            prev.push(lower(s.last()))
        } else {
            prev
        }
    }
}

fn normalize_chars(s: &Vec<char>) -> (r: Vec<char>)
    ensures
        r@ == normalize_spec(s@),
{
    let mut r: Vec<char> = Vec::new();
    let mut i: usize = 0;
    while i < s.len()
        invariant
            i <= s.len(),
            r@ == normalize_spec(s@.take(i as int)),
        decreases s.len() - i,
    {
        assert(s@.take(i as int + 1).drop_last() =~= s@.take(i as int));
        if is_ascii_alphanumeric(s[i]) {
            r.push(lower_char(s[i]));
        }
        i = i + 1;
    }
    assert(s@.take(s.len() as int) =~= s@);
    r
}

/// Normalising normalised text changes nothing.
pub proof fn lemma_normalize_idempotent(s: Seq<char>)
    ensures
        normalize_spec(normalize_spec(s)) == normalize_spec(s),
    decreases s.len(),
{
    if s.len() > 0 {
        let d = s.drop_last();
        lemma_normalize_idempotent(d);
        let n = normalize_spec(d);
        if is_alnum(s.last()) {
            let c = lower(s.last());
            assert(n.push(c).drop_last() =~= n);
            assert(is_alnum(c) && lower(c) == c);
        }
    }
}

/// Keeps the ASCII letters and digits of `value`, lower-cased, so that folder
/// names and product names compare loosely.
pub fn normalize_token(value: &str) -> (r: String)
    ensures
        r@ == normalize_spec(value@),
{
    string_of(&normalize_chars(&chars_of(value)))
}

// ---------------------------------------------------------------------------
// Choosing the row that describes the selected folder
// ---------------------------------------------------------------------------

/// How well one value matches a folder hint: 100 when it normalises to the
/// hint, 80 when it ends with it, 40 when it contains it, else 0.
pub open spec fn value_score(v: Seq<char>, hint: Seq<char>) -> nat {
    let n = normalize_spec(v);
    if n == hint {
        100
    } else if hint.is_suffix_of(n) {
        80
    } else if contains_seq(n, hint) {
        40
    } else {
        0
    }
}

/// The best score of any value of a row (0 for a row without values).
pub open spec fn row_score(p: Pairs, hint: Seq<char>) -> nat
    decreases p.len(),
{
    if p.len() == 0 {
        0
    } else {
        let prev = row_score(p.drop_last(), hint);
        let s = value_score(p.last().1, hint);
        if s > prev {
            s
        } else {
            prev
        }
    }
}

/// How well a row matches a folder hint: the best score of its values.
pub fn row_match_score(row: &BuildInfoRow, hint: &str) -> (r: usize)
    ensures
        r == row_score(row@, hint@),
{
    let h = chars_of(hint);
    let entries = row.entries();
    let ghost pv = pair_views(entries@);
    let mut best: usize = 0;
    let mut i: usize = 0;
    while i < entries.len()
        invariant
            i <= entries.len(),
            pv == pair_views(entries@),
            best == row_score(pv.take(i as int), h@),
            best <= 100,
        decreases entries.len() - i,
    {
        let n = normalize_chars(&chars_of(entries[i].1.as_str()));
        let score: usize = if crate::text::same_chars(&n, &h) {
            100
        } else if has_suffix(&n, &h) {
            80
        } else if contains_chars(&n, &h) {
            40
        } else {
            0
        };
        assert(pv.take(i as int + 1).drop_last() =~= pv.take(i as int));
        assert(pv.take(i as int + 1).last() == pv[i as int]);
        assert(score == value_score(pv[i as int].1, h@));
        if score > best {
            best = score;
        }
        i = i + 1;
    }
    assert(pv.take(entries.len() as int) =~= pv);
    best
}

pub open spec fn row_views(rows: Seq<&BuildInfoRow>) -> Seq<Pairs> {
    rows.map_values(|r: &BuildInfoRow| r@)
}

/// The position of the row that matches the hint best, the last one among
/// equals; none when no row scores above 0.
pub open spec fn best_index(rows: Seq<Pairs>, hint: Seq<char>) -> Option<int>
    decreases rows.len(),
{
    if rows.len() == 0 {
        None
    } else {
        let prev = best_index(rows.drop_last(), hint);
        let s = row_score(rows.last(), hint);
        if s > 0 && match prev {
            None => true,
            Some(i) => s >= row_score(rows[i], hint),
        } {
            Some(rows.len() - 1)
        } else {
            prev
        }
    }
}

/// The row `best_index` picks scores above 0, no row scores higher, and every
/// later row scores lower; when it picks none, every row scores 0.
pub proof fn lemma_best_index(rows: Seq<Pairs>, hint: Seq<char>)
    ensures
        match best_index(rows, hint) {
            Some(i) => {
                &&& 0 <= i < rows.len()
                &&& row_score(rows[i], hint) > 0
                &&& forall|j: int|
                    0 <= j < rows.len() ==> #[trigger] row_score(rows[j], hint) <= row_score(
                        rows[i],
                        hint,
                    )
                &&& forall|j: int|
                    i < j < rows.len() ==> #[trigger] row_score(rows[j], hint) < row_score(
                        rows[i],
                        hint,
                    )
            },
            None => forall|j: int| 0 <= j < rows.len() ==> #[trigger] row_score(rows[j], hint) == 0,
        },
    decreases rows.len(),
{
    if rows.len() > 0 {
        let d = rows.drop_last();
        let n = rows.len() - 1;
        lemma_best_index(d, hint);
        assert forall|j: int| 0 <= j < d.len() implies #[trigger] d[j] == rows[j] by {}
        let s = row_score(rows.last(), hint);
        assert(rows.last() == rows[n]);
        match best_index(d, hint) {
            Some(i) => {
                assert(d[i] == rows[i]);
                if s > 0 && s >= row_score(rows[i], hint) {
                    assert(best_index(rows, hint) == Some(n));
                    assert forall|j: int| 0 <= j < rows.len() implies #[trigger] row_score(rows[j], hint)
                        <= row_score(rows[n], hint) by {
                        if j < n {
                            assert(row_score(d[j], hint) <= row_score(d[i], hint));
                        }
                    }
                } else {
                    assert(best_index(rows, hint) == Some(i));
                    assert forall|j: int| 0 <= j < rows.len() implies #[trigger] row_score(rows[j], hint)
                        <= row_score(rows[i], hint) by {
                        if j < n {
                            assert(row_score(d[j], hint) <= row_score(d[i], hint));
                        }
                    }
                    assert forall|j: int| i < j < rows.len() implies #[trigger] row_score(rows[j], hint)
                        < row_score(rows[i], hint) by {
                        if j < n {
                            assert(row_score(d[j], hint) < row_score(d[i], hint));
                        }
                    }
                }
            },
            None => {
                if s > 0 {
                    assert(best_index(rows, hint) == Some(n));
                    assert forall|j: int| 0 <= j < rows.len() implies #[trigger] row_score(rows[j], hint)
                        <= row_score(rows[n], hint) by {
                        if j < n {
                            assert(row_score(d[j], hint) == 0);
                        }
                    }
                } else {
                    assert(best_index(rows, hint) is None);
                    assert forall|j: int| 0 <= j < rows.len() implies #[trigger] row_score(rows[j], hint)
                        == 0 by {
                        if j < n {
                            assert(row_score(d[j], hint) == 0);
                        }
                    }
                }
            },
        }
    }
}

/// The row that matches the hint best (the last one among equally good
/// rows), or none when no row scores above 0.
pub fn best_matching_row<'a>(rows: &Vec<&'a BuildInfoRow>, hint: &str) -> (r: Option<&'a BuildInfoRow>)
    ensures
        match best_index(row_views(rows@), hint@) {
            Some(i) => r == Some(rows@[i]),
            None => r is None,
        },
{
    let ghost rv = row_views(rows@);
    let mut best: Option<usize> = None;
    let mut best_score: usize = 0;
    let mut i: usize = 0;
    while i < rows.len()
        invariant
            i <= rows.len(),
            rv == row_views(rows@),
            match best {
                Some(b) => best_index(rv.take(i as int), hint@) == Some(b as int) && b < i
                    && best_score == row_score(rv[b as int], hint@),
                None => best_index(rv.take(i as int), hint@) is None,
            },
        decreases rows.len() - i,
    {
        let s = row_match_score(rows[i], hint);
        let ghost t = rv.take(i as int + 1);
        assert(t.drop_last() =~= rv.take(i as int));
        assert(t.last() == rv[i as int]);
        let better = match best {
            None => s > 0,
            Some(_) => s > 0 && s >= best_score,
        };
        proof {
            match best {
                Some(b) => {
                    assert(t[b as int] == rv[b as int]);
                },
                None => {},
            }
        }
        if better {
            best = Some(i);
            best_score = s;
        }
        i = i + 1;
    }
    assert(rv.take(rows.len() as int) =~= rv);
    match best {
        Some(b) => Some(rows[b]),
        None => None,
    }
}

/// The value of the first of `names` that the row binds, when that value is
/// not empty; names the row does not bind are passed over.
pub open spec fn first_value_spec(row: Pairs, names: Seq<Seq<char>>) -> Option<Seq<char>>
    decreases names.len(),
{
    if names.len() == 0 {
        None
    } else {
        match assoc_get(row, names[0]) {
            Some(v) => if v.len() > 0 {
                Some(v)
            } else {
                None
            },
            None => first_value_spec(row, names.drop_first()),
        }
    }
}

pub open spec fn name_views(names: Seq<&str>) -> Seq<Seq<char>> {
    names.map_values(|n: &str| n@)
}

pub open spec fn opt_view(o: Option<String>) -> Option<Seq<char>> {
    match o {
        Some(s) => Some(s@),
        None => None,
    }
}

/// The value of the first of `names` that the row binds, unless it is empty.
pub fn first_value(row: &BuildInfoRow, names: &Vec<&str>) -> (r: Option<String>)
    ensures
        opt_view(r) == first_value_spec(row@, name_views(names@)),
{
    let ghost nv = name_views(names@);
    let mut i: usize = 0;
    assert(nv.skip(0) =~= nv);
    while i < names.len()
        invariant
            i <= names.len(),
            nv == name_views(names@),
            first_value_spec(row@, nv) == first_value_spec(row@, nv.skip(i as int)),
        decreases names.len() - i,
    {
        assert(nv.skip(i as int)[0] == names@[i as int]@);
        assert(nv.skip(i as int).drop_first() =~= nv.skip(i as int + 1));
        match row.get(names[i]) {
            Some(v) => {
                if v.as_str().is_empty() {
                    return None;
                } else {
                    return Some(v);
                }
            },
            None => {},
        }
        i = i + 1;
    }
    None
}

// ---------------------------------------------------------------------------
// The whole table
// ---------------------------------------------------------------------------

/// The lines that hold more than whitespace, in order.
pub open spec fn nonblank_lines(lines: Seq<Seq<char>>) -> Seq<Seq<char>>
    decreases lines.len(),
{
    if lines.len() == 0 {
        Seq::empty()
    } else {
        let prev = nonblank_lines(lines.drop_last());
        if trim(lines.last()).len() > 0 {
            prev.push(lines.last())
        } else {
            prev
        }
    }
}

/// The non-blank lines of a `.build.info` text.
pub open spec fn info_lines(text: Seq<char>) -> Seq<Seq<char>> {
    nonblank_lines(split(text, '\n'))
}

/// The column names the header line declares.
pub open spec fn header_columns(text: Seq<char>) -> Seq<Seq<char>> {
    split(info_lines(text)[0], '|').map_values(|c: Seq<char>| clean_column_spec(c))
}

/// The row a line gives: each column bound to the trimmed value in its place
/// (empty where the line has fewer values), a later column of the same name
/// replacing an earlier one.
pub open spec fn build_row(columns: Seq<Seq<char>>, values: Seq<Seq<char>>) -> Pairs
    decreases columns.len(),
{
    if columns.len() == 0 {
        Seq::empty()
    } else {
        let j = columns.len() - 1;
        assoc_insert(
            build_row(columns.drop_last(), values),
            columns[j],
            trim(
                if j < values.len() {
                    values[j]
                } else {
                    Seq::<char>::empty()
                },
            ),
        )
    }
}

proof fn lemma_build_row_get(columns: Seq<Seq<char>>, values: Seq<Seq<char>>, j: int)
    requires
        0 <= j < columns.len(),
        forall|k: int| j < k < columns.len() ==> #[trigger] columns[k] != columns[j],
    ensures
        keys_unique(build_row(columns, values)),
        assoc_get(build_row(columns, values), columns[j]) == Some(
            trim(
                if j < values.len() {
                    values[j]
                } else {
                    Seq::<char>::empty()
                },
            ),
        ),
    decreases columns.len(),
{
    let n = columns.len() - 1;
    let d = columns.drop_last();
    let prev = build_row(d, values);
    let v = trim(
        if n < values.len() {
            values[n]
        } else {
            Seq::<char>::empty()
        },
    );
    if j < n {
        assert forall|k: int| j < k < d.len() implies #[trigger] d[k] != d[j] by {
            assert(d[k] == columns[k] && d[j] == columns[j]);
        }
        lemma_build_row_get(d, values, j);
        assert(d[j] == columns[j]);
        assert(columns[n] != columns[j]);
        lemma_insert_then_get(prev, columns[n], v, columns[j]);
    } else {
        lemma_build_row_unique(d, values);
        lemma_insert_then_get(prev, columns[n], v, columns[j]);
    }
}

proof fn lemma_build_row_unique(columns: Seq<Seq<char>>, values: Seq<Seq<char>>)
    ensures
        keys_unique(build_row(columns, values)),
    decreases columns.len(),
{
    if columns.len() > 0 {
        let n = columns.len() - 1;
        lemma_build_row_unique(columns.drop_last(), values);
        lemma_insert_then_get(
            build_row(columns.drop_last(), values),
            columns[n],
            trim(
                if n < values.len() {
                    values[n]
                } else {
                    Seq::<char>::empty()
                },
            ),
            columns[n],
        );
    }
}

/// The rows of a `.build.info` text, one per non-blank line after the header.
pub open spec fn info_rows(text: Seq<char>) -> Seq<Pairs> {
    info_lines(text).skip(1).map_values(
        |l: Seq<char>| build_row(header_columns(text), split(l, '|')),
    )
}

/// A row is active unless its `Active` column holds something other than `1`.
pub open spec fn is_active(row: Pairs) -> bool {
    match assoc_get(row, "Active"@) {
        Some(v) => v == "1"@,
        None => true,
    }
}

/// The active rows, in order.
pub open spec fn active_of(rows: Seq<Pairs>) -> Seq<Pairs>
    decreases rows.len(),
{
    if rows.len() == 0 {
        Seq::empty()
    } else {
        let prev = active_of(rows.drop_last());
        if is_active(rows.last()) {
            prev.push(rows.last())
        } else {
            prev
        }
    }
}

/// The normalised name of the selected folder, when it has letters or digits.
pub open spec fn hint_of(folder: Option<Seq<char>>) -> Option<Seq<char>> {
    match folder {
        Some(f) => if normalize_spec(f).len() > 0 {
            Some(normalize_spec(f))
        } else {
            None
        },
        None => None,
    }
}

/// The row that describes the selected folder: the active row that matches
/// the folder hint best, else the first active row, else the first row.
pub open spec fn preferred_row(rows: Seq<Pairs>, hint: Option<Seq<char>>) -> Option<Pairs> {
    let active = active_of(rows);
    let by_hint = match hint {
        Some(h) => match best_index(active, h) {
            Some(i) => Some(active[i]),
            None => None,
        },
        None => None,
    };
    if by_hint is Some {
        by_hint
    } else if active.len() > 0 {
        Some(active[0])
    } else if rows.len() > 0 {
        Some(rows[0])
    } else {
        None
    }
}

pub open spec fn product_names() -> Seq<Seq<char>> {
    seq!["Product"@, "Branch"@, "Tags"@]
}

pub open spec fn version_names() -> Seq<Seq<char>> {
    seq!["Version"@, "VersionsName"@, "Build Name"@, "BuildId"@]
}

pub open spec fn build_key_names() -> Seq<Seq<char>> {
    seq!["Build Key"@, "BuildKey"@]
}

pub open spec fn cdn_key_names() -> Seq<Seq<char>> {
    seq!["CDN Key"@, "CDNKey"@]
}

pub open spec fn branch_names() -> Seq<Seq<char>> {
    seq!["Branch"@]
}

pub open spec fn owned_row_views(rows: Seq<BuildInfoRow>) -> Seq<Pairs> {
    rows.map_values(|r: BuildInfoRow| r@)
}

/// What `inspect_install` reports for a folder `selected` named `folder`
/// whose `.build.info` holds `text` (with at least a header and one row).
pub open spec fn describes(
    info: WowBuildInfo,
    selected: Seq<char>,
    folder: Option<Seq<char>>,
    text: Seq<char>,
) -> bool {
    let rows = info_rows(text);
    let row = preferred_row(rows, hint_of(folder)).unwrap();
    &&& info.path@ == selected
    &&& owned_row_views(info.rows@) == rows
    &&& info.active_rows == active_of(rows).len()
    &&& info.product@ == match first_value_spec(row, product_names()) {
        Some(v) => v,
        None => "World of Warcraft"@,
    }
    &&& info.version@ == match first_value_spec(row, version_names()) {
        Some(v) => v,
        None => "Unknown build"@,
    }
    &&& opt_view(info.build_key) == first_value_spec(row, build_key_names())
    &&& opt_view(info.cdn_key) == first_value_spec(row, cdn_key_names())
    &&& opt_view(info.branch) == first_value_spec(row, branch_names())
}

/// Every value of a `.build.info` row is its cell with the surrounding
/// whitespace removed: in the row of non-blank line `r + 1`, header column
/// `j` (the last column of that name) holds the trimmed `j`-th `|`-separated
/// cell of that line, or nothing where the line has fewer cells. Padding
/// around a cell, or the CR that ends a CRLF line, never reaches a value.
pub proof fn lemma_row_values_trimmed(text: Seq<char>, r: int, j: int)
    requires
        0 <= r,
        r + 1 < info_lines(text).len(),
        0 <= j < header_columns(text).len(),
        forall|k: int|
            j < k < header_columns(text).len() ==> #[trigger] header_columns(text)[k]
                != header_columns(text)[j],
    ensures
        assoc_get(info_rows(text)[r], header_columns(text)[j]) == Some(
            trim(
                if j < split(info_lines(text)[r + 1], '|').len() {
                    split(info_lines(text)[r + 1], '|')[j]
                } else {
                    Seq::<char>::empty()
                },
            ),
        ),
        assoc_get(info_rows(text)[r], header_columns(text)[j]) matches Some(v) && trim(v) == v,
{
    let lines = info_lines(text);
    assert(lines.skip(1)[r] == lines[r + 1]);
    assert(info_rows(text)[r] == build_row(header_columns(text), split(lines[r + 1], '|')));
    lemma_build_row_get(header_columns(text), split(lines[r + 1], '|'), j);
    let cells = split(lines[r + 1], '|');
    crate::text::lemma_trim_idempotent(
        if j < cells.len() {
            cells[j]
        } else {
            Seq::<char>::empty()
        },
    );
}

fn value_or(v: Option<String>, fallback: &str) -> (r: String)
    ensures
        r@ == match opt_view(v) {
            Some(x) => x,
            None => fallback@,
        },
{
    match v {
        Some(x) => x,
        None => fallback.to_owned(),
    }
}

/// Reads the `.build.info` text of the folder `selected` (whose own name is
/// `folder_name`) and picks the row that describes that folder.
pub fn inspect_install(selected: &str, folder_name: Option<&str>, text: &str) -> (r: Result<
    WowBuildInfo,
    BuildInfoError,
>)
    ensures
        info_lines(text@).len() < 2 ==> r matches Err(BuildInfoError::Malformed),
        info_lines(text@).len() >= 2 ==> (r matches Ok(info) && describes(
            info,
            selected@,
            match folder_name {
                Some(f) => Some(f@),
                None => None,
            },
            text@,
        )),
{
    let tc = chars_of(text);
    let pieces = split_chars(&tc, '\n');
    let ghost pv = pieces@.map_values(|p: Vec<char>| p@);
    let mut lines: Vec<Vec<char>> = Vec::new();
    let mut i: usize = 0;
    while i < pieces.len()
        invariant
            i <= pieces.len(),
            pv == pieces@.map_values(|p: Vec<char>| p@),
            lines@.map_values(|p: Vec<char>| p@) == nonblank_lines(pv.take(i as int)),
        decreases pieces.len() - i,
    {
        assert(pv.take(i as int + 1).drop_last() =~= pv.take(i as int));
        assert(pv.take(i as int + 1).last() == pieces@[i as int]@);
        if trim_chars(&pieces[i]).len() > 0 {
            lines.push(copy_all(&pieces[i]));
        }
        i = i + 1;
        assert(lines@.map_values(|p: Vec<char>| p@) =~= nonblank_lines(pv.take(i as int)));
    }
    assert(pv.take(pieces.len() as int) =~= pv);
    let ghost lv = lines@.map_values(|p: Vec<char>| p@);
    assert(lv == info_lines(text@));
    if lines.len() == 0 {
        return Err(BuildInfoError::Malformed);
    }
    let header_cells = split_chars(&lines[0], '|');
    proof {
        crate::text::lemma_split_nonempty(lines@[0]@, '|');
    }
    let mut columns: Vec<Vec<char>> = Vec::new();
    let mut c: usize = 0;
    while c < header_cells.len()
        invariant
            c <= header_cells.len(),
            lines.len() > 0,
            lv == lines@.map_values(|p: Vec<char>| p@),
            header_cells@.map_values(|p: Vec<char>| p@) == split(lines@[0]@, '|'),
            columns.len() == c,
            forall|x: int|
                0 <= x < c ==> #[trigger] columns@[x]@ == clean_column_spec(
                    header_cells@[x]@,
                ),
        decreases header_cells.len() - c,
    {
        columns.push(clean_column_chars(&header_cells[c]));
        c = c + 1;
    }
    let ghost cols = columns@.map_values(|p: Vec<char>| p@);
    assert(cols =~= header_columns(text@)) by {
        assert(lv[0] == lines@[0]@);
        assert forall|x: int| 0 <= x < cols.len() implies #[trigger] cols[x]
            == header_columns(text@)[x] by {
            assert(header_cells@.map_values(|p: Vec<char>| p@)[x] == header_cells@[x]@);
        }
    }
    if columns.len() == 0 {
        return Err(BuildInfoError::Malformed);
    }

    let mut rows: Vec<BuildInfoRow> = Vec::new();
    let mut l: usize = 1;
    while l < lines.len()
        invariant
            1 <= l <= lines.len(),
            lv == lines@.map_values(|p: Vec<char>| p@),
            lv == info_lines(text@),
            cols == columns@.map_values(|p: Vec<char>| p@),
            cols == header_columns(text@),
            owned_row_views(rows@) == info_rows(text@).take(l - 1),
        decreases lines.len() - l,
    {
        let values = split_chars(&lines[l], '|');
        let ghost vv = values@.map_values(|p: Vec<char>| p@);
        let mut row = BuildInfoRow::new();
        let mut j: usize = 0;
        while j < columns.len()
            invariant
                j <= columns.len(),
                cols == columns@.map_values(|p: Vec<char>| p@),
                vv == values@.map_values(|p: Vec<char>| p@),
                row@ == build_row(cols.take(j as int), vv),
            decreases columns.len() - j,
        {
            let value = if j < values.len() {
                trim_chars(&values[j])
            } else {
                Vec::new()
            };
            assert(cols.take(j as int + 1).drop_last() =~= cols.take(j as int));
            assert(value@ == trim(
                if j < vv.len() {
                    vv[j as int]
                } else {
                    Seq::<char>::empty()
                },
            ));
            row.insert(string_of(&columns[j]), string_of(&value));
            j = j + 1;
        }
        assert(cols.take(columns.len() as int) =~= cols);
        let ghost before = owned_row_views(rows@);
        rows.push(row);
        assert(owned_row_views(rows@) =~= info_rows(text@).take(l as int)) by {
            assert(owned_row_views(rows@) =~= before.push(row@));
            assert(info_rows(text@)[l - 1] == build_row(cols, split(lv[l as int], '|')));
        }
        l = l + 1;
    }
    let ghost all_rows = info_rows(text@);
    assert(owned_row_views(rows@) =~= all_rows);
    if rows.len() == 0 {
        return Err(BuildInfoError::Malformed);
    }

    let mut active: Vec<&BuildInfoRow> = Vec::new();
    let mut k: usize = 0;
    while k < rows.len()
        invariant
            k <= rows.len(),
            owned_row_views(rows@) == all_rows,
            row_views(active@) == active_of(all_rows.take(k as int)),
            forall|x: int| 0 <= x < active.len() ==> #[trigger] active@[x]@ == row_views(active@)[x],
        decreases rows.len() - k,
    {
        assert(all_rows.take(k as int + 1).drop_last() =~= all_rows.take(k as int));
        assert(all_rows.take(k as int + 1).last() == rows@[k as int]@);
        let is_on = match rows[k].get("Active") {
            Some(v) => {
                let vc = chars_of(v.as_str());
                let one = chars_of("1");
                crate::text::same_chars(&vc, &one)
            },
            None => true,
        };
        assert(is_on == is_active(rows@[k as int]@));
        if is_on {
            active.push(&rows[k]);
        }
        k = k + 1;
        assert(row_views(active@) =~= active_of(all_rows.take(k as int)));
    }
    assert(all_rows.take(rows.len() as int) =~= all_rows);
    let ghost av = active_of(all_rows);

    let hint: Option<String> = match folder_name {
        Some(f) => {
            let n = normalize_token(f);
            if n.as_str().is_empty() {
                None
            } else {
                Some(n)
            }
        },
        None => None,
    };
    let ghost folder = match folder_name {
        Some(f) => Some(f@),
        None => None,
    };
    assert(opt_view(hint) == hint_of(folder));
    let by_hint: Option<&BuildInfoRow> = match &hint {
        Some(h) => best_matching_row(&active, h.as_str()),
        None => None,
    };
    let preferred: &BuildInfoRow = match by_hint {
        Some(r) => r,
        None => {
            if active.len() > 0 {
                active[0]
            } else {
                &rows[0]
            }
        },
    };
    proof {
        assert(row_views(active@) == av);
        assert(rows@[0]@ == all_rows[0]);
        if active.len() > 0 {
            assert(active@[0]@ == av[0]);
        }
        match hint_of(folder) {
            Some(h) => {
                lemma_best_index(av, h);
                match best_index(av, h) {
                    Some(i) => {
                        assert(active@[i]@ == av[i]);
                    },
                    None => {},
                }
            },
            None => {},
        }
    }
    assert(Some(preferred@) == preferred_row(all_rows, hint_of(folder)));

    let mut names: Vec<&str> = Vec::new();
    names.push("Product");
    names.push("Branch");
    names.push("Tags");
    assert(name_views(names@) =~= product_names());
    let product = value_or(first_value(preferred, &names), "World of Warcraft");
    let mut names: Vec<&str> = Vec::new();
    names.push("Version");
    names.push("VersionsName");
    names.push("Build Name");
    names.push("BuildId");
    assert(name_views(names@) =~= version_names());
    let version = value_or(first_value(preferred, &names), "Unknown build");
    let mut names: Vec<&str> = Vec::new();
    names.push("Build Key");
    names.push("BuildKey");
    assert(name_views(names@) =~= build_key_names());
    let build_key = first_value(preferred, &names);
    let mut names: Vec<&str> = Vec::new();
    names.push("CDN Key");
    names.push("CDNKey");
    assert(name_views(names@) =~= cdn_key_names());
    let cdn_key = first_value(preferred, &names);
    let mut names: Vec<&str> = Vec::new();
    names.push("Branch");
    assert(name_views(names@) =~= branch_names());
    let branch = first_value(preferred, &names);
    let active_rows = active.len();
    Ok(
        WowBuildInfo {
            path: selected.to_owned(),
            product,
            version,
            build_key,
            cdn_key,
            branch,
            active_rows,
            rows,
        },
    )
}

fn copy_all(v: &Vec<char>) -> (r: Vec<char>)
    ensures
        r@ == v@,
{
    let r = crate::text::copy_range(v, 0, v.len());
    assert(v@.subrange(0, v.len() as int) =~= v@);
    r
}

} // verus!

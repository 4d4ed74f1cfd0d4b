//! Lexicographic order on text and a stable merge sort.
//!
//! Rust orders `String`s by their UTF-8 bytes, which is the same as ordering
//! them character by character by code point; `seq_lt` states that order.
//! Stable sorting is done on indices: sorting the positions of the items by
//! (key, position) is a sort by a strict total order, so the sorted
//! permutation is unique and is exactly the result of a stable sort.
use vstd::prelude::*;

verus! {

/// `a < b` for `String`s.
pub open spec fn seq_lt(a: Seq<char>, b: Seq<char>) -> bool
    decreases a.len(),
{
    if a.len() == 0 {
        b.len() > 0
    } else if b.len() == 0 {
        false
    } else if a[0] != b[0] {
        a[0] < b[0]
    } else {
        seq_lt(a.drop_first(), b.drop_first())
    }
}

pub proof fn lemma_seq_lt_irreflexive(a: Seq<char>)
    ensures
        !seq_lt(a, a),
    decreases a.len(),
{
    if a.len() > 0 {
        lemma_seq_lt_irreflexive(a.drop_first());
    }
}

pub proof fn lemma_seq_lt_transitive(a: Seq<char>, b: Seq<char>, c: Seq<char>)
    requires
        seq_lt(a, b),
        seq_lt(b, c),
    ensures
        seq_lt(a, c),
    decreases a.len(),
{
    if a.len() > 0 && b.len() > 0 && c.len() > 0 {
        if a[0] == b[0] && b[0] == c[0] {
            lemma_seq_lt_transitive(a.drop_first(), b.drop_first(), c.drop_first());
        }
    }
}

pub proof fn lemma_seq_lt_total(a: Seq<char>, b: Seq<char>)
    ensures
        a == b || seq_lt(a, b) || seq_lt(b, a),
    decreases a.len(),
{
    if a.len() > 0 && b.len() > 0 {
        if a[0] == b[0] {
            lemma_seq_lt_total(a.drop_first(), b.drop_first());
            if a.drop_first() == b.drop_first() {
                assert(a =~= seq![a[0]] + a.drop_first());
                assert(b =~= seq![b[0]] + b.drop_first());
            }
        }
    } else if a.len() == 0 && b.len() == 0 {
        assert(a =~= b);
    }
}

pub proof fn lemma_seq_lt_asymmetric(a: Seq<char>, b: Seq<char>)
    requires
        seq_lt(a, b),
    ensures
        !seq_lt(b, a),
{
    if seq_lt(b, a) {
        lemma_seq_lt_transitive(a, b, a);
        lemma_seq_lt_irreflexive(a);
    }
}

proof fn lemma_seq_lt_skip(a: Seq<char>, b: Seq<char>, i: int)
    requires
        0 <= i <= a.len(),
        i <= b.len(),
        forall|k: int| 0 <= k < i ==> a[k] == b[k],
    ensures
        seq_lt(a, b) == seq_lt(a.skip(i), b.skip(i)),
    decreases i,
{
    if i > 0 {
        assert(a.drop_first().skip(i - 1) =~= a.skip(i));
        assert(b.drop_first().skip(i - 1) =~= b.skip(i));
        lemma_seq_lt_skip(a.drop_first(), b.drop_first(), i - 1);
    } else {
        assert(a.skip(0) =~= a);
        assert(b.skip(0) =~= b);
    }
}

/// Whether `a` orders before `b` as strings.
pub fn less_chars(a: &Vec<char>, b: &Vec<char>) -> (r: bool)
    ensures
        r == seq_lt(a@, b@),
{
    let mut i: usize = 0;
    while i < a.len() && i < b.len() && a[i] == b[i]
        invariant
            i <= a.len(),
            i <= b.len(),
            forall|k: int| 0 <= k < i ==> a@[k] == b@[k],
        decreases a.len() - i,
    {
        i = i + 1;
    }
    proof {
        lemma_seq_lt_skip(a@, b@, i as int);
    }
    if i == a.len() {
        i < b.len()
    } else if i == b.len() {
        false
    } else {
        a[i] < b[i]
    }
}

// ---------------------------------------------------------------------------
// Sort keys
// ---------------------------------------------------------------------------

/// A sort key compared as (major, text, minor), each ascending.
pub struct SortKey {
    pub major: u64,
    pub text: Vec<char>,
    pub minor: u64,
}

impl View for SortKey {
    type V = (u64, Seq<char>, u64);

    open spec fn view(&self) -> (u64, Seq<char>, u64) {
        (self.major, self.text@, self.minor)
    }
}

pub open spec fn key_lt(a: (u64, Seq<char>, u64), b: (u64, Seq<char>, u64)) -> bool {
    a.0 < b.0 || (a.0 == b.0 && (seq_lt(a.1, b.1) || (a.1 == b.1 && a.2 < b.2)))
}

pub open spec fn key_views(keys: Seq<SortKey>) -> Seq<(u64, Seq<char>, u64)> {
    keys.map_values(|k: SortKey| k@)
}

/// Position `i` comes before position `j`: by key, and by position among equal keys.
pub open spec fn before(keys: Seq<(u64, Seq<char>, u64)>, i: int, j: int) -> bool {
    key_lt(keys[i], keys[j]) || (keys[i] == keys[j] && i < j)
}

/// `p` lists every position of `keys` once, in `before` order: the order in
/// which a stable sort by key leaves the items.
pub open spec fn is_sorted_perm(keys: Seq<(u64, Seq<char>, u64)>, p: Seq<usize>) -> bool {
    &&& p.len() == keys.len()
    &&& forall|i: int| 0 <= i < p.len() ==> #[trigger] p[i] < keys.len()
    &&& forall|i: int, j: int| 0 <= i < j < p.len() ==> before(keys, #[trigger] p[i] as int, #[trigger] p[j] as int)
    &&& forall|k: usize| k < keys.len() ==> #[trigger] p.contains(k)
}

/// `out` is `input` stably sorted by `keys` (the key of `input[i]` is `keys[i]`).
pub open spec fn stably_sorted<T>(out: Seq<T>, input: Seq<T>, keys: Seq<(u64, Seq<char>, u64)>) -> bool {
    exists|p: Seq<usize>|
        #[trigger] is_sorted_perm(keys, p) && out.len() == input.len() && forall|i: int|
            0 <= i < out.len() ==> out[i] == input[p[i] as int]
}

pub proof fn lemma_key_lt_irreflexive(a: (u64, Seq<char>, u64))
    ensures
        !key_lt(a, a),
{
    lemma_seq_lt_irreflexive(a.1);
}

pub proof fn lemma_key_lt_transitive(
    a: (u64, Seq<char>, u64),
    b: (u64, Seq<char>, u64),
    c: (u64, Seq<char>, u64),
)
    requires
        key_lt(a, b),
        key_lt(b, c),
    ensures
        key_lt(a, c),
{
    if a.0 == b.0 && b.0 == c.0 {
        if seq_lt(a.1, b.1) && seq_lt(b.1, c.1) {
            lemma_seq_lt_transitive(a.1, b.1, c.1);
        }
    }
}

pub proof fn lemma_key_lt_total(a: (u64, Seq<char>, u64), b: (u64, Seq<char>, u64))
    ensures
        a == b || key_lt(a, b) || key_lt(b, a),
{
    lemma_seq_lt_total(a.1, b.1);
}

proof fn lemma_before_transitive(keys: Seq<(u64, Seq<char>, u64)>, i: int, j: int, k: int)
    requires
        before(keys, i, j),
        before(keys, j, k),
    ensures
        before(keys, i, k),
{
    if key_lt(keys[i], keys[j]) && key_lt(keys[j], keys[k]) {
        lemma_key_lt_transitive(keys[i], keys[j], keys[k]);
    }
}

proof fn lemma_before_total(keys: Seq<(u64, Seq<char>, u64)>, i: int, j: int)
    requires
        i != j,
    ensures
        before(keys, i, j) || before(keys, j, i),
{
    lemma_key_lt_total(keys[i], keys[j]);
}

pub fn key_less(a: &SortKey, b: &SortKey) -> (r: bool)
    ensures
        r == key_lt(a@, b@),
{
    if a.major != b.major {
        return a.major < b.major;
    }
    if less_chars(&a.text, &b.text) {
        return true;
    }
    if less_chars(&b.text, &a.text) {
        proof {
            lemma_seq_lt_asymmetric(b.text@, a.text@);
        }
        return false;
    }
    proof {
        lemma_seq_lt_total(a.text@, b.text@);
    }
    a.minor < b.minor
}

fn is_before(keys: &Vec<SortKey>, i: usize, j: usize) -> (r: bool)
    requires
        i < keys.len(),
        j < keys.len(),
    ensures
        r == before(key_views(keys@), i as int, j as int),
{
    let ghost kv = key_views(keys@);
    if key_less(&keys[i], &keys[j]) {
        return true;
    }
    if key_less(&keys[j], &keys[i]) {
        proof {
            if kv[i as int] == kv[j as int] {
                lemma_key_lt_irreflexive(kv[i as int]);
            }
        }
        return false;
    }
    proof {
        lemma_key_lt_total(kv[i as int], kv[j as int]);
    }
    i < j
}

// ---------------------------------------------------------------------------
// Merge sort of positions
// ---------------------------------------------------------------------------

/// `p` is strictly increasing in `before` order, with every entry below `n`.
pub open spec fn sorted_positions(keys: Seq<(u64, Seq<char>, u64)>, p: Seq<usize>) -> bool {
    &&& forall|i: int| 0 <= i < p.len() ==> #[trigger] p[i] < keys.len()
    &&& forall|i: int, j: int| 0 <= i < j < p.len() ==> before(keys, #[trigger] p[i] as int, #[trigger] p[j] as int)
}

proof fn lemma_contains_push(s: Seq<usize>, x: usize)
    ensures
        forall|y: usize| #[trigger] s.push(x).contains(y) <==> (s.contains(y) || y == x),
{
    assert forall|y: usize| #[trigger] s.push(x).contains(y) <==> (s.contains(y) || y == x) by {
        if s.push(x).contains(y) {
            let k = choose|k: int| 0 <= k < s.push(x).len() && s.push(x)[k] == y;
            if k < s.len() {
                assert(s[k] == y);
            }
        }
        if s.contains(y) {
            let k = choose|k: int| 0 <= k < s.len() && s[k] == y;
            assert(s.push(x)[k] == y);
        }
        if y == x {
            assert(s.push(x)[s.len() as int] == y);
        }
    }
}

fn merge(keys: &Vec<SortKey>, a: &Vec<usize>, b: &Vec<usize>) -> (r: Vec<usize>)
    requires
        sorted_positions(key_views(keys@), a@),
        sorted_positions(key_views(keys@), b@),
        forall|i: int, j: int| 0 <= i < a.len() && 0 <= j < b.len() ==> a@[i] != b@[j],
    ensures
        sorted_positions(key_views(keys@), r@),
        r.len() == a.len() + b.len(),
        forall|x: usize| r@.contains(x) <==> (a@.contains(x) || b@.contains(x)),
{
    let ghost kv = key_views(keys@);
    let mut r: Vec<usize> = Vec::new();
    let mut i: usize = 0;
    let mut j: usize = 0;
    while i < a.len() || j < b.len()
        invariant
            kv == key_views(keys@),
            sorted_positions(kv, a@),
            sorted_positions(kv, b@),
            forall|x: int, y: int| 0 <= x < a.len() && 0 <= y < b.len() ==> a@[x] != b@[y],
            i <= a.len(),
            j <= b.len(),
            r.len() == i + j,
            sorted_positions(kv, r@),
            r.len() > 0 && i < a.len() ==> before(kv, r@.last() as int, a@[i as int] as int),
            r.len() > 0 && j < b.len() ==> before(kv, r@.last() as int, b@[j as int] as int),
            forall|x: usize|
                r@.contains(x) <==> (a@.take(i as int).contains(x) || b@.take(j as int).contains(x)),
        decreases a.len() + b.len() - i - j,
    {
        let take_a: bool = if i < a.len() && j < b.len() {
            is_before(keys, a[i], b[j])
        } else {
            i < a.len()
        };
        let ghost old_r = r@;
        let ghost old_a = a@.take(i as int);
        let ghost old_b = b@.take(j as int);
        let x: usize;
        if take_a {
            x = a[i];
            proof {
                if j < b.len() {
                    if !before(kv, a@[i as int] as int, b@[j as int] as int) {
                        lemma_before_total(kv, a@[i as int] as int, b@[j as int] as int);
                    }
                }
            }
            r.push(x);
            i = i + 1;
            proof {
                assert(a@.take(i as int) =~= a@.take(i - 1).push(x));
                if i < a.len() {
                    assert(before(kv, a@[i - 1] as int, a@[i as int] as int));
                }
            }
        } else {
            x = b[j];
            proof {
                if i < a.len() {
                    lemma_before_total(kv, a@[i as int] as int, b@[j as int] as int);
                }
            }
            r.push(x);
            j = j + 1;
            proof {
                assert(b@.take(j as int) =~= b@.take(j - 1).push(x));
                if j < b.len() {
                    assert(before(kv, b@[j - 1] as int, b@[j as int] as int));
                }
            }
        }
        proof {
            assert forall|p: int, q: int| 0 <= p < q < r@.len() implies before(
                kv,
                #[trigger] r@[p] as int,
                #[trigger] r@[q] as int,
            ) by {
                if q == r@.len() - 1 && p < q {
                    if p < old_r.len() - 1 {
                        assert(before(kv, old_r[p] as int, old_r.last() as int));
                        lemma_before_transitive(kv, old_r[p] as int, old_r.last() as int, x as int);
                    }
                } else {
                    assert(r@[p] == old_r[p] && r@[q] == old_r[q]);
                }
            }
            lemma_contains_push(old_r, x);
            if take_a {
                lemma_contains_push(old_a, x);
                assert(b@.take(j as int) == old_b);
            } else {
                lemma_contains_push(old_b, x);
                assert(a@.take(i as int) == old_a);
            }
        }
    }
    proof {
        assert(a@.take(a.len() as int) =~= a@);
        assert(b@.take(b.len() as int) =~= b@);
    }
    r
}

fn msort(keys: &Vec<SortKey>, lo: usize, hi: usize) -> (r: Vec<usize>)
    requires
        lo <= hi <= keys.len(),
    ensures
        sorted_positions(key_views(keys@), r@),
        r.len() == hi - lo,
        forall|x: usize| r@.contains(x) <==> (lo <= x < hi),
    decreases hi - lo,
{
    if hi - lo == 0 {
        return Vec::new();
    }
    if hi - lo == 1 {
        let mut v = Vec::new();
        v.push(lo);
        proof {
            assert forall|x: usize| v@.contains(x) <==> (lo <= x < hi) by {
                if x == lo {
                    assert(v@[0] == x);
                }
            }
        }
        return v;
    }
    let mid = lo + (hi - lo) / 2;
    let a = msort(keys, lo, mid);
    let b = msort(keys, mid, hi);
    proof {
        assert forall|i: int, j: int| 0 <= i < a.len() && 0 <= j < b.len() implies a@[i] != b@[j] by {
            assert(a@.contains(a@[i]));
            assert(b@.contains(b@[j]));
        }
    }
    merge(keys, &a, &b)
}

/// The positions of `keys` in the order a stable sort by key leaves them.
pub fn sort_indices(keys: &Vec<SortKey>) -> (r: Vec<usize>)
    ensures
        is_sorted_perm(key_views(keys@), r@),
{
    let r = msort(keys, 0, keys.len());
    proof {
        assert forall|k: usize| k < keys.len() implies #[trigger] r@.contains(k) by {}
    }
    r
}

/// A stable sort leaves the keys in non-decreasing order: no later item has
/// a smaller key than an earlier one.
pub proof fn lemma_sorted_keys(keys: Seq<(u64, Seq<char>, u64)>, p: Seq<usize>)
    requires
        is_sorted_perm(keys, p),
    ensures
        forall|i: int, j: int|
            0 <= i < j < p.len() ==> !key_lt(keys[#[trigger] p[j] as int], keys[#[trigger] p[i] as int]),
{
    assert forall|i: int, j: int| 0 <= i < j < p.len() implies !key_lt(
        keys[#[trigger] p[j] as int],
        keys[#[trigger] p[i] as int],
    ) by {
        let a = keys[p[i] as int];
        let b = keys[p[j] as int];
        assert(before(keys, p[i] as int, p[j] as int));
        if key_lt(b, a) {
            if key_lt(a, b) {
                lemma_key_lt_transitive(a, b, a);
            }
            lemma_key_lt_irreflexive(a);
        }
    }
}

proof fn lemma_before_asymmetric(keys: Seq<(u64, Seq<char>, u64)>, i: int, j: int)
    requires
        before(keys, i, j),
    ensures
        !before(keys, j, i),
        i != j,
{
    lemma_key_lt_irreflexive(keys[i]);
    if key_lt(keys[i], keys[j]) && key_lt(keys[j], keys[i]) {
        lemma_key_lt_transitive(keys[i], keys[j], keys[i]);
    }
}

/// Orders of positions by `before` that hold the same positions are equal.
proof fn lemma_before_orders_equal(keys: Seq<(u64, Seq<char>, u64)>, p: Seq<usize>, q: Seq<usize>)
    requires
        forall|i: int, j: int| 0 <= i < j < p.len() ==> before(keys, #[trigger] p[i] as int, #[trigger] p[j] as int),
        forall|i: int, j: int| 0 <= i < j < q.len() ==> before(keys, #[trigger] q[i] as int, #[trigger] q[j] as int),
        forall|x: usize| #![trigger p.contains(x)] #![trigger q.contains(x)] p.contains(x) <==> q.contains(x),
    ensures
        p == q,
    decreases p.len(),
{
    if p.len() == 0 {
        if q.len() > 0 {
            assert(q.contains(q[0]));
        }
        assert(q =~= p);
    } else if q.len() == 0 {
        assert(p.contains(p[0]));
    } else {
        assert(p.contains(p[0]));
        let j = choose|j: int| 0 <= j < q.len() && q[j] == p[0];
        if j > 0 {
            assert(q.contains(q[0]));
            let i = choose|i: int| 0 <= i < p.len() && p[i] == q[0];
            if i == 0 {
                lemma_before_asymmetric(keys, q[0] as int, q[j] as int);
            } else {
                lemma_before_asymmetric(keys, p[0] as int, p[i] as int);
            }
        }
        assert(q[0] == p[0]);
        let pd = p.drop_first();
        let qd = q.drop_first();
        assert forall|i: int, j: int| 0 <= i < j < pd.len() implies before(
            keys,
            #[trigger] pd[i] as int,
            #[trigger] pd[j] as int,
        ) by {
            assert(pd[i] == p[i + 1] && pd[j] == p[j + 1]);
        }
        assert forall|i: int, j: int| 0 <= i < j < qd.len() implies before(
            keys,
            #[trigger] qd[i] as int,
            #[trigger] qd[j] as int,
        ) by {
            assert(qd[i] == q[i + 1] && qd[j] == q[j + 1]);
        }
        assert forall|x: usize| #![trigger pd.contains(x)] #![trigger qd.contains(x)] pd.contains(x) <==> qd.contains(x) by {
            if pd.contains(x) {
                let k = choose|k: int| 0 <= k < pd.len() && pd[k] == x;
                assert(p[k + 1] == x);
                lemma_before_asymmetric(keys, p[0] as int, p[k + 1] as int);
                assert(p.contains(x));
                let m = choose|m: int| 0 <= m < q.len() && q[m] == x;
                assert(m > 0);
                assert(qd[m - 1] == x);
            }
            if qd.contains(x) {
                let k = choose|k: int| 0 <= k < qd.len() && qd[k] == x;
                assert(q[k + 1] == x);
                lemma_before_asymmetric(keys, q[0] as int, q[k + 1] as int);
                assert(q.contains(x));
                let m = choose|m: int| 0 <= m < p.len() && p[m] == x;
                assert(m > 0);
                assert(pd[m - 1] == x);
            }
        }
        lemma_before_orders_equal(keys, pd, qd);
        assert(p =~= seq![p[0]] + pd);
        assert(q =~= seq![q[0]] + qd);
    }
}

/// A stable sort is unique: two sorted orders of the same keys are equal.
pub proof fn lemma_sorted_perm_unique(keys: Seq<(u64, Seq<char>, u64)>, p: Seq<usize>, q: Seq<usize>)
    requires
        is_sorted_perm(keys, p),
        is_sorted_perm(keys, q),
    ensures
        p == q,
{
    assert forall|x: usize| #![trigger p.contains(x)] #![trigger q.contains(x)] p.contains(x) <==> q.contains(x) by {
        if p.contains(x) {
            let k = choose|k: int| 0 <= k < p.len() && p[k] == x;
            assert(x < keys.len());
        }
        if q.contains(x) {
            let k = choose|k: int| 0 <= k < q.len() && q[k] == x;
            assert(x < keys.len());
        }
    }
    lemma_before_orders_equal(keys, p, q);
}

} // verus!

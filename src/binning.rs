use vstd::prelude::*;
use vstd::seq_lib::{
    group_to_multiset_ensures, lemma_fold_left_permutation, lemma_multiset_commutative,
    to_multiset_build,
};

verus! {

/// A row's sort key paired with its position.
pub type Keyed = (u64, usize);

/// The order of keyed rows: by key, then by position.
pub open spec fn keyed_le(a: Keyed, b: Keyed) -> bool {
    a.0 < b.0 || (a.0 == b.0 && a.1 <= b.1)
}

pub open spec fn keyed_sorted(s: Seq<Keyed>) -> bool {
    forall|i: int, j: int| 0 <= i < j < s.len() ==> keyed_le(#[trigger] s[i], #[trigger] s[j])
}

fn keyed_less_eq(a: Keyed, b: Keyed) -> (r: bool)
    ensures
        r == keyed_le(a, b),
{
    a.0 < b.0 || (a.0 == b.0 && a.1 <= b.1)
}

/// Merges two sorted runs into one.
fn merge(a: &Vec<Keyed>, b: &Vec<Keyed>) -> (r: Vec<Keyed>)
    requires
        keyed_sorted(a@),
        keyed_sorted(b@),
    ensures
        keyed_sorted(r@),
        r@.to_multiset() == a@.to_multiset().add(b@.to_multiset()),
{
    broadcast use group_to_multiset_ensures, vstd::multiset::group_multiset_axioms;

    let mut out: Vec<Keyed> = Vec::new();
    let mut i: usize = 0;
    let mut j: usize = 0;
    assert(a@.subrange(0, 0) =~= Seq::<Keyed>::empty());
    assert(b@.subrange(0, 0) =~= Seq::<Keyed>::empty());
    while i < a.len() || j < b.len()
        invariant
            keyed_sorted(a@),
            keyed_sorted(b@),
            i <= a.len(),
            j <= b.len(),
            keyed_sorted(out@),
            out@.len() == i + j,
            out@.to_multiset() == a@.subrange(0, i as int).to_multiset().add(
                b@.subrange(0, j as int).to_multiset(),
            ),
            out@.len() > 0 && i < a.len() ==> keyed_le(out@.last(), a@[i as int]),
            out@.len() > 0 && j < b.len() ==> keyed_le(out@.last(), b@[j as int]),
        decreases a.len() + b.len() - i - j,
    {
        let ghost before = out@;
        if j >= b.len() || (i < a.len() && keyed_less_eq(a[i], b[j])) {
            out.push(a[i]);
            proof {
                assert(a@.subrange(0, i + 1) =~= a@.subrange(0, i as int).push(a@[i as int]));
                assert(out@ == before.push(a@[i as int]));
                to_multiset_build(before, a@[i as int]);
                to_multiset_build(a@.subrange(0, i as int), a@[i as int]);
                assert(out@.to_multiset() =~= a@.subrange(0, i + 1).to_multiset().add(
                    b@.subrange(0, j as int).to_multiset(),
                ));
            }
            i = i + 1;
        } else {
            out.push(b[j]);
            proof {
                assert(b@.subrange(0, j + 1) =~= b@.subrange(0, j as int).push(b@[j as int]));
                assert(out@ == before.push(b@[j as int]));
                to_multiset_build(before, b@[j as int]);
                to_multiset_build(b@.subrange(0, j as int), b@[j as int]);
                assert(out@.to_multiset() =~= a@.subrange(0, i as int).to_multiset().add(
                    b@.subrange(0, j + 1).to_multiset(),
                ));
            }
            j = j + 1;
        }
        proof {
            assert forall|x: int, y: int| 0 <= x < y < out@.len() implies keyed_le(#[trigger] out@[x], #[trigger] out@[y]) by {
                if y == out@.len() - 1 && x < before.len() {
                    assert(keyed_le(before[x], before.last()) || x == before.len() - 1);
                }
            }
        }
    }
    assert(a@.subrange(0, i as int) =~= a@);
    assert(b@.subrange(0, j as int) =~= b@);
    out
}

/// Sorts the rows `lo..hi` of `v` by key, then by position.
fn sort_range(v: &Vec<Keyed>, lo: usize, hi: usize) -> (r: Vec<Keyed>)
    requires
        lo <= hi <= v.len(),
    ensures
        keyed_sorted(r@),
        r@.to_multiset() == v@.subrange(lo as int, hi as int).to_multiset(),
    decreases hi - lo,
{
    if hi - lo <= 1 {
        let mut out: Vec<Keyed> = Vec::new();
        if hi > lo {
            out.push(v[lo]);
        }
        assert(out@ =~= v@.subrange(lo as int, hi as int));
        out
    } else {
        let mid = lo + (hi - lo) / 2;
        let left = sort_range(v, lo, mid);
        let right = sort_range(v, mid, hi);
        proof {
            assert(v@.subrange(lo as int, hi as int) =~= v@.subrange(lo as int, mid as int) + v@.subrange(mid as int, hi as int));
            lemma_multiset_commutative(v@.subrange(lo as int, mid as int), v@.subrange(mid as int, hi as int));
        }
        merge(&left, &right)
    }
}

/// Whether row `j` comes before row `r` when rows are sorted by key, ties
/// kept in row order.
pub open spec fn sorts_before(keys: Seq<u64>, j: int, r: int) -> bool {
    keys[j] < keys[r] || (keys[j] == keys[r] && j < r)
}

/// How many of the rows `0..n` come before row `r`.
pub open spec fn count_before(keys: Seq<u64>, r: int, n: int) -> nat
    decreases n,
{
    if n <= 0 {
        0
    } else {
        count_before(keys, r, n - 1) + if sorts_before(keys, n - 1, r) {
            1nat
        } else {
            0nat
        }
    }
}

/// The position of row `r` once the rows are sorted by key, ties kept in
/// row order.
pub open spec fn rank(keys: Seq<u64>, r: int) -> nat {
    count_before(keys, r, keys.len() as int)
}

/// How many rows each bin holds when `n` rows go into `k` bins: `ceil(n / k)`.
pub open spec fn bin_size(n: nat, k: nat) -> nat {
    if k == 0 {
        0
    } else {
        ((n + k - 1) / k as int) as nat
    }
}

/// The bin of row `r`: its sorted position divided by the bin size.
pub open spec fn bin_of(keys: Seq<u64>, k: nat, r: int) -> nat {
    let size = bin_size(keys.len(), k);
    if size == 0 {
        0
    } else {
        rank(keys, r) / size
    }
}

proof fn lemma_count_bounded(keys: Seq<u64>, r: int, n: int)
    requires
        0 <= n <= keys.len(),
        0 <= r < keys.len(),
    ensures
        count_before(keys, r, n) <= n,
        r < n ==> count_before(keys, r, n) < n,
    decreases n,
{
    if n > 0 {
        lemma_count_bounded(keys, r, n - 1);
    }
}

/// If row `b` sorts before row `a`, fewer rows sort before `b` than before `a`.
proof fn lemma_count_monotone(keys: Seq<u64>, a: int, b: int, n: int)
    requires
        0 <= a < keys.len(),
        0 <= b < keys.len(),
        0 <= n <= keys.len(),
        sorts_before(keys, b, a),
    ensures
        count_before(keys, b, n) <= count_before(keys, a, n),
        b < n ==> count_before(keys, b, n) < count_before(keys, a, n),
    decreases n,
{
    if n > 0 {
        lemma_count_monotone(keys, a, b, n - 1);
    }
}

/// Rows sorted apart keep their order in rank.
pub proof fn lemma_rank_strict(keys: Seq<u64>, a: int, b: int)
    requires
        0 <= a < keys.len(),
        0 <= b < keys.len(),
        sorts_before(keys, b, a),
    ensures
        rank(keys, b) < rank(keys, a),
{
    lemma_count_monotone(keys, a, b, keys.len() as int);
}

/// The bins of a quantile binning: every bin is below `k`; the ranks are
/// distinct positions `0..n`, so that listing the rows bin by bin, each bin
/// in rank order, gives the rows sorted by key; and a row in a lower bin
/// never has a larger key than a row in a higher bin.
pub proof fn lemma_quantile_bins(keys: Seq<u64>, k: nat)
    requires
        k >= 1,
    ensures
        forall|r: int| 0 <= r < keys.len() ==> #[trigger] bin_of(keys, k, r) < k,
        forall|r: int| 0 <= r < keys.len() ==> #[trigger] rank(keys, r) < keys.len(),
        forall|a: int, b: int|
            0 <= a < keys.len() && 0 <= b < keys.len() && a != b ==> #[trigger] rank(keys, a)
                != #[trigger] rank(keys, b),
        forall|a: int, b: int|
            0 <= a < keys.len() && 0 <= b < keys.len() && #[trigger] bin_of(keys, k, a)
                < #[trigger] bin_of(keys, k, b) ==> keys[a] <= keys[b],
{
    let n = keys.len();
    let size = bin_size(n, k);
    assert forall|r: int| 0 <= r < n implies #[trigger] rank(keys, r) < n by {
        lemma_count_bounded(keys, r, n as int);
    }
    assert forall|r: int| 0 <= r < n implies #[trigger] bin_of(keys, k, r) < k by {
        let q = rank(keys, r);
        assert(q < n);
        assert(size * k >= n) by (nonlinear_arith)
            requires
                size == (n + k - 1) / k as int,
                k >= 1,
        ;
        assert(size > 0) by (nonlinear_arith)
            requires
                size == (n + k - 1) / k as int,
                k >= 1,
                n >= 1,
        ;
        assert(q / size < k) by (nonlinear_arith)
            requires
                q < n,
                size * k >= n,
                size > 0,
        ;
    }
    assert forall|a: int, b: int|
        0 <= a < n && 0 <= b < n && a != b implies #[trigger] rank(keys, a) != #[trigger] rank(
        keys,
        b,
    ) by {
        if sorts_before(keys, b, a) {
            lemma_rank_strict(keys, a, b);
        } else {
            lemma_rank_strict(keys, b, a);
        }
    }
    assert forall|a: int, b: int|
        0 <= a < n && 0 <= b < n && #[trigger] bin_of(keys, k, a) < #[trigger] bin_of(
            keys,
            k,
            b,
        ) implies keys[a] <= keys[b] by {
        if keys[a] > keys[b] {
            lemma_rank_strict(keys, a, b);
            let ra = rank(keys, a);
            let rb = rank(keys, b);
            assert(rb / size <= ra / size) by (nonlinear_arith)
                requires
                    rb < ra,
                    size > 0,
            ;
        }
    }
}

/// The rows of `keys` as (key, position) pairs, in row order.
pub open spec fn keyed_rows(keys: Seq<u64>) -> Seq<Keyed> {
    Seq::new(keys.len(), |j: int| (keys[j], j as usize))
}

pub open spec fn keyed_lt(a: Keyed, b: Keyed) -> bool {
    a.0 < b.0 || (a.0 == b.0 && a.1 < b.1)
}

/// Adds one for each keyed row below `t`.
pub open spec fn count_below(t: Keyed) -> spec_fn(nat, Keyed) -> nat {
    |acc: nat, x: Keyed| acc + if keyed_lt(x, t) { 1nat } else { 0nat }
}

proof fn lemma_count_as_fold(keys: Seq<u64>, r: int, m: int)
    requires
        keys.len() <= usize::MAX,
        0 <= r < keys.len(),
        0 <= m <= keys.len(),
    ensures
        count_before(keys, r, m) == keyed_rows(keys).subrange(0, m).fold_left(
            0nat,
            count_below((keys[r], r as usize)),
        ),
    decreases m,
{
    if m > 0 {
        lemma_count_as_fold(keys, r, m - 1);
        assert(keyed_rows(keys).subrange(0, m).drop_last() =~= keyed_rows(keys).subrange(0, m - 1));
    }
}

proof fn lemma_fold_over_sorted(s: Seq<Keyed>, p: int, m: int)
    requires
        forall|i: int, j: int| 0 <= i < j < s.len() ==> keyed_lt(#[trigger] s[i], #[trigger] s[j]),
        0 <= p < s.len(),
        0 <= m <= s.len(),
    ensures
        s.subrange(0, m).fold_left(0nat, count_below(s[p])) == if m < p { m } else { p },
    decreases m,
{
    if m > 0 {
        lemma_fold_over_sorted(s, p, m - 1);
        assert(s.subrange(0, m).drop_last() =~= s.subrange(0, m - 1));
        if m - 1 >= p {
            assert(!keyed_lt(s[m - 1], s[p])) by {
                if m - 1 > p {
                    assert(keyed_lt(s[p], s[m - 1]));
                }
            }
        }
    }
}

/// A sorted arrangement of the keyed rows lists each row once, in strictly
/// increasing order, and has as many entries as there are rows.
proof fn lemma_sorted_rows(keys: Seq<u64>, sorted: Seq<Keyed>)
    requires
        keys.len() <= usize::MAX,
        keyed_sorted(sorted),
        sorted.to_multiset() == keyed_rows(keys).to_multiset(),
    ensures
        sorted.len() == keys.len(),
        forall|p: int|
            0 <= p < sorted.len() ==> (#[trigger] sorted[p]).1 < keys.len() && sorted[p] == (
                keys[sorted[p].1 as int],
                sorted[p].1,
            ),
        forall|i: int, j: int| 0 <= i < j < sorted.len() ==> keyed_lt(#[trigger] sorted[i], #[trigger] sorted[j]),
        forall|r: int| 0 <= r < keys.len() ==> sorted.contains(#[trigger] keyed_rows(keys)[r]),
{
    broadcast use group_to_multiset_ensures, vstd::multiset::group_multiset_axioms;

    let rows = keyed_rows(keys);
    assert(rows.no_duplicates()) by {
        assert forall|i: int, j: int| 0 <= i < rows.len() && 0 <= j < rows.len() && i != j implies rows[i] != rows[j] by {
            assert(rows[i].1 == i as usize);
            assert(rows[j].1 == j as usize);
        }
    }
    rows.lemma_multiset_has_no_duplicates();
    sorted.lemma_multiset_has_no_duplicates_conv();
    assert(sorted.len() == rows.len()) by {
        assert(sorted.to_multiset().len() == sorted.len());
        assert(rows.to_multiset().len() == rows.len());
    }
    assert forall|p: int| 0 <= p < sorted.len() implies (#[trigger] sorted[p]).1 < keys.len() && sorted[p] == (
        keys[sorted[p].1 as int],
        sorted[p].1,
    ) by {
        assert(sorted.to_multiset().contains(sorted[p]));
        assert(rows.contains(sorted[p]));
        let j = choose|j: int| 0 <= j < rows.len() && rows[j] == sorted[p];
        assert(rows[j] == (keys[j], j as usize));
    }
    assert forall|i: int, j: int| 0 <= i < j < sorted.len() implies keyed_lt(#[trigger] sorted[i], #[trigger] sorted[j]) by {
        assert(keyed_le(sorted[i], sorted[j]));
        assert(sorted[i] != sorted[j]);
    }
    assert forall|r: int| 0 <= r < keys.len() implies sorted.contains(#[trigger] keyed_rows(keys)[r]) by {
        assert(rows.to_multiset().contains(rows[r]));
    }
}

/// The row at position `p` of a sorted arrangement has rank `p`.
proof fn lemma_sorted_rank(keys: Seq<u64>, sorted: Seq<Keyed>, p: int)
    requires
        keys.len() <= usize::MAX,
        keyed_sorted(sorted),
        sorted.to_multiset() == keyed_rows(keys).to_multiset(),
        0 <= p < sorted.len(),
    ensures
        rank(keys, sorted[p].1 as int) == p,
{
    lemma_sorted_rows(keys, sorted);
    let r = sorted[p].1 as int;
    let f = count_below(sorted[p]);
    assert((keys[r], r as usize) == sorted[p]);
    lemma_count_as_fold(keys, r, keys.len() as int);
    assert(keyed_rows(keys).subrange(0, keys.len() as int) =~= keyed_rows(keys));
    assert(sorted.subrange(0, sorted.len() as int) =~= sorted);
    lemma_fold_left_permutation(keyed_rows(keys), sorted, f, 0nat);
    lemma_fold_over_sorted(sorted, p, sorted.len() as int);
}

/// `ceil(n / k)`, the number of rows in each bin.
fn group_size(n: usize, k: usize) -> (size: usize)
    requires
        k >= 1,
    ensures
        size == bin_size(n as nat, k as nat),
{
    let extra: usize = if n % k == 0 {
        0
    } else {
        1
    };
    assert(n / k + extra <= usize::MAX) by (nonlinear_arith)
        requires
            k >= 1,
            extra == 1 ==> n % k != 0,
            extra <= 1,
            n <= usize::MAX,
    {
        if extra == 1 {
            assert(k >= 2);
            assert(n / k < n);
        }
    }
    let size: usize = n / k + extra;
    assert(size == bin_size(n as nat, k as nat)) by (nonlinear_arith)
        requires
            k >= 1,
            size == n / k + extra,
            extra == (if n % k == 0 {
                0int
            } else {
                1int
            }),
    {
        assert(n == k * (n / k) + n % k);
    }
    size
}

/// Quantile binning of rows by key: the rows, sorted by key with ties in row
/// order, are cut into `k` consecutive groups of `ceil(n / k)` rows (the last
/// may hold fewer). The result gives, for each row in row order, its group.
pub fn quantile_bins(keys: &Vec<u64>, k: usize) -> (r: Vec<usize>)
    requires
        k >= 1,
    ensures
        r@.len() == keys@.len(),
        forall|i: int| 0 <= i < keys@.len() ==> #[trigger] r@[i] == bin_of(keys@, k as nat, i),
{
    let n = keys.len();
    let size = group_size(n, k);
    let mut rows: Vec<Keyed> = Vec::new();
    let mut bins: Vec<usize> = Vec::new();
    let mut j: usize = 0;
    while j < n
        invariant
            n == keys.len(),
            j <= n,
            rows@ == keyed_rows(keys@).subrange(0, j as int),
            bins@.len() == j,
        decreases n - j,
    {
        rows.push((keys[j], j));
        bins.push(0);
        j = j + 1;
        assert(rows@ =~= keyed_rows(keys@).subrange(0, j as int));
    }
    assert(rows@ =~= keyed_rows(keys@));
    let sorted = sort_range(&rows, 0, n);
    assert(rows@.subrange(0, n as int) =~= rows@);
    proof {
        lemma_sorted_rows(keys@, sorted@);
    }
    let mut p: usize = 0;
    while p < n
        invariant
            n == keys.len(),
            size == bin_size(n as nat, k as nat),
            keyed_sorted(sorted@),
            sorted@.to_multiset() == keyed_rows(keys@).to_multiset(),
            sorted@.len() == n,
            forall|q: int|
                0 <= q < n ==> (#[trigger] sorted@[q]).1 < n && sorted@[q] == (
                    keys@[sorted@[q].1 as int],
                    sorted@[q].1,
                ),
            forall|a: int, b: int| 0 <= a < b < n ==> keyed_lt(#[trigger] sorted@[a], #[trigger] sorted@[b]),
            p <= n,
            bins@.len() == n,
            forall|q: int| 0 <= q < p ==> #[trigger] bins@[sorted@[q].1 as int] == bin_of(keys@, k as nat, sorted@[q].1 as int),
        decreases n - p,
    {
        let row = sorted[p].1;
        proof {
            lemma_sorted_rank(keys@, sorted@, p as int);
            assert forall|q: int| 0 <= q < p implies sorted@[q].1 != row by {
                assert(keyed_lt(sorted@[q], sorted@[p as int]));
            }
        }
        let b = if size == 0 {
            0
        } else {
            p / size
        };
        bins.set(row, b);
        p = p + 1;
    }
    proof {
        assert forall|i: int| 0 <= i < n implies #[trigger] bins@[i] == bin_of(keys@, k as nat, i) by {
            assert(sorted@.contains(keyed_rows(keys@)[i]));
            let q = choose|q: int| 0 <= q < sorted@.len() && sorted@[q] == keyed_rows(keys@)[i];
            assert(sorted@[q].1 == i as usize);
        }
    }
    bins
}

} // verus!

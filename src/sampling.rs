use vstd::prelude::*;
use vstd::relations::{sorted_by, total_ordering};
use vstd::seq_lib::{group_to_multiset_ensures, lemma_sorted_unique, to_multiset_build, to_multiset_insert};

use crate::binning::{bin_of, quantile_bins};
use crate::error::FrameError;

verus! {

/// The bins of every row in every stratifying column: `bins[j][r]` is the
/// quantile bin of row `r` by the keys of column `j`, cut into `counts[j]` bins.
pub open spec fn column_bins(keys: Seq<Seq<u64>>, counts: Seq<usize>) -> Seq<Seq<usize>> {
    Seq::new(
        keys.len(),
        |j: int| Seq::new(keys[j].len(), |r: int| bin_of(keys[j], counts[j] as nat, r) as usize),
    )
}

/// The bins of row `r`, one per column.
pub open spec fn row_bins(bins: Seq<Seq<usize>>, r: int) -> Seq<usize> {
    Seq::new(bins.len(), |j: int| bins[j][r])
}

/// Whether rows `a` and `b` fall in the same stratum: their bins, sorted,
/// are the same tuple.
pub open spec fn same_stratum(bins: Seq<Seq<usize>>, a: int, b: int) -> bool {
    row_bins(bins, a).to_multiset() == row_bins(bins, b).to_multiset()
}

/// How many of the rows `0..n` share the stratum of row `r`.
pub open spec fn count_same(bins: Seq<Seq<usize>>, r: int, n: int) -> nat
    decreases n,
{
    if n <= 0 {
        0
    } else {
        count_same(bins, r, n - 1) + if same_stratum(bins, n - 1, r) {
            1nat
        } else {
            0nat
        }
    }
}

/// Whether row `r` is a test row: its position within its stratum, rows taken
/// in identifier order, is a multiple of `stride`.
pub open spec fn is_test_row(bins: Seq<Seq<usize>>, stride: nat, r: int) -> bool {
    count_same(bins, r, r) % stride == 0
}

/// The rows `0..n` that are test rows, in order.
pub open spec fn test_rows(bins: Seq<Seq<usize>>, stride: nat, n: int) -> Seq<usize>
    decreases n,
{
    if n <= 0 {
        Seq::empty()
    } else if is_test_row(bins, stride, n - 1) {
        test_rows(bins, stride, n - 1).push((n - 1) as usize)
    } else {
        test_rows(bins, stride, n - 1)
    }
}

/// The rows `0..n` that are training rows, in order.
pub open spec fn train_rows(bins: Seq<Seq<usize>>, stride: nat, n: int) -> Seq<usize>
    decreases n,
{
    if n <= 0 {
        Seq::empty()
    } else if is_test_row(bins, stride, n - 1) {
        train_rows(bins, stride, n - 1)
    } else {
        train_rows(bins, stride, n - 1).push((n - 1) as usize)
    }
}

/// A stratified split of rows into a training and a test set. Rows are
/// grouped by the quantile bins they fall in over some columns; within each
/// group, in identifier order, every `test_stride`-th row, starting with the
/// first, is a test row.
pub struct StratifiedShuffleSplit {
    test_stride: usize,
    stratified_by: Vec<(String, usize)>,
}

pub open spec fn leq_usize() -> spec_fn(usize, usize) -> bool {
    |a: usize, b: usize| a <= b
}

/// Sorts a short sequence of bin numbers.
fn sorted_bins(v: &Vec<usize>) -> (r: Vec<usize>)
    ensures
        sorted_by(r@, leq_usize()),
        r@.to_multiset() == v@.to_multiset(),
{
    broadcast use group_to_multiset_ensures;

    let mut out: Vec<usize> = Vec::new();
    let mut i: usize = 0;
    assert(v@.subrange(0, 0) =~= Seq::<usize>::empty());
    while i < v.len()
        invariant
            i <= v.len(),
            sorted_by(out@, leq_usize()),
            out@.to_multiset() == v@.subrange(0, i as int).to_multiset(),
        decreases v.len() - i,
    {
        let x = v[i];
        let mut p: usize = 0;
        while p < out.len() && out[p] <= x
            invariant
                p <= out.len(),
                forall|q: int| 0 <= q < p ==> out@[q] <= x,
            decreases out.len() - p,
        {
            p = p + 1;
        }
        let ghost before = out@;
        out.insert(p, x);
        proof {
            assert(out@ == before.insert(p as int, x));
            to_multiset_insert(before, p as int, x);
            assert(v@.subrange(0, i + 1) =~= v@.subrange(0, i as int).push(x));
            to_multiset_build(v@.subrange(0, i as int), x);
            assert forall|a: int, b: int| 0 <= a < b < out@.len() implies #[trigger] leq_usize()(
                out@[a],
                out@[b],
            ) by {
                if b < p {
                    assert(leq_usize()(before[a], before[b]));
                } else if b == p {
                    assert(before[a] <= x);
                } else if a < p {
                    assert(before[a] <= x);
                    assert(p < before.len() ==> x < before[p as int]);
                    assert(leq_usize()(before[p as int], before[b - 1]) || p == b - 1);
                } else if a == p {
                    assert(x < before[p as int]);
                    assert(leq_usize()(before[p as int], before[b - 1]) || p == b - 1);
                } else {
                    assert(leq_usize()(before[a - 1], before[b - 1]));
                }
            }
        }
        i = i + 1;
    }
    assert(v@.subrange(0, i as int) =~= v@);
    out
}

proof fn lemma_leq_total()
    ensures
        total_ordering(leq_usize()),
{
}

fn same_seq(a: &Vec<usize>, b: &Vec<usize>) -> (r: bool)
    ensures
        r == (a@ == b@),
{
    if a.len() != b.len() {
        return false;
    }
    let mut i: usize = 0;
    while i < a.len()
        invariant
            a.len() == b.len(),
            i <= a.len(),
            forall|j: int| 0 <= j < i ==> a@[j] == b@[j],
        decreases a.len() - i,
    {
        if a[i] != b[i] {
            return false;
        }
        i = i + 1;
    }
    assert(a@ =~= b@);
    true
}

/// The split is a partition of the rows `0..n`: every row is in exactly one
/// of the two sets, each set lists its rows once, in increasing order, and a
/// row is a test row exactly when its position in its stratum is a multiple
/// of the stride.
pub proof fn lemma_split_partition(bins: Seq<Seq<usize>>, stride: nat, n: int)
    requires
        stride >= 1,
        0 <= n <= usize::MAX,
    ensures
        train_rows(bins, stride, n).len() + test_rows(bins, stride, n).len() == n,
        forall|x: usize| #[trigger]
            test_rows(bins, stride, n).contains(x) <==> (x < n && is_test_row(bins, stride, x as int)),
        forall|x: usize| #[trigger]
            train_rows(bins, stride, n).contains(x) <==> (x < n && !is_test_row(bins, stride, x as int)),
        forall|x: usize|
            !(#[trigger] train_rows(bins, stride, n).contains(x) && #[trigger] test_rows(bins, stride, n).contains(x)),
        forall|x: usize|
            x < n <==> (#[trigger] train_rows(bins, stride, n).contains(x) || #[trigger] test_rows(bins, stride, n).contains(x)),
        forall|a: int, b: int|
            0 <= a < b < test_rows(bins, stride, n).len() ==> #[trigger] test_rows(bins, stride, n)[a]
                < #[trigger] test_rows(bins, stride, n)[b],
        forall|a: int, b: int|
            0 <= a < b < train_rows(bins, stride, n).len() ==> #[trigger] train_rows(bins, stride, n)[a]
                < #[trigger] train_rows(bins, stride, n)[b],
    decreases n,
{
    if n > 0 {
        lemma_split_partition(bins, stride, n - 1);
        let te = test_rows(bins, stride, n - 1);
        let tr = train_rows(bins, stride, n - 1);
        let x0 = (n - 1) as usize;
        assert forall|x: usize| #[trigger] test_rows(bins, stride, n).contains(x) <==> (x < n && is_test_row(bins, stride, x as int)) by {
            if is_test_row(bins, stride, n - 1) {
                assert(te.push(x0).contains(x) <==> (te.contains(x) || x == x0)) by {
                    if te.push(x0).contains(x) {
                        let j = choose|j: int| 0 <= j < te.push(x0).len() && te.push(x0)[j] == x;
                        if j < te.len() {
                            assert(te[j] == x);
                        }
                    }
                    if te.contains(x) {
                        let j = choose|j: int| 0 <= j < te.len() && te[j] == x;
                        assert(te.push(x0)[j] == x);
                    }
                    if x == x0 {
                        assert(te.push(x0)[te.len() as int] == x);
                    }
                }
            }
        }
        assert forall|x: usize| #[trigger] train_rows(bins, stride, n).contains(x) <==> (x < n && !is_test_row(bins, stride, x as int)) by {
            if !is_test_row(bins, stride, n - 1) {
                assert(tr.push(x0).contains(x) <==> (tr.contains(x) || x == x0)) by {
                    if tr.push(x0).contains(x) {
                        let j = choose|j: int| 0 <= j < tr.push(x0).len() && tr.push(x0)[j] == x;
                        if j < tr.len() {
                            assert(tr[j] == x);
                        }
                    }
                    if tr.contains(x) {
                        let j = choose|j: int| 0 <= j < tr.len() && tr[j] == x;
                        assert(tr.push(x0)[j] == x);
                    }
                    if x == x0 {
                        assert(tr.push(x0)[tr.len() as int] == x);
                    }
                }
            }
        }
        assert forall|a: int, b: int|
            0 <= a < b < test_rows(bins, stride, n).len() implies #[trigger] test_rows(bins, stride, n)[a]
                < #[trigger] test_rows(bins, stride, n)[b] by {
            if is_test_row(bins, stride, n - 1) && b == te.len() {
                assert(te.contains(te[a]));
            }
        }
        assert forall|a: int, b: int|
            0 <= a < b < train_rows(bins, stride, n).len() implies #[trigger] train_rows(bins, stride, n)[a]
                < #[trigger] train_rows(bins, stride, n)[b] by {
            if !is_test_row(bins, stride, n - 1) && b == tr.len() {
                assert(tr.contains(tr[a]));
            }
        }
    }
}

/// How many of the rows `0..n` are test rows in the stratum of row `s`.
pub open spec fn stratum_tests(bins: Seq<Seq<usize>>, stride: nat, s: int, n: int) -> nat
    decreases n,
{
    if n <= 0 {
        0
    } else {
        stratum_tests(bins, stride, s, n - 1) + if same_stratum(bins, n - 1, s) && is_test_row(
            bins,
            stride,
            n - 1,
        ) {
            1nat
        } else {
            0nat
        }
    }
}

proof fn lemma_count_same_shared(bins: Seq<Seq<usize>>, r: int, s: int, n: int)
    requires
        same_stratum(bins, r, s),
    ensures
        count_same(bins, r, n) == count_same(bins, s, n),
    decreases n,
{
    if n > 0 {
        lemma_count_same_shared(bins, r, s, n - 1);
    }
}

proof fn lemma_ceil_step(c: nat, d: nat)
    requires
        d >= 1,
    ensures
        (c + 1 + d - 1) / d as int == (c + d - 1) / d as int + if c % d == 0 {
            1int
        } else {
            0int
        },
{
    let q = c / d;
    let m = c % d;
    assert(c == q * d + m && 0 <= m < d) by (nonlinear_arith)
        requires
            d >= 1,
            q == c / d,
            m == c % d,
    ;
    if m == 0 {
        assert((c + d - 1) / d as int == q) by (nonlinear_arith)
            requires
                c == q * d,
                d >= 1,
        ;
        assert((c + 1 + d - 1) / d as int == q + 1) by (nonlinear_arith)
            requires
                c == q * d,
                d >= 1,
        ;
    } else {
        assert((c + d - 1) / d as int == q + 1) by (nonlinear_arith)
            requires
                c == q * d + m,
                1 <= m < d,
        ;
        assert((c + 1 + d - 1) / d as int == q + 1) by (nonlinear_arith)
            requires
                c == q * d + m,
                1 <= m < d,
        ;
    }
}

/// Each stratum sends `ceil(size / stride)` of its rows to the test set, so
/// the test set holds a fraction of about `1 / stride` of every stratum.
pub proof fn lemma_stratum_test_count(bins: Seq<Seq<usize>>, stride: nat, s: int, n: int)
    requires
        stride >= 1,
        n >= 0,
    ensures
        stratum_tests(bins, stride, s, n) == (count_same(bins, s, n) + stride - 1) / stride as int,
    decreases n,
{
    if n > 0 {
        lemma_stratum_test_count(bins, stride, s, n - 1);
        let r = n - 1;
        if same_stratum(bins, r, s) {
            lemma_count_same_shared(bins, r, s, r);
            lemma_ceil_step(count_same(bins, s, r), stride);
        }
    } else {
        assert((0 + stride - 1) / stride as int == 0) by (nonlinear_arith)
            requires
                stride >= 1,
        ;
    }
}

/// How many of the rows `0..n` have the stratum tuple `tup`.
spec fn count_tuple(sv: Seq<Seq<usize>>, tup: Seq<usize>, n: int) -> nat
    decreases n,
{
    if n <= 0 {
        0
    } else {
        count_tuple(sv, tup, n - 1) + if sv[n - 1] == tup {
            1nat
        } else {
            0nat
        }
    }
}

proof fn lemma_count_tuple_absent(sv: Seq<Seq<usize>>, tup: Seq<usize>, n: int)
    requires
        forall|j: int| 0 <= j < n ==> sv[j] != tup,
    ensures
        count_tuple(sv, tup, n) == 0,
    decreases n,
{
    if n > 0 {
        lemma_count_tuple_absent(sv, tup, n - 1);
    }
}

proof fn lemma_count_tuple_bounded(sv: Seq<Seq<usize>>, tup: Seq<usize>, n: int)
    requires
        n >= 0,
    ensures
        count_tuple(sv, tup, n) <= n,
    decreases n,
{
    if n > 0 {
        lemma_count_tuple_bounded(sv, tup, n - 1);
    }
}

proof fn lemma_count_same_as_tuple(bins: Seq<Seq<usize>>, sv: Seq<Seq<usize>>, r: int, m: int)
    requires
        0 <= r < sv.len(),
        0 <= m <= sv.len(),
        forall|a: int, b: int| 0 <= a < sv.len() && 0 <= b < sv.len() ==> (#[trigger] sv[a] == #[trigger] sv[b]) == same_stratum(bins, a, b),
    ensures
        count_same(bins, r, m) == count_tuple(sv, sv[r], m),
    decreases m,
{
    if m > 0 {
        lemma_count_same_as_tuple(bins, sv, r, m - 1);
        assert((sv[m - 1] == sv[r]) == same_stratum(bins, m - 1, r));
    }
}

impl StratifiedShuffleSplit {
    pub open spec fn wf(&self) -> bool {
        &&& self.stride() >= 1
        &&& self.bin_counts().len() >= 1
        &&& self.column_names().len() == self.bin_counts().len()
        &&& forall|j: int| 0 <= j < self.bin_counts().len() ==> #[trigger] self.bin_counts()[j] >= 1
    }

    /// The number of rows of a group that go to the test set for each row
    /// that does, counting it.
    pub closed spec fn stride(&self) -> nat {
        self.test_stride as nat
    }

    /// The bin counts of the stratifying columns, in order.
    pub closed spec fn bin_counts(&self) -> Seq<usize> {
        self.stratified_by@.map_values(|e: (String, usize)| e.1)
    }

    /// The names of the stratifying columns, in order.
    pub closed spec fn column_names(&self) -> Seq<Seq<char>> {
        self.stratified_by@.map_values(|e: (String, usize)| e.0@)
    }

    /// A splitter that sends every `test_stride`-th row of each stratum to
    /// the test set, with strata from the given (column, bin count) pairs.
    /// It is refused when the stride is zero, no column is given, or a bin
    /// count is zero.
    pub fn new(test_stride: usize, stratified_by: &Vec<(String, usize)>) -> (r: Result<
        Self,
        FrameError,
    >)
        ensures
            (test_stride == 0 || stratified_by@.len() == 0 || exists|j: int|
                0 <= j < stratified_by@.len() && #[trigger] stratified_by@[j].1 == 0) ==> r
                == Err::<Self, FrameError>(FrameError::InvalidParameter),
            r is Ok ==> {
                &&& r->Ok_0.wf()
                &&& r->Ok_0.stride() == test_stride
                &&& r->Ok_0.bin_counts() == stratified_by@.map_values(|e: (String, usize)| e.1)
                &&& r->Ok_0.column_names() == stratified_by@.map_values(
                    |e: (String, usize)| e.0@,
                )
            },
            (test_stride >= 1 && stratified_by@.len() >= 1 && forall|j: int|
                0 <= j < stratified_by@.len() ==> #[trigger] stratified_by@[j].1 >= 1) ==> r is Ok,
    {
        if test_stride == 0 || stratified_by.len() == 0 {
            return Err(FrameError::InvalidParameter);
        }
        let mut copy: Vec<(String, usize)> = Vec::new();
        let mut j: usize = 0;
        while j < stratified_by.len()
            invariant
                j <= stratified_by.len(),
                copy@.len() == j,
                forall|i: int| 0 <= i < j ==> #[trigger] copy@[i].1 == stratified_by@[i].1 && copy@[i].0@
                    == stratified_by@[i].0@,
                forall|i: int| 0 <= i < j ==> #[trigger] stratified_by@[i].1 >= 1,
            decreases stratified_by.len() - j,
        {
            if stratified_by[j].1 == 0 {
                return Err(FrameError::InvalidParameter);
            }
            copy.push((stratified_by[j].0.clone(), stratified_by[j].1));
            j = j + 1;
        }
        let r = StratifiedShuffleSplit { test_stride, stratified_by: copy };
        assert forall|i: int| 0 <= i < stratified_by@.len() implies #[trigger] r.column_names()[i] == stratified_by@.map_values(|e: (String, usize)| e.0@)[i] by {
            assert(r.stratified_by@[i].1 == stratified_by@[i].1);
        }
        assert(r.bin_counts() =~= stratified_by@.map_values(|e: (String, usize)| e.1));
        assert(r.column_names() =~= stratified_by@.map_values(|e: (String, usize)| e.0@));
        Ok(r)
    }

    /// The names of the stratifying columns, in order.
    pub fn columns(&self) -> (r: Vec<String>)
        ensures
            r@.map_values(|s: String| s@) == self.column_names(),
    {
        let mut names: Vec<String> = Vec::new();
        let mut j: usize = 0;
        while j < self.stratified_by.len()
            invariant
                j <= self.stratified_by.len(),
                names@.len() == j,
                forall|i: int| 0 <= i < j ==> #[trigger] names@[i]@ == self.stratified_by@[i].0@,
            decreases self.stratified_by.len() - j,
        {
            names.push(self.stratified_by[j].0.clone());
            j = j + 1;
        }
        assert(names@.map_values(|s: String| s@) =~= self.column_names());
        names
    }

    /// Splits the rows into (training rows, test rows), each in identifier
    /// order. `column_keys[j]` holds, for every row, the sort key of its value
    /// in the `j`-th stratifying column.
    pub fn split(&self, column_keys: &Vec<Vec<u64>>) -> (r: (Vec<usize>, Vec<usize>))
        requires
            self.wf(),
            column_keys@.len() == self.bin_counts().len(),
            forall|j: int|
                0 <= j < column_keys@.len() ==> (#[trigger] column_keys@[j])@.len()
                    == column_keys@[0]@.len(),
        ensures
            ({
                let keys = column_keys@.map_values(|v: Vec<u64>| v@);
                let bins = column_bins(keys, self.bin_counts());
                let n = column_keys@[0]@.len() as int;
                &&& r.0@ == train_rows(bins, self.stride(), n)
                &&& r.1@ == test_rows(bins, self.stride(), n)
            }),
    {
        let ghost keys = column_keys@.map_values(|v: Vec<u64>| v@);
        let ghost bins = column_bins(keys, self.bin_counts());
        let n = column_keys[0].len();
        let m = column_keys.len();
        let mut all_bins: Vec<Vec<usize>> = Vec::new();
        let mut j: usize = 0;
        while j < m
            invariant
                self.wf(),
                m == column_keys@.len(),
                m == self.bin_counts().len(),
                keys == column_keys@.map_values(|v: Vec<u64>| v@),
                bins == column_bins(keys, self.bin_counts()),
                forall|i: int| 0 <= i < m ==> (#[trigger] column_keys@[i])@.len() == n,
                j <= m,
                all_bins@.len() == j,
                forall|i: int| 0 <= i < j ==> (#[trigger] all_bins@[i])@ == bins[i],
            decreases m - j,
        {
            assert(self.bin_counts()[j as int] == self.stratified_by@[j as int].1);
            let b = quantile_bins(&column_keys[j], self.stratified_by[j].1);
            assert(b@ =~= bins[j as int]);
            all_bins.push(b);
            j = j + 1;
        }
        let mut strata: Vec<Vec<usize>> = Vec::new();
        let mut r: usize = 0;
        while r < n
            invariant
                m == column_keys@.len(),
                m == bins.len(),
                m >= 1,
                forall|i: int| 0 <= i < m ==> (#[trigger] bins[i]).len() == n,
                forall|i: int| 0 <= i < m ==> (#[trigger] all_bins@[i])@ == bins[i],
                all_bins@.len() == m,
                r <= n,
                strata@.len() == r,
                forall|a: int|
                    0 <= a < r ==> sorted_by((#[trigger] strata@[a])@, leq_usize())
                        && strata@[a]@.to_multiset() == row_bins(bins, a).to_multiset(),
            decreases n - r,
        {
            let mut tuple: Vec<usize> = Vec::new();
            let mut j: usize = 0;
            while j < m
                invariant
                    m == bins.len(),
                    forall|i: int| 0 <= i < m ==> (#[trigger] bins[i]).len() == n,
                    forall|i: int| 0 <= i < m ==> (#[trigger] all_bins@[i])@ == bins[i],
                    all_bins@.len() == m,
                    r < n,
                    j <= m,
                    tuple@ == row_bins(bins, r as int).subrange(0, j as int),
                decreases m - j,
            {
                tuple.push(all_bins[j][r]);
                j = j + 1;
                assert(tuple@ =~= row_bins(bins, r as int).subrange(0, j as int));
            }
            assert(tuple@ =~= row_bins(bins, r as int));
            strata.push(sorted_bins(&tuple));
            r = r + 1;
        }
        let ghost sv = strata@.map_values(|v: Vec<usize>| v@);
        proof {
            assert forall|a: int, b: int| 0 <= a < n && 0 <= b < n implies (#[trigger] sv[a] == #[trigger] sv[b]) == same_stratum(bins, a, b) by {
                lemma_leq_total();
                if same_stratum(bins, a, b) {
                    lemma_sorted_unique(strata@[a]@, strata@[b]@, leq_usize());
                }
            }
        }
        let mut distinct: Vec<Vec<usize>> = Vec::new();
        let mut counts: Vec<usize> = Vec::new();
        let mut train: Vec<usize> = Vec::new();
        let mut test: Vec<usize> = Vec::new();
        r = 0;
        while r < n
            invariant
                self.wf(),
                r <= n,
                strata@.len() == n,
                sv == strata@.map_values(|v: Vec<usize>| v@),
                forall|a: int, b: int| 0 <= a < n && 0 <= b < n ==> (#[trigger] sv[a] == #[trigger] sv[b]) == same_stratum(bins, a, b),
                distinct@.len() == counts@.len(),
                forall|t: int, u: int| 0 <= t < u < distinct@.len() ==> (#[trigger] distinct@[t])@ != (#[trigger] distinct@[u])@,
                forall|j: int| 0 <= j < r ==> exists|t: int| 0 <= t < distinct@.len() && (#[trigger] distinct@[t])@ == #[trigger] sv[j],
                forall|t: int| 0 <= t < counts@.len() ==> #[trigger] counts@[t] == count_tuple(sv, distinct@[t]@, r as int),
                train@ == train_rows(bins, self.stride(), r as int),
                test@ == test_rows(bins, self.stride(), r as int),
            decreases n - r,
        {
            let mut t: usize = 0;
            while t < distinct.len() && !same_seq(&distinct[t], &strata[r])
                invariant
                    r < n,
                    strata@.len() == n,
                    t <= distinct@.len(),
                    forall|u: int| 0 <= u < t ==> (#[trigger] distinct@[u])@ != strata@[r as int]@,
                decreases distinct.len() - t,
            {
                t = t + 1;
            }
            assert(sv[r as int] == strata@[r as int]@);
            let ghost d0 = distinct@;
            if t == distinct.len() {
                proof {
                    assert forall|j: int| 0 <= j < r implies #[trigger] sv[j] != sv[r as int] by {
                        let u = choose|u: int| 0 <= u < distinct@.len() && (#[trigger] distinct@[u])@ == sv[j];
                    }
                    lemma_count_tuple_absent(sv, sv[r as int], r as int);
                }
                distinct.push(strata[r].clone());
                counts.push(0);
            }
            proof {
                lemma_count_same_as_tuple(bins, sv, r as int, r as int);
                lemma_count_tuple_bounded(sv, sv[r as int], r as int);
            }
            let same = counts[t];
            if same % self.test_stride == 0 {
                test.push(r);
            } else {
                train.push(r);
            }
            let ghost before = counts@;
            counts.set(t, same + 1);
            proof {
                assert forall|u: int| 0 <= u < counts@.len() implies #[trigger] counts@[u] == count_tuple(sv, distinct@[u]@, r + 1) by {
                    if u != t {
                        assert(distinct@[u]@ != distinct@[t as int]@);
                    }
                }
                assert forall|j: int| 0 <= j < r + 1 implies exists|u: int| 0 <= u < distinct@.len() && (#[trigger] distinct@[u])@ == #[trigger] sv[j] by {
                    if j == r {
                        assert(distinct@[t as int]@ == sv[j]);
                    } else {
                        let u = choose|u: int| 0 <= u < d0.len() && (#[trigger] d0[u])@ == sv[j];
                        assert(distinct@[u] == d0[u]);
                    }
                }
            }
            r = r + 1;
        }
        (train, test)
    }
}

} // verus!

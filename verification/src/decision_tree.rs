//! A binary decision tree for classification, trained by greedy Gini-impurity
//! splitting and queried by root-to-leaf traversal.
//!
//! Feature values are `i32`; a split threshold is stored as the *sum* of the
//! two adjacent observed values it separates (twice their midpoint), so that
//! the comparison `value <= midpoint` becomes the exact integer comparison
//! `2 * value <= threshold`.  Impurities are exact rationals compared by
//! cross-multiplication, so split selection involves no rounding at all.

use vstd::prelude::*;

verus! {

/// Largest number of training rows the exact impurity arithmetic supports.
pub const MAX_ROWS: usize = 65536;

/// The failures a caller can see at the training or prediction boundary.
#[derive(Clone, Copy, Debug, PartialEq, Eq, Structural)]
pub enum ModelError {
    /// Training input was malformed: row/label counts differ, the dataset is
    /// empty, or a feature vector has no entries.
    InvalidInput,
    /// Prediction was asked of a model that was never trained.
    Untrained,
    /// A prediction instance is shorter than a feature index referenced on
    /// its traversal path.
    IndexOutOfRange,
}

/// A decided tree node: either a leaf carrying a class label, or an internal
/// split on one feature at one threshold with exactly two children.
#[derive(Debug)]
pub enum Node {
    Leaf { label: usize },
    Internal { feature: usize, threshold: i64, left: Box<Node>, right: Box<Node> },
}

/// A decision tree; `root` is `None` until `train` decides the tree.
pub struct DecisionTree {
    root: Option<Node>,
}

impl View for DecisionTree {
    type V = Option<Node>;

    closed spec fn view(&self) -> Option<Node> {
        self.root
    }
}

/// Do all labels in the group agree?
pub open spec fn all_same_spec(labels: Seq<usize>) -> bool {
    forall|i: int| 0 <= i < labels.len() ==> #[trigger] labels[i] == labels[0]
}

/// How often `x` occurs in `labels`.
pub open spec fn count_of(labels: Seq<usize>, x: usize) -> nat
    decreases labels.len(),
{
    if labels.len() == 0 {
        0
    } else {
        count_of(labels.drop_last(), x) + if labels.last() == x { 1nat } else { 0nat }
    }
}

/// `m` occurs in `labels`, at least as often as every other label, and is the
/// smallest label among those of maximal frequency (the fixed tie-break).
pub open spec fn is_mode(labels: Seq<usize>, m: usize) -> bool {
    &&& labels.contains(m)
    &&& forall|x: usize| #[trigger] count_of(labels, x) <= count_of(labels, m)
    &&& forall|x: usize|
        labels.contains(x) && #[trigger] count_of(labels, x) == count_of(labels, m) ==> m <= x
}

/// The most frequent label among the first `i` positions (smallest label on
/// ties), with frequencies taken over the whole sequence.
pub open spec fn mode_rec(labels: Seq<usize>, i: int) -> usize
    decreases i,
{
    if i <= 1 {
        labels[0]
    } else {
        let prev = mode_rec(labels, i - 1);
        let cand = labels[i - 1];
        if count_of(labels, cand) > count_of(labels, prev) || (count_of(labels, cand)
            == count_of(labels, prev) && cand < prev) {
            cand
        } else {
            prev
        }
    }
}

/// The most frequent label of the group, smallest label on ties.
pub open spec fn mode_spec(labels: Seq<usize>) -> usize {
    mode_rec(labels, labels.len() as int)
}

/// The number of ordered position pairs `(i, j)` whose labels agree; equals
/// the sum over classes of the squared class count, so the Gini impurity of
/// the group is `1 - pair_count / len^2`.
pub open spec fn pair_count(labels: Seq<usize>) -> nat
    decreases labels.len(),
{
    if labels.len() == 0 {
        0
    } else {
        pair_count(labels.drop_last()) + 2 * count_of(labels.drop_last(), labels.last()) + 1
    }
}

/// Numerator of the group's Gini impurity over denominator `len^2`.
pub open spec fn gini_num(labels: Seq<usize>) -> int {
    labels.len() * labels.len() - pair_count(labels)
}

/// Denominator of the group's Gini impurity.
pub open spec fn gini_den(labels: Seq<usize>) -> int {
    labels.len() * labels.len() as int
}

/// The Gini impurity of a label group, as an exact fraction
/// `numerator / denominator` with `0 <= numerator < denominator`.
#[derive(Clone, Copy, Debug, PartialEq, Eq, Structural)]
pub struct Gini {
    pub numerator: u64,
    pub denominator: u64,
}

pub proof fn lemma_count_le_len(labels: Seq<usize>, x: usize)
    ensures
        count_of(labels, x) <= labels.len(),
    decreases labels.len(),
{
    if labels.len() > 0 {
        lemma_count_le_len(labels.drop_last(), x);
    }
}

pub proof fn lemma_contains_count(labels: Seq<usize>, x: usize)
    ensures
        labels.contains(x) <==> count_of(labels, x) >= 1,
    decreases labels.len(),
{
    if labels.len() > 0 {
        lemma_contains_count(labels.drop_last(), x);
        if labels.last() == x {
            assert(labels[labels.len() - 1] == x);
        } else {
            if labels.contains(x) {
                let i = choose|i: int| 0 <= i < labels.len() && labels[i] == x;
                assert(labels.drop_last()[i] == x);
            }
            if labels.drop_last().contains(x) {
                let i = choose|i: int| 0 <= i < labels.drop_last().len() && labels.drop_last()[i] == x;
                assert(labels[i] == x);
            }
        }
    }
}

proof fn lemma_mode_props(labels: Seq<usize>, i: int)
    requires
        1 <= i <= labels.len(),
    ensures
        exists|k: int| 0 <= k < i && labels[k] == mode_rec(labels, i),
        forall|k: int|
            0 <= k < i ==> count_of(labels, #[trigger] labels[k]) <= count_of(
                labels,
                mode_rec(labels, i),
            ),
        forall|k: int|
            0 <= k < i && count_of(labels, #[trigger] labels[k]) == count_of(
                labels,
                mode_rec(labels, i),
            ) ==> mode_rec(labels, i) <= labels[k],
    decreases i,
{
    if i == 1 {
        assert(labels[0] == mode_rec(labels, 1));
    } else {
        lemma_mode_props(labels, i - 1);
        let prev = mode_rec(labels, i - 1);
        let m = mode_rec(labels, i);
        if m == prev {
            let k0 = choose|k: int| 0 <= k < i - 1 && labels[k] == prev;
            assert(0 <= k0 < i && labels[k0] == m);
        } else {
            assert(labels[i - 1] == m);
        }
    }
}

/// The scan result `mode_spec` really is the mode of a non-empty group.
pub proof fn lemma_mode_is_mode(labels: Seq<usize>)
    requires
        labels.len() >= 1,
    ensures
        is_mode(labels, mode_spec(labels)),
{
    lemma_mode_props(labels, labels.len() as int);
    let m = mode_spec(labels);
    let k0 = choose|k: int| 0 <= k < labels.len() && labels[k] == m;
    assert(labels.contains(m));
    assert forall|x: usize| #[trigger] count_of(labels, x) <= count_of(labels, m) by {
        lemma_contains_count(labels, x);
        if labels.contains(x) {
            let k = choose|k: int| 0 <= k < labels.len() && labels[k] == x;
            assert(count_of(labels, labels[k]) <= count_of(labels, m));
        } else {
            lemma_contains_count(labels, m);
        }
    }
    assert forall|x: usize|
        labels.contains(x) && #[trigger] count_of(labels, x) == count_of(labels, m) implies m
        <= x by {
        let k = choose|k: int| 0 <= k < labels.len() && labels[k] == x;
        assert(count_of(labels, labels[k]) == count_of(labels, m));
    }
}

proof fn lemma_count_all(labels: Seq<usize>, x: usize)
    requires
        forall|k: int| 0 <= k < labels.len() ==> #[trigger] labels[k] == x,
    ensures
        count_of(labels, x) == labels.len(),
    decreases labels.len(),
{
    if labels.len() > 0 {
        lemma_count_all(labels.drop_last(), x);
    }
}

proof fn lemma_count_full(labels: Seq<usize>, x: usize)
    requires
        count_of(labels, x) == labels.len(),
    ensures
        forall|k: int| 0 <= k < labels.len() ==> #[trigger] labels[k] == x,
    decreases labels.len(),
{
    if labels.len() > 0 {
        lemma_count_le_len(labels.drop_last(), x);
        lemma_count_full(labels.drop_last(), x);
        assert forall|k: int| 0 <= k < labels.len() implies labels[k] == x by {
            if k < labels.len() - 1 {
                assert(labels.drop_last()[k] == x);
            }
        }
    }
}

/// `pair_count` lies between `len` and `len^2`, reaching `len^2` exactly when
/// all labels agree; hence the Gini impurity lies in `[0, 1)` and is `0`
/// exactly on single-class groups.
pub proof fn lemma_pair_count_bounds(labels: Seq<usize>)
    ensures
        labels.len() <= pair_count(labels) <= labels.len() * labels.len(),
        labels.len() >= 1 ==> (pair_count(labels) == labels.len() * labels.len()
            <==> all_same_spec(labels)),
    decreases labels.len(),
{
    if labels.len() > 0 {
        let s = labels.drop_last();
        let x = labels.last();
        let n = labels.len() as int;
        lemma_pair_count_bounds(s);
        lemma_count_le_len(s, x);
        assert((n - 1) * (n - 1) + 2 * (n - 1) + 1 == n * n) by (nonlinear_arith);
        assert(n * n - (n - 1) * (n - 1) == 2 * n - 1) by (nonlinear_arith);
        if all_same_spec(labels) {
            assert(x == labels[n - 1] && x == labels[0]);
            assert forall|k: int| 0 <= k < s.len() implies #[trigger] s[k] == x by {
                assert(labels[k] == labels[0]);
            }
            lemma_count_all(s, x);
            assert(count_of(s, x) == n - 1);
            if s.len() >= 1 {
                assert(all_same_spec(s)) by {
                    assert forall|k: int| 0 <= k < s.len() implies #[trigger] s[k] == s[0] by {
                        assert(s[k] == x && s[0] == x);
                    }
                }
                assert(pair_count(s) == (n - 1) * (n - 1));
            } else {
                assert(s.len() == 0);
                assert(pair_count(s) == 0);
                assert(n == 1);
                assert((n - 1) * (n - 1) == 0) by (nonlinear_arith)
                    requires n == 1;
            }
            assert(pair_count(labels) == (n - 1) * (n - 1) + 2 * (n - 1) + 1);
            assert(pair_count(labels) == labels.len() * labels.len());
        }
        if pair_count(labels) == n * n {
            assert(count_of(s, x) == n - 1);
            lemma_count_full(s, x);
            assert forall|k: int| 0 <= k < n implies #[trigger] labels[k] == labels[0] by {
                if k < n - 1 {
                    assert(s[k] == x);
                }
                if n >= 2 {
                    assert(s[0] == x);
                }
            }
        }
    }
}

/// Are all labels in the group equal?  The group must be non-empty.
pub fn all_same(labels: &Vec<usize>) -> (r: bool)
    requires
        labels@.len() >= 1,
    ensures
        r == all_same_spec(labels@),
{
    let first = labels[0];
    let mut i: usize = 1;
    while i < labels.len()
        invariant
            1 <= i <= labels@.len(),
            first == labels@[0],
            forall|k: int| 0 <= k < i ==> #[trigger] labels@[k] == labels@[0],
        decreases labels@.len() - i,
    {
        if labels[i] != first {
            return false;
        }
        i = i + 1;
    }
    true
}

/// How often `x` occurs in `labels`.
fn count_occ(labels: &Vec<usize>, x: usize) -> (c: usize)
    ensures
        c == count_of(labels@, x),
{
    let mut c: usize = 0;
    let mut j: usize = 0;
    while j < labels.len()
        invariant
            0 <= j <= labels@.len(),
            c == count_of(labels@.take(j as int), x),
            c <= j,
        decreases labels@.len() - j,
    {
        proof {
            assert(labels@.take(j as int + 1).drop_last() =~= labels@.take(j as int));
        }
        if labels[j] == x {
            c = c + 1;
        }
        j = j + 1;
    }
    proof {
        assert(labels@.take(labels@.len() as int) =~= labels@);
    }
    c
}

/// The most frequent label of a non-empty group; ties go to the smallest
/// label, so the result is a function of the group alone.
pub fn most_common(labels: &Vec<usize>) -> (r: usize)
    requires
        labels@.len() >= 1,
    ensures
        r == mode_spec(labels@),
        is_mode(labels@, r),
{
    let mut best = labels[0];
    let mut best_count = count_occ(labels, best);
    let mut i: usize = 1;
    while i < labels.len()
        invariant
            1 <= i <= labels@.len(),
            best == mode_rec(labels@, i as int),
            best_count == count_of(labels@, best),
        decreases labels@.len() - i,
    {
        let cand = labels[i];
        let cand_count = count_occ(labels, cand);
        if cand_count > best_count || (cand_count == best_count && cand < best) {
            best = cand;
            best_count = cand_count;
        }
        i = i + 1;
    }
    proof {
        lemma_mode_is_mode(labels@);
    }
    best
}

/// `pair_count` of a group, computed by counting, for each position, the
/// earlier positions carrying the same label.
fn count_pairs(labels: &Vec<usize>) -> (p: u64)
    requires
        labels@.len() <= MAX_ROWS,
    ensures
        p == pair_count(labels@),
{
    let mut p: u64 = 0;
    let mut i: usize = 0;
    while i < labels.len()
        invariant
            0 <= i <= labels@.len(),
            labels@.len() <= MAX_ROWS,
            p == pair_count(labels@.take(i as int)),
        decreases labels@.len() - i,
    {
        let x = labels[i];
        let mut c: u64 = 0;
        let mut j: usize = 0;
        while j < i
            invariant
                0 <= j <= i < labels@.len(),
                c == count_of(labels@.take(j as int), x),
                c <= j,
                x == labels@[i as int],
            decreases i - j,
        {
            proof {
                assert(labels@.take(j as int + 1).drop_last() =~= labels@.take(j as int));
            }
            if labels[j] == x {
                c = c + 1;
            }
            j = j + 1;
        }
        proof {
            assert(labels@.take(i as int + 1).drop_last() =~= labels@.take(i as int));
            assert(labels@.take(i as int + 1).last() == labels@[i as int]);
            lemma_pair_count_bounds(labels@.take(i as int));
            assert((i as int) * (i as int) + 2 * (i as int) + 1 <= 65536 * 65536) by (nonlinear_arith)
                requires 0 <= i <= 65536 - 1;
        }
        p = p + 2 * c + 1;
        i = i + 1;
    }
    proof {
        assert(labels@.take(labels@.len() as int) =~= labels@);
    }
    p
}

/// The exact Gini impurity `1 - sum of squared class fractions` of a
/// non-empty label group, as the fraction `numerator / denominator`.
pub fn calculate_gini_impurity(labels: &Vec<usize>) -> (g: Gini)
    requires
        1 <= labels@.len() <= MAX_ROWS,
    ensures
        g.denominator == gini_den(labels@),
        g.numerator == gini_num(labels@),
        g.numerator < g.denominator,
        g.numerator == 0 <==> all_same_spec(labels@),
{
    let n = labels.len();
    let p = count_pairs(labels);
    proof {
        lemma_pair_count_bounds(labels@);
        assert((n as int) * (n as int) <= 65536 * 65536) by (nonlinear_arith)
            requires 0 <= n <= 65536;
    }
    let nn: u64 = (n as u64) * (n as u64);
    Gini { numerator: nn - p, denominator: nn }
}


/// The rows of a feature matrix, as a sequence of sequences.
pub open spec fn rows_view(data: Vec<Vec<i32>>) -> Seq<Seq<i32>> {
    Seq::new(data@.len(), |i: int| data@[i]@)
}

/// A well-formed training input: as many rows as labels, at least one row,
/// and all rows of one common non-zero width.
pub open spec fn valid_dataset(data: Seq<Seq<i32>>, labels: Seq<usize>) -> bool {
    &&& data.len() == labels.len()
    &&& data.len() >= 1
    &&& data[0].len() >= 1
    &&& forall|i: int| 0 <= i < data.len() ==> #[trigger] data[i].len() == data[0].len()
}

/// Does the row fall on the left side of the split?  `threshold` is twice
/// the split midpoint, so the test is exact.
pub open spec fn goes_left(row: Seq<i32>, feature: int, threshold: int) -> bool {
    2 * (row[feature] as int) <= threshold
}

/// The rows whose value at `feature` falls on the left of the split,
/// in input order.
pub open spec fn left_rows(data: Seq<Seq<i32>>, feature: int, threshold: int) -> Seq<Seq<i32>>
    decreases data.len(),
{
    if data.len() == 0 {
        Seq::empty()
    } else {
        let rest = left_rows(data.drop_last(), feature, threshold);
        if goes_left(data.last(), feature, threshold) {
            rest.push(data.last())
        } else {
            rest
        }
    }
}

/// The rows on the right of the split, in input order.
pub open spec fn right_rows(data: Seq<Seq<i32>>, feature: int, threshold: int) -> Seq<Seq<i32>>
    decreases data.len(),
{
    if data.len() == 0 {
        Seq::empty()
    } else {
        let rest = right_rows(data.drop_last(), feature, threshold);
        if goes_left(data.last(), feature, threshold) {
            rest
        } else {
            rest.push(data.last())
        }
    }
}

/// The labels of the rows on the left of the split, in input order.
pub open spec fn left_labels(data: Seq<Seq<i32>>, labels: Seq<usize>, feature: int, threshold: int) -> Seq<usize>
    decreases data.len(),
{
    if data.len() == 0 {
        Seq::empty()
    } else {
        let rest = left_labels(data.drop_last(), labels.drop_last(), feature, threshold);
        if goes_left(data.last(), feature, threshold) {
            rest.push(labels.last())
        } else {
            rest
        }
    }
}

/// The labels of the rows on the right of the split, in input order.
pub open spec fn right_labels(data: Seq<Seq<i32>>, labels: Seq<usize>, feature: int, threshold: int) -> Seq<usize>
    decreases data.len(),
{
    if data.len() == 0 {
        Seq::empty()
    } else {
        let rest = right_labels(data.drop_last(), labels.drop_last(), feature, threshold);
        if goes_left(data.last(), feature, threshold) {
            rest
        } else {
            rest.push(labels.last())
        }
    }
}

/// The two sides of a split partition the dataset, and every row of a side
/// is a row of the input.
pub proof fn lemma_split_parts(data: Seq<Seq<i32>>, labels: Seq<usize>, f: int, t: int)
    requires
        data.len() == labels.len(),
    ensures
        left_rows(data, f, t).len() == left_labels(data, labels, f, t).len(),
        right_rows(data, f, t).len() == right_labels(data, labels, f, t).len(),
        left_labels(data, labels, f, t).len() + right_labels(data, labels, f, t).len()
            == labels.len(),
        forall|i: int|
            0 <= i < left_rows(data, f, t).len() ==> exists|j: int|
                0 <= j < data.len() && #[trigger] left_rows(data, f, t)[i] == data[j],
        forall|i: int|
            0 <= i < right_rows(data, f, t).len() ==> exists|j: int|
                0 <= j < data.len() && #[trigger] right_rows(data, f, t)[i] == data[j],
    decreases data.len(),
{
    if data.len() > 0 {
        let dp = data.drop_last();
        let lp = labels.drop_last();
        lemma_split_parts(dp, lp, f, t);
        assert forall|i: int| 0 <= i < left_rows(data, f, t).len() implies exists|j: int|
            0 <= j < data.len() && #[trigger] left_rows(data, f, t)[i] == data[j] by {
            if i < left_rows(dp, f, t).len() {
                assert(left_rows(data, f, t)[i] == left_rows(dp, f, t)[i]);
                let j = choose|j: int| 0 <= j < dp.len() && left_rows(dp, f, t)[i] == dp[j];
                assert(left_rows(data, f, t)[i] == data[j]);
            } else {
                assert(left_rows(data, f, t)[i] == data[data.len() - 1]);
            }
        }
        assert forall|i: int| 0 <= i < right_rows(data, f, t).len() implies exists|j: int|
            0 <= j < data.len() && #[trigger] right_rows(data, f, t)[i] == data[j] by {
            if i < right_rows(dp, f, t).len() {
                assert(right_rows(data, f, t)[i] == right_rows(dp, f, t)[i]);
                let j = choose|j: int| 0 <= j < dp.len() && right_rows(dp, f, t)[i] == dp[j];
                assert(right_rows(data, f, t)[i] == data[j]);
            } else {
                assert(right_rows(data, f, t)[i] == data[data.len() - 1]);
            }
        }
    }
}

/// A row that goes left witnesses that the left side is non-empty.
pub proof fn lemma_left_occupied(data: Seq<Seq<i32>>, labels: Seq<usize>, f: int, t: int, i: int)
    requires
        data.len() == labels.len(),
        0 <= i < data.len(),
        goes_left(data[i], f, t),
    ensures
        left_labels(data, labels, f, t).len() >= 1,
    decreases data.len(),
{
    if i < data.len() - 1 {
        lemma_left_occupied(data.drop_last(), labels.drop_last(), f, t, i);
    }
}

/// A row that goes right witnesses that the right side is non-empty.
pub proof fn lemma_right_occupied(data: Seq<Seq<i32>>, labels: Seq<usize>, f: int, t: int, i: int)
    requires
        data.len() == labels.len(),
        0 <= i < data.len(),
        !goes_left(data[i], f, t),
    ensures
        right_labels(data, labels, f, t).len() >= 1,
    decreases data.len(),
{
    if i < data.len() - 1 {
        lemma_right_occupied(data.drop_last(), labels.drop_last(), f, t, i);
    }
}

/// An element-wise copy of one feature row.
fn copy_row(row: &Vec<i32>) -> (r: Vec<i32>)
    ensures
        r@ == row@,
{
    let mut r: Vec<i32> = Vec::new();
    let mut i: usize = 0;
    while i < row.len()
        invariant
            0 <= i <= row@.len(),
            r@ == row@.take(i as int),
        decreases row@.len() - i,
    {
        r.push(row[i]);
        proof {
            assert(row@.take(i as int + 1).drop_last() =~= row@.take(i as int));
            assert(r@ =~= row@.take(i as int + 1));
        }
        i = i + 1;
    }
    proof {
        assert(row@.take(row@.len() as int) =~= row@);
    }
    r
}

/// Partitions the dataset at one split: rows with `2 * value <= threshold`
/// at `feature` go left with their labels, the rest go right, both sides in
/// input order.
pub fn split_data(data: &Vec<Vec<i32>>, labels: &Vec<usize>, feature: usize, threshold: i64) -> (r: (
    Vec<Vec<i32>>,
    Vec<usize>,
    Vec<Vec<i32>>,
    Vec<usize>,
))
    requires
        data@.len() == labels@.len(),
        forall|i: int| 0 <= i < data@.len() ==> feature < #[trigger] data@[i]@.len(),
    ensures
        rows_view(r.0) == left_rows(rows_view(*data), feature as int, threshold as int),
        r.1@ == left_labels(rows_view(*data), labels@, feature as int, threshold as int),
        rows_view(r.2) == right_rows(rows_view(*data), feature as int, threshold as int),
        r.3@ == right_labels(rows_view(*data), labels@, feature as int, threshold as int),
{
    let ghost dv = rows_view(*data);
    let mut ld: Vec<Vec<i32>> = Vec::new();
    let mut ll: Vec<usize> = Vec::new();
    let mut rd: Vec<Vec<i32>> = Vec::new();
    let mut rl: Vec<usize> = Vec::new();
    let mut i: usize = 0;
    while i < data.len()
        invariant
            0 <= i <= data@.len(),
            data@.len() == labels@.len(),
            forall|k: int| 0 <= k < data@.len() ==> feature < #[trigger] data@[k]@.len(),
            dv == rows_view(*data),
            rows_view(ld) == left_rows(dv.take(i as int), feature as int, threshold as int),
            ll@ == left_labels(dv.take(i as int), labels@.take(i as int), feature as int, threshold as int),
            rows_view(rd) == right_rows(dv.take(i as int), feature as int, threshold as int),
            rl@ == right_labels(dv.take(i as int), labels@.take(i as int), feature as int, threshold as int),
        decreases data@.len() - i,
    {
        proof {
            assert(dv.take(i as int + 1).drop_last() =~= dv.take(i as int));
            assert(labels@.take(i as int + 1).drop_last() =~= labels@.take(i as int));
            assert(dv.take(i as int + 1).last() == dv[i as int]);
            assert(dv[i as int] == data@[i as int]@);
        }
        let v = data[i][feature];
        let row_copy = copy_row(&data[i]);
        if 2 * (v as i64) <= threshold {
            ld.push(row_copy);
            ll.push(labels[i]);
            proof {
                assert(goes_left(dv[i as int], feature as int, threshold as int));
                assert(rows_view(ld) =~= left_rows(dv.take(i as int + 1), feature as int, threshold as int));
                assert(ll@ =~= left_labels(dv.take(i as int + 1), labels@.take(i as int + 1), feature as int, threshold as int));
                assert(rows_view(rd) =~= right_rows(dv.take(i as int + 1), feature as int, threshold as int));
                assert(rl@ =~= right_labels(dv.take(i as int + 1), labels@.take(i as int + 1), feature as int, threshold as int));
            }
        } else {
            rd.push(row_copy);
            rl.push(labels[i]);
            proof {
                assert(!goes_left(dv[i as int], feature as int, threshold as int));
                assert(rows_view(ld) =~= left_rows(dv.take(i as int + 1), feature as int, threshold as int));
                assert(ll@ =~= left_labels(dv.take(i as int + 1), labels@.take(i as int + 1), feature as int, threshold as int));
                assert(rows_view(rd) =~= right_rows(dv.take(i as int + 1), feature as int, threshold as int));
                assert(rl@ =~= right_labels(dv.take(i as int + 1), labels@.take(i as int + 1), feature as int, threshold as int));
            }
        }
        i = i + 1;
    }
    proof {
        assert(dv.take(dv.len() as int) =~= dv);
        assert(labels@.take(labels@.len() as int) =~= labels@);
    }
    (ld, ll, rd, rl)
}


/// Is `v` an observed value of `feature` in the dataset?
pub open spec fn observed(data: Seq<Seq<i32>>, feature: int, v: int) -> bool {
    exists|i: int| 0 <= i < data.len() && (#[trigger] data[i][feature]) as int == v
}

/// `a` and `b` are observed at `feature`, `a < b`, and no observed value
/// lies strictly between them.
pub open spec fn adjacent_values(data: Seq<Seq<i32>>, feature: int, a: int, b: int) -> bool {
    &&& observed(data, feature, a)
    &&& observed(data, feature, b)
    &&& a < b
    &&& forall|v: int| #[trigger] observed(data, feature, v) ==> !(a < v && v < b)
}

/// A candidate split: `threshold` is the sum (twice the midpoint) of two
/// adjacent observed values of a feature in range.
pub open spec fn is_candidate(data: Seq<Seq<i32>>, feature: int, threshold: int) -> bool {
    &&& data.len() > 0
    &&& 0 <= feature < data[0].len()
    &&& exists|a: int, b: int| #[trigger] adjacent_values(data, feature, a, b) && threshold == a + b
}

/// Numerator of the split's weighted impurity
/// `(|L| * gini(L) + |R| * gini(R)) / |total|`, over denominator `w_den`.
pub open spec fn w_num(data: Seq<Seq<i32>>, labels: Seq<usize>, feature: int, threshold: int) -> int {
    let ll = left_labels(data, labels, feature, threshold);
    let rl = right_labels(data, labels, feature, threshold);
    (rl.len() as int) * ((ll.len() as int) * (ll.len() as int) - pair_count(ll)) + (ll.len() as int)
        * ((rl.len() as int) * (rl.len() as int) - pair_count(rl))
}

/// Denominator of the split's weighted impurity.
pub open spec fn w_den(data: Seq<Seq<i32>>, labels: Seq<usize>, feature: int, threshold: int) -> int {
    (labels.len() as int) * (left_labels(data, labels, feature, threshold).len() as int) * (
    right_labels(data, labels, feature, threshold).len() as int)
}

/// The split's weighted impurity is strictly below the parent's own Gini
/// impurity (fractions compared by cross-multiplication).
pub open spec fn improves(data: Seq<Seq<i32>>, labels: Seq<usize>, feature: int, threshold: int) -> bool {
    w_num(data, labels, feature, threshold) * gini_den(labels) < gini_num(labels) * w_den(
        data,
        labels,
        feature,
        threshold,
    )
}

/// The first split's weighted impurity is at most the second's.
pub open spec fn no_worse(
    data: Seq<Seq<i32>>,
    labels: Seq<usize>,
    f1: int,
    t1: int,
    f2: int,
    t2: int,
) -> bool {
    w_num(data, labels, f1, t1) * w_den(data, labels, f2, t2) <= w_num(data, labels, f2, t2)
        * w_den(data, labels, f1, t1)
}

/// The two splits have equal weighted impurity.
pub open spec fn same_impurity(
    data: Seq<Seq<i32>>,
    labels: Seq<usize>,
    f1: int,
    t1: int,
    f2: int,
    t2: int,
) -> bool {
    w_num(data, labels, f1, t1) * w_den(data, labels, f2, t2) == w_num(data, labels, f2, t2)
        * w_den(data, labels, f1, t1)
}

/// The scan order of the split search: features ascending, thresholds
/// ascending within a feature.
pub open spec fn lex_before_eq(f1: int, t1: int, f2: int, t2: int) -> bool {
    f1 < f2 || (f1 == f2 && t1 <= t2)
}

/// The winning split: a candidate that strictly improves on the parent
/// impurity, has minimal weighted impurity among all candidates, and comes
/// first in scan order among minimal ones.  At most one split satisfies this.
pub open spec fn is_best_split(data: Seq<Seq<i32>>, labels: Seq<usize>, f: int, t: int) -> bool {
    &&& is_candidate(data, f, t)
    &&& improves(data, labels, f, t)
    &&& forall|f2: int, t2: int|
        #[trigger] is_candidate(data, f2, t2) ==> no_worse(data, labels, f, t, f2, t2) && (
        same_impurity(data, labels, f, t, f2, t2) ==> lex_before_eq(f, t, f2, t2))
}

/// The split the search selects, or `None` when no candidate strictly
/// improves on the parent impurity.
pub open spec fn best_split_spec(data: Seq<Seq<i32>>, labels: Seq<usize>) -> Option<(usize, i64)> {
    if exists|p: (usize, i64)| is_best_split(data, labels, p.0 as int, p.1 as int) {
        Some(choose|p: (usize, i64)| is_best_split(data, labels, p.0 as int, p.1 as int))
    } else {
        None
    }
}

/// No two distinct splits can both be best.
pub proof fn lemma_best_split_unique(
    data: Seq<Seq<i32>>,
    labels: Seq<usize>,
    f1: int,
    t1: int,
    f2: int,
    t2: int,
)
    requires
        is_best_split(data, labels, f1, t1),
        is_best_split(data, labels, f2, t2),
    ensures
        f1 == f2,
        t1 == t2,
{
    assert(is_candidate(data, f1, t1) && is_candidate(data, f2, t2));
    assert(no_worse(data, labels, f1, t1, f2, t2));
    assert(no_worse(data, labels, f2, t2, f1, t1));
    assert(same_impurity(data, labels, f1, t1, f2, t2));
    assert(same_impurity(data, labels, f2, t2, f1, t1));
    assert(lex_before_eq(f1, t1, f2, t2));
    assert(lex_before_eq(f2, t2, f1, t1));
}

/// Both sides of a candidate split are non-empty, so its weighted impurity
/// is a genuine non-negative fraction.
pub proof fn lemma_candidate_sides(data: Seq<Seq<i32>>, labels: Seq<usize>, f: int, t: int)
    requires
        valid_dataset(data, labels),
        is_candidate(data, f, t),
    ensures
        left_labels(data, labels, f, t).len() >= 1,
        right_labels(data, labels, f, t).len() >= 1,
        left_labels(data, labels, f, t).len() + right_labels(data, labels, f, t).len()
            == labels.len(),
        left_rows(data, f, t).len() == left_labels(data, labels, f, t).len(),
        right_rows(data, f, t).len() == right_labels(data, labels, f, t).len(),
        w_den(data, labels, f, t) >= 1,
        w_num(data, labels, f, t) >= 0,
{
    lemma_split_parts(data, labels, f, t);
    let (a, b) = choose|a: int, b: int| adjacent_values(data, f, a, b) && t == a + b;
    let i = choose|i: int| 0 <= i < data.len() && (data[i][f]) as int == a;
    let j = choose|j: int| 0 <= j < data.len() && (data[j][f]) as int == b;
    assert(goes_left(data[i], f, t));
    assert(!goes_left(data[j], f, t));
    lemma_left_occupied(data, labels, f, t, i);
    lemma_right_occupied(data, labels, f, t, j);
    let ll = left_labels(data, labels, f, t);
    let rl = right_labels(data, labels, f, t);
    lemma_pair_count_bounds(ll);
    lemma_pair_count_bounds(rl);
    let nl = ll.len() as int;
    let nr = rl.len() as int;
    let n = labels.len() as int;
    assert(n * nl * nr >= 1) by (nonlinear_arith)
        requires n >= 1, nl >= 1, nr >= 1;
    assert(nr * (nl * nl - pair_count(ll)) >= 0) by (nonlinear_arith)
        requires nr >= 0, nl * nl - pair_count(ll) >= 0;
    assert(nl * (nr * nr - pair_count(rl)) >= 0) by (nonlinear_arith)
        requires nl >= 0, nr * nr - pair_count(rl) >= 0;
}

/// From `a1/b1 < a2/b2` and `a2/b2 <= a3/b3` (cross-multiplied, positive
/// denominators) conclude `a1/b1 < a3/b3`.
proof fn lemma_ratio_lt_le(a1: int, b1: int, a2: int, b2: int, a3: int, b3: int)
    requires
        b1 > 0,
        b2 > 0,
        b3 > 0,
        a1 * b2 < a2 * b1,
        a2 * b3 <= a3 * b2,
    ensures
        a1 * b3 < a3 * b1,
{
    assert((a1 * b3) * b2 < (a3 * b1) * b2) by (nonlinear_arith)
        requires
            b1 > 0,
            b2 > 0,
            b3 > 0,
            a1 * b2 < a2 * b1,
            a2 * b3 <= a3 * b2,
    ;
    assert(a1 * b3 < a3 * b1) by (nonlinear_arith)
        requires
            b2 > 0,
            (a1 * b3) * b2 < (a3 * b1) * b2,
    ;
}

/// What the running best of the split scan promises about an already
/// scanned candidate.
spec fn scan_keeps(
    data: Seq<Seq<i32>>,
    labels: Seq<usize>,
    best: Option<(usize, i64)>,
    f2: int,
    t2: int,
) -> bool {
    match best {
        None => !improves(data, labels, f2, t2),
        Some((bf, bt)) => no_worse(data, labels, bf as int, bt as int, f2, t2) && (same_impurity(
            data,
            labels,
            bf as int,
            bt as int,
            f2,
            t2,
        ) ==> lex_before_eq(bf as int, bt as int, f2, t2)),
    }
}

/// The running best is a genuine improving candidate whose impurity
/// fraction is cached in `bn / bd`.
spec fn best_inv(
    data: Seq<Seq<i32>>,
    labels: Seq<usize>,
    best: Option<(usize, i64)>,
    bn: u64,
    bd: u64,
) -> bool {
    match best {
        None => true,
        Some((bf, bt)) => {
            &&& is_candidate(data, bf as int, bt as int)
            &&& improves(data, labels, bf as int, bt as int)
            &&& bn == w_num(data, labels, bf as int, bt as int)
            &&& bd == w_den(data, labels, bf as int, bt as int)
        },
    }
}

spec fn pack_best(have: bool, bf: usize, bt: i64) -> Option<(usize, i64)> {
    if have {
        Some((bf, bt))
    } else {
        None
    }
}

/// Every candidate of a feature before `f` is accounted for.
spec fn covered_before(data: Seq<Seq<i32>>, labels: Seq<usize>, best: Option<(usize, i64)>, f: int) -> bool {
    forall|f2: int, t2: int|
        #[trigger] is_candidate(data, f2, t2) && f2 < f ==> scan_keeps(data, labels, best, f2, t2)
}

/// Every candidate of feature `f` up to threshold `tmax` is accounted for.
spec fn covered_at(
    data: Seq<Seq<i32>>,
    labels: Seq<usize>,
    best: Option<(usize, i64)>,
    f: int,
    tmax: int,
) -> bool {
    forall|t2: int|
        #[trigger] is_candidate(data, f, t2) && t2 <= tmax ==> scan_keeps(data, labels, best, f, t2)
}

/// A candidate threshold of feature `f` lying in `(2 * cur, 2 * succ]` can
/// only be the sum of the adjacent pair `(cur, succ)`.
proof fn lemma_candidate_in_gap(data: Seq<Seq<i32>>, f: int, cur: int, succ: int, t2: int)
    requires
        observed(data, f, cur),
        observed(data, f, succ),
        cur < succ,
        forall|v: int| #[trigger] observed(data, f, v) ==> !(cur < v && v < succ),
        is_candidate(data, f, t2),
        2 * cur < t2 <= 2 * succ,
    ensures
        t2 == cur + succ,
{
    let (a, b) = choose|a: int, b: int| adjacent_values(data, f, a, b) && t2 == a + b;
    if b <= cur {
        assert(t2 <= 2 * cur - 1);
        assert(false);
    }
    if a < cur {
        assert(observed(data, f, cur));
        assert(!(a < cur && cur < b));
        assert(false);
    }
    if a > cur {
        assert(observed(data, f, a));
        assert(!(cur < a && a < succ));
        assert(a >= succ);
        assert(t2 >= 2 * succ + 1);
        assert(false);
    }
    assert(a == cur);
    assert(!(cur < b && b < succ));
    assert(b >= succ);
    if b > succ {
        assert(observed(data, f, succ));
        assert(!(a < succ && succ < b));
        assert(false);
    }
}

/// The weighted impurity of one candidate split, as the exact fraction
/// `r.0 / r.1`.
fn eval_split(data: &Vec<Vec<i32>>, labels: &Vec<usize>, feature: usize, threshold: i64) -> (r: (
    u64,
    u64,
))
    requires
        valid_dataset(rows_view(*data), labels@),
        labels@.len() <= MAX_ROWS,
        is_candidate(rows_view(*data), feature as int, threshold as int),
    ensures
        r.0 == w_num(rows_view(*data), labels@, feature as int, threshold as int),
        r.1 == w_den(rows_view(*data), labels@, feature as int, threshold as int),
        r.1 >= 1,
{
    proof {
        lemma_candidate_sides(rows_view(*data), labels@, feature as int, threshold as int);
        assert forall|i: int| 0 <= i < data@.len() implies feature < #[trigger] data@[i]@.len() by {
            assert(rows_view(*data)[i].len() == rows_view(*data)[0].len());
        }
    }
    let n = labels.len();
    let parts = split_data(data, labels, feature, threshold);
    let ll = parts.1;
    let rl = parts.3;
    proof {
        lemma_pair_count_bounds(ll@);
        lemma_pair_count_bounds(rl@);
    }
    let pl = count_pairs(&ll);
    let pr = count_pairs(&rl);
    let lu: u64 = ll.len() as u64;
    let ru: u64 = rl.len() as u64;
    let nu: u64 = n as u64;
    proof {
        assert(lu * lu <= 65536 * 65536) by (nonlinear_arith)
            requires 0 <= lu <= 65536;
        assert(ru * ru <= 65536 * 65536) by (nonlinear_arith)
            requires 0 <= ru <= 65536;
        assert(ru * (lu * lu - pl) <= 65536 * (65536 * 65536)) by (nonlinear_arith)
            requires 0 <= ru <= 65536, 0 <= lu * lu - pl <= 65536 * 65536;
        assert(lu * (ru * ru - pr) <= 65536 * (65536 * 65536)) by (nonlinear_arith)
            requires 0 <= lu <= 65536, 0 <= ru * ru - pr <= 65536 * 65536;
        assert(nu * lu <= 65536 * 65536) by (nonlinear_arith)
            requires 0 <= nu <= 65536, 0 <= lu <= 65536;
        assert(nu * lu * ru <= 65536 * 65536 * 65536 && nu * lu * ru >= 1) by (nonlinear_arith)
            requires 1 <= nu <= 65536, 1 <= lu <= 65536, 1 <= ru <= 65536;
    }
    let sl: u64 = lu * lu - pl;
    let sr: u64 = ru * ru - pr;
    let a: u64 = ru * sl + lu * sr;
    let d: u64 = nu * lu * ru;
    (a, d)
}


/// The product of two `u64` values always fits in a `u128`.
proof fn lemma_mul_u64_fits(x: u64, y: u64)
    ensures
        (x as int) * (y as int) <= u128::MAX as int,
{
    assert((x as int) * (y as int) <= 0xffffffffffffffff * 0xffffffffffffffff) by (nonlinear_arith)
        requires 0 <= x <= 0xffffffffffffffff, 0 <= y <= 0xffffffffffffffff;
}

/// The greedy split search: scans every feature in ascending order and,
/// within a feature, every adjacent pair of distinct observed values in
/// ascending order, keeping the first candidate of minimal weighted
/// impurity, and returns it only if it strictly improves on the parent
/// impurity.  The result equals `best_split_spec` of the inputs.
pub fn find_best_split(data: &Vec<Vec<i32>>, labels: &Vec<usize>) -> (r: Option<(usize, i64)>)
    requires
        valid_dataset(rows_view(*data), labels@),
        labels@.len() <= MAX_ROWS,
    ensures
        r == best_split_spec(rows_view(*data), labels@),
{
    let ghost dv = rows_view(*data);
    let ghost lv = labels@;
    let n = data.len();
    let width = data[0].len();
    let parent_p = count_pairs(labels);
    proof {
        lemma_pair_count_bounds(lv);
        assert((n as int) * (n as int) <= 65536 * 65536) by (nonlinear_arith)
            requires 0 <= n <= 65536;
    }
    let nn: u64 = (n as u64) * (n as u64);
    let gn: u64 = nn - parent_p;
    let mut have: bool = false;
    let mut bf: usize = 0;
    let mut bt: i64 = 0;
    let mut bn: u64 = 0;
    let mut bd: u64 = 1;
    let mut f: usize = 0;
    while f < width
        invariant
            dv == rows_view(*data),
            lv == labels@,
            valid_dataset(dv, lv),
            lv.len() <= MAX_ROWS,
            n == dv.len(),
            width == dv[0].len(),
            0 <= f <= width,
            nn == gini_den(lv),
            gn == gini_num(lv),
            best_inv(dv, lv, pack_best(have, bf, bt), bn, bd),
            covered_before(dv, lv, pack_best(have, bf, bt), f as int),
            have ==> (bf as int) < f as int,
        decreases width - f,
    {
        // the smallest observed value of this feature
        let mut cur: i32 = data[0][f];
        let mut i: usize = 1;
        proof {
            assert(dv[0] == data@[0]@);
            assert(observed(dv, f as int, cur as int));
        }
        while i < n
            invariant
                dv == rows_view(*data),
                valid_dataset(dv, lv),
                n == dv.len(),
                width == dv[0].len(),
                f < width,
                1 <= i <= n,
                observed(dv, f as int, cur as int),
                forall|k: int| 0 <= k < i ==> (#[trigger] dv[k][f as int]) as int >= cur as int,
            decreases n - i,
        {
            proof {
                assert(dv[i as int] == data@[i as int]@);
                assert(dv[i as int].len() == dv[0].len());
            }
            if data[i][f] < cur {
                cur = data[i][f];
            }
            i = i + 1;
        }
        // walk the distinct observed values upward; each step evaluates the
        // candidate halfway between `cur` and its successor
        let mut scanning = true;
        while scanning
            invariant
                dv == rows_view(*data),
                lv == labels@,
                valid_dataset(dv, lv),
                lv.len() <= MAX_ROWS,
                n == dv.len(),
                width == dv[0].len(),
                0 <= f < width,
                nn == gini_den(lv),
                gn == gini_num(lv),
                best_inv(dv, lv, pack_best(have, bf, bt), bn, bd),
                covered_before(dv, lv, pack_best(have, bf, bt), f as int),
                covered_at(dv, lv, pack_best(have, bf, bt), f as int, 2 * (cur as int)),
                observed(dv, f as int, cur as int),
                have ==> ((bf as int) < f as int || (bf == f && bt as int <= 2 * (cur as int))),
                !scanning ==> (forall|v: int| #[trigger] observed(dv, f as int, v) ==> v <= cur as int),
            decreases (if scanning { 1int } else { 0int }), 2147483647int - cur as int,
        {
            // the smallest observed value strictly above `cur`
            let mut found = false;
            let mut succ: i32 = cur;
            let mut i2: usize = 0;
            while i2 < n
                invariant
                    dv == rows_view(*data),
                    valid_dataset(dv, lv),
                    n == dv.len(),
                    width == dv[0].len(),
                    f < width,
                    0 <= i2 <= n,
                    found ==> observed(dv, f as int, succ as int) && (succ as int) > (cur as int),
                    forall|k: int|
                        0 <= k < i2 && (#[trigger] dv[k][f as int]) as int > cur as int ==> (found
                            && (dv[k][f as int]) as int >= succ as int),
                decreases n - i2,
            {
                proof {
                    assert(dv[i2 as int] == data@[i2 as int]@);
                    assert(dv[i2 as int].len() == dv[0].len());
                }
                let v = data[i2][f];
                if v > cur && (!found || v < succ) {
                    succ = v;
                    found = true;
                }
                i2 = i2 + 1;
            }
            if !found {
                scanning = false;
                proof {
                    assert forall|v: int| #[trigger] observed(dv, f as int, v) implies v
                        <= cur as int by {
                        let k = choose|k: int|
                            0 <= k < dv.len() && (dv[k][f as int]) as int == v;
                        assert(!((dv[k][f as int]) as int > cur as int));
                    }
                }
            } else {
                let t: i64 = (cur as i64) + (succ as i64);
                proof {
                    assert forall|v: int| #[trigger] observed(dv, f as int, v) implies !(
                    (cur as int) < v && v < (succ as int)) by {
                        let k = choose|k: int|
                            0 <= k < dv.len() && (dv[k][f as int]) as int == v;
                        if (dv[k][f as int]) as int > cur as int {
                            assert((dv[k][f as int]) as int >= succ as int);
                        }
                    }
                    assert(adjacent_values(dv, f as int, cur as int, succ as int));
                    assert(is_candidate(dv, f as int, t as int));
                }
                let ghost old_best = pack_best(have, bf, bt);
                let ghost old_cur = cur;
                let ghost obn = bn;
                let ghost obd = bd;
                let eval = eval_split(data, labels, f, t);
                let a = eval.0;
                let d = eval.1;
                proof {
                    lemma_mul_u64_fits(a, nn);
                    lemma_mul_u64_fits(gn, d);
                    lemma_mul_u64_fits(a, bd);
                    lemma_mul_u64_fits(bn, d);
                }
                let take = if !have {
                    ((a as u128) * (nn as u128)) < ((gn as u128) * (d as u128))
                } else {
                    ((a as u128) * (bd as u128)) < ((bn as u128) * (d as u128))
                };
                proof {
                    lemma_candidate_sides(dv, lv, f as int, t as int);
                }
                if take {
                    proof {
                        if have {
                            // the new candidate beats the running best, which
                            // already improved on the parent
                            lemma_candidate_sides(dv, lv, bf as int, bt as int);
                            lemma_ratio_lt_le(
                                a as int,
                                d as int,
                                bn as int,
                                bd as int,
                                gini_num(lv),
                                gini_den(lv),
                            );
                        }
                    }
                    bf = f;
                    bt = t;
                    bn = a;
                    bd = d;
                    have = true;
                    proof {
                        let nb = pack_best(true, bf, bt);
                        assert(improves(dv, lv, f as int, t as int));
                        assert(best_inv(dv, lv, nb, bn, bd));
                        // previously scanned candidates stay dominated
                        assert forall|f2: int, t2: int|
                            #[trigger] is_candidate(dv, f2, t2) && (f2 < f as int || (f2 == f as int
                                && t2 <= 2 * (old_cur as int))) implies scan_keeps(dv, lv, nb, f2, t2) by {
                            lemma_candidate_sides(dv, lv, f2, t2);
                            if old_best is None {
                                // new best < parent <= old candidate
                                lemma_ratio_lt_le(
                                    a as int,
                                    d as int,
                                    gini_num(lv),
                                    gini_den(lv),
                                    w_num(dv, lv, f2, t2),
                                    w_den(dv, lv, f2, t2),
                                );
                            } else {
                                // new best < old best <= old candidate
                                let (of, ot) = old_best->Some_0;
                                lemma_candidate_sides(dv, lv, of as int, ot as int);
                                lemma_ratio_lt_le(
                                    a as int,
                                    d as int,
                                    obn as int,
                                    obd as int,
                                    w_num(dv, lv, f2, t2),
                                    w_den(dv, lv, f2, t2),
                                );
                            }
                        }
                        // candidates of this feature up to the new threshold
                        assert forall|t2: int|
                            #[trigger] is_candidate(dv, f as int, t2) && t2 <= 2 * (succ as int)
                            implies scan_keeps(dv, lv, nb, f as int, t2) by {
                            if t2 > 2 * (old_cur as int) {
                                lemma_candidate_in_gap(
                                    dv,
                                    f as int,
                                    old_cur as int,
                                    succ as int,
                                    t2,
                                );
                                assert(t2 == t as int);
                            }
                        }
                        assert(covered_at(dv, lv, nb, f as int, 2 * (succ as int)));
                        assert(covered_before(dv, lv, nb, f as int));
                    }
                } else {
                    proof {
                        let nb = pack_best(have, bf, bt);
                        // the new candidate does not beat the running best
                        assert(scan_keeps(dv, lv, nb, f as int, t as int)) by {
                            if have {
                                assert(no_worse(dv, lv, bf as int, bt as int, f as int, t as int));
                                assert(lex_before_eq(bf as int, bt as int, f as int, t as int));
                            } else {
                                assert(!improves(dv, lv, f as int, t as int));
                            }
                        }
                        assert forall|t2: int|
                            #[trigger] is_candidate(dv, f as int, t2) && t2 <= 2 * (succ as int)
                            implies scan_keeps(dv, lv, nb, f as int, t2) by {
                            if t2 > 2 * (old_cur as int) {
                                lemma_candidate_in_gap(
                                    dv,
                                    f as int,
                                    old_cur as int,
                                    succ as int,
                                    t2,
                                );
                                assert(t2 == t as int);
                            }
                        }
                        assert(covered_at(dv, lv, nb, f as int, 2 * (succ as int)));
                    }
                }
                cur = succ;
            }
        }
        proof {
            // every candidate of this feature is below twice its maximum
            // observed value, hence accounted for
            let b0 = pack_best(have, bf, bt);
            assert forall|f2: int, t2: int|
                #[trigger] is_candidate(dv, f2, t2) && f2 < f as int + 1 implies scan_keeps(
                dv,
                lv,
                b0,
                f2,
                t2,
            ) by {
                if f2 == f as int {
                    let (a, b) = choose|a: int, b: int|
                        adjacent_values(dv, f2, a, b) && t2 == a + b;
                    assert(b <= cur as int);
                    assert(t2 <= 2 * (cur as int));
                }
            }
        }
        f = f + 1;
    }
    if have {
        proof {
            assert(is_best_split(dv, lv, bf as int, bt as int)) by {
                assert forall|f2: int, t2: int| #[trigger] is_candidate(dv, f2, t2) implies
                    no_worse(dv, lv, bf as int, bt as int, f2, t2) && (same_impurity(
                    dv,
                    lv,
                    bf as int,
                    bt as int,
                    f2,
                    t2,
                ) ==> lex_before_eq(bf as int, bt as int, f2, t2)) by {
                    assert(f2 < width as int);
                    assert(scan_keeps(dv, lv, pack_best(true, bf, bt), f2, t2));
                }
            }
            let p = (bf, bt);
            assert(is_best_split(dv, lv, p.0 as int, p.1 as int));
            let q = choose|q: (usize, i64)| is_best_split(dv, lv, q.0 as int, q.1 as int);
            lemma_best_split_unique(dv, lv, q.0 as int, q.1 as int, bf as int, bt as int);
            assert(q == p);
        }
        Some((bf, bt))
    } else {
        proof {
            assert forall|p: (usize, i64)| !(#[trigger] is_best_split(
                dv,
                lv,
                p.0 as int,
                p.1 as int,
            )) by {
                if is_best_split(dv, lv, p.0 as int, p.1 as int) {
                    assert(is_candidate(dv, p.0 as int, p.1 as int));
                    assert((p.0 as int) < width as int);
                    assert(scan_keeps(dv, lv, pack_best(false, bf, bt), p.0 as int, p.1 as int));
                    assert(!improves(dv, lv, p.0 as int, p.1 as int));
                }
            }
        }
        None
    }
}


/// The number of split levels below this node (a leaf has height zero).
pub open spec fn height(n: Node) -> nat
    decreases n,
{
    match n {
        Node::Leaf { .. } => 0,
        Node::Internal { left, right, .. } => 1 + if height(*left) >= height(*right) {
            height(*left)
        } else {
            height(*right)
        },
    }
}

/// Every feature index in the tree lies below `width`.
pub open spec fn wf_node(n: Node, width: int) -> bool
    decreases n,
{
    match n {
        Node::Leaf { .. } => true,
        Node::Internal { feature, left, right, .. } => (feature as int) < width && wf_node(
            *left,
            width,
        ) && wf_node(*right, width),
    }
}

/// Root-to-leaf traversal: `None` when the instance is shorter than a
/// feature index referenced on the path.
pub open spec fn predict_inst_spec(n: Node, x: Seq<i32>) -> Option<usize>
    decreases n,
{
    match n {
        Node::Leaf { label } => Some(label),
        Node::Internal { feature, threshold, left, right } => {
            if feature as int >= x.len() {
                None
            } else if goes_left(x, feature as int, threshold as int) {
                predict_inst_spec(*left, x)
            } else {
                predict_inst_spec(*right, x)
            }
        },
    }
}

/// The tree the greedy training algorithm decides: a leaf with the majority
/// label when the depth budget is exhausted, the labels agree, or no split
/// improves; otherwise the best split with both children trained on their
/// partitions with one level less.
pub open spec fn train_spec(data: Seq<Seq<i32>>, labels: Seq<usize>, depth: nat) -> Node
    decreases depth,
{
    if depth == 0 || all_same_spec(labels) {
        Node::Leaf { label: mode_spec(labels) }
    } else {
        match best_split_spec(data, labels) {
            Option::None => Node::Leaf { label: mode_spec(labels) },
            Option::Some((f, t)) => Node::Internal {
                feature: f,
                threshold: t,
                left: Box::new(
                    train_spec(
                        left_rows(data, f as int, t as int),
                        left_labels(data, labels, f as int, t as int),
                        (depth - 1) as nat,
                    ),
                ),
                right: Box::new(
                    train_spec(
                        right_rows(data, f as int, t as int),
                        right_labels(data, labels, f as int, t as int),
                        (depth - 1) as nat,
                    ),
                ),
            },
        }
    }
}

/// The training labels that are routed, split by split, to the node the
/// instance `x` reaches.
pub open spec fn route_labels(n: Node, data: Seq<Seq<i32>>, labels: Seq<usize>, x: Seq<i32>) -> Seq<
    usize,
>
    decreases n,
{
    match n {
        Node::Leaf { .. } => labels,
        Node::Internal { feature, threshold, left, right } => {
            if goes_left(x, feature as int, threshold as int) {
                route_labels(
                    *left,
                    left_rows(data, feature as int, threshold as int),
                    left_labels(data, labels, feature as int, threshold as int),
                    x,
                )
            } else {
                route_labels(
                    *right,
                    right_rows(data, feature as int, threshold as int),
                    right_labels(data, labels, feature as int, threshold as int),
                    x,
                )
            }
        },
    }
}

/// A `Some` result of `best_split_spec` satisfies the full best-split
/// characterization.
pub proof fn lemma_best_split_some(data: Seq<Seq<i32>>, labels: Seq<usize>, f: usize, t: i64)
    requires
        best_split_spec(data, labels) == Some((f, t)),
    ensures
        is_best_split(data, labels, f as int, t as int),
{
    let q = choose|p: (usize, i64)| is_best_split(data, labels, p.0 as int, p.1 as int);
    assert(q == (f, t));
}

/// Split improvement, first half: the chosen split is a candidate whose
/// weighted impurity is strictly below the parent's Gini impurity.
pub proof fn lemma_split_improvement(data: Seq<Seq<i32>>, labels: Seq<usize>, f: usize, t: i64)
    requires
        best_split_spec(data, labels) == Some((f, t)),
    ensures
        is_candidate(data, f as int, t as int),
        improves(data, labels, f as int, t as int),
{
    lemma_best_split_some(data, labels, f, t);
}

/// Split improvement, second half: when no candidate split strictly improves
/// on the parent impurity, training decides a majority leaf.
pub proof fn lemma_no_improving_split_leaf(data: Seq<Seq<i32>>, labels: Seq<usize>, depth: nat)
    requires
        forall|f: int, t: int| #[trigger] is_candidate(data, f, t) ==> !improves(data, labels, f, t),
    ensures
        train_spec(data, labels, depth) == (Node::Leaf { label: mode_spec(labels) }),
{
    if exists|p: (usize, i64)| is_best_split(data, labels, p.0 as int, p.1 as int) {
        let p = choose|p: (usize, i64)| is_best_split(data, labels, p.0 as int, p.1 as int);
        assert(is_candidate(data, p.0 as int, p.1 as int));
        assert(false);
    }
    assert(best_split_spec(data, labels) is None);
}

/// The best split hands each child a valid dataset of the parent's width,
/// and each child dataset is strictly smaller than the parent's.
pub proof fn lemma_split_children_valid(data: Seq<Seq<i32>>, labels: Seq<usize>, f: usize, t: i64)
    requires
        valid_dataset(data, labels),
        is_best_split(data, labels, f as int, t as int),
    ensures
        valid_dataset(left_rows(data, f as int, t as int), left_labels(data, labels, f as int, t as int)),
        valid_dataset(right_rows(data, f as int, t as int), right_labels(data, labels, f as int, t as int)),
        left_rows(data, f as int, t as int)[0].len() == data[0].len(),
        right_rows(data, f as int, t as int)[0].len() == data[0].len(),
        left_labels(data, labels, f as int, t as int).len() < labels.len(),
        right_labels(data, labels, f as int, t as int).len() < labels.len(),
{
    lemma_candidate_sides(data, labels, f as int, t as int);
    lemma_split_parts(data, labels, f as int, t as int);
    let lr = left_rows(data, f as int, t as int);
    let rr = right_rows(data, f as int, t as int);
    assert forall|i: int| 0 <= i < lr.len() implies #[trigger] lr[i].len() == data[0].len() by {
        let j = choose|j: int| 0 <= j < data.len() && lr[i] == data[j];
        assert(data[j].len() == data[0].len());
    }
    assert forall|i: int| 0 <= i < rr.len() implies #[trigger] rr[i].len() == data[0].len() by {
        let j = choose|j: int| 0 <= j < data.len() && rr[i] == data[j];
        assert(data[j].len() == data[0].len());
    }
}

/// Depth bound: a tree trained with depth limit `depth` has at most `depth`
/// split levels on any path.
pub proof fn lemma_train_spec_height(data: Seq<Seq<i32>>, labels: Seq<usize>, depth: nat)
    ensures
        height(train_spec(data, labels, depth)) <= depth,
    decreases depth,
{
    if !(depth == 0 || all_same_spec(labels)) {
        match best_split_spec(data, labels) {
            Option::None => {},
            Option::Some((f, t)) => {
                lemma_train_spec_height(
                    left_rows(data, f as int, t as int),
                    left_labels(data, labels, f as int, t as int),
                    (depth - 1) as nat,
                );
                lemma_train_spec_height(
                    right_rows(data, f as int, t as int),
                    right_labels(data, labels, f as int, t as int),
                    (depth - 1) as nat,
                );
            },
        }
    }
}

/// Every feature index a trained tree tests lies within the training width.
pub proof fn lemma_train_spec_wf(data: Seq<Seq<i32>>, labels: Seq<usize>, depth: nat)
    requires
        valid_dataset(data, labels),
    ensures
        wf_node(train_spec(data, labels, depth), data[0].len() as int),
    decreases depth,
{
    if !(depth == 0 || all_same_spec(labels)) {
        match best_split_spec(data, labels) {
            Option::None => {},
            Option::Some((f, t)) => {
                lemma_best_split_some(data, labels, f, t);
                lemma_split_children_valid(data, labels, f, t);
                lemma_train_spec_wf(
                    left_rows(data, f as int, t as int),
                    left_labels(data, labels, f as int, t as int),
                    (depth - 1) as nat,
                );
                lemma_train_spec_wf(
                    right_rows(data, f as int, t as int),
                    right_labels(data, labels, f as int, t as int),
                    (depth - 1) as nat,
                );
            },
        }
    }
}

/// Prediction success is owed: traversal of a well-formed tree returns a
/// label on every instance at least as wide as the training rows.
pub proof fn lemma_predict_total(n: Node, width: int, x: Seq<i32>)
    requires
        wf_node(n, width),
        x.len() >= width,
    ensures
        predict_inst_spec(n, x) is Some,
    decreases n,
{
    match n {
        Node::Leaf { .. } => {},
        Node::Internal { feature, threshold, left, right } => {
            if goes_left(x, feature as int, threshold as int) {
                lemma_predict_total(*left, width, x);
            } else {
                lemma_predict_total(*right, width, x);
            }
        },
    }
}

/// Leaf purity: a label returned by traversing a trained tree was the
/// majority label (smallest on ties) of the training rows that were routed
/// to the reached leaf during training.
pub proof fn lemma_leaf_purity(data: Seq<Seq<i32>>, labels: Seq<usize>, depth: nat, x: Seq<i32>)
    requires
        valid_dataset(data, labels),
    ensures
        (predict_inst_spec(train_spec(data, labels, depth), x) matches Some(lab) ==> is_mode(
            route_labels(train_spec(data, labels, depth), data, labels, x),
            lab,
        )),
    decreases depth,
{
    let n = train_spec(data, labels, depth);
    if depth == 0 || all_same_spec(labels) {
        lemma_mode_is_mode(labels);
    } else {
        match best_split_spec(data, labels) {
            Option::None => {
                lemma_mode_is_mode(labels);
            },
            Option::Some((f, t)) => {
                lemma_best_split_some(data, labels, f, t);
                lemma_split_children_valid(data, labels, f, t);
                if goes_left(x, f as int, t as int) {
                    lemma_leaf_purity(
                        left_rows(data, f as int, t as int),
                        left_labels(data, labels, f as int, t as int),
                        (depth - 1) as nat,
                        x,
                    );
                } else {
                    lemma_leaf_purity(
                        right_rows(data, f as int, t as int),
                        right_labels(data, labels, f as int, t as int),
                        (depth - 1) as nat,
                        x,
                    );
                }
            },
        }
    }
}

/// Does the input satisfy the training well-formedness contract?
pub fn check_valid(data: &Vec<Vec<i32>>, labels: &Vec<usize>) -> (b: bool)
    ensures
        b == valid_dataset(rows_view(*data), labels@),
{
    if data.len() != labels.len() {
        return false;
    }
    if data.len() == 0 {
        return false;
    }
    let w0 = data[0].len();
    if w0 == 0 {
        return false;
    }
    let mut i: usize = 1;
    while i < data.len()
        invariant
            1 <= i <= data@.len(),
            data@.len() == labels@.len(),
            data@.len() >= 1,
            w0 == rows_view(*data)[0].len(),
            w0 >= 1,
            forall|k: int| 0 <= k < i ==> #[trigger] rows_view(*data)[k].len() == w0,
        decreases data@.len() - i,
    {
        if data[i].len() != w0 {
            proof {
                assert(rows_view(*data)[i as int].len() != w0);
            }
            return false;
        }
        i = i + 1;
    }
    true
}

/// Recursive training: decides one node and, on a split, trains both
/// children on their partitions.
fn train_node(data: &Vec<Vec<i32>>, labels: &Vec<usize>, depth: usize) -> (n: Node)
    requires
        valid_dataset(rows_view(*data), labels@),
        labels@.len() <= MAX_ROWS,
    ensures
        n == train_spec(rows_view(*data), labels@, depth as nat),
    decreases depth,
{
    let ghost dv = rows_view(*data);
    if depth == 0 || all_same(labels) {
        let label = most_common(labels);
        Node::Leaf { label }
    } else {
        match find_best_split(data, labels) {
            Option::None => {
                let label = most_common(labels);
                Node::Leaf { label }
            },
            Option::Some((f, t)) => {
                proof {
                    lemma_best_split_some(dv, labels@, f, t);
                    lemma_split_children_valid(dv, labels@, f, t);
                    assert forall|i: int| 0 <= i < data@.len() implies f < #[trigger] data@[i]@.len() by {
                        assert(dv[i].len() == dv[0].len());
                    }
                }
                let parts = split_data(data, labels, f, t);
                let left = train_node(&parts.0, &parts.1, depth - 1);
                let right = train_node(&parts.2, &parts.3, depth - 1);
                Node::Internal { feature: f, threshold: t, left: Box::new(left), right: Box::new(right) }
            },
        }
    }
}

/// Traverses the decided tree for one instance.
fn predict_node(n: &Node, x: &Vec<i32>) -> (r: Option<usize>)
    ensures
        r == predict_inst_spec(*n, x@),
    decreases *n,
{
    match n {
        Node::Leaf { label } => Some(*label),
        Node::Internal { feature, threshold, left, right } => {
            if *feature >= x.len() {
                None
            } else {
                let v = x[*feature];
                if 2 * (v as i64) <= *threshold {
                    predict_node(left, x)
                } else {
                    predict_node(right, x)
                }
            }
        },
    }
}

impl DecisionTree {
    /// A new, still undecided tree.
    pub fn new() -> (t: DecisionTree)
        ensures
            t@ is None,
    {
        DecisionTree { root: None }
    }

    /// Trains the tree by recursive greedy splitting.  On a valid dataset the
    /// resulting tree is `train_spec` of the inputs — one fixed function, so
    /// training is deterministic — every feature it tests lies within the
    /// dataset width, and no path exceeds `max_depth` split levels.  On a
    /// malformed dataset the tree is left unchanged and the error says so.
    pub fn train(&mut self, data: &Vec<Vec<i32>>, labels: &Vec<usize>, max_depth: usize) -> (r:
        Result<(), ModelError>)
        requires
            data@.len() <= MAX_ROWS,
        ensures
            valid_dataset(rows_view(*data), labels@) ==> r is Ok && final(self)@ == Some(
                train_spec(rows_view(*data), labels@, max_depth as nat),
            ),
            valid_dataset(rows_view(*data), labels@) ==> (final(self)@ matches Some(root)
                && height(root) <= max_depth as nat && wf_node(
                root,
                rows_view(*data)[0].len() as int,
            )),
            !valid_dataset(rows_view(*data), labels@) ==> r == Err::<(), ModelError>(
                ModelError::InvalidInput,
            ) && final(self)@ == old(self)@,
    {
        if !check_valid(data, labels) {
            return Err(ModelError::InvalidInput);
        }
        let root = train_node(data, labels, max_depth);
        proof {
            lemma_train_spec_height(rows_view(*data), labels@, max_depth as nat);
            lemma_train_spec_wf(rows_view(*data), labels@, max_depth as nat);
        }
        self.root = Some(root);
        Ok(())
    }

    /// The label the decided tree assigns to one instance, or the error that
    /// names what went wrong: `Untrained` exactly when the tree was never
    /// trained, `IndexOutOfRange` exactly when the instance is shorter than a
    /// feature index on its traversal path.
    pub fn predict_instance(&self, instance: &Vec<i32>) -> (r: Result<usize, ModelError>)
        ensures
            self@ is None ==> r == Err::<usize, ModelError>(ModelError::Untrained),
            self@ matches Some(root) ==> (predict_inst_spec(root, instance@) matches Some(lab)
                ==> r == Ok::<usize, ModelError>(lab)),
            self@ matches Some(root) ==> (predict_inst_spec(root, instance@) is None ==> r
                == Err::<usize, ModelError>(ModelError::IndexOutOfRange)),
    {
        match &self.root {
            Option::None => Err(ModelError::Untrained),
            Option::Some(node) => match predict_node(node, instance) {
                Option::Some(lab) => Ok(lab),
                Option::None => Err(ModelError::IndexOutOfRange),
            },
        }
    }

    /// The labels the decided tree assigns to a batch of instances, one per
    /// instance in input order; fails exactly as `predict_instance` does on
    /// the first failing instance.
    pub fn predict(&self, data: &Vec<Vec<i32>>) -> (r: Result<Vec<usize>, ModelError>)
        ensures
            self@ is None ==> r == Err::<Vec<usize>, ModelError>(ModelError::Untrained),
            self@ matches Some(root) ==> ((forall|i: int|
                0 <= i < data@.len() ==> (#[trigger] predict_inst_spec(root, data@[i]@))
                    is Some) ==> (r matches Ok(out) && out@.len() == data@.len() && (forall|i: int|
                0 <= i < data@.len() ==> #[trigger] predict_inst_spec(root, data@[i]@) == Some(
                    out@[i],
                )))),
            self@ matches Some(root) ==> (!(forall|i: int|
                0 <= i < data@.len() ==> (#[trigger] predict_inst_spec(root, data@[i]@))
                    is Some) ==> r == Err::<Vec<usize>, ModelError>(ModelError::IndexOutOfRange)),
    {
        match &self.root {
            Option::None => Err(ModelError::Untrained),
            Option::Some(node) => {
                let mut out: Vec<usize> = Vec::new();
                let mut i: usize = 0;
                while i < data.len()
                    invariant
                        0 <= i <= data@.len(),
                        self@ == Some(*node),
                        out@.len() == i,
                        forall|k: int|
                            0 <= k < i ==> #[trigger] predict_inst_spec(*node, data@[k]@) == Some(
                                out@[k],
                            ),
                    decreases data@.len() - i,
                {
                    match predict_node(node, &data[i]) {
                        Option::Some(lab) => {
                            out.push(lab);
                        },
                        Option::None => {
                            return Err(ModelError::IndexOutOfRange);
                        },
                    }
                    i = i + 1;
                }
                Ok(out)
            },
        }
    }

    /// Has the tree been decided by training?
    pub fn trained(&self) -> (r: bool)
        ensures
            r == (self@ is Some),
    {
        self.root.is_some()
    }

    /// Read-only access to the decided structure (for rendering); `None`
    /// while the tree is untrained.
    pub fn root(&self) -> (r: &Option<Node>)
        ensures
            *r == self@,
    {
        &self.root
    }
}

} // verus!

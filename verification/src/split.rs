use vstd::prelude::*;

use crate::metrics::{count_in, sq_count_sum, sum_label_counts};
use crate::record::{data_wf, labels_of, num_features, views, Record, RecordView};
use crate::MAX_SPLIT_ROWS;

verus! {

/// A binary threshold test on one feature dimension:
/// `features[feature_index] <= threshold` sends a record to the left side.
#[derive(Clone, Copy, Debug, PartialEq, Eq, Structural)]
pub struct Split {
    pub feature_index: usize,
    pub threshold: i64,
}

/// Whether `r` falls on the left ("at or below") side of the test `(f, t)`.
pub open spec fn goes_left(r: RecordView, f: int, t: i64) -> bool {
    r.features[f] <= t
}

/// The records of `data` on the left side of `(f, t)`, in order.
pub open spec fn part_left(data: Seq<RecordView>, f: int, t: i64) -> Seq<RecordView>
    decreases data.len(),
{
    if data.len() == 0 {
        Seq::empty()
    } else {
        part_left(data.drop_last(), f, t) + if goes_left(data.last(), f, t) {
            seq![data.last()]
        } else {
            Seq::empty()
        }
    }
}

/// The records of `data` on the right ("above") side of `(f, t)`, in order.
pub open spec fn part_right(data: Seq<RecordView>, f: int, t: i64) -> Seq<RecordView>
    decreases data.len(),
{
    if data.len() == 0 {
        Seq::empty()
    } else {
        part_right(data.drop_last(), f, t) + if !goes_left(data.last(), f, t) {
            seq![data.last()]
        } else {
            Seq::empty()
        }
    }
}

/// Both sides of the candidate split hold at least one record.
pub open spec fn valid_split(data: Seq<RecordView>, f: int, t: i64) -> bool {
    part_left(data, f, t).len() > 0 && part_right(data, f, t).len() > 0
}

/// Numerator of the quality of a candidate split.  The size-weighted child
/// impurity of `(f, t)` equals `1 - score_num / (n * score_den)`, so among
/// candidates over the same data a larger `score_num / score_den` means a
/// smaller weighted impurity.
pub open spec fn score_num(data: Seq<RecordView>, f: int, t: i64) -> int {
    sq_count_sum(labels_of(part_left(data, f, t))) * part_right(data, f, t).len() as int
        + sq_count_sum(labels_of(part_right(data, f, t))) * part_left(data, f, t).len() as int
}

/// Denominator of the quality of a candidate split: `|left| * |right|`.
pub open spec fn score_den(data: Seq<RecordView>, f: int, t: i64) -> int {
    part_left(data, f, t).len() * part_right(data, f, t).len() as int
}

/// The weighted child impurity of `(f1, t1)` is at most that of `(f2, t2)`:
/// the quality fractions compare the other way around.
pub open spec fn no_worse(data: Seq<RecordView>, f1: int, t1: i64, f2: int, t2: i64) -> bool {
    score_num(data, f1, t1) * score_den(data, f2, t2)
        >= score_num(data, f2, t2) * score_den(data, f1, t1)
}

/// The weighted child impurity of `(f1, t1)` is strictly below that of `(f2, t2)`.
pub open spec fn strictly_better(data: Seq<RecordView>, f1: int, t1: i64, f2: int, t2: i64) -> bool {
    score_num(data, f1, t1) * score_den(data, f2, t2)
        > score_num(data, f2, t2) * score_den(data, f1, t1)
}

/// `x` occurs as the value of feature `f` in some record.
pub open spec fn feature_has_value(data: Seq<RecordView>, f: int, x: i64) -> bool {
    exists|k: int| 0 <= k < data.len() && (#[trigger] data[k].features[f]) == x
}

/// `t1` and `t2` induce the very same partition on feature `f`.
pub open spec fn equivalent_thresholds(data: Seq<RecordView>, f: int, t1: i64, t2: i64) -> bool {
    &&& part_left(data, f, t1) == part_left(data, f, t2)
    &&& part_right(data, f, t1) == part_right(data, f, t2)
}

/// `a` and `b` are adjacent observed values of feature `f` (both occur and no
/// observed value lies strictly between them) and `t` is their floor midpoint.
pub open spec fn gap_midpoint_witness(
    data: Seq<RecordView>,
    f: int,
    t: i64,
    a: i64,
    b: i64,
) -> bool {
    &&& feature_has_value(data, f, a)
    &&& feature_has_value(data, f, b)
    &&& a <= b
    &&& t == a + (b - a) / 2
    &&& forall|k: int|
        0 <= k < data.len() ==> ((#[trigger] data[k].features[f]) <= a || data[k].features[f] >= b)
}

/// `t` is the floor midpoint of two adjacent observed values of feature `f`,
/// as the midpoint enumeration of the search produces it.
pub open spec fn midpoint_of_gap(data: Seq<RecordView>, f: int, t: i64) -> bool {
    exists|a: i64, b: i64| #[trigger] gap_midpoint_witness(data, f, t, a, b)
}

/// Any valid threshold below `t` on the same feature is either strictly worse
/// or induces the same partition: among equally good partitions on feature
/// `f`, the earliest enumerated one wins.
pub open spec fn first_in_feature(data: Seq<RecordView>, f: int, t: i64) -> bool {
    forall|t2: i64|
        t2 < t && #[trigger] valid_split(data, f, t2) ==> (strictly_better(data, f, t, f, t2)
            || equivalent_thresholds(data, f, t2, t))
}

/// Everything the exhaustive search promises of a returned split: its feature
/// index is in range, both sides are non-empty, it is at least as good as
/// every valid split anywhere, strictly better than every valid split on an
/// earlier feature, first among the thresholds of its own feature, and its
/// threshold is a midpoint of two adjacent observed values.
pub open spec fn split_choice_ok(data: Seq<RecordView>, s: Split) -> bool {
    &&& (s.feature_index as int) < num_features(data)
    &&& valid_split(data, s.feature_index as int, s.threshold)
    &&& forall|f: int, t: i64|
        0 <= f < num_features(data) && #[trigger] valid_split(data, f, t) ==> no_worse(
            data,
            s.feature_index as int,
            s.threshold,
            f,
            t,
        )
    &&& forall|f: int, t: i64|
        0 <= f < s.feature_index as int && #[trigger] valid_split(data, f, t)
            ==> strictly_better(data, s.feature_index as int, s.threshold, f, t)
    &&& first_in_feature(data, s.feature_index as int, s.threshold)
    &&& midpoint_of_gap(data, s.feature_index as int, s.threshold)
}

/// `(bf, bt)` is at least as good as every valid split on a feature below `fmax`.
pub open spec fn optimal_below(data: Seq<RecordView>, bf: int, bt: i64, fmax: int) -> bool {
    forall|f: int, t: i64|
        0 <= f < fmax && #[trigger] valid_split(data, f, t) ==> no_worse(data, bf, bt, f, t)
}

/// `(bf, bt)` is strictly better than every valid split on a feature below `fmax`.
pub open spec fn strictly_optimal_below(data: Seq<RecordView>, bf: int, bt: i64, fmax: int) -> bool {
    forall|f: int, t: i64|
        0 <= f < fmax && #[trigger] valid_split(data, f, t) ==> strictly_better(data, bf, bt, f, t)
}

/// No split on a feature below `fmax` is valid.
pub open spec fn no_valid_below(data: Seq<RecordView>, fmax: int) -> bool {
    forall|f: int, t: i64| 0 <= f < fmax ==> !#[trigger] valid_split(data, f, t)
}

/// `(bf, bt)` is at least as good as every valid threshold below `c` on feature `f`.
pub open spec fn optimal_on_feature_below(
    data: Seq<RecordView>,
    bf: int,
    bt: i64,
    f: int,
    c: i64,
) -> bool {
    forall|t: i64| t < c && #[trigger] valid_split(data, f, t) ==> no_worse(data, bf, bt, f, t)
}

/// No threshold below `c` on feature `f` gives a valid split.
pub open spec fn no_valid_on_feature_below(data: Seq<RecordView>, f: int, c: i64) -> bool {
    forall|t: i64| t < c ==> !#[trigger] valid_split(data, f, t)
}

/// The split's size-weighted child impurity lies strictly below the Gini
/// impurity of the unsplit set: `1 - score_num/(n * score_den)` is less than
/// `1 - sq_count_sum/n^2`, written with the positive denominators cleared.
pub open spec fn improves(data: Seq<RecordView>, f: int, t: i64) -> bool {
    score_num(data, f, t) * data.len() > sq_count_sum(labels_of(data)) * score_den(data, f, t)
}

/// If a split at least as good as all others fails to improve on the unsplit
/// impurity, no valid split improves on it.
pub proof fn lemma_no_improvement_propagates(
    data: Seq<RecordView>,
    f1: int,
    t1: i64,
    f2: int,
    t2: i64,
)
    requires
        no_worse(data, f1, t1, f2, t2),
        valid_split(data, f1, t1),
        valid_split(data, f2, t2),
        !improves(data, f1, t1),
    ensures
        !improves(data, f2, t2),
{
    lemma_valid_split_scores(data, f1, t1);
    lemma_valid_split_scores(data, f2, t2);
    let p1 = score_num(data, f1, t1);
    let q1 = score_den(data, f1, t1);
    let p2 = score_num(data, f2, t2);
    let q2 = score_den(data, f2, t2);
    let n = data.len() as int;
    let s = sq_count_sum(labels_of(data)) as int;
    assert(p2 * n <= s * q2) by (nonlinear_arith)
        requires
            p1 * q2 >= p2 * q1,
            p1 * n <= s * q1,
            q1 >= 1,
            q2 >= 1,
            p1 >= 0 && p2 >= 0 && s >= 0 && n >= 0;
}

pub proof fn lemma_valid_split_scores(data: Seq<RecordView>, f: int, t: i64)
    ensures
        score_num(data, f, t) >= 0,
        score_den(data, f, t) >= 0,
        valid_split(data, f, t) ==> score_den(data, f, t) >= 1,
{
    let pl = part_left(data, f, t).len() as int;
    let pr = part_right(data, f, t).len() as int;
    let sl = sq_count_sum(labels_of(part_left(data, f, t))) as int;
    let sr = sq_count_sum(labels_of(part_right(data, f, t))) as int;
    assert(sl * pr >= 0 && sr * pl >= 0 && pl * pr >= 0) by (nonlinear_arith)
        requires sl >= 0 && sr >= 0 && pl >= 0 && pr >= 0;
    if valid_split(data, f, t) {
        assert(pl * pr >= 1) by (nonlinear_arith)
            requires pl >= 1 && pr >= 1;
    }
}

/// Being no worse is transitive across a valid middle split.
pub proof fn lemma_no_worse_trans(
    data: Seq<RecordView>,
    f1: int,
    t1: i64,
    f2: int,
    t2: i64,
    f3: int,
    t3: i64,
)
    requires
        no_worse(data, f1, t1, f2, t2),
        no_worse(data, f2, t2, f3, t3),
        valid_split(data, f2, t2),
    ensures
        no_worse(data, f1, t1, f3, t3),
{
    lemma_valid_split_scores(data, f1, t1);
    lemma_valid_split_scores(data, f2, t2);
    lemma_valid_split_scores(data, f3, t3);
    let p1 = score_num(data, f1, t1);
    let q1 = score_den(data, f1, t1);
    let p2 = score_num(data, f2, t2);
    let q2 = score_den(data, f2, t2);
    let p3 = score_num(data, f3, t3);
    let q3 = score_den(data, f3, t3);
    assert(p1 * q3 >= p3 * q1) by (nonlinear_arith)
        requires
            p1 * q2 >= p2 * q1,
            p2 * q3 >= p3 * q2,
            q2 >= 1,
            p1 >= 0 && p2 >= 0 && p3 >= 0 && q1 >= 0 && q3 >= 0;
}

/// Strict advantage survives chaining with a no-worse middle split.
pub proof fn lemma_strictly_better_trans(
    data: Seq<RecordView>,
    f1: int,
    t1: i64,
    f2: int,
    t2: i64,
    f3: int,
    t3: i64,
)
    requires
        strictly_better(data, f1, t1, f2, t2),
        no_worse(data, f2, t2, f3, t3),
        valid_split(data, f2, t2),
        valid_split(data, f3, t3),
    ensures
        strictly_better(data, f1, t1, f3, t3),
{
    lemma_valid_split_scores(data, f1, t1);
    lemma_valid_split_scores(data, f2, t2);
    lemma_valid_split_scores(data, f3, t3);
    let p1 = score_num(data, f1, t1);
    let q1 = score_den(data, f1, t1);
    let p2 = score_num(data, f2, t2);
    let q2 = score_den(data, f2, t2);
    let p3 = score_num(data, f3, t3);
    let q3 = score_den(data, f3, t3);
    assert(p1 * q3 > p3 * q1) by (nonlinear_arith)
        requires
            p1 * q2 > p2 * q1,
            p2 * q3 >= p3 * q2,
            q2 >= 1,
            q3 >= 1,
            p1 >= 0 && p2 >= 0 && p3 >= 0 && q1 >= 0;
}

proof fn lemma_labels_concat(a: Seq<RecordView>, b: Seq<RecordView>)
    ensures
        labels_of(a + b) == labels_of(a) + labels_of(b),
{
    assert(labels_of(a + b) =~= labels_of(a) + labels_of(b));
}

/// Partitioning splits every label count between the two sides.
proof fn lemma_partition_counts(data: Seq<RecordView>, f: int, t: i64, v: usize)
    ensures
        count_in(labels_of(data), v) == count_in(labels_of(part_left(data, f, t)), v) + count_in(
            labels_of(part_right(data, f, t)),
            v,
        ),
    decreases data.len(),
{
    if data.len() > 0 {
        let sp = data.drop_last();
        lemma_partition_counts(sp, f, t, v);
        assert(labels_of(data).drop_last() =~= labels_of(sp));
        assert(labels_of(data).last() == data.last().label);
        if goes_left(data.last(), f, t) {
            lemma_labels_concat(part_left(sp, f, t), seq![data.last()]);
            assert(labels_of(seq![data.last()]) =~= seq![data.last().label]);
            crate::metrics::lemma_count_concat(
                labels_of(part_left(sp, f, t)),
                seq![data.last().label],
                v,
            );
            assert(count_in(seq![data.last().label], v) == if data.last().label == v {
                1nat
            } else {
                0nat
            }) by {
                assert(seq![data.last().label].drop_last() =~= Seq::<usize>::empty());
                assert(count_in(Seq::<usize>::empty(), v) == 0);
            }
            assert(part_right(data, f, t) =~= part_right(sp, f, t));
        } else {
            lemma_labels_concat(part_right(sp, f, t), seq![data.last()]);
            assert(labels_of(seq![data.last()]) =~= seq![data.last().label]);
            crate::metrics::lemma_count_concat(
                labels_of(part_right(sp, f, t)),
                seq![data.last().label],
                v,
            );
            assert(count_in(seq![data.last().label], v) == if data.last().label == v {
                1nat
            } else {
                0nat
            }) by {
                assert(seq![data.last().label].drop_last() =~= Seq::<usize>::empty());
                assert(count_in(Seq::<usize>::empty(), v) == 0);
            }
            assert(part_left(data, f, t) =~= part_left(sp, f, t));
        }
    }
}

/// Summed over any label list, the per-label mean-square inequality: the
/// within-side squared counts, size-weighted, dominate the pooled ones.
proof fn lemma_pooled_square_sum(
    labels: Seq<usize>,
    ll: Seq<usize>,
    lr: Seq<usize>,
    lp: Seq<usize>,
    nl: int,
    nr: int,
)
    requires
        nl >= 1,
        nr >= 1,
        forall|v: usize| #[trigger] count_in(lp, v) == count_in(ll, v) + count_in(lr, v),
    ensures
        (nl + nr) * (crate::metrics::ssq_over(labels, ll) * nr + crate::metrics::ssq_over(
            labels,
            lr,
        ) * nl) >= crate::metrics::ssq_over(labels, lp) * (nl * nr),
    decreases labels.len(),
{
    if labels.len() == 0 {
        assert((nl + nr) * (0 * nr + 0 * nl) >= 0 * (nl * nr)) by (nonlinear_arith);
    } else {
        let d = labels.drop_last();
        lemma_pooled_square_sum(d, ll, lr, lp, nl, nr);
        let a = count_in(ll, labels.last()) as int;
        let b = count_in(lr, labels.last()) as int;
        assert(count_in(lp, labels.last()) == a + b);
        let sl = crate::metrics::ssq_over(d, ll);
        let sr = crate::metrics::ssq_over(d, lr);
        let sp = crate::metrics::ssq_over(d, lp);
        let x = a * nr;
        let y = b * nl;
        assert(x * x + y * y >= 2 * (x * y)) by (nonlinear_arith);
        assert((nl + nr) * (a * a * nr + b * b * nl) == x * x + y * y + (a * a) * (nl * nr) + (b
            * b) * (nl * nr)) by {
            broadcast use vstd::arithmetic::mul::group_mul_properties;

        }
        assert(((a + b) * (a + b)) * (nl * nr) == (a * a) * (nl * nr) + (b * b) * (nl * nr) + 2 * (
        x * y)) by {
            broadcast use vstd::arithmetic::mul::group_mul_properties;

        }
        assert((nl + nr) * (a * a * nr + b * b * nl) >= ((a + b) * (a + b)) * (nl * nr));
        assert((nl + nr) * ((sl + a * a) * nr + (sr + b * b) * nl) == (nl + nr) * (sl * nr + sr
            * nl) + (nl + nr) * (a * a * nr + b * b * nl)) by (nonlinear_arith);
        assert((sp + (a + b) * (a + b)) * (nl * nr) == sp * (nl * nr) + ((a + b) * (a + b)) * (nl
            * nr)) by (nonlinear_arith);
        assert(crate::metrics::ssq_over(labels, ll) == sl + a * a);
        assert(crate::metrics::ssq_over(labels, lr) == sr + b * b);
        assert(crate::metrics::ssq_over(labels, lp) == sp + (a + b) * (a + b));
    }
}

/// A valid split never increases impurity: its size-weighted child impurity,
/// `1 - score_num/(n * score_den)`, is at most the Gini impurity of the
/// unsplit set, `1 - sq_count_sum/n^2`; with the positive denominators
/// cleared, that comparison reads as below.
pub proof fn lemma_split_never_increases_impurity(data: Seq<RecordView>, f: int, t: i64)
    requires
        valid_split(data, f, t),
    ensures
        score_num(data, f, t) * data.len() >= sq_count_sum(labels_of(data)) * score_den(
            data,
            f,
            t,
        ),
{
    let l = part_left(data, f, t);
    let r = part_right(data, f, t);
    let ll = labels_of(l);
    let lr = labels_of(r);
    let lp = labels_of(data);
    let nl = l.len() as int;
    let nr = r.len() as int;
    lemma_partition_lens(data, f, t);
    assert forall|v: usize| #[trigger] count_in(lp, v) == count_in(ll, v) + count_in(lr, v) by {
        lemma_partition_counts(data, f, t, v);
    }
    crate::metrics::lemma_distinct_labels_props(lp);
    let dl = crate::metrics::distinct_labels(lp);
    crate::metrics::lemma_ssq_over_complete(dl, lp);
    assert forall|v: usize| count_in(ll, v) > 0 implies dl.contains(v) by {
        assert(count_in(lp, v) > 0);
    }
    assert forall|v: usize| count_in(lr, v) > 0 implies dl.contains(v) by {
        assert(count_in(lp, v) > 0);
    }
    crate::metrics::lemma_ssq_over_complete(dl, ll);
    crate::metrics::lemma_ssq_over_complete(dl, lr);
    lemma_pooled_square_sum(dl, ll, lr, lp, nl, nr);
    assert(score_num(data, f, t) == sq_count_sum(ll) * nr + sq_count_sum(lr) * nl);
    assert(score_den(data, f, t) == nl * nr);
    assert(data.len() == nl + nr);
    assert((nl + nr) * (sq_count_sum(ll) * nr + sq_count_sum(lr) * nl) == (sq_count_sum(ll) * nr
        + sq_count_sum(lr) * nl) * (nl + nr)) by (nonlinear_arith);
}

pub proof fn lemma_score_bounds(data: Seq<RecordView>, f: int, t: i64)
    ensures
        0 <= score_num(data, f, t) <= 2 * data.len() * data.len() * data.len(),
        0 <= score_den(data, f, t) <= data.len() * data.len(),
{
    lemma_partition_lens(data, f, t);
    let pl = part_left(data, f, t);
    let pr = part_right(data, f, t);
    let ll = labels_of(pl);
    let lr = labels_of(pr);
    crate::metrics::lemma_self_count_sum_le(ll, ll.len() as int);
    crate::metrics::lemma_self_count_sum_le(lr, lr.len() as int);
    let n = data.len() as int;
    assert(sq_count_sum(ll) * pr.len() as int + sq_count_sum(lr) * pl.len() as int
        <= 2 * n * n * n && pl.len() * pr.len() as int <= n * n) by (nonlinear_arith)
        requires
            sq_count_sum(ll) <= ll.len() * ll.len(),
            sq_count_sum(lr) <= lr.len() * lr.len(),
            ll.len() == pl.len(),
            lr.len() == pr.len(),
            pl.len() + pr.len() == n,
            pl.len() >= 0,
            pr.len() >= 0;
    assert(sq_count_sum(ll) * pr.len() as int >= 0 && sq_count_sum(lr) * pl.len() as int >= 0
        && pl.len() * pr.len() as int >= 0) by (nonlinear_arith);
}

/// A threshold below every value of its feature leaves the left side empty.
pub proof fn lemma_part_left_empty(data: Seq<RecordView>, f: int, t: i64)
    requires
        forall|i: int| 0 <= i < data.len() ==> !goes_left(#[trigger] data[i], f, t),
    ensures
        part_left(data, f, t).len() == 0,
    decreases data.len(),
{
    if data.len() > 0 {
        lemma_part_left_empty(data.drop_last(), f, t);
        assert(data[data.len() - 1] == data.last());
    }
}

/// A threshold at or above every value of its feature leaves the right side empty.
pub proof fn lemma_part_right_empty(data: Seq<RecordView>, f: int, t: i64)
    requires
        forall|i: int| 0 <= i < data.len() ==> goes_left(#[trigger] data[i], f, t),
    ensures
        part_right(data, f, t).len() == 0,
    decreases data.len(),
{
    if data.len() > 0 {
        lemma_part_right_empty(data.drop_last(), f, t);
        assert(data[data.len() - 1] == data.last());
    }
}

/// Two thresholds inside the same value-free gap `[lo, hi)` induce one partition.
pub proof fn lemma_threshold_congruent(
    data: Seq<RecordView>,
    f: int,
    lo: i64,
    hi: i64,
    t1: i64,
    t2: i64,
)
    requires
        forall|i: int| 0 <= i < data.len()
            ==> (#[trigger] data[i].features[f] <= lo || data[i].features[f] >= hi),
        lo <= t1 < hi,
        lo <= t2 < hi,
    ensures
        part_left(data, f, t1) == part_left(data, f, t2),
        part_right(data, f, t1) == part_right(data, f, t2),
        valid_split(data, f, t1) == valid_split(data, f, t2),
        score_num(data, f, t1) == score_num(data, f, t2),
        score_den(data, f, t1) == score_den(data, f, t2),
{
    assert forall|i: int| 0 <= i < data.len()
        implies goes_left(#[trigger] data[i], f, t1) == goes_left(data[i], f, t2) by {
        assert(data[i].features[f] <= lo || data[i].features[f] >= hi);
    }
    lemma_partition_congruent(data, f, t1, t2);
}

pub proof fn lemma_partition_lens(data: Seq<RecordView>, f: int, t: i64)
    ensures
        part_left(data, f, t).len() + part_right(data, f, t).len() == data.len(),
        part_left(data, f, t).len() <= data.len(),
        part_right(data, f, t).len() <= data.len(),
    decreases data.len(),
{
    if data.len() > 0 {
        lemma_partition_lens(data.drop_last(), f, t);
    }
}

/// Each side of a partition consists of records drawn from `data`.
pub proof fn lemma_partition_members(data: Seq<RecordView>, f: int, t: i64)
    ensures
        forall|i: int| 0 <= i < part_left(data, f, t).len()
            ==> data.contains(#[trigger] part_left(data, f, t)[i]),
        forall|i: int| 0 <= i < part_right(data, f, t).len()
            ==> data.contains(#[trigger] part_right(data, f, t)[i]),
    decreases data.len(),
{
    if data.len() > 0 {
        lemma_partition_members(data.drop_last(), f, t);
        assert forall|i: int| 0 <= i < part_left(data, f, t).len()
            implies data.contains(#[trigger] part_left(data, f, t)[i]) by {
            let l = part_left(data, f, t);
            let lp = part_left(data.drop_last(), f, t);
            if i < lp.len() {
                let j = choose|j: int| 0 <= j < data.drop_last().len()
                    && data.drop_last()[j] == lp[i];
                assert(data[j] == lp[i]);
            } else {
                assert(data[data.len() - 1] == l[i]);
            }
        }
        assert forall|i: int| 0 <= i < part_right(data, f, t).len()
            implies data.contains(#[trigger] part_right(data, f, t)[i]) by {
            let r = part_right(data, f, t);
            let rp = part_right(data.drop_last(), f, t);
            if i < rp.len() {
                let j = choose|j: int| 0 <= j < data.drop_last().len()
                    && data.drop_last()[j] == rp[i];
                assert(data[j] == rp[i]);
            } else {
                assert(data[data.len() - 1] == r[i]);
            }
        }
    }
}

/// Two thresholds that classify every record alike induce the same partition.
pub proof fn lemma_partition_congruent(data: Seq<RecordView>, f: int, t1: i64, t2: i64)
    requires
        forall|i: int| 0 <= i < data.len()
            ==> goes_left(#[trigger] data[i], f, t1) == goes_left(data[i], f, t2),
    ensures
        part_left(data, f, t1) == part_left(data, f, t2),
        part_right(data, f, t1) == part_right(data, f, t2),
    decreases data.len(),
{
    if data.len() > 0 {
        lemma_partition_congruent(data.drop_last(), f, t1, t2);
        assert(data[data.len() - 1] == data.last());
    }
}

/// Splits `data` into the records at or below `t` on feature `f` and the rest.
pub fn partition(data: &Vec<Record>, f: usize, t: i64) -> (r: (Vec<Record>, Vec<Record>))
    requires
        forall|i: int| 0 <= i < data@.len() ==> f < #[trigger] views(data@)[i].features.len(),
    ensures
        views(r.0@) == part_left(views(data@), f as int, t),
        views(r.1@) == part_right(views(data@), f as int, t),
{
    let ghost dv = views(data@);
    let mut left: Vec<Record> = Vec::new();
    let mut right: Vec<Record> = Vec::new();
    let mut i: usize = 0;
    while i < data.len()
        invariant
            0 <= i <= data@.len(),
            dv == views(data@),
            dv.len() == data@.len(),
            forall|k: int| 0 <= k < data@.len() ==> f < #[trigger] views(data@)[k].features.len(),
            views(left@) == part_left(dv.take(i as int), f as int, t),
            views(right@) == part_right(dv.take(i as int), f as int, t),
        decreases data@.len() - i,
    {
        proof {
            assert(dv.take(i + 1).drop_last() =~= dv.take(i as int));
            assert(dv.take(i + 1).last() == dv[i as int]);
            assert(dv[i as int] == data@[i as int]@);
            assert(f < views(data@)[i as int].features.len());
            assert(data@[i as int]@.features == data@[i as int].features@);
        }
        let rec = &data[i];
        if rec.features[f] <= t {
            let c = rec.clone();
            proof {
                assert(views(left@.push(c)) =~= views(left@).push(c@));
                assert(part_left(dv.take(i + 1), f as int, t)
                    =~= part_left(dv.take(i as int), f as int, t).push(dv[i as int]));
            }
            left.push(c);
            proof {
                assert(part_right(dv.take(i + 1), f as int, t)
                    =~= part_right(dv.take(i as int), f as int, t));
            }
        } else {
            let c = rec.clone();
            proof {
                assert(views(right@.push(c)) =~= views(right@).push(c@));
                assert(part_right(dv.take(i + 1), f as int, t)
                    =~= part_right(dv.take(i as int), f as int, t).push(dv[i as int]));
                assert(part_left(dv.take(i + 1), f as int, t)
                    =~= part_left(dv.take(i as int), f as int, t));
            }
            right.push(c);
        }
        i = i + 1;
    }
    proof {
        assert(dv.take(data@.len() as int) =~= dv);
    }
    (left, right)
}

/// All values at or before a position are at most all values at or after it.
pub open spec fn sorted(s: Seq<i64>) -> bool {
    forall|i: int, j: int| 0 <= i <= j < s.len() ==> #[trigger] s[i] <= #[trigger] s[j]
}

/// Insertion sort over the collected feature values.
fn sort_values(v: &mut Vec<i64>)
    ensures
        final(v)@.len() == old(v)@.len(),
        sorted(final(v)@),
        final(v)@.to_multiset() == old(v)@.to_multiset(),
        forall|x: i64| old(v)@.contains(x) ==> final(v)@.contains(x),
        forall|x: i64| final(v)@.contains(x) ==> old(v)@.contains(x),
{
    let ghost ms = old(v)@.to_multiset();
    if v.len() < 2 {
        return ;
    }
    let mut i: usize = 1;
    while i < v.len()
        invariant
            1 <= i <= v@.len(),
            v@.len() == old(v)@.len(),
            v@.to_multiset() == ms,
            ms == old(v)@.to_multiset(),
            sorted(v@.take(i as int)),
        decreases v@.len() - i,
    {
        let mut j: usize = i;
        proof {
            assert forall|a: int, b: int|
                0 <= a <= b <= i && a != j && b != j implies v@[a] <= v@[b] by {
                assert(v@.take(i as int)[a] == v@[a]);
                assert(v@.take(i as int)[b] == v@[b]);
            }
        }
        while j > 0 && v[j - 1] > v[j]
            invariant
                0 <= j <= i < v@.len(),
                v@.len() == old(v)@.len(),
                v@.to_multiset() == ms,
                ms == old(v)@.to_multiset(),
                forall|a: int, b: int|
                    0 <= a <= b <= i && a != j && b != j ==> #[trigger] v@[a] <= #[trigger] v@[b],
                forall|b: int| j < b <= i ==> v@[j as int] <= #[trigger] v@[b],
            decreases j,
        {
            let ghost pre = v@;
            let x = v[j - 1];
            let y = v[j];
            v.set(j - 1, y);
            v.set(j, x);
            proof {
                broadcast use vstd::seq_lib::to_multiset_update;
                broadcast use vstd::seq_lib::to_multiset_contains;
                broadcast use vstd::multiset::group_multiset_axioms;
                broadcast use vstd::multiset::group_multiset_properties;

                let s1 = pre.update(j - 1, y);
                assert(s1.to_multiset() == pre.to_multiset().insert(y).remove(x));
                assert(v@ == s1.update(j as int, x));
                assert(s1[j as int] == y);
                assert(v@.to_multiset() == s1.to_multiset().insert(x).remove(y));
                assert(pre[j - 1] == x);
                assert(pre.contains(x));
                assert(pre.to_multiset().count(x) >= 1);
                assert(v@.to_multiset() =~= pre.to_multiset());
            }
            j = j - 1;
        }
        proof {
            assert forall|a: int, b: int| 0 <= a <= b <= i implies v@[a] <= v@[b] by {
                if a == b {
                } else if b == j {
                    assert(v@[j as int - 1] <= v@[j as int]);
                    if a < j - 1 {
                        assert(v@[a] <= v@[j as int - 1]);
                    }
                } else if a == j {
                    assert(v@[j as int] <= v@[b]);
                }
            }
            assert(sorted(v@.take(i + 1)));
        }
        i = i + 1;
    }
    proof {
        assert(v@.take(v@.len() as int) =~= v@);
        assert forall|x: i64| old(v)@.contains(x) implies v@.contains(x) by {
            broadcast use vstd::seq_lib::to_multiset_contains;

            assert(old(v)@.to_multiset().count(x) > 0);
        }
        assert forall|x: i64| v@.contains(x) implies old(v)@.contains(x) by {
            broadcast use vstd::seq_lib::to_multiset_contains;

            assert(v@.to_multiset().count(x) > 0);
        }
    }
}

/// Collects the values of one feature dimension across a record set.
fn feature_values(data: &Vec<Record>, f: usize) -> (v: Vec<i64>)
    requires
        forall|i: int| 0 <= i < data@.len() ==> f < #[trigger] views(data@)[i].features.len(),
    ensures
        v@.len() == data@.len(),
        forall|i: int| 0 <= i < data@.len() ==> #[trigger] v@[i] == views(data@)[i].features[f as int],
{
    let mut v: Vec<i64> = Vec::new();
    let mut i: usize = 0;
    while i < data.len()
        invariant
            0 <= i <= data@.len(),
            forall|k: int| 0 <= k < data@.len() ==> f < #[trigger] views(data@)[k].features.len(),
            v@.len() == i,
            forall|k: int| 0 <= k < i ==> #[trigger] v@[k] == views(data@)[k].features[f as int],
        decreases data@.len() - i,
    {
        proof {
            assert(views(data@)[i as int] == data@[i as int]@);
            assert(f < views(data@)[i as int].features.len());
        }
        v.push(data[i].features[f]);
        i = i + 1;
    }
    v
}

/// The floor midpoint of `a` and `b`; for `a < b` it separates the two.
fn midpoint(a: i64, b: i64) -> (m: i64)
    requires
        a <= b,
    ensures
        a <= m <= b,
        a < b ==> m < b,
        m == a + (b - a) / 2,
{
    let wide: u128 = ((b as i128) - (a as i128)) as u128;
    let half: u128 = wide / 2;
    let m: i128 = (a as i128) + (half as i128);
    proof {
        assert(i64::MIN <= m <= i64::MAX);
    }
    m as i64
}

/// Exhaustive split search: over every feature and every midpoint between
/// consecutive sorted values of that feature, picks the candidate whose
/// size-weighted child impurity is smallest; on ties the earlier feature and
/// the earlier threshold win (see `split_choice_ok`).  Returns `None` exactly
/// when no threshold on any feature separates the records into two non-empty
/// sides.
pub fn find_best_split(data: &Vec<Record>) -> (r: Option<Split>)
    requires
        data@.len() <= MAX_SPLIT_ROWS,
        data_wf(views(data@), num_features(views(data@))),
    ensures
        match r {
            Some(s) => split_choice_ok(views(data@), s),
            None => no_valid_below(views(data@), num_features(views(data@))),
        },
{
    let ghost dv = views(data@);
    let n = data.len();
    if n == 0 {
        return None;
    }
    let nf = data[0].features.len();
    proof {
        assert(dv[0] == data@[0]@);
        assert(num_features(dv) == nf as int);
    }
    let mut best: Option<Split> = None;
    let mut best_p: u128 = 0;
    let mut best_q: u128 = 1;
    let mut f: usize = 0;
    while f < nf
        invariant
            0 <= f <= nf,
            n == data@.len(),
            1 <= n <= MAX_SPLIT_ROWS,
            dv == views(data@),
            dv.len() == n,
            data_wf(dv, nf as int),
            num_features(dv) == nf as int,
            best matches Some(s) ==> {
                &&& (s.feature_index as int) < f as int
                &&& valid_split(dv, s.feature_index as int, s.threshold)
                &&& best_p as int == score_num(dv, s.feature_index as int, s.threshold)
                &&& best_q as int == score_den(dv, s.feature_index as int, s.threshold)
                &&& optimal_below(dv, s.feature_index as int, s.threshold, f as int)
                &&& strictly_optimal_below(
                    dv,
                    s.feature_index as int,
                    s.threshold,
                    s.feature_index as int,
                )
                &&& first_in_feature(dv, s.feature_index as int, s.threshold)
                &&& midpoint_of_gap(dv, s.feature_index as int, s.threshold)
            },
            best is None ==> no_valid_below(dv, f as int),
        decreases nf - f,
    {
        let mut vals = feature_values(data, f);
        let ghost v0 = vals@;
        sort_values(&mut vals);
        proof {
            assert forall|k: int| 0 <= k < dv.len() implies vals@.contains(
                #[trigger] dv[k].features[f as int],
            ) by {
                assert(v0[k] == dv[k].features[f as int]);
                assert(v0.contains(v0[k]));
            }
            assert forall|k: int| 0 <= k < vals@.len() implies feature_has_value(
                dv,
                f as int,
                #[trigger] vals@[k],
            ) by {
                assert(vals@.contains(vals@[k]));
                assert(v0.contains(vals@[k]));
                let j = choose|j: int| 0 <= j < v0.len() && v0[j] == vals@[k];
                assert(dv[j].features[f as int] == vals@[k]);
            }
            assert forall|t: i64| t < vals@[0] implies !valid_split(dv, f as int, t) by {
                assert forall|k: int| 0 <= k < dv.len() implies !goes_left(
                    #[trigger] dv[k],
                    f as int,
                    t,
                ) by {
                    let x = dv[k].features[f as int];
                    let idx = choose|idx: int| 0 <= idx < vals@.len() && vals@[idx] == x;
                    assert(vals@[0] <= vals@[idx]);
                }
                lemma_part_left_empty(dv, f as int, t);
            }
        }
        let mut i: usize = 1;
        while i < vals.len()
            invariant
                1 <= i <= vals@.len(),
                vals@.len() == n,
                n == data@.len(),
                1 <= n <= MAX_SPLIT_ROWS,
                dv == views(data@),
                dv.len() == n,
                data_wf(dv, nf as int),
                num_features(dv) == nf as int,
                f < nf,
                sorted(vals@),
                forall|k: int|
                    0 <= k < dv.len() ==> vals@.contains(#[trigger] dv[k].features[f as int]),
                best matches Some(s) ==> {
                    &&& (s.feature_index as int) <= f as int
                    &&& valid_split(dv, s.feature_index as int, s.threshold)
                    &&& best_p as int == score_num(dv, s.feature_index as int, s.threshold)
                    &&& best_q as int == score_den(dv, s.feature_index as int, s.threshold)
                    &&& optimal_below(dv, s.feature_index as int, s.threshold, f as int)
                    &&& optimal_on_feature_below(
                        dv,
                        s.feature_index as int,
                        s.threshold,
                        f as int,
                        vals@[i as int - 1],
                    )
                    &&& strictly_optimal_below(
                        dv,
                        s.feature_index as int,
                        s.threshold,
                        s.feature_index as int,
                    )
                    &&& first_in_feature(dv, s.feature_index as int, s.threshold)
                    &&& midpoint_of_gap(dv, s.feature_index as int, s.threshold)
                },
                best is None ==> no_valid_below(dv, f as int) && no_valid_on_feature_below(
                    dv,
                    f as int,
                    vals@[i as int - 1],
                ),
                forall|k: int|
                    0 <= k < vals@.len() ==> feature_has_value(dv, f as int, #[trigger] vals@[k]),
            decreases vals@.len() - i,
        {
            let lo = vals[i - 1];
            let hi = vals[i];
            let m = midpoint(lo, hi);
            proof {
                assert forall|k: int| 0 <= k < dv.len() implies (#[trigger] dv[k].features[f as int]
                    <= lo || dv[k].features[f as int] >= hi) by {
                    let x = dv[k].features[f as int];
                    let idx = choose|idx: int| 0 <= idx < vals@.len() && vals@[idx] == x;
                    if idx <= i - 1 {
                        assert(vals@[idx] <= vals@[i as int - 1]);
                    } else {
                        assert(vals@[i as int] <= vals@[idx]);
                    }
                }
            }
            let ghost old_best = best;
            let (left, right) = partition(data, f, m);
            let nl = left.len();
            let nr = right.len();
            proof {
                lemma_partition_lens(dv, f as int, m);
            }
            if nl > 0 && nr > 0 {
                let scs_l = sum_label_counts(&left);
                let scs_r = sum_label_counts(&right);
                proof {
                    assert(scs_l as int * nr as int + scs_r as int * nl as int
                        <= u128::MAX as int && scs_l as int * nr as int >= 0 && scs_r as int
                        * nl as int >= 0 && nl as int * nr as int <= u128::MAX as int)
                        by (nonlinear_arith)
                        requires
                            scs_l as int <= nl as int * nl as int,
                            scs_r as int <= nr as int * nr as int,
                            nl as int + nr as int == n as int,
                            0 < nl as int,
                            0 < nr as int,
                            n as int <= 0x100_0000;
                }
                let p = scs_l * (nr as u128) + scs_r * (nl as u128);
                let q = (nl as u128) * (nr as u128);
                proof {
                    assert(p as int == score_num(dv, f as int, m));
                    assert(q as int == score_den(dv, f as int, m));
                    assert(valid_split(dv, f as int, m));
                }
                let do_replace: bool = if best.is_none() {
                    true
                } else {
                    proof {
                        let s = best.unwrap();
                        lemma_score_bounds(dv, s.feature_index as int, s.threshold);
                        lemma_score_bounds(dv, f as int, m);
                        assert(p as int * best_q as int <= u128::MAX as int && best_p as int
                            * q as int <= u128::MAX as int) by (nonlinear_arith)
                            requires
                                0 <= p as int <= 2 * n as int * n as int * n as int,
                                0 <= q as int <= n as int * n as int,
                                0 <= best_p as int <= 2 * n as int * n as int * n as int,
                                0 <= best_q as int <= n as int * n as int,
                                n as int <= 0x100_0000;
                    }
                    p * best_q > best_p * q
                };
                if do_replace {
                    proof {
                        if old_best is Some {
                            let s = old_best.unwrap();
                            assert(strictly_better(
                                dv,
                                f as int,
                                m,
                                s.feature_index as int,
                                s.threshold,
                            ));
                        }
                        assert(feature_has_value(dv, f as int, vals@[i as int - 1]));
                        assert(feature_has_value(dv, f as int, vals@[i as int]));
                        assert(gap_midpoint_witness(dv, f as int, m, lo, hi));
                        assert(midpoint_of_gap(dv, f as int, m));
                        assert forall|t2: i64|
                            t2 < m && #[trigger] valid_split(dv, f as int, t2) implies (
                        strictly_better(dv, f as int, m, f as int, t2) || equivalent_thresholds(
                            dv,
                            f as int,
                            t2,
                            m,
                        )) by {
                            if t2 < vals@[i as int - 1] {
                                if old_best is Some {
                                    let s = old_best.unwrap();
                                    lemma_strictly_better_trans(
                                        dv,
                                        f as int,
                                        m,
                                        s.feature_index as int,
                                        s.threshold,
                                        f as int,
                                        t2,
                                    );
                                }
                            } else {
                                lemma_threshold_congruent(dv, f as int, lo, hi, t2, m);
                            }
                        }
                        assert(first_in_feature(dv, f as int, m));
                    }
                    best = Some(Split { feature_index: f, threshold: m });
                    best_p = p;
                    best_q = q;
                }
            }
            proof {
                let ghost cover = vals@[i as int];
                if best is Some {
                    let s = best.unwrap();
                    let sf = s.feature_index as int;
                    let st = s.threshold;
                    // The surviving best is at least as good as the current candidate.
                    assert(valid_split(dv, f as int, m) ==> no_worse(dv, sf, st, f as int, m));
                    // Carry earlier coverage over to the (possibly new) best.
                    if old_best is Some {
                        let os = old_best.unwrap();
                        let of = os.feature_index as int;
                        let ot = os.threshold;
                        if best == old_best {
                        } else {
                            assert(strictly_better(dv, sf, st, of, ot));
                            assert forall|ff: int, tt: i64|
                                0 <= ff < f as int && #[trigger] valid_split(dv, ff, tt)
                                implies strictly_better(dv, sf, st, ff, tt) by {
                                lemma_strictly_better_trans(dv, sf, st, of, ot, ff, tt);
                            }
                            assert forall|tt: i64|
                                tt < vals@[i as int - 1] && #[trigger] valid_split(
                                    dv,
                                    f as int,
                                    tt,
                                ) implies no_worse(dv, sf, st, f as int, tt) by {
                                lemma_strictly_better_trans(dv, sf, st, of, ot, f as int, tt);
                            }
                        }
                    }
                    // Extend feature coverage across the gap `[lo, hi)`.
                    assert forall|tt: i64|
                        tt < cover && #[trigger] valid_split(dv, f as int, tt) implies no_worse(
                        dv,
                        sf,
                        st,
                        f as int,
                        tt,
                    ) by {
                        if tt < vals@[i as int - 1] {
                        } else {
                            lemma_threshold_congruent(dv, f as int, lo, hi, tt, m);
                        }
                    }
                    assert(optimal_on_feature_below(dv, sf, st, f as int, cover));
                } else {
                    assert forall|tt: i64| tt < cover implies !valid_split(dv, f as int, tt) by {
                        if tt < vals@[i as int - 1] {
                        } else {
                            lemma_threshold_congruent(dv, f as int, lo, hi, tt, m);
                        }
                    }
                    assert(no_valid_on_feature_below(dv, f as int, cover));
                }
            }
            i = i + 1;
        }
        proof {
            let last = vals@[i as int - 1];
            assert forall|t: i64| t >= last implies !valid_split(dv, f as int, t) by {
                assert forall|k: int| 0 <= k < dv.len() implies goes_left(
                    #[trigger] dv[k],
                    f as int,
                    t,
                ) by {
                    let x = dv[k].features[f as int];
                    let idx = choose|idx: int| 0 <= idx < vals@.len() && vals@[idx] == x;
                    assert(vals@[idx] <= vals@[i as int - 1]);
                }
                lemma_part_right_empty(dv, f as int, t);
            }
            if best is Some {
                let s = best.unwrap();
                let sf = s.feature_index as int;
                let st = s.threshold;
                assert forall|ff: int, tt: i64|
                    0 <= ff < f as int + 1 && #[trigger] valid_split(dv, ff, tt) implies no_worse(
                    dv,
                    sf,
                    st,
                    ff,
                    tt,
                ) by {
                    if ff == f as int {
                        assert(tt < last);
                    }
                }
                assert(optimal_below(dv, sf, st, f as int + 1));
            } else {
                assert forall|ff: int, tt: i64| 0 <= ff < f as int + 1 implies !valid_split(
                    dv,
                    ff,
                    tt,
                ) by {
                    if ff == f as int {
                        assert(!valid_split(dv, f as int, tt));
                    }
                }
                assert(no_valid_below(dv, f as int + 1));
            }
        }
        f = f + 1;
    }
    best
}

} // verus!

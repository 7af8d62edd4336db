use vstd::prelude::*;

use crate::record::{labels_of, views, Record};

verus! {

/// Number of occurrences of `v` in `s`.
pub open spec fn count_in(s: Seq<usize>, v: usize) -> nat
    decreases s.len(),
{
    if s.len() == 0 {
        0
    } else {
        count_in(s.drop_last(), v) + if s.last() == v { 1nat } else { 0nat }
    }
}

/// Sum, over the first `k` positions of `s`, of the count within all of `s`
/// of the label standing at that position.  Taken to the end (`k == s.len()`)
/// this equals the sum of the squared label counts, since each label with
/// count `c` contributes `c` at each of its `c` positions.
pub open spec fn self_count_sum(s: Seq<usize>, k: int) -> nat
    decreases k,
{
    if k <= 0 {
        0
    } else {
        self_count_sum(s, k - 1) + count_in(s, s[k - 1])
    }
}

/// Sum of the squared label counts of the whole sequence.
pub open spec fn sq_count_sum(s: Seq<usize>) -> nat {
    self_count_sum(s, s.len() as int)
}

/// Numerator of the Gini impurity of a label sequence, over `gini_den`:
/// `n^2` minus the sum of the squared label counts.
pub open spec fn gini_num(s: Seq<usize>) -> int {
    s.len() * s.len() - sq_count_sum(s)
}

/// Denominator of the Gini impurity: `n^2`, or 1 for the empty sequence,
/// whose impurity is 0 by convention.
pub open spec fn gini_den(s: Seq<usize>) -> int {
    if s.len() == 0 {
        1
    } else {
        s.len() * s.len() as int
    }
}

pub proof fn lemma_count_le_len(s: Seq<usize>, v: usize)
    ensures
        count_in(s, v) <= s.len(),
    decreases s.len(),
{
    if s.len() > 0 {
        lemma_count_le_len(s.drop_last(), v);
    }
}

pub proof fn lemma_count_pos_contains(s: Seq<usize>, v: usize)
    requires
        count_in(s, v) > 0,
    ensures
        s.contains(v),
    decreases s.len(),
{
    if s.len() > 0 {
        if s.last() == v {
            assert(s[s.len() - 1] == v);
        } else {
            lemma_count_pos_contains(s.drop_last(), v);
            let i = choose|i: int| 0 <= i < s.drop_last().len() && s.drop_last()[i] == v;
            assert(s[i] == v);
        }
    }
}

pub proof fn lemma_self_count_sum_le(s: Seq<usize>, k: int)
    requires
        0 <= k <= s.len(),
    ensures
        self_count_sum(s, k) <= k * s.len(),
    decreases k,
{
    if k > 0 {
        lemma_self_count_sum_le(s, k - 1);
        lemma_count_le_len(s, s[k - 1]);
        assert((k - 1) * s.len() + s.len() == k * s.len()) by (nonlinear_arith);
    }
}

/// Counts how many records carry the label `v`.
pub fn count_label(data: &Vec<Record>, v: usize) -> (c: usize)
    ensures
        c as nat == count_in(labels_of(views(data@)), v),
        c <= data@.len(),
{
    let ghost s = labels_of(views(data@));
    let mut c: usize = 0;
    let mut i: usize = 0;
    while i < data.len()
        invariant
            0 <= i <= data@.len(),
            s == labels_of(views(data@)),
            s.len() == data@.len(),
            c as nat == count_in(s.take(i as int), v),
            c <= i,
        decreases data@.len() - i,
    {
        proof {
            assert(s.take(i + 1).drop_last() =~= s.take(i as int));
            assert(s.take(i + 1).last() == data@[i as int].label);
        }
        if data[i].label == v {
            c = c + 1;
        }
        i = i + 1;
    }
    proof {
        assert(s.take(data@.len() as int) =~= s);
    }
    c
}

/// Sum of squared label counts of a record set, computed exactly.
pub fn sum_label_counts(data: &Vec<Record>) -> (r: u128)
    ensures
        r as nat == sq_count_sum(labels_of(views(data@))),
        r as nat <= data@.len() * data@.len(),
{
    let ghost s = labels_of(views(data@));
    let n = data.len();
    let mut acc: u128 = 0;
    let mut i: usize = 0;
    while i < n
        invariant
            0 <= i <= n,
            n == data@.len(),
            s == labels_of(views(data@)),
            s.len() == n,
            acc as nat == self_count_sum(s, i as int),
            acc as nat <= i as nat * n as nat,
        decreases n - i,
    {
        let c = count_label(data, data[i].label);
        proof {
            assert(s[i as int] == data@[i as int].label);
            lemma_count_le_len(s, data@[i as int].label);
            assert(i as nat * n as nat + n as nat == (i + 1) as nat * n as nat)
                by (nonlinear_arith);
            assert((i + 1) as nat * n as nat <= n as nat * n as nat) by (nonlinear_arith)
                requires i as nat + 1 <= n as nat;
            assert(n as nat * n as nat <= u128::MAX as nat) by (nonlinear_arith)
                requires n as nat <= 0xFFFF_FFFF_FFFF_FFFFnat;
        }
        acc = acc + (c as u128);
        i = i + 1;
    }
    acc
}

/// Gini impurity of a record set, as an exact fraction `(numerator, denominator)`.
/// The empty set has impurity 0; a label-pure set has impurity 0; in general the
/// value is `1 - sum((count_i / n)^2)`.
pub fn gini_impurity(data: &Vec<Record>) -> (r: (u128, u128))
    ensures
        r.0 as int == gini_num(labels_of(views(data@))),
        r.1 as int == gini_den(labels_of(views(data@))),
{
    let ghost s = labels_of(views(data@));
    let n = data.len();
    if n == 0 {
        proof {
            assert(s.len() == 0);
            assert(self_count_sum(s, 0) == 0);
            assert(s.len() * s.len() == 0) by (nonlinear_arith)
                requires s.len() == 0;
            assert(gini_num(s) == 0);
            assert(gini_den(s) == 1);
        }
        return (0, 1);
    }
    let scs = sum_label_counts(data);
    proof {
        assert(s.len() == n as nat);
        assert(n as nat * n as nat <= u128::MAX as nat) by (nonlinear_arith)
            requires n as nat <= 0xFFFF_FFFF_FFFF_FFFFnat;
    }
    let sq: u128 = (n as u128) * (n as u128);
    (sq - scs, sq)
}

/// Impurity of a label-pure set is 0.
pub proof fn lemma_gini_pure(s: Seq<usize>)
    requires
        forall|i: int| 0 <= i < s.len() ==> #[trigger] s[i] == s[0],
    ensures
        gini_num(s) == 0,
{
    if s.len() > 0 {
        lemma_count_all_same(s, s[0]);
        lemma_self_count_sum_const(s, s.len() as nat, s.len() as int);
        assert(sq_count_sum(s) == s.len() * s.len()) by (nonlinear_arith)
            requires sq_count_sum(s) == s.len() as int * s.len() as nat;
    }
}

pub proof fn lemma_count_all_same(s: Seq<usize>, v: usize)
    requires
        forall|i: int| 0 <= i < s.len() ==> #[trigger] s[i] == v,
    ensures
        count_in(s, v) == s.len(),
    decreases s.len(),
{
    if s.len() > 0 {
        lemma_count_all_same(s.drop_last(), v);
        assert(s.last() == s[s.len() - 1]);
    }
}

/// If the count of the label at every position is `m`, the first `k` positions
/// contribute `k * m` to the self-count sum.
proof fn lemma_self_count_sum_const(s: Seq<usize>, m: nat, k: int)
    requires
        0 <= k <= s.len(),
        forall|i: int| 0 <= i < s.len() ==> count_in(s, #[trigger] s[i]) == m,
    ensures
        self_count_sum(s, k) == k * m,
    decreases k,
{
    if k <= 0 {
        assert(self_count_sum(s, k) == 0);
        assert(k * m == 0) by (nonlinear_arith)
            requires k == 0;
    } else {
        lemma_self_count_sum_const(s, m, k - 1);
        assert(count_in(s, s[k - 1]) == m);
        assert(self_count_sum(s, k) == (k - 1) * m + m);
        assert((k - 1) * m + m == k * m) by (nonlinear_arith);
    }
}

pub proof fn lemma_count_concat(a: Seq<usize>, b: Seq<usize>, v: usize)
    ensures
        count_in(a + b, v) == count_in(a, v) + count_in(b, v),
    decreases b.len(),
{
    if b.len() == 0 {
        assert(a + b =~= a);
    } else {
        lemma_count_concat(a, b.drop_last(), v);
        assert((a + b).drop_last() =~= a + b.drop_last());
        assert((a + b).last() == b.last());
    }
}

/// Dropping the last element relates the partial self-count sums: each of the
/// first `k` positions loses one occurrence exactly when it carries the
/// dropped label.
proof fn lemma_scs_partial_drop_last(s: Seq<usize>, k: int)
    requires
        s.len() > 0,
        0 <= k <= s.len() - 1,
    ensures
        self_count_sum(s, k) == self_count_sum(s.drop_last(), k) + count_in(s.take(k), s.last()),
    decreases k,
{
    if k > 0 {
        lemma_scs_partial_drop_last(s, k - 1);
        assert(s.drop_last()[k - 1] == s[k - 1]);
        assert(count_in(s, s[k - 1]) == count_in(s.drop_last(), s[k - 1]) + if s.last() == s[k - 1] {
            1nat
        } else {
            0nat
        });
        assert(s.take(k).drop_last() =~= s.take(k - 1));
        assert(s.take(k).last() == s[k - 1]);
    } else {
        assert(count_in(s.take(0), s.last()) == 0);
    }
}

/// The sum of squared counts grows by `2c + 1` when an element whose label
/// already occurs `c` times is appended.
proof fn lemma_scs_drop_last(s: Seq<usize>)
    requires
        s.len() > 0,
    ensures
        sq_count_sum(s) == sq_count_sum(s.drop_last()) + 2 * count_in(s.drop_last(), s.last()) + 1,
{
    let n = s.len() as int;
    lemma_scs_partial_drop_last(s, n - 1);
    assert(s.take(n - 1) =~= s.drop_last());
    assert(self_count_sum(s, n) == self_count_sum(s, n - 1) + count_in(s, s[n - 1]));
    assert(s.last() == s[n - 1]);
    assert(count_in(s, s.last()) == count_in(s.drop_last(), s.last()) + 1);
}

/// The elements of `s` whose label differs from `v`, in order.
pub open spec fn without_label(s: Seq<usize>, v: usize) -> Seq<usize>
    decreases s.len(),
{
    if s.len() == 0 {
        Seq::empty()
    } else {
        without_label(s.drop_last(), v) + if s.last() == v {
            Seq::empty()
        } else {
            seq![s.last()]
        }
    }
}

proof fn lemma_without_label_count(s: Seq<usize>, v: usize, w: usize)
    ensures
        count_in(without_label(s, v), w) == if w == v {
            0nat
        } else {
            count_in(s, w)
        },
    decreases s.len(),
{
    if s.len() > 0 {
        lemma_without_label_count(s.drop_last(), v, w);
        if s.last() == v {
            assert(without_label(s, v) =~= without_label(s.drop_last(), v));
        } else {
            let x = s.last();
            lemma_count_concat(without_label(s.drop_last(), v), seq![x], w);
            assert(seq![x].drop_last() =~= Seq::<usize>::empty());
            assert(count_in(Seq::<usize>::empty(), w) == 0);
            assert(count_in(seq![x], w) == if x == w {
                1nat
            } else {
                0nat
            });
            assert(without_label(s, v) == without_label(s.drop_last(), v) + seq![x]);
        }
    }
}

/// Removing every occurrence of one label removes exactly its squared count.
proof fn lemma_scs_without_label(s: Seq<usize>, v: usize)
    ensures
        sq_count_sum(s) == sq_count_sum(without_label(s, v)) + count_in(s, v) * count_in(s, v),
    decreases s.len(),
{
    if s.len() == 0 {
        assert(sq_count_sum(s) == 0);
        assert(sq_count_sum(without_label(s, v)) == 0);
        assert(count_in(s, v) == 0);
        assert(count_in(s, v) * count_in(s, v) == 0) by (nonlinear_arith)
            requires count_in(s, v) == 0;
    } else {
        let sp = s.drop_last();
        let x = s.last();
        lemma_scs_without_label(sp, v);
        lemma_scs_drop_last(s);
        assert(sq_count_sum(s) == sq_count_sum(sp) + 2 * count_in(sp, x) + 1);
        assert(sq_count_sum(sp) == sq_count_sum(without_label(sp, v)) + count_in(sp, v) * count_in(
            sp,
            v,
        ));
        if x == v {
            assert(without_label(s, v) =~= without_label(sp, v));
            assert(count_in(s, v) == count_in(sp, v) + 1);
            assert((count_in(sp, v) + 1) * (count_in(sp, v) + 1) == count_in(sp, v) * count_in(
                sp,
                v,
            ) + 2 * count_in(sp, v) + 1) by (nonlinear_arith);
        } else {
            let fs = without_label(s, v);
            let fsp = without_label(sp, v);
            assert(fs == fsp + seq![x]);
            assert(fs.len() == fsp.len() + 1);
            assert(fs.drop_last() =~= fsp);
            assert(fs.last() == x);
            lemma_scs_drop_last(fs);
            assert(sq_count_sum(fs) == sq_count_sum(fsp) + 2 * count_in(fsp, x) + 1);
            lemma_without_label_count(sp, v, x);
            assert(count_in(fsp, x) == count_in(sp, x));
            assert(count_in(s, v) == count_in(sp, v));
        }
    }
}

/// The distinct labels of `s`, each once, in first-appearance order of the
/// underlying scan.
pub open spec fn distinct_labels(s: Seq<usize>) -> Seq<usize>
    decreases s.len(),
{
    if s.len() == 0 {
        Seq::empty()
    } else {
        distinct_labels(s.drop_last()) + if count_in(s.drop_last(), s.last()) > 0 {
            Seq::empty()
        } else {
            seq![s.last()]
        }
    }
}

pub proof fn lemma_distinct_labels_props(s: Seq<usize>)
    ensures
        forall|v: usize| distinct_labels(s).contains(v) <==> count_in(s, v) > 0,
        forall|i: int, j: int|
            0 <= i < j < distinct_labels(s).len() ==> distinct_labels(s)[i] != distinct_labels(
                s,
            )[j],
    decreases s.len(),
{
    if s.len() > 0 {
        let sp = s.drop_last();
        let x = s.last();
        lemma_distinct_labels_props(sp);
        let d = distinct_labels(s);
        let dp = distinct_labels(sp);
        assert forall|v: usize| d.contains(v) implies count_in(s, v) > 0 by {
            let i = choose|i: int| 0 <= i < d.len() && d[i] == v;
            if i < dp.len() {
                assert(dp[i] == v);
                assert(dp.contains(v));
            }
        }
        assert forall|v: usize| count_in(s, v) > 0 implies d.contains(v) by {
            if count_in(sp, v) > 0 {
                assert(dp.contains(v));
                let i = choose|i: int| 0 <= i < dp.len() && dp[i] == v;
                assert(d[i] == v);
            } else {
                assert(v == x);
                assert(d[d.len() - 1] == v);
            }
        }
        assert forall|i: int, j: int| 0 <= i < j < d.len() implies d[i] != d[j] by {
            if j < dp.len() {
                assert(dp[i] == d[i] && dp[j] == d[j]);
            } else if j == dp.len() && d.len() == dp.len() + 1 {
                assert(d[j] == x);
                assert(count_in(sp, x) == 0);
                assert(dp[i] == d[i]);
                if dp.contains(d[i]) {
                }
            }
        }
    }
}

/// Sum of squared counts of `s`, taken over an explicit list of labels.
pub open spec fn ssq_over(labels: Seq<usize>, s: Seq<usize>) -> int
    decreases labels.len(),
{
    if labels.len() == 0 {
        0
    } else {
        ssq_over(labels.drop_last(), s) + count_in(s, labels.last()) * count_in(s, labels.last())
    }
}

/// Over a duplicate-free list holding every label of `s`, the listed squared
/// counts sum to the full squared-count sum.
pub proof fn lemma_ssq_over_complete(labels: Seq<usize>, s: Seq<usize>)
    requires
        forall|i: int, j: int| 0 <= i < j < labels.len() ==> labels[i] != labels[j],
        forall|v: usize| count_in(s, v) > 0 ==> labels.contains(v),
    ensures
        ssq_over(labels, s) == sq_count_sum(s),
    decreases labels.len(),
{
    if labels.len() == 0 {
        if s.len() > 0 {
            lemma_count_positive_at_head(s);
            assert(labels.contains(s[0]));
            assert(false);
        }
        assert(sq_count_sum(s) == 0);
    } else {
        let v = labels.last();
        let lp = labels.drop_last();
        let sp = without_label(s, v);
        lemma_scs_without_label(s, v);
        assert forall|w: usize| count_in(sp, w) > 0 implies lp.contains(w) by {
            lemma_without_label_count(s, v, w);
            assert(w != v && count_in(s, w) > 0);
            assert(labels.contains(w));
            let i = choose|i: int| 0 <= i < labels.len() && labels[i] == w;
            assert(i < labels.len() - 1);
            assert(lp[i] == w);
        }
        lemma_ssq_over_complete(lp, sp);
        assert forall|w: usize| #[trigger] count_in(sp, w) == if w == v {
            0nat
        } else {
            count_in(s, w)
        } by {
            lemma_without_label_count(s, v, w);
        }
        assert(ssq_over(lp, sp) == ssq_over(lp, s)) by {
            lemma_ssq_over_lp_congruent(lp, sp, s, v);
        }
    }
}

/// Counts agree on every label a list mentions, so the listed squared counts
/// agree; used where the lists avoid one removed label.
proof fn lemma_ssq_over_lp_congruent(labels: Seq<usize>, s1: Seq<usize>, s2: Seq<usize>, v: usize)
    requires
        forall|i: int| 0 <= i < labels.len() ==> labels[i] != v,
        forall|w: usize| w != v ==> #[trigger] count_in(s1, w) == count_in(s2, w),
    ensures
        ssq_over(labels, s1) == ssq_over(labels, s2),
    decreases labels.len(),
{
    if labels.len() > 0 {
        lemma_ssq_over_lp_congruent(labels.drop_last(), s1, s2, v);
        assert(labels[labels.len() - 1] != v);
    }
}

proof fn lemma_count_positive_at_head(s: Seq<usize>)
    requires
        s.len() > 0,
    ensures
        count_in(s, s[0]) > 0,
    decreases s.len(),
{
    if s.len() == 1 {
        assert(s.last() == s[0]);
    } else {
        assert(s.drop_last()[0] == s[0]);
        lemma_count_positive_at_head(s.drop_last());
    }
}

/// Impurity of a perfectly balanced set is `1 - 1/k`: if the set splits into
/// classes of equal count `m` over `k` classes, the impurity fraction equals
/// `(k - 1) / k`.
pub proof fn lemma_gini_balanced(s: Seq<usize>, m: nat, k: nat)
    requires
        s.len() > 0,
        s.len() == k * m,
        forall|i: int| 0 <= i < s.len() ==> count_in(s, #[trigger] s[i]) == m,
    ensures
        gini_num(s) * k == gini_den(s) * (k - 1),
{
    let n = s.len() as int;
    lemma_self_count_sum_const(s, m, n);
    assert(sq_count_sum(s) == n * m);
    assert((n * n - n * m) * k == n * n * (k - 1)) by (nonlinear_arith)
        requires n == k * m && n > 0;
}

} // verus!

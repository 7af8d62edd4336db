use vstd::prelude::*;

use crate::metrics::{count_in, lemma_count_all_same, lemma_count_le_len, lemma_count_pos_contains};
use crate::record::{data_wf, labels_of, num_features, views, Record, RecordView};
use crate::metrics::{sq_count_sum, sum_label_counts};
use crate::split::{
    find_best_split, goes_left, improves, lemma_no_improvement_propagates, lemma_partition_lens,
    lemma_partition_members, partition, part_left, part_right, score_den, score_num,
    split_choice_ok, valid_split, Split,
};
use crate::MAX_SPLIT_ROWS;

verus! {

/// A node of a trained decision tree: either a terminal class prediction or a
/// binary threshold test with two children.
#[derive(Debug)]
pub enum Node {
    Leaf { class: usize },
    Decision { split: Split, left: Box<Node>, right: Box<Node> },
}

/// Every decision node tests a feature index below `nf`.
pub open spec fn node_wf(n: Node, nf: int) -> bool
    decreases n,
{
    match n {
        Node::Leaf { .. } => true,
        Node::Decision { split, left, right } => {
            &&& (split.feature_index as int) < nf
            &&& node_wf(*left, nf)
            &&& node_wf(*right, nf)
        },
    }
}

/// Height of a node: a leaf counts 0, a decision node one more than its
/// taller child.
pub open spec fn node_height(n: Node) -> nat
    decreases n,
{
    match n {
        Node::Leaf { .. } => 0,
        Node::Decision { left, right, .. } => {
            1 + if node_height(*left) >= node_height(*right) {
                node_height(*left)
            } else {
                node_height(*right)
            }
        },
    }
}

/// The class a node assigns to a record: follow the left child when the
/// tested feature is at or below the threshold, the right child otherwise.
pub open spec fn spec_traverse(n: Node, r: RecordView) -> usize
    decreases n,
{
    match n {
        Node::Leaf { class } => class,
        Node::Decision { split, left, right } => {
            if goes_left(r, split.feature_index as int, split.threshold) {
                spec_traverse(*left, r)
            } else {
                spec_traverse(*right, r)
            }
        },
    }
}

/// `r` is a most frequent label of `s`, and the smallest such label.
pub open spec fn is_majority(s: Seq<usize>, r: usize) -> bool {
    &&& count_in(s, r) > 0
    &&& forall|v: usize| #[trigger] count_in(s, v) <= count_in(s, r)
    &&& forall|v: usize| #[trigger] count_in(s, v) == count_in(s, r) ==> r <= v
}

/// All labels equal the first one.
pub open spec fn all_same(s: Seq<usize>) -> bool {
    forall|i: int| 0 <= i < s.len() ==> #[trigger] s[i] == s[0]
}

/// The majority label of a sequence is unique.
pub proof fn lemma_majority_unique(s: Seq<usize>, a: usize, b: usize)
    requires
        is_majority(s, a),
        is_majority(s, b),
    ensures
        a == b,
{
    assert(count_in(s, a) <= count_in(s, b));
    assert(count_in(s, b) <= count_in(s, a));
}

/// In a label-pure sequence the first label is the majority label.
pub proof fn lemma_pure_majority(s: Seq<usize>)
    requires
        s.len() > 0,
        all_same(s),
    ensures
        is_majority(s, s[0]),
{
    lemma_count_all_same(s, s[0]);
    assert forall|v: usize| #[trigger] count_in(s, v) <= count_in(s, s[0]) by {
        lemma_count_le_len(s, v);
    }
    assert forall|v: usize| #[trigger] count_in(s, v) == count_in(s, s[0]) implies s[0] <= v by {
        lemma_count_pos_contains(s, v);
        let i = choose|i: int| 0 <= i < s.len() && s[i] == v;
        assert(s[i] == s[0]);
    }
}

/// Smallest most-frequent vote: ties between equally frequent labels resolve
/// to the lowest label id; an empty ballot yields the default label 0.
pub fn majority_vote(votes: &Vec<usize>) -> (r: usize)
    ensures
        votes@.len() == 0 ==> r == 0,
        votes@.len() > 0 ==> is_majority(votes@, r),
{
    let mut best_label: usize = 0;
    let mut best_count: usize = 0;
    let mut i: usize = 0;
    while i < votes.len()
        invariant
            0 <= i <= votes@.len(),
            i > 0 ==> {
                &&& best_count as nat == count_in(votes@, best_label)
                &&& best_count > 0
                &&& forall|j: int|
                    0 <= j < i ==> count_in(votes@, #[trigger] votes@[j]) <= best_count as nat
                &&& forall|j: int|
                    0 <= j < i && count_in(votes@, #[trigger] votes@[j]) == best_count as nat
                        ==> best_label <= votes@[j]
            },
            i == 0 ==> best_count == 0 && best_label == 0,
        decreases votes@.len() - i,
    {
        let v = votes[i];
        let c = count_vote(votes, v);
        proof {
            lemma_count_positive_at(votes@, i as int);
        }
        if c > best_count || (c == best_count && v < best_label) {
            best_label = v;
            best_count = c;
        }
        i = i + 1;
    }
    proof {
        if votes@.len() > 0 {
            assert forall|v: usize| #[trigger] count_in(votes@, v) <= count_in(
                votes@,
                best_label,
            ) by {
                if count_in(votes@, v) > 0 {
                    lemma_count_pos_contains(votes@, v);
                    let j = choose|j: int| 0 <= j < votes@.len() && votes@[j] == v;
                    assert(count_in(votes@, votes@[j]) <= best_count as nat);
                }
            }
            assert forall|v: usize| #[trigger] count_in(votes@, v) == count_in(votes@, best_label)
                implies best_label <= v by {
                lemma_count_pos_contains(votes@, v);
                let j = choose|j: int| 0 <= j < votes@.len() && votes@[j] == v;
                assert(count_in(votes@, votes@[j]) == best_count as nat);
            }
        }
    }
    best_label
}

/// The label at a position occurs at least once.
proof fn lemma_count_positive_at(s: Seq<usize>, i: int)
    requires
        0 <= i < s.len(),
    ensures
        count_in(s, s[i]) > 0,
    decreases s.len(),
{
    if i == s.len() - 1 {
        assert(s.last() == s[i]);
    } else {
        lemma_count_positive_at(s.drop_last(), i);
    }
}

/// Counts occurrences of `v` in a vote list.
fn count_vote(votes: &Vec<usize>, v: usize) -> (c: usize)
    ensures
        c as nat == count_in(votes@, v),
        c <= votes@.len(),
{
    let mut c: usize = 0;
    let mut i: usize = 0;
    while i < votes.len()
        invariant
            0 <= i <= votes@.len(),
            c as nat == count_in(votes@.take(i as int), v),
            c <= i,
        decreases votes@.len() - i,
    {
        proof {
            assert(votes@.take(i + 1).drop_last() =~= votes@.take(i as int));
            assert(votes@.take(i + 1).last() == votes@[i as int]);
        }
        if votes[i] == v {
            c = c + 1;
        }
        i = i + 1;
    }
    proof {
        assert(votes@.take(votes@.len() as int) =~= votes@);
    }
    c
}

/// The most frequent label of a record set, lowest label id on ties; label 0
/// for an empty set.
pub fn majority_class(data: &Vec<Record>) -> (r: usize)
    ensures
        data@.len() == 0 ==> r == 0,
        data@.len() > 0 ==> is_majority(labels_of(views(data@)), r),
{
    let ghost s = labels_of(views(data@));
    let mut lbls: Vec<usize> = Vec::new();
    let mut i: usize = 0;
    while i < data.len()
        invariant
            0 <= i <= data@.len(),
            s == labels_of(views(data@)),
            s.len() == data@.len(),
            lbls@ == s.take(i as int),
        decreases data@.len() - i,
    {
        proof {
            assert(s.take(i as int).push(s[i as int]) =~= s.take(i + 1));
            assert(s[i as int] == data@[i as int].label);
        }
        lbls.push(data[i].label);
        i = i + 1;
    }
    proof {
        assert(s.take(data@.len() as int) =~= s);
    }
    majority_vote(&lbls)
}

/// Whether every record carries the same label (an empty set counts as pure).
pub fn is_pure(data: &Vec<Record>) -> (r: bool)
    ensures
        r == all_same(labels_of(views(data@))),
{
    let ghost s = labels_of(views(data@));
    if data.len() == 0 {
        return true;
    }
    let first = data[0].label;
    proof {
        assert(s[0] == data@[0].label);
    }
    let mut i: usize = 0;
    while i < data.len()
        invariant
            0 <= i <= data@.len(),
            s == labels_of(views(data@)),
            s.len() == data@.len(),
            s.len() > 0,
            first == s[0],
            forall|j: int| 0 <= j < i ==> #[trigger] s[j] == s[0],
        decreases data@.len() - i,
    {
        proof {
            assert(s[i as int] == data@[i as int].label);
        }
        if data[i].label != first {
            proof {
                assert(s[i as int] != s[0]);
            }
            return false;
        }
        i = i + 1;
    }
    true
}

/// `node` is a terminal that stores the majority label of `data` (the
/// smallest most-frequent label, or label 0 when `data` is empty).
pub open spec fn leaf_of_majority(node: Node, data: Seq<RecordView>) -> bool {
    &&& node is Leaf
    &&& (data.len() == 0 ==> node == (Node::Leaf { class: 0 }))
    &&& (data.len() > 0 ==> (node matches Node::Leaf { class } && is_majority(
        labels_of(data),
        class,
    )))
}

/// The recursive induction rule: a majority leaf exactly when the subset is
/// label-pure (or empty), the depth budget is spent, the subset is smaller
/// than `min_samples`, or no valid split strictly reduces the impurity;
/// otherwise a decision node whose split is the one the exhaustive search
/// selects, strictly reducing the impurity, and whose children are built,
/// one depth lower, from the two partition halves.
pub open spec fn built_from(
    data: Seq<RecordView>,
    depth: usize,
    min_samples: usize,
    node: Node,
) -> bool
    decreases node,
{
    if all_same(labels_of(data)) || depth == 0 || data.len() < min_samples {
        leaf_of_majority(node, data)
    } else {
        match node {
            Node::Leaf { .. } => {
                &&& leaf_of_majority(node, data)
                &&& forall|f: int, t: i64|
                    0 <= f < num_features(data) && #[trigger] valid_split(data, f, t)
                        ==> !improves(data, f, t)
            },
            Node::Decision { split, left, right } => {
                &&& split_choice_ok(data, split)
                &&& improves(data, split.feature_index as int, split.threshold)
                &&& built_from(
                    part_left(data, split.feature_index as int, split.threshold),
                    (depth - 1) as usize,
                    min_samples,
                    *left,
                )
                &&& built_from(
                    part_right(data, split.feature_index as int, split.threshold),
                    (depth - 1) as usize,
                    min_samples,
                    *right,
                )
            },
        }
    }
}

/// What a training run guarantees of the node it produced from `data`:
/// structural soundness, the depth bound, and the induction rule.
pub open spec fn fitted_node(
    node: Node,
    data: Seq<RecordView>,
    depth: usize,
    min_samples: usize,
) -> bool {
    &&& node_wf(node, num_features(data))
    &&& node_height(node) <= depth
    &&& built_from(data, depth, min_samples, node)
}

/// On a label-pure record set the trained node predicts every training record
/// correctly.
pub proof fn lemma_pure_training_accuracy(
    node: Node,
    data: Seq<RecordView>,
    depth: usize,
    min_samples: usize,
    i: int,
)
    requires
        fitted_node(node, data, depth, min_samples),
        all_same(labels_of(data)),
        0 <= i < data.len(),
    ensures
        spec_traverse(node, data[i]) == data[i].label,
{
    let s = labels_of(data);
    lemma_pure_majority(s);
    assert(built_from(data, depth, min_samples, node));
    assert(leaf_of_majority(node, data));
    assert(node is Leaf);
    let c = node->Leaf_class;
    assert(node == (Node::Leaf { class: c }));
    assert(is_majority(s, c));
    lemma_majority_unique(s, c, s[0]);
    assert(s[i] == s[0]);
    assert(s[i] == data[i].label);
}

/// A binary decision tree together with its training hyperparameters.
#[derive(Debug)]
pub struct DecisionTree {
    pub root: Option<Node>,
    pub max_depth: usize,
    pub min_samples_split: usize,
}

/// The prediction of a tree on a record, absent when the tree is untrained.
pub open spec fn spec_predict(t: DecisionTree, r: RecordView) -> Option<usize> {
    match t.root {
        Some(n) => Some(spec_traverse(n, r)),
        None => None,
    }
}

/// The tree's structure is sound for records of `nf` features.
pub open spec fn tree_wf(t: DecisionTree, nf: int) -> bool {
    t.root matches Some(n) ==> node_wf(n, nf)
}

impl DecisionTree {
    /// A fresh, untrained tree with the given hyperparameters.
    pub fn new(max_depth: usize, min_samples_split: usize) -> (t: Self)
        ensures
            t.root is None,
            t.max_depth == max_depth,
            t.min_samples_split == min_samples_split,
    {
        Self { root: None, max_depth, min_samples_split }
    }

    /// Trains the tree on `data`, replacing any previous model.
    pub fn fit(&mut self, data: &Vec<Record>)
        requires
            data@.len() <= MAX_SPLIT_ROWS,
            data_wf(views(data@), num_features(views(data@))),
        ensures
            final(self).max_depth == old(self).max_depth,
            final(self).min_samples_split == old(self).min_samples_split,
            final(self).root matches Some(node) && fitted_node(
                node,
                views(data@),
                old(self).max_depth,
                old(self).min_samples_split,
            ),
    {
        let node = Self::build_tree(data, self.max_depth, self.min_samples_split);
        self.root = Some(node);
    }

    /// The class this tree assigns to `record`, or `None` before training.
    pub fn predict(&self, record: &Record) -> (r: Option<usize>)
        requires
            tree_wf(*self, record@.features.len() as int),
        ensures
            r == spec_predict(*self, record@),
    {
        match &self.root {
            Some(node) => Some(Self::traverse(node, record)),
            None => None,
        }
    }

    /// Walks the tree from `node` down to a leaf.
    fn traverse(node: &Node, record: &Record) -> (c: usize)
        requires
            node_wf(*node, record@.features.len() as int),
        ensures
            c == spec_traverse(*node, record@),
        decreases *node,
    {
        match node {
            Node::Leaf { class } => *class,
            Node::Decision { split, left, right } => {
                if record.features[split.feature_index] <= split.threshold {
                    Self::traverse(left, record)
                } else {
                    Self::traverse(right, record)
                }
            },
        }
    }

    /// Recursive top-down induction: stop at a majority leaf when the subset
    /// is pure, the depth budget is spent, the subset is too small, or no
    /// valid split exists; otherwise partition on the best split and recurse.
    fn build_tree(data: &Vec<Record>, depth: usize, min_samples: usize) -> (node: Node)
        requires
            data@.len() <= MAX_SPLIT_ROWS,
            data_wf(views(data@), num_features(views(data@))),
        ensures
            fitted_node(node, views(data@), depth, min_samples),
        decreases depth,
    {
        let ghost dv = views(data@);
        let pure = is_pure(data);
        if pure || depth == 0 || data.len() < min_samples {
            let class = majority_class(data);
            let leaf = Node::Leaf { class };
            proof {
                if dv.len() == 0 {
                    assert(class == 0);
                }
                assert(leaf_of_majority(leaf, dv));
                assert(built_from(dv, depth, min_samples, leaf));
            }
            return leaf;
        }
        match find_best_split(data) {
            Some(split) => {
                let ghost sf = split.feature_index as int;
                let ghost st = split.threshold;
                proof {
                    lemma_partition_lens(dv, sf, st);
                    lemma_partition_members(dv, sf, st);
                    let nf = num_features(dv);
                    assert forall|k: int| 0 <= k < part_left(dv, sf, st).len()
                        implies #[trigger] part_left(dv, sf, st)[k].features.len() == nf by {
                        let j = choose|j: int|
                            0 <= j < dv.len() && dv[j] == part_left(dv, sf, st)[k];
                        assert(dv[j].features.len() == nf);
                    }
                    assert forall|k: int| 0 <= k < part_right(dv, sf, st).len()
                        implies #[trigger] part_right(dv, sf, st)[k].features.len() == nf by {
                        let j = choose|j: int|
                            0 <= j < dv.len() && dv[j] == part_right(dv, sf, st)[k];
                        assert(dv[j].features.len() == nf);
                    }
                }
                let (left_data, right_data) = partition(data, split.feature_index, split.threshold);
                let scs_p = sum_label_counts(data);
                let scs_l = sum_label_counts(&left_data);
                let scs_r = sum_label_counts(&right_data);
                let nl = left_data.len();
                let nr = right_data.len();
                proof {
                    assert(views(left_data@) == part_left(dv, sf, st));
                    assert(views(right_data@) == part_right(dv, sf, st));
                    assert(nl as int + nr as int == dv.len());
                    assert(scs_l as int * nr as int + scs_r as int * nl as int
                        <= u128::MAX as int && scs_l as int * nr as int >= 0 && scs_r as int
                        * nl as int >= 0 && nl as int * nr as int <= u128::MAX as int)
                        by (nonlinear_arith)
                        requires
                            scs_l as int <= nl as int * nl as int,
                            scs_r as int <= nr as int * nr as int,
                            0 <= nl as int,
                            0 <= nr as int,
                            nl as int + nr as int <= 0x100_0000;
                }
                let p = scs_l * (nr as u128) + scs_r * (nl as u128);
                let q = (nl as u128) * (nr as u128);
                proof {
                    assert(p as int == score_num(dv, sf, st));
                    assert(q as int == score_den(dv, sf, st));
                    assert(scs_p as int == sq_count_sum(labels_of(dv)));
                    assert(p as int * (dv.len() as int) <= u128::MAX as int && scs_p as int * (
                    q as int) <= u128::MAX as int) by (nonlinear_arith)
                        requires
                            0 <= p as int,
                            0 <= q as int,
                            0 <= scs_p as int,
                            p as int == scs_l as int * nr as int + scs_r as int * nl as int,
                            q as int == nl as int * nr as int,
                            scs_l as int <= nl as int * nl as int,
                            scs_r as int <= nr as int * nr as int,
                            scs_p as int <= dv.len() * dv.len(),
                            0 <= nl as int,
                            0 <= nr as int,
                            nl as int + nr as int == dv.len(),
                            dv.len() <= 0x100_0000;
                }
                if p * (data.len() as u128) > scs_p * q {
                    proof {
                        assert(improves(dv, sf, st));
                    }
                    let left_node = Self::build_tree(&left_data, depth - 1, min_samples);
                    let right_node = Self::build_tree(&right_data, depth - 1, min_samples);
                    proof {
                        assert(num_features(views(left_data@)) == num_features(dv));
                        assert(num_features(views(right_data@)) == num_features(dv));
                    }
                    let decision = Node::Decision {
                        split,
                        left: Box::new(left_node),
                        right: Box::new(right_node),
                    };
                    proof {
                        assert(built_from(part_left(dv, sf, st), (depth - 1) as usize, min_samples,
                            left_node));
                        assert(built_from(part_right(dv, sf, st), (depth - 1) as usize,
                            min_samples, right_node));
                        assert(built_from(dv, depth, min_samples, decision));
                    }
                    decision
                } else {
                    // The best split does not reduce the impurity strictly, so
                    // by its optimality no valid split does: stop with a leaf.
                    proof {
                        assert(!improves(dv, sf, st));
                        assert forall|f2: int, t2: i64|
                            0 <= f2 < num_features(dv) && #[trigger] valid_split(dv, f2, t2)
                            implies !improves(dv, f2, t2) by {
                            lemma_no_improvement_propagates(dv, sf, st, f2, t2);
                        }
                    }
                    let class = majority_class(data);
                    let leaf = Node::Leaf { class };
                    proof {
                        assert(dv.len() > 0);
                        assert(leaf_of_majority(leaf, dv));
                        assert(built_from(dv, depth, min_samples, leaf));
                    }
                    leaf
                }
            },
            None => {
                let class = majority_class(data);
                let leaf = Node::Leaf { class };
                proof {
                    assert(dv.len() > 0);
                    assert(leaf_of_majority(leaf, dv));
                    assert(built_from(dv, depth, min_samples, leaf));
                }
                leaf
            },
        }
    }
}

} // verus!

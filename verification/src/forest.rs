use vstd::prelude::*;

use rayon::iter::{IntoParallelIterator, ParallelIterator};

use crate::record::{data_wf, num_features, views, Record, RecordView};
use crate::tree::{
    fitted_node, is_majority, majority_vote, node_height, node_wf, spec_predict, tree_wf,
    DecisionTree,
};
use crate::MAX_SPLIT_ROWS;

verus! {

/// Relies on rand's `Rng::gen_range` over `0..n`: the draw lies inside the
/// half-open range, which is non-empty because `n > 0`.
#[verifier::external_body]
fn random_below(n: usize) -> (r: usize)
    requires
        n > 0,
    ensures
        r < n,
{
    rand::Rng::gen_range(&mut rand::thread_rng(), 0..n)
}

/// Every record of `sample` occurs in `data`.
pub open spec fn resample_of(sample: Seq<RecordView>, data: Seq<RecordView>) -> bool {
    forall|k: int| 0 <= k < sample.len() ==> data.contains(#[trigger] sample[k])
}

/// With-replacement resample: the result has the same length as the input and
/// every element is a copy of some input record.  An empty input yields an
/// empty sample; the random source is never consulted for it.
pub fn bootstrap_sample(data: &Vec<Record>) -> (r: Vec<Record>)
    ensures
        r@.len() == data@.len(),
        resample_of(views(r@), views(data@)),
{
    let n = data.len();
    let mut sample: Vec<Record> = Vec::new();
    let mut i: usize = 0;
    while i < n
        invariant
            0 <= i <= n,
            n == data@.len(),
            sample@.len() == i,
            resample_of(views(sample@), views(data@)),
        decreases n - i,
    {
        let idx = random_below(n);
        let c = data[idx].clone();
        proof {
            assert(c@ == views(data@)[idx as int]);
            assert(views(data@).contains(c@));
            assert(views(sample@.push(c)) =~= views(sample@).push(c@));
        }
        sample.push(c);
        i = i + 1;
    }
    sample
}

/// What ensemble training guarantees of each member tree: it carries the
/// forest's hyperparameters, its structure fits the feature count of the
/// training data and respects the depth bound, and it was fitted, by the
/// tree-induction rule, to some same-size bootstrap resample of the data.
pub open spec fn member_ok(
    t: DecisionTree,
    data: Seq<RecordView>,
    max_depth: usize,
    min_samples_split: usize,
) -> bool {
    &&& t.max_depth == max_depth
    &&& t.min_samples_split == min_samples_split
    &&& t.root matches Some(node) && node_wf(node, num_features(data)) && node_height(node)
        <= max_depth && exists|sv: Seq<RecordView>|
        #[trigger] resample_of(sv, data) && sv.len() == data.len() && fitted_node(
            node,
            sv,
            max_depth,
            min_samples_split,
        )
}

/// Trains one ensemble member on a fresh bootstrap sample.
fn train_member(data: &Vec<Record>, max_depth: usize, min_samples_split: usize) -> (t:
    DecisionTree)
    requires
        data@.len() <= MAX_SPLIT_ROWS,
        data_wf(views(data@), num_features(views(data@))),
    ensures
        member_ok(t, views(data@), max_depth, min_samples_split),
{
    let sample = bootstrap_sample(data);
    proof {
        let dv = views(data@);
        let sv = views(sample@);
        assert forall|k: int| 0 <= k < sv.len() implies #[trigger] sv[k].features.len()
            == num_features(dv) by {
            assert(dv.contains(sv[k]));
            let j = choose|j: int| 0 <= j < dv.len() && dv[j] == sv[k];
            assert(dv[j].features.len() == num_features(dv));
        }
        assert(num_features(sv) == num_features(dv));
        assert(data_wf(sv, num_features(sv)));
    }
    let mut tree = DecisionTree::new(max_depth, min_samples_split);
    tree.fit(&sample);
    proof {
        assert(resample_of(views(sample@), views(data@)));
    }
    tree
}

/// Relies on rayon's parallel iterator `map`/`collect` over a range: the
/// collected vector holds one closure result per slot, in submission order;
/// the closure only calls the verified member trainer.
#[verifier::external_body]
fn train_members_parallel(
    data: &Vec<Record>,
    count: usize,
    max_depth: usize,
    min_samples_split: usize,
) -> (r: Vec<DecisionTree>)
    requires
        data@.len() <= MAX_SPLIT_ROWS,
        data_wf(views(data@), num_features(views(data@))),
    ensures
        r@.len() == count,
        forall|i: int|
            0 <= i < count ==> member_ok(
                #[trigger] r@[i],
                views(data@),
                max_depth,
                min_samples_split,
            ),
{
    (0..count).into_par_iter().map(|_| train_member(data, max_depth, min_samples_split)).collect()
}

/// The sequence of member predictions on a record, skipping untrained members.
pub open spec fn votes_of(trees: Seq<DecisionTree>, r: RecordView) -> Seq<usize>
    decreases trees.len(),
{
    if trees.len() == 0 {
        Seq::empty()
    } else {
        votes_of(trees.drop_last(), r) + match spec_predict(trees.last(), r) {
            Some(c) => seq![c],
            None => Seq::empty(),
        }
    }
}

/// A bootstrap-aggregated ensemble of decision trees with majority-vote
/// prediction.
#[derive(Debug)]
pub struct RandomForest {
    pub trees: Vec<DecisionTree>,
    pub n_trees: usize,
    pub max_depth: usize,
    pub min_samples_split: usize,
}

/// Every member tree is structurally sound for records of `nf` features.
pub open spec fn forest_wf(f: RandomForest, nf: int) -> bool {
    forall|i: int| 0 <= i < f.trees@.len() ==> tree_wf(#[trigger] f.trees@[i], nf)
}

impl RandomForest {
    /// A fresh, untrained forest with the given hyperparameters.
    pub fn new(n_trees: usize, max_depth: usize, min_samples_split: usize) -> (f: Self)
        ensures
            f.trees@.len() == 0,
            f.n_trees == n_trees,
            f.max_depth == max_depth,
            f.min_samples_split == min_samples_split,
    {
        Self { trees: Vec::new(), n_trees, max_depth, min_samples_split }
    }

    /// Trains `n_trees` members, each on an independent bootstrap sample, in
    /// parallel; the new ensemble replaces any previous one.
    pub fn fit(&mut self, data: &Vec<Record>)
        requires
            data@.len() <= MAX_SPLIT_ROWS,
            data_wf(views(data@), num_features(views(data@))),
        ensures
            final(self).n_trees == old(self).n_trees,
            final(self).max_depth == old(self).max_depth,
            final(self).min_samples_split == old(self).min_samples_split,
            final(self).trees@.len() == old(self).n_trees,
            forall|i: int|
                0 <= i < final(self).trees@.len() ==> member_ok(
                    #[trigger] final(self).trees@[i],
                    views(data@),
                    old(self).max_depth,
                    old(self).min_samples_split,
                ),
    {
        let trees = train_members_parallel(data, self.n_trees, self.max_depth,
            self.min_samples_split);
        self.trees = trees;
    }

    /// Majority vote across the member trees: `None` exactly when no member
    /// casts a vote; otherwise the most frequent vote, lowest label on ties.
    pub fn predict(&self, record: &Record) -> (r: Option<usize>)
        requires
            forest_wf(*self, record@.features.len() as int),
        ensures
            r is None <==> votes_of(self.trees@, record@).len() == 0,
            r matches Some(l) ==> is_majority(votes_of(self.trees@, record@), l),
    {
        let ghost ts = self.trees@;
        let mut votes: Vec<usize> = Vec::new();
        let mut i: usize = 0;
        while i < self.trees.len()
            invariant
                0 <= i <= ts.len(),
                ts == self.trees@,
                forest_wf(*self, record@.features.len() as int),
                votes@ == votes_of(ts.take(i as int), record@),
            decreases ts.len() - i,
        {
            proof {
                assert(ts.take(i + 1).drop_last() =~= ts.take(i as int));
                assert(ts.take(i + 1).last() == ts[i as int]);
                assert(tree_wf(ts[i as int], record@.features.len() as int));
            }
            match self.trees[i].predict(record) {
                Some(l) => {
                    proof {
                        assert(votes_of(ts.take(i + 1), record@) =~= votes@.push(l));
                    }
                    votes.push(l);
                },
                None => {
                    proof {
                        assert(votes_of(ts.take(i + 1), record@) =~= votes@);
                    }
                },
            }
            i = i + 1;
        }
        proof {
            assert(ts.take(ts.len() as int) =~= ts);
        }
        if votes.len() == 0 {
            None
        } else {
            Some(majority_vote(&votes))
        }
    }
}

} // verus!

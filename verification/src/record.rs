use vstd::prelude::*;

verus! {

/// A single observation: fixed-point feature values and an integer class label.
#[derive(Debug)]
pub struct Record {
    pub features: Vec<i64>,
    pub label: usize,
}

/// The mathematical model of a record: its feature sequence and its label.
#[verifier::ext_equal]
pub struct RecordView {
    pub features: Seq<i64>,
    pub label: usize,
}

impl View for Record {
    type V = RecordView;

    open spec fn view(&self) -> RecordView {
        RecordView { features: self.features@, label: self.label }
    }
}

impl Clone for Record {
    fn clone(&self) -> (r: Self)
        ensures
            r@ == self@,
    {
        let mut fs: Vec<i64> = Vec::new();
        let mut i: usize = 0;
        while i < self.features.len()
            invariant
                0 <= i <= self.features@.len(),
                fs@ == self.features@.take(i as int),
            decreases self.features@.len() - i,
        {
            fs.push(self.features[i]);
            proof {
                assert(self.features@.take(i as int).push(self.features@[i as int])
                    =~= self.features@.take(i + 1));
            }
            i = i + 1;
        }
        proof {
            assert(fs@ =~= self.features@);
        }
        Record { features: fs, label: self.label }
    }
}

/// The model of a record set: the sequence of record views.
pub open spec fn views(data: Seq<Record>) -> Seq<RecordView> {
    data.map_values(|r: Record| r@)
}

/// Every record carries exactly `nf` feature values.
pub open spec fn data_wf(data: Seq<RecordView>, nf: int) -> bool {
    forall|i: int| 0 <= i < data.len() ==> #[trigger] data[i].features.len() == nf
}

/// Number of feature dimensions of a data set (0 when the set is empty).
pub open spec fn num_features(data: Seq<RecordView>) -> int {
    if data.len() == 0 {
        0
    } else {
        data[0].features.len() as int
    }
}

/// The sequence of class labels of a data set, in record order.
pub open spec fn labels_of(data: Seq<RecordView>) -> Seq<usize> {
    data.map_values(|r: RecordView| r.label)
}

} // verus!

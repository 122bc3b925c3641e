//! Voting by the nearest records, which a search tree finds.
use vstd::prelude::*;

use crate::types::RawData;

verus! {

/// The labels of the records that a search tree was made of, and how many of
/// them vote.
pub struct KNNModel {
    pub k: usize,
    pub is_fraud: Vec<bool>,
}

/// How many of the records are labelled as fraud.
pub open spec fn frauds_in(is_fraud: Seq<bool>, items: Seq<u64>) -> nat
    decreases items.len(),
{
    if items.len() == 0 {
        0
    } else {
        frauds_in(is_fraud, items.drop_last()) + if is_fraud[items.last() as int] {
            1nat
        } else {
            0nat
        }
    }
}

impl KNNModel {
    /// The model of labelled records, of which `k` vote.
    pub fn new<V>(k: usize, data: &[RawData<V>]) -> (model: KNNModel)
        ensures
            model.k == k,
            model.is_fraud@ == data@.map_values(|r: RawData<V>| r.fraud()),
    {
        let mut is_fraud: Vec<bool> = Vec::new();
        let mut i: usize = 0;
        while i < data.len()
            invariant
                i <= data@.len(),
                is_fraud@.len() == i,
                forall|j: int| 0 <= j < i ==> #[trigger] is_fraud@[j] == data@[j].fraud(),
            decreases data@.len() - i,
        {
            is_fraud.push(data[i].is_fraud());
            i = i + 1;
        }
        assert(is_fraud@ =~= data@.map_values(|r: RawData<V>| r.fraud()));
        KNNModel { k, is_fraud }
    }

    /// How many of the nearest records are labelled as fraud. The records are
    /// given by their numbers.
    pub fn predict(&self, nearest: &[u64]) -> (n: usize)
        requires
            forall|i: int|
                0 <= i < nearest@.len() ==> #[trigger] nearest@[i] < self.is_fraud@.len(),
        ensures
            n == frauds_in(self.is_fraud@, nearest@),
            n <= nearest@.len(),
    {
        let mut n: usize = 0;
        let mut i: usize = 0;
        assert(nearest@.take(0) =~= Seq::empty());
        while i < nearest.len()
            invariant
                i <= nearest@.len(),
                forall|j: int|
                    0 <= j < nearest@.len() ==> #[trigger] nearest@[j] < self.is_fraud@.len(),
                n <= i,
                n == frauds_in(self.is_fraud@, nearest@.take(i as int)),
            decreases nearest@.len() - i,
        {
            assert(nearest@.take(i + 1).drop_last() =~= nearest@.take(i as int));
            assert(self.is_fraud@.len() == self.is_fraud.len());
            if self.is_fraud[nearest[i] as usize] {
                n = n + 1;
            }
            i = i + 1;
        }
        assert(nearest@.take(nearest@.len() as int) =~= nearest@);
        n
    }
}

/// The votes are those of the records that are labelled as fraud.
pub proof fn votes_are_those_of_fraud(is_fraud: Seq<bool>, items: Seq<u64>)
    ensures
        frauds_in(is_fraud, items) == items.filter(|i: u64| is_fraud[i as int]).len(),
    decreases items.len(),
{
    reveal(Seq::filter);
    if items.len() > 0 {
        votes_are_those_of_fraud(is_fraud, items.drop_last());
    }
}

} // verus!

//! Labelled training records.
use vstd::prelude::*;

verus! {

/// A training record: what an index reads of its vector, and its label.
pub struct RawData<V> {
    pub vector: V,
    pub label: String,
}

impl<V> RawData<V> {
    /// Whether the record is labelled as fraud.
    pub open spec fn fraud(&self) -> bool {
        self.label@ == "fraud"@
    }

    /// Whether the record is labelled as fraud.
    pub fn is_fraud(&self) -> (yes: bool)
        ensures
            yes == self.fraud(),
            yes == (self.label@ == "fraud"@),
    {
        let fraud = "fraud".to_owned();
        self.label == fraud
    }
}

/// How many of the first `n` records are labelled as fraud.
pub open spec fn fraud_count<V>(data: Seq<RawData<V>>, n: nat) -> nat
    decreases n,
{
    if n == 0 {
        0
    } else {
        fraud_count(data, (n - 1) as nat) + if data[n - 1].fraud() {
            1nat
        } else {
            0nat
        }
    }
}

/// How many records are labelled as fraud, and how many are not.
pub fn label_counts<V>(data: &[RawData<V>]) -> (counts: (usize, usize))
    ensures
        counts.0 == fraud_count(data@, data@.len()),
        counts.0 + counts.1 == data@.len(),
{
    let n: usize = data.len();
    let mut fraud: usize = 0;
    let mut i: usize = 0;
    while i < n
        invariant
            n == data@.len(),
            i <= n,
            fraud <= i,
            fraud == fraud_count(data@, i as nat),
        decreases n - i,
    {
        if data[i].is_fraud() {
            fraud = fraud + 1;
        }
        i = i + 1;
    }
    (fraud, n - fraud)
}

/// The count of fraud is the number of records with that label.
pub proof fn fraud_is_counted_by_label<V>(data: Seq<RawData<V>>, n: nat)
    requires
        n <= data.len(),
    ensures
        fraud_count(data, n) == data.take(n as int).filter(
            |r: RawData<V>| r.label@ == "fraud"@,
        ).len(),
    decreases n,
{
    reveal(Seq::filter);
    if n > 0 {
        fraud_is_counted_by_label(data, (n - 1) as nat);
        assert(data.take(n as int).drop_last() =~= data.take(n - 1));
    }
}

} // verus!

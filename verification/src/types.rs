use vstd::prelude::*;

verus! {

/// An ordered multiset of coin values represented as a vector. The order has
/// no meaning apart from indexing the elements so they can be identified.
pub type CoinSet = Vec<u64>;

/// A decomposition of a coin set into non-empty parts.
pub type Partition = Vec<CoinSet>;

/// An abstract representation of a Bitcoin transaction as two sets of coin
/// values.
pub struct Transaction {
    pub inputs: CoinSet,
    pub outputs: CoinSet,
}

impl Transaction {
    pub fn new(inputs: CoinSet, outputs: CoinSet) -> (t: Transaction)
        ensures
            t.inputs == inputs,
            t.outputs == outputs,
    {
        Transaction { inputs, outputs }
    }
}

/// An exact membership predicate over values of type `T`.
///
/// `spec_contains` is the admissible set as a mathematical predicate, and
/// `inv` is the well-formedness that the filter's constructor establishes
/// and that queries rely on.
pub trait Filter<T> {
    spec fn spec_contains(&self, value: T) -> bool;

    spec fn inv(&self) -> bool;

    fn contains(&self, value: &T) -> (r: bool)
        requires
            self.inv(),
        ensures
            r == self.spec_contains(*value),
    ;
}

/// A filter admitting every value; the partition enumerator run with it
/// walks every partition of its set.
pub struct AcceptAllFilter;

impl Filter<u64> for AcceptAllFilter {
    open spec fn spec_contains(&self, value: u64) -> bool {
        true
    }

    open spec fn inv(&self) -> bool {
        true
    }

    fn contains(&self, value: &u64) -> (r: bool) {
        true
    }
}

/// The record of one synthetic run: the generated transactions, the combined
/// coin sets, the mapping set, and the wall-clock duration.
pub struct Run {
    pub num_transactions: u64,
    pub num_inputs_per_transaction: u64,
    pub original_transactions: Vec<Transaction>,
    pub in_coins: Vec<u64>,
    pub out_coins: Vec<u64>,
    pub partition_tuples: Vec<(Partition, Partition)>,
    pub duration_secs: u64,
    pub duration_nano: u32,
}

} // verus!

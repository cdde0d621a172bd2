//! Study of the unlinkability of CoinJoin-style transactions: enumerate,
//! for a joint transaction with input multiset I and output multiset O,
//! every pair of partitions of I and O whose part sums match, and reduce
//! the mapping set to per-coin and per-coin-pair linkage statistics.

pub mod sums;
pub mod types;
pub mod views;
pub mod filters;
pub mod partition;
pub mod matcher;
pub mod probability;
pub mod generator;
pub mod blockchain;

pub use types::CoinSet;
pub use types::Partition;
pub use types::Filter;
pub use types::AcceptAllFilter;
pub use types::Run;
pub use partition::SumFilteredPartitionIterator;
pub use partition::TupleIterator;
pub use filters::PartitionsSubsetSumsFilter;
pub use filters::SubsetSumsFilter;
pub use filters::SubsetSumIterator;
pub use filters::is_subset_sum;
pub use sums::is_subset_sum_of;
pub use sums::seq_sum;
pub use blockchain::Block;
pub use blockchain::BlockHeader;
pub use blockchain::Outpoint;
pub use blockchain::Transaction;
pub use blockchain::TransactionInput;
pub use blockchain::TransactionOutput;

//! Which batches a node stores.

use crate::error::Error;
use vstd::prelude::*;

verus! {

/// A node stores the batches whose index is `shard_id` modulo `num_shard`.
#[derive(Clone, Copy, Debug, PartialEq, Eq, Structural)]
pub struct ShardConfig {
    pub num_shard: u32,
    pub shard_id: u32,
}

/// Whether `n` is 1, 2, 4, 8 and so on.
pub open spec fn is_power_of_two(n: nat) -> bool
    decreases n,
{
    n == 1 || (n >= 2 && n % 2 == 0 && is_power_of_two(n / 2))
}

/// Whether batch `batch_index` falls to the shard `shard_id` of `num_shard`.
pub open spec fn spec_in_shard(num_shard: u32, shard_id: u32, batch_index: int) -> bool {
    batch_index % (num_shard as int) == shard_id as int
}

impl ShardConfig {
    /// The number of shards is a power of two and the shard is one of them.
    pub open spec fn wf(&self) -> bool {
        is_power_of_two(self.num_shard as nat) && self.shard_id < self.num_shard
    }

    /// Whether this node stores batch `batch_index`.
    pub open spec fn spec_in_range(&self, batch_index: u64) -> bool {
        spec_in_shard(self.num_shard, self.shard_id, batch_index as int)
    }

    /// The configuration of a node that stores shard `shard_id` of
    /// `num_shard`; rejected unless `num_shard` is a power of two and
    /// `shard_id` is below it.
    pub fn new(num_shard: u32, shard_id: u32) -> (r: Result<ShardConfig, Error>)
        ensures
            (ShardConfig { num_shard, shard_id }).wf() ==> r == Ok::<ShardConfig, Error>(
                ShardConfig { num_shard, shard_id },
            ),
            !(ShardConfig { num_shard, shard_id }).wf() ==> r == Err::<ShardConfig, Error>(
                Error::InvalidArgument,
            ),
    {
        if shard_id < num_shard && check_power_of_two(num_shard) {
            Ok(ShardConfig { num_shard, shard_id })
        } else {
            Err(Error::InvalidArgument)
        }
    }

    /// Whether this node stores batch `batch_index`.
    pub fn in_range(&self, batch_index: u64) -> (r: bool)
        requires
            self.wf(),
        ensures
            r == self.spec_in_range(batch_index),
    {
        batch_index % (self.num_shard as u64) == self.shard_id as u64
    }
}

impl Default for ShardConfig {
    /// A single shard that stores every batch.
    fn default() -> (r: ShardConfig)
        ensures
            r == (ShardConfig { num_shard: 1, shard_id: 0 }),
            r.wf(),
    {
        ShardConfig { num_shard: 1, shard_id: 0 }
    }
}

/// Whether `n` is a power of two.
pub fn check_power_of_two(n: u32) -> (r: bool)
    ensures
        r == is_power_of_two(n as nat),
{
    let mut m: u32 = n;
    while m >= 2 && m % 2 == 0
        invariant
            is_power_of_two(n as nat) == is_power_of_two(m as nat),
        decreases m,
    {
        m = m / 2;
    }
    m == 1
}

/// With a single shard every batch is stored.
pub proof fn lemma_single_shard_stores_all(batch_index: u64)
    ensures
        (ShardConfig { num_shard: 1, shard_id: 0 }).wf(),
        (ShardConfig { num_shard: 1, shard_id: 0 }).spec_in_range(batch_index),
{
}

} // verus!

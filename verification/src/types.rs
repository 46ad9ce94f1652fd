//! Plain data that crosses the store's interface.

use crate::params::BYTES_PER_SECTOR;
use vstd::prelude::*;

verus! {

/// A 32-byte Merkle hash.
#[derive(Clone, Copy, Debug)]
pub struct DataRoot {
    pub bytes: [u8; 32],
}

impl View for DataRoot {
    type V = Seq<u8>;

    open spec fn view(&self) -> Seq<u8> {
        self.bytes@
    }
}

impl DataRoot {
    /// The hash that is all zeroes.
    pub fn zero() -> (r: DataRoot)
        ensures
            r@ == Seq::new(32, |i: int| 0u8),
    {
        let r = DataRoot { bytes: [0u8; 32] };
        assert(r@ =~= Seq::new(32, |i: int| 0u8));
        r
    }

    /// Whether two hashes hold the same bytes.
    pub fn same(&self, other: &DataRoot) -> (r: bool)
        ensures
            r == (self@ == other@),
    {
        let mut i: usize = 0;
        while i < 32
            invariant
                i <= 32,
                forall|j: int| 0 <= j < i ==> self.bytes@[j] == other.bytes@[j],
            decreases 32 - i,
        {
            if self.bytes[i] != other.bytes[i] {
                return false;
            }
            i += 1;
        }
        assert(self@ =~= other@);
        true
    }
}

/// A run of whole sectors: `data` holds the sectors that start at the global
/// index `start_index`.
#[derive(Clone, Debug)]
pub struct ChunkArray {
    pub data: Vec<u8>,
    pub start_index: u64,
}

impl ChunkArray {
    /// The number of whole sectors that the chunk holds.
    pub open spec fn spec_entries(&self) -> int {
        self.data@.len() as int / (BYTES_PER_SECTOR as int)
    }

    /// Whether `[start_index, end_index)` is a range of sectors that the
    /// chunk holds, and not an empty one.
    pub open spec fn holds(&self, start_index: u64, end_index: u64) -> bool {
        start_index < end_index && self.start_index <= start_index && end_index
            <= self.start_index + self.spec_entries()
    }

    /// The bytes of the sectors `[start_index, end_index)` of the chunk.
    pub open spec fn sub_bytes(&self, start_index: u64, end_index: u64) -> Seq<u8> {
        self.data@.subrange(
            (start_index - self.start_index) * (BYTES_PER_SECTOR as int),
            (end_index - self.start_index) * (BYTES_PER_SECTOR as int),
        )
    }

    /// The sectors `[start_index, end_index)` as a chunk of their own, or
    /// `None` unless the chunk holds that range and the range is not empty.
    pub fn sub_array(&self, start_index: u64, end_index: u64) -> (r: Option<ChunkArray>)
        ensures
            match r {
                Some(part) => self.holds(start_index, end_index) && part.start_index
                    == start_index && part.data@ == self.sub_bytes(start_index, end_index),
                None => !self.holds(start_index, end_index),
            },
    {
        let entries: usize = self.data.len() / BYTES_PER_SECTOR;
        if start_index >= end_index || self.start_index > start_index || end_index
            - self.start_index > entries as u64 {
            return None;
        }
        let from: usize = (start_index - self.start_index) as usize * BYTES_PER_SECTOR;
        let to: usize = (end_index - self.start_index) as usize * BYTES_PER_SECTOR;
        let part = vstd::slice::slice_subrange(self.data.as_slice(), from, to);
        let mut data: Vec<u8> = Vec::with_capacity(to - from);
        data.extend_from_slice(part);
        Some(ChunkArray { data, start_index })
    }
}

/// A padding region put in front of a transaction's data.
#[derive(Clone, Copy, Debug, PartialEq, Eq, Structural)]
pub struct PadPair {
    pub start_index: u64,
    pub data_size: u64,
}

/// Work for a sealer: the raw bytes of one seal unit and the generation they
/// were queued in.
#[derive(Clone, Debug)]
pub struct SealTask {
    pub seal_index: u64,
    pub version: u64,
    pub non_sealed_data: Vec<u8>,
}

/// What a sealer hands back for one seal unit.
#[derive(Clone, Debug)]
pub struct SealAnswer {
    pub seal_index: u64,
    pub version: u64,
    pub sealed_data: Vec<u8>,
    pub miner_id: DataRoot,
    pub seal_context: DataRoot,
    pub context_end_seal: u64,
}

/// The sealed units of one batch as a miner loads them: one slot per seal
/// unit, and for each slot whether it holds sealed bytes.
#[derive(Clone, Debug)]
pub struct MineLoadChunk {
    pub loaded_chunk: Vec<Vec<u8>>,
    pub availabilities: Vec<bool>,
}

/// A Merkle proof for one sector of a batch: the leaf, then one sibling per
/// level, then the root; `path[i]` says whether the node at level `i` is a
/// left child.
#[derive(Clone, Debug)]
pub struct FlowProof {
    pub lemma: Vec<DataRoot>,
    pub path: Vec<bool>,
}

/// A list of chunks as plain values: the global index of each chunk's first
/// sector and its bytes.
pub open spec fn chunks_view(list: Seq<ChunkArray>) -> Seq<(int, Seq<u8>)> {
    Seq::new(list.len(), |j: int| (list[j].start_index as int, list[j].data@))
}

/// The number of whole sectors in `len` bytes.
pub open spec fn spec_bytes_to_entries(len: int) -> int {
    len / (BYTES_PER_SECTOR as int)
}

/// The number of whole sectors in `size_bytes` bytes.
pub fn bytes_to_entries(size_bytes: u64) -> (r: u64)
    ensures
        r == spec_bytes_to_entries(size_bytes as int),
{
    size_bytes / (BYTES_PER_SECTOR as u64)
}

} // verus!

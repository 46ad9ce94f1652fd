//! The flow store: reading, appending, truncating and sealing the flow, over
//! the flow database and the seal task manager.

use crate::batch_iter::{batch_iter, batch_list, lemma_batch_list_covers};
use crate::entry_batch::{
    lemma_units_filter, local_seal_index, subtrees_view, BatchView, EntryBatch,
};
use crate::error::Error;
use crate::flow_db::{
    batch_key, batch_keys_of, batch_list_view, completed_roots, global_units, node_result_view,
    pad_result_view, put_batches, roots_view, spec_get_batch, spec_get_layer_size, spec_get_node,
    spec_get_pad_data, spec_get_sync_height, spec_truncate, to_global, FlowDBStore,
    NodeDBTransaction, COL_ENTRY_BATCH, COL_NUM,
};
use crate::kv::{column_keys, Rows};
use crate::laws::mirror::{
    lemma_append_keeps_backed, lemma_delete_keeps_backed, lemma_other_column_keeps_backed,
    lemma_pull_succeeds, lemma_submit_errors, lemma_submit_keeps_backed,
    lemma_subtrees_keep_backed,
    lemma_truncate_keeps_backed, pending_backed,
};
use crate::merkle::{hashes_view, proof_valid};
use crate::params::{
    BYTES_PER_SEAL, BYTES_PER_SECTOR, SEALS_PER_LOAD, SECTORS_PER_LOAD, SECTORS_PER_SEAL,
};
use crate::pending::{
    ascending, elem_at, from_index, in_batches, lemma_ascending_gap, lemma_filter_ascending,
    PendingSet,
};
use crate::seal::SealTaskManager;
use crate::seq_util::lemma_filter_push;
use crate::shard::ShardConfig;
use crate::types::{
    chunks_view, ChunkArray, DataRoot, FlowProof, MineLoadChunk, PadPair, SealAnswer, SealTask,
};
use itertools::Itertools;
use vstd::prelude::*;

verus! {

/// How a flow store is set up.
#[derive(Clone, Copy, Debug)]
pub struct FlowConfig {
    /// Sectors per batch.
    pub batch_size: usize,
    /// How many Merkle nodes a cache in front of the store may keep.
    pub merkle_node_cache_capacity: usize,
    /// Which batches this node stores.
    pub shard_config: ShardConfig,
}

impl FlowConfig {
    /// Batches have the size of the layout, and the shard is a valid one.
    pub open spec fn wf(&self) -> bool {
        self.batch_size == SECTORS_PER_LOAD && self.shard_config.wf()
    }
}

impl FlowConfig {
    /// Whether the configuration can be used for a flow store.
    pub fn is_valid(&self) -> (r: bool)
        ensures
            r == self.wf(),
    {
        self.batch_size == SECTORS_PER_LOAD && self.shard_config.shard_id
            < self.shard_config.num_shard && crate::shard::check_power_of_two(
            self.shard_config.num_shard,
        )
    }
}

impl Default for FlowConfig {
    /// Batches of the layout's size, room for 32 Mi Merkle nodes, a single
    /// shard.
    fn default() -> (r: FlowConfig)
        ensures
            r.wf(),
            r.batch_size == SECTORS_PER_LOAD,
            r.merkle_node_cache_capacity == 33554432,
            r.shard_config == (ShardConfig { num_shard: 1, shard_id: 0 }),
    {
        FlowConfig {
            batch_size: SECTORS_PER_LOAD,
            merkle_node_cache_capacity: 33554432,
            shard_config: ShardConfig { num_shard: 1, shard_id: 0 },
        }
    }
}

/// What one piece of a read gives: the piece `[piece.0, piece.1)` lies in one
/// batch; nothing where that batch is not there or lacks a sector of the
/// piece. Sector 0 of the flow is never read: a piece that begins there
/// begins one sector later.
pub open spec fn read_piece(rows: Rows, piece: (u64, u64)) -> Result<Option<Seq<u8>>, Error> {
    let chunk_index = piece.0 / (SECTORS_PER_LOAD as u64);
    let offset = piece.0 % (SECTORS_PER_LOAD as u64);
    let length = piece.1 - piece.0;
    match spec_get_batch(rows, chunk_index) {
        Err(e) => Err(e),
        Ok(None) => Ok(None),
        Ok(Some(v)) => if chunk_index == 0 && offset == 0 {
            Ok(v.unsealed_data(1, length - 1))
        } else {
            Ok(v.unsealed_data(offset as int, length))
        },
    }
}

/// What reading the pieces `pieces` in order gives: their bytes one after
/// another; nothing, or the error, where a piece gives that.
pub open spec fn read_pieces(rows: Rows, pieces: Seq<(u64, u64)>) -> Result<
    Option<Seq<u8>>,
    Error,
>
    decreases pieces.len(),
{
    if pieces.len() == 0 {
        Ok(Some(Seq::empty()))
    } else {
        match read_pieces(rows, pieces.drop_last()) {
            Err(e) => Err(e),
            Ok(None) => Ok(None),
            Ok(Some(head)) => match read_piece(rows, pieces.last()) {
                Err(e) => Err(e),
                Ok(None) => Ok(None),
                Ok(Some(bytes)) => Ok(Some(head + bytes)),
            },
        }
    }
}

/// What reading the sectors `[index_start, index_end)` from `rows` gives: an
/// error for an empty range, else the bytes of the sectors, or nothing where
/// one of them is missing.
pub open spec fn spec_get_entries(rows: Rows, index_start: u64, index_end: u64) -> Result<
    Option<Seq<u8>>,
    Error,
> {
    if index_end <= index_start {
        Err(Error::InvalidArgument)
    } else {
        read_pieces(rows, batch_list(index_start, index_end, SECTORS_PER_LOAD))
    }
}

/// A chunk read from the store as plain values.
pub open spec fn chunk_result_view(r: Result<Option<ChunkArray>, Error>) -> Result<
    Option<Seq<u8>>,
    Error,
> {
    match r {
        Ok(Some(chunk)) => Ok(Some(chunk.data@)),
        Ok(None) => Ok(None),
        Err(e) => Err(e),
    }
}

/// What a miner loads of batch `v`: for each seal unit whether it is sealed,
/// and its sealed bytes, or zeroes where it is not.
pub open spec fn loaded_view(v: BatchView, chunk: MineLoadChunk) -> bool {
    &&& chunk.loaded_chunk@.len() == SEALS_PER_LOAD
    &&& chunk.availabilities@.len() == SEALS_PER_LOAD
    &&& forall|u: int|
        0 <= u < SEALS_PER_LOAD ==> (#[trigger] chunk.availabilities@[u]) == v.sealed[u]
    &&& forall|u: int|
        0 <= u < SEALS_PER_LOAD ==> (#[trigger] chunk.loaded_chunk@[u])@ == (match v.sealed_unit(
            u,
        ) {
            Some(bytes) => bytes,
            None => crate::entry_batch::zeros(BYTES_PER_SEAL as nat),
        })
}

/// The upper bound on the number of sectors in a store with `batches`
/// batches: as if every batch were full, and no more than fits a `u64`.
pub open spec fn entries_bound(batches: nat) -> u64 {
    if batches * SECTORS_PER_LOAD <= u64::MAX {
        (batches * SECTORS_PER_LOAD) as u64
    } else {
        u64::MAX
    }
}

/// The flow store.
pub struct FlowStore {
    flow_db: FlowDBStore,
    data_db: FlowDBStore,
    seal_manager: SealTaskManager,
    config: FlowConfig,
}

impl FlowStore {
    /// The rows of the database that holds the batches.
    pub closed spec fn data_rows(&self) -> Rows {
        self.data_db.rows()
    }

    /// The rows of the database that holds the pad data and Merkle nodes.
    pub closed spec fn flow_rows(&self) -> Rows {
        self.flow_db.rows()
    }

    /// The pending seal set: global seal index to generation.
    pub closed spec fn pending(&self) -> Map<u64, u64> {
        self.seal_manager.to_seal_set@
    }

    /// The pending seal set in ascending order of the seal index.
    pub closed spec fn pending_ordered(&self) -> Seq<(u64, u64)> {
        self.seal_manager.to_seal_set.ordered()
    }

    /// The current seal generation.
    pub closed spec fn seal_version(&self) -> u64 {
        self.seal_manager.to_seal_version
    }

    /// Whether a sealer has ever asked this store for work.
    pub closed spec fn polled(&self) -> bool {
        self.seal_manager.clock.polled()
    }

    /// Which batches this node stores.
    pub closed spec fn shard_config(&self) -> ShardConfig {
        self.config.shard_config
    }

    /// How the store is set up.
    pub closed spec fn config(&self) -> FlowConfig {
        self.config
    }

    /// The parts of the store are well-formed, nothing is pending in a
    /// generation that has not begun, and every pending seal unit is
    /// complete and not sealed in its batch.
    pub closed spec fn wf(&self) -> bool {
        &&& self.flow_db.wf()
        &&& self.data_db.wf()
        &&& self.seal_manager.wf()
        &&& self.config.wf()
        &&& forall|k: u64| #[trigger]
            self.seal_manager.to_seal_set@.contains_key(k) ==> self.seal_manager.to_seal_set@[k]
                <= self.seal_manager.to_seal_version
        &&& pending_backed(self.data_db.rows(), self.seal_manager.to_seal_set@)
    }

    /// What `wf` says of the pending seal set.
    pub proof fn lemma_wf(&self)
        requires
            self.wf(),
        ensures
            self.config().wf(),
            self.shard_config().wf(),
            forall|k: u64| #[trigger]
                self.pending().contains_key(k) ==> self.pending()[k] <= self.seal_version(),
            pending_backed(self.data_rows(), self.pending()),
    {
    }

    /// A store over the two databases: `flow_db` for pad data and Merkle
    /// nodes, `data_db` for batches. Nothing is pending, the generation is
    /// 0, and no sealer has asked for work yet.
    pub fn new(flow_db: FlowDBStore, data_db: FlowDBStore, config: FlowConfig) -> (store:
        FlowStore)
        requires
            flow_db.wf(),
            data_db.wf(),
            config.wf(),
        ensures
            store.wf(),
            store.flow_rows() == flow_db.rows(),
            store.data_rows() == data_db.rows(),
            store.pending() == Map::<u64, u64>::empty(),
            store.seal_version() == 0,
            !store.polled(),
            store.config() == config,
            store.shard_config() == config.shard_config,
    {
        FlowStore { flow_db, data_db, seal_manager: SealTaskManager::default(), config }
    }

    /// Reads the sectors `[index_start, index_end)`. Gives `None` where a
    /// batch of the range is missing or lacks a sector of it. Sector 0 of
    /// the flow is left out of what is read.
    pub fn get_entries(&self, index_start: u64, index_end: u64) -> (r: Result<
        Option<ChunkArray>,
        Error,
    >)
        requires
            self.wf(),
        ensures
            chunk_result_view(r) == spec_get_entries(self.data_rows(), index_start, index_end),
            r matches Ok(Some(chunk)) ==> chunk.start_index == index_start,
    {
        if index_end <= index_start {
            return Err(Error::InvalidArgument);
        }
        let mut data: Vec<u8> = Vec::new();
        let pieces = batch_iter(index_start, index_end, self.config.batch_size);
        let ghost rows = self.data_rows();
        proof {
            lemma_batch_list_covers(index_start, index_end, SECTORS_PER_LOAD);
        }
        let mut j: usize = 0;
        assert(pieces@.take(0) =~= Seq::<(u64, u64)>::empty());
        while j < pieces.len()
            invariant
                self.wf(),
                rows == self.data_rows(),
                j <= pieces@.len(),
                pieces@ == batch_list(index_start, index_end, SECTORS_PER_LOAD),
                forall|t: int|
                    0 <= t < pieces@.len() ==> (#[trigger] pieces@[t]).0 < pieces@[t].1
                        && pieces@[t].0 as int / (SECTORS_PER_LOAD as int) == (pieces@[t].1 - 1)
                        / (SECTORS_PER_LOAD as int),
                read_pieces(rows, pieces@.take(j as int)) == Ok::<Option<Seq<u8>>, Error>(
                    Some(data@),
                ),
            decreases pieces@.len() - j,
        {
            let (start_entry_index, end_entry_index) = pieces[j];
            let batch_size: u64 = self.config.batch_size as u64;
            let chunk_index: u64 = start_entry_index / batch_size;
            let mut offset: u64 = start_entry_index - chunk_index * batch_size;
            let mut length: u64 = end_entry_index - start_entry_index;
            if chunk_index == 0 && offset == 0 {
                offset = 1;
                length -= 1;
            }
            proof {
                assert(pieces@.take(j as int + 1).drop_last() =~= pieces@.take(j as int));
                assert(pieces@.take(j as int + 1).last() == pieces@[j as int]);
                assert(pieces@[j as int].0 < pieces@[j as int].1);
            }
            let entry_batch = match self.data_db.get_entry_batch(chunk_index) {
                Err(e) => {
                    proof {
                        lemma_read_stops(rows, pieces@, j as int + 1);
                    }
                    return Err(e);
                },
                Ok(None) => {
                    proof {
                        lemma_read_stops(rows, pieces@, j as int + 1);
                    }
                    return Ok(None);
                },
                Ok(Some(batch)) => batch,
            };
            let mut entry_batch_data = match entry_batch.get_unsealed_data(
                offset as usize,
                length as usize,
            ) {
                None => {
                    proof {
                        lemma_read_stops(rows, pieces@, j as int + 1);
                    }
                    return Ok(None);
                },
                Some(bytes) => bytes,
            };
            data.append(&mut entry_batch_data);
            j += 1;
        }
        assert(pieces@.take(pieces@.len() as int) =~= pieces@);
        Ok(Some(ChunkArray { data, start_index: index_start }))
    }

    /// The sealed seal units of batch `chunk_index` as a miner loads them,
    /// or `None` where the batch is not there.
    pub fn load_sealed_data(&self, chunk_index: u64) -> (r: Result<Option<MineLoadChunk>, Error>)
        requires
            self.wf(),
        ensures
            match r {
                Ok(Some(chunk)) => spec_get_batch(self.data_rows(), chunk_index) is Ok
                    && spec_get_batch(self.data_rows(), chunk_index).unwrap() is Some
                    && loaded_view(
                    spec_get_batch(self.data_rows(), chunk_index).unwrap().unwrap(),
                    chunk,
                ),
                Ok(None) => spec_get_batch(self.data_rows(), chunk_index) == Ok::<
                    Option<BatchView>,
                    Error,
                >(None),
                Err(e) => spec_get_batch(self.data_rows(), chunk_index) == Err::<
                    Option<BatchView>,
                    Error,
                >(e),
            },
    {
        let batch = match self.data_db.get_entry_batch(chunk_index) {
            Err(e) => {
                return Err(e);
            },
            Ok(None) => {
                return Ok(None);
            },
            Ok(Some(batch)) => batch,
        };
        let mut loaded_chunk: Vec<Vec<u8>> = Vec::with_capacity(SEALS_PER_LOAD);
        let mut availabilities: Vec<bool> = Vec::with_capacity(SEALS_PER_LOAD);
        let mut seal_index: usize = 0;
        while seal_index < SEALS_PER_LOAD
            invariant
                batch@.wf(),
                seal_index <= SEALS_PER_LOAD,
                loaded_chunk@.len() == seal_index,
                availabilities@.len() == seal_index,
                forall|u: int|
                    0 <= u < seal_index ==> (#[trigger] availabilities@[u]) == batch@.sealed[u],
                forall|u: int|
                    0 <= u < seal_index ==> (#[trigger] loaded_chunk@[u])@ == (
                    match batch@.sealed_unit(u) {
                        Some(bytes) => bytes,
                        None => crate::entry_batch::zeros(BYTES_PER_SEAL as nat),
                    }),
            decreases SEALS_PER_LOAD - seal_index,
        {
            match batch.get_sealed_data(seal_index as u16) {
                Some(data) => {
                    availabilities.push(true);
                    loaded_chunk.push(data);
                },
                None => {
                    availabilities.push(false);
                    loaded_chunk.push(zero_unit());
                },
            }
            seal_index += 1;
        }
        Ok(Some(MineLoadChunk { loaded_chunk, availabilities }))
    }

    /// An upper bound on the number of sectors in the store: the number of
    /// batches times the sectors of a batch, as if every batch were full.
    pub fn get_num_entries(&self) -> (r: Result<u64, Error>)
        requires
            self.wf(),
        ensures
            r is Ok,
            column_keys(self.data_rows(), COL_ENTRY_BATCH).finite(),
            r.unwrap() == entries_bound(column_keys(self.data_rows(), COL_ENTRY_BATCH).len()),
    {
        let num_batches: usize = self.data_db.num_batches();
        if num_batches as u64 > u64::MAX / (SECTORS_PER_LOAD as u64) {
            Ok(u64::MAX)
        } else {
            Ok(num_batches as u64 * (SECTORS_PER_LOAD as u64))
        }
    }

    /// The pending seal set in ascending order of the seal index: each seal
    /// index with the generation in which it was queued.
    pub fn pending_seals(&self) -> (list: Vec<(u64, u64)>)
        ensures
            list@ == self.pending_ordered(),
    {
        self.seal_manager.to_seal_set.to_vec()
    }

    /// The current seal generation.
    pub fn current_seal_version(&self) -> (version: u64)
        ensures
            version == self.seal_version(),
    {
        self.seal_manager.to_seal_version()
    }

    /// How the pending seal set and its ascending order go together.
    pub proof fn lemma_pending(&self)
        requires
            self.wf(),
        ensures
            crate::pending::ascending(self.pending_ordered()),
            self.pending() == crate::pending::entries_map(self.pending_ordered()),
    {
        self.seal_manager.to_seal_set.lemma_ordered();
    }

    /// Which batches this node stores.
    pub fn get_shard_config(&self) -> (r: ShardConfig)
        ensures
            r == self.shard_config(),
    {
        self.config.shard_config
    }

    /// From now on the node stores the batches of `shard_config`.
    pub fn update_shard_config(&mut self, shard_config: ShardConfig)
        requires
            old(self).wf(),
            shard_config.wf(),
        ensures
            final(self).wf(),
            final(self).shard_config() == shard_config,
            final(self).data_rows() == old(self).data_rows(),
            final(self).flow_rows() == old(self).flow_rows(),
            final(self).pending() == old(self).pending(),
            final(self).seal_version() == old(self).seal_version(),
            final(self).polled() == old(self).polled(),
    {
        self.config.shard_config = shard_config;
    }

    /// Reads the pad data of transaction `tx_seq`.
    pub fn get_pad_data(&self, tx_seq: u64) -> (r: Result<Option<Vec<PadPair>>, Error>)
        requires
            self.wf(),
        ensures
            pad_result_view(r) == spec_get_pad_data(self.flow_rows(), tx_seq),
    {
        self.flow_db.get_pad_data(tx_seq)
    }

    /// Reads the sync height of the pad data.
    pub fn get_pad_data_sync_height(&self) -> (r: Result<Option<u64>, Error>)
        requires
            self.wf(),
        ensures
            r == spec_get_sync_height(self.data_rows()),
    {
        self.data_db.get_pad_data_sync_height()
    }

    /// Stores `data_sizes` as the pad data of transaction `tx_seq`.
    pub fn put_pad_data(&mut self, data_sizes: &[PadPair], tx_seq: u64) -> (r: Result<(), Error>)
        requires
            old(self).wf(),
        ensures
            final(self).wf(),
            r is Ok,
            final(self).flow_rows() == old(self).flow_rows().insert(
                crate::flow_db::pad_key(tx_seq),
                crate::codec::pad_list_bytes(data_sizes@),
            ),
            final(self).data_rows() == old(self).data_rows(),
            final(self).pending() == old(self).pending(),
            final(self).seal_version() == old(self).seal_version(),
            final(self).shard_config() == old(self).shard_config(),
            final(self).polled() == old(self).polled(),
    {
        self.flow_db.put_pad_data(data_sizes, tx_seq)
    }

    /// Stores `sync_index` as the sync height of the pad data.
    pub fn put_pad_data_sync_height(&mut self, sync_index: u64) -> (r: Result<(), Error>)
        requires
            old(self).wf(),
        ensures
            final(self).wf(),
            r is Ok,
            final(self).data_rows() == old(self).data_rows().insert(
                (crate::flow_db::COL_PAD_DATA_SYNC_HEIGHT, crate::flow_db::sync_height_key()),
                crate::codec::be64(sync_index),
            ),
            final(self).flow_rows() == old(self).flow_rows(),
            final(self).pending() == old(self).pending(),
            final(self).seal_version() == old(self).seal_version(),
            final(self).shard_config() == old(self).shard_config(),
            final(self).polled() == old(self).polled(),
    {
        proof {
            lemma_other_column_keeps_backed(
                self.data_rows(),
                self.pending(),
                (crate::flow_db::COL_PAD_DATA_SYNC_HEIGHT, crate::flow_db::sync_height_key()),
                crate::codec::be64(sync_index),
            );
        }
        self.data_db.put_pad_data_sync_height(sync_index)
    }
}

/// A seal unit's worth of zero bytes.
fn zero_unit() -> (v: Vec<u8>)
    ensures
        v@ == crate::entry_batch::zeros(BYTES_PER_SEAL as nat),
{
    let mut v: Vec<u8> = Vec::with_capacity(BYTES_PER_SEAL);
    let mut i: usize = 0;
    while i < BYTES_PER_SEAL
        invariant
            i <= BYTES_PER_SEAL,
            v@ == crate::entry_batch::zeros(i as nat),
        decreases BYTES_PER_SEAL - i,
    {
        v.push(0u8);
        assert(v@ =~= crate::entry_batch::zeros((i + 1) as nat));
        i += 1;
    }
    v
}

/// Once a read has given nothing, or an error, for the first `k` pieces, it
/// gives the same for all of them.
proof fn lemma_read_stops(rows: Rows, pieces: Seq<(u64, u64)>, k: int)
    requires
        0 <= k <= pieces.len(),
        !(read_pieces(rows, pieces.take(k)) matches Ok(Some(_))),
    ensures
        read_pieces(rows, pieces) == read_pieces(rows, pieces.take(k)),
    decreases pieces.len() - k,
{
    if k < pieces.len() {
        assert(pieces.take(k + 1).drop_last() =~= pieces.take(k));
        lemma_read_stops(rows, pieces, k + 1);
    } else {
        assert(pieces.take(k) =~= pieces);
    }
}

/// The pending seal set after each seal index of `keys` was queued in
/// generation `version`.
pub open spec fn insert_all(pending: Map<u64, u64>, keys: Seq<u64>, version: u64) -> Map<u64, u64>
    decreases keys.len(),
{
    if keys.len() == 0 {
        pending
    } else {
        insert_all(pending, keys.drop_last(), version).insert(keys.last(), version)
    }
}

/// What `insert_all` holds: the seal indices of `keys` in generation
/// `version`, and everything else as before.
pub proof fn lemma_insert_all(pending: Map<u64, u64>, keys: Seq<u64>, version: u64)
    ensures
        forall|k: u64| #[trigger]
            insert_all(pending, keys, version).contains_key(k) <==> pending.contains_key(k)
                || keys.contains(k),
        forall|k: u64|
            keys.contains(k) ==> #[trigger] insert_all(pending, keys, version)[k] == version,
        forall|k: u64|
            !keys.contains(k) && pending.contains_key(k) ==> #[trigger] insert_all(
                pending,
                keys,
                version,
            )[k] == pending[k],
    decreases keys.len(),
{
    let all = insert_all(pending, keys, version);
    if keys.len() > 0 {
        let head = keys.drop_last();
        let inner = insert_all(pending, head, version);
        lemma_insert_all(pending, head, version);
        assert(all == inner.insert(keys.last(), version));
        assert forall|k: u64| keys.contains(k) <==> head.contains(k) || k == keys.last() by {
            if keys.contains(k) {
                let i = choose|i: int| 0 <= i < keys.len() && keys[i] == k;
                if i < head.len() {
                    assert(head[i] == k);
                }
            }
            if head.contains(k) {
                let i = choose|i: int| 0 <= i < head.len() && head[i] == k;
                assert(keys[i] == k);
            }
            if k == keys.last() {
                assert(keys[keys.len() - 1] == k);
            }
        }
        assert forall|k: u64| #[trigger] all.contains_key(k) <==> pending.contains_key(k)
            || keys.contains(k) by {
            assert(inner.contains_key(k) <==> pending.contains_key(k) || head.contains(k));
        }
        assert forall|k: u64| keys.contains(k) implies #[trigger] all[k] == version by {
            if k != keys.last() {
                assert(head.contains(k));
                assert(inner[k] == version);
            }
        }
        assert forall|k: u64| !keys.contains(k) && pending.contains_key(k) implies #[trigger] all[k]
            == pending[k] by {
            assert(!head.contains(k));
            assert(inner[k] == pending[k]);
        }
    }
}

/// What an append is going to store and queue.
pub struct AppendPlan {
    /// The batches to store, each with its index, in ascending order.
    pub batches: Seq<(u64, BatchView)>,
    /// The global indices of the seal units that the append completes.
    pub queued: Seq<u64>,
}

/// The plan after one more piece: `piece` lies in one batch; where the node
/// stores that batch, the piece's sectors are written into the batch as it
/// is in `rows`, or into a new one, and the seal units that this completes
/// are to be queued. `data` holds the sectors from the global index
/// `data_start` on.
pub open spec fn append_piece(
    rows: Rows,
    shard: ShardConfig,
    data_start: u64,
    data: Seq<u8>,
    piece: (u64, u64),
    plan: AppendPlan,
) -> Result<AppendPlan, Error> {
    let chunk_index = piece.0 / (SECTORS_PER_LOAD as u64);
    if !shard.spec_in_range(chunk_index) {
        Ok(plan)
    } else {
        match spec_get_batch(rows, chunk_index) {
            Err(e) => Err(e),
            Ok(found) => {
                let batch = match found {
                    Some(v) => v,
                    None => BatchView::empty(),
                };
                let offset = (piece.0 % (SECTORS_PER_LOAD as u64)) as int;
                let bytes = data.subrange(
                    (piece.0 - data_start) * (BYTES_PER_SECTOR as int),
                    (piece.1 - data_start) * (BYTES_PER_SECTOR as int),
                );
                let after = batch.inserted(offset, bytes);
                Ok(
                    AppendPlan {
                        batches: plan.batches.push((chunk_index, after)),
                        queued: plan.queued + global_units(
                            chunk_index,
                            after.completed_units(offset, piece.1 - piece.0),
                        ),
                    },
                )
            },
        }
    }
}

/// The plan for the pieces `pieces`, taken in order.
pub open spec fn append_pieces(
    rows: Rows,
    shard: ShardConfig,
    data_start: u64,
    data: Seq<u8>,
    pieces: Seq<(u64, u64)>,
) -> Result<AppendPlan, Error>
    decreases pieces.len(),
{
    if pieces.len() == 0 {
        Ok(AppendPlan { batches: Seq::empty(), queued: Seq::empty() })
    } else {
        match append_pieces(rows, shard, data_start, data, pieces.drop_last()) {
            Err(e) => Err(e),
            Ok(plan) => append_piece(rows, shard, data_start, data, pieces.last(), plan),
        }
    }
}

/// The plan for appending `data` at the global sector index `start_index`:
/// refused unless `data` is whole sectors that end within the index range;
/// nothing to do for no data; else one step per batch that the data
/// reaches into.
pub open spec fn spec_append_plan(rows: Rows, shard: ShardConfig, start_index: u64, data: Seq<u8>)
    -> Result<AppendPlan, Error> {
    let entries = data.len() as int / (BYTES_PER_SECTOR as int);
    if data.len() % (BYTES_PER_SECTOR as nat) != 0 || start_index + entries > u64::MAX {
        Err(Error::InvalidArgument)
    } else if data.len() == 0 {
        Ok(AppendPlan { batches: Seq::empty(), queued: Seq::empty() })
    } else {
        append_pieces(
            rows,
            shard,
            start_index,
            data,
            batch_list(start_index, (start_index + entries) as u64, SECTORS_PER_LOAD),
        )
    }
}

proof fn lemma_append_stops(
    rows: Rows,
    shard: ShardConfig,
    data_start: u64,
    data: Seq<u8>,
    pieces: Seq<(u64, u64)>,
    k: int,
)
    requires
        0 <= k <= pieces.len(),
        append_pieces(rows, shard, data_start, data, pieces.take(k)) is Err,
    ensures
        append_pieces(rows, shard, data_start, data, pieces) == append_pieces(
            rows,
            shard,
            data_start,
            data,
            pieces.take(k),
        ),
    decreases pieces.len() - k,
{
    if k < pieces.len() {
        assert(pieces.take(k + 1).drop_last() =~= pieces.take(k));
        lemma_append_stops(rows, shard, data_start, data, pieces, k + 1);
    } else {
        assert(pieces.take(k) =~= pieces);
    }
}

impl FlowStore {
    /// Whether `post` and `r` are what appending `data` to `pre` gives, where
    /// `worker_available` says whether sealers count as available: the
    /// batches of the plan are stored, the roots of those that are complete
    /// are returned in ascending order of the batch index, and the seal
    /// units that the append completed are queued in the current generation
    /// if sealers are available. Where the plan fails, nothing changes.
    pub open spec fn append_outcome(
        pre: FlowStore,
        post: FlowStore,
        r: Result<Vec<(u64, DataRoot)>, Error>,
        data: ChunkArray,
        worker_available: bool,
    ) -> bool {
        &&& post.flow_rows() == pre.flow_rows()
        &&& post.seal_version() == pre.seal_version()
        &&& post.shard_config() == pre.shard_config()
        &&& post.config() == pre.config()
        &&& match spec_append_plan(
            pre.data_rows(),
            pre.shard_config(),
            data.start_index,
            data.data@,
        ) {
            Ok(plan) => {
                &&& r is Ok
                &&& roots_view(r.unwrap()@) == completed_roots(plan.batches)
                &&& post.data_rows() == put_batches(pre.data_rows(), plan.batches)
                &&& post.pending() == (if worker_available {
                    insert_all(pre.pending(), plan.queued, pre.seal_version())
                } else {
                    pre.pending()
                })
            },
            Err(e) => {
                &&& r is Err
                &&& r.unwrap_err() == e
                &&& post.data_rows() == pre.data_rows()
                &&& post.pending() == pre.pending()
            },
        }
    }

    /// Appends the sectors `data`. Sealers count as available or not as the
    /// clock says; see `append_entries_with` for what is done either way.
    pub fn append_entries(&mut self, data: ChunkArray) -> (r: Result<Vec<(u64, DataRoot)>, Error>)
        requires
            old(self).wf(),
        ensures
            final(self).wf(),
            final(self).polled() == old(self).polled(),
            Self::append_outcome(*old(self), *final(self), r, data, true) || Self::append_outcome(
                *old(self),
                *final(self),
                r,
                data,
                false,
            ),
            !old(self).polled() ==> Self::append_outcome(*old(self), *final(self), r, data, false),
    {
        let worker_available = self.seal_manager.seal_worker_available();
        self.append_entries_with(data, worker_available)
    }

    /// Appends the sectors `data`, where `worker_available` says whether
    /// sealers count as available. Data that is not whole sectors is
    /// refused. The data is cut at batch boundaries; the pieces in batches
    /// that this node does not store are skipped; each other piece is
    /// written into its batch, which is made if it is not there. All the
    /// batches are stored in one transaction. Returns the roots of the
    /// batches that are now complete, in ascending order of the batch
    /// index.
    pub fn append_entries_with(&mut self, data: ChunkArray, worker_available: bool) -> (r: Result<
        Vec<(u64, DataRoot)>,
        Error,
    >)
        requires
            old(self).wf(),
        ensures
            final(self).wf(),
            final(self).polled() == old(self).polled(),
            Self::append_outcome(*old(self), *final(self), r, data, worker_available),
    {
        let len: usize = data.data.len();
        if len % BYTES_PER_SECTOR != 0 {
            return Err(Error::InvalidArgument);
        }
        let entries: u64 = (len / BYTES_PER_SECTOR) as u64;
        if entries > u64::MAX - data.start_index {
            return Err(Error::InvalidArgument);
        }
        let index_end: u64 = data.start_index + entries;
        if len == 0 {
            let none: Vec<(u64, DataRoot)> = Vec::new();
            assert(roots_view(none@) =~= completed_roots(Seq::empty()));
            return Ok(none);
        }
        let ghost rows = self.data_rows();
        let ghost shard = self.shard_config();
        let ghost start = data.start_index;
        let ghost bytes = data.data@;
        let (updated, queued) = match self.plan_append(&data, index_end) {
            Ok(plan) => plan,
            Err(e) => {
                return Err(e);
            },
        };
        let version: u64 = self.seal_manager.to_seal_version();
        if worker_available {
            queue_all(&mut self.seal_manager.to_seal_set, &queued, version);
        }
        proof {
            lemma_append_keeps_backed(rows, old(self).pending(), shard, start, bytes, version);
            lemma_insert_all_bounded(old(self).pending(), queued@, version);
        }
        self.data_db.put_entry_batch_list(updated)
    }

    /// What an append of `data`, which ends before the sector index
    /// `index_end`, is going to store and queue: the batches with the
    /// pieces of the data written to them, and the global indices of the
    /// seal units that this completes.
    fn plan_append(&self, data: &ChunkArray, index_end: u64) -> (r: Result<
        (Vec<(u64, EntryBatch)>, Vec<u64>),
        Error,
    >)
        requires
            self.wf(),
            data.data@.len() > 0,
            data.data@.len() % (BYTES_PER_SECTOR as nat) == 0,
            index_end == data.start_index + data.data@.len() / (BYTES_PER_SECTOR as nat),
        ensures
            match append_pieces(
                self.data_rows(),
                self.shard_config(),
                data.start_index,
                data.data@,
                batch_list(data.start_index, index_end, SECTORS_PER_LOAD),
            ) {
                Ok(plan) => r matches Ok(found) && batch_list_view(found.0@) == plan.batches
                    && found.1@ == plan.queued && forall|t: int|
                    0 <= t < found.0@.len() ==> (#[trigger] found.0@[t]).1@.wf(),
                Err(e) => r matches Err(err) && err == e,
            },
    {
        let ghost rows = self.data_rows();
        let ghost shard = self.shard_config();
        let ghost start = data.start_index;
        let ghost bytes = data.data@;
        let pieces = batch_iter(data.start_index, index_end, self.config.batch_size);
        proof {
            lemma_batch_list_covers(data.start_index, index_end, SECTORS_PER_LOAD);
        }
        let mut updated: Vec<(u64, EntryBatch)> = Vec::new();
        let mut queued: Vec<u64> = Vec::new();
        let mut j: usize = 0;
        assert(pieces@.take(0) =~= Seq::<(u64, u64)>::empty());
        assert(batch_list_view(updated@) =~= Seq::<(u64, BatchView)>::empty());
        while j < pieces.len()
            invariant
                self.wf(),
                rows == self.data_rows(),
                shard == self.shard_config(),
                start == data.start_index,
                bytes == data.data@,
                bytes.len() % (BYTES_PER_SECTOR as nat) == 0,
                index_end == start + bytes.len() / (BYTES_PER_SECTOR as nat),
                j <= pieces@.len(),
                pieces@ == batch_list(start, index_end, SECTORS_PER_LOAD),
                forall|t: int|
                    0 <= t < pieces@.len() ==> (#[trigger] pieces@[t]).0 < pieces@[t].1
                        && pieces@[t].0 as int / (SECTORS_PER_LOAD as int) == (pieces@[t].1 - 1)
                        / (SECTORS_PER_LOAD as int) && start <= pieces@[t].0 && pieces@[t].1
                        <= index_end,
                forall|t: int| 0 <= t < updated@.len() ==> (#[trigger] updated@[t]).1@.wf(),
                append_pieces(rows, shard, start, bytes, pieces@.take(j as int)) == Ok::<
                    AppendPlan,
                    Error,
                >(AppendPlan { batches: batch_list_view(updated@), queued: queued@ }),
            decreases pieces@.len() - j,
        {
            let (start_entry_index, end_entry_index) = pieces[j];
            proof {
                assert(pieces@.take(j as int + 1).drop_last() =~= pieces@.take(j as int));
                assert(pieces@.take(j as int + 1).last() == pieces@[j as int]);
                assert(pieces@[j as int].0 < pieces@[j as int].1);
            }
            let batch_size: u64 = self.config.batch_size as u64;
            let chunk_index: u64 = start_entry_index / batch_size;
            if self.config.shard_config.in_range(chunk_index) {
                let chunk = match data.sub_array(start_entry_index, end_entry_index) {
                    Some(chunk) => chunk,
                    None => {
                        return Err(Error::InvalidArgument);
                    },
                };
                let mut batch = match self.data_db.get_entry_batch(chunk_index) {
                    Err(e) => {
                        proof {
                            lemma_append_stops(rows, shard, start, bytes, pieces@, j as int + 1);
                        }
                        return Err(e);
                    },
                    Ok(Some(batch)) => batch,
                    Ok(None) => EntryBatch::new(),
                };
                let offset: usize = (start_entry_index % batch_size) as usize;
                let ghost before = batch@;
                let completed_seals = match batch.insert_data(offset, chunk.data) {
                    Ok(units) => units,
                    Err(e) => {
                        return Err(e);
                    },
                };
                let mut globals = to_global(chunk_index, &completed_seals);
                let ghost queued_before = queued@;
                let ghost list_before = updated@;
                queued.append(&mut globals);
                updated.push((chunk_index, batch));
                proof {
                    assert(batch_list_view(updated@) =~= batch_list_view(list_before).push(
                        (chunk_index, batch@),
                    ));
                }
            }
            j += 1;
        }
        assert(pieces@.take(pieces@.len() as int) =~= pieces@);
        Ok((updated, queued))
    }
}

/// Queues each seal index of `queued` in generation `version`.
fn queue_all(set: &mut PendingSet, queued: &Vec<u64>, version: u64)
    requires
        old(set).wf(),
    ensures
        final(set).wf(),
        final(set)@ == insert_all(old(set)@, queued@, version),
{
    let mut k: usize = 0;
    assert(queued@.take(0) =~= Seq::<u64>::empty());
    while k < queued.len()
        invariant
            k <= queued@.len(),
            set.wf(),
            set@ == insert_all(old(set)@, queued@.take(k as int), version),
        decreases queued@.len() - k,
    {
        set.insert(queued[k], version);
        proof {
            assert(queued@.take(k as int + 1).drop_last() =~= queued@.take(k as int));
        }
        k += 1;
    }
    assert(queued@.take(queued@.len() as int) =~= queued@);
}

/// Queueing seal units in a generation keeps every generation in the
/// pending seal set at or below that generation, if they were so before.
proof fn lemma_insert_all_bounded(pending: Map<u64, u64>, keys: Seq<u64>, version: u64)
    requires
        forall|k: u64| #[trigger] pending.contains_key(k) ==> pending[k] <= version,
    ensures
        forall|k: u64| #[trigger]
            insert_all(pending, keys, version).contains_key(k) ==> insert_all(
                pending,
                keys,
                version,
            )[k] <= version,
{
    lemma_insert_all(pending, keys, version);
    let all = insert_all(pending, keys, version);
    assert forall|k: u64| #[trigger] all.contains_key(k) implies all[k] <= version by {
        if !keys.contains(k) {
            assert(pending.contains_key(k));
        }
    }
}

/// The seal units that a truncation sends back to the sealers all lie
/// before the cut.
pub proof fn lemma_reseal_before_cut(rows: Rows, start_index: u64)
    ensures
        spec_truncate(rows, start_index, SECTORS_PER_LOAD) matches Ok((_, reseal)) ==> forall|
            j: int,
        |
            0 <= j < reseal.len() ==> (#[trigger] reseal[j]) < start_index / (
            SECTORS_PER_SEAL as u64),
{
    let batch = (start_index as int / (SECTORS_PER_LOAD as int)) as u64;
    let offset = start_index as int % (SECTORS_PER_LOAD as int);
    match spec_truncate(rows, start_index, SECTORS_PER_LOAD) {
        Ok((_, reseal)) => {
            if offset != 0 {
                match spec_get_batch(rows, batch) {
                    Ok(Some(v)) => {
                        let again = |u: u16|
                            v.sealed[u as int] && (u as int + 1) * (SECTORS_PER_SEAL as int)
                                <= offset;
                        lemma_units_filter(again);
                        let units = v.reseal_units(offset);
                        assert(units == crate::entry_batch::all_units().filter(again));
                        assert forall|j: int| 0 <= j < reseal.len() implies (#[trigger] reseal[j])
                            < start_index / (SECTORS_PER_SEAL as u64) by {
                            assert(again(units[j]));
                            assert(reseal[j] == batch * (SEALS_PER_LOAD as u64) + units[j]);
                        }
                    },
                    _ => {},
                }
            }
        },
        Err(_) => {},
    }
}

/// The entries of the pending seal set that one pull hands out: none where
/// the set is empty or its first seal index is `max` or more; else those of
/// the first entry's batch with a seal index below `max`, in ascending
/// order.
pub open spec fn pull_candidates(ordered: Seq<(u64, u64)>, max: u64) -> Seq<(u64, u64)> {
    if ordered.len() == 0 || ordered[0].0 >= max {
        Seq::empty()
    } else {
        ordered.filter(pull_test(ordered[0].0, max))
    }
}

/// The test that an entry passes when it is of the batch of seal index
/// `first` and below `max`.
pub open spec fn pull_test(first: u64, max: u64) -> spec_fn((u64, u64)) -> bool {
    |e: (u64, u64)|
        e.0 / (SEALS_PER_LOAD as u64) == first / (SEALS_PER_LOAD as u64) && e.0 < max
}

/// Whether batch `v` holds the raw bytes of every seal unit in `candidates`.
pub open spec fn can_pull(v: BatchView, candidates: Seq<(u64, u64)>) -> bool {
    forall|j: int|
        0 <= j < candidates.len() ==> v.non_sealed_unit(
            local_seal_index((#[trigger] candidates[j]).0),
        ) is Some
}

/// Whether `tasks` are the tasks for `candidates` out of batch `v`: one per
/// entry, in order, with the entry's seal index and generation and the raw
/// bytes of its seal unit.
pub open spec fn tasks_match(v: BatchView, candidates: Seq<(u64, u64)>, tasks: Seq<SealTask>)
    -> bool {
    &&& tasks.len() == candidates.len()
    &&& forall|j: int|
        0 <= j < tasks.len() ==> (#[trigger] tasks[j]).seal_index == candidates[j].0
            && tasks[j].version == candidates[j].1 && v.non_sealed_unit(
            local_seal_index(candidates[j].0),
        ) == Some(tasks[j].non_sealed_data@)
}

/// Whether `r` is what a pull with the bound `max` gives for the batches in
/// `rows` and the pending seal set `ordered`: nothing where there are no
/// candidates; else the tasks for the candidates; an error where their batch
/// is missing, does not decode, or lacks the raw bytes of a candidate.
pub open spec fn pull_result(
    rows: Rows,
    ordered: Seq<(u64, u64)>,
    max: u64,
    r: Result<Option<Vec<SealTask>>, Error>,
) -> bool {
    let candidates = pull_candidates(ordered, max);
    if candidates.len() == 0 {
        r matches Ok(None)
    } else {
        match spec_get_batch(rows, candidates[0].0 / (SEALS_PER_LOAD as u64)) {
            Err(e) => r matches Err(err) && err == e,
            Ok(None) => r matches Err(err) && err == Error::NotFound,
            Ok(Some(v)) => if can_pull(v, candidates) {
                r matches Ok(Some(tasks)) && tasks_match(v, candidates, tasks@)
            } else {
                r matches Err(err) && err == Error::NotFound
            },
        }
    }
}

/// The batch that the seal unit with the global index `seal_index` lies in.
pub open spec fn seal_batch(seal_index: u64) -> u64 {
    seal_index / (SEALS_PER_LOAD as u64)
}

/// The batch that the seal unit of `answer` lies in.
pub fn answer_batch(answer: &SealAnswer) -> (batch: u64)
    ensures
        batch == seal_batch(answer.seal_index),
{
    answer.seal_index / (SEALS_PER_LOAD as u64)
}

/// A list of answers cut into runs: neighbours whose seal units lie in the
/// same batch go into the same run, and a run ends where the batch changes.
pub open spec fn chunk_runs(answers: Seq<SealAnswer>) -> Seq<Seq<SealAnswer>>
    decreases answers.len(),
{
    if answers.len() == 0 {
        Seq::empty()
    } else {
        let before = chunk_runs(answers.drop_last());
        let answer = answers.last();
        if before.len() > 0 && before.last().len() > 0 && seal_batch(
            before.last().last().seal_index,
        ) == seal_batch(answer.seal_index) {
            before.drop_last().push(before.last().push(answer))
        } else {
            before.push(seq![answer])
        }
    }
}

/// The answers that a list of references points to.
pub open spec fn derefs<'a>(answers: Seq<&'a SealAnswer>) -> Seq<SealAnswer> {
    Seq::new(answers.len(), |i: int| *answers[i])
}

/// Runs of answers as plain sequences.
pub open spec fn runs_view<'a>(groups: Seq<Vec<&'a SealAnswer>>) -> Seq<Seq<SealAnswer>> {
    Seq::new(groups.len(), |i: int| derefs(groups[i]@))
}

/// `Itertools::chunk_by` on the answers, keyed by the batch of each answer's
/// seal unit, each chunk collected: consecutive answers with the same key
/// form one chunk, in the order they came.
#[verifier::external_body]
pub(crate) fn chunk_by_batch<'a>(answers: Vec<&'a SealAnswer>) -> (groups: Vec<
    Vec<&'a SealAnswer>,
>)
    ensures
        runs_view(groups@) == chunk_runs(derefs(answers@)),
{
    let chunks = answers.into_iter().chunk_by(|answer| answer_batch(answer));
    let groups = (&chunks).into_iter().map(|(_, group)| group.collect()).collect();
    groups
}

/// Whether `answer` is for a seal unit that is pending in the generation
/// that the answer names.
pub open spec fn consistent(pending: Map<u64, u64>, answer: SealAnswer) -> bool {
    pending.contains_key(answer.seal_index) && pending[answer.seal_index] == answer.version
}

/// The test that `consistent` makes for a pending seal set.
pub open spec fn consistent_test(pending: Map<u64, u64>) -> spec_fn(SealAnswer) -> bool {
    |answer: SealAnswer| consistent(pending, answer)
}

/// Those of `answers` that are consistent with `pending`, in order.
pub open spec fn consistent_answers(pending: Map<u64, u64>, answers: Seq<SealAnswer>) -> Seq<
    SealAnswer,
> {
    answers.filter(consistent_test(pending))
}

/// Batch `batch` after the answers of `group` were taken in order; an error
/// where the batch refuses one.
pub open spec fn seal_group(batch: BatchView, group: Seq<SealAnswer>) -> Result<BatchView, Error>
    decreases group.len(),
{
    if group.len() == 0 {
        Ok(batch)
    } else {
        match seal_group(batch, group.drop_last()) {
            Err(e) => Err(e),
            Ok(b) => {
                let answer = group.last();
                if b.can_seal(local_seal_index(answer.seal_index), answer.sealed_data@) {
                    Ok(b.sealed_with(local_seal_index(answer.seal_index), answer.sealed_data@))
                } else {
                    Err(Error::InvalidArgument)
                }
            },
        }
    }
}

/// The batches to store after the runs `groups` were taken in order: for
/// each run the batch of its first answer as it is in `rows`, with the
/// answers of the run applied. An error where a batch is missing, does not
/// decode or refuses an answer.
pub open spec fn seal_groups(rows: Rows, groups: Seq<Seq<SealAnswer>>) -> Result<
    Seq<(u64, BatchView)>,
    Error,
>
    decreases groups.len(),
{
    if groups.len() == 0 {
        Ok(Seq::empty())
    } else {
        match seal_groups(rows, groups.drop_last()) {
            Err(e) => Err(e),
            Ok(done) => {
                let group = groups.last();
                if group.len() == 0 {
                    Ok(done)
                } else {
                    let load_index = seal_batch(group[0].seal_index);
                    match spec_get_batch(rows, load_index) {
                        Err(e) => Err(e),
                        Ok(None) => Err(Error::NotFound),
                        Ok(Some(v)) => match seal_group(v, group) {
                            Err(e) => Err(e),
                            Ok(b) => Ok(done.push((load_index, b))),
                        },
                    }
                }
            },
        }
    }
}

/// The seal indices that the answers `answers` name.
pub open spec fn answered(answers: Seq<SealAnswer>) -> Set<u64> {
    Set::new(|k: u64| exists|j: int| 0 <= j < answers.len() && (#[trigger] answers[j]).seal_index == k)
}

/// What submitting `answers` does to the batches in `rows` and to the
/// pending seal set: the answers that are not consistent with the pending
/// seal set are dropped; the others are applied run by run, the batches are
/// stored, and their seal units leave the pending seal set.
pub open spec fn spec_submit(rows: Rows, pending: Map<u64, u64>, answers: Seq<SealAnswer>)
    -> Result<(Rows, Map<u64, u64>), Error> {
    let kept = consistent_answers(pending, answers);
    match seal_groups(rows, chunk_runs(kept)) {
        Err(e) => Err(e),
        Ok(updated) => Ok((put_batches(rows, updated), pending.remove_keys(answered(kept)))),
    }
}

proof fn lemma_seal_groups_stop(rows: Rows, groups: Seq<Seq<SealAnswer>>, k: int)
    requires
        0 <= k <= groups.len(),
        seal_groups(rows, groups.take(k)) is Err,
    ensures
        seal_groups(rows, groups) == seal_groups(rows, groups.take(k)),
    decreases groups.len() - k,
{
    if k < groups.len() {
        assert(groups.take(k + 1).drop_last() =~= groups.take(k));
        lemma_seal_groups_stop(rows, groups, k + 1);
    } else {
        assert(groups.take(k) =~= groups);
    }
}

proof fn lemma_seal_group_stop(batch: BatchView, group: Seq<SealAnswer>, k: int)
    requires
        0 <= k <= group.len(),
        seal_group(batch, group.take(k)) is Err,
    ensures
        seal_group(batch, group) == seal_group(batch, group.take(k)),
    decreases group.len() - k,
{
    if k < group.len() {
        assert(group.take(k + 1).drop_last() =~= group.take(k));
        lemma_seal_group_stop(batch, group, k + 1);
    } else {
        assert(group.take(k) =~= group);
    }
}

impl FlowStore {
    /// Truncates the flow at the sector index `start_index`: the batches are
    /// cut as `spec_truncate` says; every seal unit from `start_index /
    /// SECTORS_PER_SEAL` on leaves the pending seal set; the next
    /// generation begins; and the seal units that have to be sealed again
    /// are queued in it. So afterwards nothing is pending at or after the
    /// cut, and what was queued again has a generation above every earlier
    /// one. Where the database cannot be truncated, nothing changes.
    pub fn truncate(&mut self, start_index: u64) -> (r: Result<(), Error>)
        requires
            old(self).wf(),
            old(self).seal_version() < u64::MAX,
        ensures
            final(self).wf(),
            final(self).flow_rows() == old(self).flow_rows(),
            final(self).shard_config() == old(self).shard_config(),
            final(self).config() == old(self).config(),
            final(self).polled() == old(self).polled(),
            match spec_truncate(old(self).data_rows(), start_index, SECTORS_PER_LOAD) {
                Ok((rows, reseal)) => {
                    &&& r is Ok
                    &&& final(self).data_rows() == rows
                    &&& final(self).seal_version() == old(self).seal_version() + 1
                    &&& final(self).pending() == insert_all(
                        old(self).pending().remove_keys(
                            from_index(start_index / (SECTORS_PER_SEAL as u64)),
                        ),
                        reseal,
                        final(self).seal_version(),
                    )
                    &&& forall|k: u64| #[trigger]
                        final(self).pending().contains_key(k) ==> k < start_index / (
                        SECTORS_PER_SEAL as u64)
                    &&& forall|k: u64|
                        reseal.contains(k) ==> final(self).pending().contains_key(k)
                            && #[trigger] final(self).pending()[k] > old(self).seal_version()
                },
                Err(e) => {
                    &&& r is Err
                    &&& r.unwrap_err() == e
                    &&& final(self).data_rows() == old(self).data_rows()
                    &&& final(self).seal_version() == old(self).seal_version()
                    &&& final(self).pending() == old(self).pending()
                },
            },
    {
        let to_reseal = match self.data_db.truncate(start_index, self.config.batch_size) {
            Ok(list) => list,
            Err(e) => {
                return Err(e);
            },
        };
        let ghost cut = start_index / (SECTORS_PER_SEAL as u64);
        let ghost before = old(self).pending();
        self.seal_manager.to_seal_set.split_off(start_index / (SECTORS_PER_SEAL as u64));
        let new_seal_version: u64 = self.seal_manager.inc_seal_version();
        let ghost base = self.seal_manager.to_seal_set@;
        let ghost data_db = self.data_db;
        let mut k: usize = 0;
        assert(to_reseal@.take(0) =~= Seq::<u64>::empty());
        while k < to_reseal.len()
            invariant
                k <= to_reseal@.len(),
                self.seal_manager.wf(),
                self.flow_db == old(self).flow_db,
                self.data_db == data_db,
                self.data_db.wf(),
                self.config == old(self).config,
                self.seal_manager.clock == old(self).seal_manager.clock,
                self.seal_manager.to_seal_version == new_seal_version,
                self.seal_manager.to_seal_set@ == insert_all(
                    base,
                    to_reseal@.take(k as int),
                    new_seal_version,
                ),
            decreases to_reseal@.len() - k,
        {
            self.seal_manager.to_seal_set.insert(to_reseal[k], new_seal_version);
            proof {
                assert(to_reseal@.take(k as int + 1).drop_last() =~= to_reseal@.take(k as int));
            }
            k += 1;
        }
        proof {
            assert(to_reseal@.take(to_reseal@.len() as int) =~= to_reseal@);
            lemma_insert_all(base, to_reseal@, new_seal_version);
            lemma_reseal_before_cut(old(self).data_rows(), start_index);
            lemma_truncate_keeps_backed(
                old(self).data_rows(),
                old(self).pending(),
                start_index,
                new_seal_version,
            );
            assert forall|x: u64| #[trigger]
                self.seal_manager.to_seal_set@.contains_key(x) implies x < cut
                && self.seal_manager.to_seal_set@[x] <= new_seal_version by {
                if to_reseal@.contains(x) {
                    let j = choose|j: int| 0 <= j < to_reseal@.len() && to_reseal@[j] == x;
                    assert(to_reseal@[j] < cut);
                } else {
                    assert(base.contains_key(x));
                    assert(before.contains_key(x));
                }
            }
        }
        Ok(())
    }

    /// Hands out work to a sealer and records that it asked: the pending
    /// seal units of one batch, namely of the batch of the smallest pending
    /// seal index, that lie below `seal_index_max`, in ascending order of
    /// the seal index and so at most one batch's worth. Gives `None` where
    /// nothing is pending below `seal_index_max`. It never fails: what is
    /// pending is there to be sealed.
    pub fn pull_seal_chunk(&mut self, seal_index_max: usize) -> (r: Result<
        Option<Vec<SealTask>>,
        Error,
    >)
        requires
            old(self).wf(),
        ensures
            final(self).wf(),
            final(self).polled(),
            final(self).data_rows() == old(self).data_rows(),
            final(self).flow_rows() == old(self).flow_rows(),
            final(self).pending() == old(self).pending(),
            final(self).pending_ordered() == old(self).pending_ordered(),
            final(self).seal_version() == old(self).seal_version(),
            final(self).shard_config() == old(self).shard_config(),
            final(self).config() == old(self).config(),
            pull_result(
                old(self).data_rows(),
                old(self).pending_ordered(),
                seal_index_max as u64,
                r,
            ),
            r is Ok,
            r matches Ok(Some(tasks)) ==> {
                &&& 1 <= tasks@.len() <= SEALS_PER_LOAD
                &&& forall|i: int, j: int|
                    0 <= i < j < tasks@.len() ==> (#[trigger] tasks@[i]).seal_index < (
                    #[trigger] tasks@[j]).seal_index
                &&& forall|j: int|
                    0 <= j < tasks@.len() ==> seal_batch((#[trigger] tasks@[j]).seal_index)
                        == seal_batch(tasks@[0].seal_index) && tasks@[j].seal_index
                        < seal_index_max && old(self).pending().contains_key(tasks@[j].seal_index)
                        && old(self).pending()[tasks@[j].seal_index] == tasks@[j].version
            },
    {
        let ghost rows = self.data_rows();
        let ghost ordered = self.pending_ordered();
        proof {
            self.seal_manager.to_seal_set.lemma_ordered();
        }
        let r = self.pull_tasks(seal_index_max);
        proof {
            lemma_pull_succeeds(rows, ordered, seal_index_max as u64, r);
        }
        r
    }

    /// Collects the tasks of one pull.
    fn pull_tasks(&mut self, seal_index_max: usize) -> (r: Result<
        Option<Vec<SealTask>>,
        Error,
    >)
        requires
            old(self).wf(),
        ensures
            final(self).wf(),
            final(self).polled(),
            final(self).data_rows() == old(self).data_rows(),
            final(self).flow_rows() == old(self).flow_rows(),
            final(self).pending() == old(self).pending(),
            final(self).pending_ordered() == old(self).pending_ordered(),
            final(self).seal_version() == old(self).seal_version(),
            final(self).shard_config() == old(self).shard_config(),
            final(self).config() == old(self).config(),
            pull_result(
                old(self).data_rows(),
                old(self).pending_ordered(),
                seal_index_max as u64,
                r,
            ),
            r matches Ok(Some(tasks)) ==> {
                &&& 1 <= tasks@.len() <= SEALS_PER_LOAD
                &&& forall|i: int, j: int|
                    0 <= i < j < tasks@.len() ==> (#[trigger] tasks@[i]).seal_index < (
                    #[trigger] tasks@[j]).seal_index
                &&& forall|j: int|
                    0 <= j < tasks@.len() ==> seal_batch((#[trigger] tasks@[j]).seal_index)
                        == seal_batch(tasks@[0].seal_index) && tasks@[j].seal_index
                        < seal_index_max && old(self).pending().contains_key(tasks@[j].seal_index)
                        && old(self).pending()[tasks@[j].seal_index] == tasks@[j].version
            },
    {
        self.seal_manager.update_pull_time();
        let max: u64 = seal_index_max as u64;
        let ghost ordered = self.seal_manager.to_seal_set.ordered();
        let ghost rows = self.data_rows();
        proof {
            self.seal_manager.to_seal_set.lemma_ordered();
        }
        let (first_index, first_version) = match self.seal_manager.to_seal_set.first() {
            Some(first) => first,
            None => {
                return Ok(None);
            },
        };
        if first_index >= max {
            return Ok(None);
        }
        let ghost test = pull_test(first_index, max);
        let ghost candidates = ordered.filter(test);
        proof {
            lemma_filter_ascending(ordered, test);
            assert(candidates.len() > 0 && candidates[0] == ordered[0]);
            assert(candidates == pull_candidates(ordered, max));
        }
        let batch_data = match self.data_db.get_entry_batch(first_index / (SEALS_PER_LOAD as u64)) {
            Err(e) => {
                return Err(e);
            },
            Ok(None) => {
                return Err(Error::NotFound);
            },
            Ok(Some(batch)) => batch,
        };
        let mut tasks: Vec<SealTask> = Vec::with_capacity(SEALS_PER_LOAD);
        let n: usize = self.seal_manager.to_seal_set.len();
        let mut i: usize = 0;
        let ghost mut taken: Seq<(u64, u64)> = Seq::empty();
        let ghost snapshot = *self;
        assert(ordered.take(0) =~= Seq::<(u64, u64)>::empty());
        assert(taken =~= ordered.take(0).filter(test)) by {
            reveal(Seq::filter);
        }
        while i < n
            invariant
                i <= n,
                n == ordered.len(),
                *self == snapshot,
                max == seal_index_max as u64,
                self.wf(),
                self.polled(),
                self.data_rows() == old(self).data_rows(),
                self.flow_rows() == old(self).flow_rows(),
                self.pending() == old(self).pending(),
                self.pending_ordered() == old(self).pending_ordered(),
                self.seal_version() == old(self).seal_version(),
                self.shard_config() == old(self).shard_config(),
                self.config() == old(self).config(),
                spec_get_batch(rows, first_index / (SEALS_PER_LOAD as u64)) == Ok::<
                    Option<BatchView>,
                    Error,
                >(Some(batch_data@)),
                candidates.len() > 0 && candidates[0].0 == first_index,
                candidates == pull_candidates(ordered, max),
                rows == old(self).data_rows(),
                ordered == old(self).pending_ordered(),
                ordered == self.seal_manager.to_seal_set.ordered(),
                test == pull_test(first_index, max),
                candidates == ordered.filter(test),
                batch_data@.wf(),
                taken == ordered.take(i as int).filter(test),
                tasks_match(batch_data@, taken, tasks@),
            decreases n - i,
        {
            let (seal_index, version) = self.seal_manager.to_seal_set.nth(i);
            proof {
                assert(ordered.take(i as int + 1) =~= ordered.take(i as int).push(
                    (seal_index, version),
                ));
                lemma_filter_push(ordered.take(i as int), (seal_index, version), test);
            }
            if seal_index / (SEALS_PER_LOAD as u64) == first_index / (SEALS_PER_LOAD as u64)
                && seal_index < max {
                let seal_index_local: u64 = seal_index % (SEALS_PER_LOAD as u64);
                let non_sealed_data = match batch_data.get_non_sealed_data(
                    seal_index_local as u16,
                ) {
                    Some(bytes) => bytes,
                    None => {
                        proof {
                            ordered.lemma_filter_contains(test, i as int);
                            let j = choose|j: int|
                                0 <= j < candidates.len() && candidates[j] == ordered[i as int];
                            assert(candidates[j].0 == seal_index);
                            assert(local_seal_index(seal_index) == seal_index_local as u16 as int);
                            assert(batch_data@.non_sealed_unit(
                                local_seal_index(candidates[j].0),
                            ) is None);
                            assert(!can_pull(batch_data@, candidates));
                        }
                        return Err(Error::NotFound);
                    },
                };
                tasks.push(SealTask { seal_index, version, non_sealed_data });
                proof {
                    taken = taken.push((seal_index, version));
                }
            }
            i += 1;
        }
        proof {
            assert(ordered.take(n as int) =~= ordered);
            assert(taken == candidates);
            assert forall|j: int| 0 <= j < candidates.len() implies batch_data@.non_sealed_unit(
                local_seal_index((#[trigger] candidates[j]).0),
            ) is Some by {
                assert(tasks@[j].seal_index == candidates[j].0);
            }
            assert(can_pull(batch_data@, candidates));
            assert forall|a: int, b: int| 0 <= a < b < tasks@.len() implies (#[trigger] tasks@[a]).seal_index
                < (#[trigger] tasks@[b]).seal_index by {
                assert(candidates[a].0 < candidates[b].0);
            }
            assert forall|j: int| 0 <= j < tasks@.len() implies seal_batch(
                (#[trigger] tasks@[j]).seal_index,
            ) == seal_batch(tasks@[0].seal_index) && tasks@[j].seal_index < seal_index_max
                && old(self).pending().contains_key(tasks@[j].seal_index) && old(self).pending()[tasks@[j].seal_index] == tasks@[j].version by {
                assert(test(candidates[j]));
                assert(test(candidates[0]));
                let t = choose|t: int| elem_at(ordered, candidates[j], t);
                assert(ordered[t] == candidates[j]);
            }
            lemma_ascending_gap(candidates, candidates.len() - 1);
            assert(test(candidates[candidates.len() - 1]));
            assert(test(candidates[0]));
        }
        Ok(Some(tasks))
    }

    /// Takes the sealers' answers. An answer whose seal unit is not pending
    /// in the generation that the answer names is dropped without notice.
    /// The others are applied to their batches, a run of neighbours of one
    /// batch at a time; the batches are stored in one transaction, and the
    /// seal units of the applied answers leave the pending seal set. Where
    /// a batch is missing, does not decode or refuses an answer, nothing
    /// changes.
    pub fn submit_seal_result(&mut self, answers: Vec<SealAnswer>) -> (r: Result<(), Error>)
        requires
            old(self).wf(),
        ensures
            final(self).wf(),
            final(self).flow_rows() == old(self).flow_rows(),
            final(self).seal_version() == old(self).seal_version(),
            final(self).shard_config() == old(self).shard_config(),
            final(self).config() == old(self).config(),
            final(self).polled() == old(self).polled(),
            match spec_submit(old(self).data_rows(), old(self).pending(), answers@) {
                Ok((rows, pending)) => r is Ok && final(self).data_rows() == rows && final(self).pending() == pending,
                Err(e) => r is Err && r.unwrap_err() == e && final(self).data_rows() == old(self).data_rows() && final(self).pending() == old(self).pending(),
            },
            r matches Err(e) ==> e == Error::InvalidArgument,
    {
        let ghost rows = self.data_rows();
        let ghost pending = self.pending();
        proof {
            lemma_submit_errors(rows, pending, answers@);
        }
        let ghost test = consistent_test(pending);
        let ghost refs = answers@;
        let mut kept: Vec<&SealAnswer> = Vec::new();
        let mut i: usize = 0;
        assert(refs.take(0) =~= Seq::<SealAnswer>::empty());
        assert(derefs(kept@) =~= refs.take(0).filter(test)) by {
            reveal(Seq::filter);
        }
        while i < answers.len()
            invariant
                i <= answers@.len(),
                *self == *old(self),
                self.wf(),
                pending == self.pending(),
                test == consistent_test(pending),
                refs == answers@,
                derefs(kept@) == refs.take(i as int).filter(test),
            decreases answers@.len() - i,
        {
            let answer: &SealAnswer = &answers[i];
            proof {
                assert(refs.take(i as int + 1) =~= refs.take(i as int).push(*answer));
                lemma_filter_push(refs.take(i as int), *answer, test);
            }
            let is_consistent: bool = match self.seal_manager.to_seal_set.get(answer.seal_index) {
                Some(cur_ver) => cur_ver == answer.version,
                None => false,
            };
            if is_consistent {
                let ghost kept_before = kept@;
                kept.push(answer);
                assert(derefs(kept@) =~= derefs(kept_before).push(*answer));
            }
            i += 1;
        }
        assert(refs.take(answers@.len() as int) =~= refs);
        let ghost kept_view = derefs(kept@);
        assert(kept_view == consistent_answers(pending, answers@));
        let mut removed_seal_index: Vec<u64> = Vec::new();
        let mut c: usize = 0;
        while c < kept.len()
            invariant
                c <= kept@.len(),
                derefs(kept@) == kept_view,
                removed_seal_index@.len() == c,
                forall|j: int|
                    0 <= j < c ==> #[trigger] removed_seal_index@[j] == kept_view[j].seal_index,
            decreases kept@.len() - c,
        {
            assert(kept_view[c as int] == *kept@[c as int]);
            removed_seal_index.push(kept[c].seal_index);
            c += 1;
        }
        let groups = chunk_by_batch(kept);
        let ghost runs = chunk_runs(kept_view);
        let mut updated_chunk: Vec<(u64, EntryBatch)> = Vec::new();
        let mut g: usize = 0;
        assert(runs.take(0) =~= Seq::<Seq<SealAnswer>>::empty());
        assert(batch_list_view(updated_chunk@) =~= Seq::<(u64, BatchView)>::empty());
        while g < groups.len()
            invariant
                g <= groups@.len(),
                *self == *old(self),
                self.wf(),
                rows == self.data_rows(),
                pending == self.pending(),
                kept_view == consistent_answers(pending, answers@),
                runs == chunk_runs(kept_view),
                spec_submit(rows, pending, answers@) matches Err(e) ==> e == Error::InvalidArgument,
                runs == runs_view(groups@),
                forall|t: int| 0 <= t < updated_chunk@.len() ==> (#[trigger] updated_chunk@[t]).1@.wf(),
                seal_groups(rows, runs.take(g as int)) == Ok::<Seq<(u64, BatchView)>, Error>(
                    batch_list_view(updated_chunk@),
                ),
            decreases groups@.len() - g,
        {
            proof {
                assert(runs.take(g as int + 1).drop_last() =~= runs.take(g as int));
                assert(runs.take(g as int + 1).last() == runs[g as int]);
                assert(runs[g as int] == derefs(groups@[g as int]@));
            }
            if groups[g].len() > 0 {
                let load_index: u64 = answer_batch(groups[g][0]);
                let mut batch_chunk = match self.data_db.get_entry_batch(load_index) {
                    Err(e) => {
                        proof {
                            lemma_seal_groups_stop(rows, runs, g as int + 1);
                        }
                        return Err(e);
                    },
                    Ok(None) => {
                        proof {
                            lemma_seal_groups_stop(rows, runs, g as int + 1);
                        }
                        return Err(Error::NotFound);
                    },
                    Ok(Some(batch)) => batch,
                };
                let ghost loaded = batch_chunk@;
                let ghost group = derefs(groups@[g as int]@);
                let mut a: usize = 0;
                assert(group.take(0) =~= Seq::<SealAnswer>::empty());
                assert(group[0] == *groups@[g as int]@[0]);
                while a < groups[g].len()
                    invariant
                        a <= group.len(),
                        g < groups@.len(),
                        *self == *old(self),
                        self.wf(),
                        rows == self.data_rows(),
                        pending == self.pending(),
                        kept_view == consistent_answers(pending, answers@),
                        runs == chunk_runs(kept_view),
                        spec_submit(rows, pending, answers@) matches Err(e) ==> e
                            == Error::InvalidArgument,
                        group == derefs(groups@[g as int]@),
                        runs[g as int] == group,
                        runs == runs_view(groups@),
                        loaded.wf(),
                        batch_chunk@.wf(),
                        spec_get_batch(rows, load_index) == Ok::<Option<BatchView>, Error>(
                            Some(loaded),
                        ),
                        load_index == seal_batch(group[0].seal_index),
                        group.len() > 0,
                        seal_groups(rows, runs.take(g as int)) == Ok::<
                            Seq<(u64, BatchView)>,
                            Error,
                        >(batch_list_view(updated_chunk@)),
                        runs.take(g as int + 1).drop_last() == runs.take(g as int),
                        runs.take(g as int + 1).last() == group,
                        seal_group(loaded, group.take(a as int)) == Ok::<BatchView, Error>(
                            batch_chunk@,
                        ),
                    decreases group.len() - a,
                {
                    let answer: &SealAnswer = groups[g][a];
                    proof {
                        assert(group.take(a as int + 1).drop_last() =~= group.take(a as int));
                        assert(group.take(a as int + 1).last() == *answer);
                    }
                    match batch_chunk.submit_seal_result(answer) {
                        Ok(()) => {},
                        Err(e) => {
                            proof {
                                lemma_seal_group_stop(loaded, group, a as int + 1);
                                lemma_seal_groups_stop(rows, runs, g as int + 1);
                            }
                            return Err(e);
                        },
                    }
                    a += 1;
                }
                assert(group.take(group.len() as int) =~= group);
                let ghost list_before = updated_chunk@;
                updated_chunk.push((load_index, batch_chunk));
                proof {
                    assert(batch_list_view(updated_chunk@) =~= batch_list_view(list_before).push(
                        (load_index, batch_chunk@),
                    ));
                }
            }
            g += 1;
        }
        assert(runs.take(groups@.len() as int) =~= runs);
        let mut d: usize = 0;
        assert(pending =~= pending.remove_keys(answered(kept_view.take(0))));
        while d < removed_seal_index.len()
            invariant
                d <= removed_seal_index@.len(),
                removed_seal_index@.len() == kept_view.len(),
                forall|j: int|
                    0 <= j < removed_seal_index@.len() ==> #[trigger] removed_seal_index@[j]
                        == kept_view[j].seal_index,
                self.seal_manager.wf(),
                self.flow_db == old(self).flow_db,
                self.data_db == old(self).data_db,
                self.config == old(self).config,
                self.seal_manager.clock == old(self).seal_manager.clock,
                self.seal_manager.to_seal_version == old(self).seal_manager.to_seal_version,
                pending == old(self).pending(),
                self.seal_manager.to_seal_set@ == pending.remove_keys(
                    answered(kept_view.take(d as int)),
                ),
            decreases removed_seal_index@.len() - d,
        {
            let idx: u64 = removed_seal_index[d];
            self.seal_manager.to_seal_set.remove(idx);
            proof {
                let before = kept_view.take(d as int);
                let after = kept_view.take(d as int + 1);
                assert forall|k: u64| answered(after).contains(k) <==> (answered(before).contains(k)
                    || k == idx) by {
                    if answered(after).contains(k) {
                        let j = choose|j: int|
                            0 <= j < after.len() && (#[trigger] after[j]).seal_index == k;
                        if j < d {
                            assert(before[j].seal_index == k);
                        }
                    }
                    if answered(before).contains(k) {
                        let j = choose|j: int|
                            0 <= j < before.len() && (#[trigger] before[j]).seal_index == k;
                        assert(after[j].seal_index == k);
                    }
                    if k == idx {
                        assert(after[d as int].seal_index == k);
                    }
                }
                assert(pending.remove_keys(answered(before)).remove(idx) =~= pending.remove_keys(
                    answered(after),
                ));
            }
            d += 1;
        }
        assert(kept_view.take(kept_view.len() as int) =~= kept_view);
        proof {
            lemma_submit_keeps_backed(rows, pending, answers@);
        }
        self.data_db.put_entry_raw(updated_chunk)
    }
}

/// A list of runs with the runs of the next batch put behind it: where the
/// last run ends at the sector with which the first of the new runs begins,
/// the two become one.
pub open spec fn merge_runs(runs: Seq<(int, Seq<u8>)>, next: Seq<(int, Seq<u8>)>) -> Seq<
    (int, Seq<u8>),
> {
    if next.len() == 0 {
        runs
    } else if runs.len() > 0 && runs.last().0 + runs.last().1.len() / (BYTES_PER_SECTOR as nat)
        == next[0].0 {
        runs.drop_last().push((runs.last().0, runs.last().1 + next[0].1)) + next.skip(1)
    } else {
        runs + next
    }
}

/// The runs of written sectors in the batches of `pieces`, taken in order;
/// a batch that is not there has none. An error where a batch does not
/// decode.
pub open spec fn available_pieces(rows: Rows, pieces: Seq<(u64, u64)>) -> Result<
    Seq<(int, Seq<u8>)>,
    Error,
>
    decreases pieces.len(),
{
    if pieces.len() == 0 {
        Ok(Seq::empty())
    } else {
        match available_pieces(rows, pieces.drop_last()) {
            Err(e) => Err(e),
            Ok(runs) => match spec_get_batch(
                rows,
                pieces.last().0 / (SECTORS_PER_LOAD as u64),
            ) {
                Err(e) => Err(e),
                Ok(None) => Ok(runs),
                Ok(Some(v)) => Ok(merge_runs(runs, v.data_list(pieces.last().0 as int))),
            },
        }
    }
}

/// The runs of written sectors in `[index_start, index_end)`, each with the
/// global index of its first sector, in ascending order. Both ends have to
/// be batch boundaries, and the range must not be empty.
pub open spec fn spec_get_available(rows: Rows, index_start: u64, index_end: u64) -> Result<
    Seq<(int, Seq<u8>)>,
    Error,
> {
    if index_end <= index_start || index_start % (SECTORS_PER_LOAD as u64) != 0 || index_end % (
    SECTORS_PER_LOAD as u64) != 0 {
        Err(Error::InvalidArgument)
    } else {
        available_pieces(rows, batch_list(index_start, index_end, SECTORS_PER_LOAD))
    }
}

proof fn lemma_available_stops(rows: Rows, pieces: Seq<(u64, u64)>, k: int)
    requires
        0 <= k <= pieces.len(),
        available_pieces(rows, pieces.take(k)) is Err,
    ensures
        available_pieces(rows, pieces) == available_pieces(rows, pieces.take(k)),
    decreases pieces.len() - k,
{
    if k < pieces.len() {
        assert(pieces.take(k + 1).drop_last() =~= pieces.take(k));
        lemma_available_stops(rows, pieces, k + 1);
    } else {
        assert(pieces.take(k) =~= pieces);
    }
}

/// A list of chunks read from the store as plain values.
pub open spec fn chunk_list_view(r: Result<Vec<ChunkArray>, Error>) -> Result<
    Seq<(int, Seq<u8>)>,
    Error,
> {
    match r {
        Ok(list) => Ok(chunks_view(list@)),
        Err(e) => Err(e),
    }
}

/// What generating the proof for sector `sector_index` of batch
/// `batch_index` gives: an error where the batch is missing, does not
/// decode, is not complete, or has no such sector.
pub open spec fn proof_result(
    rows: Rows,
    batch_index: usize,
    sector_index: usize,
    r: Result<FlowProof, Error>,
) -> bool {
    match spec_get_batch(rows, batch_index as u64) {
        Err(e) => r matches Err(err) && err == e,
        Ok(None) => r matches Err(err) && err == Error::NotFound,
        Ok(Some(v)) => if !v.complete() {
            r matches Err(err) && err == Error::NotFound
        } else if sector_index >= SECTORS_PER_LOAD {
            r matches Err(err) && err == Error::InvalidArgument
        } else {
            r matches Ok(proof) && proof_valid(hashes_view(proof.lemma@), proof.path@)
                && proof.lemma@[0]@ == v.leaves(batch_index == 0)[sector_index as int]
                && v.root(batch_index == 0) == Some(proof.lemma@[proof.lemma@.len() - 1]@)
        },
    }
}

impl FlowStore {
    /// The runs of written sectors in `[index_start, index_end)`, in
    /// ascending order; runs that meet at a batch boundary come as one. Both
    /// ends have to be batch boundaries.
    pub fn get_available_entries(&self, index_start: u64, index_end: u64) -> (r: Result<
        Vec<ChunkArray>,
        Error,
    >)
        requires
            self.wf(),
        ensures
            chunk_list_view(r) == spec_get_available(self.data_rows(), index_start, index_end),
    {
        let batch_size: u64 = self.config.batch_size as u64;
        if index_end <= index_start || index_start % batch_size != 0 || index_end % batch_size
            != 0 {
            return Err(Error::InvalidArgument);
        }
        let mut entry_list: Vec<ChunkArray> = Vec::new();
        let pieces = batch_iter(index_start, index_end, self.config.batch_size);
        let ghost rows = self.data_rows();
        let mut j: usize = 0;
        assert(pieces@.take(0) =~= Seq::<(u64, u64)>::empty());
        assert(chunks_view(entry_list@) =~= Seq::<(int, Seq<u8>)>::empty());
        while j < pieces.len()
            invariant
                self.wf(),
                rows == self.data_rows(),
                batch_size == SECTORS_PER_LOAD,
                index_start < index_end,
                index_start % batch_size == 0,
                index_end % batch_size == 0,
                j <= pieces@.len(),
                pieces@ == batch_list(index_start, index_end, SECTORS_PER_LOAD),
                available_pieces(rows, pieces@.take(j as int)) == Ok::<
                    Seq<(int, Seq<u8>)>,
                    Error,
                >(chunks_view(entry_list@)),
            decreases pieces@.len() - j,
        {
            let (start_entry_index, _) = pieces[j];
            let chunk_index: u64 = start_entry_index / batch_size;
            proof {
                assert(pieces@.take(j as int + 1).drop_last() =~= pieces@.take(j as int));
                assert(pieces@.take(j as int + 1).last() == pieces@[j as int]);
                assert(start_entry_index + SECTORS_PER_LOAD <= index_end);
            }
            match self.data_db.get_entry_batch(chunk_index) {
                Err(e) => {
                    proof {
                        lemma_available_stops(rows, pieces@, j as int + 1);
                    }
                    return Err(e);
                },
                Ok(None) => {},
                Ok(Some(batch)) => {
                    let mut data_list = batch.into_data_list(start_entry_index);
                    let ghost runs = chunks_view(entry_list@);
                    let ghost next = chunks_view(data_list@);
                    if data_list.len() > 0 {
                        let mut merge: bool = false;
                        if entry_list.len() > 0 {
                            let last = &entry_list[entry_list.len() - 1];
                            let entries: u64 = (last.data.len() / BYTES_PER_SECTOR) as u64;
                            if entries <= u64::MAX - last.start_index && last.start_index
                                + entries == data_list[0].start_index {
                                merge = true;
                            }
                        }
                        if merge {
                            let mut first = data_list.remove(0);
                            let mut last = entry_list.pop().unwrap();
                            last.data.append(&mut first.data);
                            entry_list.push(last);
                            assert(chunks_view(data_list@) =~= next.skip(1));
                            assert(chunks_view(entry_list@) =~= runs.drop_last().push(
                                (runs.last().0, runs.last().1 + next[0].1),
                            ));
                        }
                        let ghost head = chunks_view(entry_list@);
                        let ghost tail = chunks_view(data_list@);
                        entry_list.append(&mut data_list);
                        assert(chunks_view(entry_list@) =~= head + tail);
                    }
                    assert(chunks_view(entry_list@) == merge_runs(runs, next));
                },
            }
            j += 1;
        }
        assert(pieces@.take(pieces@.len() as int) =~= pieces@);
        Ok(entry_list)
    }

    /// Stores `subtree_list` as the subtree roots of batch `batch_index`,
    /// which is made if it is not there.
    pub fn insert_subtree_list_for_batch(
        &mut self,
        batch_index: usize,
        subtree_list: Vec<(usize, usize, DataRoot)>,
    ) -> (r: Result<(), Error>)
        requires
            old(self).wf(),
        ensures
            final(self).wf(),
            final(self).flow_rows() == old(self).flow_rows(),
            final(self).pending() == old(self).pending(),
            final(self).seal_version() == old(self).seal_version(),
            final(self).shard_config() == old(self).shard_config(),
            final(self).config() == old(self).config(),
            final(self).polled() == old(self).polled(),
            match spec_get_batch(old(self).data_rows(), batch_index as u64) {
                Err(e) => r is Err && r.unwrap_err() == e && final(self).data_rows() == old(
                    self,
                ).data_rows(),
                Ok(found) => r is Ok && final(self).data_rows() == old(self).data_rows().insert(
                    batch_key(batch_index as u64),
                    (match found {
                        Some(v) => v,
                        None => BatchView::empty(),
                    }).with_subtrees(subtrees_view(subtree_list@)).to_bytes(),
                ),
            },
    {
        let mut batch = match self.data_db.get_entry_batch(batch_index as u64) {
            Err(e) => {
                return Err(e);
            },
            Ok(Some(batch)) => batch,
            Ok(None) => EntryBatch::new(),
        };
        proof {
            assert forall|j: int| 0 <= j < subtrees_view(subtree_list@).len() implies (
            #[trigger] subtrees_view(subtree_list@)[j]).2.len() == 32 by {
                assert(subtrees_view(subtree_list@)[j].2 == subtree_list@[j].2@);
            }
            lemma_subtrees_keep_backed(
                self.data_rows(),
                self.pending(),
                batch_index as u64,
                subtrees_view(subtree_list@),
            );
        }
        batch.set_subtree_list(subtree_list);
        let mut list: Vec<(u64, EntryBatch)> = Vec::new();
        list.push((batch_index as u64, batch));
        proof {
            let views = batch_list_view(list@);
            assert(views.drop_last() =~= Seq::<(u64, BatchView)>::empty());
            assert(views.last() == (batch_index as u64, batch@));
            assert(put_batches(old(self).data_rows(), views) == old(self).data_rows().insert(
                batch_key(batch_index as u64),
                batch@.to_bytes(),
            )) by {
                reveal_with_fuel(put_batches, 2);
            }
        }
        self.data_db.put_entry_raw(list)
    }

    /// The Merkle proof that sector `sector_index` of batch `batch_index`
    /// belongs under the root of the batch.
    pub fn gen_proof_in_batch(&self, batch_index: usize, sector_index: usize) -> (r: Result<
        FlowProof,
        Error,
    >)
        requires
            self.wf(),
        ensures
            proof_result(self.data_rows(), batch_index, sector_index, r),
    {
        let batch = match self.data_db.get_entry_batch(batch_index as u64) {
            Err(e) => {
                return Err(e);
            },
            Ok(None) => {
                return Err(Error::NotFound);
            },
            Ok(Some(batch)) => batch,
        };
        let merkle = match batch.to_merkle_tree(batch_index == 0) {
            Some(tree) => tree,
            None => {
                return Err(Error::NotFound);
            },
        };
        merkle.gen_proof(sector_index)
    }

    /// Reads the Merkle node at `pos` of layer `layer`.
    pub fn get_node(&self, layer: usize, pos: usize) -> (r: Result<Option<DataRoot>, Error>)
        requires
            self.wf(),
        ensures
            node_result_view(r) == spec_get_node(self.flow_rows(), layer, pos),
    {
        self.flow_db.get_node(layer, pos)
    }

    /// Reads the size of layer `layer` of the Merkle nodes.
    pub fn get_layer_size(&self, layer: usize) -> (r: Result<Option<usize>, Error>)
        requires
            self.wf(),
        ensures
            r == spec_get_layer_size(self.flow_rows(), layer),
    {
        self.flow_db.get_layer_size(layer)
    }

    /// A transaction on the Merkle nodes, without steps yet.
    pub fn start_node_transaction(&self) -> (tx: NodeDBTransaction)
        ensures
            tx.ops() == Seq::<crate::kv::DbOp>::empty(),
            tx.wf(),
    {
        self.flow_db.start_transaction()
    }

    /// Writes the steps of `tx` to the Merkle nodes, in order.
    pub fn commit_node_transaction(&mut self, tx: NodeDBTransaction) -> (r: Result<(), Error>)
        requires
            old(self).wf(),
            tx.wf(),
        ensures
            final(self).wf(),
            r is Ok,
            final(self).flow_rows() == crate::kv::apply_ops(
                old(self).flow_rows(),
                COL_NUM,
                tx.ops(),
            ),
            final(self).data_rows() == old(self).data_rows(),
            final(self).pending() == old(self).pending(),
            final(self).seal_version() == old(self).seal_version(),
            final(self).shard_config() == old(self).shard_config(),
            final(self).config() == old(self).config(),
            final(self).polled() == old(self).polled(),
    {
        self.flow_db.commit(tx)
    }

    /// Removes the batches whose index is in `batch_list`, and takes their
    /// seal units out of the pending seal set.
    pub fn delete_batch_list(&mut self, batch_list: &[u64]) -> (r: Result<(), Error>)
        requires
            old(self).wf(),
        ensures
            final(self).wf(),
            r is Ok,
            final(self).data_rows() == old(self).data_rows().remove_keys(
                batch_keys_of(batch_list@),
            ),
            final(self).pending() == old(self).pending().remove_keys(in_batches(batch_list@)),
            final(self).flow_rows() == old(self).flow_rows(),
            final(self).seal_version() == old(self).seal_version(),
            final(self).shard_config() == old(self).shard_config(),
            final(self).config() == old(self).config(),
            final(self).polled() == old(self).polled(),
    {
        proof {
            lemma_delete_keeps_backed(self.data_rows(), self.pending(), batch_list@);
        }
        self.seal_manager.delete_batch_list(batch_list);
        self.data_db.delete_batch_list(batch_list)
    }
}

} // verus!

//! The flow database: batches, pad data and Merkle nodes kept as rows of the
//! key-value driver, every change made in one write transaction.

use crate::codec::{
    be64, be64_value, decode_batch_index, decode_pad_pairs, decode_u64, encode_mpt_node_key,
    encode_pad_pairs, encode_u64, layer_size_key, lemma_lex_antisymmetric, lex_le, mpt_node_key, pad_list_bytes,
    pad_list_of_bytes, read_hash, spec_layer_size_key, try_decode_usize,
};
use crate::entry_batch::{batch_decodable, batch_of_bytes, BatchView, EntryBatch};
use crate::error::Error;
use crate::kv::{
    apply_op, apply_ops, column_has_keys, kv_contents, kv_create, kv_get,
    kv_last_key, kv_num_cols, kv_num_keys, kv_write, no_rows, tx_ops, DbOp, Rows,
};
use crate::params::{SEALS_PER_LOAD, SECTORS_PER_LOAD};
use crate::types::{DataRoot, PadPair};
use kvdb::DBTransaction;
use kvdb_memorydb::InMemory;
use vstd::prelude::*;

verus! {

/// The column of the batches: batch index to batch.
pub const COL_ENTRY_BATCH: u32 = 0;

/// The column of the pad data: transaction sequence number to list of pad
/// pairs.
pub const COL_PAD_DATA_LIST: u32 = 1;

/// The column that holds the sync height of the pad data.
pub const COL_PAD_DATA_SYNC_HEIGHT: u32 = 2;

/// The column of the Merkle nodes and layer sizes.
pub const COL_FLOW_MPT_NODES: u32 = 3;

/// The number of columns that the flow database uses.
pub const COL_NUM: u32 = 4;

/// The ASCII bytes of `sync_height`, the one key of its column.
pub open spec fn sync_height_key() -> Seq<u8> {
    seq![115u8, 121u8, 110u8, 99u8, 95u8, 104u8, 101u8, 105u8, 103u8, 104u8, 116u8]
}

/// The row key of batch `index`.
pub open spec fn batch_key(index: u64) -> (u32, Seq<u8>) {
    (COL_ENTRY_BATCH, be64(index))
}

/// What reading batch `index` from `rows` gives: nothing where there is no
/// row, the batch where the row decodes, and a codec error where it does not.
pub open spec fn spec_get_batch(rows: Rows, index: u64) -> Result<Option<BatchView>, Error> {
    if !rows.contains_key(batch_key(index)) {
        Ok(None)
    } else if batch_decodable(rows[batch_key(index)]) {
        Ok(Some(batch_of_bytes(rows[batch_key(index)])))
    } else {
        Err(Error::Codec)
    }
}

/// A list of batches with their indices as plain values.
pub open spec fn batch_list_view(list: Seq<(u64, EntryBatch)>) -> Seq<(u64, BatchView)> {
    Seq::new(list.len(), |j: int| (list[j].0, list[j].1@))
}

/// The rows after each batch of `list` was stored under its index, in order.
pub open spec fn put_batches(rows: Rows, list: Seq<(u64, BatchView)>) -> Rows
    decreases list.len(),
{
    if list.len() == 0 {
        rows
    } else {
        put_batches(rows, list.drop_last()).insert(
            batch_key(list.last().0),
            list.last().1.to_bytes(),
        )
    }
}

/// The roots of those batches of `list` that are complete, each with its
/// batch index, in the order of `list`. Batch 0 is the first batch of the
/// flow.
pub open spec fn completed_roots(list: Seq<(u64, BatchView)>) -> Seq<(u64, Seq<u8>)>
    decreases list.len(),
{
    if list.len() == 0 {
        Seq::empty()
    } else {
        let before = completed_roots(list.drop_last());
        match list.last().1.root(list.last().0 == 0) {
            Some(root) => before.push((list.last().0, root)),
            None => before,
        }
    }
}

/// A list of roots with their batch indices as plain values.
pub open spec fn roots_view(list: Seq<(u64, DataRoot)>) -> Seq<(u64, Seq<u8>)> {
    Seq::new(list.len(), |j: int| (list[j].0, list[j].1@))
}

/// The row keys of the batches whose index is in `list`.
pub open spec fn batch_keys_of(list: Seq<u64>) -> Set<(u32, Seq<u8>)> {
    Set::new(
        |k: (u32, Seq<u8>)| exists|j: int| 0 <= j < list.len() && k == batch_key(#[trigger] list[j]),
    )
}

/// The row keys of the batches with an index from `lo` to `hi`, both
/// included.
pub open spec fn batch_keys_between(lo: int, hi: int) -> Set<(u32, Seq<u8>)> {
    Set::new(|k: (u32, Seq<u8>)| exists|i: u64| lo <= i <= hi && k == #[trigger] batch_key(i))
}

/// Whether `key` is the greatest key of column `col`, or `None` where the
/// column is empty.
pub open spec fn is_last_key(rows: Rows, col: u32, key: Option<Seq<u8>>) -> bool {
    match key {
        Some(k) => rows.contains_key((col, k)) && forall|other: Seq<u8>| #[trigger]
            rows.contains_key((col, other)) ==> lex_le(other, k),
        None => forall|other: Seq<u8>| !#[trigger] rows.contains_key((col, other)),
    }
}

/// The greatest key of column `col`, or `None` where the column is empty.
pub open spec fn last_key(rows: Rows, col: u32) -> Option<Seq<u8>> {
    if exists|k: Seq<u8>| is_last_key(rows, col, Some(k)) {
        Some(choose|k: Seq<u8>| is_last_key(rows, col, Some(k)))
    } else {
        None
    }
}

/// Whether the column of the batches has a greatest key unless it is empty,
/// as every column of finitely many keys has.
pub open spec fn has_last_batch(rows: Rows) -> bool {
    last_key(rows, COL_ENTRY_BATCH) is None ==> forall|key: Seq<u8>|
        !#[trigger] rows.contains_key((COL_ENTRY_BATCH, key))
}

/// A column has at most one greatest key.
pub proof fn lemma_last_key_unique(rows: Rows, col: u32, key: Option<Seq<u8>>)
    requires
        is_last_key(rows, col, key),
    ensures
        last_key(rows, col) == key,
{
    match key {
        Some(k) => {
            let c = choose|c: Seq<u8>| is_last_key(rows, col, Some(c));
            assert(is_last_key(rows, col, Some(c)));
            assert(rows.contains_key((col, c)));
            assert(rows.contains_key((col, k)));
            lemma_lex_antisymmetric(c, k);
        },
        None => {
            if exists|c: Seq<u8>| is_last_key(rows, col, Some(c)) {
                let c = choose|c: Seq<u8>| is_last_key(rows, col, Some(c));
                assert(rows.contains_key((col, c)));
            }
        },
    }
}

/// The global seal indices of the local seal units `units` of batch `batch`.
pub open spec fn global_units(batch: u64, units: Seq<u16>) -> Seq<u64> {
    Seq::new(units.len(), |j: int| (batch * (SEALS_PER_LOAD as u64) + units[j]) as u64)
}

/// The rows after the boundary batch `batch` was cut at sector `offset`: the
/// row holds the cut batch, or is gone where nothing of the batch is left.
pub open spec fn cut_boundary(rows: Rows, batch: u64, offset: int) -> Rows {
    match spec_get_batch(rows, batch) {
        Ok(Some(v)) => if v.truncated(offset).is_empty() {
            rows.remove(batch_key(batch))
        } else {
            rows.insert(batch_key(batch), v.truncated(offset).to_bytes())
        },
        _ => rows,
    }
}

/// What truncating the flow at the sector index `start_index` does to `rows`
/// and which seal units it sends back to the sealers, for batches of
/// `batch_size` sectors. Where `start_index` falls inside a batch, that batch
/// is cut, and of its seal units those go back that were sealed and lie
/// wholly before the cut. Every batch after it, up to the one with the
/// greatest key in the column, is removed. It is an error if the boundary
/// batch or the greatest key does not decode; in an empty column nothing
/// changes.
pub open spec fn spec_truncate(rows: Rows, start_index: u64, batch_size: usize) -> Result<
    (Rows, Seq<u64>),
    Error,
> {
    let batch = (start_index as int / batch_size as int) as u64;
    let offset = start_index as int % batch_size as int;
    let boundary = if offset != 0 {
        spec_get_batch(rows, batch)
    } else {
        Ok(None)
    };
    let first_gone = if offset != 0 {
        batch + 1
    } else {
        batch as int
    };
    match boundary {
        Err(e) => Err(e),
        Ok(found) => {
            let reseal = match found {
                Some(v) => global_units(batch, v.reseal_units(offset)),
                None => Seq::empty(),
            };
            match last_key(rows, COL_ENTRY_BATCH) {
                None => Ok((rows, reseal)),
                Some(k) => if k.len() == 8 && be64_value(k) <= usize::MAX {
                    let cut = if offset != 0 {
                        cut_boundary(rows, batch, offset)
                    } else {
                        rows
                    };
                    Ok((cut.remove_keys(batch_keys_between(first_gone, be64_value(k))), reseal))
                } else {
                    Err(Error::Codec)
                },
            }
        },
    }
}

/// The flow database.
pub struct FlowDBStore {
    kvdb: InMemory,
}

/// A batch read from the database as plain values.
pub open spec fn batch_result_view(r: Result<Option<EntryBatch>, Error>) -> Result<
    Option<BatchView>,
    Error,
> {
    match r {
        Ok(Some(b)) => Ok(Some(b@)),
        Ok(None) => Ok(None),
        Err(e) => Err(e),
    }
}

proof fn lemma_apply_push(rows: Rows, num_cols: u32, ops: Seq<DbOp>, op: DbOp)
    ensures
        apply_ops(rows, num_cols, ops.push(op)) == apply_op(
            apply_ops(rows, num_cols, ops),
            num_cols,
            op,
        ),
{
    assert(ops.push(op).drop_last() =~= ops);
}

impl FlowDBStore {
    /// The rows of the database.
    pub closed spec fn rows(&self) -> Rows {
        kv_contents(self.kvdb)
    }

    /// The database has the columns that the store uses.
    pub closed spec fn wf(&self) -> bool {
        kv_num_cols(self.kvdb) >= COL_NUM
    }

    /// A store over `kvdb`. It is an error if `kvdb` lacks one of the
    /// store's columns.
    pub fn new(kvdb: InMemory) -> (r: Result<FlowDBStore, Error>)
        ensures
            match r {
                Ok(store) => kv_num_cols(kvdb) >= COL_NUM && store.wf() && store.rows()
                    == kv_contents(kvdb),
                Err(e) => kv_num_cols(kvdb) < COL_NUM && e == Error::KvFailure,
            },
    {
        let probe: Vec<u8> = Vec::new();
        match kv_get(&kvdb, COL_NUM - 1, probe.as_slice()) {
            Ok(_) => Ok(FlowDBStore { kvdb }),
            Err(_) => Err(Error::KvFailure),
        }
    }

    /// A store over a new, empty in-memory database.
    pub fn memorydb() -> (store: FlowDBStore)
        ensures
            store.wf(),
            store.rows() == no_rows(),
    {
        FlowDBStore { kvdb: kv_create(COL_NUM) }
    }

    /// Reads the value under `key` in column `col`.
    fn read(&self, col: u32, key: &[u8]) -> (r: Result<Option<Vec<u8>>, Error>)
        requires
            self.wf(),
            col < COL_NUM,
        ensures
            match r {
                Ok(Some(v)) => self.rows().contains_key((col, key@)) && self.rows()[(col, key@)]
                    == v@,
                Ok(None) => !self.rows().contains_key((col, key@)),
                Err(_) => false,
            },
    {
        match kv_get(&self.kvdb, col, key) {
            Ok(v) => Ok(v),
            Err(_) => Err(Error::KvFailure),
        }
    }

    /// Writes a transaction.
    fn write(&mut self, tx: DBTransaction) -> (r: Result<(), Error>)
        requires
            old(self).wf(),
        ensures
            r is Ok,
            final(self).wf(),
            final(self).rows() == apply_ops(old(self).rows(), kv_num_cols(old(self).kvdb), tx_ops(tx)),
            kv_num_cols(final(self).kvdb) == kv_num_cols(old(self).kvdb),
    {
        match kv_write(&mut self.kvdb, tx) {
            Ok(()) => Ok(()),
            Err(_) => Err(Error::KvFailure),
        }
    }

    /// Reads batch `batch_index`.
    pub fn get_entry_batch(&self, batch_index: u64) -> (r: Result<Option<EntryBatch>, Error>)
        requires
            self.wf(),
        ensures
            batch_result_view(r) == spec_get_batch(self.rows(), batch_index),
            r matches Ok(Some(b)) ==> b@.wf(),
    {
        let key = encode_u64(batch_index);
        match self.read(COL_ENTRY_BATCH, key.as_slice()) {
            Err(e) => Err(e),
            Ok(None) => Ok(None),
            Ok(Some(raw)) => match EntryBatch::from_bytes(raw.as_slice()) {
                Ok(batch) => Ok(Some(batch)),
                Err(_) => Err(Error::Codec),
            },
        }
    }

    /// Stores each batch of `batch_list` under its index, all in one
    /// transaction.
    pub fn put_entry_raw(&mut self, batch_list: Vec<(u64, EntryBatch)>) -> (r: Result<(), Error>)
        requires
            old(self).wf(),
            forall|j: int| 0 <= j < batch_list@.len() ==> (#[trigger] batch_list@[j]).1@.wf(),
        ensures
            final(self).wf(),
            r is Ok,
            final(self).rows() == put_batches(old(self).rows(), batch_list_view(batch_list@)),
    {
        let mut tx = DBTransaction::new();
        let ghost rows = self.rows();
        let ghost n = kv_num_cols(self.kvdb);
        let ghost views = batch_list_view(batch_list@);
        let mut j: usize = 0;
        assert(views.take(0) =~= Seq::<(u64, BatchView)>::empty());
        while j < batch_list.len()
            invariant
                n >= COL_NUM,
                j <= batch_list@.len(),
                views == batch_list_view(batch_list@),
                forall|j: int| 0 <= j < batch_list@.len() ==> (#[trigger] batch_list@[j]).1@.wf(),
                apply_ops(rows, n, tx_ops(tx)) == put_batches(rows, views.take(j as int)),
            decreases batch_list@.len() - j,
        {
            let key = encode_u64(batch_list[j].0);
            let value = batch_list[j].1.to_bytes();
            let ghost ops = tx_ops(tx);
            tx.put(COL_ENTRY_BATCH, key.as_slice(), value.as_slice());
            proof {
                lemma_apply_push(
                    rows,
                    n,
                    ops,
                    DbOp::Put { col: COL_ENTRY_BATCH, key: key@, value: value@ },
                );
                assert(views.take(j as int + 1).drop_last() =~= views.take(j as int));
            }
            j += 1;
        }
        assert(views.take(batch_list@.len() as int) =~= views);
        self.write(tx)
    }

    /// Stores each batch of `batch_list` under its index, all in one
    /// transaction, and returns the roots of those that are complete, each
    /// with its batch index, in the order of the list.
    pub fn put_entry_batch_list(&mut self, batch_list: Vec<(u64, EntryBatch)>) -> (r: Result<
        Vec<(u64, DataRoot)>,
        Error,
    >)
        requires
            old(self).wf(),
            forall|j: int| 0 <= j < batch_list@.len() ==> (#[trigger] batch_list@[j]).1@.wf(),
        ensures
            final(self).wf(),
            r is Ok,
            final(self).rows() == put_batches(old(self).rows(), batch_list_view(batch_list@)),
            roots_view(r.unwrap()@) == completed_roots(batch_list_view(batch_list@)),
    {
        let mut tx = DBTransaction::new();
        let mut completed: Vec<(u64, DataRoot)> = Vec::new();
        let ghost rows = self.rows();
        let ghost n = kv_num_cols(self.kvdb);
        let ghost views = batch_list_view(batch_list@);
        let mut j: usize = 0;
        assert(views.take(0) =~= Seq::<(u64, BatchView)>::empty());
        assert(roots_view(completed@) =~= completed_roots(views.take(0)));
        while j < batch_list.len()
            invariant
                n >= COL_NUM,
                j <= batch_list@.len(),
                views == batch_list_view(batch_list@),
                forall|j: int| 0 <= j < batch_list@.len() ==> (#[trigger] batch_list@[j]).1@.wf(),
                apply_ops(rows, n, tx_ops(tx)) == put_batches(rows, views.take(j as int)),
                roots_view(completed@) == completed_roots(views.take(j as int)),
            decreases batch_list@.len() - j,
        {
            let batch_index: u64 = batch_list[j].0;
            let key = encode_u64(batch_index);
            let value = batch_list[j].1.to_bytes();
            let ghost ops = tx_ops(tx);
            tx.put(COL_ENTRY_BATCH, key.as_slice(), value.as_slice());
            proof {
                lemma_apply_push(
                    rows,
                    n,
                    ops,
                    DbOp::Put { col: COL_ENTRY_BATCH, key: key@, value: value@ },
                );
                assert(views.take(j as int + 1).drop_last() =~= views.take(j as int));
            }
            let ghost before = completed@;
            match batch_list[j].1.build_root(batch_index == 0) {
                Some(root) => {
                    completed.push((batch_index, root));
                    assert(roots_view(completed@) =~= roots_view(before).push(
                        (batch_index, root@),
                    ));
                },
                None => {},
            }
            j += 1;
        }
        assert(views.take(batch_list@.len() as int) =~= views);
        match self.write(tx) {
            Ok(()) => Ok(completed),
            Err(e) => Err(e),
        }
    }

    /// Removes the batches whose index is in `batch_list`, all in one
    /// transaction.
    pub fn delete_batch_list(&mut self, batch_list: &[u64]) -> (r: Result<(), Error>)
        requires
            old(self).wf(),
        ensures
            final(self).wf(),
            r is Ok,
            final(self).rows() == old(self).rows().remove_keys(batch_keys_of(batch_list@)),
    {
        let mut tx = DBTransaction::new();
        let ghost rows = self.rows();
        let ghost n = kv_num_cols(self.kvdb);
        let mut j: usize = 0;
        assert(rows =~= rows.remove_keys(batch_keys_of(batch_list@.take(0))));
        while j < batch_list.len()
            invariant
                n >= COL_NUM,
                j <= batch_list@.len(),
                apply_ops(rows, n, tx_ops(tx)) == rows.remove_keys(
                    batch_keys_of(batch_list@.take(j as int)),
                ),
            decreases batch_list@.len() - j,
        {
            let key = encode_u64(batch_list[j]);
            let ghost ops = tx_ops(tx);
            tx.delete(COL_ENTRY_BATCH, key.as_slice());
            proof {
                lemma_apply_push(rows, n, ops, DbOp::Delete { col: COL_ENTRY_BATCH, key: key@ });
                let before = batch_list@.take(j as int);
                let after = batch_list@.take(j as int + 1);
                assert forall|k: (u32, Seq<u8>)| batch_keys_of(after).contains(k) <==> (
                batch_keys_of(before).contains(k) || k == batch_key(batch_list@[j as int])) by {
                    if batch_keys_of(after).contains(k) {
                        let t = choose|t: int| 0 <= t < after.len() && k == batch_key(#[trigger] after[t]);
                        if t < j {
                            assert(k == batch_key(before[t]));
                        }
                    }
                    if batch_keys_of(before).contains(k) {
                        let t = choose|t: int| 0 <= t < before.len() && k == batch_key(#[trigger] before[t]);
                        assert(k == batch_key(after[t]));
                    }
                    if k == batch_key(batch_list@[j as int]) {
                        assert(k == batch_key(after[j as int]));
                    }
                }
                assert(rows.remove_keys(batch_keys_of(before)).remove(
                    batch_key(batch_list@[j as int]),
                ) =~= rows.remove_keys(batch_keys_of(after)));
            }
            j += 1;
        }
        assert(batch_list@.take(batch_list@.len() as int) =~= batch_list@);
        self.write(tx)
    }

    /// The number of batches in the database.
    pub fn num_batches(&self) -> (n: usize)
        requires
            self.wf(),
        ensures
            column_has_keys(self.rows(), COL_ENTRY_BATCH, n as nat),
    {
        kv_num_keys(&self.kvdb, COL_ENTRY_BATCH)
    }
}

/// The global seal indices of the local seal units `local` of batch `batch`.
pub fn to_global(batch: u64, local: &Vec<u16>) -> (r: Vec<u64>)
    requires
        batch * SEALS_PER_LOAD + SEALS_PER_LOAD <= u64::MAX,
        forall|j: int| 0 <= j < local@.len() ==> (#[trigger] local@[j]) < SEALS_PER_LOAD,
    ensures
        r@ == global_units(batch, local@),
{
    let mut r: Vec<u64> = Vec::with_capacity(local.len());
    let mut j: usize = 0;
    while j < local.len()
        invariant
            batch * SEALS_PER_LOAD + SEALS_PER_LOAD <= u64::MAX,
            forall|j: int| 0 <= j < local@.len() ==> (#[trigger] local@[j]) < SEALS_PER_LOAD,
            j <= local@.len(),
            r@ == global_units(batch, local@.take(j as int)),
        decreases local@.len() - j,
    {
        let unit: u16 = local[j];
        let global: u64 = batch * (SEALS_PER_LOAD as u64) + unit as u64;
        r.push(global);
        assert(r@ =~= global_units(batch, local@.take(j as int + 1)));
        j += 1;
    }
    assert(local@.take(local@.len() as int) =~= local@);
    r
}

/// The row key of the pad data of transaction `tx_seq`.
pub open spec fn pad_key(tx_seq: u64) -> (u32, Seq<u8>) {
    (COL_PAD_DATA_LIST, be64(tx_seq))
}

/// What reading the pad data of transaction `tx_seq` from `rows` gives:
/// nothing where there is no row, the list where the row decodes, and a
/// codec error where it does not.
pub open spec fn spec_get_pad_data(rows: Rows, tx_seq: u64) -> Result<Option<Seq<PadPair>>, Error> {
    if !rows.contains_key(pad_key(tx_seq)) {
        Ok(None)
    } else if rows[pad_key(tx_seq)].len() % 16 == 0 {
        Ok(Some(pad_list_of_bytes(rows[pad_key(tx_seq)])))
    } else {
        Err(Error::Codec)
    }
}

/// A list of pad pairs read from the database as plain values.
pub open spec fn pad_result_view(r: Result<Option<Vec<PadPair>>, Error>) -> Result<
    Option<Seq<PadPair>>,
    Error,
> {
    match r {
        Ok(Some(list)) => Ok(Some(list@)),
        Ok(None) => Ok(None),
        Err(e) => Err(e),
    }
}

/// What reading the sync height from `rows` gives: nothing where it was
/// never stored, the number where the row holds eight bytes, and a codec
/// error where it does not.
pub open spec fn spec_get_sync_height(rows: Rows) -> Result<Option<u64>, Error> {
    let key = (COL_PAD_DATA_SYNC_HEIGHT, sync_height_key());
    if !rows.contains_key(key) {
        Ok(None)
    } else if rows[key].len() == 8 {
        Ok(Some(be64_value(rows[key]) as u64))
    } else {
        Err(Error::Codec)
    }
}

/// What reading the Merkle node at `pos` of layer `layer` from `rows` gives:
/// nothing where there is no row, the hash where the row holds thirty-two
/// bytes, and a codec error where it does not.
pub open spec fn spec_get_node(rows: Rows, layer: usize, pos: usize) -> Result<
    Option<Seq<u8>>,
    Error,
> {
    let key = (COL_FLOW_MPT_NODES, mpt_node_key(layer, pos));
    if !rows.contains_key(key) {
        Ok(None)
    } else if rows[key].len() == 32 {
        Ok(Some(rows[key]))
    } else {
        Err(Error::Codec)
    }
}

/// A hash read from the database as plain values.
pub open spec fn node_result_view(r: Result<Option<DataRoot>, Error>) -> Result<
    Option<Seq<u8>>,
    Error,
> {
    match r {
        Ok(Some(h)) => Ok(Some(h@)),
        Ok(None) => Ok(None),
        Err(e) => Err(e),
    }
}

/// What reading the size of layer `layer` from `rows` gives: nothing where
/// there is no row, the number where the row holds eight bytes that fit,
/// and a codec error where it does not.
pub open spec fn spec_get_layer_size(rows: Rows, layer: usize) -> Result<Option<usize>, Error> {
    let key = (COL_FLOW_MPT_NODES, spec_layer_size_key(layer));
    if !rows.contains_key(key) {
        Ok(None)
    } else if rows[key].len() == 8 && be64_value(rows[key]) <= usize::MAX {
        Ok(Some(be64_value(rows[key]) as usize))
    } else {
        Err(Error::Codec)
    }
}

/// The key of the sync height.
fn sync_height_key_bytes() -> (key: Vec<u8>)
    ensures
        key@ == sync_height_key(),
{
    let mut key: Vec<u8> = Vec::with_capacity(11);
    key.push(115u8);
    key.push(121u8);
    key.push(110u8);
    key.push(99u8);
    key.push(95u8);
    key.push(104u8);
    key.push(101u8);
    key.push(105u8);
    key.push(103u8);
    key.push(104u8);
    key.push(116u8);
    assert(key@ =~= sync_height_key());
    key
}

impl FlowDBStore {
    /// Truncates the flow at the sector index `start_index`, for batches of
    /// `batch_size` sectors: cuts the batch that `start_index` falls into,
    /// removes every batch after it, all in one transaction, and returns
    /// the global indices of the seal units that have to be sealed again.
    pub fn truncate(&mut self, start_index: u64, batch_size: usize) -> (r: Result<Vec<u64>, Error>)
        requires
            old(self).wf(),
            0 < batch_size <= SECTORS_PER_LOAD,
            (start_index as int / batch_size as int) * SEALS_PER_LOAD + SEALS_PER_LOAD <= u64::MAX,
        ensures
            final(self).wf(),
            match spec_truncate(old(self).rows(), start_index, batch_size) {
                Ok((rows, reseal)) => r is Ok && r.unwrap()@ == reseal && final(self).rows()
                    == rows && has_last_batch(old(self).rows()),
                Err(e) => r is Err && r.unwrap_err() == e && final(self).rows() == old(
                    self,
                ).rows(),
            },
    {
        let mut tx = DBTransaction::new();
        let b: u64 = batch_size as u64;
        let mut start_batch_index: u64 = start_index / b;
        let first_batch_offset: usize = (start_index % b) as usize;
        let mut index_to_reseal: Vec<u64> = Vec::new();
        let ghost rows = self.rows();
        let ghost n = kv_num_cols(self.kvdb);
        let ghost batch = start_batch_index;
        let ghost offset = first_batch_offset as int;
        let ghost cut = if offset != 0 {
            cut_boundary(rows, batch, offset)
        } else {
            rows
        };
        assert(index_to_reseal@ =~= Seq::<u64>::empty());
        if first_batch_offset != 0 {
            match self.get_entry_batch(start_batch_index) {
                Err(e) => {
                    return Err(e);
                },
                Ok(Some(found)) => {
                    let mut first_batch = found;
                    let local = first_batch.truncate(first_batch_offset);
                    index_to_reseal = to_global(start_batch_index, &local);
                    let key = encode_u64(start_batch_index);
                    let ghost ops = tx_ops(tx);
                    if !first_batch.is_empty() {
                        let value = first_batch.to_bytes();
                        tx.put(COL_ENTRY_BATCH, key.as_slice(), value.as_slice());
                        proof {
                            lemma_apply_push(
                                rows,
                                n,
                                ops,
                                DbOp::Put { col: COL_ENTRY_BATCH, key: key@, value: value@ },
                            );
                        }
                    } else {
                        tx.delete(COL_ENTRY_BATCH, key.as_slice());
                        proof {
                            lemma_apply_push(
                                rows,
                                n,
                                ops,
                                DbOp::Delete { col: COL_ENTRY_BATCH, key: key@ },
                            );
                        }
                    }
                },
                Ok(None) => {},
            }
            assert(b >= 2) by {
                if b == 1 {
                    assert(start_index as int % 1 == 0);
                }
            }
            assert(start_batch_index < u64::MAX) by {
                assert(start_index / b <= start_index / 2) by (nonlinear_arith)
                    requires
                        b >= 2,
                ;
            }
            start_batch_index += 1;
        }
        assert(apply_ops(rows, n, tx_ops(tx)) == cut);
        let end: u64 = match kv_last_key(&self.kvdb, COL_ENTRY_BATCH) {
            Ok(Some(k)) => {
                proof {
                    lemma_last_key_unique(rows, COL_ENTRY_BATCH, Some(k@));
                }
                match decode_batch_index(k.as_slice()) {
                    Ok(e) => e as u64,
                    Err(e) => {
                        return Err(e);
                    },
                }
            },
            Ok(None) => {
                proof {
                    lemma_last_key_unique(rows, COL_ENTRY_BATCH, None);
                }
                return Ok(index_to_reseal);
            },
            Err(_) => {
                return Err(Error::KvFailure);
            },
        };
        let ghost first_gone = start_batch_index as int;
        let mut i: u64 = start_batch_index;
        let mut done: bool = i > end;
        assert(cut =~= cut.remove_keys(batch_keys_between(first_gone, first_gone - 1)));
        proof {
            if done {
                assert(cut =~= cut.remove_keys(batch_keys_between(first_gone, end as int)));
            }
        }
        while !done
            invariant
                n >= COL_NUM,
                first_gone <= i <= end || done,
                !done ==> apply_ops(rows, n, tx_ops(tx)) == cut.remove_keys(
                    batch_keys_between(first_gone, i - 1),
                ),
                done ==> apply_ops(rows, n, tx_ops(tx)) == cut.remove_keys(
                    batch_keys_between(first_gone, end as int),
                ),
            decreases end - i + (if done { 0int } else { 1int }),
        {
            let key = encode_u64(i);
            let ghost ops = tx_ops(tx);
            tx.delete(COL_ENTRY_BATCH, key.as_slice());
            proof {
                lemma_apply_push(rows, n, ops, DbOp::Delete { col: COL_ENTRY_BATCH, key: key@ });
                let before = batch_keys_between(first_gone, i - 1);
                let after = batch_keys_between(first_gone, i as int);
                assert forall|k: (u32, Seq<u8>)| after.contains(k) <==> (before.contains(k) || k
                    == batch_key(i)) by {
                    if after.contains(k) {
                        let t = choose|t: u64| first_gone <= t <= i && k == #[trigger] batch_key(t);
                        if t < i {
                            assert(first_gone <= t <= i - 1 && k == batch_key(t));
                        }
                    }
                    if before.contains(k) {
                        let t = choose|t: u64|
                            first_gone <= t <= i - 1 && k == #[trigger] batch_key(t);
                        assert(first_gone <= t <= i && k == batch_key(t));
                    }
                    if k == batch_key(i) {
                        assert(first_gone <= i <= i && k == batch_key(i));
                    }
                }
                assert(cut.remove_keys(before).remove(batch_key(i)) =~= cut.remove_keys(after));
            }
            if i == end {
                done = true;
            } else {
                i += 1;
            }
        }
        match self.write(tx) {
            Ok(()) => Ok(index_to_reseal),
            Err(e) => Err(e),
        }
    }

    /// Stores `data_sizes` as the pad data of transaction `tx_seq`.
    pub fn put_pad_data(&mut self, data_sizes: &[PadPair], tx_seq: u64) -> (r: Result<(), Error>)
        requires
            old(self).wf(),
        ensures
            final(self).wf(),
            r is Ok,
            final(self).rows() == old(self).rows().insert(
                pad_key(tx_seq),
                pad_list_bytes(data_sizes@),
            ),
    {
        let mut tx = DBTransaction::new();
        let buffer = encode_pad_pairs(data_sizes);
        let key = encode_u64(tx_seq);
        let ghost ops = tx_ops(tx);
        tx.put(COL_PAD_DATA_LIST, key.as_slice(), buffer.as_slice());
        proof {
            lemma_apply_push(
                self.rows(),
                kv_num_cols(self.kvdb),
                ops,
                DbOp::Put { col: COL_PAD_DATA_LIST, key: key@, value: buffer@ },
            );
        }
        self.write(tx)
    }

    /// Stores `tx_seq` as the sync height of the pad data.
    pub fn put_pad_data_sync_height(&mut self, tx_seq: u64) -> (r: Result<(), Error>)
        requires
            old(self).wf(),
        ensures
            final(self).wf(),
            r is Ok,
            final(self).rows() == old(self).rows().insert(
                (COL_PAD_DATA_SYNC_HEIGHT, sync_height_key()),
                be64(tx_seq),
            ),
    {
        let mut tx = DBTransaction::new();
        let key = sync_height_key_bytes();
        let value = encode_u64(tx_seq);
        let ghost ops = tx_ops(tx);
        tx.put(COL_PAD_DATA_SYNC_HEIGHT, key.as_slice(), value.as_slice());
        proof {
            lemma_apply_push(
                self.rows(),
                kv_num_cols(self.kvdb),
                ops,
                DbOp::Put { col: COL_PAD_DATA_SYNC_HEIGHT, key: key@, value: value@ },
            );
        }
        self.write(tx)
    }

    /// Reads the sync height of the pad data.
    pub fn get_pad_data_sync_height(&self) -> (r: Result<Option<u64>, Error>)
        requires
            self.wf(),
        ensures
            r == spec_get_sync_height(self.rows()),
    {
        let key = sync_height_key_bytes();
        match self.read(COL_PAD_DATA_SYNC_HEIGHT, key.as_slice()) {
            Err(e) => Err(e),
            Ok(Some(v)) => match decode_u64(v.as_slice()) {
                Some(height) => Ok(Some(height)),
                None => Err(Error::Codec),
            },
            Ok(None) => Ok(None),
        }
    }

    /// Reads the pad data of transaction `tx_seq`.
    pub fn get_pad_data(&self, tx_seq: u64) -> (r: Result<Option<Vec<PadPair>>, Error>)
        requires
            self.wf(),
        ensures
            pad_result_view(r) == spec_get_pad_data(self.rows(), tx_seq),
    {
        let key = encode_u64(tx_seq);
        match self.read(COL_PAD_DATA_LIST, key.as_slice()) {
            Err(e) => Err(e),
            Ok(Some(v)) => match decode_pad_pairs(v.as_slice()) {
                Ok(list) => Ok(Some(list)),
                Err(_) => Err(Error::Codec),
            },
            Ok(None) => Ok(None),
        }
    }

    /// Reads the Merkle node at `pos` of layer `layer`.
    pub fn get_node(&self, layer: usize, pos: usize) -> (r: Result<Option<DataRoot>, Error>)
        requires
            self.wf(),
        ensures
            node_result_view(r) == spec_get_node(self.rows(), layer, pos),
    {
        let key = encode_mpt_node_key(layer, pos);
        match self.read(COL_FLOW_MPT_NODES, key.as_slice()) {
            Err(e) => Err(e),
            Ok(Some(v)) => {
                if v.len() == 32 {
                    let h = read_hash(v.as_slice(), 0);
                    assert(h@ =~= v@);
                    Ok(Some(h))
                } else {
                    Err(Error::Codec)
                }
            },
            Ok(None) => Ok(None),
        }
    }

    /// Reads the size of layer `layer`.
    pub fn get_layer_size(&self, layer: usize) -> (r: Result<Option<usize>, Error>)
        requires
            self.wf(),
        ensures
            r == spec_get_layer_size(self.rows(), layer),
    {
        let key = layer_size_key(layer);
        match self.read(COL_FLOW_MPT_NODES, key.as_slice()) {
            Err(e) => Err(e),
            Ok(Some(v)) => match try_decode_usize(v.as_slice()) {
                Ok(size) => Ok(Some(size)),
                Err(e) => Err(e),
            },
            Ok(None) => Ok(None),
        }
    }

    /// A transaction on the Merkle nodes, without steps yet.
    pub fn start_transaction(&self) -> (tx: NodeDBTransaction)
        ensures
            tx.ops() == Seq::<DbOp>::empty(),
            tx.wf(),
    {
        NodeDBTransaction(DBTransaction::new())
    }

    /// Writes the steps of `tx`, in order.
    pub fn commit(&mut self, tx: NodeDBTransaction) -> (r: Result<(), Error>)
        requires
            old(self).wf(),
            tx.wf(),
        ensures
            final(self).wf(),
            r is Ok,
            final(self).rows() == apply_ops(old(self).rows(), COL_NUM, tx.ops()),
    {
        proof {
            lemma_apply_node_ops(self.rows(), kv_num_cols(self.kvdb), tx.ops());
        }
        self.write(tx.0)
    }
}

/// Whether every step of `ops` is on the column of the Merkle nodes.
pub open spec fn node_ops(ops: Seq<DbOp>) -> bool {
    forall|j: int|
        0 <= j < ops.len() ==> match #[trigger] ops[j] {
            DbOp::Put { col, .. } => col == COL_FLOW_MPT_NODES,
            DbOp::Delete { col, .. } => col == COL_FLOW_MPT_NODES,
            DbOp::DeletePrefix { .. } => false,
        }
}

proof fn lemma_apply_node_ops(rows: Rows, n: u32, ops: Seq<DbOp>)
    requires
        n >= COL_NUM,
        node_ops(ops),
    ensures
        apply_ops(rows, n, ops) == apply_ops(rows, COL_NUM, ops),
    decreases ops.len(),
{
    if ops.len() > 0 {
        assert(node_ops(ops.drop_last())) by {
            assert forall|j: int| 0 <= j < ops.drop_last().len() implies match #[trigger] ops.drop_last()[j] {
                DbOp::Put { col, .. } => col == COL_FLOW_MPT_NODES,
                DbOp::Delete { col, .. } => col == COL_FLOW_MPT_NODES,
                DbOp::DeletePrefix { .. } => false,
            } by {
                assert(ops.drop_last()[j] == ops[j]);
            }
        }
        lemma_apply_node_ops(rows, n, ops.drop_last());
        assert(ops.last() == ops[ops.len() - 1]);
    }
}

/// A write transaction on the Merkle nodes and layer sizes.
pub struct NodeDBTransaction(DBTransaction);

/// The step that stores the hash `node` as the Merkle node at `pos` of layer
/// `layer`.
pub open spec fn save_node_op(layer: usize, pos: usize, node: Seq<u8>) -> DbOp {
    DbOp::Put { col: COL_FLOW_MPT_NODES, key: mpt_node_key(layer, pos), value: node }
}

/// The step that removes the Merkle node at `pos` of layer `layer`.
pub open spec fn remove_node_op(layer: usize, pos: usize) -> DbOp {
    DbOp::Delete { col: COL_FLOW_MPT_NODES, key: mpt_node_key(layer, pos) }
}

/// The step that stores `size` as the size of layer `layer`.
pub open spec fn save_layer_size_op(layer: usize, size: usize) -> DbOp {
    DbOp::Put { col: COL_FLOW_MPT_NODES, key: spec_layer_size_key(layer), value: be64(size as u64) }
}

/// The step that removes the size of layer `layer`.
pub open spec fn remove_layer_size_op(layer: usize) -> DbOp {
    DbOp::Delete { col: COL_FLOW_MPT_NODES, key: spec_layer_size_key(layer) }
}

impl NodeDBTransaction {
    /// The steps of the transaction, in the order they were added.
    pub closed spec fn ops(&self) -> Seq<DbOp> {
        tx_ops(self.0)
    }

    /// Every step is on the column of the Merkle nodes.
    pub open spec fn wf(&self) -> bool {
        node_ops(self.ops())
    }

    /// Adds the step that stores `node` as the Merkle node at `pos` of
    /// layer `layer`.
    pub fn save_node(&mut self, layer: usize, pos: usize, node: &DataRoot)
        requires
            old(self).wf(),
        ensures
            final(self).wf(),
            final(self).ops() == old(self).ops().push(save_node_op(layer, pos, node@)),
    {
        let key = encode_mpt_node_key(layer, pos);
        self.0.put(COL_FLOW_MPT_NODES, key.as_slice(), node.bytes.as_slice());
    }

    /// Adds, for each entry of `nodes` in order, the step that stores its
    /// hash as the Merkle node at its position of its layer.
    pub fn save_node_list(&mut self, nodes: &[(usize, usize, &DataRoot)])
        requires
            old(self).wf(),
        ensures
            final(self).wf(),
            final(self).ops() == old(self).ops() + Seq::new(
                nodes@.len(),
                |j: int| save_node_op(nodes@[j].0, nodes@[j].1, nodes@[j].2@),
            ),
    {
        let ghost added = Seq::new(
            nodes@.len(),
            |j: int| save_node_op(nodes@[j].0, nodes@[j].1, nodes@[j].2@),
        );
        let mut j: usize = 0;
        assert(self.ops() =~= old(self).ops() + added.take(0));
        while j < nodes.len()
            invariant
                j <= nodes@.len(),
                added == Seq::new(
                    nodes@.len(),
                    |j: int| save_node_op(nodes@[j].0, nodes@[j].1, nodes@[j].2@),
                ),
                self.wf(),
                self.ops() == old(self).ops() + added.take(j as int),
            decreases nodes@.len() - j,
        {
            let (layer_index, position, data) = nodes[j];
            self.save_node(layer_index, position, data);
            assert(self.ops() =~= old(self).ops() + added.take(j as int + 1));
            j += 1;
        }
        assert(added.take(nodes@.len() as int) =~= added);
    }

    /// Adds, for each entry of `nodes` in order, the step that removes the
    /// Merkle node at its position of its layer.
    pub fn remove_node_list(&mut self, nodes: &[(usize, usize)])
        requires
            old(self).wf(),
        ensures
            final(self).wf(),
            final(self).ops() == old(self).ops() + Seq::new(
                nodes@.len(),
                |j: int| remove_node_op(nodes@[j].0, nodes@[j].1),
            ),
    {
        let ghost added = Seq::new(
            nodes@.len(),
            |j: int| remove_node_op(nodes@[j].0, nodes@[j].1),
        );
        let mut j: usize = 0;
        assert(self.ops() =~= old(self).ops() + added.take(0));
        while j < nodes.len()
            invariant
                j <= nodes@.len(),
                added == Seq::new(nodes@.len(), |j: int| remove_node_op(nodes@[j].0, nodes@[j].1)),
                self.wf(),
                self.ops() == old(self).ops() + added.take(j as int),
            decreases nodes@.len() - j,
        {
            let (layer_index, position) = nodes[j];
            let key = encode_mpt_node_key(layer_index, position);
            self.0.delete(COL_FLOW_MPT_NODES, key.as_slice());
            assert(self.ops() =~= old(self).ops() + added.take(j as int + 1));
            j += 1;
        }
        assert(added.take(nodes@.len() as int) =~= added);
    }

    /// Adds the step that stores `size` as the size of layer `layer`.
    pub fn save_layer_size(&mut self, layer: usize, size: usize)
        requires
            old(self).wf(),
        ensures
            final(self).wf(),
            final(self).ops() == old(self).ops().push(save_layer_size_op(layer, size)),
    {
        let key = layer_size_key(layer);
        let value = encode_u64(size as u64);
        self.0.put(COL_FLOW_MPT_NODES, key.as_slice(), value.as_slice());
    }

    /// Adds the step that removes the size of layer `layer`.
    pub fn remove_layer_size(&mut self, layer: usize)
        requires
            old(self).wf(),
        ensures
            final(self).wf(),
            final(self).ops() == old(self).ops().push(remove_layer_size_op(layer)),
    {
        let key = layer_size_key(layer);
        self.0.delete(COL_FLOW_MPT_NODES, key.as_slice());
    }
}

} // verus!

//! The key-value driver as the store sees it: an in-memory database of byte
//! strings in numbered columns, and write transactions on it. Nothing in this
//! file is proved; each contract states what the driver's source shows.

use crate::codec::lex_le;
use kvdb::{DBTransaction, KeyValueDB};
use kvdb_memorydb::InMemory;
use vstd::prelude::*;

verus! {

/// `kvdb_memorydb::InMemory`, held as an opaque value.
#[verifier::external_type_specification]
#[verifier::external_body]
pub struct ExInMemory(kvdb_memorydb::InMemory);

/// `kvdb::DBTransaction`, held as an opaque value.
#[verifier::external_type_specification]
#[verifier::external_body]
pub struct ExDBTransaction(kvdb::DBTransaction);

/// `std::io::Error`, held as an opaque value.
#[verifier::external_type_specification]
#[verifier::external_body]
pub struct ExIoError(std::io::Error);

/// One step of a write transaction.
pub enum DbOp {
    /// Store `value` under `key`, over whatever was there.
    Put { col: u32, key: Seq<u8>, value: Seq<u8> },
    /// Remove `key`.
    Delete { col: u32, key: Seq<u8> },
    /// Remove every key that begins with `prefix`.
    DeletePrefix { col: u32, prefix: Seq<u8> },
}

/// The rows of a database: column and key to value.
pub type Rows = Map<(u32, Seq<u8>), Seq<u8>>;

/// The steps that a transaction holds, in the order they were added.
pub uninterp spec fn tx_ops(tx: DBTransaction) -> Seq<DbOp>;

/// The rows that a database holds.
pub uninterp spec fn kv_contents(db: InMemory) -> Map<(u32, Seq<u8>), Seq<u8>>;

/// The number of columns that a database was made with; its columns are
/// those numbered below it.
pub uninterp spec fn kv_num_cols(db: InMemory) -> u32;

/// A database without rows.
pub open spec fn no_rows() -> Rows {
    Map::empty()
}

/// Whether `key` begins with `prefix`.
pub open spec fn has_prefix(key: Seq<u8>, prefix: Seq<u8>) -> bool {
    prefix.len() <= key.len() && key.take(prefix.len() as int) == prefix
}

/// The rows after one step. A step on a column that the database does not
/// have changes nothing.
pub open spec fn apply_op(rows: Rows, num_cols: u32, op: DbOp) -> Rows {
    match op {
        DbOp::Put { col, key, value } => if col < num_cols {
            rows.insert((col, key), value)
        } else {
            rows
        },
        DbOp::Delete { col, key } => if col < num_cols {
            rows.remove((col, key))
        } else {
            rows
        },
        DbOp::DeletePrefix { col, prefix } => if col < num_cols {
            rows.remove_keys(Set::new(|k: (u32, Seq<u8>)| k.0 == col && has_prefix(k.1, prefix)))
        } else {
            rows
        },
    }
}

/// The rows after the steps `ops`, taken in order.
pub open spec fn apply_ops(rows: Rows, num_cols: u32, ops: Seq<DbOp>) -> Rows
    decreases ops.len(),
{
    if ops.len() == 0 {
        rows
    } else {
        apply_op(apply_ops(rows, num_cols, ops.drop_last()), num_cols, ops.last())
    }
}

/// The keys of column `col`.
pub open spec fn column_keys(rows: Rows, col: u32) -> Set<Seq<u8>> {
    Set::new(|key: Seq<u8>| rows.contains_key((col, key)))
}

/// Whether column `col` holds `n` keys, no more and no fewer.
pub open spec fn column_has_keys(rows: Rows, col: u32, n: nat) -> bool {
    column_keys(rows, col).finite() && column_keys(rows, col).len() == n
}

/// `DBTransaction::new` gives a transaction without steps.
pub assume_specification[ DBTransaction::new ]() -> (tx: DBTransaction)
    ensures
        tx_ops(tx) == Seq::<DbOp>::empty(),
;

/// `DBTransaction::put` adds one step at the end: store `value` under `key`
/// in column `col`.
pub assume_specification[ DBTransaction::put ](
    tx: &mut DBTransaction,
    col: u32,
    key: &[u8],
    value: &[u8],
)
    ensures
        tx_ops(*final(tx)) == tx_ops(*old(tx)).push(
            DbOp::Put { col: col, key: key@, value: value@ },
        ),
;

/// `DBTransaction::delete` adds one step at the end: remove `key` from
/// column `col`.
pub assume_specification[ DBTransaction::delete ](tx: &mut DBTransaction, col: u32, key: &[u8])
    ensures
        tx_ops(*final(tx)) == tx_ops(*old(tx)).push(DbOp::Delete { col: col, key: key@ }),
;

/// `kvdb_memorydb::create` makes a database with the columns numbered below
/// `num_cols` and no rows.
#[verifier::external_body]
pub(crate) fn kv_create(num_cols: u32) -> (db: InMemory)
    ensures
        kv_num_cols(db) == num_cols,
        kv_contents(db) == no_rows(),
{
    kvdb_memorydb::create(num_cols)
}

/// `InMemory::get` of `KeyValueDB`: the value under `key` in column `col`,
/// `None` where there is none, and an error exactly where the database has
/// no such column.
#[verifier::external_body]
pub(crate) fn kv_get(db: &InMemory, col: u32, key: &[u8]) -> (r: Result<
    Option<Vec<u8>>,
    std::io::Error,
>)
    ensures
        match r {
            Ok(Some(v)) => col < kv_num_cols(*db) && kv_contents(*db).contains_key((col, key@))
                && kv_contents(*db)[(col, key@)] == v@,
            Ok(None) => col < kv_num_cols(*db) && !kv_contents(*db).contains_key((col, key@)),
            Err(_) => col >= kv_num_cols(*db),
        },
{
    db.get(col, key)
}

/// `InMemory::write` of `KeyValueDB`: takes the steps of the transaction in
/// order, skips those on a column that the database does not have, and
/// always succeeds.
#[verifier::external_body]
pub(crate) fn kv_write(db: &mut InMemory, tx: DBTransaction) -> (r: Result<(), std::io::Error>)
    ensures
        r is Ok,
        kv_num_cols(*final(db)) == kv_num_cols(*old(db)),
        kv_contents(*final(db)) == apply_ops(
            kv_contents(*old(db)),
            kv_num_cols(*old(db)),
            tx_ops(tx),
        ),
{
    db.write(tx)
}

/// `InMemory::iter` of `KeyValueDB`, taken to its last item: the keys of a
/// column come in ascending dictionary order, so this is the greatest key of
/// column `col`, `None` where the column is empty, and an error exactly
/// where the database has no such column.
#[verifier::external_body]
pub(crate) fn kv_last_key(db: &InMemory, col: u32) -> (r: Result<Option<Vec<u8>>, std::io::Error>)
    ensures
        match r {
            Ok(Some(k)) => col < kv_num_cols(*db) && kv_contents(*db).contains_key((col, k@))
                && forall|other: Seq<u8>| #[trigger]
                kv_contents(*db).contains_key((col, other)) ==> lex_le(other, k@),
            Ok(None) => col < kv_num_cols(*db) && forall|other: Seq<u8>|
                !#[trigger] kv_contents(*db).contains_key((col, other)),
            Err(_) => col >= kv_num_cols(*db),
        },
{
    match db.iter(col).last() {
        Some(Ok((k, _))) => Ok(Some(k.to_vec())),
        Some(Err(e)) => Err(e),
        None => Ok(None),
    }
}

/// `InMemory::iter` of `KeyValueDB`, counted: the number of keys in column
/// `col`.
#[verifier::external_body]
pub(crate) fn kv_num_keys(db: &InMemory, col: u32) -> (n: usize)
    requires
        col < kv_num_cols(*db),
    ensures
        column_has_keys(kv_contents(*db), col, n as nat),
{
    db.iter(col).count()
}

} // verus!

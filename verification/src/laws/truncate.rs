//! What holds of truncating the rows of the batches.
use crate::codec::{
    be64_value, lemma_be64_injective, lemma_be64_of_be64_value, lemma_be64_order,
    lemma_be64_value_of_be64, lex_le,
};
use crate::entry_batch::{
    lemma_batch_bytes_roundtrip, lemma_batch_roundtrip, lemma_truncated, BatchView,
};
use crate::error::Error;
use crate::flow_db::{
    batch_key, batch_keys_between, cut_boundary, is_last_key, last_key, put_batches,
    spec_get_batch, spec_truncate, COL_ENTRY_BATCH,
};
use crate::kv::Rows;
use crate::laws::append::lemma_put_batches;
use crate::params::SECTORS_PER_LOAD;
use vstd::prelude::*;

verus! {

/// Whether every key in the column of the batches is the key of a batch:
/// eight bytes.
pub open spec fn batch_keys_wf(rows: Rows) -> bool {
    forall|key: Seq<u8>| #[trigger] rows.contains_key((COL_ENTRY_BATCH, key)) ==> key.len() == 8
}

/// Storing batches keeps the column of the batches a column of batch keys.
pub proof fn lemma_put_batches_keys(rows: Rows, list: Seq<(u64, BatchView)>)
    requires
        batch_keys_wf(rows),
    ensures
        batch_keys_wf(put_batches(rows, list)),
{
    lemma_put_batches(rows, list);
    let after = put_batches(rows, list);
    assert forall|key: Seq<u8>| #[trigger] after.contains_key((COL_ENTRY_BATCH, key)) implies key.len()
        == 8 by {
        let k = (COL_ENTRY_BATCH, key);
        if !rows.contains_key(k) {
            let j = choose|j: int| 0 <= j < list.len() && k == batch_key((#[trigger] list[j]).0);
            lemma_be64_value_of_be64(list[j].0);
        }
    }
}

/// What is known of the greatest key of a column that has one.
proof fn lemma_last_key_is_last(rows: Rows, col: u32)
    ensures
        match last_key(rows, col) {
            Some(k) => is_last_key(rows, col, Some(k)),
            None => forall|k: Seq<u8>| !is_last_key(rows, col, Some(k)),
        },
{
    if exists|k: Seq<u8>| is_last_key(rows, col, Some(k)) {
        let k = choose|k: Seq<u8>| is_last_key(rows, col, Some(k));
        assert(is_last_key(rows, col, Some(k)));
    }
}

/// Truncate idempotence: truncating at the same index once more leaves the
/// rows as the first truncation left them.
pub proof fn lemma_truncate_idempotent(rows: Rows, start_index: u64)
    requires
        batch_keys_wf(rows),
    ensures
        spec_truncate(rows, start_index, SECTORS_PER_LOAD) matches Ok((once, _)) ==> {
            &&& batch_keys_wf(once)
            &&& spec_truncate(once, start_index, SECTORS_PER_LOAD) is Ok
            &&& spec_truncate(once, start_index, SECTORS_PER_LOAD).unwrap().0 == once
        },
{
    let batch = (start_index as int / (SECTORS_PER_LOAD as int)) as u64;
    let offset = start_index as int % (SECTORS_PER_LOAD as int);
    let first_gone: int = if offset != 0 {
        batch + 1
    } else {
        batch as int
    };
    match spec_truncate(rows, start_index, SECTORS_PER_LOAD) {
        Err(_) => {},
        Ok((once, _)) => {
            lemma_last_key_is_last(rows, COL_ENTRY_BATCH);
            match last_key(rows, COL_ENTRY_BATCH) {
                None => {
                    assert(once == rows);
                },
                Some(k) => {
                    let end = be64_value(k);
                    lemma_be64_of_be64_value(k);
                    let cut = if offset != 0 {
                        cut_boundary(rows, batch, offset)
                    } else {
                        rows
                    };
                    assert(once == cut.remove_keys(batch_keys_between(first_gone, end)));
                    // Every key that is left is the key of a batch before the cut.
                    assert forall|key: Seq<u8>| #[trigger]
                        once.contains_key((COL_ENTRY_BATCH, key)) implies key.len() == 8
                        && be64_value(key) < first_gone && be64_value(key) <= end by {
                        assert(cut.contains_key((COL_ENTRY_BATCH, key)));
                        assert(rows.contains_key((COL_ENTRY_BATCH, key)));
                        lemma_be64_of_be64_value(key);
                        let i = be64_value(key) as u64;
                        assert(lex_le(key, k));
                        lemma_be64_order(i, end as u64);
                        if i >= first_gone {
                            assert(batch_keys_between(first_gone, end).contains(batch_key(i)));
                        }
                    }
                    // The boundary batch is as the first cut left it.
                    let cut_again = if offset != 0 {
                        cut_boundary(once, batch, offset)
                    } else {
                        once
                    };
                    if offset != 0 {
                        assert(!batch_keys_between(first_gone, end).contains(batch_key(batch))) by {
                            if batch_keys_between(first_gone, end).contains(batch_key(batch)) {
                                let i = choose|i: u64|
                                    first_gone <= i <= end && batch_key(batch)
                                        == #[trigger] batch_key(i);
                                lemma_be64_injective(batch, i);
                            }
                        }
                        match spec_get_batch(rows, batch) {
                            Ok(Some(v)) => {
                                lemma_batch_bytes_roundtrip(rows[batch_key(batch)]);
                                lemma_truncated(v, offset);
                                let kept = v.truncated(offset);
                                if !kept.is_empty() {
                                    lemma_batch_roundtrip(kept);
                                    assert(once[batch_key(batch)] == kept.to_bytes());
                                    assert(spec_get_batch(once, batch) == Ok::<
                                        Option<BatchView>,
                                        Error,
                                    >(Some(kept)));
                                    assert(cut_again =~= once);
                                } else {
                                    assert(!once.contains_key(batch_key(batch)));
                                }
                            },
                            Ok(None) => {
                                assert(!once.contains_key(batch_key(batch)));
                            },
                            Err(_) => {},
                        }
                    }
                    assert(cut_again == once);
                    lemma_last_key_is_last(once, COL_ENTRY_BATCH);
                    match last_key(once, COL_ENTRY_BATCH) {
                        None => {},
                        Some(k2) => {
                            assert(once.contains_key((COL_ENTRY_BATCH, k2)));
                            let end2 = be64_value(k2);
                            assert(end2 < first_gone);
                            assert(once.remove_keys(batch_keys_between(first_gone, end2))
                                =~= once);
                        },
                    }
                },
            }
        },
    }
}

} // verus!

//! The pending seal set mirrors the batches: every pending seal unit is
//! complete and not sealed in its batch, whatever the store does.
use crate::batch_iter::{batch_list, lemma_batch_list_covers};
use crate::codec::{be64_value, lemma_be64_injective};
use crate::entry_batch::{
    batch_decodable, lemma_batch_bytes_roundtrip, lemma_batch_roundtrip, lemma_truncated,
    lemma_units_filter, local_seal_index, BatchView,
};
use crate::error::Error;
use crate::flow::{
    answered, append_piece, append_pieces, can_pull, chunk_runs, consistent,
    consistent_answers, consistent_test, insert_all, lemma_insert_all, lemma_reseal_before_cut,
    pull_candidates, pull_result, pull_test, seal_batch, seal_group, seal_groups,
    spec_append_plan, spec_submit, AppendPlan,
};
use crate::flow_db::{
    batch_key, batch_keys_between, batch_keys_of, cut_boundary, global_units, has_last_batch,
    last_key, put_batches, spec_get_batch, spec_truncate, COL_ENTRY_BATCH,
};
use crate::kv::Rows;
use crate::laws::append::{
    lemma_piece_begins, lemma_piece_ends, lemma_plan_ascending, lemma_planned_wf,
    lemma_put_batches, lemma_stored_batch, planned_batch,
};
use crate::laws::sealing::lemma_chunk_runs;
use crate::params::{BYTES_PER_SECTOR, SEALS_PER_LOAD, SECTORS_PER_LOAD, SECTORS_PER_SEAL};
use crate::pending::{
    ascending, elem_at, entries_map, from_index, in_batches, lemma_entries_map,
    lemma_filter_ascending,
};
use crate::shard::ShardConfig;
use crate::types::{SealAnswer, SealTask};
use vstd::prelude::*;

verus! {

/// Whether the rows hold, for the seal unit with the global index `k`, a
/// batch in which that unit is complete and not sealed: what a sealer needs.
#[verifier::opaque]
pub open spec fn unit_ready(rows: Rows, k: u64) -> bool {
    match spec_get_batch(rows, k / (SEALS_PER_LOAD as u64)) {
        Ok(Some(v)) => v.non_sealed_unit(local_seal_index(k)) is Some,
        _ => false,
    }
}

/// Whether every pending seal unit is ready in the rows: the pending seal
/// set mirrors the batches.
pub open spec fn pending_backed(rows: Rows, pending: Map<u64, u64>) -> bool {
    forall|k: u64| #[trigger] pending.contains_key(k) ==> unit_ready(rows, k)
}

/// Whether a seal unit is ready depends on the row of its batch alone.
proof fn lemma_ready_same_row(before: Rows, after: Rows, k: u64)
    requires
        unit_ready(before, k),
        after.contains_key(batch_key(k / (SEALS_PER_LOAD as u64))),
        after[batch_key(k / (SEALS_PER_LOAD as u64))] == before[batch_key(
            k / (SEALS_PER_LOAD as u64),
        )],
    ensures
        unit_ready(after, k),
{
    reveal(unit_ready);
}

/// The rows give back a well-formed batch that was stored.
proof fn lemma_stored_row(rows: Rows, index: u64, v: BatchView)
    requires
        v.wf(),
        rows.contains_key(batch_key(index)),
        rows[batch_key(index)] == v.to_bytes(),
    ensures
        spec_get_batch(rows, index) == Ok::<Option<BatchView>, Error>(Some(v)),
{
    lemma_batch_roundtrip(v);
}

/// A batch that the rows give is well-formed.
proof fn lemma_loaded_wf(rows: Rows, index: u64)
    ensures
        spec_get_batch(rows, index) matches Ok(Some(v)) ==> v.wf() && rows[batch_key(index)]
            == v.to_bytes(),
{
    if rows.contains_key(batch_key(index)) && batch_decodable(
        rows[batch_key(index)],
    ) {
        lemma_batch_bytes_roundtrip(rows[batch_key(index)]);
    }
}

/// Where the pending seal set mirrors the batches, a pull never fails: it
/// finds the batch of its candidates and the raw bytes of each.
pub proof fn lemma_pull_succeeds(
    rows: Rows,
    ordered: Seq<(u64, u64)>,
    max: u64,
    r: Result<Option<Vec<SealTask>>, Error>,
)
    requires
        ascending(ordered),
        pending_backed(rows, entries_map(ordered)),
        pull_result(rows, ordered, max, r),
    ensures
        r is Ok,
{
    reveal(unit_ready);
    let candidates = pull_candidates(ordered, max);
    if candidates.len() > 0 {
        let test = pull_test(ordered[0].0, max);
        lemma_filter_ascending(ordered, test);
        assert(candidates[0] == ordered[0]);
        lemma_entries_map(ordered, 0);
        let first = candidates[0].0;
        assert(unit_ready(rows, first));
        match spec_get_batch(rows, first / (SEALS_PER_LOAD as u64)) {
            Ok(Some(v)) => {
                assert forall|j: int| 0 <= j < candidates.len() implies v.non_sealed_unit(
                    local_seal_index((#[trigger] candidates[j]).0),
                ) is Some by {
                    let t = choose|t: int| elem_at(ordered, candidates[j], t);
                    assert(elem_at(ordered, candidates[j], t));
                    lemma_entries_map(ordered, t);
                    assert(test(candidates[j]));
                    assert(unit_ready(rows, candidates[j].0));
                }
                assert(can_pull(v, candidates));
            },
            _ => {},
        }
    }
}

/// A change to a row outside the column of the batches keeps the pending
/// seal set a mirror of the batches.
pub proof fn lemma_other_column_keeps_backed(
    rows: Rows,
    pending: Map<u64, u64>,
    key: (u32, Seq<u8>),
    value: Seq<u8>,
)
    requires
        pending_backed(rows, pending),
        key.0 != COL_ENTRY_BATCH,
    ensures
        pending_backed(rows.insert(key, value), pending),
{
    reveal(unit_ready);
    let after = rows.insert(key, value);
    assert forall|k: u64| #[trigger] pending.contains_key(k) implies unit_ready(after, k) by {
        assert(unit_ready(rows, k));
        lemma_ready_same_row(rows, after, k);
    }
}

/// Deleting batches, and taking their seal units out of the pending seal
/// set, keeps the pending seal set a mirror of the batches.
pub proof fn lemma_delete_keeps_backed(rows: Rows, pending: Map<u64, u64>, batch_list: Seq<u64>)
    requires
        pending_backed(rows, pending),
    ensures
        pending_backed(
            rows.remove_keys(batch_keys_of(batch_list)),
            pending.remove_keys(in_batches(batch_list)),
        ),
{
    reveal(unit_ready);
    let after = rows.remove_keys(batch_keys_of(batch_list));
    let left = pending.remove_keys(in_batches(batch_list));
    assert forall|k: u64| #[trigger] left.contains_key(k) implies unit_ready(after, k) by {
        let b = k / (SEALS_PER_LOAD as u64);
        assert(pending.contains_key(k));
        assert(unit_ready(rows, k));
        assert(!batch_list.contains(b));
        if batch_keys_of(batch_list).contains(batch_key(b)) {
            let j = choose|j: int|
                0 <= j < batch_list.len() && batch_key(b) == batch_key(#[trigger] batch_list[j]);
            lemma_be64_injective(b, batch_list[j]);
            assert(batch_list[j] == b);
        }
        lemma_ready_same_row(rows, after, k);
    }
}

/// Storing other subtree roots with a batch keeps the pending seal set a
/// mirror of the batches.
pub proof fn lemma_subtrees_keep_backed(
    rows: Rows,
    pending: Map<u64, u64>,
    batch_index: u64,
    subtrees: Seq<(usize, usize, Seq<u8>)>,
)
    requires
        pending_backed(rows, pending),
        spec_get_batch(rows, batch_index) is Ok,
        forall|j: int| 0 <= j < subtrees.len() ==> (#[trigger] subtrees[j]).2.len() == 32,
    ensures
        pending_backed(
            rows.insert(
                batch_key(batch_index),
                (match spec_get_batch(rows, batch_index).unwrap() {
                    Some(v) => v,
                    None => BatchView::empty(),
                }).with_subtrees(subtrees).to_bytes(),
            ),
            pending,
        ),
{
    reveal(unit_ready);
    let found = match spec_get_batch(rows, batch_index).unwrap() {
        Some(v) => v,
        None => BatchView::empty(),
    };
    lemma_loaded_wf(rows, batch_index);
    let stored = found.with_subtrees(subtrees);
    assert(stored.wf());
    let after = rows.insert(batch_key(batch_index), stored.to_bytes());
    assert forall|k: u64| #[trigger] pending.contains_key(k) implies unit_ready(after, k) by {
        let b = k / (SEALS_PER_LOAD as u64);
        assert(unit_ready(rows, k));
        if b == batch_index {
            lemma_stored_row(after, batch_index, stored);
            assert(stored.non_sealed_unit(local_seal_index(k)) == found.non_sealed_unit(
                local_seal_index(k),
            ));
        } else {
            lemma_be64_injective(b, batch_index);
            lemma_ready_same_row(rows, after, k);
        }
    }
}

/// The seal unit of a sector, counted through its batch.
proof fn lemma_seal_of_sector(x: u64)
    ensures
        x / 4 == 4 * (x / 16) + (x % 16) / 4,
{
    assert(x / 4 == 4 * (x / 16) + (x % 16) / 4) by (bit_vector);
}

/// Truncating the flow keeps the pending seal set a mirror of the batches:
/// what stays pending lies in batches that stay, and what is queued again
/// is complete and no longer sealed.
pub proof fn lemma_truncate_keeps_backed(
    rows: Rows,
    pending: Map<u64, u64>,
    start_index: u64,
    version: u64,
)
    requires
        pending_backed(rows, pending),
        has_last_batch(rows),
    ensures
        spec_truncate(rows, start_index, SECTORS_PER_LOAD) matches Ok((after, reseal))
            ==> pending_backed(
            after,
            insert_all(
                pending.remove_keys(from_index(start_index / (SECTORS_PER_SEAL as u64))),
                reseal,
                version,
            ),
        ),
{
    reveal(unit_ready);
    let batch = (start_index as int / (SECTORS_PER_LOAD as int)) as u64;
    let offset = start_index as int % (SECTORS_PER_LOAD as int);
    let first_gone: int = if offset != 0 {
        batch + 1
    } else {
        batch as int
    };
    match spec_truncate(rows, start_index, SECTORS_PER_LOAD) {
        Err(_) => {},
        Ok((after, reseal)) => {
            let kept = pending.remove_keys(from_index(start_index / (SECTORS_PER_SEAL as u64)));
            let queued = insert_all(kept, reseal, version);
            lemma_insert_all(kept, reseal, version);
            lemma_reseal_before_cut(rows, start_index);
            lemma_loaded_wf(rows, batch);
            let cut = if offset != 0 {
                cut_boundary(rows, batch, offset)
            } else {
                rows
            };
            let end: int = match last_key(rows, COL_ENTRY_BATCH) {
                Some(k) => be64_value(k),
                None => first_gone - 1,
            };
            assert(last_key(rows, COL_ENTRY_BATCH) is Some ==> after == cut.remove_keys(
                batch_keys_between(first_gone, end),
            ));
            assert(last_key(rows, COL_ENTRY_BATCH) is None ==> after == rows);
            assert forall|k: u64| #[trigger] queued.contains_key(k) implies unit_ready(after, k) by {
                let b = k / (SEALS_PER_LOAD as u64);
                let u = local_seal_index(k);
                assert(k < start_index / (SECTORS_PER_SEAL as u64)) by {
                    if reseal.contains(k) {
                        let j = choose|j: int| 0 <= j < reseal.len() && reseal[j] == k;
                        assert(reseal[j] < start_index / (SECTORS_PER_SEAL as u64));
                    } else {
                        assert(kept.contains_key(k));
                    }
                }
                assert(start_index == 16 * batch + offset);
                assert((start_index / (SECTORS_PER_SEAL as u64)) as int == 4 * batch + offset / 4) by {
                    lemma_seal_of_sector(start_index);
                }
                assert(k == 4 * b + u && 0 <= u < 4);
                assert(b <= batch);
                assert(b == batch ==> offset != 0 && (u + 1) * (SECTORS_PER_SEAL as int) <= offset);
                if last_key(rows, COL_ENTRY_BATCH) is None {
                    // An empty column: nothing was pending, nothing is queued again.
                    if reseal.contains(k) {
                        assert(rows.contains_key(batch_key(batch)));
                    } else {
                        assert(unit_ready(rows, k));
                        assert(rows.contains_key(batch_key(b)));
                    }
                } else {
                    assert(!batch_keys_between(first_gone, end).contains(batch_key(b))) by {
                        if batch_keys_between(first_gone, end).contains(batch_key(b)) {
                            let i = choose|i: u64|
                                first_gone <= i <= end && batch_key(b) == #[trigger] batch_key(i);
                            lemma_be64_injective(b, i);
                        }
                    }
                    if b == batch {
                        // The boundary batch: the unit lies wholly before the cut.
                        match spec_get_batch(rows, batch) {
                            Ok(Some(v)) => {
                                lemma_truncated(v, offset);
                                let left = v.truncated(offset);
                                assert(v.unit_complete(u)) by {
                                    if reseal.contains(k) {
                                        let units = v.reseal_units(offset);
                                        let again = |x: u16|
                                            v.sealed[x as int] && (x as int + 1) * (
                                            SECTORS_PER_SEAL as int) <= offset;
                                        lemma_units_filter(again);
                                        let j = choose|j: int|
                                            0 <= j < reseal.len() && reseal[j] == k;
                                        assert(again(units[j]));
                                        assert(reseal[j] == batch * (SEALS_PER_LOAD as u64)
                                            + units[j]);
                                        assert(units[j] as int == u);
                                        assert(v.sealed[u]);
                                    } else {
                                        assert(unit_ready(rows, k));
                                    }
                                }
                                assert(left.unit_complete(u));
                                assert(left.present[u * (SECTORS_PER_SEAL as int)]);
                                assert(!left.is_empty());
                                assert(after.contains_key(batch_key(batch)));
                                assert(after[batch_key(batch)] == left.to_bytes());
                                lemma_stored_row(after, batch, left);
                            },
                            _ => {
                                if !reseal.contains(k) {
                                    assert(unit_ready(rows, k));
                                }
                            },
                        }
                    } else {
                        assert(!reseal.contains(k)) by {
                            if reseal.contains(k) {
                                let j = choose|j: int| 0 <= j < reseal.len() && reseal[j] == k;
                                match spec_get_batch(rows, batch) {
                                    Ok(Some(v)) => {
                                        let units = v.reseal_units(offset);
                                        let again = |x: u16|
                                            v.sealed[x as int] && (x as int + 1) * (
                                            SECTORS_PER_SEAL as int) <= offset;
                                        lemma_units_filter(again);
                                        assert(units[j] < SEALS_PER_LOAD);
                                        assert(reseal[j] == batch * (SEALS_PER_LOAD as u64)
                                            + units[j]);
                                    },
                                    _ => {},
                                }
                            }
                        }
                        assert(unit_ready(rows, k));
                        lemma_be64_injective(b, batch);
                        assert(cut.contains_key(batch_key(b)) && cut[batch_key(b)]
                            == rows[batch_key(b)]);
                        lemma_ready_same_row(rows, after, k);
                    }
                }
            }
        },
    }
}

/// Whether `piece` is a piece of a write of `data` at `start_index`: not
/// empty, within one batch and within the data.
pub open spec fn piece_of_write(start_index: u64, data: Seq<u8>, piece: (u64, u64)) -> bool {
    &&& start_index <= piece.0 < piece.1
    &&& piece.0 as int / (SECTORS_PER_LOAD as int) == (piece.1 - 1) / (SECTORS_PER_LOAD as int)
    &&& piece.1 - start_index <= data.len() / (BYTES_PER_SECTOR as nat)
}

/// Whether `stored` is the batch that an append plans for one of `pieces`.
pub open spec fn has_plan_source(
    rows: Rows,
    data_start: u64,
    data: Seq<u8>,
    pieces: Seq<(u64, u64)>,
    stored: (u64, BatchView),
) -> bool {
    exists|j: int|
        0 <= j < pieces.len() && plan_source(rows, data_start, data, #[trigger] pieces[j], stored)
}

/// Whether the seal unit with the global index `k` is complete and not
/// sealed in one of `batches`.
pub open spec fn has_queue_source(batches: Seq<(u64, BatchView)>, k: u64) -> bool {
    exists|t: int| 0 <= t < batches.len() && queue_source(#[trigger] batches[t], k)
}

/// Where the plan of an append comes from: each of its batches is the
/// planned batch of one of the pieces, and each seal unit that it queues was
/// completed in one of its batches.
proof fn lemma_plan_sources(
    rows: Rows,
    shard: ShardConfig,
    data_start: u64,
    data: Seq<u8>,
    pieces: Seq<(u64, u64)>,
)
    requires
        data.len() % (BYTES_PER_SECTOR as nat) == 0,
        forall|j: int| 0 <= j < pieces.len() ==> piece_of_write(data_start, data, #[trigger] pieces[j]),
    ensures
        append_pieces(rows, shard, data_start, data, pieces) matches Ok(plan) ==> {
            &&& forall|t: int|
                0 <= t < plan.batches.len() ==> has_plan_source(
                    rows,
                    data_start,
                    data,
                    pieces,
                    #[trigger] plan.batches[t],
                )
            &&& forall|i: int|
                0 <= i < plan.queued.len() ==> has_queue_source(
                    plan.batches,
                    #[trigger] plan.queued[i],
                )
        },
    decreases pieces.len(),
{
    if pieces.len() > 0 {
        let head = pieces.drop_last();
        assert forall|j: int| 0 <= j < head.len() implies piece_of_write(
            data_start,
            data,
            #[trigger] head[j],
        ) by {
            assert(head[j] == pieces[j]);
        }
        lemma_plan_sources(rows, shard, data_start, data, head);
        match append_pieces(rows, shard, data_start, data, head) {
            Ok(before) => {
                let last = pieces[pieces.len() - 1];
                assert(pieces.last() == last);
                assert(piece_of_write(data_start, data, last));
                match append_piece(rows, shard, data_start, data, last, before) {
                    Ok(plan) => {
                        assert forall|t: int| 0 <= t < plan.batches.len() implies has_plan_source(
                            rows,
                            data_start,
                            data,
                            pieces,
                            #[trigger] plan.batches[t],
                        ) by {
                            if t < before.batches.len() {
                                assert(plan.batches[t] == before.batches[t]);
                                assert(has_plan_source(
                                    rows,
                                    data_start,
                                    data,
                                    head,
                                    before.batches[t],
                                ));
                                let j = choose|j: int|
                                    0 <= j < head.len() && plan_source(
                                        rows,
                                        data_start,
                                        data,
                                        #[trigger] head[j],
                                        before.batches[t],
                                    );
                                assert(pieces[j] == head[j]);
                                assert(plan_source(
                                    rows,
                                    data_start,
                                    data,
                                    pieces[j],
                                    plan.batches[t],
                                ));
                            } else {
                                assert(plan_source(
                                    rows,
                                    data_start,
                                    data,
                                    pieces[pieces.len() - 1],
                                    plan.batches[t],
                                ));
                            }
                        }
                        assert forall|i: int| 0 <= i < plan.queued.len() implies has_queue_source(
                            plan.batches,
                            #[trigger] plan.queued[i],
                        ) by {
                            if i < before.queued.len() {
                                assert(plan.queued[i] == before.queued[i]);
                                assert(has_queue_source(before.batches, before.queued[i]));
                                let t = choose|t: int|
                                    0 <= t < before.batches.len() && queue_source(
                                        #[trigger] before.batches[t],
                                        before.queued[i],
                                    );
                                assert(plan.batches[t] == before.batches[t]);
                                assert(queue_source(plan.batches[t], plan.queued[i]));
                            } else {
                                let t = plan.batches.len() - 1;
                                let stored = plan.batches[t];
                                let offset = (last.0 % (SECTORS_PER_LOAD as u64)) as int;
                                let count = last.1 - last.0;
                                let bytes = data.subrange(
                                    (last.0 - data_start) * (BYTES_PER_SECTOR as int),
                                    (last.1 - data_start) * (BYTES_PER_SECTOR as int),
                                );
                                assert(bytes.len() == count * (BYTES_PER_SECTOR as int));
                                assert(bytes.len() as int / (BYTES_PER_SECTOR as int) == count);
                                let units = stored.1.completed_units(offset, count);
                                let done = |u: u16|
                                    BatchView::touches(offset, count, u as int)
                                        && stored.1.unit_complete(u as int);
                                lemma_units_filter(done);
                                let at = i - before.queued.len();
                                assert(plan.queued[i] == global_units(stored.0, units)[at]);
                                assert(done(units[at]));
                                assert(stored.1.sealed[units[at] as int] == false);
                                assert(queue_source(stored, plan.queued[i]));
                            }
                        }
                    },
                    Err(_) => {},
                }
            },
            Err(_) => {},
        }
    }
}

/// Whether `stored` is the batch that an append plans for `piece`.
pub open spec fn plan_source(
    rows: Rows,
    data_start: u64,
    data: Seq<u8>,
    piece: (u64, u64),
    stored: (u64, BatchView),
) -> bool {
    &&& stored.0 == piece.0 / (SECTORS_PER_LOAD as u64)
    &&& stored.1 == planned_batch(rows, data_start, data, piece)
    &&& spec_get_batch(rows, stored.0) is Ok
}

/// Whether the seal unit with the global index `k` lies in the batch
/// `stored` and is complete and not sealed there.
pub open spec fn queue_source(stored: (u64, BatchView), k: u64) -> bool {
    &&& k / (SEALS_PER_LOAD as u64) == stored.0
    &&& stored.1.unit_complete(local_seal_index(k))
    &&& !stored.1.sealed[local_seal_index(k)]
}

/// Appending keeps the pending seal set a mirror of the batches, whether
/// or not the completed seal units are queued.
pub proof fn lemma_append_keeps_backed(
    rows: Rows,
    pending: Map<u64, u64>,
    shard: ShardConfig,
    start_index: u64,
    data: Seq<u8>,
    version: u64,
)
    requires
        pending_backed(rows, pending),
    ensures
        spec_append_plan(rows, shard, start_index, data) matches Ok(plan) ==> pending_backed(
            put_batches(rows, plan.batches),
            pending,
        ) && pending_backed(
            put_batches(rows, plan.batches),
            insert_all(pending, plan.queued, version),
        ),
{
    reveal(unit_ready);
    match spec_append_plan(rows, shard, start_index, data) {
        Err(_) => {},
        Ok(plan) => {
            let after = put_batches(rows, plan.batches);
            let queued = insert_all(pending, plan.queued, version);
            lemma_insert_all(pending, plan.queued, version);
            lemma_put_batches(rows, plan.batches);
            if data.len() == 0 {
                assert(after == rows);
                assert(queued == pending);
            } else {
                let entries = data.len() as int / (BYTES_PER_SECTOR as int);
                let index_end = (start_index + entries) as u64;
                let pieces = batch_list(start_index, index_end, SECTORS_PER_LOAD);
                let base = start_index as int / (SECTORS_PER_LOAD as int);
                lemma_batch_list_covers(start_index, index_end, SECTORS_PER_LOAD);
                lemma_plan_ascending(rows, shard, start_index, data, pieces, base);
                assert forall|j: int| 0 <= j < pieces.len() implies piece_of_write(
                    start_index,
                    data,
                    #[trigger] pieces[j],
                ) by {
                    lemma_piece_ends(pieces, j, index_end);
                    lemma_piece_begins(pieces, j, start_index);
                }
                lemma_plan_sources(rows, shard, start_index, data, pieces);
                // Each batch of the plan can be read back.
                assert forall|t: int| 0 <= t < plan.batches.len() implies spec_get_batch(
                    after,
                    (#[trigger] plan.batches[t]).0,
                ) == Ok::<Option<BatchView>, Error>(Some(plan.batches[t].1)) by {
                    assert(has_plan_source(rows, start_index, data, pieces, plan.batches[t]));
                    let j = choose|j: int|
                        0 <= j < pieces.len() && plan_source(
                            rows,
                            start_index,
                            data,
                            #[trigger] pieces[j],
                            plan.batches[t],
                        );
                    assert(piece_of_write(start_index, data, pieces[j]));
                    lemma_planned_wf(rows, start_index, data, pieces[j]);
                    assert forall|x: int| t < x < plan.batches.len() implies (
                    #[trigger] plan.batches[x]).0 != plan.batches[t].0 by {
                        assert(plan.batches[t].0 < plan.batches[x].0);
                    }
                    lemma_stored_batch(rows, plan.batches, t);
                }
                assert forall|k: u64| #[trigger] queued.contains_key(k) implies unit_ready(
                    after,
                    k,
                ) by {
                    if plan.queued.contains(k) {
                        let i = choose|i: int| 0 <= i < plan.queued.len() && plan.queued[i] == k;
                        assert(has_queue_source(plan.batches, plan.queued[i]));
                        let t = choose|t: int|
                            0 <= t < plan.batches.len() && queue_source(
                                #[trigger] plan.batches[t],
                                plan.queued[i],
                            );
                        assert(spec_get_batch(after, plan.batches[t].0) == Ok::<
                            Option<BatchView>,
                            Error,
                        >(Some(plan.batches[t].1)));
                    } else {
                        lemma_append_keeps_ready(rows, plan, start_index, data, pieces, k);
                    }
                }
                assert forall|k: u64| #[trigger] pending.contains_key(k) implies unit_ready(
                    after,
                    k,
                ) by {
                    lemma_append_keeps_ready(rows, plan, start_index, data, pieces, k);
                }
            }
        },
    }
}

/// A seal unit that was ready before an append is ready after it.
proof fn lemma_append_keeps_ready(
    rows: Rows,
    plan: AppendPlan,
    start_index: u64,
    data: Seq<u8>,
    pieces: Seq<(u64, u64)>,
    k: u64,
)
    requires
        unit_ready(rows, k),
        data.len() % (BYTES_PER_SECTOR as nat) == 0,
        forall|j: int| 0 <= j < pieces.len() ==> piece_of_write(start_index, data, #[trigger] pieces[j]),
        forall|t: int|
            0 <= t < plan.batches.len() ==> has_plan_source(
                rows,
                start_index,
                data,
                pieces,
                #[trigger] plan.batches[t],
            ),
        forall|t: int|
            0 <= t < plan.batches.len() ==> spec_get_batch(
                put_batches(rows, plan.batches),
                (#[trigger] plan.batches[t]).0,
            ) == Ok::<Option<BatchView>, Error>(Some(plan.batches[t].1)),
    ensures
        unit_ready(put_batches(rows, plan.batches), k),
{
    reveal(unit_ready);
    let after = put_batches(rows, plan.batches);
    let b = k / (SEALS_PER_LOAD as u64);
    let u = local_seal_index(k);
    lemma_put_batches(rows, plan.batches);
    if exists|t: int| 0 <= t < plan.batches.len() && (#[trigger] plan.batches[t]).0 == b {
        let t = choose|t: int| 0 <= t < plan.batches.len() && (#[trigger] plan.batches[t]).0 == b;
        assert(has_plan_source(rows, start_index, data, pieces, plan.batches[t]));
        let j = choose|j: int|
            0 <= j < pieces.len() && plan_source(
                rows,
                start_index,
                data,
                #[trigger] pieces[j],
                plan.batches[t],
            );
        let piece = pieces[j];
        assert(piece_of_write(start_index, data, piece));
        match spec_get_batch(rows, b) {
            Ok(Some(v)) => {
                lemma_loaded_wf(rows, b);
                let offset = (piece.0 % (SECTORS_PER_LOAD as u64)) as int;
                let bytes = data.subrange(
                    (piece.0 - start_index) * (BYTES_PER_SECTOR as int),
                    (piece.1 - start_index) * (BYTES_PER_SECTOR as int),
                );
                let stored = v.inserted(offset, bytes);
                assert(plan.batches[t].1 == stored);
                assert(v.unit_complete(u) && !v.sealed[u]);
                assert(stored.unit_complete(u));
                assert(!stored.sealed[u]);
            },
            _ => {},
        }
    } else {
        assert(!(exists|t: int|
            0 <= t < plan.batches.len() && batch_key(b) == batch_key(
                (#[trigger] plan.batches[t]).0,
            ))) by {
            if exists|t: int|
                0 <= t < plan.batches.len() && batch_key(b) == batch_key(
                    (#[trigger] plan.batches[t]).0,
                ) {
                let t = choose|t: int|
                    0 <= t < plan.batches.len() && batch_key(b) == batch_key(
                        (#[trigger] plan.batches[t]).0,
                    );
                lemma_be64_injective(b, plan.batches[t].0);
            }
        }
        lemma_ready_same_row(rows, after, k);
    }
}

/// The last place in `list` of a batch with the index `b`, or -1 where
/// there is none.
pub open spec fn last_place(list: Seq<(u64, BatchView)>, b: u64) -> int
    decreases list.len(),
{
    if list.len() == 0 {
        -1
    } else if list.last().0 == b {
        list.len() - 1
    } else {
        last_place(list.drop_last(), b)
    }
}

proof fn lemma_last_place(list: Seq<(u64, BatchView)>, b: u64)
    ensures
        -1 <= last_place(list, b) < list.len(),
        last_place(list, b) >= 0 ==> list[last_place(list, b)].0 == b,
        forall|x: int| last_place(list, b) < x < list.len() ==> (#[trigger] list[x]).0 != b,
    decreases list.len(),
{
    if list.len() > 0 && list.last().0 != b {
        let head = list.drop_last();
        lemma_last_place(head, b);
        assert forall|x: int| last_place(list, b) < x < list.len() implies (#[trigger] list[x]).0
            != b by {
            if x < head.len() {
                assert(head[x] == list[x]);
            }
        }
    }
}

/// What taking the answers of a run does to a batch: it stays well-formed,
/// no sector comes or goes, and a seal unit that is sealed afterwards was
/// sealed before or is the unit of one of the answers.
proof fn lemma_seal_group(v: BatchView, group: Seq<SealAnswer>)
    requires
        v.wf(),
    ensures
        seal_group(v, group) matches Ok(b) ==> {
            &&& b.wf()
            &&& b.present == v.present
            &&& forall|u: int|
                0 <= u < SEALS_PER_LOAD && #[trigger] b.sealed[u] && !v.sealed[u] ==> exists|i: int|
                    0 <= i < group.len() && local_seal_index((#[trigger] group[i]).seal_index)
                        == u
        },
    decreases group.len(),
{
    if group.len() > 0 {
        let head = group.drop_last();
        lemma_seal_group(v, head);
        match seal_group(v, head) {
            Ok(before) => {
                let answer = group.last();
                let unit = local_seal_index(answer.seal_index);
                if before.can_seal(unit, answer.sealed_data@) {
                    let b = before.sealed_with(unit, answer.sealed_data@);
                    assert(b.sized());
                    assert forall|u: int| 0 <= u < SEALS_PER_LOAD && #[trigger] b.sealed[u] implies b.unit_complete(
                        u,
                    ) by {
                        if u != unit {
                            assert(before.sealed[u]);
                            assert(before.unit_complete(u));
                        }
                    }
                    assert forall|u: int|
                        0 <= u < SEALS_PER_LOAD && #[trigger] b.sealed[u] && !v.sealed[u] implies exists|
                        i: int,
                    |
                        0 <= i < group.len() && local_seal_index((#[trigger] group[i]).seal_index)
                            == u by {
                        if u == unit {
                            assert(local_seal_index(group[group.len() - 1].seal_index) == u);
                        } else {
                            assert(before.sealed[u]);
                            let i = choose|i: int|
                                0 <= i < head.len() && local_seal_index(
                                    (#[trigger] head[i]).seal_index,
                                ) == u;
                            assert(group[i] == head[i]);
                        }
                    }
                }
            },
            Err(_) => {},
        }
    }
}

/// Whether `stored` is what taking the run `group` gives: the batch of the
/// run's first answer as it is in `rows`, with the answers applied.
pub open spec fn group_source(rows: Rows, group: Seq<SealAnswer>, stored: (u64, BatchView)) -> bool {
    &&& group.len() > 0
    &&& stored.0 == seal_batch(group[0].seal_index)
    &&& spec_get_batch(rows, stored.0) is Ok
    &&& spec_get_batch(rows, stored.0).unwrap() is Some
    &&& seal_group(spec_get_batch(rows, stored.0).unwrap().unwrap(), group) == Ok::<
        BatchView,
        Error,
    >(stored.1)
}

/// Whether `stored` is what taking one of the runs `groups` gives.
pub open spec fn has_group_source(
    rows: Rows,
    groups: Seq<Seq<SealAnswer>>,
    stored: (u64, BatchView),
) -> bool {
    exists|g: int| 0 <= g < groups.len() && group_source(rows, #[trigger] groups[g], stored)
}

proof fn lemma_seal_groups(rows: Rows, groups: Seq<Seq<SealAnswer>>)
    ensures
        seal_groups(rows, groups) matches Ok(updated) ==> forall|t: int|
            0 <= t < updated.len() ==> has_group_source(rows, groups, #[trigger] updated[t]),
    decreases groups.len(),
{
    if groups.len() > 0 {
        let head = groups.drop_last();
        lemma_seal_groups(rows, head);
        match seal_groups(rows, head) {
            Ok(done) => {
                match seal_groups(rows, groups) {
                    Ok(updated) => {
                        assert forall|t: int| 0 <= t < updated.len() implies has_group_source(
                            rows,
                            groups,
                            #[trigger] updated[t],
                        ) by {
                            if t < done.len() {
                                assert(updated[t] == done[t]);
                                assert(has_group_source(rows, head, done[t]));
                                let g = choose|g: int|
                                    0 <= g < head.len() && group_source(
                                        rows,
                                        #[trigger] head[g],
                                        done[t],
                                    );
                                assert(groups[g] == head[g]);
                            } else {
                                assert(group_source(rows, groups[groups.len() - 1], updated[t]));
                            }
                        }
                    },
                    Err(_) => {},
                }
            },
            Err(_) => {},
        }
    }
}

/// Every answer of a run is one of the answers that were cut into runs, and
/// lies in the batch of the run's first answer.
proof fn lemma_chunk_runs_members(answers: Seq<SealAnswer>)
    ensures
        forall|g: int, i: int|
            0 <= g < chunk_runs(answers).len() && 0 <= i < chunk_runs(answers)[g].len()
                ==> answers.contains(#[trigger] chunk_runs(answers)[g][i]) && seal_batch(
                chunk_runs(answers)[g][i].seal_index,
            ) == seal_batch(chunk_runs(answers)[g][0].seal_index),
    decreases answers.len(),
{
    let runs = chunk_runs(answers);
    if answers.len() > 0 {
        let head = answers.drop_last();
        let answer = answers.last();
        let before = chunk_runs(head);
        lemma_chunk_runs_members(head);
        lemma_chunk_runs(head);
        assert(answers[answers.len() - 1] == answer);
        assert forall|g: int, i: int|
            0 <= g < runs.len() && 0 <= i < runs[g].len() implies answers.contains(
            #[trigger] runs[g][i],
        ) && seal_batch(runs[g][i].seal_index) == seal_batch(runs[g][0].seal_index) by {
            let extended = before.len() > 0 && before.last().len() > 0 && seal_batch(
                before.last().last().seal_index,
            ) == seal_batch(answer.seal_index);
            if g < runs.len() - 1 {
                assert(runs[g] == before[g]);
                assert(head.contains(before[g][i]));
                let x = choose|x: int| 0 <= x < head.len() && head[x] == before[g][i];
                assert(answers[x] == runs[g][i]);
            } else if extended {
                let last = before.last();
                assert(runs[g] == last.push(answer));
                if i < last.len() {
                    assert(runs[g][i] == before[before.len() - 1][i]);
                    assert(head.contains(before[before.len() - 1][i]));
                    let x = choose|x: int|
                        0 <= x < head.len() && head[x] == before[before.len() - 1][i];
                    assert(answers[x] == runs[g][i]);
                } else {
                    assert(seal_batch(last[last.len() - 1].seal_index) == seal_batch(
                        before[before.len() - 1][0].seal_index,
                    ));
                }
            } else {
                assert(runs[g] == seq![answer]);
            }
        }
    }
}

/// Taking the sealers' answers keeps the pending seal set a mirror of the
/// batches: a seal unit that stays pending was not sealed by any of the
/// answers.
pub proof fn lemma_submit_keeps_backed(
    rows: Rows,
    pending: Map<u64, u64>,
    answers: Seq<SealAnswer>,
)
    requires
        pending_backed(rows, pending),
    ensures
        spec_submit(rows, pending, answers) matches Ok((after, left)) ==> pending_backed(
            after,
            left,
        ),
{
    reveal(unit_ready);
    let kept = consistent_answers(pending, answers);
    let runs = chunk_runs(kept);
    match seal_groups(rows, runs) {
        Err(_) => {},
        Ok(updated) => {
            let after = put_batches(rows, updated);
            let left = pending.remove_keys(answered(kept));
            lemma_seal_groups(rows, runs);
            lemma_chunk_runs_members(kept);
            lemma_put_batches(rows, updated);
            assert forall|k: u64| #[trigger] left.contains_key(k) implies unit_ready(after, k) by {
                let b = k / (SEALS_PER_LOAD as u64);
                let u = local_seal_index(k);
                assert(pending.contains_key(k));
                assert(unit_ready(rows, k));
                assert(!answered(kept).contains(k));
                lemma_last_place(updated, b);
                let t = last_place(updated, b);
                if t >= 0 {
                    let stored = updated[t];
                    assert(has_group_source(rows, runs, stored));
                    let g = choose|g: int|
                        0 <= g < runs.len() && group_source(rows, #[trigger] runs[g], stored);
                    let group = runs[g];
                    let v = spec_get_batch(rows, b).unwrap().unwrap();
                    lemma_loaded_wf(rows, b);
                    lemma_seal_group(v, group);
                    assert(stored.1.unit_complete(u));
                    if stored.1.sealed[u] {
                        let i = choose|i: int|
                            0 <= i < group.len() && local_seal_index(
                                (#[trigger] group[i]).seal_index,
                            ) == u;
                        let answer = group[i];
                        assert(kept.contains(runs[g][i]));
                        assert(seal_batch(answer.seal_index) == b);
                        assert(answer.seal_index == k);
                        let x = choose|x: int| 0 <= x < kept.len() && kept[x] == answer;
                        assert(kept[x].seal_index == k);
                        assert(answered(kept).contains(k));
                    }
                    lemma_stored_batch(rows, updated, t);
                } else {
                    assert(!(exists|x: int|
                        0 <= x < updated.len() && batch_key(b) == batch_key(
                            (#[trigger] updated[x]).0,
                        ))) by {
                        if exists|x: int|
                            0 <= x < updated.len() && batch_key(b) == batch_key(
                                (#[trigger] updated[x]).0,
                            ) {
                            let x = choose|x: int|
                                0 <= x < updated.len() && batch_key(b) == batch_key(
                                    (#[trigger] updated[x]).0,
                                );
                            lemma_be64_injective(b, updated[x].0);
                        }
                    }
                    lemma_ready_same_row(rows, after, k);
                }
            }
        },
    }
}

/// Taking the answers of runs fails only where a batch refuses an answer,
/// if the batch of the first answer of each run is there.
proof fn lemma_seal_groups_errors(rows: Rows, groups: Seq<Seq<SealAnswer>>)
    requires
        forall|g: int|
            0 <= g < groups.len() && (#[trigger] groups[g]).len() > 0 ==> spec_get_batch(
                rows,
                seal_batch(groups[g][0].seal_index),
            ) matches Ok(Some(_)),
    ensures
        seal_groups(rows, groups) matches Err(e) ==> e == Error::InvalidArgument,
    decreases groups.len(),
{
    if groups.len() > 0 {
        let head = groups.drop_last();
        assert forall|g: int| 0 <= g < head.len() && (#[trigger] head[g]).len() > 0 implies spec_get_batch(
            rows,
            seal_batch(head[g][0].seal_index),
        ) matches Ok(Some(_)) by {
            assert(head[g] == groups[g]);
        }
        lemma_seal_groups_errors(rows, head);
        let group = groups.last();
        assert(group == groups[groups.len() - 1]);
        if group.len() > 0 {
            match spec_get_batch(rows, seal_batch(group[0].seal_index)) {
                Ok(Some(v)) => {
                    lemma_seal_group_errors(v, group);
                },
                _ => {},
            }
        }
    }
}

proof fn lemma_seal_group_errors(v: BatchView, group: Seq<SealAnswer>)
    ensures
        seal_group(v, group) matches Err(e) ==> e == Error::InvalidArgument,
    decreases group.len(),
{
    if group.len() > 0 {
        lemma_seal_group_errors(v, group.drop_last());
    }
}

/// Where the pending seal set mirrors the batches, a submission fails only
/// where a batch refuses an answer: the batches of the answers that are
/// consistent with the pending seal set are all there.
pub proof fn lemma_submit_errors(rows: Rows, pending: Map<u64, u64>, answers: Seq<SealAnswer>)
    requires
        pending_backed(rows, pending),
    ensures
        spec_submit(rows, pending, answers) matches Err(e) ==> e == Error::InvalidArgument,
{
    reveal(unit_ready);
    let kept = consistent_answers(pending, answers);
    let runs = chunk_runs(kept);
    lemma_chunk_runs_members(kept);
    assert forall|g: int| 0 <= g < runs.len() && (#[trigger] runs[g]).len() > 0 implies spec_get_batch(
        rows,
        seal_batch(runs[g][0].seal_index),
    ) matches Ok(Some(_)) by {
        let answer = runs[g][0];
        assert(kept.contains(runs[g][0]));
        let x = choose|x: int| 0 <= x < kept.len() && kept[x] == answer;
        answers.lemma_filter_pred(consistent_test(pending), x);
        assert(consistent(pending, kept[x]));
        assert(pending.contains_key(answer.seal_index));
        assert(unit_ready(rows, answer.seal_index));
    }
    lemma_seal_groups_errors(rows, runs);
}

} // verus!

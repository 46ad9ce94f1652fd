//! What holds of appending: what is stored, where, and that it reads back.
use crate::batch_iter::{batch_list, lemma_batch_list_covers};
use crate::codec::lemma_be64_injective;
use crate::entry_batch::{
    lemma_batch_bytes_roundtrip, lemma_batch_roundtrip, lemma_inserted, BatchView,
};
use crate::error::Error;
use crate::flow::{
    append_piece, append_pieces, read_piece, read_pieces, spec_append_plan, spec_get_entries,
    AppendPlan,
};
use crate::flow_db::{batch_key, completed_roots, put_batches, spec_get_batch};
use crate::kv::Rows;
use crate::params::{BYTES_PER_SECTOR, SECTORS_PER_LOAD};
use crate::shard::ShardConfig;
use vstd::prelude::*;

verus! {

/// Storing a list of batches touches the rows of those batches and no
/// others, and leaves each of them with the bytes of the batch that comes
/// last in the list under that index.
pub proof fn lemma_put_batches(rows: Rows, list: Seq<(u64, BatchView)>)
    ensures
        forall|k: (u32, Seq<u8>)| #[trigger]
            put_batches(rows, list).contains_key(k) <==> rows.contains_key(k) || exists|j: int|
                0 <= j < list.len() && k == batch_key((#[trigger] list[j]).0),
        forall|k: (u32, Seq<u8>)|
            rows.contains_key(k) && !(exists|j: int|
                0 <= j < list.len() && k == batch_key((#[trigger] list[j]).0))
                ==> #[trigger] put_batches(rows, list)[k] == rows[k],
        forall|j: int|
            0 <= j < list.len() && (forall|t: int|
                j < t < list.len() ==> (#[trigger] list[t]).0 != list[j].0) ==> put_batches(
                rows,
                list,
            )[batch_key((#[trigger] list[j]).0)] == list[j].1.to_bytes(),
    decreases list.len(),
{
    let all = put_batches(rows, list);
    if list.len() > 0 {
        let head = list.drop_last();
        let last = list.last();
        let inner = put_batches(rows, head);
        lemma_put_batches(rows, head);
        assert(all == inner.insert(batch_key(last.0), last.1.to_bytes()));
        assert forall|k: (u32, Seq<u8>)| #[trigger] all.contains_key(k) <==> rows.contains_key(k)
            || exists|j: int| 0 <= j < list.len() && k == batch_key((#[trigger] list[j]).0) by {
            if all.contains_key(k) && !rows.contains_key(k) {
                if k == batch_key(last.0) {
                    assert(k == batch_key(list[list.len() - 1].0));
                } else {
                    assert(inner.contains_key(k));
                    let j = choose|j: int|
                        0 <= j < head.len() && k == batch_key((#[trigger] head[j]).0);
                    assert(k == batch_key(list[j].0));
                }
            }
            if exists|j: int| 0 <= j < list.len() && k == batch_key((#[trigger] list[j]).0) {
                let j = choose|j: int|
                    0 <= j < list.len() && k == batch_key((#[trigger] list[j]).0);
                if j < head.len() {
                    assert(k == batch_key(head[j].0));
                }
            }
        }
        assert forall|k: (u32, Seq<u8>)|
            rows.contains_key(k) && !(exists|j: int|
                0 <= j < list.len() && k == batch_key((#[trigger] list[j]).0)) implies #[trigger] all[k]
            == rows[k] by {
            assert(k != batch_key(list[list.len() - 1].0));
            if exists|j: int| 0 <= j < head.len() && k == batch_key((#[trigger] head[j]).0) {
                let j = choose|j: int|
                    0 <= j < head.len() && k == batch_key((#[trigger] head[j]).0);
                assert(k == batch_key(list[j].0));
            }
        }
        assert forall|j: int|
            0 <= j < list.len() && (forall|t: int|
                j < t < list.len() ==> (#[trigger] list[t]).0 != list[j].0) implies all[batch_key(
            (#[trigger] list[j]).0,
        )] == list[j].1.to_bytes() by {
            if j < head.len() {
                assert(list[list.len() - 1].0 != list[j].0);
                lemma_be64_injective(last.0, list[j].0);
                assert forall|t: int| j < t < head.len() implies (#[trigger] head[t]).0
                    != head[j].0 by {
                    assert(list[t].0 != list[j].0);
                }
                assert(inner[batch_key(head[j].0)] == head[j].1.to_bytes());
            }
        }
    }
}

/// An append plans batches of this node's shard only.
pub proof fn lemma_plan_in_shard(
    rows: Rows,
    shard: ShardConfig,
    data_start: u64,
    data: Seq<u8>,
    pieces: Seq<(u64, u64)>,
)
    ensures
        append_pieces(rows, shard, data_start, data, pieces) matches Ok(plan) ==> forall|j: int|
            0 <= j < plan.batches.len() ==> shard.spec_in_range((#[trigger] plan.batches[j]).0),
    decreases pieces.len(),
{
    if pieces.len() > 0 {
        lemma_plan_in_shard(rows, shard, data_start, data, pieces.drop_last());
        match append_pieces(rows, shard, data_start, data, pieces.drop_last()) {
            Ok(before) => {
                match append_piece(rows, shard, data_start, data, pieces.last(), before) {
                    Ok(plan) => {
                        assert forall|j: int| 0 <= j < plan.batches.len() implies shard.spec_in_range(
                            (#[trigger] plan.batches[j]).0,
                        ) by {
                            if j < before.batches.len() {
                                assert(plan.batches[j] == before.batches[j]);
                            }
                        }
                    },
                    Err(_) => {},
                }
            },
            Err(_) => {},
        }
    }
}

proof fn lemma_not_planned(plan: AppendPlan, shard: ShardConfig, b: u64)
    requires
        !shard.spec_in_range(b),
        forall|j: int|
            0 <= j < plan.batches.len() ==> shard.spec_in_range((#[trigger] plan.batches[j]).0),
    ensures
        !(exists|j: int|
            0 <= j < plan.batches.len() && batch_key(b) == batch_key(
                (#[trigger] plan.batches[j]).0,
            )),
{
    if exists|j: int|
        0 <= j < plan.batches.len() && batch_key(b) == batch_key((#[trigger] plan.batches[j]).0) {
        let j = choose|j: int|
            0 <= j < plan.batches.len() && batch_key(b) == batch_key(
                (#[trigger] plan.batches[j]).0,
            );
        lemma_be64_injective(b, plan.batches[j].0);
        assert(shard.spec_in_range(plan.batches[j].0));
    }
}

/// Appending never stores a batch outside this node's shard: a row that is
/// there after an append was there before, or is the row of a batch of the
/// shard; and the row of a batch outside the shard is as it was.
pub proof fn lemma_append_stays_in_shard(
    rows: Rows,
    shard: ShardConfig,
    start_index: u64,
    data: Seq<u8>,
)
    ensures
        spec_append_plan(rows, shard, start_index, data) matches Ok(plan) ==> {
            &&& forall|k: (u32, Seq<u8>)| #[trigger]
                put_batches(rows, plan.batches).contains_key(k) ==> rows.contains_key(k)
                    || exists|b: u64| k == #[trigger] batch_key(b) && shard.spec_in_range(b)
            &&& forall|b: u64|
                !shard.spec_in_range(b) ==> (#[trigger] put_batches(
                    rows,
                    plan.batches,
                ).contains_key(batch_key(b))) == rows.contains_key(batch_key(b))
            &&& forall|b: u64|
                !shard.spec_in_range(b) && rows.contains_key(batch_key(b)) ==> #[trigger] put_batches(
                    rows,
                    plan.batches,
                )[batch_key(b)] == rows[batch_key(b)]
        },
{
    match spec_append_plan(rows, shard, start_index, data) {
        Ok(plan) => {
            let entries = data.len() as int / (crate::params::BYTES_PER_SECTOR as int);
            if data.len() != 0 {
                lemma_plan_in_shard(
                    rows,
                    shard,
                    start_index,
                    data,
                    crate::batch_iter::batch_list(
                        start_index,
                        (start_index + entries) as u64,
                        SECTORS_PER_LOAD,
                    ),
                );
            }
            lemma_put_batches(rows, plan.batches);
            let after = put_batches(rows, plan.batches);
            assert forall|k: (u32, Seq<u8>)| #[trigger] after.contains_key(k) implies rows.contains_key(
                k,
            ) || exists|b: u64| k == #[trigger] batch_key(b) && shard.spec_in_range(b) by {
                if !rows.contains_key(k) {
                    let j = choose|j: int|
                        0 <= j < plan.batches.len() && k == batch_key(
                            (#[trigger] plan.batches[j]).0,
                        );
                    assert(shard.spec_in_range(plan.batches[j].0));
                    assert(k == batch_key(plan.batches[j].0));
                }
            }
            assert forall|b: u64| !shard.spec_in_range(b) implies (#[trigger] put_batches(
                rows,
                plan.batches,
            ).contains_key(batch_key(b))) == rows.contains_key(batch_key(b)) by {
                lemma_not_planned(plan, shard, b);
            }
            assert forall|b: u64|
                !shard.spec_in_range(b) && rows.contains_key(batch_key(b)) implies #[trigger] put_batches(
                rows,
                plan.batches,
            )[batch_key(b)] == rows[batch_key(b)] by {
                lemma_not_planned(plan, shard, b);
            }
        },
        Err(_) => {},
    }
}

/// The batch that an append stores for the piece `piece`: the batch as it is
/// in `rows`, or a new one, with the sectors of the piece written to it.
pub open spec fn planned_batch(rows: Rows, data_start: u64, data: Seq<u8>, piece: (u64, u64))
    -> BatchView {
    let found = match spec_get_batch(rows, piece.0 / (SECTORS_PER_LOAD as u64)) {
        Ok(Some(v)) => v,
        _ => BatchView::empty(),
    };
    found.inserted(
        (piece.0 % (SECTORS_PER_LOAD as u64)) as int,
        data.subrange(
            (piece.0 - data_start) * (BYTES_PER_SECTOR as int),
            (piece.1 - data_start) * (BYTES_PER_SECTOR as int),
        ),
    )
}

/// Where every piece is in the shard, the plan of an append holds one batch
/// per piece, in order.
proof fn lemma_plan_batches(
    rows: Rows,
    shard: ShardConfig,
    data_start: u64,
    data: Seq<u8>,
    pieces: Seq<(u64, u64)>,
)
    requires
        forall|j: int|
            0 <= j < pieces.len() ==> shard.spec_in_range(
                (#[trigger] pieces[j]).0 / (SECTORS_PER_LOAD as u64),
            ),
    ensures
        append_pieces(rows, shard, data_start, data, pieces) matches Ok(plan) ==> {
            &&& plan.batches.len() == pieces.len()
            &&& forall|j: int|
                0 <= j < pieces.len() ==> (#[trigger] plan.batches[j]) == (
                    pieces[j].0 / (SECTORS_PER_LOAD as u64),
                    planned_batch(rows, data_start, data, pieces[j]),
                ) && spec_get_batch(rows, pieces[j].0 / (SECTORS_PER_LOAD as u64)) is Ok
        },
    decreases pieces.len(),
{
    if pieces.len() > 0 {
        let head = pieces.drop_last();
        assert forall|j: int| 0 <= j < head.len() implies shard.spec_in_range(
            (#[trigger] head[j]).0 / (SECTORS_PER_LOAD as u64),
        ) by {
            assert(head[j] == pieces[j]);
        }
        lemma_plan_batches(rows, shard, data_start, data, head);
        match append_pieces(rows, shard, data_start, data, head) {
            Ok(before) => {
                assert(pieces.last() == pieces[pieces.len() - 1]);
                match append_piece(rows, shard, data_start, data, pieces.last(), before) {
                    Ok(plan) => {
                        assert forall|j: int| 0 <= j < pieces.len() implies (#[trigger] plan.batches[j])
                            == (
                            pieces[j].0 / (SECTORS_PER_LOAD as u64),
                            planned_batch(rows, data_start, data, pieces[j]),
                        ) && spec_get_batch(rows, pieces[j].0 / (SECTORS_PER_LOAD as u64))
                            is Ok by {
                            if j < head.len() {
                                assert(plan.batches[j] == before.batches[j]);
                                assert(head[j] == pieces[j]);
                            }
                        }
                    },
                    Err(_) => {},
                }
            },
            Err(_) => {},
        }
    }
}

/// What is read back of one piece of a write: its bytes, without sector 0
/// of the flow.
proof fn lemma_read_one(
    after: Rows,
    rows: Rows,
    start_index: u64,
    data: Seq<u8>,
    piece: (u64, u64),
)
    requires
        data.len() % (BYTES_PER_SECTOR as nat) == 0,
        start_index <= piece.0 < piece.1,
        piece.0 as int / (SECTORS_PER_LOAD as int) == (piece.1 - 1) / (SECTORS_PER_LOAD as int),
        piece.1 - start_index <= data.len() / (BYTES_PER_SECTOR as nat),
        spec_get_batch(after, piece.0 / (SECTORS_PER_LOAD as u64)) == Ok::<
            Option<BatchView>,
            Error,
        >(Some(planned_batch(rows, start_index, data, piece))),
        match spec_get_batch(rows, piece.0 / (SECTORS_PER_LOAD as u64)) {
            Ok(Some(v)) => v.wf(),
            _ => true,
        },
    ensures
        read_piece(after, piece) == Ok::<Option<Seq<u8>>, Error>(
            Some(
                data.subrange(
                    (piece.0 - start_index + (if piece.0 == 0 {
                        1int
                    } else {
                        0int
                    })) * (BYTES_PER_SECTOR as int),
                    (piece.1 - start_index) * (BYTES_PER_SECTOR as int),
                ),
            ),
        ),
{
    let chunk_index = piece.0 / (SECTORS_PER_LOAD as u64);
    let offset = (piece.0 % (SECTORS_PER_LOAD as u64)) as int;
    let from = (piece.0 - start_index) * (BYTES_PER_SECTOR as int);
    let to = (piece.1 - start_index) * (BYTES_PER_SECTOR as int);
    let bytes = data.subrange(from, to);
    let found = match spec_get_batch(rows, chunk_index) {
        Ok(Some(v)) => v,
        _ => BatchView::empty(),
    };
    let skip: int = if piece.0 == 0 {
        1
    } else {
        0
    };
    assert((chunk_index == 0 && offset == 0) <==> piece.0 == 0);
    assert(bytes.len() == (piece.1 - piece.0) * (BYTES_PER_SECTOR as int));
    assert(bytes.len() as int / (BYTES_PER_SECTOR as int) == piece.1 - piece.0);
    assert(offset + (piece.1 - piece.0) <= SECTORS_PER_LOAD);
    lemma_inserted(found, offset, bytes, skip);
    assert(bytes.skip(skip * (BYTES_PER_SECTOR as int)) =~= data.subrange(
        (piece.0 - start_index + skip) * (BYTES_PER_SECTOR as int),
        to,
    ));
}

/// What the pieces of a write and the rows after it have to be like for the
/// write to be read back: the pieces follow one another from `start_index`
/// on, each within one batch and within the data, and the rows hold for
/// each piece the batch that the append planned for it.
#[verifier::opaque]
pub open spec fn write_stored(
    after: Rows,
    rows: Rows,
    start_index: u64,
    data: Seq<u8>,
    pieces: Seq<(u64, u64)>,
) -> bool {
    &&& data.len() % (BYTES_PER_SECTOR as nat) == 0
    &&& pieces.len() > 0
    &&& pieces[0].0 == start_index
    &&& forall|j: int| 0 <= j < pieces.len() - 1 ==> (#[trigger] pieces[j]).1 == pieces[j + 1].0
    &&& forall|j: int|
        0 <= j < pieces.len() ==> (#[trigger] pieces[j]).0 < pieces[j].1 && pieces[j].0 as int / (
        SECTORS_PER_LOAD as int) == (pieces[j].1 - 1) / (SECTORS_PER_LOAD as int) && pieces[j].1
            - start_index <= data.len() / (BYTES_PER_SECTOR as nat)
    &&& forall|j: int|
        0 <= j < pieces.len() ==> spec_get_batch(
            after,
            (#[trigger] pieces[j]).0 / (SECTORS_PER_LOAD as u64),
        ) == Ok::<Option<BatchView>, Error>(
            Some(planned_batch(rows, start_index, data, pieces[j])),
        )
    &&& forall|j: int|
        0 <= j < pieces.len() ==> match spec_get_batch(
            rows,
            (#[trigger] pieces[j]).0 / (SECTORS_PER_LOAD as u64),
        ) {
            Ok(Some(v)) => v.wf(),
            _ => true,
        }
}

/// The first sector of piece `j` of a write is not before the write's.
proof fn lemma_piece_starts(
    after: Rows,
    rows: Rows,
    start_index: u64,
    data: Seq<u8>,
    pieces: Seq<(u64, u64)>,
    j: int,
)
    requires
        write_stored(after, rows, start_index, data, pieces),
        0 <= j < pieces.len(),
    ensures
        start_index <= pieces[j].0 < pieces[j].1,
        j > 0 ==> pieces[j - 1].1 == pieces[j].0 && start_index < pieces[j].0,
        j == 0 ==> pieces[j].0 == start_index,
    decreases j,
{
    reveal(write_stored);
    if j > 0 {
        lemma_piece_starts(after, rows, start_index, data, pieces, j - 1);
        assert(pieces[j - 1].1 == pieces[j].0);
    }
}

/// What is read back of piece `j` of a write: its bytes, without sector 0 of
/// the flow.
proof fn lemma_read_piece(
    after: Rows,
    rows: Rows,
    start_index: u64,
    data: Seq<u8>,
    pieces: Seq<(u64, u64)>,
    j: int,
)
    requires
        write_stored(after, rows, start_index, data, pieces),
        0 <= j < pieces.len(),
    ensures
        0 <= pieces[j].0 - start_index < pieces[j].1 - start_index <= data.len() / (
        BYTES_PER_SECTOR as nat),
        read_piece(after, pieces[j]) == Ok::<Option<Seq<u8>>, Error>(
            Some(
                data.subrange(
                    (pieces[j].0 - start_index + (if pieces[j].0 == 0 {
                        1int
                    } else {
                        0int
                    })) * (BYTES_PER_SECTOR as int),
                    (pieces[j].1 - start_index) * (BYTES_PER_SECTOR as int),
                ),
            ),
        ),
{
    lemma_piece_starts(after, rows, start_index, data, pieces, j);
    assert(pieces[j].0 as int / (SECTORS_PER_LOAD as int) == (pieces[j].1 - 1) / (
    SECTORS_PER_LOAD as int) && pieces[j].1 - start_index <= data.len() / (
    BYTES_PER_SECTOR as nat) && spec_get_batch(
        after,
        pieces[j].0 / (SECTORS_PER_LOAD as u64),
    ) == Ok::<Option<BatchView>, Error>(Some(planned_batch(rows, start_index, data, pieces[j])))
        && (match spec_get_batch(rows, pieces[j].0 / (SECTORS_PER_LOAD as u64)) {
        Ok(Some(v)) => v.wf(),
        _ => true,
    }) && data.len() % (BYTES_PER_SECTOR as nat) == 0) by {
        reveal(write_stored);
    }
    lemma_read_one(after, rows, start_index, data, pieces[j]);
}

/// The bytes of a write from sector `lo` to the end of sector `hi - 1`,
/// counted from the first sector of the write.
pub open spec fn written(data: Seq<u8>, lo: int, hi: int) -> Seq<u8> {
    data.subrange(lo * (BYTES_PER_SECTOR as int), hi * (BYTES_PER_SECTOR as int))
}

/// What is read back of the first `k` pieces of a write: the bytes of the
/// write up to the end of piece `k - 1`, without sector 0 of the flow.
proof fn lemma_read_back(
    after: Rows,
    rows: Rows,
    start_index: u64,
    data: Seq<u8>,
    pieces: Seq<(u64, u64)>,
    k: int,
)
    requires
        write_stored(after, rows, start_index, data, pieces),
        1 <= k <= pieces.len(),
    ensures
        read_pieces(after, pieces.take(k)) == Ok::<Option<Seq<u8>>, Error>(
            Some(
                written(
                    data,
                    if start_index == 0 {
                        1
                    } else {
                        0
                    },
                    pieces[k - 1].1 - start_index,
                ),
            ),
        ),
    decreases k,
{
    let piece = pieces[k - 1];
    let skip: int = if start_index == 0 {
        1
    } else {
        0
    };
    lemma_read_piece(after, rows, start_index, data, pieces, k - 1);
    lemma_piece_starts(after, rows, start_index, data, pieces, k - 1);
    assert(pieces.take(k).drop_last() =~= pieces.take(k - 1));
    assert(pieces.take(k).last() == piece);
    let one = read_piece(after, piece);
    if k == 1 {
        assert(pieces.take(0) =~= Seq::<(u64, u64)>::empty());
        assert(read_pieces(after, pieces.take(0)) == Ok::<Option<Seq<u8>>, Error>(
            Some(Seq::<u8>::empty()),
        ));
        assert(piece.0 == start_index);
        let got = written(data, skip, piece.1 - start_index);
        assert(one == Ok::<Option<Seq<u8>>, Error>(Some(got)));
        assert(Seq::<u8>::empty() + got =~= got);
    } else {
        lemma_read_back(after, rows, start_index, data, pieces, k - 1);
        lemma_read_piece(after, rows, start_index, data, pieces, k - 2);
        let mid = piece.0 - start_index;
        assert(pieces[k - 2].1 - start_index == mid);
        assert(piece.0 > 0);
        let head = written(data, skip, mid);
        let tail = written(data, mid, piece.1 - start_index);
        assert(one == Ok::<Option<Seq<u8>>, Error>(Some(tail)));
        assert(head + tail =~= written(data, skip, piece.1 - start_index));
    }
}

/// The rows after a list of batches was stored give back the batch at place
/// `j` of the list, if no later batch of the list has the same index.
pub(crate) proof fn lemma_stored_batch(rows: Rows, list: Seq<(u64, BatchView)>, j: int)
    requires
        0 <= j < list.len(),
        list[j].1.wf(),
        forall|t: int| j < t < list.len() ==> (#[trigger] list[t]).0 != list[j].0,
    ensures
        spec_get_batch(put_batches(rows, list), list[j].0) == Ok::<Option<BatchView>, Error>(
            Some(list[j].1),
        ),
{
    lemma_put_batches(rows, list);
    lemma_batch_roundtrip(list[j].1);
    let after = put_batches(rows, list);
    assert(after.contains_key(batch_key(list[j].0)));
    assert(after[batch_key(list[j].0)] == list[j].1.to_bytes());
}

/// The batch that an append plans for a piece is well-formed, if the batch
/// that it found in the rows is.
pub(crate) proof fn lemma_planned_wf(rows: Rows, start_index: u64, data: Seq<u8>, piece: (u64, u64))
    requires
        data.len() % (BYTES_PER_SECTOR as nat) == 0,
        start_index <= piece.0 < piece.1,
        piece.0 as int / (SECTORS_PER_LOAD as int) == (piece.1 - 1) / (SECTORS_PER_LOAD as int),
        piece.1 - start_index <= data.len() / (BYTES_PER_SECTOR as nat),
    ensures
        planned_batch(rows, start_index, data, piece).wf(),
        match spec_get_batch(rows, piece.0 / (SECTORS_PER_LOAD as u64)) {
            Ok(Some(v)) => v.wf(),
            _ => true,
        },
{
    let chunk_index = piece.0 / (SECTORS_PER_LOAD as u64);
    let found = match spec_get_batch(rows, chunk_index) {
        Ok(Some(v)) => v,
        _ => BatchView::empty(),
    };
    match spec_get_batch(rows, chunk_index) {
        Ok(Some(v)) => {
            lemma_batch_bytes_roundtrip(rows[batch_key(chunk_index)]);
        },
        _ => {},
    }
    let offset = (piece.0 % (SECTORS_PER_LOAD as u64)) as int;
    let bytes = data.subrange(
        (piece.0 - start_index) * (BYTES_PER_SECTOR as int),
        (piece.1 - start_index) * (BYTES_PER_SECTOR as int),
    );
    assert(bytes.len() == (piece.1 - piece.0) * (BYTES_PER_SECTOR as int));
    assert(bytes.len() as int / (BYTES_PER_SECTOR as int) == piece.1 - piece.0);
    assert(offset + (piece.1 - piece.0) <= SECTORS_PER_LOAD);
    lemma_inserted(found, offset, bytes, 0);
}

/// Append round-trip: after whole sectors were appended in batches that
/// this node stores, reading the appended range gives the appended bytes
/// back, except for sector 0 of the flow, which is never read.
pub proof fn lemma_append_round_trip(
    rows: Rows,
    shard: ShardConfig,
    start_index: u64,
    data: Seq<u8>,
)
    requires
        data.len() > 0,
        data.len() % (BYTES_PER_SECTOR as nat) == 0,
        start_index + data.len() / (BYTES_PER_SECTOR as nat) <= u64::MAX,
        forall|b: u64|
            start_index / (SECTORS_PER_LOAD as u64) <= b <= (start_index + data.len() / (
            BYTES_PER_SECTOR as nat) - 1) / (SECTORS_PER_LOAD as int) ==> #[trigger] shard.spec_in_range(
                b,
            ),
    ensures
        spec_append_plan(rows, shard, start_index, data) matches Ok(plan) ==> spec_get_entries(
            put_batches(rows, plan.batches),
            start_index,
            (start_index + data.len() / (BYTES_PER_SECTOR as nat)) as u64,
        ) == Ok::<Option<Seq<u8>>, Error>(
            Some(
                if start_index == 0 {
                    data.skip(BYTES_PER_SECTOR as int)
                } else {
                    data
                },
            ),
        ),
{
    let entries = data.len() as int / (BYTES_PER_SECTOR as int);
    let index_end = (start_index + entries) as u64;
    let pieces = batch_list(start_index, index_end, SECTORS_PER_LOAD);
    match spec_append_plan(rows, shard, start_index, data) {
        Err(_) => {},
        Ok(plan) => {
            let after = put_batches(rows, plan.batches);
            lemma_write_stored(rows, shard, start_index, data);
            assert(pieces.len() > 0) by {
                reveal(write_stored);
            }
            lemma_read_back(after, rows, start_index, data, pieces, pieces.len() as int);
            assert(pieces.take(pieces.len() as int) =~= pieces);
            assert(pieces[pieces.len() - 1].1 == index_end) by {
                lemma_batch_list_covers(start_index, index_end, SECTORS_PER_LOAD);
            }
            let skip: int = if start_index == 0 {
                1
            } else {
                0
            };
            assert(written(data, skip, entries) =~= (if start_index == 0 {
                data.skip(BYTES_PER_SECTOR as int)
            } else {
                data
            }));
        },
    }
}

/// After an append in batches that this node stores, the rows hold for each
/// piece of the write the batch that the append planned for it.
proof fn lemma_write_stored(rows: Rows, shard: ShardConfig, start_index: u64, data: Seq<u8>)
    requires
        data.len() > 0,
        data.len() % (BYTES_PER_SECTOR as nat) == 0,
        start_index + data.len() / (BYTES_PER_SECTOR as nat) <= u64::MAX,
        forall|b: u64|
            start_index / (SECTORS_PER_LOAD as u64) <= b <= (start_index + data.len() / (
            BYTES_PER_SECTOR as nat) - 1) / (SECTORS_PER_LOAD as int) ==> #[trigger] shard.spec_in_range(
                b,
            ),
        spec_append_plan(rows, shard, start_index, data) is Ok,
    ensures
        write_stored(
            put_batches(rows, spec_append_plan(rows, shard, start_index, data).unwrap().batches),
            rows,
            start_index,
            data,
            batch_list(
                start_index,
                (start_index + data.len() / (BYTES_PER_SECTOR as nat)) as u64,
                SECTORS_PER_LOAD,
            ),
        ),
{
    let entries = data.len() as int / (BYTES_PER_SECTOR as int);
    let index_end = (start_index + entries) as u64;
    let pieces = batch_list(start_index, index_end, SECTORS_PER_LOAD);
    let plan = spec_append_plan(rows, shard, start_index, data).unwrap();
    let after = put_batches(rows, plan.batches);
    let k0 = start_index as int / (SECTORS_PER_LOAD as int);
    lemma_batch_list_covers(start_index, index_end, SECTORS_PER_LOAD);
    assert forall|j: int| 0 <= j < pieces.len() implies shard.spec_in_range(
        (#[trigger] pieces[j]).0 / (SECTORS_PER_LOAD as u64),
    ) && pieces[j].1 <= index_end && start_index <= pieces[j].0 by {
        assert(pieces[j].0 as int / (SECTORS_PER_LOAD as int) == k0 + j);
        assert((pieces[j].1 - 1) / (SECTORS_PER_LOAD as int) == k0 + j);
        lemma_piece_ends(pieces, j, index_end);
        lemma_piece_begins(pieces, j, start_index);
    }
    lemma_plan_batches(rows, shard, start_index, data, pieces);
    assert forall|j: int| 0 <= j < pieces.len() implies spec_get_batch(
        after,
        (#[trigger] pieces[j]).0 / (SECTORS_PER_LOAD as u64),
    ) == Ok::<Option<BatchView>, Error>(Some(planned_batch(rows, start_index, data, pieces[j])))
        && (match spec_get_batch(rows, pieces[j].0 / (SECTORS_PER_LOAD as u64)) {
        Ok(Some(v)) => v.wf(),
        _ => true,
    }) by {
        let piece = pieces[j];
        assert(plan.batches[j] == (
            piece.0 / (SECTORS_PER_LOAD as u64),
            planned_batch(rows, start_index, data, piece),
        ));
        assert forall|t: int| j < t < plan.batches.len() implies (#[trigger] plan.batches[t]).0
            != plan.batches[j].0 by {
            assert(pieces[t].0 as int / (SECTORS_PER_LOAD as int) == k0 + t);
            assert(pieces[j].0 as int / (SECTORS_PER_LOAD as int) == k0 + j);
        }
        lemma_planned_wf(rows, start_index, data, piece);
        lemma_stored_batch(rows, plan.batches, j);
    }
    reveal(write_stored);
}

/// No piece of a range begins before the range.
pub(crate) proof fn lemma_piece_begins(pieces: Seq<(u64, u64)>, j: int, start: u64)
    requires
        0 <= j < pieces.len(),
        pieces[0].0 == start,
        forall|t: int| 0 <= t < pieces.len() - 1 ==> (#[trigger] pieces[t]).1 == pieces[t + 1].0,
        forall|t: int| 0 <= t < pieces.len() ==> (#[trigger] pieces[t]).0 <= pieces[t].1,
    ensures
        start <= pieces[j].0,
    decreases j,
{
    if j > 0 {
        lemma_piece_begins(pieces, j - 1, start);
        assert(pieces[j - 1].1 == pieces[j].0);
        assert(pieces[j - 1].0 <= pieces[j - 1].1);
    }
}

/// No piece of a range ends after the range.
pub(crate) proof fn lemma_piece_ends(pieces: Seq<(u64, u64)>, j: int, end: u64)
    requires
        0 <= j < pieces.len(),
        pieces[pieces.len() - 1].1 == end,
        forall|t: int| 0 <= t < pieces.len() - 1 ==> (#[trigger] pieces[t]).1 == pieces[t + 1].0,
        forall|t: int| 0 <= t < pieces.len() ==> (#[trigger] pieces[t]).0 <= pieces[t].1,
    ensures
        pieces[j].1 <= end,
    decreases pieces.len() - j,
{
    if j < pieces.len() - 1 {
        lemma_piece_ends(pieces, j + 1, end);
        assert(pieces[j].1 == pieces[j + 1].0);
        assert(pieces[j + 1].0 <= pieces[j + 1].1);
    }
}

/// The batches that an append plans come in ascending order of their index,
/// none twice, where piece `j` lies in batch `base + j`.
pub(crate) proof fn lemma_plan_ascending(
    rows: Rows,
    shard: ShardConfig,
    data_start: u64,
    data: Seq<u8>,
    pieces: Seq<(u64, u64)>,
    base: int,
)
    requires
        forall|j: int|
            0 <= j < pieces.len() ==> (#[trigger] pieces[j]).0 as int / (SECTORS_PER_LOAD as int)
                == base + j,
    ensures
        append_pieces(rows, shard, data_start, data, pieces) matches Ok(plan) ==> {
            &&& forall|i: int, j: int|
                0 <= i < j < plan.batches.len() ==> (#[trigger] plan.batches[i]).0 < (
                #[trigger] plan.batches[j]).0
            &&& forall|j: int|
                0 <= j < plan.batches.len() ==> (#[trigger] plan.batches[j]).0 < base
                    + pieces.len()
        },
    decreases pieces.len(),
{
    if pieces.len() > 0 {
        let head = pieces.drop_last();
        assert forall|j: int| 0 <= j < head.len() implies (#[trigger] head[j]).0 as int / (
        SECTORS_PER_LOAD as int) == base + j by {
            assert(head[j] == pieces[j]);
        }
        lemma_plan_ascending(rows, shard, data_start, data, head, base);
        match append_pieces(rows, shard, data_start, data, head) {
            Ok(before) => {
                let last = pieces[pieces.len() - 1];
                assert(pieces.last() == last);
                match append_piece(rows, shard, data_start, data, last, before) {
                    Ok(plan) => {
                        assert forall|j: int| 0 <= j < plan.batches.len() implies (
                        #[trigger] plan.batches[j]).0 < base + pieces.len() by {
                            if j < before.batches.len() {
                                assert(plan.batches[j] == before.batches[j]);
                            }
                        }
                        assert forall|i: int, j: int|
                            0 <= i < j < plan.batches.len() implies (#[trigger] plan.batches[i]).0
                            < (#[trigger] plan.batches[j]).0 by {
                            assert(plan.batches[i] == before.batches[i]);
                            if j < before.batches.len() {
                                assert(plan.batches[j] == before.batches[j]);
                            }
                        }
                    },
                    Err(_) => {},
                }
            },
            Err(_) => {},
        }
    }
}

/// The roots of a list of batches in ascending order of the index come in
/// ascending order of the index, and each is the root of a batch of the
/// list.
proof fn lemma_completed_roots_ascending(list: Seq<(u64, BatchView)>)
    requires
        forall|i: int, j: int|
            0 <= i < j < list.len() ==> (#[trigger] list[i]).0 < (#[trigger] list[j]).0,
    ensures
        forall|i: int, j: int|
            0 <= i < j < completed_roots(list).len() ==> (#[trigger] completed_roots(list)[i]).0
                < (#[trigger] completed_roots(list)[j]).0,
        forall|j: int|
            0 <= j < completed_roots(list).len() ==> exists|t: int|
                0 <= t < list.len() && (#[trigger] list[t]).0 == (#[trigger] completed_roots(
                    list,
                )[j]).0 && list[t].1.root(list[t].0 == 0) == Some(completed_roots(list)[j].1),
    decreases list.len(),
{
    let roots = completed_roots(list);
    if list.len() > 0 {
        let head = list.drop_last();
        let before = completed_roots(head);
        assert forall|i: int, j: int| 0 <= i < j < head.len() implies (#[trigger] head[i]).0 < (
        #[trigger] head[j]).0 by {
            assert(head[i] == list[i] && head[j] == list[j]);
        }
        lemma_completed_roots_ascending(head);
        assert forall|j: int| 0 <= j < roots.len() implies exists|t: int|
            0 <= t < list.len() && (#[trigger] list[t]).0 == (#[trigger] roots[j]).0
                && list[t].1.root(list[t].0 == 0) == Some(roots[j].1) by {
            if j < before.len() {
                assert(roots[j] == before[j]);
                let t = choose|t: int|
                    0 <= t < head.len() && (#[trigger] head[t]).0 == before[j].0
                        && head[t].1.root(head[t].0 == 0) == Some(before[j].1);
                assert(list[t] == head[t]);
            } else {
                assert(list[list.len() - 1].0 == roots[j].0);
            }
        }
        assert forall|i: int, j: int| 0 <= i < j < roots.len() implies (#[trigger] roots[i]).0 < (
        #[trigger] roots[j]).0 by {
            assert(roots[i] == before[i]);
            if j < before.len() {
                assert(roots[j] == before[j]);
            } else {
                let t = choose|t: int|
                    0 <= t < head.len() && (#[trigger] head[t]).0 == before[i].0
                        && head[t].1.root(head[t].0 == 0) == Some(before[i].1);
                assert(list[t].0 < list[list.len() - 1].0);
            }
        }
    }
}

/// An append returns the roots of completed batches in ascending order of
/// the batch index, and each is the root of a batch that the append stored.
pub proof fn lemma_append_roots_ascending(
    rows: Rows,
    shard: ShardConfig,
    start_index: u64,
    data: Seq<u8>,
)
    ensures
        spec_append_plan(rows, shard, start_index, data) matches Ok(plan) ==> {
            &&& forall|i: int, j: int|
                0 <= i < j < completed_roots(plan.batches).len() ==> (#[trigger] completed_roots(
                    plan.batches,
                )[i]).0 < (#[trigger] completed_roots(plan.batches)[j]).0
            &&& forall|j: int|
                0 <= j < completed_roots(plan.batches).len() ==> exists|t: int|
                    0 <= t < plan.batches.len() && (#[trigger] plan.batches[t]).0 == (
                    #[trigger] completed_roots(plan.batches)[j]).0 && plan.batches[t].1.root(
                        plan.batches[t].0 == 0,
                    ) == Some(completed_roots(plan.batches)[j].1)
        },
{
    match spec_append_plan(rows, shard, start_index, data) {
        Ok(plan) => {
            let entries = data.len() as int / (BYTES_PER_SECTOR as int);
            if data.len() != 0 {
                let index_end = (start_index + entries) as u64;
                let pieces = batch_list(start_index, index_end, SECTORS_PER_LOAD);
                lemma_batch_list_covers(start_index, index_end, SECTORS_PER_LOAD);
                lemma_plan_ascending(
                    rows,
                    shard,
                    start_index,
                    data,
                    pieces,
                    start_index as int / (SECTORS_PER_LOAD as int),
                );
            }
            lemma_completed_roots_ascending(plan.batches);
        },
        Err(_) => {},
    }
}

} // verus!

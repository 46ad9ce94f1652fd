//! Cutting a range of sector indices at batch boundaries.

use crate::shard::{spec_in_shard, ShardConfig};
use vstd::prelude::*;

verus! {

/// The part of `[start, end)` that lies in batch `k` when batches hold `b`
/// sectors: from `max(start, k * b)` to `min(end, (k + 1) * b)`.
pub open spec fn batch_piece(start: int, end: int, b: int, k: int) -> (int, int) {
    (
        if start >= k * b {
            start
        } else {
            k * b
        },
        if end <= (k + 1) * b {
            end
        } else {
            (k + 1) * b
        },
    )
}

/// The number of batches that `[start, end)` touches, counted from the batch
/// of `start` up to the batch that holds `end - 1`.
pub open spec fn batch_count(start: int, end: int, b: int) -> nat {
    let k0 = start / b;
    let k1 = (end + b - 1) / b;
    if k1 > k0 {
        (k1 - k0) as nat
    } else {
        0
    }
}

/// The pieces of `[start, end)`, one per batch, in ascending order.
pub open spec fn batch_list(start: u64, end: u64, batch_size: usize) -> Seq<(u64, u64)> {
    Seq::new(
        batch_count(start as int, end as int, batch_size as int),
        |j: int|
            {
                let p = batch_piece(
                    start as int,
                    end as int,
                    batch_size as int,
                    start as int / batch_size as int + j,
                );
                (p.0 as u64, p.1 as u64)
            },
    )
}

/// The pieces of `batch_list` whose batch falls to the given shard.
pub open spec fn batch_list_sharded(
    start: u64,
    end: u64,
    batch_size: usize,
    shard_config: ShardConfig,
) -> Seq<(u64, u64)> {
    batch_list(start, end, batch_size).filter(
        |p: (u64, u64)|
            spec_in_shard(
                shard_config.num_shard,
                shard_config.shard_id,
                p.0 as int / batch_size as int,
            ),
    )
}

proof fn lemma_batch_bounds(end: int, b: int, m: int)
    requires
        b > 0,
        0 <= end,
        0 <= m,
    ensures
        m * b < end <==> m < (end + b - 1) / b,
        (m + 1) * b == m * b + b,
        m * b >= 0,
{
    let q = (end + b - 1) / b;
    vstd::arithmetic::div_mod::lemma_fundamental_div_mod(end + b - 1, b);
    vstd::arithmetic::div_mod::lemma_mod_bound(end + b - 1, b);
    assert((m + 1) * b == m * b + b) by (nonlinear_arith);
    assert(m * b >= 0) by (nonlinear_arith)
        requires
            m >= 0,
            b > 0,
    ;
    if m < q {
        assert((m + 1) * b <= q * b) by (nonlinear_arith)
            requires
                m + 1 <= q,
                b > 0,
        ;
        assert(b * q == q * b) by (nonlinear_arith);
    } else {
        assert(q * b <= m * b) by (nonlinear_arith)
            requires
                q <= m,
                b > 0,
        ;
        assert(b * q == q * b) by (nonlinear_arith);
    }
}

proof fn lemma_batch_start(start: int, b: int)
    requires
        b > 0,
        0 <= start,
    ensures
        (start / b) * b <= start < (start / b) * b + b,
        0 <= start / b <= start,
        start / b * b >= 0,
{
    vstd::arithmetic::div_mod::lemma_fundamental_div_mod(start, b);
    vstd::arithmetic::div_mod::lemma_mod_bound(start, b);
    assert(b * (start / b) == (start / b) * b) by (nonlinear_arith);
    vstd::arithmetic::div_mod::lemma_div_pos_is_pos(start, b);
    vstd::arithmetic::div_mod::lemma_div_is_ordered_by_denominator(start, 1, b);
}

/// The place in `batch_list` of the piece that holds the sector index `x`.
pub open spec fn piece_of(start: u64, batch_size: usize, x: int) -> int {
    x / batch_size as int - start as int / batch_size as int
}

/// Whether the piece `p` holds the sector index `x`.
pub open spec fn piece_holds(p: (u64, u64), x: int) -> bool {
    p.0 <= x < p.1
}

/// The pieces of a range make up the range: the first piece begins at `start`,
/// each piece begins where the one before it ended, the last ends at `end`,
/// so every index of `[start, end)` is in exactly one piece and no piece
/// reaches outside. Piece `j` lies in batch `start / batch_size + j` alone.
pub proof fn lemma_batch_list_covers(start: u64, end: u64, batch_size: usize)
    requires
        batch_size > 0,
        start <= end,
    ensures
        ({
            let l = batch_list(start, end, batch_size);
            let b = batch_size as int;
            let k0 = start as int / b;
            &&& (l.len() == 0 ==> start == end)
            &&& (l.len() > 0 ==> l[0].0 == start && l[l.len() - 1].1 == end)
            &&& forall|j: int| 0 <= j < l.len() - 1 ==> (#[trigger] l[j]).1 == l[j + 1].0
            &&& forall|j: int| 0 <= j < l.len() ==> (#[trigger] l[j]).0 <= l[j].1
            &&& forall|j: int|
                0 <= j < l.len() && start < end ==> (#[trigger] l[j]).0 < l[j].1 && (l[j].0 as int)
                    / b == k0 + j && (l[j].1 - 1) / b == k0 + j
            &&& forall|x: int, j1: int, j2: int|
                0 <= j1 < l.len() && 0 <= j2 < l.len() && piece_holds(l[j1], x) && piece_holds(
                    l[j2],
                    x,
                ) ==> j1 == j2
            &&& forall|x: int|
                start <= x < end ==> 0 <= #[trigger] piece_of(start, batch_size, x) < l.len()
                    && piece_holds(l[piece_of(start, batch_size, x)], x)
        }),
{
    let b = batch_size as int;
    let s = start as int;
    let e = end as int;
    let k0 = s / b;
    let l = batch_list(start, end, batch_size);
    lemma_batch_start(s, b);
    lemma_batch_bounds(e, b, k0);
    assert forall|j: int| 0 <= j < l.len() implies ({
        &&& (k0 + j) * b < e
        &&& l[j].0 == (if s >= (k0 + j) * b {
            s
        } else {
            (k0 + j) * b
        })
        &&& l[j].1 == (if e <= (k0 + j + 1) * b {
            e
        } else {
            (k0 + j + 1) * b
        })
        &&& (k0 + j + 1) * b == (k0 + j) * b + b
        &&& (j > 0 ==> (k0 + j) * b > s)
        &&& (j < l.len() - 1 ==> (k0 + j + 1) * b < e)
        &&& (j == l.len() - 1 ==> (k0 + j + 1) * b >= e)
    }) by {
        lemma_batch_bounds(e, b, k0 + j);
        lemma_batch_bounds(e, b, k0 + j + 1);
        if j > 0 {
            assert((k0 + j) * b >= (k0 + 1) * b) by (nonlinear_arith)
                requires
                    j >= 1,
                    b > 0,
            ;
            lemma_batch_bounds(e, b, k0);
        }
    }
    assert forall|j: int| 0 <= j < l.len() && start < end implies (#[trigger] l[j]).0 < l[j].1
        && l[j].0 as int / b == k0 + j && (l[j].1 - 1) / b == k0 + j by {
        let m = k0 + j;
        let lo = l[j].0 as int;
        let hi = l[j].1 as int;
        assert(m * b <= lo < m * b + b);
        assert(m * b <= hi - 1 < m * b + b);
        lemma_div_in_batch(lo, b, m);
        lemma_div_in_batch(hi - 1, b, m);
    }
    assert forall|x: int| start <= x < end implies 0 <= #[trigger] piece_of(
        start,
        batch_size,
        x,
    ) < l.len() && piece_holds(l[piece_of(start, batch_size, x)], x) by {
        lemma_batch_start(x, b);
        let m = x / b;
        vstd::arithmetic::div_mod::lemma_div_is_ordered(s, x, b);
        lemma_batch_bounds(e, b, m);
        assert(m * b <= x < e);
        assert(k0 <= m < (e + b - 1) / b);
        assert(l.len() == (e + b - 1) / b - k0);
        assert(0 <= m - k0 < l.len());
    }
    assert forall|x: int, j1: int, j2: int|
        0 <= j1 < l.len() && 0 <= j2 < l.len() && piece_holds(l[j1], x) && piece_holds(
            l[j2],
            x,
        ) implies j1 == j2 by {
        lemma_div_in_batch(x, b, k0 + j1);
        lemma_div_in_batch(x, b, k0 + j2);
    }
}

proof fn lemma_div_in_batch(x: int, b: int, m: int)
    requires
        b > 0,
        m * b <= x < m * b + b,
    ensures
        x / b == m,
{
    vstd::arithmetic::div_mod::lemma_fundamental_div_mod_converse(x, b, m, x - m * b);
}

/// Cuts `[start, end)` at the multiples of `batch_size`: one piece for each
/// batch from the batch of `start` on, each running from `max(start, k *
/// batch_size)` to `min(end, (k + 1) * batch_size)`.
pub fn batch_iter(start: u64, end: u64, batch_size: usize) -> (list: Vec<(u64, u64)>)
    requires
        batch_size > 0,
    ensures
        list@ == batch_list(start, end, batch_size),
{
    let b: u64 = batch_size as u64;
    let ghost k0: int = start as int / b as int;
    let ghost spec_list = batch_list(start, end, batch_size);
    let mut list: Vec<(u64, u64)> = Vec::new();
    proof {
        lemma_batch_start(start as int, b as int);
    }
    let mut i: u64 = start / b * b;
    let mut done: bool = i >= end;
    proof {
        lemma_batch_bounds(end as int, b as int, k0);
    }
    while !done
        invariant
            b == batch_size,
            b > 0,
            k0 == start as int / b as int,
            k0 >= 0,
            spec_list == batch_list(start, end, batch_size),
            list.len() <= spec_list.len(),
            !done ==> i < end && i == (k0 + list.len()) * b,
            done ==> list.len() == spec_list.len(),
            forall|j: int| 0 <= j < list.len() ==> list@[j] == spec_list[j],
        decreases spec_list.len() - list.len() + (if done { 0int } else { 1int }),
    {
        let ghost j: int = list.len() as int;
        proof {
            lemma_batch_bounds(end as int, b as int, k0 + j);
            lemma_batch_bounds(end as int, b as int, k0 + j + 1);
        }
        let batch_start: u64 = if start > i {
            start
        } else {
            i
        };
        if end - i <= b {
            list.push((batch_start, end));
            done = true;
        } else {
            list.push((batch_start, i + b));
            i = i + b;
        }
    }
    assert(list@ =~= spec_list);
    list
}

/// The pieces of `batch_iter` whose batch this shard stores.
pub fn batch_iter_sharded(
    start: u64,
    end: u64,
    batch_size: usize,
    shard_config: ShardConfig,
) -> (list: Vec<(u64, u64)>)
    requires
        batch_size > 0,
        shard_config.wf(),
    ensures
        list@ == batch_list_sharded(start, end, batch_size, shard_config),
{
    let all = batch_iter(start, end, batch_size);
    let ghost pred = |p: (u64, u64)|
        spec_in_shard(
            shard_config.num_shard,
            shard_config.shard_id,
            p.0 as int / batch_size as int,
        );
    let mut list: Vec<(u64, u64)> = Vec::new();
    let mut i: usize = 0;
    assert(all@.take(0) =~= Seq::<(u64, u64)>::empty());
    while i < all.len()
        invariant
            batch_size > 0,
            shard_config.wf(),
            i <= all.len(),
            pred == |p: (u64, u64)|
                spec_in_shard(
                    shard_config.num_shard,
                    shard_config.shard_id,
                    p.0 as int / batch_size as int,
                ),
            list@ == all@.take(i as int).filter(pred),
        decreases all.len() - i,
    {
        let piece = all[i];
        proof {
            assert(all@.take(i as int + 1) =~= all@.take(i as int).push(piece));
            crate::seq_util::lemma_filter_push(all@.take(i as int), piece, pred);
        }
        if shard_config.in_range(piece.0 / (batch_size as u64)) {
            list.push(piece);
        }
        i += 1;
    }
    assert(all@.take(all.len() as int) =~= all@);
    list
}

} // verus!

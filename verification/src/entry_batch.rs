//! One batch of the flow: its sectors, which of them are there, the sealed
//! form of each seal unit that a sealer has answered, and the subtree roots
//! handed in for proofs.

use crate::codec::{
    be64, be64_value, encode_u64, lemma_be64_of_be64_value, lemma_be64_value_of_be64, push_hash,
    read_hash, try_decode_usize,
};
use crate::error::Error;
use crate::merkle::{keccak, keccak256, merkle_root, MerkleTree};
use crate::params::{
    BYTES_PER_LOAD, BYTES_PER_SEAL, BYTES_PER_SECTOR, SEALS_PER_LOAD, SECTORS_PER_LOAD,
    SECTORS_PER_SEAL,
};
use crate::seq_util::{lemma_filter_push, lemma_filter_twice};
use crate::types::{chunks_view, ChunkArray, DataRoot, SealAnswer};
use vstd::prelude::*;
use vstd::slice::slice_subrange;

verus! {

/// What a batch holds.
pub struct BatchView {
    /// The raw bytes, sector after sector; zero where nothing was written.
    pub data: Seq<u8>,
    /// For each sector, whether it was written.
    pub present: Seq<bool>,
    /// The sealed bytes, seal unit after seal unit; zero where not sealed.
    pub sealed_data: Seq<u8>,
    /// For each seal unit, whether it is sealed.
    pub sealed: Seq<bool>,
    /// The subtree roots: first sector, height and hash of each.
    pub subtrees: Seq<(usize, usize, Seq<u8>)>,
}

/// A run of `n` zero bytes.
pub open spec fn zeros(n: nat) -> Seq<u8> {
    Seq::new(n, |i: int| 0u8)
}

/// The local seal indices of a batch, in order.
pub open spec fn all_units() -> Seq<u16> {
    Seq::new(SEALS_PER_LOAD as nat, |u: int| u as u16)
}

impl BatchView {
    /// Every part has the size that the layout fixes.
    pub open spec fn sized(self) -> bool {
        &&& self.data.len() == BYTES_PER_LOAD
        &&& self.present.len() == SECTORS_PER_LOAD
        &&& self.sealed_data.len() == BYTES_PER_LOAD
        &&& self.sealed.len() == SEALS_PER_LOAD
        &&& forall|j: int| 0 <= j < self.subtrees.len() ==> (#[trigger] self.subtrees[j]).2.len() == 32
    }

    /// Every part has the size that the layout fixes, and only complete
    /// seal units are sealed.
    pub open spec fn wf(self) -> bool {
        self.sized() && self.sealed_units_complete()
    }

    /// Every sealed seal unit is complete.
    pub open spec fn sealed_units_complete(self) -> bool {
        forall|u: int| 0 <= u < SEALS_PER_LOAD && #[trigger] self.sealed[u] ==> self.unit_complete(u)
    }

    /// A batch that nothing was written to.
    pub open spec fn empty() -> BatchView {
        BatchView {
            data: zeros(BYTES_PER_LOAD as nat),
            present: Seq::new(SECTORS_PER_LOAD as nat, |i: int| false),
            sealed_data: zeros(BYTES_PER_LOAD as nat),
            sealed: Seq::new(SEALS_PER_LOAD as nat, |i: int| false),
            subtrees: Seq::empty(),
        }
    }

    /// Whether the sectors `[offset, offset + length)` lie in the batch and
    /// all were written.
    pub open spec fn has_range(self, offset: int, length: int) -> bool {
        &&& 0 <= offset
        &&& 0 <= length
        &&& offset + length <= SECTORS_PER_LOAD
        &&& forall|s: int| offset <= s < offset + length ==> #[trigger] self.present[s]
    }

    /// Whether every sector of seal unit `unit` was written.
    pub open spec fn unit_complete(self, unit: int) -> bool {
        0 <= unit < SEALS_PER_LOAD && self.has_range(
            unit * (SECTORS_PER_SEAL as int),
            SECTORS_PER_SEAL as int,
        )
    }

    /// The raw bytes of the sectors `[offset, offset + length)`.
    pub open spec fn sector_bytes(self, offset: int, length: int) -> Seq<u8> {
        self.data.subrange(
            offset * (BYTES_PER_SECTOR as int),
            (offset + length) * (BYTES_PER_SECTOR as int),
        )
    }

    /// The raw bytes of the sectors `[offset, offset + length)`, where all of
    /// them were written.
    pub open spec fn unsealed_data(self, offset: int, length: int) -> Option<Seq<u8>> {
        if self.has_range(offset, length) {
            Some(self.sector_bytes(offset, length))
        } else {
            None
        }
    }

    /// The sealed bytes of seal unit `unit`, where it is sealed.
    pub open spec fn sealed_unit(self, unit: int) -> Option<Seq<u8>> {
        if 0 <= unit < SEALS_PER_LOAD && self.sealed[unit] {
            Some(
                self.sealed_data.subrange(
                    unit * (BYTES_PER_SEAL as int),
                    (unit + 1) * (BYTES_PER_SEAL as int),
                ),
            )
        } else {
            None
        }
    }

    /// The raw bytes of seal unit `unit`, where it is complete and not yet
    /// sealed.
    pub open spec fn non_sealed_unit(self, unit: int) -> Option<Seq<u8>> {
        if self.unit_complete(unit) && !self.sealed[unit] {
            Some(self.sector_bytes(unit * (SECTORS_PER_SEAL as int), SECTORS_PER_SEAL as int))
        } else {
            None
        }
    }

    /// Whether a write of `count` sectors at `offset` reaches into seal unit
    /// `unit`.
    pub open spec fn touches(offset: int, count: int, unit: int) -> bool {
        count > 0 && unit * (SECTORS_PER_SEAL as int) < offset + count && offset < (unit + 1) * (
        SECTORS_PER_SEAL as int)
    }

    /// Whether `bytes` can be written at sector `offset`: whole sectors that
    /// fit into the batch.
    pub open spec fn can_insert(offset: int, bytes: Seq<u8>) -> bool {
        &&& bytes.len() % (BYTES_PER_SECTOR as nat) == 0
        &&& 0 <= offset
        &&& offset + bytes.len() / (BYTES_PER_SECTOR as nat) <= SECTORS_PER_LOAD
    }

    /// The batch after `bytes` were written at sector `offset`: the sectors
    /// are there with the new bytes, and a seal unit that the write reaches
    /// into is no longer sealed.
    pub open spec fn inserted(self, offset: int, bytes: Seq<u8>) -> BatchView {
        let start = offset * (BYTES_PER_SECTOR as int);
        let count = bytes.len() as int / (BYTES_PER_SECTOR as int);
        BatchView {
            data: Seq::new(
                BYTES_PER_LOAD as nat,
                |i: int|
                    if start <= i < start + bytes.len() {
                        bytes[i - start]
                    } else {
                        self.data[i]
                    },
            ),
            present: Seq::new(
                SECTORS_PER_LOAD as nat,
                |s: int| self.present[s] || (offset <= s < offset + count),
            ),
            sealed_data: Seq::new(
                BYTES_PER_LOAD as nat,
                |i: int|
                    if Self::touches(offset, count, i / (BYTES_PER_SEAL as int)) {
                        0u8
                    } else {
                        self.sealed_data[i]
                    },
            ),
            sealed: Seq::new(
                SEALS_PER_LOAD as nat,
                |u: int| self.sealed[u] && !Self::touches(offset, count, u),
            ),
            subtrees: self.subtrees,
        }
    }

    /// The seal units that a write of `count` sectors at `offset` reached
    /// into and that are complete in this batch, in ascending order.
    pub open spec fn completed_units(self, offset: int, count: int) -> Seq<u16> {
        all_units().filter(
            |u: u16| Self::touches(offset, count, u as int) && self.unit_complete(u as int),
        )
    }

    /// The batch cut at sector `offset`: the sectors from `offset` on are gone,
    /// nothing is sealed any more, and of the subtrees those stay that begin
    /// before the cut.
    pub open spec fn truncated(self, offset: int) -> BatchView {
        BatchView {
            data: Seq::new(
                BYTES_PER_LOAD as nat,
                |i: int|
                    if i < offset * (BYTES_PER_SECTOR as int) {
                        self.data[i]
                    } else {
                        0u8
                    },
            ),
            present: Seq::new(SECTORS_PER_LOAD as nat, |s: int| self.present[s] && s < offset),
            sealed_data: zeros(BYTES_PER_LOAD as nat),
            sealed: Seq::new(SEALS_PER_LOAD as nat, |u: int| false),
            subtrees: self.subtrees.filter(|t: (usize, usize, Seq<u8>)| t.0 < offset),
        }
    }

    /// The seal units that were sealed and lie wholly before sector `offset`,
    /// in ascending order: those that a cut at `offset` sends back to the
    /// sealers.
    pub open spec fn reseal_units(self, offset: int) -> Seq<u16> {
        all_units().filter(
            |u: u16| self.sealed[u as int] && (u as int + 1) * (SECTORS_PER_SEAL as int) <= offset,
        )
    }

    /// Whether a sealer's answer can be taken for seal unit `unit`: the unit
    /// is complete and the sealed bytes are one seal unit long.
    pub open spec fn can_seal(self, unit: int, sealed_bytes: Seq<u8>) -> bool {
        self.unit_complete(unit) && sealed_bytes.len() == BYTES_PER_SEAL
    }

    /// The batch with seal unit `unit` sealed as `sealed_bytes`.
    pub open spec fn sealed_with(self, unit: int, sealed_bytes: Seq<u8>) -> BatchView {
        let start = unit * (BYTES_PER_SEAL as int);
        BatchView {
            sealed_data: Seq::new(
                BYTES_PER_LOAD as nat,
                |i: int|
                    if start <= i < start + (BYTES_PER_SEAL as int) {
                        sealed_bytes[i - start]
                    } else {
                        self.sealed_data[i]
                    },
            ),
            sealed: self.sealed.update(unit, true),
            ..self
        }
    }

    /// The batch with `list` as its subtree roots.
    pub open spec fn with_subtrees(self, list: Seq<(usize, usize, Seq<u8>)>) -> BatchView {
        BatchView { subtrees: list, ..self }
    }

    /// The runs of written sectors among the first `k` sectors, each as first
    /// sector and end, in ascending order. A run ends where a sector is
    /// missing, or at `k`.
    pub open spec fn runs_upto(self, k: int) -> Seq<(int, int)>
        decreases k,
    {
        if k <= 0 {
            Seq::empty()
        } else {
            let before = self.runs_upto(k - 1);
            if !self.present[k - 1] {
                before
            } else if k >= 2 && self.present[k - 2] && before.len() > 0 {
                before.drop_last().push((before.last().0, k))
            } else {
                before.push((k - 1, k))
            }
        }
    }

    /// The runs of written sectors of the batch with their bytes, each under
    /// the global index of its first sector, where the batch begins at the
    /// global index `abs_start`.
    pub open spec fn data_list(self, abs_start: int) -> Seq<(int, Seq<u8>)> {
        let runs = self.runs_upto(SECTORS_PER_LOAD as int);
        Seq::new(
            runs.len(),
            |j: int| (abs_start + runs[j].0, self.sector_bytes(runs[j].0, runs[j].1 - runs[j].0)),
        )
    }

    /// Whether the batch holds neither a sector nor a subtree root.
    pub open spec fn is_empty(self) -> bool {
        self.subtrees.len() == 0 && forall|s: int|
            0 <= s < SECTORS_PER_LOAD ==> !#[trigger] self.present[s]
    }

    /// Whether every sector of the batch was written.
    pub open spec fn complete(self) -> bool {
        self.has_range(0, SECTORS_PER_LOAD as int)
    }

    /// The leaves of the batch's Merkle tree: the digest of each sector; in
    /// the first batch of the flow the leaf of sector 0 is all zeroes.
    pub open spec fn leaves(self, is_first: bool) -> Seq<Seq<u8>> {
        Seq::new(
            SECTORS_PER_LOAD as nat,
            |s: int|
                if is_first && s == 0 {
                    zeros(32)
                } else {
                    keccak256(self.sector_bytes(s, 1))
                },
        )
    }

    /// The Merkle root of the batch, which it has once it is complete.
    pub open spec fn root(self, is_first: bool) -> Option<Seq<u8>> {
        if self.complete() {
            Some(merkle_root(self.leaves(is_first)))
        } else {
            None
        }
    }
}

/// The subtree roots of a list as plain values.
pub open spec fn subtrees_view(list: Seq<(usize, usize, DataRoot)>) -> Seq<(usize, usize, Seq<u8>)> {
    Seq::new(list.len(), |j: int| (list[j].0, list[j].1, list[j].2@))
}

/// One batch of the flow.
#[derive(Clone, Debug)]
pub struct EntryBatch {
    pub(crate) data: Vec<u8>,
    pub(crate) present: Vec<bool>,
    pub(crate) sealed_data: Vec<u8>,
    pub(crate) sealed: Vec<bool>,
    pub(crate) subtrees: Vec<(usize, usize, DataRoot)>,
}

impl View for EntryBatch {
    type V = BatchView;

    closed spec fn view(&self) -> BatchView {
        BatchView {
            data: self.data@,
            present: self.present@,
            sealed_data: self.sealed_data@,
            sealed: self.sealed@,
            subtrees: subtrees_view(self.subtrees@),
        }
    }
}

/// A vector of `n` zero bytes.
fn zero_bytes(n: usize) -> (v: Vec<u8>)
    ensures
        v@ == zeros(n as nat),
{
    let mut v: Vec<u8> = Vec::with_capacity(n);
    let mut i: usize = 0;
    while i < n
        invariant
            i <= n,
            v@ == zeros(i as nat),
        decreases n - i,
    {
        v.push(0u8);
        assert(v@ =~= zeros((i + 1) as nat));
        i += 1;
    }
    v
}

/// A vector of `n` flags, all unset.
fn no_flags(n: usize) -> (v: Vec<bool>)
    ensures
        v@ == Seq::new(n as nat, |i: int| false),
{
    let mut v: Vec<bool> = Vec::with_capacity(n);
    let mut i: usize = 0;
    while i < n
        invariant
            i <= n,
            v@ == Seq::new(i as nat, |i: int| false),
        decreases n - i,
    {
        v.push(false);
        assert(v@ =~= Seq::new((i + 1) as nat, |i: int| false));
        i += 1;
    }
    v
}

impl EntryBatch {
    /// A batch that nothing was written to.
    pub fn new() -> (b: EntryBatch)
        ensures
            b@ == BatchView::empty(),
            b@.wf(),
    {
        let b = EntryBatch {
            data: zero_bytes(BYTES_PER_LOAD),
            present: no_flags(SECTORS_PER_LOAD),
            sealed_data: zero_bytes(BYTES_PER_LOAD),
            sealed: no_flags(SEALS_PER_LOAD),
            subtrees: Vec::new(),
        };
        assert(b@.subtrees =~= Seq::empty());
        b
    }

    /// Whether the sectors `[offset, offset + length)` lie in the batch and
    /// all were written.
    pub fn has_range(&self, offset: usize, length: usize) -> (r: bool)
        requires
            self@.sized(),
        ensures
            r == self@.has_range(offset as int, length as int),
    {
        if offset > SECTORS_PER_LOAD || length > SECTORS_PER_LOAD - offset {
            return false;
        }
        let mut s: usize = offset;
        while s < offset + length
            invariant
                self@.sized(),
                offset + length <= SECTORS_PER_LOAD,
                offset <= s <= offset + length,
                forall|t: int| offset <= t < s ==> #[trigger] self@.present[t],
            decreases offset + length - s,
        {
            if !self.present[s] {
                return false;
            }
            s += 1;
        }
        true
    }

    /// Whether every sector of seal unit `unit` was written.
    pub fn unit_complete(&self, unit: u16) -> (r: bool)
        requires
            self@.sized(),
        ensures
            r == self@.unit_complete(unit as int),
    {
        if unit as usize >= SEALS_PER_LOAD {
            return false;
        }
        self.has_range(unit as usize * SECTORS_PER_SEAL, SECTORS_PER_SEAL)
    }

    /// Whether every sealed seal unit is complete.
    fn sealed_units_complete(&self) -> (r: bool)
        requires
            self@.sized(),
        ensures
            r == self@.sealed_units_complete(),
    {
        let mut unit: usize = 0;
        while unit < SEALS_PER_LOAD
            invariant
                self@.sized(),
                unit <= SEALS_PER_LOAD,
                forall|u: int|
                    0 <= u < unit && #[trigger] self@.sealed[u] ==> self@.unit_complete(u),
            decreases SEALS_PER_LOAD - unit,
        {
            if self.sealed[unit] && !self.unit_complete(unit as u16) {
                return false;
            }
            unit += 1;
        }
        true
    }

    /// The bytes `[from, to)` of `source`.
    fn copy_range(source: &Vec<u8>, from: usize, to: usize) -> (out: Vec<u8>)
        requires
            from <= to <= source@.len(),
        ensures
            out@ == source@.subrange(from as int, to as int),
    {
        let part = slice_subrange(source.as_slice(), from, to);
        let mut out: Vec<u8> = Vec::with_capacity(to - from);
        out.extend_from_slice(part);
        out
    }

    /// The raw bytes of the sectors `[offset, offset + length)`, or `None`
    /// unless all of them were written.
    pub fn get_unsealed_data(&self, offset: usize, length: usize) -> (r: Option<Vec<u8>>)
        requires
            self@.wf(),
        ensures
            match r {
                Some(bytes) => self@.unsealed_data(offset as int, length as int) == Some(bytes@),
                None => self@.unsealed_data(offset as int, length as int) is None,
            },
    {
        if !self.has_range(offset, length) {
            return None;
        }
        Some(
            Self::copy_range(
                &self.data,
                offset * BYTES_PER_SECTOR,
                (offset + length) * BYTES_PER_SECTOR,
            ),
        )
    }

    /// The sealed bytes of seal unit `seal_index`, or `None` unless it is
    /// sealed.
    pub fn get_sealed_data(&self, seal_index: u16) -> (r: Option<Vec<u8>>)
        requires
            self@.wf(),
        ensures
            match r {
                Some(bytes) => self@.sealed_unit(seal_index as int) == Some(bytes@),
                None => self@.sealed_unit(seal_index as int) is None,
            },
    {
        let unit: usize = seal_index as usize;
        if unit >= SEALS_PER_LOAD || !self.sealed[unit] {
            return None;
        }
        Some(Self::copy_range(&self.sealed_data, unit * BYTES_PER_SEAL, (unit + 1) * BYTES_PER_SEAL))
    }

    /// The raw bytes of seal unit `seal_index`, or `None` unless it is
    /// complete and not yet sealed.
    pub fn get_non_sealed_data(&self, seal_index: u16) -> (r: Option<Vec<u8>>)
        requires
            self@.wf(),
        ensures
            match r {
                Some(bytes) => self@.non_sealed_unit(seal_index as int) == Some(bytes@),
                None => self@.non_sealed_unit(seal_index as int) is None,
            },
    {
        let unit: usize = seal_index as usize;
        if !self.unit_complete(seal_index) || self.sealed[unit] {
            return None;
        }
        Some(
            Self::copy_range(
                &self.data,
                unit * SECTORS_PER_SEAL * BYTES_PER_SECTOR,
                (unit * SECTORS_PER_SEAL + SECTORS_PER_SEAL) * BYTES_PER_SECTOR,
            ),
        )
    }

    /// Whether the batch holds neither a sector nor a subtree root.
    pub fn is_empty(&self) -> (r: bool)
        requires
            self@.wf(),
        ensures
            r == self@.is_empty(),
    {
        if self.subtrees.len() != 0 {
            return false;
        }
        let mut s: usize = 0;
        while s < SECTORS_PER_LOAD
            invariant
                self@.wf(),
                s <= SECTORS_PER_LOAD,
                forall|t: int| 0 <= t < s ==> !#[trigger] self@.present[t],
            decreases SECTORS_PER_LOAD - s,
        {
            if self.present[s] {
                return false;
            }
            s += 1;
        }
        true
    }

    /// Replaces the subtree roots of the batch.
    pub fn set_subtree_list(&mut self, subtree_list: Vec<(usize, usize, DataRoot)>)
        requires
            old(self)@.wf(),
        ensures
            final(self)@ == old(self)@.with_subtrees(subtrees_view(subtree_list@)),
            final(self)@.wf(),
    {
        self.subtrees = subtree_list;
    }

    /// The subtree roots of the batch.
    pub fn get_subtree_list(&self) -> (list: &Vec<(usize, usize, DataRoot)>)
        ensures
            subtrees_view(list@) == self@.subtrees,
    {
        &self.subtrees
    }
}

/// Writes `bytes` into `target` from place `at` on.
fn write_bytes(target: &mut Vec<u8>, at: usize, bytes: &[u8])
    requires
        at + bytes@.len() <= old(target)@.len(),
    ensures
        final(target)@ == Seq::new(
            old(target)@.len(),
            |i: int|
                if at <= i < at + bytes@.len() {
                    bytes@[i - at]
                } else {
                    old(target)@[i]
                },
        ),
{
    let n: usize = bytes.len();
    let total: usize = target.len();
    let mut i: usize = 0;
    while i < n
        invariant
            n == bytes@.len(),
            at + n <= total,
            total == old(target)@.len(),
            i <= n,
            target@.len() == old(target)@.len(),
            forall|j: int|
                0 <= j < target@.len() ==> #[trigger] target@[j] == (if at <= j < at + i {
                    bytes@[j - at]
                } else {
                    old(target)@[j]
                }),
        decreases n - i,
    {
        target.set(at + i, bytes[i]);
        i += 1;
    }
    assert(target@ =~= Seq::new(
        old(target)@.len(),
        |i: int|
            if at <= i < at + bytes@.len() {
                bytes@[i - at]
            } else {
                old(target)@[i]
            },
    ));
}

/// Sets the bytes `[from, to)` of `target` to zero.
fn fill_zero(target: &mut Vec<u8>, from: usize, to: usize)
    requires
        from <= to <= old(target)@.len(),
    ensures
        final(target)@ == Seq::new(
            old(target)@.len(),
            |i: int|
                if from <= i < to {
                    0u8
                } else {
                    old(target)@[i]
                },
        ),
{
    let mut i: usize = from;
    while i < to
        invariant
            from <= i <= to,
            to <= old(target)@.len(),
            target@.len() == old(target)@.len(),
            forall|j: int|
                0 <= j < target@.len() ==> #[trigger] target@[j] == (if from <= j < i {
                    0u8
                } else {
                    old(target)@[j]
                }),
        decreases to - i,
    {
        target.set(i, 0u8);
        i += 1;
    }
    assert(target@ =~= Seq::new(
        old(target)@.len(),
        |i: int|
            if from <= i < to {
                0u8
            } else {
                old(target)@[i]
            },
    ));
}

/// Sets the flags `[from, to)` of `target` to `value`.
fn fill_flags(target: &mut Vec<bool>, from: usize, to: usize, value: bool)
    requires
        from <= to <= old(target)@.len(),
    ensures
        final(target)@ == Seq::new(
            old(target)@.len(),
            |i: int|
                if from <= i < to {
                    value
                } else {
                    old(target)@[i]
                },
        ),
{
    let mut i: usize = from;
    while i < to
        invariant
            from <= i <= to,
            to <= old(target)@.len(),
            target@.len() == old(target)@.len(),
            forall|j: int|
                0 <= j < target@.len() ==> #[trigger] target@[j] == (if from <= j < i {
                    value
                } else {
                    old(target)@[j]
                }),
        decreases to - i,
    {
        target.set(i, value);
        i += 1;
    }
    assert(target@ =~= Seq::new(
        old(target)@.len(),
        |i: int|
            if from <= i < to {
                value
            } else {
                old(target)@[i]
            },
    ));
}

impl EntryBatch {
    /// Writes the sectors `data` at sector `offset`. Data that is not whole
    /// sectors, or that does not fit into the batch, is refused and the
    /// batch stays as it was. Returns the seal units that the write reached
    /// into and that are now complete, in ascending order.
    pub fn insert_data(&mut self, offset: usize, data: Vec<u8>) -> (r: Result<Vec<u16>, Error>)
        requires
            old(self)@.wf(),
        ensures
            final(self)@.wf(),
            BatchView::can_insert(offset as int, data@) ==> r is Ok && final(self)@ == old(
                self,
            )@.inserted(offset as int, data@) && r.unwrap()@ == final(self)@.completed_units(
                offset as int,
                data@.len() as int / (BYTES_PER_SECTOR as int),
            ),
            !BatchView::can_insert(offset as int, data@) ==> r is Err && r.unwrap_err()
                == Error::InvalidArgument && final(self)@ == old(self)@,
            r matches Ok(units) ==> forall|j: int|
                0 <= j < units@.len() ==> (#[trigger] units@[j]) < SEALS_PER_LOAD,
    {
        let len: usize = data.len();
        if len % BYTES_PER_SECTOR != 0 || offset > SECTORS_PER_LOAD || len / BYTES_PER_SECTOR
            > SECTORS_PER_LOAD - offset {
            return Err(Error::InvalidArgument);
        }
        let count: usize = len / BYTES_PER_SECTOR;
        let ghost before = self@;
        let ghost after = before.inserted(offset as int, data@);
        write_bytes(&mut self.data, offset * BYTES_PER_SECTOR, data.as_slice());
        fill_flags(&mut self.present, offset, offset + count, true);
        assert(self.data@ =~= after.data);
        assert(self.present@ =~= after.present);
        let mut completed: Vec<u16> = Vec::new();
        let mut unit: usize = 0;
        let ghost done = |u: u16|
            BatchView::touches(offset as int, count as int, u as int) && after.unit_complete(
                u as int,
            );
        assert(all_units().take(0) =~= Seq::<u16>::empty());
        while unit < SEALS_PER_LOAD
            invariant
                before.wf(),
                before == old(self)@,
                after == before.inserted(offset as int, data@),
                count == data@.len() as int / (BYTES_PER_SECTOR as int),
                offset + count <= SECTORS_PER_LOAD,
                unit <= SEALS_PER_LOAD,
                self.data@ == after.data,
                self.present@ == after.present,
                self.subtrees == old(self).subtrees,
                self.sealed@.len() == SEALS_PER_LOAD,
                self.sealed_data@.len() == BYTES_PER_LOAD,
                forall|u: int|
                    0 <= u < SEALS_PER_LOAD ==> #[trigger] self.sealed@[u] == (before.sealed[u] && !(
                    u < unit && BatchView::touches(offset as int, count as int, u))),
                forall|i: int|
                    0 <= i < BYTES_PER_LOAD ==> #[trigger] self.sealed_data@[i] == (if i / (
                    BYTES_PER_SEAL as int) < unit && BatchView::touches(
                        offset as int,
                        count as int,
                        i / (BYTES_PER_SEAL as int),
                    ) {
                        0u8
                    } else {
                        before.sealed_data[i]
                    }),
                done == |u: u16|
                    BatchView::touches(offset as int, count as int, u as int)
                        && after.unit_complete(u as int),
                completed@ == all_units().take(unit as int).filter(done),
            decreases SEALS_PER_LOAD - unit,
        {
            let touched: bool = count > 0 && unit * SECTORS_PER_SEAL < offset + count && offset < (
            unit + 1) * SECTORS_PER_SEAL;
            proof {
                assert(all_units().take(unit as int + 1) =~= all_units().take(unit as int).push(
                    unit as u16,
                ));
                lemma_filter_push(all_units().take(unit as int), unit as u16, done);
            }
            if touched {
                self.sealed.set(unit, false);
                fill_zero(&mut self.sealed_data, unit * BYTES_PER_SEAL, (unit + 1) * BYTES_PER_SEAL);
                let whole = self.has_range(unit * SECTORS_PER_SEAL, SECTORS_PER_SEAL);
                assert(self@.present == after.present);
                assert(self@.has_range(unit * SECTORS_PER_SEAL, SECTORS_PER_SEAL as int)
                    == after.has_range(unit * SECTORS_PER_SEAL, SECTORS_PER_SEAL as int));
                assert(whole == after.unit_complete(unit as int));
                if whole {
                    completed.push(unit as u16);
                }
            }
            unit += 1;
        }
        assert(all_units().take(SEALS_PER_LOAD as int) =~= all_units());
        proof {
            lemma_units_filter(done);
        }
        assert(self.sealed@ =~= after.sealed);
        assert(self.sealed_data@ =~= after.sealed_data);
        Ok(completed)
    }

    /// Cuts the batch at sector `offset`: the sectors from `offset` on are
    /// dropped and nothing stays sealed. Returns the seal units that were
    /// sealed and lie wholly before the cut, in ascending order.
    pub fn truncate(&mut self, offset: usize) -> (r: Vec<u16>)
        requires
            old(self)@.wf(),
            0 < offset < SECTORS_PER_LOAD,
        ensures
            final(self)@.wf(),
            final(self)@ == old(self)@.truncated(offset as int),
            r@ == old(self)@.reseal_units(offset as int),
            forall|j: int| 0 <= j < r@.len() ==> (#[trigger] r@[j]) < SEALS_PER_LOAD,
    {
        let ghost before = self@;
        let ghost after = before.truncated(offset as int);
        let mut reseal: Vec<u16> = Vec::new();
        let mut unit: usize = 0;
        let ghost again = |u: u16|
            before.sealed[u as int] && (u as int + 1) * (SECTORS_PER_SEAL as int) <= offset;
        assert(all_units().take(0) =~= Seq::<u16>::empty());
        while unit < SEALS_PER_LOAD
            invariant
                self@ == before,
                before.wf(),
                unit <= SEALS_PER_LOAD,
                again == |u: u16|
                    before.sealed[u as int] && (u as int + 1) * (SECTORS_PER_SEAL as int)
                        <= offset,
                reseal@ == all_units().take(unit as int).filter(again),
            decreases SEALS_PER_LOAD - unit,
        {
            proof {
                assert(all_units().take(unit as int + 1) =~= all_units().take(unit as int).push(
                    unit as u16,
                ));
                lemma_filter_push(all_units().take(unit as int), unit as u16, again);
            }
            if self.sealed[unit] && (unit + 1) * SECTORS_PER_SEAL <= offset {
                reseal.push(unit as u16);
            }
            unit += 1;
        }
        assert(all_units().take(SEALS_PER_LOAD as int) =~= all_units());
        proof {
            lemma_units_filter(again);
        }
        fill_zero(&mut self.data, offset * BYTES_PER_SECTOR, BYTES_PER_LOAD);
        fill_flags(&mut self.present, offset, SECTORS_PER_LOAD, false);
        self.sealed_data = zero_bytes(BYTES_PER_LOAD);
        self.sealed = no_flags(SEALS_PER_LOAD);
        let ghost starts_before = |t: (usize, usize, Seq<u8>)| t.0 < offset;
        let ghost all = before.subtrees;
        let mut kept: Vec<(usize, usize, DataRoot)> = Vec::new();
        let mut j: usize = 0;
        assert(all.take(0) =~= Seq::<(usize, usize, Seq<u8>)>::empty());
        assert(subtrees_view(kept@) =~= all.take(0).filter(starts_before)) by {
            reveal(Seq::filter);
        }
        while j < self.subtrees.len()
            invariant
                all == subtrees_view(self.subtrees@),
                j <= self.subtrees@.len(),
                starts_before == |t: (usize, usize, Seq<u8>)| t.0 < offset,
                subtrees_view(kept@) == all.take(j as int).filter(starts_before),
            decreases self.subtrees@.len() - j,
        {
            let t = self.subtrees[j];
            proof {
                let tv = (t.0, t.1, t.2@);
                assert(all.take(j as int + 1) =~= all.take(j as int).push(tv));
                lemma_filter_push(all.take(j as int), tv, starts_before);
            }
            if t.0 < offset {
                let ghost kept_before = kept@;
                kept.push(t);
                assert(subtrees_view(kept@) =~= subtrees_view(kept_before).push((t.0, t.1, t.2@)));
            }
            j += 1;
        }
        assert(all.take(all.len() as int) =~= all);
        self.subtrees = kept;
        assert(self.data@ =~= after.data);
        assert(self.present@ =~= after.present);
        assert(self.sealed@ =~= after.sealed);
        proof {
            let f = all.filter(starts_before);
            assert forall|k: int| 0 <= k < f.len() implies (#[trigger] f[k]).2.len() == 32 by {
                all.lemma_filter_contains_rev(starts_before, f[k]);
                let i = choose|i: int| 0 <= i < all.len() && all[i] == f[k];
                assert(all[i].2.len() == 32);
            }
        }
        reseal
    }

    /// Takes a sealer's answer for the seal unit that `answer` names: its
    /// place in the batch is `answer.seal_index` modulo the seal units of a
    /// batch. The answer is refused, and the batch stays as it was, unless
    /// that unit is complete and the sealed bytes are one seal unit long.
    pub fn submit_seal_result(&mut self, answer: &SealAnswer) -> (r: Result<(), Error>)
        requires
            old(self)@.wf(),
        ensures
            final(self)@.wf(),
            old(self)@.can_seal(local_seal_index(answer.seal_index), answer.sealed_data@) ==> r
                is Ok && final(self)@ == old(self)@.sealed_with(
                local_seal_index(answer.seal_index),
                answer.sealed_data@,
            ),
            !old(self)@.can_seal(local_seal_index(answer.seal_index), answer.sealed_data@) ==> r
                is Err && r.unwrap_err() == Error::InvalidArgument && final(self)@ == old(self)@,
    {
        let unit: usize = (answer.seal_index % (SEALS_PER_LOAD as u64)) as usize;
        if answer.sealed_data.len() != BYTES_PER_SEAL || !self.unit_complete(unit as u16) {
            return Err(Error::InvalidArgument);
        }
        let ghost before = self@;
        write_bytes(&mut self.sealed_data, unit * BYTES_PER_SEAL, answer.sealed_data.as_slice());
        self.sealed.set(unit, true);
        assert(self.sealed_data@ =~= before.sealed_with(unit as int, answer.sealed_data@).sealed_data);
        Ok(())
    }

    /// The Merkle tree over the sectors of the batch, which there is once
    /// every sector was written; `is_first` says that this is the first
    /// batch of the flow.
    pub fn to_merkle_tree(&self, is_first: bool) -> (r: Option<MerkleTree>)
        requires
            self@.wf(),
        ensures
            match r {
                Some(tree) => self@.complete() && tree.wf() && tree.leaves() == self@.leaves(
                    is_first,
                ),
                None => !self@.complete(),
            },
    {
        if !self.has_range(0, SECTORS_PER_LOAD) {
            return None;
        }
        let mut leaves: Vec<DataRoot> = Vec::with_capacity(SECTORS_PER_LOAD);
        let mut s: usize = 0;
        while s < SECTORS_PER_LOAD
            invariant
                self@.wf(),
                s <= SECTORS_PER_LOAD,
                leaves@.len() == s,
                forall|t: int| 0 <= t < s ==> (#[trigger] leaves@[t])@ == self@.leaves(is_first)[t],
            decreases SECTORS_PER_LOAD - s,
        {
            let leaf = if is_first && s == 0 {
                DataRoot::zero()
            } else {
                keccak(
                    slice_subrange(
                        self.data.as_slice(),
                        s * BYTES_PER_SECTOR,
                        (s + 1) * BYTES_PER_SECTOR,
                    ),
                )
            };
            leaves.push(leaf);
            s += 1;
        }
        proof {
            reveal_with_fuel(crate::shard::is_power_of_two, 6);
            assert(crate::merkle::hashes_view(leaves@) =~= self@.leaves(is_first));
        }
        Some(MerkleTree::build(leaves))
    }

    /// The Merkle root of the batch, which it has once every sector was
    /// written.
    pub fn build_root(&self, is_first: bool) -> (r: Option<DataRoot>)
        requires
            self@.wf(),
        ensures
            match r {
                Some(h) => self@.root(is_first) == Some(h@),
                None => self@.root(is_first) is None,
            },
    {
        match self.to_merkle_tree(is_first) {
            Some(tree) => Some(tree.root()),
            None => None,
        }
    }
}

/// Whether `run` is a run of written sectors among the first `k`: not empty,
/// every sector of it written, and none written right before it or, unless
/// it ends at `k`, right after it.
pub open spec fn is_run(v: BatchView, k: int, run: (int, int)) -> bool {
    &&& 0 <= run.0 < run.1 <= k
    &&& forall|s: int| run.0 <= s < run.1 ==> #[trigger] v.present[s]
    &&& (run.0 == 0 || !v.present[run.0 - 1])
    &&& (run.1 == k || !v.present[run.1])
}

/// Whether sector `s` lies in one of `runs`.
pub open spec fn in_runs(runs: Seq<(int, int)>, s: int) -> bool {
    exists|j: int| 0 <= j < runs.len() && (#[trigger] runs[j]).0 <= s < runs[j].1
}

/// The runs of written sectors are just that: each is a run that cannot be
/// made longer, they come in ascending order with a gap between neighbours,
/// and every written sector lies in one of them.
pub proof fn lemma_runs(v: BatchView, k: int)
    requires
        v.sized(),
        0 <= k <= SECTORS_PER_LOAD,
    ensures
        forall|j: int| 0 <= j < v.runs_upto(k).len() ==> is_run(v, k, #[trigger] v.runs_upto(k)[j]),
        forall|i: int, j: int|
            0 <= i < j < v.runs_upto(k).len() ==> (#[trigger] v.runs_upto(k)[i]).1 < (
            #[trigger] v.runs_upto(k)[j]).0,
        forall|s: int| 0 <= s < k && #[trigger] v.present[s] ==> in_runs(v.runs_upto(k), s),
        k > 0 && v.present[k - 1] ==> v.runs_upto(k).len() > 0 && v.runs_upto(k).last().1 == k,
    decreases k,
{
    let runs = v.runs_upto(k);
    if k > 0 {
        let before = v.runs_upto(k - 1);
        lemma_runs(v, k - 1);
        if !v.present[k - 1] {
            assert(runs == before);
            assert forall|j: int| 0 <= j < runs.len() implies is_run(v, k, #[trigger] runs[j]) by {
                assert(is_run(v, k - 1, before[j]));
            }
            assert forall|s: int| 0 <= s < k && #[trigger] v.present[s] implies in_runs(runs, s) by {
                assert(in_runs(before, s));
            }
        } else if k >= 2 && v.present[k - 2] && before.len() > 0 {
            let last = before.last();
            assert(before[before.len() - 1] == last);
            assert(last.1 == k - 1);
            assert(is_run(v, k - 1, last));
            let front = before.drop_last();
            assert(runs == front.push((last.0, k)));
            assert forall|j: int| 0 <= j < runs.len() implies is_run(v, k, #[trigger] runs[j]) by {
                if j < front.len() {
                    assert(runs[j] == before[j]);
                    assert(is_run(v, k - 1, before[j]));
                    assert(before[j].1 < last.0);
                }
            }
            assert forall|i: int, j: int| 0 <= i < j < runs.len() implies (#[trigger] runs[i]).1 < (
            #[trigger] runs[j]).0 by {
                assert(runs[i] == before[i]);
                if j < front.len() {
                    assert(runs[j] == before[j]);
                } else {
                    assert(before[i].1 < before[before.len() - 1].0);
                }
            }
            assert forall|s: int| 0 <= s < k && #[trigger] v.present[s] implies in_runs(runs, s) by {
                if s < k - 1 {
                    assert(in_runs(before, s));
                    let j = choose|j: int|
                        0 <= j < before.len() && (#[trigger] before[j]).0 <= s < before[j].1;
                    if j < front.len() {
                        assert(runs[j] == before[j]);
                    } else {
                        assert(runs[runs.len() - 1].0 <= s < runs[runs.len() - 1].1);
                    }
                } else {
                    assert(runs[runs.len() - 1].0 <= s < runs[runs.len() - 1].1);
                }
            }
        } else {
            assert(runs == before.push((k - 1, k)));
            assert(k == 1 || !v.present[k - 2]);
            assert forall|j: int| 0 <= j < runs.len() implies is_run(v, k, #[trigger] runs[j]) by {
                if j < before.len() {
                    assert(runs[j] == before[j]);
                    assert(is_run(v, k - 1, before[j]));
                    if before[j].1 == k - 1 {
                        assert(v.present[before[j].1 - 1]);
                    }
                }
            }
            assert forall|i: int, j: int| 0 <= i < j < runs.len() implies (#[trigger] runs[i]).1 < (
            #[trigger] runs[j]).0 by {
                assert(runs[i] == before[i]);
                assert(is_run(v, k - 1, before[i]));
                if j < before.len() {
                    assert(runs[j] == before[j]);
                } else if before[i].1 == k - 1 {
                    assert(v.present[before[i].1 - 1]);
                }
            }
            assert forall|s: int| 0 <= s < k && #[trigger] v.present[s] implies in_runs(runs, s) by {
                if s < k - 1 {
                    assert(in_runs(before, s));
                    let j = choose|j: int|
                        0 <= j < before.len() && (#[trigger] before[j]).0 <= s < before[j].1;
                    assert(runs[j] == before[j]);
                } else {
                    assert(runs[runs.len() - 1].0 <= s < runs[runs.len() - 1].1);
                }
            }
        }
    }
}

/// A batch that sectors were written to is well-formed and gives the
/// written sectors back: all of them, or all but the first `skip`.
pub proof fn lemma_inserted(v: BatchView, offset: int, bytes: Seq<u8>, skip: int)
    requires
        v.wf(),
        BatchView::can_insert(offset, bytes),
        0 <= skip <= bytes.len() / (BYTES_PER_SECTOR as nat),
    ensures
        v.inserted(offset, bytes).wf(),
        v.inserted(offset, bytes).unsealed_data(
            offset + skip,
            bytes.len() / (BYTES_PER_SECTOR as nat) - skip,
        ) == Some(bytes.skip(skip * (BYTES_PER_SECTOR as int))),
{
    let after = v.inserted(offset, bytes);
    let count = bytes.len() as int / (BYTES_PER_SECTOR as int);
    assert(after.has_range(offset + skip, count - skip));
    assert(after.sector_bytes(offset + skip, count - skip) =~= bytes.skip(
        skip * (BYTES_PER_SECTOR as int),
    ));
}

/// A cut batch is well-formed, nothing in it is sealed, and cutting it again
/// at the same sector changes nothing.
pub proof fn lemma_truncated(v: BatchView, offset: int)
    requires
        v.wf(),
        0 < offset < SECTORS_PER_LOAD,
    ensures
        v.truncated(offset).wf(),
        v.truncated(offset).truncated(offset) == v.truncated(offset),
        v.truncated(offset).reseal_units(offset) == Seq::<u16>::empty(),
{
    let cut = v.truncated(offset);
    let again = cut.truncated(offset);
    let starts_before = |t: (usize, usize, Seq<u8>)| t.0 < offset;
    lemma_filter_twice(v.subtrees, starts_before);
    assert forall|j: int| 0 <= j < cut.subtrees.len() implies (#[trigger] cut.subtrees[j]).2.len()
        == 32 by {
        assert(v.subtrees.contains(cut.subtrees[j]));
        let i = choose|i: int| 0 <= i < v.subtrees.len() && v.subtrees[i] == cut.subtrees[j];
        assert(v.subtrees[i].2.len() == 32);
    }
    assert(again.data =~= cut.data);
    assert(again.present =~= cut.present);
    assert(again.sealed =~= cut.sealed);
    assert(again.sealed_data =~= cut.sealed_data);
    assert(again.subtrees == cut.subtrees);
    let none = |u: u16|
        cut.sealed[u as int] && (u as int + 1) * (SECTORS_PER_SEAL as int) <= offset;
    lemma_units_filter(none);
    let units = cut.reseal_units(offset);
    if units.len() > 0 {
        assert(none(units[0]));
    }
    assert(units =~= Seq::<u16>::empty());
}

/// Every seal unit that a selection from `all_units` holds is a seal unit
/// of the batch, and the selection is in ascending order.
pub proof fn lemma_units_filter(pred: spec_fn(u16) -> bool)
    ensures
        all_units().filter(pred).len() <= SEALS_PER_LOAD,
        forall|j: int|
            0 <= j < all_units().filter(pred).len() ==> (#[trigger] all_units().filter(pred)[j])
                < SEALS_PER_LOAD && pred(all_units().filter(pred)[j]),
        forall|i: int, j: int|
            0 <= i < j < all_units().filter(pred).len() ==> (#[trigger] all_units().filter(
                pred,
            )[i]) < (#[trigger] all_units().filter(pred)[j]),
        forall|u: u16|
            u < SEALS_PER_LOAD && pred(u) ==> #[trigger] all_units().filter(pred).contains(u),
{
    let u0 = Seq::<u16>::empty();
    let u1 = u0.push(0u16);
    let u2 = u1.push(1u16);
    let u3 = u2.push(2u16);
    let u4 = u3.push(3u16);
    assert(all_units() =~= u4);
    assert(u0.filter(pred) =~= u0) by {
        reveal(Seq::filter);
    }
    lemma_filter_push(u0, 0u16, pred);
    lemma_filter_push(u1, 1u16, pred);
    lemma_filter_push(u2, 2u16, pred);
    lemma_filter_push(u3, 3u16, pred);
    let f = all_units().filter(pred);
    assert forall|u: u16| u < SEALS_PER_LOAD && pred(u) implies #[trigger] f.contains(u) by {
        assert(all_units()[u as int] == u);
        all_units().lemma_filter_contains(pred, u as int);
    }
}

/// The place within its batch of the seal unit with the global index
/// `seal_index`.
pub open spec fn local_seal_index(seal_index: u64) -> int {
    seal_index as int % (SEALS_PER_LOAD as int)
}

impl EntryBatch {
    /// The runs of written sectors of the batch, each as a chunk under the
    /// global index of its first sector, in ascending order; `abs_start` is
    /// the global index at which the batch begins.
    pub fn into_data_list(&self, abs_start: u64) -> (list: Vec<ChunkArray>)
        requires
            self@.wf(),
            abs_start + SECTORS_PER_LOAD <= u64::MAX,
        ensures
            chunks_view(list@) == self@.data_list(abs_start as int),
    {
        let mut list: Vec<ChunkArray> = Vec::new();
        let ghost mut runs: Seq<(int, int)> = Seq::empty();
        let mut s: usize = 0;
        while s < SECTORS_PER_LOAD
            invariant
                self@.wf(),
                abs_start + SECTORS_PER_LOAD <= u64::MAX,
                s <= SECTORS_PER_LOAD + 1,
                s <= SECTORS_PER_LOAD ==> runs == self@.runs_upto(s as int),
                s == SECTORS_PER_LOAD + 1 ==> runs == self@.runs_upto(SECTORS_PER_LOAD as int),
                s == 0 || s == SECTORS_PER_LOAD + 1 || !self@.present[s - 1],
                list@.len() == runs.len(),
                forall|j: int|
                    0 <= j < runs.len() ==> 0 <= (#[trigger] runs[j]).0 < runs[j].1
                        <= SECTORS_PER_LOAD,
                forall|j: int|
                    0 <= j < list@.len() ==> (#[trigger] list@[j]).start_index == abs_start
                        + runs[j].0 && list@[j].data@ == self@.sector_bytes(
                        runs[j].0,
                        runs[j].1 - runs[j].0,
                    ),
            decreases SECTORS_PER_LOAD + 1 - s,
        {
            if !self.present[s] {
                s += 1;
            } else {
                let mut e: usize = s + 1;
                let ghost base = runs;
                proof {
                    runs = base.push((s as int, e as int));
                }
                while e < SECTORS_PER_LOAD && self.present[e]
                    invariant
                        self@.wf(),
                        s < e <= SECTORS_PER_LOAD,
                        forall|t: int| s <= t < e ==> #[trigger] self@.present[t],
                        runs == base.push((s as int, e as int)),
                        runs == self@.runs_upto(e as int),
                    decreases SECTORS_PER_LOAD - e,
                {
                    proof {
                        assert(self@.present[e as int - 1]);
                        assert(runs.drop_last() =~= base);
                        runs = base.push((s as int, e as int + 1));
                    }
                    e += 1;
                }
                let data = Self::copy_range(&self.data, s * BYTES_PER_SECTOR, e * BYTES_PER_SECTOR);
                list.push(ChunkArray { data, start_index: abs_start + s as u64 });
                s = e + 1;
                proof {
                    if e < SECTORS_PER_LOAD {
                        assert(!self@.present[e as int]);
                    }
                }
            }
        }
        assert(chunks_view(list@) =~= self@.data_list(abs_start as int));
        list
    }
}

/// The bytes of a row of flags: 1 for a set flag, 0 for an unset one.
pub open spec fn flag_bytes(flags: Seq<bool>) -> Seq<u8> {
    Seq::new(
        flags.len(),
        |i: int|
            if flags[i] {
                1u8
            } else {
                0u8
            },
    )
}

/// Whether every byte is 0 or 1.
pub open spec fn is_flags(bytes: Seq<u8>) -> bool {
    forall|i: int| 0 <= i < bytes.len() ==> #[trigger] bytes[i] == 0 || bytes[i] == 1
}

/// The flags that a row of bytes spells.
pub open spec fn flags_of_bytes(bytes: Seq<u8>) -> Seq<bool> {
    Seq::new(bytes.len(), |i: int| bytes[i] == 1)
}

/// The forty-eight bytes of a subtree root: first sector and height, eight
/// big-endian bytes each, then the hash.
pub open spec fn subtree_bytes(t: (usize, usize, Seq<u8>)) -> Seq<u8> {
    be64(t.0 as u64) + be64(t.1 as u64) + t.2
}

/// The bytes of a list of subtree roots, one after another.
pub open spec fn subtree_list_bytes(list: Seq<(usize, usize, Seq<u8>)>) -> Seq<u8> {
    Seq::new(48 * list.len(), |i: int| subtree_bytes(list[i / 48])[i % 48])
}

/// Whether the two numbers in forty-eight bytes of a subtree root fit a
/// `usize`.
pub open spec fn subtree_fits(bytes: Seq<u8>) -> bool {
    be64_value(bytes.subrange(0, 8)) <= usize::MAX && be64_value(bytes.subrange(8, 16))
        <= usize::MAX
}

/// The subtree root that forty-eight bytes spell.
pub open spec fn subtree_of_bytes(bytes: Seq<u8>) -> (usize, usize, Seq<u8>) {
    (
        be64_value(bytes.subrange(0, 8)) as usize,
        be64_value(bytes.subrange(8, 16)) as usize,
        bytes.subrange(16, 48),
    )
}

/// The length of the encoded flags of a batch.
pub const BATCH_FLAGS_LEN: usize = 20;

/// The length of an encoded batch without subtree roots.
pub const BATCH_FIXED_LEN: usize = 8212;

/// The bytes `[at, at + 48)` of an encoded batch: subtree root `j` where `at`
/// is its place.
pub open spec fn subtree_slot(bytes: Seq<u8>, j: int) -> Seq<u8> {
    bytes.subrange(BATCH_FIXED_LEN + 48 * j, BATCH_FIXED_LEN + 48 * j + 48)
}

/// Whether `bytes` are the encoding of a batch: the fixed part, then a whole
/// number of subtree roots; flags that are 0 or 1, and none set for a seal
/// unit that lacks a sector; numbers that fit.
pub open spec fn batch_decodable(bytes: Seq<u8>) -> bool {
    &&& bytes.len() >= BATCH_FIXED_LEN
    &&& (bytes.len() - BATCH_FIXED_LEN) % 48 == 0
    &&& is_flags(bytes.subrange(0, BATCH_FLAGS_LEN as int))
    &&& batch_of_bytes(bytes).sealed_units_complete()
    &&& forall|j: int|
        0 <= j < (bytes.len() - BATCH_FIXED_LEN) / 48 ==> subtree_fits(
            #[trigger] subtree_slot(bytes, j),
        )
}

/// The batch that `bytes` spell.
pub open spec fn batch_of_bytes(bytes: Seq<u8>) -> BatchView {
    BatchView {
        present: flags_of_bytes(bytes.subrange(0, SECTORS_PER_LOAD as int)),
        sealed: flags_of_bytes(bytes.subrange(SECTORS_PER_LOAD as int, BATCH_FLAGS_LEN as int)),
        data: bytes.subrange(BATCH_FLAGS_LEN as int, BATCH_FLAGS_LEN + BYTES_PER_LOAD),
        sealed_data: bytes.subrange(BATCH_FLAGS_LEN + BYTES_PER_LOAD, BATCH_FIXED_LEN as int),
        subtrees: Seq::new(
            ((bytes.len() - BATCH_FIXED_LEN) / 48) as nat,
            |j: int| subtree_of_bytes(subtree_slot(bytes, j)),
        ),
    }
}

impl BatchView {
    /// The bytes stored for the batch: the flags of the sectors, the flags
    /// of the seal units, the raw bytes, the sealed bytes, the subtree
    /// roots.
    pub open spec fn to_bytes(self) -> Seq<u8> {
        flag_bytes(self.present) + flag_bytes(self.sealed) + self.data + self.sealed_data
            + subtree_list_bytes(self.subtrees)
    }
}

proof fn lemma_subtree_slot(v: BatchView, j: int)
    requires
        v.wf(),
        0 <= j < v.subtrees.len(),
    ensures
        subtree_slot(v.to_bytes(), j) == subtree_bytes(v.subtrees[j]),
        subtree_bytes(v.subtrees[j]).len() == 48,
        subtree_fits(subtree_bytes(v.subtrees[j])),
        subtree_of_bytes(subtree_bytes(v.subtrees[j])) == v.subtrees[j],
{
    let t = v.subtrees[j];
    let bytes = v.to_bytes();
    lemma_be64_value_of_be64(t.0 as u64);
    lemma_be64_value_of_be64(t.1 as u64);
    let tb = subtree_bytes(t);
    assert(tb.len() == 48);
    assert(bytes.len() == BATCH_FIXED_LEN + 48 * v.subtrees.len());
    assert forall|i: int| 0 <= i < 48 implies subtree_slot(bytes, j)[i] == tb[i] by {
        let at = 48 * j + i;
        assert(at / 48 == j && at % 48 == i);
        assert(bytes[BATCH_FIXED_LEN + at] == subtree_list_bytes(v.subtrees)[at]);
    }
    assert(subtree_slot(bytes, j) =~= tb);
    assert(tb.subrange(0, 8) =~= be64(t.0 as u64));
    assert(tb.subrange(8, 16) =~= be64(t.1 as u64));
    assert(tb.subrange(16, 48) =~= t.2);
}

/// Decoding the bytes of a batch gives the batch back.
pub proof fn lemma_batch_roundtrip(v: BatchView)
    requires
        v.wf(),
    ensures
        batch_decodable(v.to_bytes()),
        batch_of_bytes(v.to_bytes()) == v,
        v.to_bytes().len() == BATCH_FIXED_LEN + 48 * v.subtrees.len(),
{
    let bytes = v.to_bytes();
    let back = batch_of_bytes(bytes);
    assert(bytes.len() == BATCH_FIXED_LEN + 48 * v.subtrees.len());
    assert((bytes.len() - BATCH_FIXED_LEN) / 48 == v.subtrees.len());
    assert forall|j: int| 0 <= j < v.subtrees.len() implies subtree_fits(
        #[trigger] subtree_slot(bytes, j),
    ) && subtree_of_bytes(subtree_slot(bytes, j)) == v.subtrees[j] by {
        lemma_subtree_slot(v, j);
    }
    assert(back.present =~= v.present);
    assert(back.sealed =~= v.sealed);
    assert(back.data =~= v.data);
    assert(back.sealed_data =~= v.sealed_data);
    assert(back.subtrees =~= v.subtrees);
    assert(is_flags(bytes.subrange(0, BATCH_FLAGS_LEN as int)));
}

/// Encoding the batch that decodable bytes spell gives the bytes back.
pub proof fn lemma_batch_bytes_roundtrip(bytes: Seq<u8>)
    requires
        batch_decodable(bytes),
    ensures
        batch_of_bytes(bytes).wf(),
        batch_of_bytes(bytes).to_bytes() == bytes,
{
    let v = batch_of_bytes(bytes);
    let again = v.to_bytes();
    let n = (bytes.len() - BATCH_FIXED_LEN) / 48;
    assert(again.len() == bytes.len());
    let flags = bytes.subrange(0, BATCH_FLAGS_LEN as int);
    assert forall|i: int| 0 <= i < bytes.len() implies again[i] == bytes[i] by {
        if i < BATCH_FLAGS_LEN {
            assert(flags[i] == 0 || flags[i] == 1);
            assert(flags[i] == bytes[i]);
        } else if i < BATCH_FIXED_LEN {
        } else {
            let at = i - BATCH_FIXED_LEN;
            let j = at / 48;
            let w = at % 48;
            let slot = subtree_slot(bytes, j);
            assert(subtree_fits(slot));
            lemma_be64_of_be64_value(slot.subrange(0, 8));
            lemma_be64_of_be64_value(slot.subrange(8, 16));
            assert(again[i] == subtree_bytes(v.subtrees[j])[w]);
            if w < 8 {
                assert(slot.subrange(0, 8)[w] == bytes[i]);
            } else if w < 16 {
                assert(slot.subrange(8, 16)[w - 8] == bytes[i]);
            } else {
                assert(slot.subrange(16, 48)[w - 16] == bytes[i]);
            }
        }
    }
    assert(again =~= bytes);
}

/// Appends one byte per flag to `out`: 1 for a set flag, 0 for an unset one.
fn push_flags(out: &mut Vec<u8>, flags: &Vec<bool>)
    ensures
        final(out)@ == old(out)@ + flag_bytes(flags@),
{
    let mut i: usize = 0;
    while i < flags.len()
        invariant
            i <= flags@.len(),
            out@ == old(out)@ + flag_bytes(flags@.take(i as int)),
        decreases flags@.len() - i,
    {
        out.push(
            if flags[i] {
                1u8
            } else {
                0u8
            },
        );
        assert(out@ =~= old(out)@ + flag_bytes(flags@.take(i as int + 1)));
        i += 1;
    }
    assert(flags@.take(flags@.len() as int) =~= flags@);
}

/// Reads the bytes `[from, to)` as flags; `None` where a byte is neither 0
/// nor 1.
fn read_flags(bytes: &[u8], from: usize, to: usize) -> (r: Option<Vec<bool>>)
    requires
        from <= to <= bytes@.len(),
    ensures
        match r {
            Some(flags) => is_flags(bytes@.subrange(from as int, to as int)) && flags@
                == flags_of_bytes(bytes@.subrange(from as int, to as int)),
            None => !is_flags(bytes@.subrange(from as int, to as int)),
        },
{
    let ghost part = bytes@.subrange(from as int, to as int);
    let mut flags: Vec<bool> = Vec::with_capacity(to - from);
    let mut i: usize = from;
    while i < to
        invariant
            from <= i <= to,
            to <= bytes@.len(),
            part == bytes@.subrange(from as int, to as int),
            flags@.len() == i - from,
            forall|j: int| 0 <= j < i - from ==> (#[trigger] part[j] == 0 || part[j] == 1),
            forall|j: int| 0 <= j < i - from ==> #[trigger] flags@[j] == (part[j] == 1),
        decreases to - i,
    {
        let b = bytes[i];
        if b > 1 {
            assert(part[i - from] == b);
            return None;
        }
        flags.push(b == 1);
        i += 1;
    }
    assert(flags@ =~= flags_of_bytes(part));
    Some(flags)
}

impl EntryBatch {
    /// The bytes stored for the batch.
    pub fn to_bytes(&self) -> (bytes: Vec<u8>)
        requires
            self@.wf(),
        ensures
            bytes@ == self@.to_bytes(),
    {
        let mut out: Vec<u8> = Vec::new();
        push_flags(&mut out, &self.present);
        push_flags(&mut out, &self.sealed);
        out.extend_from_slice(self.data.as_slice());
        out.extend_from_slice(self.sealed_data.as_slice());
        let ghost head = out@;
        let ghost list = self@.subtrees;
        assert(head =~= flag_bytes(self@.present) + flag_bytes(self@.sealed) + self@.data
            + self@.sealed_data);
        let mut j: usize = 0;
        assert(out@ =~= head + subtree_list_bytes(list.take(0)));
        while j < self.subtrees.len()
            invariant
                self@.wf(),
                list == self@.subtrees,
                j <= self.subtrees@.len(),
                out@ == head + subtree_list_bytes(list.take(j as int)),
            decreases self.subtrees@.len() - j,
        {
            let t = self.subtrees[j];
            let mut first = encode_u64(t.0 as u64);
            let mut second = encode_u64(t.1 as u64);
            let ghost before = out@;
            out.append(&mut first);
            out.append(&mut second);
            push_hash(&mut out, &t.2);
            proof {
                let tv = list[j as int];
                assert(tv == (t.0, t.1, t.2@));
                assert(tv.2.len() == 32);
                let grown = subtree_list_bytes(list.take(j as int + 1));
                let tail = out@.subrange(head.len() as int, out@.len() as int);
                assert(out@ == before + be64(t.0 as u64) + be64(t.1 as u64) + t.2@);
                assert(tail.len() == grown.len());
                assert forall|i: int| 0 <= i < grown.len() implies tail[i] == grown[i] by {
                    if i < 48 * j {
                        assert(list.take(j as int)[i / 48] == list.take(j as int + 1)[i / 48]);
                        assert(tail[i] == subtree_list_bytes(list.take(j as int))[i]);
                    } else {
                        assert(i / 48 == j && i % 48 == i - 48 * j);
                        assert(tail[i] == subtree_bytes(tv)[i - 48 * j]);
                    }
                }
                assert(tail =~= grown);
                assert(out@ =~= head + grown);
            }
            j += 1;
        }
        assert(list.take(list.len() as int) =~= list);
        out
    }

    /// The batch stored as `bytes`. Bytes that are not the encoding of a
    /// batch do not decode.
    pub fn from_bytes(bytes: &[u8]) -> (r: Result<EntryBatch, Error>)
        ensures
            batch_decodable(bytes@) ==> r is Ok && r.unwrap()@ == batch_of_bytes(bytes@)
                && r.unwrap()@.wf(),
            !batch_decodable(bytes@) ==> r is Err && r.unwrap_err() == Error::Codec,
    {
        let len: usize = bytes.len();
        if len < BATCH_FIXED_LEN || (len - BATCH_FIXED_LEN) % 48 != 0 {
            return Err(Error::Codec);
        }
        let n: usize = (len - BATCH_FIXED_LEN) / 48;
        let ghost flags = bytes@.subrange(0, BATCH_FLAGS_LEN as int);
        let present = match read_flags(bytes, 0, SECTORS_PER_LOAD) {
            Some(f) => f,
            None => {
                proof {
                    let part = bytes@.subrange(0, SECTORS_PER_LOAD as int);
                    let i = choose|i: int|
                        0 <= i < part.len() && !(#[trigger] part[i] == 0 || part[i] == 1);
                    assert(flags[i] == part[i]);
                }
                return Err(Error::Codec);
            },
        };
        let sealed = match read_flags(bytes, SECTORS_PER_LOAD, BATCH_FLAGS_LEN) {
            Some(f) => f,
            None => {
                proof {
                    let part = bytes@.subrange(SECTORS_PER_LOAD as int, BATCH_FLAGS_LEN as int);
                    let i = choose|i: int|
                        0 <= i < part.len() && !(#[trigger] part[i] == 0 || part[i] == 1);
                    assert(flags[SECTORS_PER_LOAD + i] == part[i]);
                }
                return Err(Error::Codec);
            },
        };
        proof {
            let sector_flags = bytes@.subrange(0, SECTORS_PER_LOAD as int);
            let unit_flags = bytes@.subrange(SECTORS_PER_LOAD as int, BATCH_FLAGS_LEN as int);
            assert forall|i: int| 0 <= i < flags.len() implies #[trigger] flags[i] == 0 || flags[i]
                == 1 by {
                if i < SECTORS_PER_LOAD {
                    assert(sector_flags[i] == 0 || sector_flags[i] == 1);
                    assert(sector_flags[i] == flags[i]);
                } else {
                    assert(unit_flags[i - SECTORS_PER_LOAD] == 0 || unit_flags[i - SECTORS_PER_LOAD] == 1);
                    assert(unit_flags[i - SECTORS_PER_LOAD] == flags[i]);
                }
            }
        }
        let mut data: Vec<u8> = Vec::with_capacity(BYTES_PER_LOAD);
        data.extend_from_slice(
            slice_subrange(bytes, BATCH_FLAGS_LEN, BATCH_FLAGS_LEN + BYTES_PER_LOAD),
        );
        let mut sealed_data: Vec<u8> = Vec::with_capacity(BYTES_PER_LOAD);
        sealed_data.extend_from_slice(
            slice_subrange(bytes, BATCH_FLAGS_LEN + BYTES_PER_LOAD, BATCH_FIXED_LEN),
        );
        let mut subtrees: Vec<(usize, usize, DataRoot)> = Vec::with_capacity(n);
        let ghost want = batch_of_bytes(bytes@).subtrees;
        let mut j: usize = 0;
        while j < n
            invariant
                len == bytes@.len(),
                len >= BATCH_FIXED_LEN,
                BATCH_FIXED_LEN + 48 * n == len,
                j <= n,
                want == batch_of_bytes(bytes@).subtrees,
                subtrees@.len() == j,
                forall|k: int| 0 <= k < j ==> subtree_fits(#[trigger] subtree_slot(bytes@, k)),
                forall|k: int|
                    0 <= k < j ==> ((#[trigger] subtrees@[k]).0, subtrees@[k].1, subtrees@[k].2@)
                        == want[k],
            decreases n - j,
        {
            let at: usize = BATCH_FIXED_LEN + 48 * j;
            let slot = slice_subrange(bytes, at, at + 48);
            assert(slot@ == subtree_slot(bytes@, j as int));
            let start_sector = match try_decode_usize(slice_subrange(slot, 0, 8)) {
                Ok(x) => x,
                Err(_) => {
                    assert(!subtree_fits(subtree_slot(bytes@, j as int)));
                    return Err(Error::Codec);
                },
            };
            let height = match try_decode_usize(slice_subrange(slot, 8, 16)) {
                Ok(x) => x,
                Err(_) => {
                    assert(!subtree_fits(subtree_slot(bytes@, j as int)));
                    return Err(Error::Codec);
                },
            };
            let root = read_hash(slot, 16);
            subtrees.push((start_sector, height, root));
            j += 1;
        }
        let b = EntryBatch { data, present, sealed_data, sealed, subtrees };
        proof {
            assert(b@.subtrees =~= want);
            assert(b@.present == batch_of_bytes(bytes@).present);
            assert(b@.sealed == batch_of_bytes(bytes@).sealed);
            assert(b@.data == batch_of_bytes(bytes@).data);
            assert(b@.sealed_data == batch_of_bytes(bytes@).sealed_data);
            assert(b@ == batch_of_bytes(bytes@));
            assert forall|k: int| 0 <= k < b@.subtrees.len() implies (#[trigger] b@.subtrees[k]).2.len()
                == 32 by {
                assert(b@.subtrees[k] == (subtrees@[k].0, subtrees@[k].1, subtrees@[k].2@));
            }
        }
        if !b.sealed_units_complete() {
            return Err(Error::Codec);
        }
        proof {
            lemma_batch_bytes_roundtrip(bytes@);
        }
        Ok(b)
    }
}

} // verus!

//! Fixed sizes of the flow layout.

use vstd::prelude::*;

verus! {

/// Bytes in one sector.
pub const BYTES_PER_SECTOR: usize = 256;

/// Sectors covered by one seal unit.
pub const SECTORS_PER_SEAL: usize = 4;

/// Seal units in one batch.
pub const SEALS_PER_LOAD: usize = 4;

/// Sectors in one batch.
pub const SECTORS_PER_LOAD: usize = 16;

/// Bytes in one seal unit.
pub const BYTES_PER_SEAL: usize = 1024;

/// Bytes in one batch.
pub const BYTES_PER_LOAD: usize = 4096;

/// The layout constants agree with each other.
pub proof fn lemma_layout_consistent()
    ensures
        SECTORS_PER_LOAD == SEALS_PER_LOAD * SECTORS_PER_SEAL,
        BYTES_PER_SEAL == SECTORS_PER_SEAL * BYTES_PER_SECTOR,
        BYTES_PER_LOAD == SECTORS_PER_LOAD * BYTES_PER_SECTOR,
{
}

} // verus!

//! Sector geometry: the scan only ever reads at multiples of the sector size.

use vstd::prelude::*;

verus! {

/// Size of one sector in bytes.
pub const SECTOR_SIZE: u64 = 512;

/// The greatest multiple of the sector size that is not above `offset`.
pub open spec fn sector_floor(offset: int) -> int {
    offset - offset % 512
}

/// Whether `offset` lies on a sector boundary.
pub open spec fn is_sector_aligned(offset: int) -> bool {
    offset % 512 == 0
}

/// The boundary that follows the sector starting at `position`.
pub open spec fn sector_after(position: int) -> int {
    position + 512
}

/// Rounds `offset` down to the boundary of the sector that holds it.
pub fn align_to_sector(offset: u64) -> (aligned: u64)
    ensures
        aligned == sector_floor(offset as int),
        is_sector_aligned(aligned as int),
        aligned <= offset < aligned + 512,
{
    offset - offset % SECTOR_SIZE
}

/// The start of the sector after the one at `position`, or `None` when that
/// boundary cannot be addressed with 64 bits.
pub fn next_sector(position: u64) -> (next: Option<u64>)
    ensures
        next == (if sector_after(position as int) <= u64::MAX {
            Some(sector_after(position as int) as u64)
        } else {
            None
        }),
{
    position.checked_add(SECTOR_SIZE)
}

/// Rounding down is idempotent and lands on a boundary; an aligned offset is
/// left where it is.
pub proof fn lemma_sector_floor(offset: int)
    requires
        0 <= offset,
    ensures
        is_sector_aligned(sector_floor(offset)),
        sector_floor(sector_floor(offset)) == sector_floor(offset),
        0 <= sector_floor(offset) <= offset < sector_floor(offset) + 512,
        is_sector_aligned(offset) ==> sector_floor(offset) == offset,
{
}

/// Every multiple of the sector size that is not above `offset` is not above
/// its floor either: the floor is the nearest boundary below.
pub proof fn lemma_sector_floor_is_greatest(offset: int, boundary: int)
    requires
        0 <= boundary <= offset,
        is_sector_aligned(boundary),
    ensures
        boundary <= sector_floor(offset),
{
}

} // verus!

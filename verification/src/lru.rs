use vstd::prelude::*;
use vstd::arithmetic::div_mod::{
    lemma_fundamental_div_mod, lemma_fundamental_div_mod_converse, lemma_div_pos_is_pos,
    lemma_mod_division_less_than_divisor,
};
use vstd::arithmetic::mul::lemma_mul_inequality;
use crate::cache::{BlockCache, cache_map};
use crate::provider::{
    CloudProvider, CloudProviderExt, IoError, block_floor, block_ceil, lemma_hull_bounds,
    lemma_hull_of_block,
};
use crate::seqs::{splice, agrees_outside, copy_bytes};

verus! {

broadcast use vstd::std_specs::vec::axiom_spec_len;

/// One cached block: its bytes and whether they are newer than what the lower
/// provider holds.
pub struct LRUItem {
    pub data: Vec<u8>,
    pub dirty: bool,
}

/// A write-back cache of bounded capacity over any lower provider.  Its
/// contents are the lower provider's contents overlaid with the cached
/// buffers; a dirty entry holds the authoritative bytes for its block.
pub struct LRUProvider<T: CloudProvider> {
    provider: T,
    cache: BlockCache,
    capacity: usize,
}

/// The byte a cache-over-lower stack shows at position `i`: the cached buffer
/// of the covering block if one exists, else the lower provider's byte.
pub open spec fn overlay_byte(lower: Seq<u8>, bs: nat, m: Map<nat, (Seq<u8>, bool)>, i: int) -> u8 {
    let blk = (i / (bs as int)) as nat;
    if m.dom().contains(blk) {
        m[blk].0[i % (bs as int)]
    } else {
        lower[i]
    }
}

/// The lower provider's contents overlaid with every cached buffer.
pub open spec fn overlay(lower: Seq<u8>, bs: nat, m: Map<nat, (Seq<u8>, bool)>) -> Seq<u8> {
    Seq::new(lower.len(), |i: int| overlay_byte(lower, bs, m, i))
}

/// A cache entry for block `b` is exactly one block long and lies inside the
/// device.
pub open spec fn entry_ok(bs: nat, total: nat, b: nat, e: (Seq<u8>, bool)) -> bool {
    &&& e.0.len() == bs
    &&& (b + 1) * bs <= total
}

/// The cache is finite, within capacity, every entry well formed, and every
/// clean entry agrees byte-for-byte with the lower provider's block.
pub open spec fn cache_ok(bs: nat, cap: nat, lower: Seq<u8>, m: Map<nat, (Seq<u8>, bool)>) -> bool {
    &&& m.dom().finite()
    &&& m.dom().len() <= cap
    &&& forall|b: nat| #[trigger] m.dom().contains(b) ==> entry_ok(bs, lower.len(), b, m[b])
    &&& forall|b: nat| #[trigger] m.dom().contains(b) && !m[b].1 ==> m[b].0 == lower.subrange(
        (b * bs) as int,
        (b * bs + bs) as int,
    )
}

/// Indices `i` with `b * bs <= i < b * bs + bs` belong to block `b`.
pub proof fn lemma_block_span(bs: int, b: int, i: int)
    requires
        bs >= 1,
        b >= 0,
        b * bs <= i < b * bs + bs,
    ensures
        i / bs == b,
        i % bs == i - b * bs,
{
    lemma_fundamental_div_mod_converse(i, bs, b, i - b * bs);
}

/// Every index belongs to the block given by its quotient.
pub proof fn lemma_index_block(bs: int, i: int)
    requires
        bs >= 1,
        0 <= i,
    ensures
        i / bs >= 0,
        (i / bs) * bs <= i < (i / bs) * bs + bs,
        i % bs == i - (i / bs) * bs,
{
    lemma_fundamental_div_mod(i, bs);
    lemma_mod_division_less_than_divisor(i, bs);
    lemma_div_pos_is_pos(i, bs);
    assert(bs * (i / bs) == (i / bs) * bs) by (nonlinear_arith);
}

/// Blocks `b` and `b2` occupy disjoint index ranges when they differ.
pub proof fn lemma_blocks_disjoint(bs: int, b: int, b2: int)
    requires
        bs >= 1,
        b >= 0,
        b2 >= 0,
        b != b2,
    ensures
        b < b2 ==> b * bs + bs <= b2 * bs,
        b2 < b ==> b2 * bs + bs <= b * bs,
{
    if b < b2 {
        lemma_mul_inequality(b + 1, b2, bs);
        assert((b + 1) * bs == b * bs + bs) by (nonlinear_arith);
    } else {
        lemma_mul_inequality(b2 + 1, b, bs);
        assert((b2 + 1) * bs == b2 * bs + bs) by (nonlinear_arith);
    }
}

/// Overlaying an empty cache changes nothing.
pub proof fn lemma_overlay_empty(lower: Seq<u8>, bs: nat)
    ensures
        overlay(lower, bs, Map::<nat, (Seq<u8>, bool)>::empty()) == lower,
{
    assert(overlay(lower, bs, Map::<nat, (Seq<u8>, bool)>::empty()) =~= lower);
}

/// Inserting a one-block buffer into the cache splices it into the contents.
pub proof fn lemma_overlay_insert(
    lower: Seq<u8>,
    bs: nat,
    m: Map<nat, (Seq<u8>, bool)>,
    b: nat,
    d: Seq<u8>,
    dirty: bool,
)
    requires
        bs >= 1,
        d.len() == bs,
        (b + 1) * bs <= lower.len(),
    ensures
        overlay(lower, bs, m.insert(b, (d, dirty))) == splice(
            overlay(lower, bs, m),
            (b * bs) as int,
            d,
        ),
{
    let bi = b as int;
    let bsi = bs as int;
    assert((b + 1) * bs == b * bs + bs) by (nonlinear_arith);
    assert(b * bs >= 0) by (nonlinear_arith);
    let lhs = overlay(lower, bs, m.insert(b, (d, dirty)));
    let rhs = splice(overlay(lower, bs, m), (b * bs) as int, d);
    assert forall|i: int| 0 <= i < lower.len() implies lhs[i] == rhs[i] by {
        lemma_index_block(bsi, i);
        if bi * bsi <= i < bi * bsi + bsi {
            lemma_block_span(bsi, bi, i);
        } else {
            assert(i / bsi != bi);
        }
    }
    assert(lhs =~= rhs);
}

/// Changing the lower provider only inside a block that the cache covers does
/// not change the overlaid contents.
pub proof fn lemma_overlay_agrees(
    lower1: Seq<u8>,
    lower2: Seq<u8>,
    bs: nat,
    m: Map<nat, (Seq<u8>, bool)>,
    b: nat,
)
    requires
        bs >= 1,
        m.dom().contains(b),
        (b + 1) * bs <= lower1.len(),
        agrees_outside(lower2, lower1, (b * bs) as int, (b * bs + bs) as int),
    ensures
        overlay(lower2, bs, m) == overlay(lower1, bs, m),
{
    let bi = b as int;
    let bsi = bs as int;
    assert((b + 1) * bs == b * bs + bs) by (nonlinear_arith);
    assert(b * bs >= 0) by (nonlinear_arith);
    assert forall|i: int| 0 <= i < lower1.len() implies overlay(lower2, bs, m)[i] == overlay(
        lower1,
        bs,
        m,
    )[i] by {
        lemma_index_block(bsi, i);
        if bi * bsi <= i < bi * bsi + bsi {
            lemma_block_span(bsi, bi, i);
        } else {
            assert(i / bsi != bi);
        }
    }
    assert(overlay(lower2, bs, m) =~= overlay(lower1, bs, m));
}

/// Splicing one block into the lower provider at a block the cache does not
/// cover splices the overlaid contents as well.
pub proof fn lemma_overlay_uncached_splice(
    lower: Seq<u8>,
    bs: nat,
    m: Map<nat, (Seq<u8>, bool)>,
    b: nat,
    d: Seq<u8>,
)
    requires
        bs >= 1,
        !m.dom().contains(b),
        d.len() == bs,
        (b + 1) * bs <= lower.len(),
    ensures
        overlay(splice(lower, (b * bs) as int, d), bs, m) == splice(
            overlay(lower, bs, m),
            (b * bs) as int,
            d,
        ),
{
    let bi = b as int;
    let bsi = bs as int;
    assert((b + 1) * bs == b * bs + bs) by (nonlinear_arith);
    assert(b * bs >= 0) by (nonlinear_arith);
    let lhs = overlay(splice(lower, (b * bs) as int, d), bs, m);
    let rhs = splice(overlay(lower, bs, m), (b * bs) as int, d);
    assert forall|i: int| 0 <= i < lower.len() implies lhs[i] == rhs[i] by {
        lemma_index_block(bsi, i);
        if bi * bsi <= i < bi * bsi + bsi {
            lemma_block_span(bsi, bi, i);
        } else {
            assert(i / bsi != bi);
        }
    }
    assert(lhs =~= rhs);
}

/// Dropping a clean entry does not change the overlaid contents.
pub proof fn lemma_overlay_remove_clean(lower: Seq<u8>, bs: nat, m: Map<nat, (Seq<u8>, bool)>, b: nat)
    requires
        bs >= 1,
        m.dom().contains(b),
        m[b].0.len() == bs,
        (b + 1) * bs <= lower.len(),
        m[b].0 == lower.subrange((b * bs) as int, (b * bs + bs) as int),
    ensures
        overlay(lower, bs, m.remove(b)) == overlay(lower, bs, m),
{
    let bi = b as int;
    let bsi = bs as int;
    assert((b + 1) * bs == b * bs + bs) by (nonlinear_arith);
    assert(b * bs >= 0) by (nonlinear_arith);
    assert forall|i: int| 0 <= i < lower.len() implies overlay(lower, bs, m.remove(b))[i] == overlay(
        lower,
        bs,
        m,
    )[i] by {
        lemma_index_block(bsi, i);
        if bi * bsi <= i < bi * bsi + bsi {
            lemma_block_span(bsi, bi, i);
            assert(m[b].0[i - bi * bsi] == lower.subrange((b * bs) as int, (b * bs + bs) as int)[i - bi
                * bsi]);
        } else {
            assert(i / bsi != bi);
        }
    }
    assert(overlay(lower, bs, m.remove(b)) =~= overlay(lower, bs, m));
}

/// The overlaid contents of a covered block are the cached buffer.
pub proof fn lemma_overlay_covered(lower: Seq<u8>, bs: nat, m: Map<nat, (Seq<u8>, bool)>, b: nat)
    requires
        bs >= 1,
        m.dom().contains(b),
        m[b].0.len() == bs,
        (b + 1) * bs <= lower.len(),
    ensures
        overlay(lower, bs, m).subrange((b * bs) as int, (b * bs + bs) as int) == m[b].0,
{
    let bi = b as int;
    let bsi = bs as int;
    assert((b + 1) * bs == b * bs + bs) by (nonlinear_arith);
    assert(b * bs >= 0) by (nonlinear_arith);
    let sub = overlay(lower, bs, m).subrange((b * bs) as int, (b * bs + bs) as int);
    assert forall|j: int| 0 <= j < bsi implies sub[j] == m[b].0[j] by {
        lemma_block_span(bsi, bi, bi * bsi + j);
    }
    assert(sub =~= m[b].0);
}

/// The overlaid contents of an uncovered block are the lower provider's bytes.
pub proof fn lemma_overlay_uncovered(lower: Seq<u8>, bs: nat, m: Map<nat, (Seq<u8>, bool)>, b: nat)
    requires
        bs >= 1,
        !m.dom().contains(b),
        (b + 1) * bs <= lower.len(),
    ensures
        overlay(lower, bs, m).subrange((b * bs) as int, (b * bs + bs) as int) == lower.subrange(
            (b * bs) as int,
            (b * bs + bs) as int,
        ),
{
    let bi = b as int;
    let bsi = bs as int;
    assert((b + 1) * bs == b * bs + bs) by (nonlinear_arith);
    assert(b * bs >= 0) by (nonlinear_arith);
    let sub = overlay(lower, bs, m).subrange((b * bs) as int, (b * bs + bs) as int);
    assert forall|j: int| 0 <= j < bsi implies sub[j] == lower.subrange(
        (b * bs) as int,
        (b * bs + bs) as int,
    )[j] by {
        lemma_block_span(bsi, bi, bi * bsi + j);
    }
    assert(sub =~= lower.subrange((b * bs) as int, (b * bs + bs) as int));
}

/// Facts about the `k`-th block of a block-aligned request.
pub proof fn lemma_aligned_block(bs: int, offset: int, len: int, k: int)
    requires
        bs >= 1,
        offset >= 0,
        len >= 0,
        offset % bs == 0,
        len % bs == 0,
        0 <= k < len / bs,
    ensures
        ({
            let b = offset / bs + k;
            &&& b >= 0
            &&& 0 <= offset / bs <= offset
            &&& b * bs == offset + k * bs
            &&& (b + 1) * bs == offset + k * bs + bs
            &&& 0 <= k * bs
            &&& k * bs + bs <= len
            &&& (k + 1) * bs == k * bs + bs
            &&& (len / bs) * bs == len
        }),
{
    lemma_fundamental_div_mod(offset, bs);
    lemma_fundamental_div_mod(len, bs);
    lemma_div_pos_is_pos(offset, bs);
    lemma_div_pos_is_pos(len, bs);
    let q = offset / bs;
    let n = len / bs;
    assert(offset == bs * q);
    assert(len == bs * n);
    assert((q + k) * bs == bs * q + k * bs) by (nonlinear_arith);
    assert((q + k + 1) * bs == bs * q + k * bs + bs) by (nonlinear_arith);
    assert(n * bs == bs * n) by (nonlinear_arith);
    assert(k * bs + bs <= n * bs) by (nonlinear_arith)
        requires
            k + 1 <= n,
            bs >= 1,
    ;
    assert(k * bs >= 0) by (nonlinear_arith)
        requires
            k >= 0,
            bs >= 1,
    ;
    assert((k + 1) * bs == k * bs + bs) by (nonlinear_arith);
    assert(q <= bs * q) by (nonlinear_arith)
        requires
            q >= 0,
            bs >= 1,
    ;
}

/// An aligned nonempty request spans at least one whole block.
pub proof fn lemma_aligned_sizes(bs: int, offset: int, len: int)
    requires
        bs >= 1,
        offset >= 0,
        len >= 1,
        offset % bs == 0,
        len % bs == 0,
    ensures
        len / bs >= 1,
        (len / bs) * bs == len,
        0 <= offset / bs <= offset,
{
    lemma_fundamental_div_mod(offset, bs);
    lemma_fundamental_div_mod(len, bs);
    lemma_div_pos_is_pos(offset, bs);
    lemma_div_pos_is_pos(len, bs);
    let q = offset / bs;
    let n = len / bs;
    assert(n * bs == bs * n) by (nonlinear_arith);
    assert(n >= 1) by (nonlinear_arith)
        requires
            bs >= 1,
            n >= 0,
            bs * n >= 1,
    ;
    assert(q <= bs * q) by (nonlinear_arith)
        requires
            q >= 0,
            bs >= 1,
    ;
}

/// Filling one more whole block of the output buffer extends the prefix that
/// matches the contents.
pub proof fn lemma_read_step(
    pre: Seq<u8>,
    got: Seq<u8>,
    view: Seq<u8>,
    offset: int,
    bs: int,
    k: int,
    blockdata: Seq<u8>,
)
    requires
        bs >= 1,
        k >= 0,
        offset >= 0,
        blockdata.len() == bs,
        pre.len() >= k * bs + bs,
        offset + k * bs + bs <= view.len(),
        got == splice(pre, k * bs, blockdata),
        pre.subrange(0, k * bs) == view.subrange(offset, offset + k * bs),
        blockdata == view.subrange(offset + k * bs, offset + k * bs + bs),
    ensures
        got.subrange(0, (k + 1) * bs) == view.subrange(offset, offset + (k + 1) * bs),
{
    assert((k + 1) * bs == k * bs + bs) by (nonlinear_arith);
    assert(k * bs >= 0) by (nonlinear_arith)
        requires
            k >= 0,
            bs >= 1,
    ;
    let upto = k * bs + bs;
    assert forall|j: int| 0 <= j < upto implies got.subrange(0, upto)[j] == view.subrange(
        offset,
        offset + upto,
    )[j] by {
        if j < k * bs {
            assert(pre.subrange(0, k * bs)[j] == view.subrange(offset, offset + k * bs)[j]);
        } else {
            assert(got[j] == blockdata[j - k * bs]);
            assert(blockdata[j - k * bs] == view.subrange(offset + k * bs, offset + k * bs + bs)[j
                - k * bs]);
        }
    }
    assert(got.subrange(0, upto) =~= view.subrange(offset, offset + upto));
}

/// A change confined to block `b` leaves the bytes of any other block intact.
pub proof fn lemma_agrees_preserves_block(l1: Seq<u8>, l2: Seq<u8>, bs: nat, b: nat, b2: nat)
    requires
        bs >= 1,
        b != b2,
        agrees_outside(l2, l1, (b * bs) as int, (b * bs + bs) as int),
        (b2 + 1) * bs <= l1.len(),
    ensures
        l2.subrange((b2 * bs) as int, (b2 * bs + bs) as int) == l1.subrange(
            (b2 * bs) as int,
            (b2 * bs + bs) as int,
        ),
{
    lemma_blocks_disjoint(bs as int, b as int, b2 as int);
    assert((b + 1) * bs == b * bs + bs) by (nonlinear_arith);
    assert((b2 + 1) * bs == b2 * bs + bs) by (nonlinear_arith);
    assert(b * bs >= 0 && b2 * bs >= 0) by (nonlinear_arith);
    assert(l2.subrange((b2 * bs) as int, (b2 * bs + bs) as int) =~= l1.subrange(
        (b2 * bs) as int,
        (b2 * bs + bs) as int,
    ));
}

/// A lower-provider change confined to any range moves through the overlay.
pub proof fn lemma_overlay_agrees_general(
    l1: Seq<u8>,
    l2: Seq<u8>,
    bs: nat,
    m: Map<nat, (Seq<u8>, bool)>,
    lo: int,
    hi: int,
)
    requires
        bs >= 1,
        agrees_outside(l2, l1, lo, hi),
    ensures
        agrees_outside(overlay(l2, bs, m), overlay(l1, bs, m), lo, hi),
{
    assert forall|i: int|
        0 <= i < overlay(l2, bs, m).len() && !(lo <= i < hi) implies #[trigger] overlay(
        l2,
        bs,
        m,
    )[i] == overlay(l1, bs, m)[i] by {
        assert(l2[i] == l1[i]);
    }
}

impl<T: CloudProvider> LRUProvider<T> {
    /// Wraps `provider` in a write-back cache of at most `capacity` blocks.
    /// The observable contents are unchanged.
    pub fn new(provider: T, capacity: usize) -> (r: LRUProvider<T>)
        requires
            provider.inv(),
            capacity >= 1,
            provider.block_size_spec() % provider.scribble_spec() == 0,
        ensures
            r.inv(),
            r.contents() == provider.contents(),
            r.block_size_spec() == provider.block_size_spec(),
            r.synced() == provider.synced(),
            r.infallible() == provider.infallible(),
    {
        let r = LRUProvider { provider, cache: BlockCache::new(), capacity };
        proof {
            lemma_overlay_empty(r.provider.contents(), r.provider.block_size_spec());
        }
        r
    }

    /// The wrapped lower provider, as a specification-level value.
    pub closed spec fn lower_view(&self) -> T {
        self.provider
    }

    /// A view of the wrapped lower provider, through which tests observe what
    /// reached it.
    pub fn lower(&self) -> (r: &T)
        ensures
            *r == self.lower_view(),
    {
        &self.provider
    }

    /// Removes the least-recently-used entry.  A dirty entry is first written
    /// back to the lower provider; if that write fails the entry is reinserted
    /// and the error surfaces, so no cached data is silently lost.
    fn evict_one(&mut self) -> (r: Result<(), IoError>)
        requires
            old(self).inv(),
            cache_map(old(self).cache).dom().len() >= 1,
        ensures
            final(self).inv(),
            final(self).contents() == old(self).contents(),
            final(self).block_size_spec() == old(self).block_size_spec(),
            final(self).infallible() == old(self).infallible(),
            final(self).scribble_spec() == old(self).scribble_spec(),
            final(self).capacity == old(self).capacity,
            final(self).provider.contents().len() == old(self).provider.contents().len(),
            forall|b2: nat| #[trigger]
                cache_map(final(self).cache).dom().contains(b2) ==> cache_map(
                    old(self).cache,
                ).dom().contains(b2),
            r is Ok ==> cache_map(final(self).cache).dom().len() == cache_map(
                old(self).cache,
            ).dom().len() - 1,
            r is Err ==> cache_map(final(self).cache).dom().len() == cache_map(
                old(self).cache,
            ).dom().len(),
            forall|b2: nat|
                !cache_map(old(self).cache).dom().contains(b2) && (b2 + 1) * old(
                    self,
                ).block_size_spec() <= old(self).provider.contents().len() ==> #[trigger] block_bytes(
                    final(self).provider.contents(),
                    old(self).block_size_spec(),
                    b2,
                ) == block_bytes(old(self).provider.contents(), old(self).block_size_spec(), b2),
            old(self).infallible() ==> r is Ok,
    {
        proof {
            old(self).provider.lemma_inv();
        }
        let ghost bs = old(self).block_size_spec();
        let ghost low0 = old(self).provider.contents();
        let ghost m0 = cache_map(old(self).cache);
        let popped = self.cache.pop_lru();
        match popped {
            None => {
                proof {
                    assert(m0.dom() =~= Set::<nat>::empty());
                    assert(false);
                }
                Err(IoError::Io)
            },
            Some((eb, eitem)) => {
                proof {
                    assert(m0.dom().contains(eb as nat));
                    assert(entry_ok(bs, low0.len(), eb as nat, m0[eb as nat]));
                    self.provider.lemma_inv();
                    lemma_hull_of_block(
                        bs as int,
                        old(self).provider.scribble_spec() as int,
                        eb as int,
                    );
                }
                if eitem.dirty {
                    let wres = self.provider.unsafe_write_block(eb, &eitem.data, false);
                    match wres {
                        Ok(()) => {
                            proof {
                                let low1 = self.provider.contents();
                                assert((eb as nat + 1) * bs == eb as nat * bs + bs) by (nonlinear_arith);
                                crate::seqs::lemma_splice_agrees_outside(
                                    low0,
                                    (eb as nat * bs) as int,
                                    eitem.data@,
                                );
                                lemma_overlay_agrees(low0, low1, bs, m0, eb as nat);
                                crate::seqs::lemma_splice_subrange(
                                    low0,
                                    (eb as nat * bs) as int,
                                    eitem.data@,
                                );
                                lemma_overlay_remove_clean(low1, bs, m0, eb as nat);
                                assert forall|b2: nat| #[trigger]
                                    cache_map(self.cache).dom().contains(b2) && !cache_map(
                                        self.cache,
                                    )[b2].1 implies cache_map(self.cache)[b2].0 == low1.subrange(
                                    (b2 * bs) as int,
                                    (b2 * bs + bs) as int,
                                ) by {
                                    assert(m0.dom().contains(b2));
                                    assert(entry_ok(bs, low0.len(), b2, m0[b2]));
                                    lemma_agrees_preserves_block(low0, low1, bs, eb as nat, b2);
                                }
                                assert forall|b2: nat|
                                    !m0.dom().contains(b2) && (b2 + 1) * bs
                                        <= low0.len() implies #[trigger] block_bytes(low1, bs, b2)
                                    == block_bytes(low0, bs, b2) by {
                                    lemma_agrees_preserves_block(low0, low1, bs, eb as nat, b2);
                                }
                            }
                            Ok(())
                        },
                        Err(e) => {
                            let ghost low1 = self.provider.contents();
                            self.cache.put(eb, eitem);
                            proof {
                                assert((eitem.data@, eitem.dirty) == m0[eb as nat]);
                                assert(cache_map(self.cache) =~= m0);
                                lemma_overlay_agrees(low0, low1, bs, m0, eb as nat);
                                assert forall|b2: nat| #[trigger]
                                    cache_map(self.cache).dom().contains(b2) && !cache_map(
                                        self.cache,
                                    )[b2].1 implies cache_map(self.cache)[b2].0 == low1.subrange(
                                    (b2 * bs) as int,
                                    (b2 * bs + bs) as int,
                                ) by {
                                    assert(m0.dom().contains(b2));
                                    assert(entry_ok(bs, low0.len(), b2, m0[b2]));
                                    assert(b2 != eb as nat);
                                    lemma_agrees_preserves_block(low0, low1, bs, eb as nat, b2);
                                }
                                assert forall|b2: nat|
                                    !m0.dom().contains(b2) && (b2 + 1) * bs
                                        <= low0.len() implies #[trigger] block_bytes(low1, bs, b2)
                                    == block_bytes(low0, bs, b2) by {
                                    lemma_agrees_preserves_block(low0, low1, bs, eb as nat, b2);
                                }
                            }
                            Err(e)
                        },
                    }
                } else {
                    proof {
                        assert(!m0[eb as nat].1);
                        lemma_overlay_remove_clean(low0, bs, m0, eb as nat);
                    }
                    Ok(())
                }
            },
        }
    }
}

/// An effect confined to the request range is confined to its scribble hull.
pub proof fn lemma_own_scribble(view2: Seq<u8>, view1: Seq<u8>, offset: int, len: int, bs: int)
    requires
        bs >= 1,
        0 <= offset,
        0 <= len,
        agrees_outside(view2, view1, offset, offset + len),
    ensures
        agrees_outside(view2, view1, block_floor(offset, bs), block_ceil(offset + len, bs)),
{
    lemma_hull_bounds(offset, offset + len, bs);
    crate::seqs::lemma_agrees_outside_widen(
        view2,
        view1,
        offset,
        offset + len,
        block_floor(offset, bs),
        block_ceil(offset + len, bs),
    );
}

/// The cached block ids as naturals.
pub open spec fn nat_keys(s: Seq<usize>) -> Seq<nat> {
    s.map_values(|k2: usize| k2 as nat)
}

/// The bytes of block `b` within contents `s`.
pub open spec fn block_bytes(s: Seq<u8>, bs: nat, b: nat) -> Seq<u8> {
    s.subrange((b * bs) as int, (b * bs + bs) as int)
}

impl<T: CloudProvider> CloudProvider for LRUProvider<T> {
    closed spec fn contents(&self) -> Seq<u8> {
        overlay(self.provider.contents(), self.provider.block_size_spec(), cache_map(self.cache))
    }

    closed spec fn block_size_spec(&self) -> nat {
        self.provider.block_size_spec()
    }

    closed spec fn inv(&self) -> bool {
        &&& self.provider.inv()
        &&& self.capacity >= 1
        &&& self.provider.block_size_spec() % self.provider.scribble_spec() == 0
        &&& cache_ok(
            self.provider.block_size_spec(),
            self.capacity as nat,
            self.provider.contents(),
            cache_map(self.cache),
        )
    }

    closed spec fn synced(&self) -> bool {
        &&& self.provider.synced()
        &&& forall|b: nat| #[trigger]
            cache_map(self.cache).dom().contains(b) ==> !cache_map(self.cache)[b].1
    }

    closed spec fn infallible(&self) -> bool {
        self.provider.infallible()
    }

    closed spec fn scribble_spec(&self) -> nat {
        self.provider.block_size_spec()
    }

    proof fn lemma_inv(&self) {
        assert(self.scribble_spec() == self.provider.block_size_spec());
        self.provider.lemma_inv();
    }

    fn total_size(&self) -> (r: usize) {
        self.provider.total_size()
    }

    fn block_size(&self) -> (r: usize) {
        self.provider.block_size()
    }

    fn unsafe_read(&mut self, offset: usize, buf: &mut Vec<u8>) -> (r: Result<(), IoError>) {
        proof {
            old(self).lemma_inv();
            old(self).provider.lemma_inv();
            crate::seqs::lemma_vec_len_fits(*old(buf));
        }
        let bs = self.provider.block_size();
        let len = buf.len();
        if len == 0 {
            proof {
                assert(buf@ =~= old(self).contents().subrange(offset as int, offset as int));
            }
            return Ok(());
        }
        let nb = len / bs;
        let first = offset / bs;
        proof {
            lemma_aligned_sizes(bs as int, offset as int, len as int);
        }
        let mut k: usize = 0;
        while k < nb
            invariant
                self.inv(),
                self.block_size_spec() == old(self).block_size_spec(),
                self.scribble_spec() == old(self).scribble_spec(),
                self.contents() == old(self).contents(),
                self.infallible() == old(self).infallible(),
                bs == self.block_size_spec(),
                bs >= 1,
                len >= 1,
                len == old(buf)@.len(),
                buf@.len() == len,
                nb == len as int / bs as int,
                first == offset as int / bs as int,
                nb * bs == len,
                (offset as int) % (bs as int) == 0,
                (len as int) % (bs as int) == 0,
                offset + len <= self.contents().len(),
                self.contents().len() <= usize::MAX,
                self.contents().len() == self.provider.contents().len(),
                k <= nb,
                buf@.subrange(0, (k * bs) as int) == self.contents().subrange(
                    offset as int,
                    offset + k * bs,
                ),
            decreases nb - k,
        {
            proof {
                lemma_aligned_block(bs as int, offset as int, len as int, k as int);
            }
            let b: usize = first + k;
            let req_lo: usize = k * bs;
            let ghost low0 = self.provider.contents();
            let ghost m0 = cache_map(self.cache);
            let ghost pre_buf = buf@;
            let hit = self.cache.get_copy(b);
            match hit {
                Some(item) => {
                    proof {
                        assert(m0.dom().contains(b as nat));
                        assert(entry_ok(bs as nat, low0.len(), b as nat, m0[b as nat]));
                        lemma_overlay_covered(low0, bs as nat, m0, b as nat);
                    }
                    copy_bytes(buf, req_lo, &item.data, 0, bs);
                    proof {
                        assert(item.data@.subrange(0, bs as int) =~= item.data@);
                        lemma_read_step(
                            pre_buf,
                            buf@,
                            self.contents(),
                            offset as int,
                            bs as int,
                            k as int,
                            item.data@,
                        );
                    }
                },
                None => {
                    let mut scratch = self.provider.create_block_buffer();
                    let res = self.provider.unsafe_read_block(b, &mut scratch);
                    match res {
                        Ok(()) => {},
                        Err(e) => {
                            return Err(e);
                        },
                    }
                    proof {
                        lemma_overlay_uncovered(low0, bs as nat, m0, b as nat);
                    }
                    copy_bytes(buf, req_lo, &scratch, 0, bs);
                    proof {
                        assert(scratch@.subrange(0, bs as int) =~= scratch@);
                        lemma_read_step(
                            pre_buf,
                            buf@,
                            self.contents(),
                            offset as int,
                            bs as int,
                            k as int,
                            scratch@,
                        );
                    }
                    if self.cache.len() == self.capacity {
                        let ev = self.evict_one();
                        match ev {
                            Ok(()) => {},
                            Err(e) => {
                                return Err(e);
                            },
                        }
                    }
                    let ghost low1 = self.provider.contents();
                    let ghost m1 = cache_map(self.cache);
                    let ghost view1 = self.contents();
                    proof {
                        assert(!m1.dom().contains(b as nat));
                        assert(block_bytes(low1, bs as nat, b as nat) == block_bytes(
                            low0,
                            bs as nat,
                            b as nat,
                        ));
                        assert(scratch@ == block_bytes(low1, bs as nat, b as nat));
                    }
                    let ghost sdata = scratch@;
                    self.cache.put(b, LRUItem { data: scratch, dirty: false });
                    proof {
                        lemma_overlay_insert(low1, bs as nat, m1, b as nat, sdata, false);
                        lemma_overlay_uncovered(low1, bs as nat, m1, b as nat);
                        crate::seqs::lemma_splice_identity(view1, (b as nat * bs as nat) as int, sdata);
                        assert(self.contents() == view1);
                        // the new entry is clean and coherent; the rest is unchanged
                        assert forall|b2: nat| #[trigger]
                            cache_map(self.cache).dom().contains(b2) && !cache_map(
                                self.cache,
                            )[b2].1 implies cache_map(self.cache)[b2].0 == low1.subrange(
                            (b2 * (bs as nat)) as int,
                            (b2 * (bs as nat) + bs as nat) as int,
                        ) by {
                            if b2 != b as nat {
                                assert(m1.dom().contains(b2));
                            }
                        }
                        assert(cache_map(self.cache).dom() =~= m1.dom().insert(b as nat));
                    }
                },
            }
            k = k + 1;
        }
        proof {
            assert(buf@.subrange(0, len as int) =~= buf@);
            assert((nb * bs) as int == len as int);
        }
        Ok(())
    }

    fn unsafe_write(&mut self, offset: usize, buf: &Vec<u8>, write_through: bool) -> (r: Result<
        (),
        IoError,
    >) {
        proof {
            old(self).lemma_inv();
            old(self).provider.lemma_inv();
            crate::seqs::lemma_vec_len_fits(*buf);
        }
        let bs = self.provider.block_size();
        let len = buf.len();
        if len == 0 {
            proof {
                assert(buf@ =~= Seq::<u8>::empty());
                crate::seqs::lemma_splice_empty(old(self).contents(), offset as int);
            }
            return Ok(());
        }
        let nb = len / bs;
        let first = offset / bs;
        proof {
            lemma_aligned_sizes(bs as int, offset as int, len as int);
        }
        let mut k: usize = 0;
        while k < nb
            invariant
                self.inv(),
                self.block_size_spec() == old(self).block_size_spec(),
                self.scribble_spec() == old(self).scribble_spec(),
                self.infallible() == old(self).infallible(),
                self.contents().len() == old(self).contents().len(),
                self.contents().len() == self.provider.contents().len(),
                bs == self.block_size_spec(),
                bs >= 1,
                len >= 1,
                len == buf@.len(),
                nb == len as int / bs as int,
                first == offset as int / bs as int,
                nb * bs == len,
                (offset as int) % (bs as int) == 0,
                (len as int) % (bs as int) == 0,
                offset + len <= self.contents().len(),
                self.contents().len() <= usize::MAX,
                k <= nb,
                self.contents() == splice(
                    old(self).contents(),
                    offset as int,
                    buf@.subrange(0, (k * bs) as int),
                ),
            decreases nb - k,
        {
            proof {
                lemma_aligned_block(bs as int, offset as int, len as int, k as int);
            }
            let b: usize = first + k;
            let req_lo: usize = k * bs;
            let data = crate::seqs::subvec(buf, req_lo, bs);
            let ghost ddata = data@;
            let ghost view0 = self.contents();
            let ghost low0 = self.provider.contents();
            let ghost m0 = cache_map(self.cache);
            let hit = self.cache.get_copy(b);
            proof {
                assert((b as nat + 1) * (bs as nat) == b as nat * (bs as nat) + bs as nat)
                    by (nonlinear_arith);
            }
            let is_hit = hit.is_some();
            if !is_hit {
                // fetch-before-write, then make room
                let mut scratch = self.provider.create_block_buffer();
                let res = self.provider.unsafe_read_block(b, &mut scratch);
                match res {
                    Ok(()) => {},
                    Err(e) => {
                        proof {
                            lemma_splice_prefix_agrees(old(self).contents(), offset as int, buf@, (k * bs) as int);
                            lemma_own_scribble(self.contents(), old(self).contents(), offset as int, len as int, bs as int);
                        }
                        return Err(e);
                    },
                }
                if self.cache.len() == self.capacity {
                    let ev = self.evict_one();
                    match ev {
                        Ok(()) => {},
                        Err(e) => {
                            proof {
                                lemma_splice_prefix_agrees(old(self).contents(), offset as int, buf@, (k * bs) as int);
                                lemma_own_scribble(self.contents(), old(self).contents(), offset as int, len as int, bs as int);
                            }
                            return Err(e);
                        },
                    }
                }
            }
            let ghost view1 = self.contents();
            let ghost low1 = self.provider.contents();
            let ghost m1 = cache_map(self.cache);
            proof {
                assert(view1 == view0);
                if is_hit {
                    assert(m1.dom().contains(b as nat));
                } else {
                    assert(!m1.dom().contains(b as nat));
                }
                if !m1.dom().contains(b as nat) {
                    assert(cache_map(self.cache).dom().len() < self.capacity);
                }
            }
            if write_through {
                proof {
                    self.provider.lemma_inv();
                    lemma_hull_of_block(
                        bs as int,
                        self.provider.scribble_spec() as int,
                        b as int,
                    );
                }
                let wres = self.provider.unsafe_write_block(b, &data, true);
                let ghost low2 = self.provider.contents();
                match wres {
                    Ok(()) => {
                        proof {
                            assert(low2 == splice(low1, (b as nat * bs as nat) as int, ddata));
                            crate::seqs::lemma_splice_subrange(
                                low1,
                                (b as nat * bs as nat) as int,
                                ddata,
                            );
                            if m1.dom().contains(b as nat) {
                                crate::seqs::lemma_splice_agrees_outside(
                                    low1,
                                    (b as nat * bs as nat) as int,
                                    ddata,
                                );
                                lemma_overlay_agrees(low1, low2, bs as nat, m1, b as nat);
                                assert(overlay(low2, bs as nat, m1) == view1);
                            } else {
                                lemma_overlay_uncached_splice(low1, bs as nat, m1, b as nat, ddata);
                            }
                        }
                        self.cache.put(b, LRUItem { data, dirty: false });
                        proof {
                            lemma_overlay_insert(low2, bs as nat, m1, b as nat, ddata, false);
                            if !m1.dom().contains(b as nat) {
                                // inserting over an already-spliced block changes nothing more
                                assert(splice(
                                    splice(view1, (b as nat * bs as nat) as int, ddata),
                                    (b as nat * bs as nat) as int,
                                    ddata,
                                ) =~= splice(view1, (b as nat * bs as nat) as int, ddata));
                            }
                            lemma_write_step(old(self).contents(), offset as int, buf@, k as int, bs as int, self.contents());
                            assert forall|b2: nat| #[trigger]
                                cache_map(self.cache).dom().contains(b2) && !cache_map(
                                    self.cache,
                                )[b2].1 implies cache_map(self.cache)[b2].0 == low2.subrange(
                                (b2 * (bs as nat)) as int,
                                (b2 * (bs as nat) + bs as nat) as int,
                            ) by {
                                if b2 != b as nat {
                                    assert(m1.dom().contains(b2));
                                    assert(entry_ok(bs as nat, low1.len(), b2, m1[b2]));
                                    crate::seqs::lemma_splice_agrees_outside(
                                        low1,
                                        (b as nat * bs as nat) as int,
                                        ddata,
                                    );
                                    lemma_agrees_preserves_block(low1, low2, bs as nat, b as nat, b2);
                                }
                            }
                            assert(cache_map(self.cache).dom() =~= m1.dom().insert(b as nat));
                        }
                    },
                    Err(e) => {
                        self.cache.put(b, LRUItem { data, dirty: true });
                        proof {
                            lemma_overlay_agrees_general(
                                low1,
                                low2,
                                bs as nat,
                                m1,
                                (b as nat * bs as nat) as int,
                                (b as nat * bs as nat + bs as nat) as int,
                            );
                            lemma_overlay_insert(low2, bs as nat, m1, b as nat, ddata, true);
                            crate::seqs::lemma_splice_agrees_bases(
                                view1,
                                overlay(low2, bs as nat, m1),
                                (b as nat * bs as nat) as int,
                                ddata,
                            );
                            lemma_write_step(old(self).contents(), offset as int, buf@, k as int, bs as int, self.contents());
                            lemma_splice_prefix_agrees(old(self).contents(), offset as int, buf@, ((k + 1) * bs) as int);
                            lemma_own_scribble(self.contents(), old(self).contents(), offset as int, len as int, bs as int);
                            assert forall|b2: nat| #[trigger]
                                cache_map(self.cache).dom().contains(b2) && !cache_map(
                                    self.cache,
                                )[b2].1 implies cache_map(self.cache)[b2].0 == low2.subrange(
                                (b2 * (bs as nat)) as int,
                                (b2 * (bs as nat) + bs as nat) as int,
                            ) by {
                                assert(b2 != b as nat);
                                assert(m1.dom().contains(b2));
                                assert(entry_ok(bs as nat, low1.len(), b2, m1[b2]));
                                lemma_agrees_preserves_block(low1, low2, bs as nat, b as nat, b2);
                            }
                            assert(cache_map(self.cache).dom() =~= m1.dom().insert(b as nat));
                        }
                        return Err(e);
                    },
                }
            } else {
                self.cache.put(b, LRUItem { data, dirty: true });
                proof {
                    lemma_overlay_insert(low1, bs as nat, m1, b as nat, ddata, true);
                    lemma_write_step(old(self).contents(), offset as int, buf@, k as int, bs as int, self.contents());
                    assert forall|b2: nat| #[trigger]
                        cache_map(self.cache).dom().contains(b2) && !cache_map(
                            self.cache,
                        )[b2].1 implies cache_map(self.cache)[b2].0 == low1.subrange(
                        (b2 * (bs as nat)) as int,
                        (b2 * (bs as nat) + bs as nat) as int,
                    ) by {
                        assert(b2 != b as nat);
                        assert(m1.dom().contains(b2));
                    }
                    assert(cache_map(self.cache).dom() =~= m1.dom().insert(b as nat));
                }
            }
            k = k + 1;
        }
        proof {
            assert(buf@.subrange(0, len as int) =~= buf@);
            crate::seqs::lemma_splice_agrees_outside(old(self).contents(), offset as int, buf@);
            lemma_own_scribble(self.contents(), old(self).contents(), offset as int, len as int, bs as int);
        }
        Ok(())
    }

    fn flush(&mut self) -> (r: Result<(), IoError>) {
        proof {
            old(self).lemma_inv();
            old(self).provider.lemma_inv();
        }
        let keys = self.cache.keys();
        let n = keys.len();
        let ghost m0 = cache_map(self.cache);
        let ghost bs = old(self).block_size_spec();
        let mut idx: usize = 0;
        while idx < n
            invariant
                self.inv(),
                self.block_size_spec() == old(self).block_size_spec(),
                self.scribble_spec() == old(self).scribble_spec(),
                self.contents() == old(self).contents(),
                self.infallible() == old(self).infallible(),
                bs == self.block_size_spec(),
                bs >= 1,
                idx <= n,
                n == keys@.len(),
                cache_map(self.cache).dom() == m0.dom(),
                nat_keys(keys@).to_set() == m0.dom(),
                forall|b2: nat| #[trigger]
                    cache_map(self.cache).dom().contains(b2) ==> cache_map(self.cache)[b2].0
                        == m0[b2].0,
                forall|b2: nat| #[trigger]
                    cache_map(self.cache).dom().contains(b2) && cache_map(self.cache)[b2].1
                        ==> m0[b2].1,
                forall|j: int|
                    0 <= j < idx ==> !cache_map(self.cache)[#[trigger] keys@[j] as nat].1,
                old(self).synced() ==> *self == *old(self),
            decreases n - idx,
        {
            let b = keys[idx];
            proof {
                assert(nat_keys(keys@)[idx as int] == b as nat);
                assert(nat_keys(keys@).contains(b as nat));
                assert(m0.dom().contains(b as nat));
            }
            let got = self.cache.peek_copy(b);
            match got {
                Some(item) => {
                    if item.dirty {
                        let ghost low1 = self.provider.contents();
                        let ghost m1 = cache_map(self.cache);
                        proof {
                            assert(m0[b as nat].1);
                            assert(entry_ok(bs, low1.len(), b as nat, m1[b as nat]));
                            assert((b as nat + 1) * bs == b as nat * bs + bs) by (nonlinear_arith);
                        }
                        proof {
                            self.provider.lemma_inv();
                            lemma_hull_of_block(
                                bs as int,
                                self.provider.scribble_spec() as int,
                                b as int,
                            );
                        }
                        let wres = self.provider.unsafe_write_block(b, &item.data, true);
                        let ghost low2 = self.provider.contents();
                        match wres {
                            Ok(()) => {
                                proof {
                                    crate::seqs::lemma_splice_agrees_outside(
                                        low1,
                                        (b as nat * bs) as int,
                                        item.data@,
                                    );
                                    lemma_overlay_agrees(low1, low2, bs, m1, b as nat);
                                    crate::seqs::lemma_splice_subrange(
                                        low1,
                                        (b as nat * bs) as int,
                                        item.data@,
                                    );
                                }
                                self.cache.mark_clean(b);
                                proof {
                                    lemma_overlay_insert(low2, bs, m1, b as nat, item.data@, false);
                                    lemma_overlay_covered(low2, bs, m1, b as nat);
                                    crate::seqs::lemma_splice_identity(
                                        overlay(low2, bs, m1),
                                        (b as nat * bs) as int,
                                        item.data@,
                                    );
                                    assert forall|b2: nat| #[trigger]
                                        cache_map(self.cache).dom().contains(b2) && !cache_map(
                                            self.cache,
                                        )[b2].1 implies cache_map(self.cache)[b2].0 == low2.subrange(
                                        (b2 * bs) as int,
                                        (b2 * bs + bs) as int,
                                    ) by {
                                        if b2 != b as nat {
                                            assert(m1.dom().contains(b2));
                                            assert(entry_ok(bs, low1.len(), b2, m1[b2]));
                                            lemma_agrees_preserves_block(low1, low2, bs, b as nat, b2);
                                        }
                                    }
                                    assert(cache_map(self.cache).dom() =~= m1.dom().insert(b as nat));
                                    assert(cache_map(self.cache).dom() =~= m0.dom());
                                }
                            },
                            Err(e) => {
                                proof {
                                    lemma_overlay_agrees(low1, low2, bs, m1, b as nat);
                                    assert forall|b2: nat| #[trigger]
                                        cache_map(self.cache).dom().contains(b2) && !cache_map(
                                            self.cache,
                                        )[b2].1 implies cache_map(self.cache)[b2].0 == low2.subrange(
                                        (b2 * bs) as int,
                                        (b2 * bs + bs) as int,
                                    ) by {
                                        assert(b2 != b as nat);
                                        assert(m1.dom().contains(b2));
                                        assert(entry_ok(bs, low1.len(), b2, m1[b2]));
                                        lemma_agrees_preserves_block(low1, low2, bs, b as nat, b2);
                                    }
                                }
                                return Err(e);
                            },
                        }
                    }
                },
                None => {
                    proof {
                        assert(false);
                    }
                },
            }
            idx = idx + 1;
        }
        proof {
            assert forall|b2: nat| #[trigger]
                cache_map(self.cache).dom().contains(b2) implies !cache_map(self.cache)[b2].1 by {
                assert(nat_keys(keys@).contains(b2));
                let j = choose|j: int|
                    0 <= j < keys@.len() && nat_keys(keys@)[j] == b2;
                assert(nat_keys(keys@)[j] == keys@[j] as nat);
                assert(!cache_map(self.cache)[keys@[j] as nat].1);
            }
        }
        let fres = self.provider.flush();
        proof {
            if old(self).synced() {
                assert(*self == *old(self));
            }
        }
        match fres {
            Ok(()) => Ok(()),
            Err(e) => Err(e),
        }
    }
}

/// One aligned block write extends the spliced prefix by one block.
pub proof fn lemma_write_step(orig: Seq<u8>, offset: int, data: Seq<u8>, k: int, bs: int, got: Seq<u8>)
    requires
        bs >= 1,
        0 <= offset,
        offset % bs == 0,
        data.len() as int % bs == 0,
        0 <= k < data.len() as int / bs,
        offset + data.len() <= orig.len(),
        got == splice(
            splice(orig, offset, data.subrange(0, k * bs)),
            offset + k * bs,
            data.subrange(k * bs, k * bs + bs),
        ),
    ensures
        got == splice(orig, offset, data.subrange(0, (k + 1) * bs)),
{
    lemma_aligned_block(bs, offset, data.len() as int, k);
    assert((k + 1) * bs == k * bs + bs) by (nonlinear_arith);
    crate::seqs::lemma_splice_compose(
        orig,
        offset,
        data.subrange(0, k * bs),
        data.subrange(k * bs, k * bs + bs),
    );
    assert(data.subrange(0, k * bs) + data.subrange(k * bs, k * bs + bs) =~= data.subrange(
        0,
        (k + 1) * bs,
    ));
}

/// A partially applied aligned write stays inside the requested range.
pub proof fn lemma_splice_prefix_agrees(orig: Seq<u8>, offset: int, data: Seq<u8>, upto: int)
    requires
        0 <= upto <= data.len(),
    ensures
        agrees_outside(
            splice(orig, offset, data.subrange(0, upto)),
            orig,
            offset,
            offset + data.len() as int,
        ),
{
    crate::seqs::lemma_splice_agrees_outside(orig, offset, data.subrange(0, upto));
    crate::seqs::lemma_agrees_outside_widen(
        splice(orig, offset, data.subrange(0, upto)),
        orig,
        offset,
        offset + upto,
        offset,
        offset + data.len() as int,
    );
}

} // verus!

use vstd::prelude::*;
use vstd::arithmetic::div_mod::{lemma_fundamental_div_mod, lemma_fundamental_div_mod_converse};
use vstd::arithmetic::mul::lemma_mul_inequality;
use crate::request_ok;
use crate::seqs::{splice, agrees_outside};

verus! {

broadcast use vstd::std_specs::vec::axiom_spec_len;

/// The error a provider operation can report: the request was rejected before
/// touching lower layers, or a lower layer failed.
#[derive(Clone, Copy, Debug, PartialEq, Eq, Structural)]
pub enum IoError {
    InvalidInput,
    Io,
}

/// A block-granular random-access store.  `contents()` is the byte sequence a
/// client observes through `read`; `write` splices new bytes into it.  `synced()`
/// says that no buffered dirty state is pending anywhere in the stack, and
/// `infallible()` that operations on well-formed requests cannot fail.
pub trait CloudProvider: Sized {
    /// The defaults below let an unverified provider outside this crate
    /// implement only the executable methods; its `inv` is then `false`, so no
    /// verified caller can assume anything of it.
    open spec fn contents(&self) -> Seq<u8> {
        Seq::empty()
    }

    open spec fn block_size_spec(&self) -> nat {
        1
    }

    open spec fn inv(&self) -> bool {
        false
    }

    open spec fn synced(&self) -> bool {
        true
    }

    open spec fn infallible(&self) -> bool {
        false
    }

    /// The granularity at which a failed write may disturb the contents: even
    /// on error, bytes outside the scribble-aligned hull of the written range
    /// keep their values.  A read-modify-write layer reports its lower layer's
    /// block size here.
    open spec fn scribble_spec(&self) -> nat {
        1
    }

    proof fn lemma_inv(&self)
        requires
            self.inv(),
        ensures
            self.block_size_spec() >= 1,
            self.scribble_spec() >= 1,
            self.contents().len() <= usize::MAX,
    ;

    fn total_size(&self) -> (r: usize)
        requires
            self.inv(),
        ensures
            r == self.contents().len(),
    ;

    fn block_size(&self) -> (r: usize)
        requires
            self.inv(),
        ensures
            r == self.block_size_spec(),
            r >= 1,
    ;

    /// The unchecked read: the request must already be block-aligned and in
    /// bounds.  Fills `buf` with the bytes at `[offset, offset + buf.len())`.
    fn unsafe_read(&mut self, offset: usize, buf: &mut Vec<u8>) -> (r: Result<(), IoError>)
        requires
            old(self).inv(),
            request_ok(old(self).block_size_spec(), old(self).contents().len(), offset as nat, old(buf)@.len()),
        ensures
            final(self).inv(),
            final(self).contents() == old(self).contents(),
            final(self).block_size_spec() == old(self).block_size_spec(),
            final(self).infallible() == old(self).infallible(),
            final(self).scribble_spec() == old(self).scribble_spec(),
            final(buf)@.len() == old(buf)@.len(),
            r is Ok ==> final(buf)@ == old(self).contents().subrange(offset as int, offset + old(buf)@.len()),
            old(self).infallible() ==> r is Ok,
    ;

    /// The unchecked write: the request must already be block-aligned and in
    /// bounds.  On success the contents carry `buf` at `offset`.
    fn unsafe_write(&mut self, offset: usize, buf: &Vec<u8>, write_through: bool) -> (r: Result<(), IoError>)
        requires
            old(self).inv(),
            request_ok(old(self).block_size_spec(), old(self).contents().len(), offset as nat, buf@.len()),
        ensures
            final(self).inv(),
            final(self).contents().len() == old(self).contents().len(),
            final(self).block_size_spec() == old(self).block_size_spec(),
            final(self).infallible() == old(self).infallible(),
            final(self).scribble_spec() == old(self).scribble_spec(),
            agrees_outside(
                final(self).contents(),
                old(self).contents(),
                block_floor(offset as int, old(self).scribble_spec() as int),
                block_ceil(offset + buf@.len(), old(self).scribble_spec() as int),
            ),
            r is Ok ==> final(self).contents() == splice(old(self).contents(), offset as int, buf@),
            old(self).infallible() ==> r is Ok,
    ;

    /// Pushes every piece of buffered dirty state down to the authoritative
    /// store.  A provider with nothing pending is left exactly as it was.
    fn flush(&mut self) -> (r: Result<(), IoError>)
        requires
            old(self).inv(),
        ensures
            final(self).inv(),
            final(self).contents() == old(self).contents(),
            final(self).block_size_spec() == old(self).block_size_spec(),
            final(self).infallible() == old(self).infallible(),
            final(self).scribble_spec() == old(self).scribble_spec(),
            r is Ok ==> final(self).synced(),
            old(self).infallible() ==> r is Ok,
            old(self).synced() ==> *final(self) == *old(self),
    ;

    /// The checked read: rejects a misaligned or out-of-bounds request with
    /// `InvalidInput` without touching any lower layer.
    fn read(&mut self, offset: usize, buf: &mut Vec<u8>) -> (r: Result<(), IoError>)
        requires
            old(self).inv(),
        ensures
            final(self).inv(),
            final(self).contents() == old(self).contents(),
            final(self).block_size_spec() == old(self).block_size_spec(),
            final(self).infallible() == old(self).infallible(),
            final(buf)@.len() == old(buf)@.len(),
            !request_ok(old(self).block_size_spec(), old(self).contents().len(), offset as nat, old(buf)@.len())
                ==> r == Err::<(), IoError>(IoError::InvalidInput) && *final(self) == *old(self) && final(buf)@ == old(buf)@,
            r is Ok ==> request_ok(old(self).block_size_spec(), old(self).contents().len(), offset as nat, old(buf)@.len()),
            r is Ok ==> final(buf)@ == old(self).contents().subrange(offset as int, offset + old(buf)@.len()),
            old(self).infallible() && request_ok(old(self).block_size_spec(), old(self).contents().len(), offset as nat, old(buf)@.len())
                ==> r is Ok,
        {
            proof {
                old(self).lemma_inv();
            }
            let len = buf.len();
            if offset > usize::MAX - len {
                return Err(IoError::InvalidInput);
            }
            if !crate::bound_and_align_check(self.block_size(), self.total_size(), offset, len) {
                return Err(IoError::InvalidInput);
            }
            self.unsafe_read(offset, buf)
        }

    /// The checked write: rejects a misaligned or out-of-bounds request with
    /// `InvalidInput` without touching any lower layer.
    fn write(&mut self, offset: usize, buf: &Vec<u8>, write_through: bool) -> (r: Result<(), IoError>)
        requires
            old(self).inv(),
        ensures
            final(self).inv(),
            final(self).contents().len() == old(self).contents().len(),
            final(self).block_size_spec() == old(self).block_size_spec(),
            final(self).infallible() == old(self).infallible(),
            final(self).scribble_spec() == old(self).scribble_spec(),
            agrees_outside(
                final(self).contents(),
                old(self).contents(),
                block_floor(offset as int, old(self).scribble_spec() as int),
                block_ceil(offset + buf@.len(), old(self).scribble_spec() as int),
            ),
            !request_ok(old(self).block_size_spec(), old(self).contents().len(), offset as nat, buf@.len())
                ==> r == Err::<(), IoError>(IoError::InvalidInput) && *final(self) == *old(self),
            r is Ok ==> request_ok(old(self).block_size_spec(), old(self).contents().len(), offset as nat, buf@.len()),
            r is Ok ==> final(self).contents() == splice(old(self).contents(), offset as int, buf@),
            old(self).infallible() && request_ok(old(self).block_size_spec(), old(self).contents().len(), offset as nat, buf@.len())
                ==> r is Ok,
        {
            proof {
                old(self).lemma_inv();
            }
            let len = buf.len();
            if offset > usize::MAX - len {
                return Err(IoError::InvalidInput);
            }
            if !crate::bound_and_align_check(self.block_size(), self.total_size(), offset, len) {
                return Err(IoError::InvalidInput);
            }
            self.unsafe_write(offset, buf, write_through)
        }
}

/// `x` rounded down to a multiple of `g`.
pub open spec fn block_floor(x: int, g: int) -> int {
    (x / g) * g
}

/// `x` rounded up to a multiple of `g`.
pub open spec fn block_ceil(x: int, g: int) -> int {
    ((x + g - 1) / g) * g
}

/// The scribble hull contains the range it is built from.
pub proof fn lemma_hull_bounds(x: int, y: int, g: int)
    requires
        g >= 1,
        0 <= x,
        0 <= y,
    ensures
        block_floor(x, g) <= x,
        y <= block_ceil(y, g),
{
    lemma_fundamental_div_mod(x, g);
    lemma_fundamental_div_mod(y + g - 1, g);
    vstd::arithmetic::div_mod::lemma_mod_division_less_than_divisor(x, g);
    vstd::arithmetic::div_mod::lemma_mod_division_less_than_divisor(y + g - 1, g);
    assert((x / g) * g == g * (x / g)) by (nonlinear_arith);
    assert(((y + g - 1) / g) * g == g * ((y + g - 1) / g)) by (nonlinear_arith);
}

/// The hull of a multiple of `g` is that multiple itself.
pub proof fn lemma_hull_multiple(x: int, g: int)
    requires
        g >= 1,
        x >= 0,
        x % g == 0,
    ensures
        block_floor(x, g) == x,
        block_ceil(x, g) == x,
{
    lemma_fundamental_div_mod(x, g);
    let q = x / g;
    assert(x == g * q);
    assert(q * g == g * q) by (nonlinear_arith);
    lemma_fundamental_div_mod_converse(x + g - 1, g, q, g - 1);
    assert(((x + g - 1) / g) * g == g * q) by (nonlinear_arith)
        requires
            (x + g - 1) / g == q,
    ;
}

/// A whole block at a finer, dividing granularity is its own scribble hull.
pub proof fn lemma_hull_of_block(bs: int, g: int, b: int)
    requires
        bs >= 1,
        g >= 1,
        b >= 0,
        bs % g == 0,
    ensures
        block_floor(b * bs, g) == b * bs,
        block_ceil(b * bs + bs, g) == b * bs + bs,
{
    lemma_fundamental_div_mod(bs, g);
    let k = bs / g;
    assert(bs == g * k);
    assert(b * bs == g * (b * k) && b * bs + bs == g * (b * k + k)) by (nonlinear_arith)
        requires
            bs == g * k,
    ;
    assert(b * bs >= 0) by (nonlinear_arith)
        requires
            b >= 0,
            bs >= 1,
    ;
    vstd::arithmetic::div_mod::lemma_mod_multiples_basic(b * k, g);
    vstd::arithmetic::div_mod::lemma_mod_multiples_basic(b * k + k, g);
    assert((b * k) * g == g * (b * k) && (b * k + k) * g == g * (b * k + k)) by (nonlinear_arith);
    lemma_hull_multiple(b * bs, g);
    lemma_hull_multiple(b * bs + bs, g);
}

/// Helpers shared by every provider that decomposes requests into blocks.
pub trait CloudProviderExt: CloudProvider {
    /// The id of the block containing byte `offset`.
    fn block_index(&self, offset: usize) -> (r: usize)
        requires
            self.inv(),
        ensures
            r == offset as int / self.block_size_spec() as int,
        {
            proof {
                self.lemma_inv();
            }
            offset / self.block_size()
        }

    /// The block decomposition of a request at this provider's block size.
    fn block_range(&self, offset: usize, size: usize) -> (r: Vec<BlockSlice>)
        requires
            self.inv(),
            size >= 1,
            offset + size <= usize::MAX,
        ensures
            block_range_matches(self.block_size_spec() as int, offset as int, size as int, r@),
        {
            proof {
                self.lemma_inv();
            }
            crate::provider::block_range(self.block_size(), offset, size)
        }

    /// A zero-filled scratch buffer of one block.
    fn create_block_buffer(&self) -> (r: Vec<u8>)
        requires
            self.inv(),
        ensures
            r@.len() == self.block_size_spec(),
            crate::seqs::all_zero(r@),
        {
            proof {
                self.lemma_inv();
            }
            crate::seqs::zeroed_vec(self.block_size())
        }

    /// Reads one whole block, given by its id.
    fn unsafe_read_block(&mut self, block: usize, buf: &mut Vec<u8>) -> (r: Result<(), IoError>)
        requires
            old(self).inv(),
            old(buf)@.len() == old(self).block_size_spec(),
            (block + 1) * old(self).block_size_spec() <= old(self).contents().len(),
        ensures
            final(self).inv(),
            final(self).contents() == old(self).contents(),
            final(self).block_size_spec() == old(self).block_size_spec(),
            final(self).infallible() == old(self).infallible(),
            final(self).scribble_spec() == old(self).scribble_spec(),
            final(buf)@.len() == old(buf)@.len(),
            r is Ok ==> final(buf)@ == old(self).contents().subrange(
                block * old(self).block_size_spec(),
                block * old(self).block_size_spec() + old(self).block_size_spec(),
            ),
            old(self).infallible() ==> r is Ok,
        {
            proof {
                old(self).lemma_inv();
                lemma_block_request_ok(
                    old(self).block_size_spec() as int,
                    old(self).contents().len() as int,
                    block as int,
                );
            }
            let offset = block * self.block_size();
            self.unsafe_read(offset, buf)
        }

    /// Writes one whole block, given by its id.
    fn unsafe_write_block(&mut self, block: usize, buf: &Vec<u8>, write_through: bool) -> (r: Result<(), IoError>)
        requires
            old(self).inv(),
            buf@.len() == old(self).block_size_spec(),
            (block + 1) * old(self).block_size_spec() <= old(self).contents().len(),
        ensures
            final(self).inv(),
            final(self).contents().len() == old(self).contents().len(),
            final(self).block_size_spec() == old(self).block_size_spec(),
            final(self).infallible() == old(self).infallible(),
            final(self).scribble_spec() == old(self).scribble_spec(),
            agrees_outside(
                final(self).contents(),
                old(self).contents(),
                block_floor((block * old(self).block_size_spec()) as int, old(self).scribble_spec() as int),
                block_ceil(
                    (block * old(self).block_size_spec() + old(self).block_size_spec()) as int,
                    old(self).scribble_spec() as int,
                ),
            ),
            r is Ok ==> final(self).contents() == splice(
                old(self).contents(),
                block * old(self).block_size_spec(),
                buf@,
            ),
            old(self).infallible() ==> r is Ok,
        {
            proof {
                old(self).lemma_inv();
                lemma_block_request_ok(
                    old(self).block_size_spec() as int,
                    old(self).contents().len() as int,
                    block as int,
                );
            }
            let offset = block * self.block_size();
            self.unsafe_write(offset, buf, write_through)
        }
}

impl<T: CloudProvider> CloudProviderExt for T {

}

/// A whole-block request at `block * bs` of `bs` bytes is well formed whenever
/// the block lies inside the device.
pub proof fn lemma_block_request_ok(bs: int, total: int, block: int)
    requires
        bs >= 1,
        block >= 0,
        (block + 1) * bs <= total,
    ensures
        request_ok(bs as nat, total as nat, (block * bs) as nat, bs as nat),
        block * bs >= 0,
        block * bs + bs <= total,
{
    assert((block + 1) * bs == block * bs + bs) by (nonlinear_arith);
    assert(block * bs >= 0) by (nonlinear_arith)
        requires
            block >= 0,
            bs >= 0,
    ;
    vstd::arithmetic::div_mod::lemma_mod_multiples_basic(block, bs);
    vstd::arithmetic::div_mod::lemma_mod_self_0(bs);
}

/// One block touched by a request: `block` is the block id, `[block_lo,
/// block_hi)` the affected range within that block, and `[req_lo, req_hi)` the
/// corresponding range within the caller's buffer.
#[derive(Clone, Copy, Debug, PartialEq, Eq, Structural)]
pub struct BlockSlice {
    pub block: usize,
    pub block_lo: usize,
    pub block_hi: usize,
    pub req_lo: usize,
    pub req_hi: usize,
}

/// Number of blocks a request at `offset` of `size` bytes touches.
pub open spec fn num_blocks_touched(bs: int, offset: int, size: int) -> int {
    (offset + size - 1) / bs - offset / bs + 1
}

/// The global byte position where slice `k` of the request starts.
pub open spec fn slice_glo(bs: int, offset: int, k: int) -> int {
    if k == 0 {
        offset
    } else {
        (offset / bs + k) * bs
    }
}

/// The global byte position where slice `k` of the request ends.
pub open spec fn slice_ghi(bs: int, offset: int, size: int, k: int) -> int {
    if k == num_blocks_touched(bs, offset, size) - 1 {
        offset + size
    } else {
        (offset / bs + k + 1) * bs
    }
}

/// Slice `s` is the `k`-th block slice of the request `(offset, size)`.
pub open spec fn slice_matches(bs: int, offset: int, size: int, k: int, s: BlockSlice) -> bool {
    let b = offset / bs + k;
    let glo = slice_glo(bs, offset, k);
    let ghi = slice_ghi(bs, offset, size, k);
    &&& s.block == b
    &&& s.req_lo == glo - offset
    &&& s.req_hi == ghi - offset
    &&& s.block_lo == glo - b * bs
    &&& s.block_hi == ghi - b * bs
}

/// `r` is exactly the block decomposition of the request `(offset, size)`.
pub open spec fn block_range_matches(bs: int, offset: int, size: int, r: Seq<BlockSlice>) -> bool {
    &&& r.len() == num_blocks_touched(bs, offset, size)
    &&& forall|k: int| 0 <= k < r.len() ==> slice_matches(bs, offset, size, k, #[trigger] r[k])
}

/// Geometry of the `k`-th slice: it is a nonempty sub-range of both the request
/// and its block, the first slice starts at `offset`, the last ends at
/// `offset + size`, and consecutive slices are contiguous.
pub proof fn lemma_slice_geometry(bs: int, offset: int, size: int, k: int)
    requires
        bs >= 1,
        offset >= 0,
        size >= 1,
        0 <= k < num_blocks_touched(bs, offset, size),
    ensures
        ({
            let b = offset / bs + k;
            let glo = slice_glo(bs, offset, k);
            let ghi = slice_ghi(bs, offset, size, k);
            &&& b >= 0
            &&& offset <= glo < ghi <= offset + size
            &&& b * bs <= glo
            &&& ghi <= b * bs + bs
            &&& (k == 0 ==> glo == offset)
            &&& (k > 0 ==> glo == b * bs)
            &&& (k > 0 ==> slice_ghi(bs, offset, size, k - 1) == glo)
            &&& (k == num_blocks_touched(bs, offset, size) - 1 ==> ghi == offset + size)
            &&& (offset / bs + k + 1) * bs == b * bs + bs
            &&& (k < num_blocks_touched(bs, offset, size) - 1 ==> ghi == b * bs + bs)
        }),
{
    let first = offset / bs;
    let last = (offset + size - 1) / bs;
    let b = first + k;
    lemma_fundamental_div_mod(offset, bs);
    lemma_fundamental_div_mod(offset + size - 1, bs);
    vstd::arithmetic::div_mod::lemma_mod_division_less_than_divisor(offset, bs);
    vstd::arithmetic::div_mod::lemma_mod_division_less_than_divisor(offset + size - 1, bs);
    vstd::arithmetic::div_mod::lemma_div_pos_is_pos(offset, bs);
    // bs * first <= offset < bs * first + bs, and the same around offset + size - 1.
    assert(bs * first <= offset && offset < bs * first + bs);
    assert(bs * last <= offset + size - 1 && offset + size - 1 < bs * last + bs);
    // Express every product over the atoms bs * first, k * bs, (last - first) * bs.
    assert((first + k) * bs == bs * first + k * bs) by (nonlinear_arith);
    assert((first + k + 1) * bs == bs * first + k * bs + bs) by (nonlinear_arith);
    assert(bs * last == bs * first + (last - first) * bs) by (nonlinear_arith);
    if k > 0 {
        assert(k * bs >= bs) by (nonlinear_arith)
            requires
                k >= 1,
                bs >= 1,
        ;
    } else {
        assert(k * bs == 0) by (nonlinear_arith)
            requires
                k == 0,
        ;
    }
    if k < last - first {
        assert(k * bs + bs <= (last - first) * bs) by (nonlinear_arith)
            requires
                k + 1 <= last - first,
                bs >= 1,
        ;
    }
    if k == last - first {
        assert(k * bs == (last - first) * bs);
    }
    assert(k * bs <= (last - first) * bs);
}

/// Computes the block decomposition of a request: the touched blocks in
/// ascending order, each with its range inside the block and inside the
/// caller's buffer.
pub fn block_range(block_size: usize, offset: usize, size: usize) -> (r: Vec<BlockSlice>)
    requires
        block_size >= 1,
        size >= 1,
        offset + size <= usize::MAX,
    ensures
        block_range_matches(block_size as int, offset as int, size as int, r@),
{
    let ghost bs = block_size as int;
    let first: usize = offset / block_size;
    let last: usize = (offset + size - 1) / block_size;
    proof {
        assert(first <= last) by {
            vstd::arithmetic::div_mod::lemma_div_is_ordered(offset as int, offset + size - 1, bs);
        };
        assert(last - first + 1 == num_blocks_touched(bs, offset as int, size as int));
    }
    let n: usize = last - first + 1;
    let mut r: Vec<BlockSlice> = Vec::new();
    let mut k: usize = 0;
    while k < n
        invariant
            n == num_blocks_touched(bs, offset as int, size as int),
            first == offset as int / bs,
            last == (offset + size - 1) / bs,
            block_size == bs,
            block_size >= 1,
            size >= 1,
            offset + size <= usize::MAX,
            k <= n,
            first + n - 1 == last,
            r@.len() == k,
            forall|j: int| 0 <= j < k ==> slice_matches(bs, offset as int, size as int, j, #[trigger] r@[j]),
        decreases n - k,
    {
        proof {
            lemma_slice_geometry(bs, offset as int, size as int, k as int);
        }
        let b: usize = first + k;
        let bstart: usize = b * block_size;
        let glo: usize = if k == 0 { offset } else { bstart };
        let ghi: usize = if b == last { offset + size } else { bstart + block_size };
        let s = BlockSlice {
            block: b,
            block_lo: glo - bstart,
            block_hi: ghi - bstart,
            req_lo: glo - offset,
            req_hi: ghi - offset,
        };
        proof {
            assert(slice_matches(bs, offset as int, size as int, k as int, s));
        }
        r.push(s);
        k = k + 1;
    }
    r
}

} // verus!

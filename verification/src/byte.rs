use vstd::prelude::*;
use vstd::arithmetic::div_mod::{lemma_fundamental_div_mod, lemma_fundamental_div_mod_converse};
use vstd::arithmetic::mul::lemma_mul_inequality;
use crate::provider::{
    CloudProvider, CloudProviderExt, IoError, BlockSlice, block_range_matches, slice_matches,
    slice_glo, slice_ghi, num_blocks_touched, lemma_slice_geometry, block_floor, block_ceil,
};
use crate::seqs::{splice, agrees_outside, copy_bytes, subvec};

verus! {

broadcast use vstd::std_specs::vec::axiom_spec_len;

/// Exposes byte-granular reads and writes over a block-granular lower
/// provider, by slicing requests at block boundaries and using
/// read-modify-write for partial blocks.  The observable contents are exactly
/// the lower provider's contents.
pub struct ByteGranularityProvider<T: CloudProvider> {
    provider: T,
}

/// How many request bytes are settled after the first `idx` slices.
pub open spec fn done_upto(bs: int, offset: int, size: int, idx: int) -> int {
    if idx <= 0 {
        0
    } else {
        slice_ghi(bs, offset, size, idx - 1) - offset
    }
}

/// Rounding up to the divisor never passes a larger multiple.
pub proof fn lemma_ceil_le_multiple(x: int, m: int, g: int)
    requires
        g >= 1,
        0 <= x <= m,
        m % g == 0,
    ensures
        block_ceil(x, g) <= m,
{
    lemma_fundamental_div_mod(m, g);
    let q = m / g;
    assert(m == g * q);
    assert(g * q == q * g) by (nonlinear_arith);
    lemma_fundamental_div_mod_converse(m + g - 1, g, q, g - 1);
    vstd::arithmetic::div_mod::lemma_div_is_ordered(x + g - 1, m + g - 1, g);
    assert(((x + g - 1) / g) * g <= q * g) by (nonlinear_arith)
        requires
            (x + g - 1) / g <= q,
            g >= 1,
    ;
    assert(q * g == g * q) by (nonlinear_arith);
}

/// The scribble hull of a byte request at the lower block size is exactly the
/// touched blocks, and every touched block lies inside it.
pub proof fn lemma_hull_is_blocks(bs: int, offset: int, size: int, k: int)
    requires
        bs >= 1,
        offset >= 0,
        size >= 1,
        0 <= k < num_blocks_touched(bs, offset, size),
    ensures
        block_floor(offset, bs) == (offset / bs) * bs,
        block_ceil(offset + size, bs) == ((offset + size - 1) / bs + 1) * bs,
        block_floor(offset, bs) <= (offset / bs + k) * bs,
        (offset / bs + k) * bs + bs <= block_ceil(offset + size, bs),
{
    let first = offset / bs;
    let last = (offset + size - 1) / bs;
    let b = first + k;
    vstd::arithmetic::div_mod::lemma_div_plus_one(offset + size - 1, bs);
    assert((offset + size - 1 + bs) / bs == last + 1);
    lemma_mul_inequality(first, b, bs);
    lemma_mul_inequality(b + 1, last + 1, bs);
    assert((b + 1) * bs == b * bs + bs) by (nonlinear_arith);
}

/// Reading one more slice extends the prefix of the output buffer that
/// matches the contents.
pub proof fn lemma_read_seg(
    pre: Seq<u8>,
    got: Seq<u8>,
    view: Seq<u8>,
    offset: int,
    lo: int,
    hi: int,
    seg: Seq<u8>,
)
    requires
        0 <= offset,
        0 <= lo <= hi,
        hi <= pre.len(),
        offset + hi <= view.len(),
        seg.len() == hi - lo,
        got == splice(pre, lo, seg),
        pre.subrange(0, lo) == view.subrange(offset, offset + lo),
        seg == view.subrange(offset + lo, offset + hi),
    ensures
        got.subrange(0, hi) == view.subrange(offset, offset + hi),
{
    assert forall|j: int| 0 <= j < hi implies got.subrange(0, hi)[j] == view.subrange(
        offset,
        offset + hi,
    )[j] by {
        if j < lo {
            assert(pre.subrange(0, lo)[j] == view.subrange(offset, offset + lo)[j]);
        } else {
            assert(got[j] == seg[j - lo]);
            assert(seg[j - lo] == view.subrange(offset + lo, offset + hi)[j - lo]);
        }
    }
    assert(got.subrange(0, hi) =~= view.subrange(offset, offset + hi));
}

/// Writing one more slice extends the spliced prefix.
pub proof fn lemma_write_seg(orig: Seq<u8>, offset: int, data: Seq<u8>, lo: int, hi: int, got: Seq<u8>)
    requires
        0 <= offset,
        0 <= lo <= hi <= data.len(),
        offset + data.len() <= orig.len(),
        got == splice(splice(orig, offset, data.subrange(0, lo)), offset + lo, data.subrange(lo, hi)),
    ensures
        got == splice(orig, offset, data.subrange(0, hi)),
{
    crate::seqs::lemma_splice_compose(orig, offset, data.subrange(0, lo), data.subrange(lo, hi));
    assert(data.subrange(0, lo) + data.subrange(lo, hi) =~= data.subrange(0, hi));
}

/// Writing a read-modified block back equals writing just the modified bytes.
pub proof fn lemma_rmw_write(view: Seq<u8>, bs: int, b: int, glo: int, ghi: int, seg: Seq<u8>)
    requires
        bs >= 1,
        b >= 0,
        b * bs <= glo <= ghi <= b * bs + bs,
        b * bs + bs <= view.len(),
        seg.len() == ghi - glo,
    ensures
        splice(view, b * bs, splice(view.subrange(b * bs, b * bs + bs), glo - b * bs, seg))
            == splice(view, glo, seg),
{
    let block = view.subrange(b * bs, b * bs + bs);
    let modified = splice(block, glo - b * bs, seg);
    assert forall|i: int| 0 <= i < view.len() implies splice(view, b * bs, modified)[i] == splice(
        view,
        glo,
        seg,
    )[i] by {
        if b * bs <= i < b * bs + bs {
            assert(splice(view, b * bs, modified)[i] == modified[i - b * bs]);
        }
    }
    assert(splice(view, b * bs, modified) =~= splice(view, glo, seg));
}

impl<T: CloudProvider> ByteGranularityProvider<T> {
    /// Wraps a block-granular provider, leaving its contents unchanged but
    /// exposing a block size of one byte.  The lower provider's size must be a
    /// whole number of its blocks.
    pub fn new(provider: T) -> (r: ByteGranularityProvider<T>)
        requires
            provider.inv(),
            provider.block_size_spec() % provider.scribble_spec() == 0,
            provider.contents().len() % provider.block_size_spec() == 0,
        ensures
            r.inv(),
            r.contents() == provider.contents(),
            r.block_size_spec() == 1,
            r.synced() == provider.synced(),
            r.infallible() == provider.infallible(),
    {
        ByteGranularityProvider { provider }
    }

    /// The block size of the wrapped lower provider.
    pub closed spec fn lower_block_size(&self) -> nat {
        self.provider.block_size_spec()
    }

    /// The lower provider's block size, as an executable value.
    pub fn underlying_block_size(&self) -> (r: usize)
        requires
            self.inv(),
        ensures
            r == self.lower_block_size(),
            r >= 1,
    {
        self.provider.block_size()
    }

    /// The decomposition of a byte request into lower-provider block slices.
    pub fn underlying_block_range(&self, offset: usize, size: usize) -> (r: Vec<BlockSlice>)
        requires
            self.inv(),
            size >= 1,
            offset + size <= usize::MAX,
        ensures
            block_range_matches(self.lower_block_size() as int, offset as int, size as int, r@),
    {
        self.provider.block_range(offset, size)
    }
}

impl<T: CloudProvider> CloudProvider for ByteGranularityProvider<T> {
    closed spec fn contents(&self) -> Seq<u8> {
        self.provider.contents()
    }

    closed spec fn block_size_spec(&self) -> nat {
        1
    }

    closed spec fn inv(&self) -> bool {
        &&& self.provider.inv()
        &&& self.provider.block_size_spec() % self.provider.scribble_spec() == 0
        &&& self.provider.contents().len() % self.provider.block_size_spec() == 0
    }

    closed spec fn synced(&self) -> bool {
        self.provider.synced()
    }

    closed spec fn infallible(&self) -> bool {
        self.provider.infallible()
    }

    closed spec fn scribble_spec(&self) -> nat {
        self.provider.block_size_spec()
    }

    proof fn lemma_inv(&self) {
        assert(self.scribble_spec() == self.provider.block_size_spec());
        assert(self.block_size_spec() == 1);
        self.provider.lemma_inv();
    }

    fn total_size(&self) -> (r: usize) {
        self.provider.total_size()
    }

    fn block_size(&self) -> (r: usize) {
        1
    }

    fn unsafe_read(&mut self, offset: usize, buf: &mut Vec<u8>) -> (r: Result<(), IoError>) {
        proof {
            old(self).lemma_inv();
            old(self).provider.lemma_inv();
            crate::seqs::lemma_vec_len_fits(*old(buf));
        }
        let len = buf.len();
        if len == 0 {
            proof {
                assert(buf@ =~= old(self).contents().subrange(offset as int, offset as int));
            }
            return Ok(());
        }
        let ghost bsl = old(self).provider.block_size_spec() as int;
        let ranges = self.underlying_block_range(offset, len);
        let n = ranges.len();
        let mut idx: usize = 0;
        while idx < n
            invariant
                self.inv(),
                self.contents() == old(self).contents(),
                self.block_size_spec() == old(self).block_size_spec(),
                self.scribble_spec() == old(self).scribble_spec(),
                self.infallible() == old(self).infallible(),
                bsl == self.provider.block_size_spec(),
                bsl >= 1,
                len >= 1,
                len == old(buf)@.len(),
                buf@.len() == len,
                offset + len <= self.contents().len(),
                self.contents().len() <= usize::MAX,
                self.contents().len() % self.provider.block_size_spec() == 0,
                block_range_matches(bsl, offset as int, len as int, ranges@),
                n == ranges@.len(),
                idx <= n,
                buf@.subrange(0, done_upto(bsl, offset as int, len as int, idx as int))
                    == self.contents().subrange(
                    offset as int,
                    offset + done_upto(bsl, offset as int, len as int, idx as int),
                ),
            decreases n - idx,
        {
            proof {
                lemma_slice_geometry(bsl, offset as int, len as int, idx as int);
                lemma_hull_is_blocks(bsl, offset as int, len as int, idx as int);
                lemma_ceil_le_multiple(
                    offset + len,
                    self.contents().len() as int,
                    bsl,
                );
                assert(slice_matches(bsl, offset as int, len as int, idx as int, ranges@[idx as int]));
            }
            let s = ranges[idx];
            let seg_len = s.req_hi - s.req_lo;
            let ghost view = self.contents();
            let ghost pre_buf = buf@;
            let mut scratch = self.provider.create_block_buffer();
            let res = self.provider.unsafe_read_block(s.block, &mut scratch);
            match res {
                Ok(()) => {},
                Err(e) => {
                    return Err(e);
                },
            }
            copy_bytes(buf, s.req_lo, &scratch, s.block_lo, seg_len);
            proof {
                let glo = slice_glo(bsl, offset as int, idx as int);
                let ghi = slice_ghi(bsl, offset as int, len as int, idx as int);
                let b = s.block as int;
                assert(scratch@.subrange(s.block_lo as int, s.block_hi as int) =~= view.subrange(
                    offset + s.req_lo,
                    offset + s.req_hi,
                ));
                lemma_read_seg(
                    pre_buf,
                    buf@,
                    view,
                    offset as int,
                    s.req_lo as int,
                    s.req_hi as int,
                    scratch@.subrange(s.block_lo as int, s.block_hi as int),
                );
            }
            idx = idx + 1;
        }
        proof {
            vstd::arithmetic::div_mod::lemma_div_is_ordered(offset as int, offset + len - 1, bsl);
            assert(n >= 1);
            lemma_slice_geometry(bsl, offset as int, len as int, n - 1);
            assert(done_upto(bsl, offset as int, len as int, n as int) == len);
            assert(buf@.subrange(0, len as int) =~= buf@);
        }
        Ok(())
    }

    fn unsafe_write(&mut self, offset: usize, buf: &Vec<u8>, write_through: bool) -> (r: Result<
        (),
        IoError,
    >) {
        proof {
            old(self).lemma_inv();
            old(self).provider.lemma_inv();
            crate::seqs::lemma_vec_len_fits(*buf);
        }
        let len = buf.len();
        if len == 0 {
            proof {
                assert(buf@ =~= Seq::<u8>::empty());
                crate::seqs::lemma_splice_empty(old(self).contents(), offset as int);
            }
            return Ok(());
        }
        let ghost bsl = old(self).provider.block_size_spec() as int;
        let ghost hull_lo = block_floor(offset as int, bsl);
        let ghost hull_hi = block_ceil(offset + len, bsl);
        let bs_exec = self.provider.block_size();
        let ranges = self.underlying_block_range(offset, len);
        let n = ranges.len();
        let mut idx: usize = 0;
        while idx < n
            invariant
                self.inv(),
                self.block_size_spec() == old(self).block_size_spec(),
                self.scribble_spec() == old(self).scribble_spec(),
                self.infallible() == old(self).infallible(),
                self.contents().len() == old(self).contents().len(),
                bsl == self.provider.block_size_spec(),
                bs_exec == bsl,
                bsl >= 1,
                len >= 1,
                len == buf@.len(),
                offset + len <= self.contents().len(),
                self.contents().len() <= usize::MAX,
                self.contents().len() % self.provider.block_size_spec() == 0,
                block_range_matches(bsl, offset as int, len as int, ranges@),
                n == ranges@.len(),
                idx <= n,
                hull_lo == block_floor(offset as int, bsl),
                hull_hi == block_ceil(offset + len, bsl),
                self.contents() == splice(
                    old(self).contents(),
                    offset as int,
                    buf@.subrange(0, done_upto(bsl, offset as int, len as int, idx as int)),
                ),
                agrees_outside(self.contents(), old(self).contents(), hull_lo, hull_hi),
            decreases n - idx,
        {
            proof {
                lemma_slice_geometry(bsl, offset as int, len as int, idx as int);
                lemma_hull_is_blocks(bsl, offset as int, len as int, idx as int);
                lemma_ceil_le_multiple(offset + len, self.contents().len() as int, bsl);
                assert(slice_matches(bsl, offset as int, len as int, idx as int, ranges@[idx as int]));
                self.provider.lemma_inv();
                crate::provider::lemma_hull_of_block(
                    bsl,
                    self.provider.scribble_spec() as int,
                    ranges@[idx as int].block as int,
                );
            }
            let s = ranges[idx];
            let seg_len = s.req_hi - s.req_lo;
            let ghost view = self.contents();
            let ghost glo = slice_glo(bsl, offset as int, idx as int);
            let ghost ghi = slice_ghi(bsl, offset as int, len as int, idx as int);
            let ghost seg = buf@.subrange(s.req_lo as int, s.req_hi as int);
            if seg_len == bs_exec {
                // the slice covers the whole block: write it through directly
                let data = subvec(buf, s.req_lo, bs_exec);
                let wres = self.provider.unsafe_write_block(s.block, &data, write_through);
                match wres {
                    Ok(()) => {
                        proof {
                            assert(s.block_lo == 0 && glo == s.block as int * bsl);
                            lemma_write_seg(
                                old(self).contents(),
                                offset as int,
                                buf@,
                                s.req_lo as int,
                                s.req_hi as int,
                                self.contents(),
                            );
                            crate::seqs::lemma_splice_agrees_outside(view, glo, seg);
                            crate::seqs::lemma_agrees_outside_widen(
                                self.contents(),
                                view,
                                glo,
                                ghi,
                                hull_lo,
                                hull_hi,
                            );
                            crate::seqs::lemma_agrees_trans(
                                self.contents(),
                                view,
                                old(self).contents(),
                                hull_lo,
                                hull_hi,
                            );
                        }
                    },
                    Err(e) => {
                        proof {
                            crate::seqs::lemma_agrees_outside_widen(
                                self.contents(),
                                view,
                                s.block as int * bsl,
                                s.block as int * bsl + bsl,
                                hull_lo,
                                hull_hi,
                            );
                            crate::seqs::lemma_agrees_trans(
                                self.contents(),
                                view,
                                old(self).contents(),
                                hull_lo,
                                hull_hi,
                            );
                        }
                        return Err(e);
                    },
                }
            } else {
                // partial slice: read the block, modify the touched bytes, write back
                let mut scratch = self.provider.create_block_buffer();
                let rres = self.provider.unsafe_read_block(s.block, &mut scratch);
                match rres {
                    Ok(()) => {},
                    Err(e) => {
                        return Err(e);
                    },
                }
                copy_bytes(&mut scratch, s.block_lo, buf, s.req_lo, seg_len);
                proof {
                    assert(buf@.subrange(s.req_lo as int, s.req_lo + seg_len) == seg);
                }
                let wres = self.provider.unsafe_write_block(s.block, &scratch, write_through);
                match wres {
                    Ok(()) => {
                        proof {
                            let b = s.block as int;
                            lemma_rmw_write(view, bsl, b, glo, ghi, seg);
                            lemma_write_seg(
                                old(self).contents(),
                                offset as int,
                                buf@,
                                s.req_lo as int,
                                s.req_hi as int,
                                self.contents(),
                            );
                            crate::seqs::lemma_splice_agrees_outside(view, glo, seg);
                            crate::seqs::lemma_agrees_outside_widen(
                                self.contents(),
                                view,
                                glo,
                                ghi,
                                hull_lo,
                                hull_hi,
                            );
                            crate::seqs::lemma_agrees_trans(
                                self.contents(),
                                view,
                                old(self).contents(),
                                hull_lo,
                                hull_hi,
                            );
                        }
                    },
                    Err(e) => {
                        proof {
                            crate::seqs::lemma_agrees_outside_widen(
                                self.contents(),
                                view,
                                s.block as int * bsl,
                                s.block as int * bsl + bsl,
                                hull_lo,
                                hull_hi,
                            );
                            crate::seqs::lemma_agrees_trans(
                                self.contents(),
                                view,
                                old(self).contents(),
                                hull_lo,
                                hull_hi,
                            );
                        }
                        return Err(e);
                    },
                }
            }
            idx = idx + 1;
        }
        proof {
            vstd::arithmetic::div_mod::lemma_div_is_ordered(offset as int, offset + len - 1, bsl);
            assert(n >= 1);
            lemma_slice_geometry(bsl, offset as int, len as int, n - 1);
            assert(done_upto(bsl, offset as int, len as int, n as int) == len);
            assert(buf@.subrange(0, len as int) =~= buf@);
        }
        Ok(())
    }

    fn flush(&mut self) -> (r: Result<(), IoError>) {
        self.provider.flush()
    }
}

} // verus!

use vstd::prelude::*;

verus! {

broadcast use vstd::std_specs::vec::axiom_spec_len;

/// The sequence `v` with the bytes of `data` written at position `off`;
/// everything outside `[off, off + data.len())` is unchanged.  The length of
/// the result always equals the length of `v`.
pub open spec fn splice(v: Seq<u8>, off: int, data: Seq<u8>) -> Seq<u8> {
    Seq::new(v.len(), |i: int| if off <= i < off + data.len() { data[i - off] } else { v[i] })
}

/// `a` and `b` have the same length and agree on every position outside
/// `[lo, hi)`.
pub open spec fn agrees_outside(a: Seq<u8>, b: Seq<u8>, lo: int, hi: int) -> bool {
    &&& a.len() == b.len()
    &&& forall|i: int| 0 <= i < a.len() && !(lo <= i < hi) ==> #[trigger] a[i] == b[i]
}

/// A write touches nothing outside the written range.
pub proof fn lemma_splice_agrees_outside(v: Seq<u8>, off: int, data: Seq<u8>)
    ensures
        agrees_outside(splice(v, off, data), v, off, off + data.len() as int),
{
}

/// Every byte of `s` is zero.
pub open spec fn all_zero(s: Seq<u8>) -> bool {
    forall|i: int| 0 <= i < s.len() ==> s[i] == 0u8
}

/// Writing an empty sequence anywhere changes nothing.
pub proof fn lemma_splice_empty(v: Seq<u8>, off: int)
    ensures
        splice(v, off, Seq::<u8>::empty()) == v,
{
    assert(splice(v, off, Seq::<u8>::empty()) =~= v);
}

/// Reading back exactly the range just written returns the written data.
pub proof fn lemma_splice_subrange(v: Seq<u8>, off: int, data: Seq<u8>)
    requires
        0 <= off,
        off + data.len() <= v.len(),
    ensures
        splice(v, off, data).subrange(off, off + data.len() as int) == data,
{
    assert(splice(v, off, data).subrange(off, off + data.len() as int) =~= data);
}

/// Two adjacent writes are one write of the concatenation.
pub proof fn lemma_splice_compose(v: Seq<u8>, off: int, d1: Seq<u8>, d2: Seq<u8>)
    requires
        0 <= off,
        off + d1.len() + d2.len() <= v.len(),
    ensures
        splice(splice(v, off, d1), off + d1.len() as int, d2) == splice(v, off, d1 + d2),
{
    assert(splice(splice(v, off, d1), off + d1.len() as int, d2) =~= splice(v, off, d1 + d2));
}

/// The length of a vector always fits in `usize`.
pub proof fn lemma_vec_len_fits(v: Vec<u8>)
    ensures
        v@.len() <= usize::MAX,
{
    assert(vstd::std_specs::vec::spec_vec_len(&v) == v@.len());
}

/// Writing back bytes that are already there changes nothing.
pub proof fn lemma_splice_identity(v: Seq<u8>, off: int, data: Seq<u8>)
    requires
        0 <= off,
        off + data.len() <= v.len(),
        data == v.subrange(off, off + data.len() as int),
    ensures
        splice(v, off, data) == v,
{
    assert forall|i: int| 0 <= i < v.len() implies splice(v, off, data)[i] == v[i] by {
        if off <= i < off + data.len() {
            assert(data[i - off] == v.subrange(off, off + data.len() as int)[i - off]);
        }
    }
    assert(splice(v, off, data) =~= v);
}

/// Agreement outside a range still holds for any wider range.
pub proof fn lemma_agrees_outside_widen(a: Seq<u8>, b: Seq<u8>, lo: int, hi: int, lo2: int, hi2: int)
    requires
        agrees_outside(a, b, lo, hi),
        lo2 <= lo,
        hi <= hi2 || hi <= lo,
    ensures
        agrees_outside(a, b, lo2, hi2),
{
}

/// Splicing the same bytes over two bases that differ only inside the spliced
/// range gives the same result.
pub proof fn lemma_splice_agrees_bases(v1: Seq<u8>, v2: Seq<u8>, off: int, data: Seq<u8>)
    requires
        agrees_outside(v2, v1, off, off + data.len() as int),
    ensures
        splice(v2, off, data) == splice(v1, off, data),
{
    assert(splice(v2, off, data) =~= splice(v1, off, data));
}

/// Agreement outside a range is transitive.
pub proof fn lemma_agrees_trans(a: Seq<u8>, b: Seq<u8>, c: Seq<u8>, lo: int, hi: int)
    requires
        agrees_outside(a, b, lo, hi),
        agrees_outside(b, c, lo, hi),
    ensures
        agrees_outside(a, c, lo, hi),
{
}

/// A fresh, zero-filled buffer of the requested length.
pub fn zeroed_vec(len: usize) -> (r: Vec<u8>)
    ensures
        r@.len() == len,
        all_zero(r@),
{
    let r: Vec<u8> = vec![0u8; len];
    r
}

/// Copies `len` bytes from `src[src_off..]` into `dst[dst_off..]`, leaving the
/// rest of `dst` unchanged.
pub fn copy_bytes(dst: &mut Vec<u8>, dst_off: usize, src: &Vec<u8>, src_off: usize, len: usize)
    requires
        dst_off + len <= old(dst)@.len(),
        src_off + len <= src@.len(),
    ensures
        final(dst)@ == splice(old(dst)@, dst_off as int, src@.subrange(src_off as int, src_off + len)),
{
    let ghost target = splice(old(dst)@, dst_off as int, src@.subrange(src_off as int, src_off + len as int));
    proof {
        lemma_vec_len_fits(*old(dst));
        lemma_vec_len_fits(*src);
    }
    let mut i: usize = 0;
    while i < len
        invariant
            i <= len,
            old(dst)@.len() <= usize::MAX,
            src@.len() <= usize::MAX,
            dst_off + len <= dst@.len(),
            src_off + len <= src@.len(),
            dst@.len() == old(dst)@.len(),
            forall|j: int| 0 <= j < i ==> dst@[dst_off + j] == #[trigger] src@[src_off + j],
            forall|j: int| 0 <= j < dst@.len() && !(dst_off <= j < dst_off + i) ==> dst@[j] == old(dst)@[j],
        decreases len - i,
    {
        let b = src[src_off + i];
        dst[dst_off + i] = b;
        i = i + 1;
    }
    assert forall|k: int| 0 <= k < dst@.len() implies dst@[k] == target[k] by {
        if dst_off <= k < dst_off + len {
            assert(dst@[k] == src@[src_off + (k - dst_off)]);
        }
    }
    assert(dst@ =~= target);
}

/// Returns a copy of `src[off..off + len]`.
pub fn subvec(src: &Vec<u8>, off: usize, len: usize) -> (r: Vec<u8>)
    requires
        off + len <= src@.len(),
    ensures
        r@ == src@.subrange(off as int, off + len),
{
    proof {
        lemma_vec_len_fits(*src);
    }
    let mut r: Vec<u8> = Vec::new();
    let mut i: usize = 0;
    while i < len
        invariant
            i <= len,
            src@.len() <= usize::MAX,
            off + len <= src@.len(),
            r@ == src@.subrange(off as int, off + i),
        decreases len - i,
    {
        r.push(src[off + i]);
        assert(r@ =~= src@.subrange(off as int, off + i + 1));
        i = i + 1;
    }
    r
}

} // verus!

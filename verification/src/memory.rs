use vstd::prelude::*;
use crate::provider::{CloudProvider, IoError, lemma_hull_multiple};
use crate::seqs::{copy_bytes, zeroed_vec, all_zero, splice};

verus! {

/// A provider backed by a plain in-memory byte buffer; its contents are the
/// buffer itself, writes take effect immediately and `flush` is a no-op.
pub struct MemoryProvider {
    content: Vec<u8>,
    block_size: usize,
}

impl MemoryProvider {
    /// A zero-filled in-memory device of `size` bytes with the preferred
    /// block size.
    pub fn new(size: usize) -> (r: MemoryProvider)
        ensures
            r.inv(),
            r.contents().len() == size,
            all_zero(r.contents()),
            r.block_size_spec() == crate::nbd::PREFERRED_BLOCK_SIZE,
            r.scribble_spec() == 1,
            r.synced(),
            r.infallible(),
    {
        MemoryProvider { content: zeroed_vec(size), block_size: crate::nbd::PREFERRED_BLOCK_SIZE }
    }

    /// A zero-filled in-memory device with a caller-chosen block size.
    pub fn with_block_size(size: usize, block_size: usize) -> (r: MemoryProvider)
        requires
            block_size >= 1,
        ensures
            r.inv(),
            r.contents().len() == size,
            all_zero(r.contents()),
            r.block_size_spec() == block_size,
            r.scribble_spec() == 1,
            r.synced(),
            r.infallible(),
    {
        MemoryProvider { content: zeroed_vec(size), block_size }
    }
}

impl CloudProvider for MemoryProvider {
    closed spec fn contents(&self) -> Seq<u8> {
        self.content@
    }

    closed spec fn block_size_spec(&self) -> nat {
        self.block_size as nat
    }

    closed spec fn inv(&self) -> bool {
        self.block_size >= 1
    }

    closed spec fn synced(&self) -> bool {
        true
    }

    closed spec fn infallible(&self) -> bool {
        true
    }

    closed spec fn scribble_spec(&self) -> nat {
        1
    }

    proof fn lemma_inv(&self) {
        assert(self.scribble_spec() == 1nat);
        crate::seqs::lemma_vec_len_fits(self.content);
    }

    fn total_size(&self) -> (r: usize) {
        self.content.len()
    }

    fn block_size(&self) -> (r: usize) {
        self.block_size
    }

    fn unsafe_read(&mut self, offset: usize, buf: &mut Vec<u8>) -> (r: Result<(), IoError>) {
        let len = buf.len();
        copy_bytes(buf, 0, &self.content, offset, len);
        proof {
            assert(buf@ =~= old(self).contents().subrange(offset as int, offset + old(buf)@.len()));
        }
        Ok(())
    }

    fn unsafe_write(&mut self, offset: usize, buf: &Vec<u8>, _write_through: bool) -> (r: Result<(), IoError>) {
        let len = buf.len();
        copy_bytes(&mut self.content, offset, buf, 0, len);
        proof {
            assert(buf@.subrange(0, buf@.len() as int) =~= buf@);
            assert(self.contents() =~= splice(old(self).contents(), offset as int, buf@));
            crate::seqs::lemma_splice_agrees_outside(old(self).contents(), offset as int, buf@);
            lemma_hull_multiple(offset as int, 1);
            lemma_hull_multiple(offset + buf@.len(), 1);
        }
        Ok(())
    }

    fn flush(&mut self) -> (r: Result<(), IoError>) {
        Ok(())
    }
}

} // verus!

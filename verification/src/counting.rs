use vstd::prelude::*;
use crate::provider::{CloudProvider, IoError};

verus! {

/// A lower provider that records how many block writes and reads reach it,
/// without changing their behaviour.  Wrapped under a cache, it makes
/// write-back and flush behaviour observable.
pub struct CountingProvider<T: CloudProvider> {
    provider: T,
    writes: usize,
    reads: usize,
}

impl<T: CloudProvider> CountingProvider<T> {
    /// Wraps `provider` with write and read counters starting at zero.
    pub fn new(provider: T) -> (r: CountingProvider<T>)
        requires
            provider.inv(),
        ensures
            r.inv(),
            r.contents() == provider.contents(),
            r.block_size_spec() == provider.block_size_spec(),
            r.scribble_spec() == provider.scribble_spec(),
            r.synced() == provider.synced(),
            r.infallible() == provider.infallible(),
            r.write_count_spec() == 0,
            r.read_count_spec() == 0,
    {
        CountingProvider { provider, writes: 0, reads: 0 }
    }

    /// How many writes have reached this provider.
    pub closed spec fn write_count_spec(&self) -> nat {
        self.writes as nat
    }

    /// How many reads have reached this provider.
    pub closed spec fn read_count_spec(&self) -> nat {
        self.reads as nat
    }

    /// The number of writes recorded so far.
    pub fn write_count(&self) -> (r: usize)
        ensures
            r == self.write_count_spec(),
    {
        self.writes
    }

    /// The number of reads recorded so far.
    pub fn read_count(&self) -> (r: usize)
        ensures
            r == self.read_count_spec(),
    {
        self.reads
    }
}

impl<T: CloudProvider> CloudProvider for CountingProvider<T> {
    closed spec fn contents(&self) -> Seq<u8> {
        self.provider.contents()
    }

    closed spec fn block_size_spec(&self) -> nat {
        self.provider.block_size_spec()
    }

    closed spec fn inv(&self) -> bool {
        self.provider.inv()
    }

    closed spec fn synced(&self) -> bool {
        self.provider.synced()
    }

    closed spec fn infallible(&self) -> bool {
        self.provider.infallible()
    }

    closed spec fn scribble_spec(&self) -> nat {
        self.provider.scribble_spec()
    }

    proof fn lemma_inv(&self) {
        assert(self.scribble_spec() == self.provider.scribble_spec());
        self.provider.lemma_inv();
    }

    fn total_size(&self) -> (r: usize) {
        self.provider.total_size()
    }

    fn block_size(&self) -> (r: usize) {
        self.provider.block_size()
    }

    fn unsafe_read(&mut self, offset: usize, buf: &mut Vec<u8>) -> (r: Result<(), IoError>) {
        if self.reads < usize::MAX {
            self.reads = self.reads + 1;
        }
        let r = self.provider.unsafe_read(offset, buf);
        proof {
            assert(self.scribble_spec() == self.provider.scribble_spec());
            assert(old(self).scribble_spec() == old(self).provider.scribble_spec());
        }
        r
    }

    fn unsafe_write(&mut self, offset: usize, buf: &Vec<u8>, write_through: bool) -> (r: Result<
        (),
        IoError,
    >) {
        if self.writes < usize::MAX {
            self.writes = self.writes + 1;
        }
        let r = self.provider.unsafe_write(offset, buf, write_through);
        proof {
            assert(self.scribble_spec() == self.provider.scribble_spec());
            assert(old(self).scribble_spec() == old(self).provider.scribble_spec());
        }
        r
    }

    fn flush(&mut self) -> (r: Result<(), IoError>) {
        let r = self.provider.flush();
        proof {
            assert(self.scribble_spec() == self.provider.scribble_spec());
            assert(old(self).scribble_spec() == old(self).provider.scribble_spec());
        }
        r
    }
}

} // verus!

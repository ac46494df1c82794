//! Where a response is written: a growing buffer, or one of fixed size.

use vstd::prelude::*;

verus! {

/// The size of a response buffer.
pub const RESPONSE_SIZE: usize = 8192;

/// Why bytes could not be written.
#[derive(Clone, Copy, Debug, PartialEq, Eq, Structural)]
pub enum WriteError {
    /// The buffer has no room for all of them.
    BufferFull,
}

/// Whether `bytes` go into a buffer of that capacity; every one does where the
/// capacity is not limited.
pub open spec fn fits(capacity: Option<nat>, bytes: Seq<u8>) -> bool {
    match capacity {
        Some(n) => bytes.len() <= n,
        None => true,
    }
}

/// As much of `bytes` as goes into a buffer of that capacity.
pub open spec fn clipped(capacity: Option<nat>, bytes: Seq<u8>) -> Seq<u8> {
    if fits(capacity, bytes) {
        bytes
    } else {
        bytes.take(capacity->0 as int)
    }
}

/// A buffer that bytes are written to, one after the other.
pub trait ByteSink: Sized {
    /// Whether the buffer is in order.
    spec fn wf(&self) -> bool;

    /// The bytes written so far.
    spec fn written(&self) -> Seq<u8>;

    /// How many bytes can be written in all, if that is limited.
    spec fn capacity(&self) -> Option<nat>;

    /// Writes all of `bytes`, or as much as there is room for and an error.
    fn write_all(&mut self, bytes: &[u8]) -> (r: Result<(), WriteError>)
        requires
            old(self).wf(),
        ensures
            final(self).wf(),
            final(self).capacity() == old(self).capacity(),
            final(self).written() == clipped(old(self).capacity(), old(self).written() + bytes@),
            r is Ok <==> fits(old(self).capacity(), old(self).written() + bytes@),
    ;

    /// Passes on what was written. A buffer in memory has nowhere to pass it.
    fn flush(&mut self) -> (r: Result<(), WriteError>)
        requires
            old(self).wf(),
        ensures
            *final(self) == *old(self),
            r is Ok,
    ;
}

impl ByteSink for Vec<u8> {
    open spec fn wf(&self) -> bool {
        true
    }

    open spec fn written(&self) -> Seq<u8> {
        self@
    }

    open spec fn capacity(&self) -> Option<nat> {
        None
    }

    fn write_all(&mut self, bytes: &[u8]) -> (r: Result<(), WriteError>) {
        self.extend_from_slice(bytes);
        assert(self@ =~= old(self)@ + bytes@);
        Ok(())
    }

    fn flush(&mut self) -> (r: Result<(), WriteError>) {
        Ok(())
    }
}

/// A buffer of fixed size, filled from the start; the rest of it is zero.
pub struct ResponseBuf {
    pub bytes: [u8; RESPONSE_SIZE],
    pub len: usize,
}

impl ResponseBuf {
    /// An empty buffer.
    pub fn new() -> (r: Self)
        ensures
            r.wf(),
            r.written() == Seq::<u8>::empty(),
            r.capacity() == Some(RESPONSE_SIZE as nat),
    {
        let r = ResponseBuf { bytes: [0u8; RESPONSE_SIZE], len: 0 };
        assert(r.written() =~= Seq::<u8>::empty());
        r
    }
}

impl ByteSink for ResponseBuf {
    open spec fn wf(&self) -> bool {
        &&& self.len <= RESPONSE_SIZE
        &&& forall|i: int| self.len <= i < RESPONSE_SIZE ==> #[trigger] self.bytes@[i] == 0
    }

    open spec fn written(&self) -> Seq<u8> {
        self.bytes@.take(self.len as int)
    }

    open spec fn capacity(&self) -> Option<nat> {
        Some(RESPONSE_SIZE as nat)
    }

    fn write_all(&mut self, bytes: &[u8]) -> (r: Result<(), WriteError>) {
        let ghost all = self.written() + bytes@;
        let start: usize = self.len;
        let mut i: usize = 0;
        while i < bytes.len() && self.len < RESPONSE_SIZE
            invariant
                self.wf(),
                i <= bytes@.len(),
                self.len == start + i,
                start + bytes@.len() == all.len(),
                all.skip(start as int) == bytes@,
                self.written() == all.take(self.len as int),
            decreases bytes@.len() - i,
        {
            assert(all.skip(start as int)[i as int] == all[start + i]);
            let ghost before = self.written();
            self.bytes[self.len] = bytes[i];
            self.len = self.len + 1;
            i = i + 1;
            assert(self.written() =~= before.push(bytes@[i - 1]));
            assert(all.take(self.len as int) =~= all.take(self.len - 1).push(bytes@[i - 1]));
        }
        if i == bytes.len() {
            assert(all.take(self.len as int) =~= all);
            Ok(())
        } else {
            Err(WriteError::BufferFull)
        }
    }

    fn flush(&mut self) -> (r: Result<(), WriteError>) {
        Ok(())
    }
}

} // verus!

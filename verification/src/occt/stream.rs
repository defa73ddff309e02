//! The Rust ends of the byte-stream bridges the geometry backend reads from and
//! writes to. The backend holds one of these behind an opaque pointer for the length
//! of one synchronous call and pulls or pushes bytes through it.

use vstd::prelude::*;

verus! {

/// The reader a backend read pulls its bytes from, borrowed for the length of the call.
pub struct RustReader<'a, R> {
    inner: &'a mut R,
}

impl<'a, R> RustReader<'a, R> {
    /// The reader, as handed to the bridge.
    pub closed spec fn reader(&self) -> R {
        *self.inner
    }

    /// Wraps `reader` for the bridge; the borrow keeps it alive for as long as the bridge.
    pub fn from_ref(reader: &'a mut R) -> (r: Self)
        ensures
            r.reader() == *old(reader),
    {
        RustReader { inner: reader }
    }

    /// The wrapped reader, for the bridge's callback to read from.
    pub fn source(&mut self) -> (r: &mut R)
        ensures
            *r == old(self).reader(),
            final(self).reader() == *final(r),
    {
        &mut *self.inner
    }
}

/// The writer a backend write pushes its bytes into, borrowed for the length of the call.
pub struct RustWriter<'a, W> {
    inner: &'a mut W,
}

impl<'a, W> RustWriter<'a, W> {
    /// The writer, as handed to the bridge.
    pub closed spec fn writer(&self) -> W {
        *self.inner
    }

    /// Wraps `writer` for the bridge; the borrow keeps it alive for as long as the bridge.
    pub fn from_ref(writer: &'a mut W) -> (r: Self)
        ensures
            r.writer() == *old(writer),
    {
        RustWriter { inner: writer }
    }

    /// The wrapped writer, for the bridge's callback to write into.
    pub fn sink(&mut self) -> (r: &mut W)
        ensures
            *r == old(self).writer(),
            final(self).writer() == *final(r),
    {
        &mut *self.inner
    }
}

} // verus!

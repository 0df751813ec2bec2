//! The output buffer: bytes in the order in which they are written, and the
//! capacity that is kept for more.
use vstd::prelude::*;

verus! {

/// The least capacity that a buffer starts with.
pub const MIN_CAP: usize = 64;

/// Bytes written so far.
pub struct Out {
    buf: Vec<u8>,
    cap: usize,
}

pub open spec fn max_int(a: int, b: int) -> int {
    if a >= b {
        a
    } else {
        b
    }
}

/// The capacity for an output that is expected to have `hint` bytes: an eighth
/// more than that, and at least `MIN_CAP`.
pub open spec fn initial_cap(hint: int) -> int {
    max_int(hint + hint / 8, MIN_CAP as int)
}

/// The capacity after `n` more bytes did not fit: room for them, and at least
/// twice what there was, within the range of `usize`.
pub open spec fn grown_cap(len: int, cap: int, n: int) -> int {
    let want = max_int(len + n, 2 * cap);
    if want <= usize::MAX {
        want
    } else {
        usize::MAX as int
    }
}

/// The capacity after room for `n` more bytes was made.
pub open spec fn reserved_cap(len: int, cap: int, n: int) -> int {
    if cap - len < n {
        grown_cap(len, cap, n)
    } else {
        cap
    }
}

impl View for Out {
    type V = Seq<u8>;

    closed spec fn view(&self) -> Seq<u8> {
        self.buf@
    }
}

impl Out {
    /// The number of bytes that fit before the buffer grows.
    pub closed spec fn capacity(&self) -> int {
        max_int(self.cap as int, self.buf@.len() as int)
    }

    /// An empty buffer. `hint` is the size of the output that is expected, such as
    /// the size of the one before.
    pub fn new(hint: usize) -> (r: Out)
        requires
            initial_cap(hint as int) <= usize::MAX,
        ensures
            r@ == Seq::<u8>::empty(),
            r.capacity() == initial_cap(hint as int),
    {
        let more: usize = hint + hint / 8;
        let cap: usize = if more >= MIN_CAP { more } else { MIN_CAP };
        Out { buf: Vec::with_capacity(cap), cap }
    }

    pub fn len(&self) -> (n: usize)
        ensures
            n == self@.len(),
    {
        self.buf.len()
    }

    /// Forgets everything after the first `len` bytes; the capacity stays.
    pub fn set_len(&mut self, len: usize)
        requires
            len <= old(self)@.len(),
        ensures
            final(self)@ == old(self)@.subrange(0, len as int),
            final(self).capacity() == old(self).capacity(),
    {
        if self.cap < self.buf.len() {
            self.cap = self.buf.len();
        }
        self.buf.truncate(len);
    }

    /// Makes room for `n` more bytes.
    pub fn reserve(&mut self, n: usize)
        ensures
            final(self)@ == old(self)@,
            final(self).capacity() == reserved_cap(
                old(self)@.len() as int,
                old(self).capacity(),
                n as int,
            ),
    {
        if self.cap < self.buf.len() || self.cap - self.buf.len() < n {
            if n > 0 {
                self.grow(n);
            }
        }
    }

    fn grow(&mut self, n: usize)
        ensures
            final(self)@ == old(self)@,
            final(self).capacity() == grown_cap(
                old(self)@.len() as int,
                old(self).capacity(),
                n as int,
            ),
    {
        let need: usize = self.buf.len().saturating_add(n);
        let cap: usize = if self.cap >= self.buf.len() { self.cap } else { self.buf.len() };
        let twice: usize = cap.saturating_add(cap);
        let want: usize = if need >= twice { need } else { twice };
        self.buf.reserve(want - self.buf.len());
        self.cap = want;
    }

    pub fn push(&mut self, b: u8)
        ensures
            final(self)@ == old(self)@.push(b),
            final(self).capacity() == reserved_cap(
                old(self)@.len() as int,
                old(self).capacity(),
                1,
            ),
    {
        self.reserve(1);
        self.buf.push(b);
        assert(self.buf@.len() == self.buf.len() <= usize::MAX);
    }

    pub fn extend_from_slice(&mut self, s: &[u8])
        ensures
            final(self)@ == old(self)@ + s@,
            final(self).capacity() == reserved_cap(
                old(self)@.len() as int,
                old(self).capacity(),
                s@.len() as int,
            ),
    {
        self.reserve(s.len());
        self.buf.extend_from_slice(s);
        assert(self.buf@.len() == self.buf.len() <= usize::MAX);
    }

    /// The bytes written.
    pub fn finish(self) -> (r: Vec<u8>)
        ensures
            r@ == self@,
    {
        self.buf
    }
}

} // verus!

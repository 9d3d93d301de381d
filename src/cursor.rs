//! An in-memory, seekable byte sink.
use vstd::prelude::*;

verus! {

/// Why a write to a [`Cursor`] was refused.
#[derive(Debug, Clone, Copy, PartialEq, Eq, Structural)]
pub enum SinkError {
    /// The write would end past the largest position a `usize` can hold.
    PositionOverflow,
}

/// `s` after writing `d` at position `at`: bytes under `d` are replaced, the
/// sequence grows where `d` runs past its end, and a gap between the old end and
/// `at` is filled with zeros.
pub open spec fn write_at(s: Seq<u8>, at: nat, d: Seq<u8>) -> Seq<u8> {
    Seq::new(
        if s.len() < at + d.len() { at + d.len() } else { s.len() },
        |i: int|
            if at <= i < at + d.len() {
                d[i - at]
            } else if i < s.len() {
                s[i]
            } else {
                0u8
            },
    )
}

/// What was written at `at` reads back from there.
pub proof fn lemma_write_at_reads_back(s: Seq<u8>, at: nat, d: Seq<u8>)
    ensures
        write_at(s, at, d).subrange(at as int, (at + d.len()) as int) == d,
        write_at(s, at, d).len() >= at + d.len(),
{
    assert(write_at(s, at, d).subrange(at as int, (at + d.len()) as int) =~= d);
}

/// A byte buffer with a current position, where writes overwrite and extend.
pub struct Cursor {
    inner: Vec<u8>,
    pos: usize,
}

impl Cursor {
    /// The bytes held.
    pub closed spec fn data(&self) -> Seq<u8> {
        self.inner@
    }

    /// The position at which the next write starts.
    pub closed spec fn pos(&self) -> nat {
        self.pos as nat
    }

    /// A cursor over `inner`, positioned at its start.
    pub fn new(inner: Vec<u8>) -> (r: Cursor)
        ensures
            r.data() == inner@,
            r.pos() == 0,
    {
        Cursor { inner, pos: 0 }
    }

    /// The current position.
    pub fn position(&self) -> (r: usize)
        ensures
            r == self.pos(),
    {
        self.pos
    }

    /// Moves to the absolute position `pos`; the bytes stay as they are.
    pub fn set_position(&mut self, pos: usize)
        ensures
            final(self).data() == old(self).data(),
            final(self).pos() == pos,
    {
        self.pos = pos;
    }

    /// Writes all of `buf` at the current position and moves past it. Refused,
    /// with nothing changed, when the end of the write would not fit in a `usize`.
    pub fn write_all(&mut self, buf: &[u8]) -> (r: Result<(), SinkError>)
        ensures
            old(self).pos() + buf@.len() <= usize::MAX <==> r is Ok,
            r is Ok ==> final(self).data() == write_at(old(self).data(), old(self).pos(), buf@)
                && final(self).pos() == old(self).pos() + buf@.len(),
            r is Err ==> r == Err::<(), SinkError>(SinkError::PositionOverflow)
                && *final(self) == *old(self),
    {
        if buf.len() > usize::MAX - self.pos {
            return Err(SinkError::PositionOverflow);
        }
        let ghost s0 = self.inner@;
        let ghost p0 = self.pos as nat;
        while self.inner.len() < self.pos
            invariant
                self.pos == p0,
                s0.len() <= self.inner@.len(),
                self.inner@.len() <= p0 || self.inner@.len() == s0.len(),
                forall|i: int|
                    0 <= i < self.inner@.len() ==> self.inner@[i] == (if i < s0.len() {
                        s0[i]
                    } else {
                        0u8
                    }),
            decreases p0 - self.inner@.len(),
        {
            self.inner.push(0u8);
        }
        let mut k: usize = 0;
        while k < buf.len()
            invariant
                k <= buf@.len(),
                p0 + buf@.len() <= usize::MAX,
                self.pos == p0 + k,
                p0 <= self.inner@.len(),
                self.inner@.len() == (if s0.len() < p0 + k {
                    (p0 + k) as nat
                } else {
                    s0.len()
                }),
                forall|i: int|
                    0 <= i < self.inner@.len() ==> self.inner@[i] == (if p0 <= i < p0 + k {
                        buf@[i - p0]
                    } else if i < s0.len() {
                        s0[i]
                    } else {
                        0u8
                    }),
            decreases buf@.len() - k,
        {
            if self.pos < self.inner.len() {
                self.inner.set(self.pos, buf[k]);
            } else {
                self.inner.push(buf[k]);
            }
            self.pos = self.pos + 1;
            k = k + 1;
        }
        assert(self.inner@ =~= write_at(s0, p0, buf@));
        Ok(())
    }

    /// The bytes held.
    pub fn get_ref(&self) -> (r: &Vec<u8>)
        ensures
            r@ == self.data(),
    {
        &self.inner
    }

    /// Gives up the cursor and returns its bytes.
    pub fn into_inner(self) -> (r: Vec<u8>)
        ensures
            r@ == self.data(),
    {
        self.inner
    }
}

} // verus!

//! A byte source in memory.
use crate::error::IoError;
use vstd::prelude::*;

verus! {

/// A place in a row of bytes.
#[verifier::ext_equal]
pub struct Source {
    pub data: Seq<u8>,
    pub pos: nat,
}

impl Source {
    /// The number of bytes ahead.
    pub open spec fn remaining(self) -> int {
        self.data.len() - self.pos
    }

    /// The place `n` bytes further on.
    pub open spec fn advance(self, n: int) -> Source {
        Source { pos: (self.pos + n) as nat, ..self }
    }

    /// The place behind the last byte.
    pub open spec fn end(self) -> Source {
        Source { pos: self.data.len(), ..self }
    }

    /// The next `n` bytes.
    pub open spec fn next(self, n: int) -> Seq<u8> {
        self.data.subrange(self.pos as int, self.pos + n)
    }

    /// All bytes ahead.
    pub open spec fn rest(self) -> Seq<u8> {
        self.next(self.remaining())
    }

    /// The same bytes are ahead of two places.
    pub open spec fn agrees(self, other: Source) -> bool {
        &&& self.remaining() >= 0
        &&& other.remaining() >= 0
        &&& self.rest() == other.rest()
    }
}

/// Places with the same bytes ahead still have after as many bytes.
pub proof fn lemma_agrees_advance(s: Source, t: Source, n: int)
    requires
        s.agrees(t),
        0 <= n <= s.remaining(),
    ensures
        s.remaining() == t.remaining(),
        s.next(n) == t.next(n),
        s.advance(n).agrees(t.advance(n)),
        s.end().agrees(t.end()),
{
    assert(s.rest().len() == s.remaining());
    assert(t.rest().len() == t.remaining());
    assert(s.next(n) =~= s.rest().take(n));
    assert(t.next(n) =~= t.rest().take(n));
    assert(s.advance(n).rest() =~= s.rest().skip(n));
    assert(t.advance(n).rest() =~= t.rest().skip(n));
    assert(s.end().rest() =~= t.end().rest());
}

/// Reads bytes from memory, front to back.
#[derive(Debug)]
pub struct ByteReader {
    data: Vec<u8>,
    pos: usize,
}

impl View for ByteReader {
    type V = Source;

    closed spec fn view(&self) -> Source {
        Source { data: self.data@, pos: self.pos as nat }
    }
}

impl ByteReader {
    /// The place is inside the data or at its end.
    pub closed spec fn wf(&self) -> bool {
        self.pos <= self.data@.len()
    }

    /// The place never leaves the data, and the data fits in memory.
    pub proof fn lemma_wf(&self)
        requires
            self.wf(),
        ensures
            self@.remaining() >= 0,
            self@.data.len() <= usize::MAX,
    {
        assert(self.data.len() == self.data@.len());
    }

    /// A reader at the first byte of `data`.
    pub fn new(data: Vec<u8>) -> (r: Self)
        ensures
            r.wf(),
            r@ == (Source { data: data@, pos: 0 }),
    {
        Self { data, pos: 0 }
    }

    /// How many bytes have been read.
    pub fn position(&self) -> (n: usize)
        requires
            self.wf(),
        ensures
            n == self@.pos,
    {
        self.pos
    }

    /// How many bytes are ahead.
    pub fn remaining(&self) -> (n: usize)
        requires
            self.wf(),
        ensures
            n == self@.remaining(),
    {
        self.data.len() - self.pos
    }

    /// Reads the next `n` bytes. Where fewer are ahead, it skips them and fails.
    pub fn read_exact(&mut self, n: usize) -> (r: Result<Vec<u8>, IoError>)
        requires
            old(self).wf(),
        ensures
            final(self).wf(),
            match r {
                Ok(bytes) => {
                    &&& n <= old(self)@.remaining()
                    &&& bytes@ == old(self)@.next(n as int)
                    &&& final(self)@ == old(self)@.advance(n as int)
                },
                Err(e) => {
                    &&& n > old(self)@.remaining()
                    &&& e == IoError::UnexpectedEof
                    &&& final(self)@ == old(self)@.end()
                },
            },
    {
        if self.data.len() - self.pos < n {
            self.pos = self.data.len();
            return Err(IoError::UnexpectedEof);
        }
        let mut bytes: Vec<u8> = Vec::with_capacity(n);
        for i in 0..n
            invariant
                self.pos + n <= self.data.len(),
                bytes@ == self@.next(i as int),
        {
            bytes.push(self.data[self.pos + i]);
            assert(bytes@ =~= self@.next(i + 1));
        }
        self.pos = self.pos + n;
        Ok(bytes)
    }

    /// Goes back `n` bytes.
    pub fn seek_back(&mut self, n: usize)
        requires
            old(self).wf(),
            n <= old(self)@.pos,
        ensures
            final(self).wf(),
            final(self)@ == old(self)@.advance(-n),
    {
        self.pos = self.pos - n;
    }
}

} // verus!

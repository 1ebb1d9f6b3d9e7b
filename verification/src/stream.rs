//! A byte buffer with a cursor, read and written in little-endian order.

use vstd::prelude::*;

use crate::bytes::{le_bytes, le_value, read_le, splice, write_le};
use crate::bytes::{lemma_le_bytes_len, law_le_roundtrip, lemma_le_value_frame, lemma_pow256_facts};
use crate::bytes::lemma_le_value_bound;
use crate::error::Error;

verus! {

/// A byte buffer and a cursor into it.
pub struct BinaryStream {
    data: Vec<u8>,
    pos: u64,
}

/// Whether `n` bytes starting at `pos` lie inside `s`.
pub open spec fn in_bounds(s: Seq<u8>, pos: int, n: nat) -> bool {
    0 <= pos && pos + n <= s.len()
}

impl BinaryStream {
    /// The bytes of the stream.
    pub closed spec fn bytes(&self) -> Seq<u8> {
        self.data@
    }

    /// The cursor.
    pub closed spec fn pos(&self) -> nat {
        self.pos as nat
    }

    /// A stream over `data` with the cursor at 0.
    pub fn new(data: Vec<u8>) -> (s: Self)
        ensures
            s.bytes() == data@,
            s.pos() == 0,
    {
        BinaryStream { data, pos: 0 }
    }

    /// Moves the cursor to `p`, which may lie past the end.
    pub fn set_position(&mut self, p: u64)
        ensures
            final(self).bytes() == old(self).bytes(),
            final(self).pos() == p,
    {
        self.pos = p;
    }

    /// The cursor.
    pub fn position(&self) -> (p: u64)
        ensures
            p == self.pos(),
    {
        self.pos
    }

    /// The number of bytes in the stream.
    pub fn len(&self) -> (n: usize)
        ensures
            n == self.bytes().len(),
    {
        self.data.len()
    }

    /// The bytes of the stream.
    pub fn data(&self) -> (d: &[u8])
        ensures
            d@ == self.bytes(),
    {
        self.data.as_slice()
    }

    /// Whether `n` bytes are left after the cursor.
    fn has_room(&self, n: usize) -> (b: bool)
        ensures
            b == in_bounds(self.bytes(), self.pos() as int, n as nat),
            self.bytes().len() <= usize::MAX,
    {
        let len = self.data.len() as u64;
        self.pos <= len && n as u64 <= len - self.pos
    }

    /// Reads `n <= 8` bytes at the cursor as a little-endian integer and moves past them.
    fn read_le(&mut self, n: usize) -> (r: Result<u64, Error>)
        requires
            n <= 8,
        ensures
            final(self).bytes() == old(self).bytes(),
            match r {
                Ok(v) => {
                    &&& in_bounds(old(self).bytes(), old(self).pos() as int, n as nat)
                    &&& v == le_value(old(self).bytes(), old(self).pos() as int, n as nat)
                    &&& final(self).pos() == old(self).pos() + n
                },
                Err(e) => {
                    &&& !in_bounds(old(self).bytes(), old(self).pos() as int, n as nat)
                    &&& e == Error::EndOfStream
                    &&& final(self).pos() == old(self).pos()
                },
            },
    {
        if !self.has_room(n) {
            return Err(Error::EndOfStream);
        }
        let p = self.pos as usize;
        let v = read_le(self.data.as_slice(), p, n);
        self.pos = self.pos + n as u64;
        Ok(v)
    }

    /// Reads a byte.
    pub fn read_u8(&mut self) -> (r: Result<u8, Error>)
        ensures
            final(self).bytes() == old(self).bytes(),
            match r {
                Ok(v) => {
                    &&& in_bounds(old(self).bytes(), old(self).pos() as int, 1)
                    &&& v == le_value(old(self).bytes(), old(self).pos() as int, 1)
                    &&& final(self).pos() == old(self).pos() + 1
                },
                Err(e) => {
                    &&& !in_bounds(old(self).bytes(), old(self).pos() as int, 1)
                    &&& e == Error::EndOfStream
                    &&& final(self).pos() == old(self).pos()
                },
            },
    {
        let ghost s = self.bytes();
        let ghost p = self.pos() as int;
        match self.read_le(1) {
            Ok(v) => {
                proof {
                    lemma_le_value_bound(s, p, 1);
                    lemma_pow256_facts();
                }
                Ok(v as u8)
            },
            Err(e) => Err(e),
        }
    }

    /// Reads a little-endian `u16`.
    pub fn read_u16(&mut self) -> (r: Result<u16, Error>)
        ensures
            final(self).bytes() == old(self).bytes(),
            match r {
                Ok(v) => {
                    &&& in_bounds(old(self).bytes(), old(self).pos() as int, 2)
                    &&& v == le_value(old(self).bytes(), old(self).pos() as int, 2)
                    &&& final(self).pos() == old(self).pos() + 2
                },
                Err(e) => {
                    &&& !in_bounds(old(self).bytes(), old(self).pos() as int, 2)
                    &&& e == Error::EndOfStream
                    &&& final(self).pos() == old(self).pos()
                },
            },
    {
        let ghost s = self.bytes();
        let ghost p = self.pos() as int;
        match self.read_le(2) {
            Ok(v) => {
                proof {
                    lemma_le_value_bound(s, p, 2);
                    lemma_pow256_facts();
                }
                Ok(v as u16)
            },
            Err(e) => Err(e),
        }
    }

    /// Reads a little-endian `u32`.
    pub fn read_u32(&mut self) -> (r: Result<u32, Error>)
        ensures
            final(self).bytes() == old(self).bytes(),
            match r {
                Ok(v) => {
                    &&& in_bounds(old(self).bytes(), old(self).pos() as int, 4)
                    &&& v == le_value(old(self).bytes(), old(self).pos() as int, 4)
                    &&& final(self).pos() == old(self).pos() + 4
                },
                Err(e) => {
                    &&& !in_bounds(old(self).bytes(), old(self).pos() as int, 4)
                    &&& e == Error::EndOfStream
                    &&& final(self).pos() == old(self).pos()
                },
            },
    {
        let ghost s = self.bytes();
        let ghost p = self.pos() as int;
        match self.read_le(4) {
            Ok(v) => {
                proof {
                    lemma_le_value_bound(s, p, 4);
                    lemma_pow256_facts();
                }
                Ok(v as u32)
            },
            Err(e) => Err(e),
        }
    }

    /// Reads a little-endian `u64`.
    pub fn read_u64(&mut self) -> (r: Result<u64, Error>)
        ensures
            final(self).bytes() == old(self).bytes(),
            match r {
                Ok(v) => {
                    &&& in_bounds(old(self).bytes(), old(self).pos() as int, 8)
                    &&& v == le_value(old(self).bytes(), old(self).pos() as int, 8)
                    &&& final(self).pos() == old(self).pos() + 8
                },
                Err(e) => {
                    &&& !in_bounds(old(self).bytes(), old(self).pos() as int, 8)
                    &&& e == Error::EndOfStream
                    &&& final(self).pos() == old(self).pos()
                },
            },
    {
        self.read_le(8)
    }

    /// Reads a little-endian two's-complement `i64`.
    pub fn read_i64(&mut self) -> (r: Result<i64, Error>)
        ensures
            final(self).bytes() == old(self).bytes(),
            match r {
                Ok(v) => {
                    &&& in_bounds(old(self).bytes(), old(self).pos() as int, 8)
                    &&& v == (le_value(old(self).bytes(), old(self).pos() as int, 8) as u64) as i64
                    &&& final(self).pos() == old(self).pos() + 8
                },
                Err(e) => {
                    &&& !in_bounds(old(self).bytes(), old(self).pos() as int, 8)
                    &&& e == Error::EndOfStream
                    &&& final(self).pos() == old(self).pos()
                },
            },
    {
        match self.read_le(8) {
            Ok(v) => Ok(v as i64),
            Err(e) => Err(e),
        }
    }

    /// Overwrites the 8 bytes at the cursor with the little-endian encoding of `v`
    /// and moves past them; fails, changing nothing, when they are not all inside
    /// the stream.
    pub fn write_u64(&mut self, v: u64) -> (r: Result<(), Error>)
        ensures
            match r {
                Ok(_) => {
                    &&& in_bounds(old(self).bytes(), old(self).pos() as int, 8)
                    &&& final(self).bytes() == splice(
                        old(self).bytes(),
                        old(self).pos() as int,
                        le_bytes(v as nat, 8),
                    )
                    &&& final(self).pos() == old(self).pos() + 8
                },
                Err(e) => {
                    &&& !in_bounds(old(self).bytes(), old(self).pos() as int, 8)
                    &&& e == Error::EndOfStream
                    &&& final(self).bytes() == old(self).bytes()
                    &&& final(self).pos() == old(self).pos()
                },
            },
    {
        if !self.has_room(8) {
            return Err(Error::EndOfStream);
        }
        let p = self.pos as usize;
        write_le(&mut self.data, p, v, 8);
        self.pos = self.pos + 8;
        Ok(())
    }
}

/// Reading back what a write put into a byte sequence gives the written value,
/// the length stays the same, and every window that does not overlap the written
/// bytes reads as before.
pub proof fn law_read_back_write(s: Seq<u8>, at: int, v: u64)
    requires
        in_bounds(s, at, 8),
    ensures
        splice(s, at, le_bytes(v as nat, 8)).len() == s.len(),
        le_value(splice(s, at, le_bytes(v as nat, 8)), at, 8) == v,
        forall|i: int, n: nat|
            in_bounds(s, i, n) && (i + n <= at || at + 8 <= i) ==> #[trigger] le_value(
                splice(s, at, le_bytes(v as nat, 8)),
                i,
                n,
            ) == le_value(s, i, n),
{
    let b = le_bytes(v as nat, 8);
    let t = splice(s, at, b);
    lemma_le_bytes_len(v as nat, 8);
    law_le_roundtrip(v as nat, 8);
    lemma_pow256_facts();
    assert forall|k: int| 0 <= k < 8 implies #[trigger] t[at + k] == b[0 + k] by {}
    lemma_le_value_frame(t, at, b, 0, 8);
    assert forall|i: int, n: nat|
        in_bounds(s, i, n) && (i + n <= at || at + 8 <= i) implies #[trigger] le_value(t, i, n)
        == le_value(s, i, n) by {
        assert forall|k: int| 0 <= k < n implies #[trigger] t[i + k] == s[i + k] by {}
        lemma_le_value_frame(t, i, s, i, n);
    }
}

} // verus!

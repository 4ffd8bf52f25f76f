//! Reading KFF primitives from an in-memory byte stream.
use vstd::prelude::*;

use crate::codec::{be_read, be_value, bytes_bits, bytes_for_bits, unpack_bits};
use crate::error::{Error, Result};

verus! {

/// The signed integer that the 8 bytes of value `v` denote in two's complement.
pub open spec fn i64_of(v: nat) -> int {
    if v < 0x8000_0000_0000_0000 {
        v as int
    } else {
        v - 0x1_0000_0000_0000_0000
    }
}

/// A byte stream with a read position.
pub struct ByteReader {
    pub(crate) data: Vec<u8>,
    pub(crate) pos: usize,
}

impl ByteReader {
    #[verifier::type_invariant]
    spec fn inv(&self) -> bool {
        self.pos <= self.data@.len()
    }

    /// All the bytes of the stream.
    pub open(crate) spec fn bytes(&self) -> Seq<u8> {
        self.data@
    }

    /// The read position.
    pub open(crate) spec fn pos(&self) -> int {
        self.pos as int
    }

    /// Whether `n` bytes remain after the read position.
    pub open(crate) spec fn has(&self, n: int) -> bool {
        self.pos + n <= self.data@.len()
    }

    /// The `n` bytes after the read position.
    pub open(crate) spec fn ahead(&self, n: int) -> Seq<u8> {
        self.data@.subrange(self.pos as int, self.pos + n)
    }

    /// `next` is this stream with `n` more bytes read.
    pub open(crate) spec fn took(&self, next: &ByteReader, n: int) -> bool {
        &&& next.data@ == self.data@
        &&& self.pos + n <= self.data@.len()
        &&& next.pos == self.pos + n
    }

    /// `next` is this stream, nothing read.
    pub open(crate) spec fn same(&self, next: &ByteReader) -> bool {
        &&& next.data@ == self.data@
        &&& next.pos == self.pos
    }

    /// A stream over `data`, positioned at its start.
    pub fn new(data: Vec<u8>) -> (r: ByteReader)
        ensures
            r.bytes() == data@,
            r.pos() == 0,
    {
        ByteReader { data, pos: 0 }
    }

    /// The read position.
    pub fn position(&self) -> (r: usize)
        ensures
            r == self.pos(),
            r <= self.bytes().len(),
    {
        proof {
            use_type_invariant(self);
        }
        self.pos
    }

    /// Number of bytes in the stream.
    pub fn len(&self) -> (r: usize)
        ensures
            r == self.bytes().len(),
    {
        self.data.len()
    }

    /// Move the read position to `pos`, or to the end when `pos` lies beyond it.
    pub fn seek(&mut self, pos: usize)
        ensures
            final(self).bytes() == old(self).bytes(),
            final(self).pos() == if pos <= old(self).bytes().len() {
                pos as int
            } else {
                old(self).bytes().len() as int
            },
    {
        if pos <= self.data.len() {
            self.pos = pos;
        } else {
            self.pos = self.data.len();
        }
    }

    /// The bytes of the stream.
    pub fn into_inner(self) -> (r: Vec<u8>)
        ensures
            r@ == self.bytes(),
    {
        self.data
    }

    fn remaining(&self, n: usize) -> (r: bool)
        ensures
            r == self.has(n as int),
            self.pos <= self.data@.len() <= usize::MAX,
    {
        proof {
            use_type_invariant(self);
        }
        n <= self.data.len() - self.pos
    }

    /// Read exactly `n` bytes.
    pub fn read_n_bytes_dyn(&mut self, n: usize) -> (r: Result<Vec<u8>>)
        ensures
            match r {
                Ok(v) => old(self).took(final(self), n as int) && v@ == old(self).ahead(n as int),
                Err(e) => !old(self).has(n as int) && e is UnexpectedEof && old(self).same(
                    final(self),
                ),
            },
    {
        if !self.remaining(n) {
            return Err(Error::UnexpectedEof);
        }
        let mut out: Vec<u8> = Vec::with_capacity(n);
        let mut i: usize = 0;
        while i < n
            invariant
                i <= n,
                self.pos + n <= self.data@.len() <= usize::MAX,
                out@ =~= self.data@.subrange(self.pos as int, self.pos + i),
            decreases n - i,
        {
            out.push(self.data[self.pos + i]);
            i = i + 1;
        }
        self.pos = self.pos + n;
        Ok(out)
    }

    /// Read exactly `N` bytes.
    pub fn read_n_bytes<const N: usize>(&mut self) -> (r: Result<[u8; N]>)
        ensures
            match r {
                Ok(v) => old(self).took(final(self), N as int) && v@ == old(self).ahead(N as int),
                Err(e) => !old(self).has(N as int) && e is UnexpectedEof && old(self).same(
                    final(self),
                ),
            },
    {
        if !self.remaining(N) {
            return Err(Error::UnexpectedEof);
        }
        let mut out: [u8; N] = [0u8; N];
        let mut i: usize = 0;
        while i < N
            invariant
                i <= N,
                self.pos + N <= self.data@.len() <= usize::MAX,
                out@.len() == N,
                forall|j: int| 0 <= j < i ==> out@[j] == self.data@[self.pos + j],
            decreases N - i,
        {
            out[i] = self.data[self.pos + i];
            i = i + 1;
        }
        assert(out@ =~= self.data@.subrange(self.pos as int, self.pos + N));
        self.pos = self.pos + N;
        Ok(out)
    }

    /// Read an unsigned big-endian integer of `n` bytes.
    pub fn read_be_uint(&mut self, n: usize) -> (r: Result<u64>)
        requires
            n <= 8,
        ensures
            match r {
                Ok(v) => old(self).took(final(self), n as int) && v as nat == be_value(
                    old(self).ahead(n as int),
                ),
                Err(e) => !old(self).has(n as int) && e is UnexpectedEof && old(self).same(
                    final(self),
                ),
            },
    {
        if !self.remaining(n) {
            return Err(Error::UnexpectedEof);
        }
        let v = be_read(self.data.as_slice(), self.pos, n);
        self.pos = self.pos + n;
        Ok(v)
    }

    /// Read one byte.
    pub fn read_u8(&mut self) -> (r: Result<u8>)
        ensures
            match r {
                Ok(v) => old(self).took(final(self), 1) && v == old(self).bytes()[old(self).pos()],
                Err(e) => !old(self).has(1) && e is UnexpectedEof && old(self).same(final(self)),
            },
    {
        if !self.remaining(1) {
            return Err(Error::UnexpectedEof);
        }
        let v = self.data[self.pos];
        self.pos = self.pos + 1;
        Ok(v)
    }

    /// Read one byte as a boolean: false exactly when the byte is 0.
    pub fn read_bool(&mut self) -> (r: Result<bool>)
        ensures
            match r {
                Ok(v) => old(self).took(final(self), 1) && v == (old(self).bytes()[old(self).pos()]
                    != 0),
                Err(e) => !old(self).has(1) && e is UnexpectedEof && old(self).same(final(self)),
            },
    {
        let v = self.read_u8()?;
        Ok(v != 0)
    }

    /// Read a big-endian u16.
    pub fn read_u16(&mut self) -> (r: Result<u16>)
        ensures
            match r {
                Ok(v) => old(self).took(final(self), 2) && v as nat == be_value(old(self).ahead(2)),
                Err(e) => !old(self).has(2) && e is UnexpectedEof && old(self).same(final(self)),
            },
    {
        let v = self.read_be_uint(2)?;
        proof {
            crate::codec::lemma_be_value_bound(old(self).ahead(2));
            reveal_with_fuel(crate::codec::pow256, 3);
        }
        Ok(v as u16)
    }

    /// Read a big-endian u32.
    pub fn read_u32(&mut self) -> (r: Result<u32>)
        ensures
            match r {
                Ok(v) => old(self).took(final(self), 4) && v as nat == be_value(old(self).ahead(4)),
                Err(e) => !old(self).has(4) && e is UnexpectedEof && old(self).same(final(self)),
            },
    {
        let v = self.read_be_uint(4)?;
        proof {
            crate::codec::lemma_be_value_bound(old(self).ahead(4));
            reveal_with_fuel(crate::codec::pow256, 5);
        }
        Ok(v as u32)
    }

    /// Read a big-endian u64.
    pub fn read_u64(&mut self) -> (r: Result<u64>)
        ensures
            match r {
                Ok(v) => old(self).took(final(self), 8) && v as nat == be_value(old(self).ahead(8)),
                Err(e) => !old(self).has(8) && e is UnexpectedEof && old(self).same(final(self)),
            },
    {
        self.read_be_uint(8)
    }

    /// Read a big-endian two's complement i64.
    pub fn read_i64(&mut self) -> (r: Result<i64>)
        ensures
            match r {
                Ok(v) => old(self).took(final(self), 8) && v as int == i64_of(
                    be_value(old(self).ahead(8)),
                ),
                Err(e) => !old(self).has(8) && e is UnexpectedEof && old(self).same(final(self)),
            },
    {
        let v = self.read_be_uint(8)?;
        if v < 0x8000_0000_0000_0000 {
            Ok(v as i64)
        } else {
            Ok(((v - 0x8000_0000_0000_0000) as i64) + i64::MIN)
        }
    }

    /// Read bytes up to and including a zero byte, or to the end of the
    /// stream; the zero byte is not part of the result.
    pub fn read_ascii(&mut self) -> (r: Vec<u8>)
        ensures
            final(self).bytes() == old(self).bytes(),
            old(self).pos() + r@.len() <= old(self).bytes().len(),
            r@ == old(self).ahead(r@.len() as int),
            forall|i: int| 0 <= i < r@.len() ==> r@[i] != 0,
            old(self).pos() + r@.len() < old(self).bytes().len() ==> old(self).bytes()[old(
                self,
            ).pos() + r@.len()] == 0 && final(self).pos() == old(self).pos() + r@.len() + 1,
            old(self).pos() + r@.len() == old(self).bytes().len() ==> final(self).pos() == old(
                self,
            ).pos() + r@.len(),
    {
        proof {
            use_type_invariant(&*self);
        }
        let len = self.data.len();
        let start = self.pos;
        let mut out: Vec<u8> = Vec::new();
        let mut i: usize = start;
        while i < len && self.data[i] != 0
            invariant
                len == self.data@.len(),
                start == self.pos,
                start <= i <= len,
                out@ =~= self.data@.subrange(start as int, i as int),
                forall|j: int| 0 <= j < out@.len() ==> out@[j] != 0,
            decreases len - i,
        {
            out.push(self.data[i]);
            i = i + 1;
        }
        if i < len {
            self.pos = i + 1;
        } else {
            self.pos = i;
        }
        out
    }

    /// Read `k` nucleotides packed two bits each: `ceil(2k / 8)` bytes, of
    /// which the first `2k` bits are kept.
    pub fn read_2bits(&mut self, k: usize) -> (r: Result<Vec<bool>>)
        ensures
            match r {
                Ok(v) => {
                    &&& k <= usize::MAX / 2
                    &&& old(self).took(final(self), bytes_for_bits(2 * k as nat) as int)
                    &&& v@ == bytes_bits(old(self).ahead(bytes_for_bits(2 * k as nat) as int)).take(
                        2 * k,
                    )
                },
                Err(e) => !(k <= usize::MAX / 2 && old(self).has(
                    bytes_for_bits(2 * k as nat) as int,
                )) && e is UnexpectedEof && old(self).same(final(self)),
            },
    {
        if k > usize::MAX / 2 {
            return Err(Error::UnexpectedEof);
        }
        let nbits = 2 * k;
        let nbytes = nbits / 8 + if nbits % 8 == 0 { 0 } else { 1 };
        assert(nbytes == bytes_for_bits(nbits as nat));
        let bytes = self.read_n_bytes_dyn(nbytes)?;
        Ok(unpack_bits(bytes.as_slice(), nbits))
    }
}

} // verus!

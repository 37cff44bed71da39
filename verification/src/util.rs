//! A bounds-checked cursor over a borrowed byte buffer, with big-endian reads.

use byteorder::{BigEndian, ByteOrder};
use vstd::prelude::*;
use vstd::slice::slice_subrange;

verus! {

/// The unsigned 16-bit value stored big-endian at `b[i]`, `b[i + 1]`.
pub open spec fn be_u16(b: Seq<u8>, i: int) -> int {
    b[i] as int * 0x100 + b[i + 1] as int
}

/// The signed (two's complement) 16-bit value stored big-endian at `b[i]`, `b[i + 1]`.
pub open spec fn be_i16(b: Seq<u8>, i: int) -> int {
    if be_u16(b, i) >= 0x8000 {
        be_u16(b, i) - 0x1_0000
    } else {
        be_u16(b, i)
    }
}

/// The unsigned 32-bit value stored big-endian at `b[i]` .. `b[i + 3]`.
pub open spec fn be_u32(b: Seq<u8>, i: int) -> int {
    be_u16(b, i) * 0x1_0000 + be_u16(b, i + 2)
}

/// `byteorder::ByteOrder::read_u16` of `byteorder::BigEndian`. It panics on a
/// buffer shorter than two bytes, which the precondition rules out; the result
/// is claimed to be the first two bytes read as a big-endian number.
#[verifier::external_body]
fn big_endian_u16(buf: &[u8]) -> (value: u16)
    requires
        buf@.len() >= 2,
    ensures
        value as int == be_u16(buf@, 0),
{
    BigEndian::read_u16(buf)
}

/// `byteorder::ByteOrder::read_i16` of `byteorder::BigEndian`. It panics on a
/// buffer shorter than two bytes, which the precondition rules out; the result
/// is claimed to be the first two bytes read as a big-endian two's complement
/// number.
#[verifier::external_body]
fn big_endian_i16(buf: &[u8]) -> (value: i16)
    requires
        buf@.len() >= 2,
    ensures
        value as int == be_i16(buf@, 0),
{
    BigEndian::read_i16(buf)
}

/// `byteorder::ByteOrder::read_u32` of `byteorder::BigEndian`. It panics on a
/// buffer shorter than four bytes, which the precondition rules out; the
/// result is claimed to be the first four bytes read as a big-endian number.
#[verifier::external_body]
fn big_endian_u32(buf: &[u8]) -> (value: u32)
    requires
        buf@.len() >= 4,
    ensures
        value as int == be_u32(buf@, 0),
{
    BigEndian::read_u32(buf)
}

/// A read position inside a borrowed byte buffer.
///
/// The cursor never leaves the buffer: every seek and every read checks its
/// bounds first and fails, leaving the cursor where it was, when the bytes
/// asked for are not there.
#[derive(Clone, Copy, Debug)]
pub struct Cursor<'a> {
    bytes: &'a [u8],
    position: usize,
}

impl<'a> Cursor<'a> {
    #[verifier::type_invariant]
    spec fn in_bounds(self) -> bool {
        self.position <= self.bytes@.len()
    }

    /// The whole buffer that the cursor reads from.
    pub closed spec fn data(self) -> Seq<u8> {
        self.bytes@
    }

    /// The index in `data()` of the next byte to be read.
    pub closed spec fn offset(self) -> nat {
        self.position as nat
    }

    /// Whether `count` more bytes can be read or skipped.
    pub open spec fn has(self, count: int) -> bool {
        self.offset() + count <= self.data().len()
    }

    /// A cursor at the start of `bytes`.
    pub fn new(bytes: &'a [u8]) -> (cursor: Self)
        ensures
            cursor.data() == bytes@,
            cursor.offset() == 0,
    {
        Cursor { bytes, position: 0 }
    }

    /// The position of the cursor, which never lies beyond the end of the buffer.
    pub fn position(&self) -> (position: usize)
        ensures
            position as int == self.offset(),
            position <= self.data().len(),
    {
        proof {
            use_type_invariant(self);
        }
        self.position
    }

    /// Moves the cursor forward by `distance` bytes; the end of the buffer can
    /// be reached, nothing beyond it.
    pub fn jump(&mut self, distance: usize) -> (result: Result<(), ()>)
        ensures
            final(self).data() == old(self).data(),
            result is Ok <==> old(self).has(distance as int),
            result is Ok ==> final(self).offset() == old(self).offset() + distance,
            result is Err ==> final(self).offset() == old(self).offset(),
    {
        proof {
            use_type_invariant(&*self);
        }
        if distance <= self.bytes.len() - self.position {
            self.position = self.position + distance;
            Ok(())
        } else {
            Err(())
        }
    }

    /// Reads one byte.
    pub fn read_u8(&mut self) -> (result: Result<u8, ()>)
        ensures
            final(self).data() == old(self).data(),
            result is Ok <==> old(self).has(1),
            result is Ok ==> final(self).offset() == old(self).offset() + 1 && result->Ok_0
                == old(self).data()[old(self).offset() as int],
            result is Err ==> final(self).offset() == old(self).offset(),
    {
        proof {
            use_type_invariant(&*self);
        }
        if self.position < self.bytes.len() {
            let value: u8 = self.bytes[self.position];
            self.position = self.position + 1;
            Ok(value)
        } else {
            Err(())
        }
    }

    /// Reads a big-endian unsigned 16-bit number.
    pub fn read_u16(&mut self) -> (result: Result<u16, ()>)
        ensures
            final(self).data() == old(self).data(),
            result is Ok <==> old(self).has(2),
            result is Ok ==> final(self).offset() == old(self).offset() + 2 && result->Ok_0 as int
                == be_u16(old(self).data(), old(self).offset() as int),
            result is Err ==> final(self).offset() == old(self).offset(),
    {
        proof {
            use_type_invariant(&*self);
        }
        if 2 <= self.bytes.len() - self.position {
            let field = slice_subrange(self.bytes, self.position, self.position + 2);
            let value: u16 = big_endian_u16(field);
            self.position = self.position + 2;
            Ok(value)
        } else {
            Err(())
        }
    }

    /// Reads a big-endian signed 16-bit number.
    pub fn read_i16(&mut self) -> (result: Result<i16, ()>)
        ensures
            final(self).data() == old(self).data(),
            result is Ok <==> old(self).has(2),
            result is Ok ==> final(self).offset() == old(self).offset() + 2 && result->Ok_0 as int
                == be_i16(old(self).data(), old(self).offset() as int),
            result is Err ==> final(self).offset() == old(self).offset(),
    {
        proof {
            use_type_invariant(&*self);
        }
        if 2 <= self.bytes.len() - self.position {
            let field = slice_subrange(self.bytes, self.position, self.position + 2);
            let value: i16 = big_endian_i16(field);
            self.position = self.position + 2;
            Ok(value)
        } else {
            Err(())
        }
    }

    /// Reads a big-endian unsigned 32-bit number.
    pub fn read_u32(&mut self) -> (result: Result<u32, ()>)
        ensures
            final(self).data() == old(self).data(),
            result is Ok <==> old(self).has(4),
            result is Ok ==> final(self).offset() == old(self).offset() + 4 && result->Ok_0 as int
                == be_u32(old(self).data(), old(self).offset() as int),
            result is Err ==> final(self).offset() == old(self).offset(),
    {
        proof {
            use_type_invariant(&*self);
        }
        if 4 <= self.bytes.len() - self.position {
            let field = slice_subrange(self.bytes, self.position, self.position + 4);
            let value: u32 = big_endian_u32(field);
            self.position = self.position + 4;
            Ok(value)
        } else {
            Err(())
        }
    }
}

} // verus!

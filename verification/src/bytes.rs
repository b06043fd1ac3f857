//! Big-endian scalars read from the front of a run of bytes.
//!
//! Each read takes its bytes off the front and leaves the rest; a read for which too
//! few bytes are left fails with [`IlbmError::NoData`] and takes nothing.
use vstd::prelude::*;

use crate::IlbmError;

verus! {

/// The value of a byte read as a signed number in two's complement.
pub open spec fn signed8(b: u8) -> int {
    if b < 128 {
        b as int
    } else {
        b - 256
    }
}

/// The value of two bytes, most significant first.
pub open spec fn be16(s: Seq<u8>) -> int
    recommends
        s.len() >= 2,
{
    s[0] * 256 + s[1]
}

/// The value of two bytes, most significant first, read as a signed number in two's
/// complement.
pub open spec fn signed_be16(s: Seq<u8>) -> int
    recommends
        s.len() >= 2,
{
    if be16(s) < 32768 {
        be16(s)
    } else {
        be16(s) - 65536
    }
}

/// The value of four bytes, most significant first.
pub open spec fn be32(s: Seq<u8>) -> int
    recommends
        s.len() >= 4,
{
    s[0] * 16777216 + s[1] * 65536 + s[2] * 256 + s[3]
}

/// Reads of big-endian scalars that advance past what they read.
pub trait BigEndian {
    /// The bytes that are still to be read.
    spec fn remaining(&self) -> Seq<u8>;

    /// Reads one byte.
    fn get_u8(&mut self) -> (r: Result<u8, IlbmError>)
        ensures
            match r {
                Ok(v) => old(self).remaining().len() >= 1 && v == old(self).remaining()[0]
                    && final(self).remaining() == old(self).remaining().skip(1),
                Err(e) => old(self).remaining().len() < 1 && e == IlbmError::NoData
                    && final(self).remaining() == old(self).remaining(),
            },
    ;

    /// Reads two bytes as an unsigned number.
    fn get_u16(&mut self) -> (r: Result<u16, IlbmError>)
        ensures
            match r {
                Ok(v) => old(self).remaining().len() >= 2 && v == be16(old(self).remaining())
                    && final(self).remaining() == old(self).remaining().skip(2),
                Err(e) => old(self).remaining().len() < 2 && e == IlbmError::NoData
                    && final(self).remaining() == old(self).remaining(),
            },
    ;

    /// Reads one byte as a signed number.
    fn get_i8(&mut self) -> (r: Result<i8, IlbmError>)
        ensures
            match r {
                Ok(v) => old(self).remaining().len() >= 1 && v == signed8(old(self).remaining()[0])
                    && final(self).remaining() == old(self).remaining().skip(1),
                Err(e) => old(self).remaining().len() < 1 && e == IlbmError::NoData
                    && final(self).remaining() == old(self).remaining(),
            },
    ;

    /// Reads two bytes as a signed number.
    fn get_i16(&mut self) -> (r: Result<i16, IlbmError>)
        ensures
            match r {
                Ok(v) => old(self).remaining().len() >= 2 && v == signed_be16(
                    old(self).remaining(),
                ) && final(self).remaining() == old(self).remaining().skip(2),
                Err(e) => old(self).remaining().len() < 2 && e == IlbmError::NoData
                    && final(self).remaining() == old(self).remaining(),
            },
    ;

    /// Reads four bytes as an unsigned number.
    fn get_u32(&mut self) -> (r: Result<u32, IlbmError>)
        ensures
            match r {
                Ok(v) => old(self).remaining().len() >= 4 && v == be32(old(self).remaining())
                    && final(self).remaining() == old(self).remaining().skip(4),
                Err(e) => old(self).remaining().len() < 4 && e == IlbmError::NoData
                    && final(self).remaining() == old(self).remaining(),
            },
    ;
}

impl BigEndian for &[u8] {
    open spec fn remaining(&self) -> Seq<u8> {
        self@
    }

    fn get_u8(&mut self) -> (r: Result<u8, IlbmError>) {
        if self.len() < 1 {
            return Err(IlbmError::NoData);
        }
        let (bytes, rest) = self.split_at(1);
        *self = rest;
        Ok(bytes[0])
    }

    fn get_i8(&mut self) -> (r: Result<i8, IlbmError>) {
        if self.len() < 1 {
            return Err(IlbmError::NoData);
        }
        let (bytes, rest) = self.split_at(1);
        *self = rest;
        let b: u8 = bytes[0];
        assert(b as i8 == signed8(b)) by (bit_vector);
        Ok(#[verifier::truncate] (b as i8))
    }

    fn get_u16(&mut self) -> (r: Result<u16, IlbmError>) {
        if self.len() < 2 {
            return Err(IlbmError::NoData);
        }
        let (bytes, rest) = self.split_at(2);
        *self = rest;
        Ok(bytes[0] as u16 * 256 + bytes[1] as u16)
    }

    fn get_i16(&mut self) -> (r: Result<i16, IlbmError>) {
        if self.len() < 2 {
            return Err(IlbmError::NoData);
        }
        let (bytes, rest) = self.split_at(2);
        *self = rest;
        let v: u16 = bytes[0] as u16 * 256 + bytes[1] as u16;
        assert(v as i16 == if v < 32768 { v as int } else { v - 65536 }) by (bit_vector);
        Ok(#[verifier::truncate] (v as i16))
    }

    fn get_u32(&mut self) -> (r: Result<u32, IlbmError>) {
        if self.len() < 4 {
            return Err(IlbmError::NoData);
        }
        let (bytes, rest) = self.split_at(4);
        *self = rest;
        Ok(
            bytes[0] as u32 * 16777216 + bytes[1] as u32 * 65536 + bytes[2] as u32 * 256
                + bytes[3] as u32,
        )
    }
}

} // verus!

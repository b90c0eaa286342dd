//! A cursor over ROS1 serialized bytes: little-endian integers, IEEE floats
//! (as their bit patterns) and length-prefixed UTF-8 strings.

use vstd::prelude::*;
use crate::decode::{parse_str, read_u16, read_u32, read_u64, spec_str_at, u16_at, u32_at, u64_at};
use crate::error::{invalid_with, Error, Result};

verus! {

/// Whether the `f32` with bit pattern `b` is finite (its exponent is not all ones).
pub open spec fn f32_bits_finite(b: u32) -> bool {
    (b >> 23u32) & 0xffu32 != 0xffu32
}

/// Whether the `f64` with bit pattern `b` is finite (its exponent is not all ones).
pub open spec fn f64_bits_finite(b: u64) -> bool {
    (b >> 52u64) & 0x7ffu64 != 0x7ffu64
}

/// A read position in a byte buffer.
pub struct RosReader<'a> {
    data: &'a [u8],
    offset: usize,
}

impl<'a> RosReader<'a> {
    /// The bytes being read.
    pub closed spec fn data(&self) -> Seq<u8> {
        self.data@
    }

    /// The position of the next byte to read.
    pub closed spec fn pos(&self) -> int {
        self.offset as int
    }

    /// The position lies within the bytes.
    pub closed spec fn well_formed(&self) -> bool {
        self.offset <= self.data@.len()
    }

    /// A reader at the start of `data`.
    pub fn new(data: &'a [u8]) -> (r: RosReader<'a>)
        ensures
            r.data() == data@,
            r.pos() == 0,
            r.well_formed(),
    {
        RosReader { data, offset: 0 }
    }

    /// The position of the next byte to read.
    pub fn offset(&self) -> (r: usize)
        ensures
            r == self.pos(),
    {
        self.offset
    }

    /// The next `n` bytes; refused when fewer remain.
    pub fn read_exact(&mut self, n: usize) -> (r: Result<&'a [u8]>)
        requires
            old(self).well_formed(),
        ensures
            final(self).data() == old(self).data(),
            final(self).well_formed(),
            match r {
                Ok(b) => old(self).pos() + n <= old(self).data().len()
                    && b@ == old(self).data().subrange(old(self).pos(), old(self).pos() + n)
                    && final(self).pos() == old(self).pos() + n,
                Err(e) => old(self).pos() + n > old(self).data().len() && final(self).pos() == old(self).pos()
                    && invalid_with(e, "Unexpected end of ROS message"@),
            },
    {
        if n > self.data.len() - self.offset {
            return Err(Error::InvalidRecord("Unexpected end of ROS message".to_owned()));
        }
        let start = self.offset;
        self.offset = start + n;
        Ok(&self.data[start..start + n])
    }

    /// The next byte.
    pub fn read_u8(&mut self) -> (r: Result<u8>)
        requires
            old(self).well_formed(),
        ensures
            final(self).data() == old(self).data(),
            final(self).well_formed(),
            match r {
                Ok(v) => old(self).pos() + 1 <= old(self).data().len()
                    && v == old(self).data()[old(self).pos()]
                    && final(self).pos() == old(self).pos() + 1,
                Err(e) => old(self).pos() + 1 > old(self).data().len()
                    && invalid_with(e, "Unexpected end of ROS message"@),
            },
    {
        let b = self.read_exact(1)?;
        Ok(b[0])
    }

    /// The next byte as a boolean (non-zero is true).
    pub fn read_bool(&mut self) -> (r: Result<bool>)
        requires
            old(self).well_formed(),
        ensures
            final(self).data() == old(self).data(),
            final(self).well_formed(),
            match r {
                Ok(v) => old(self).pos() + 1 <= old(self).data().len()
                    && v == (old(self).data()[old(self).pos()] != 0)
                    && final(self).pos() == old(self).pos() + 1,
                Err(e) => old(self).pos() + 1 > old(self).data().len()
                    && invalid_with(e, "Unexpected end of ROS message"@),
            },
    {
        let b = self.read_u8()?;
        Ok(b != 0)
    }

    /// The next byte as a signed integer.
    pub fn read_i8(&mut self) -> (r: Result<i8>)
        requires
            old(self).well_formed(),
        ensures
            final(self).data() == old(self).data(),
            final(self).well_formed(),
            match r {
                Ok(v) => old(self).pos() + 1 <= old(self).data().len()
                    && v == old(self).data()[old(self).pos()] as i8
                    && final(self).pos() == old(self).pos() + 1,
                Err(e) => old(self).pos() + 1 > old(self).data().len()
                    && invalid_with(e, "Unexpected end of ROS message"@),
            },
    {
        let b = self.read_u8()?;
        Ok(b as i8)
    }

    /// The next little-endian `u16`.
    pub fn read_u16(&mut self) -> (r: Result<u16>)
        requires
            old(self).well_formed(),
        ensures
            final(self).data() == old(self).data(),
            final(self).well_formed(),
            match r {
                Ok(v) => old(self).pos() + 2 <= old(self).data().len()
                    && v == u16_at(old(self).data(), old(self).pos())
                    && final(self).pos() == old(self).pos() + 2,
                Err(e) => old(self).pos() + 2 > old(self).data().len()
                    && invalid_with(e, "Unexpected end of ROS message"@),
            },
    {
        let _n = self.data.len();
        match read_u16(self.data, self.offset) {
            Some(v) => {
                self.offset = self.offset + 2;
                Ok(v)
            },
            None => Err(Error::InvalidRecord("Unexpected end of ROS message".to_owned())),
        }
    }

    /// The next little-endian `i16`.
    pub fn read_i16(&mut self) -> (r: Result<i16>)
        requires
            old(self).well_formed(),
        ensures
            final(self).data() == old(self).data(),
            final(self).well_formed(),
            match r {
                Ok(v) => old(self).pos() + 2 <= old(self).data().len()
                    && v == u16_at(old(self).data(), old(self).pos()) as i16
                    && final(self).pos() == old(self).pos() + 2,
                Err(e) => old(self).pos() + 2 > old(self).data().len()
                    && invalid_with(e, "Unexpected end of ROS message"@),
            },
    {
        let v = self.read_u16()?;
        Ok(v as i16)
    }

    /// The next little-endian `u32`.
    pub fn read_u32(&mut self) -> (r: Result<u32>)
        requires
            old(self).well_formed(),
        ensures
            final(self).data() == old(self).data(),
            final(self).well_formed(),
            match r {
                Ok(v) => old(self).pos() + 4 <= old(self).data().len()
                    && v == u32_at(old(self).data(), old(self).pos())
                    && final(self).pos() == old(self).pos() + 4,
                Err(e) => old(self).pos() + 4 > old(self).data().len()
                    && invalid_with(e, "Unexpected end of ROS message"@),
            },
    {
        let _n = self.data.len();
        match read_u32(self.data, self.offset) {
            Some(v) => {
                self.offset = self.offset + 4;
                Ok(v)
            },
            None => Err(Error::InvalidRecord("Unexpected end of ROS message".to_owned())),
        }
    }

    /// The next little-endian `i32`.
    pub fn read_i32(&mut self) -> (r: Result<i32>)
        requires
            old(self).well_formed(),
        ensures
            final(self).data() == old(self).data(),
            final(self).well_formed(),
            match r {
                Ok(v) => old(self).pos() + 4 <= old(self).data().len()
                    && v == u32_at(old(self).data(), old(self).pos()) as i32
                    && final(self).pos() == old(self).pos() + 4,
                Err(e) => old(self).pos() + 4 > old(self).data().len()
                    && invalid_with(e, "Unexpected end of ROS message"@),
            },
    {
        let v = self.read_u32()?;
        Ok(v as i32)
    }

    /// The next little-endian `u64`.
    pub fn read_u64(&mut self) -> (r: Result<u64>)
        requires
            old(self).well_formed(),
        ensures
            final(self).data() == old(self).data(),
            final(self).well_formed(),
            match r {
                Ok(v) => old(self).pos() + 8 <= old(self).data().len()
                    && v == u64_at(old(self).data(), old(self).pos())
                    && final(self).pos() == old(self).pos() + 8,
                Err(e) => old(self).pos() + 8 > old(self).data().len()
                    && invalid_with(e, "Unexpected end of ROS message"@),
            },
    {
        let _n = self.data.len();
        match read_u64(self.data, self.offset) {
            Some(v) => {
                self.offset = self.offset + 8;
                Ok(v)
            },
            None => Err(Error::InvalidRecord("Unexpected end of ROS message".to_owned())),
        }
    }

    /// The next little-endian `i64`.
    pub fn read_i64(&mut self) -> (r: Result<i64>)
        requires
            old(self).well_formed(),
        ensures
            final(self).data() == old(self).data(),
            final(self).well_formed(),
            match r {
                Ok(v) => old(self).pos() + 8 <= old(self).data().len()
                    && v == u64_at(old(self).data(), old(self).pos()) as i64
                    && final(self).pos() == old(self).pos() + 8,
                Err(e) => old(self).pos() + 8 > old(self).data().len()
                    && invalid_with(e, "Unexpected end of ROS message"@),
            },
    {
        let v = self.read_u64()?;
        Ok(v as i64)
    }

    /// The bit pattern of the next little-endian `f32`, `None` when it is
    /// not finite.
    pub fn read_f32(&mut self) -> (r: Result<Option<u32>>)
        requires
            old(self).well_formed(),
        ensures
            final(self).data() == old(self).data(),
            final(self).well_formed(),
            match r {
                Ok(v) => old(self).pos() + 4 <= old(self).data().len()
                    && v == (if f32_bits_finite(u32_at(old(self).data(), old(self).pos())) {
                        Some(u32_at(old(self).data(), old(self).pos()))
                    } else {
                        None
                    })
                    && final(self).pos() == old(self).pos() + 4,
                Err(e) => old(self).pos() + 4 > old(self).data().len()
                    && invalid_with(e, "Unexpected end of ROS message"@),
            },
    {
        let b = self.read_u32()?;
        if (b >> 23u32) & 0xffu32 != 0xffu32 {
            Ok(Some(b))
        } else {
            Ok(None)
        }
    }

    /// The bit pattern of the next little-endian `f64`, `None` when it is
    /// not finite.
    pub fn read_f64(&mut self) -> (r: Result<Option<u64>>)
        requires
            old(self).well_formed(),
        ensures
            final(self).data() == old(self).data(),
            final(self).well_formed(),
            match r {
                Ok(v) => old(self).pos() + 8 <= old(self).data().len()
                    && v == (if f64_bits_finite(u64_at(old(self).data(), old(self).pos())) {
                        Some(u64_at(old(self).data(), old(self).pos()))
                    } else {
                        None
                    })
                    && final(self).pos() == old(self).pos() + 8,
                Err(e) => old(self).pos() + 8 > old(self).data().len()
                    && invalid_with(e, "Unexpected end of ROS message"@),
            },
    {
        let b = self.read_u64()?;
        if (b >> 52u64) & 0x7ffu64 != 0x7ffu64 {
            Ok(Some(b))
        } else {
            Ok(None)
        }
    }

    /// The next `u32`-length-prefixed UTF-8 string.
    pub fn read_string(&mut self) -> (r: Result<String>)
        requires
            old(self).well_formed(),
        ensures
            final(self).data() == old(self).data(),
            final(self).well_formed(),
            match r {
                Ok(s) => spec_str_at(old(self).data(), old(self).pos()) == Some((s@, final(self).pos())),
                Err(e) => spec_str_at(old(self).data(), old(self).pos()) is None && e is InvalidRecord,
            },
    {
        match parse_str(self.data, self.offset) {
            Some((s, p)) => {
                self.offset = p;
                Ok(s)
            },
            None => Err(Error::InvalidRecord("Unexpected end of ROS string".to_owned())),
        }
    }
}

} // verus!

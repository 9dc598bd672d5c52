use core::num::TryFromIntError;

use vstd::prelude::*;

use crate::tokenizer::Integer;

verus! {

/// `v` lies within `lo..=hi`.
pub open spec fn in_range(v: int, lo: int, hi: int) -> bool {
    lo <= v <= hi
}

impl Integer {
    /// This integer widened to `i128`, which holds every representation.
    pub fn to_i128(self) -> (v: i128)
        ensures
            v == self.value(),
    {
        match self {
            Integer::Usize(value) => value as i128,
            Integer::Isize(value) => value as i128,
            Integer::UnsignedLarge(value) => value as i128,
            Integer::SignedLarge(value) => value as i128,
        }
    }

    /// Returns this integer as a `u8`, if it fits.
    pub fn as_u8(self) -> (r: Option<u8>)
        ensures
            r == (if in_range(self.value(), 0, 0xff) { Some(self.value() as u8) } else { None }),
    {
        let v = self.to_i128();
        if 0 <= v && v <= 0xff {
            Some(v as u8)
        } else {
            None
        }
    }

    /// Returns this integer as a `u16`, if it fits.
    pub fn as_u16(self) -> (r: Option<u16>)
        ensures
            r == (if in_range(self.value(), 0, 0xffff) { Some(self.value() as u16) } else { None }),
    {
        let v = self.to_i128();
        if 0 <= v && v <= 0xffff {
            Some(v as u16)
        } else {
            None
        }
    }

    /// Returns this integer as a `u32`, if it fits.
    pub fn as_u32(self) -> (r: Option<u32>)
        ensures
            r == (if in_range(self.value(), 0, 0xffff_ffff) {
                Some(self.value() as u32)
            } else {
                None
            }),
    {
        let v = self.to_i128();
        if 0 <= v && v <= 0xffff_ffff {
            Some(v as u32)
        } else {
            None
        }
    }

    /// Returns this integer as a `u64`, if it fits.
    pub fn as_u64(self) -> (r: Option<u64>)
        ensures
            r == (if in_range(self.value(), 0, 0xffff_ffff_ffff_ffff) {
                Some(self.value() as u64)
            } else {
                None
            }),
    {
        let v = self.to_i128();
        if 0 <= v && v <= 0xffff_ffff_ffff_ffff {
            Some(v as u64)
        } else {
            None
        }
    }

    /// Returns this integer as a `u128`, if it is not negative.
    pub fn as_u128(self) -> (r: Option<u128>)
        ensures
            r == (if self.value() >= 0 { Some(self.value() as u128) } else { None }),
    {
        let v = self.to_i128();
        if 0 <= v {
            Some(v as u128)
        } else {
            None
        }
    }

    /// Returns this integer as a `usize`, if it fits.
    pub fn as_usize(self) -> (r: Option<usize>)
        ensures
            r == (if in_range(self.value(), 0, usize::MAX as int) {
                Some(self.value() as usize)
            } else {
                None
            }),
    {
        let v = self.to_i128();
        if 0 <= v && v <= usize::MAX as i128 {
            Some(v as usize)
        } else {
            None
        }
    }

    /// Returns this integer as an `i8`, if it fits.
    pub fn as_i8(self) -> (r: Option<i8>)
        ensures
            r == (if in_range(self.value(), -0x80, 0x7f) { Some(self.value() as i8) } else { None }),
    {
        let v = self.to_i128();
        if -0x80 <= v && v <= 0x7f {
            Some(v as i8)
        } else {
            None
        }
    }

    /// Returns this integer as an `i16`, if it fits.
    pub fn as_i16(self) -> (r: Option<i16>)
        ensures
            r == (if in_range(self.value(), -0x8000, 0x7fff) {
                Some(self.value() as i16)
            } else {
                None
            }),
    {
        let v = self.to_i128();
        if -0x8000 <= v && v <= 0x7fff {
            Some(v as i16)
        } else {
            None
        }
    }

    /// Returns this integer as an `i32`, if it fits.
    pub fn as_i32(self) -> (r: Option<i32>)
        ensures
            r == (if in_range(self.value(), -0x8000_0000, 0x7fff_ffff) {
                Some(self.value() as i32)
            } else {
                None
            }),
    {
        let v = self.to_i128();
        if -0x8000_0000 <= v && v <= 0x7fff_ffff {
            Some(v as i32)
        } else {
            None
        }
    }

    /// Returns this integer as an `i64`, if it fits.
    pub fn as_i64(self) -> (r: Option<i64>)
        ensures
            r == (if in_range(self.value(), -0x8000_0000_0000_0000, 0x7fff_ffff_ffff_ffff) {
                Some(self.value() as i64)
            } else {
                None
            }),
    {
        let v = self.to_i128();
        if -0x8000_0000_0000_0000 <= v && v <= 0x7fff_ffff_ffff_ffff {
            Some(v as i64)
        } else {
            None
        }
    }

    /// Returns this integer as an `i128`; every integer fits.
    pub fn as_i128(self) -> (r: Option<i128>)
        ensures
            r == Some(self.value() as i128),
    {
        Some(self.to_i128())
    }

    /// Returns this integer as an `isize`, if it fits.
    pub fn as_isize(self) -> (r: Option<isize>)
        ensures
            r == (if in_range(self.value(), isize::MIN as int, isize::MAX as int) {
                Some(self.value() as isize)
            } else {
                None
            }),
    {
        let v = self.to_i128();
        if isize::MIN as i128 <= v && v <= isize::MAX as i128 {
            Some(v as isize)
        } else {
            None
        }
    }
}

/// The representation an integer read from a literal of this value takes.

impl From<usize> for Integer {
    fn from(value: usize) -> (i: Self) {
        Integer::Usize(value)
    }
}

impl vstd::std_specs::convert::FromSpecImpl<usize> for Integer {
    open spec fn obeys_from_spec() -> bool {
        true
    }

    open spec fn from_spec(v: usize) -> Self {
        Integer::Usize(v)
    }
}

impl From<isize> for Integer {
    fn from(value: isize) -> (i: Self) {
        Integer::Isize(value)
    }
}

impl vstd::std_specs::convert::FromSpecImpl<isize> for Integer {
    open spec fn obeys_from_spec() -> bool {
        true
    }

    open spec fn from_spec(v: isize) -> Self {
        Integer::Isize(v)
    }
}

impl From<u8> for Integer {
    fn from(value: u8) -> (i: Self) {
        Integer::Usize(value as usize)
    }
}

impl vstd::std_specs::convert::FromSpecImpl<u8> for Integer {
    open spec fn obeys_from_spec() -> bool {
        true
    }

    open spec fn from_spec(v: u8) -> Self {
        Integer::Usize(v as usize)
    }
}

impl From<u16> for Integer {
    fn from(value: u16) -> (i: Self) {
        Integer::Usize(value as usize)
    }
}

impl vstd::std_specs::convert::FromSpecImpl<u16> for Integer {
    open spec fn obeys_from_spec() -> bool {
        true
    }

    open spec fn from_spec(v: u16) -> Self {
        Integer::Usize(v as usize)
    }
}

impl From<i8> for Integer {
    fn from(value: i8) -> (i: Self) {
        Integer::Isize(value as isize)
    }
}

impl vstd::std_specs::convert::FromSpecImpl<i8> for Integer {
    open spec fn obeys_from_spec() -> bool {
        true
    }

    open spec fn from_spec(v: i8) -> Self {
        Integer::Isize(v as isize)
    }
}

impl From<i16> for Integer {
    fn from(value: i16) -> (i: Self) {
        Integer::Isize(value as isize)
    }
}

impl vstd::std_specs::convert::FromSpecImpl<i16> for Integer {
    open spec fn obeys_from_spec() -> bool {
        true
    }

    open spec fn from_spec(v: i16) -> Self {
        Integer::Isize(v as isize)
    }
}

impl From<u32> for Integer {
    fn from(value: u32) -> (i: Self) {
        if (value as u64) <= (usize::MAX as u64) {
            Integer::Usize(value as usize)
        } else {
            Integer::UnsignedLarge(value as u64)
        }
    }
}

impl vstd::std_specs::convert::FromSpecImpl<u32> for Integer {
    open spec fn obeys_from_spec() -> bool {
        true
    }

    open spec fn from_spec(v: u32) -> Self {
        if v <= usize::MAX {
            Integer::Usize(v as usize)
        } else {
            Integer::UnsignedLarge(v as u64)
        }
    }
}

impl From<u64> for Integer {
    fn from(value: u64) -> (i: Self) {
        if (value as u128) <= (usize::MAX as u128) {
            Integer::Usize(value as usize)
        } else {
            Integer::UnsignedLarge(value)
        }
    }
}

impl vstd::std_specs::convert::FromSpecImpl<u64> for Integer {
    open spec fn obeys_from_spec() -> bool {
        true
    }

    open spec fn from_spec(v: u64) -> Self {
        if v <= usize::MAX {
            Integer::Usize(v as usize)
        } else {
            Integer::UnsignedLarge(v)
        }
    }
}

impl From<i32> for Integer {
    fn from(value: i32) -> (i: Self) {
        if (isize::MIN as i64) <= (value as i64) && (value as i64) <= (isize::MAX as i64) {
            Integer::Isize(value as isize)
        } else {
            Integer::SignedLarge(value as i64)
        }
    }
}

impl vstd::std_specs::convert::FromSpecImpl<i32> for Integer {
    open spec fn obeys_from_spec() -> bool {
        true
    }

    open spec fn from_spec(v: i32) -> Self {
        if isize::MIN <= v <= isize::MAX {
            Integer::Isize(v as isize)
        } else {
            Integer::SignedLarge(v as i64)
        }
    }
}

impl From<i64> for Integer {
    fn from(value: i64) -> (i: Self) {
        if (isize::MIN as i128) <= (value as i128) && (value as i128) <= (isize::MAX as i128) {
            Integer::Isize(value as isize)
        } else {
            Integer::SignedLarge(value)
        }
    }
}

impl vstd::std_specs::convert::FromSpecImpl<i64> for Integer {
    open spec fn obeys_from_spec() -> bool {
        true
    }

    open spec fn from_spec(v: i64) -> Self {
        if isize::MIN <= v <= isize::MAX {
            Integer::Isize(v as isize)
        } else {
            Integer::SignedLarge(v)
        }
    }
}

impl TryFrom<u128> for Integer {
    type Error = TryFromIntError;

    /// `Usize` if the value fits, else `UnsignedLarge` if it fits, else the
    /// error of the conversion to `u64`.
    fn try_from(value: u128) -> (r: Result<Integer, TryFromIntError>) {
        match usize::try_from(value) {
            Ok(v) => Ok(Integer::Usize(v)),
            Err(_) => match u64::try_from(value) {
                Ok(v) => Ok(Integer::UnsignedLarge(v)),
                Err(e) => Err(e),
            },
        }
    }
}

impl vstd::std_specs::convert::TryFromSpecImpl<u128> for Integer {
    open spec fn obeys_try_from_spec() -> bool {
        true
    }

    open spec fn try_from_spec(v: u128) -> Result<Self, TryFromIntError> {
        if v <= usize::MAX {
            Ok(Integer::Usize(v as usize))
        } else if v <= u64::MAX {
            Ok(Integer::UnsignedLarge(v as u64))
        } else {
            Err(arbitrary())
        }
    }
}

impl TryFrom<i128> for Integer {
    type Error = TryFromIntError;

    /// `Isize` if the value fits, else `SignedLarge` if it fits, else the
    /// error of the conversion to `i64`.
    fn try_from(value: i128) -> (r: Result<Integer, TryFromIntError>) {
        match isize::try_from(value) {
            Ok(v) => Ok(Integer::Isize(v)),
            Err(_) => match i64::try_from(value) {
                Ok(v) => Ok(Integer::SignedLarge(v)),
                Err(e) => Err(e),
            },
        }
    }
}

impl vstd::std_specs::convert::TryFromSpecImpl<i128> for Integer {
    open spec fn obeys_try_from_spec() -> bool {
        true
    }

    open spec fn try_from_spec(v: i128) -> Result<Self, TryFromIntError> {
        if isize::MIN <= v <= isize::MAX {
            Ok(Integer::Isize(v as isize))
        } else if i64::MIN <= v <= i64::MAX {
            Ok(Integer::SignedLarge(v as i64))
        } else {
            Err(arbitrary())
        }
    }
}

} // verus!

use vstd::prelude::*;
use crate::error::{ErrorKind, ErrorMessage};

verus! {

/// Type nibble of an unsigned integer.
pub const UINT_TAG: u8 = 0x10;
/// Type nibble of a signed integer.
pub const INT_TAG: u8 = 0x20;
/// Type nibble of a floating point number.
pub const FLOAT_TAG: u8 = 0x30;
/// Type nibble of a UTF-8 string.
pub const STRING_TAG: u8 = 0x40;
/// Type nibble of an array.
pub const ARRAY_TAG: u8 = 0x50;
/// Full header byte of the boolean `false`.
pub const FALSE_TAG: u8 = 0x80;
/// Full header byte of the boolean `true`.
pub const TRUE_TAG: u8 = 0x81;

/// The type that a header byte announces.
#[derive(Clone, Copy, Debug, PartialEq, Eq, Structural, PartialOrd, Ord, Hash)]
pub enum Type {
    Uint,
    Int,
    Float,
    String,
    Array,
    False,
    True,
}

/// The width of a numeric payload, or of the count field of a string or array.
#[derive(Clone, Copy, Debug, PartialEq, Eq, Structural, PartialOrd, Ord, Hash)]
pub enum ByteLength {
    Zero,
    One,
    Two,
    Four,
    Eight,
}

/// The header byte's high part for a type (the full byte for booleans).
pub open spec fn type_tag(t: Type) -> u8 {
    match t {
        Type::Uint => 0x10,
        Type::Int => 0x20,
        Type::Float => 0x30,
        Type::String => 0x40,
        Type::Array => 0x50,
        Type::False => 0x80,
        Type::True => 0x81,
    }
}

/// The header byte's low nibble for a width: an ordinal, not the byte count.
pub open spec fn width_tag(w: ByteLength) -> u8 {
    match w {
        ByteLength::Zero => 0,
        ByteLength::One => 1,
        ByteLength::Two => 2,
        ByteLength::Four => 3,
        ByteLength::Eight => 4,
    }
}

/// The number of bytes a width stands for.
pub open spec fn byte_count(w: ByteLength) -> nat {
    match w {
        ByteLength::Zero => 0,
        ByteLength::One => 1,
        ByteLength::Two => 2,
        ByteLength::Four => 4,
        ByteLength::Eight => 8,
    }
}

/// The largest count that a width can hold, unsigned big-endian.
pub open spec fn max_count(w: ByteLength) -> nat {
    match w {
        ByteLength::Zero => 0,
        ByteLength::One => 0xFF,
        ByteLength::Two => 0xFFFF,
        ByteLength::Four => 0xFFFF_FFFF,
        ByteLength::Eight => 0xFFFF_FFFF_FFFF_FFFF,
    }
}

/// The width whose low nibble is `n`, if any.
pub open spec fn width_of_tag(n: u8) -> Option<ByteLength> {
    if n == 0 {
        Some(ByteLength::Zero)
    } else if n == 1 {
        Some(ByteLength::One)
    } else if n == 2 {
        Some(ByteLength::Two)
    } else if n == 3 {
        Some(ByteLength::Four)
    } else if n == 4 {
        Some(ByteLength::Eight)
    } else {
        None
    }
}

/// The smallest width that holds `n`; `Zero` only for `n == 0`.
pub open spec fn min_width(n: nat) -> ByteLength {
    if n == 0 {
        ByteLength::Zero
    } else if n <= 0xFF {
        ByteLength::One
    } else if n <= 0xFFFF {
        ByteLength::Two
    } else if n <= 0xFFFF_FFFF {
        ByteLength::Four
    } else {
        ByteLength::Eight
    }
}

/// Whether a type is one of the three numeric types.
pub open spec fn is_numeric(t: Type) -> bool {
    t == Type::Uint || t == Type::Int || t == Type::Float
}

/// The byte that packs a type and a width.
pub open spec fn header_byte(t: Type, w: ByteLength) -> u8 {
    (type_tag(t) + width_tag(w)) as u8
}

/// What a header byte announces: booleans are whole bytes, matched first;
/// otherwise the high nibble names the type and the low nibble the width.
pub open spec fn header_of(b: u8) -> Result<(Type, ByteLength), ErrorKind> {
    if b == 0x80 {
        Ok((Type::False, ByteLength::Zero))
    } else if b == 0x81 {
        Ok((Type::True, ByteLength::Zero))
    } else {
        let hi = b / 16;
        let lo = b % 16;
        match width_of_tag(lo) {
            None => Err(ErrorKind::InvalidHeader),
            Some(w) => if hi == 1 {
                Ok((Type::Uint, w))
            } else if hi == 2 {
                Ok((Type::Int, w))
            } else if hi == 3 {
                Ok((Type::Float, w))
            } else if hi == 4 {
                Ok((Type::String, w))
            } else if hi == 5 {
                Ok((Type::Array, w))
            } else {
                Err(ErrorKind::InvalidHeader)
            },
        }
    }
}

/// Whether `n` fits in the count field of width `w`.
pub open spec fn fits(n: nat, w: ByteLength) -> bool {
    n <= max_count(w)
}

impl Type {
    /// The header tag of this type.
    pub fn tag(&self) -> (r: u8)
        ensures
            r == type_tag(*self),
    {
        match self {
            Type::Uint => UINT_TAG,
            Type::Int => INT_TAG,
            Type::Float => FLOAT_TAG,
            Type::String => STRING_TAG,
            Type::Array => ARRAY_TAG,
            Type::False => FALSE_TAG,
            Type::True => TRUE_TAG,
        }
    }
}

impl ByteLength {
    /// The low-nibble tag of this width.
    pub fn tag(&self) -> (r: u8)
        ensures
            r == width_tag(*self),
    {
        match self {
            ByteLength::Zero => 0,
            ByteLength::One => 1,
            ByteLength::Two => 2,
            ByteLength::Four => 3,
            ByteLength::Eight => 4,
        }
    }

    /// The number of bytes this width stands for.
    pub fn as_byte_count(&self) -> (r: usize)
        ensures
            r == byte_count(*self),
    {
        match self {
            ByteLength::Zero => 0,
            ByteLength::One => 1,
            ByteLength::Two => 2,
            ByteLength::Four => 4,
            ByteLength::Eight => 8,
        }
    }

    /// The largest count this width can hold.
    pub fn max(&self) -> (r: u64)
        ensures
            r == max_count(*self),
    {
        match self {
            ByteLength::Zero => 0,
            ByteLength::One => 0xFF,
            ByteLength::Two => 0xFFFF,
            ByteLength::Four => 0xFFFF_FFFF,
            ByteLength::Eight => 0xFFFF_FFFF_FFFF_FFFF,
        }
    }
}

/// Packs a type and a width into one header byte.
pub fn encode_header(t: Type, w: ByteLength) -> (r: u8)
    requires
        is_numeric(t) || t == Type::String || t == Type::Array || w == ByteLength::Zero,
    ensures
        r == header_byte(t, w),
{
    t.tag() + w.tag()
}

/// Unpacks a header byte into its type and width.
pub fn decode_header(b: u8) -> (r: Result<(Type, ByteLength), ErrorMessage>)
    ensures
        match header_of(b) {
            Ok(p) => r == Ok::<(Type, ByteLength), ErrorMessage>(p),
            Err(k) => r matches Err(e) && e.kind == k,
        },
{
    if b == FALSE_TAG {
        return Ok((Type::False, ByteLength::Zero));
    }
    if b == TRUE_TAG {
        return Ok((Type::True, ByteLength::Zero));
    }
    let lo = b % 16;
    let w = if lo == 0 {
        ByteLength::Zero
    } else if lo == 1 {
        ByteLength::One
    } else if lo == 2 {
        ByteLength::Two
    } else if lo == 3 {
        ByteLength::Four
    } else if lo == 4 {
        ByteLength::Eight
    } else {
        return Err(ErrorMessage::new(ErrorKind::InvalidHeader));
    };
    let hi = b / 16;
    if hi == 1 {
        Ok((Type::Uint, w))
    } else if hi == 2 {
        Ok((Type::Int, w))
    } else if hi == 3 {
        Ok((Type::Float, w))
    } else if hi == 4 {
        Ok((Type::String, w))
    } else if hi == 5 {
        Ok((Type::Array, w))
    } else {
        Err(ErrorMessage::new(ErrorKind::InvalidHeader))
    }
}

/// Chooses the smallest width able to hold a count of `len`.
/// A count of zero has no representation and is refused.
pub fn choose_width(len: usize) -> (r: Result<ByteLength, ErrorMessage>)
    ensures
        len == 0 <==> r is Err,
        r is Err ==> r->Err_0.kind == ErrorKind::EmptyCollection,
        r matches Ok(w) ==> {
            &&& w == min_width(len as nat)
            &&& fits(len as nat, w)
            &&& forall|v: ByteLength| #[trigger] fits(len as nat, v) ==> byte_count(w) <= byte_count(v)
        },
{
    if len == 0 {
        Err(ErrorMessage::new(ErrorKind::EmptyCollection))
    } else if len <= 0xFF {
        Ok(ByteLength::One)
    } else if len <= 0xFFFF {
        Ok(ByteLength::Two)
    } else if len as u64 <= 0xFFFF_FFFF {
        Ok(ByteLength::Four)
    } else {
        Ok(ByteLength::Eight)
    }
}

} // verus!

//! Values as they come off the wire, reduced to what the adapters decide on.
use crate::text::same_text;
use vstd::prelude::*;

verus! {

/// A single-precision number, by its bit pattern.
#[derive(Debug, Clone, Copy, PartialEq, Eq, Structural)]
pub struct F32Bits(pub u32);

impl F32Bits {
    /// Whether the number is greater than zero: the sign bit is clear, the
    /// number is not zero, and it is not a NaN.
    pub open spec fn positive(self) -> bool {
        0 < self.0 <= 0x7f80_0000
    }

    /// Whether the number is greater than zero.
    pub fn is_positive(self) -> (b: bool)
        ensures
            b == self.positive(),
    {
        self.0 > 0 && self.0 <= 0x7f80_0000
    }

    /// Whether this is not a number.
    pub open spec fn nan(self) -> bool {
        self.0 % 0x8000_0000 > 0x7f80_0000
    }

    /// Where a number stands among the numbers: its bits as a sign and a
    /// magnitude. Both zeros stand at zero.
    pub open spec fn rank(self) -> int {
        if self.0 < 0x8000_0000 {
            self.0 as int
        } else {
            0x8000_0000 - self.0
        }
    }

    /// Whether this number is greater than another. Nothing is greater than a
    /// NaN, nor a NaN than anything.
    pub open spec fn greater(self, other: F32Bits) -> bool {
        !self.nan() && !other.nan() && self.rank() > other.rank()
    }

    /// Whether this number is greater than another.
    pub fn gt(self, other: F32Bits) -> (b: bool)
        ensures
            b == self.greater(other),
    {
        if self.0 % 0x8000_0000 > 0x7f80_0000 || other.0 % 0x8000_0000 > 0x7f80_0000 {
            return false;
        }
        let a: i64 = if self.0 < 0x8000_0000 {
            self.0 as i64
        } else {
            0x8000_0000 - (self.0 as i64)
        };
        let b: i64 = if other.0 < 0x8000_0000 {
            other.0 as i64
        } else {
            0x8000_0000 - (other.0 as i64)
        };
        a > b
    }
}

/// A double-precision number, by its bit pattern.
#[derive(Debug, Clone, Copy, PartialEq, Eq, Structural)]
pub struct F64Bits(pub u64);

impl F64Bits {
    /// Whether the number equals one.
    pub open spec fn one(self) -> bool {
        self.0 == 0x3ff0_0000_0000_0000
    }

    /// Whether the number equals zero, of either sign.
    pub open spec fn zero(self) -> bool {
        self.0 == 0 || self.0 == 0x8000_0000_0000_0000
    }

    /// Whether the number equals one.
    pub fn is_one(self) -> (b: bool)
        ensures
            b == self.one(),
    {
        self.0 == 0x3ff0_0000_0000_0000
    }

    /// Whether the number equals zero, of either sign.
    pub fn is_zero(self) -> (b: bool)
        ensures
            b == self.zero(),
    {
        self.0 == 0 || self.0 == 0x8000_0000_0000_0000
    }
}

/// A JSON value that is captured in order to be refused: its shape, and of an
/// object the string under `"type"`.
#[derive(Debug, Clone)]
pub enum JsonShape {
    Null,
    Bool(bool),
    Number,
    Text(String),
    Array { len: usize },
    Object { len: usize, kind: Option<String> },
}

impl JsonShape {
    /// Whether the value is null or an empty array or object.
    pub open spec fn hollow(self) -> bool {
        match self {
            JsonShape::Null => true,
            JsonShape::Array { len } => len == 0,
            JsonShape::Object { len, .. } => len == 0,
            _ => false,
        }
    }

    /// Whether the value is an object of type `text`.
    pub open spec fn text_format(self) -> bool {
        match self {
            JsonShape::Object { kind: Some(k), .. } => k@ == "text"@,
            _ => false,
        }
    }

    /// Whether the value is null or an empty array or object.
    pub fn is_hollow(&self) -> (b: bool)
        ensures
            b == self.hollow(),
    {
        match self {
            JsonShape::Null => true,
            JsonShape::Array { len } => *len == 0,
            JsonShape::Object { len, .. } => *len == 0,
            _ => false,
        }
    }

    /// Whether the value is an object of type `text`.
    pub fn is_text_format(&self) -> (b: bool)
        ensures
            b == self.text_format(),
    {
        match self {
            JsonShape::Object { kind: Some(k), .. } => same_text(k.as_str(), "text"),
            _ => false,
        }
    }
}

/// The text of an optional string.
pub open spec fn opt_text(o: Option<String>) -> Option<Seq<char>> {
    match o {
        Some(s) => Some(s@),
        None => None,
    }
}

/// The text of an optional string slice.
pub open spec fn opt_str(o: Option<&str>) -> Option<Seq<char>> {
    match o {
        Some(s) => Some(s@),
        None => None,
    }
}

/// An owned copy of an optional string slice.
pub fn owned(o: Option<&str>) -> (r: Option<String>)
    ensures
        opt_text(r) == opt_str(o),
{
    match o {
        Some(s) => Some(s.to_owned()),
        None => None,
    }
}

impl F32Bits {
    /// The number with the other sign.
    pub open spec fn negated(self) -> F32Bits {
        if self.0 < 0x8000_0000 {
            F32Bits((self.0 + 0x8000_0000) as u32)
        } else {
            F32Bits((self.0 - 0x8000_0000) as u32)
        }
    }
}

/// Numbers are ordered as numbers are: one way at most, along chains, any two of
/// different value one way or the other, and turned around by a change of sign.
/// Among those without a sign the greater bits are the greater number. A NaN is
/// greater than nothing, and nothing than it.
pub proof fn law_numbers_are_ordered(a: F32Bits, b: F32Bits, c: F32Bits)
    ensures
        !(a.greater(b) && b.greater(a)),
        a.greater(b) && b.greater(c) ==> a.greater(c),
        !a.nan() && !b.nan() ==> (a.greater(b) <==> b.negated().greater(a.negated())),
        !a.nan() && !b.nan() && a.0 < 0x8000_0000 && b.0 < 0x8000_0000 ==> (a.greater(b) <==> a.0 > b.0),
        !a.nan() && !b.nan() && a.0 < 0x8000_0000 && b.0 >= 0x8000_0000 ==> !b.greater(a) && (a.greater(b)
            <==> a.0 != 0 || b.0 != 0x8000_0000),
        a.nan() ==> !a.greater(b) && !b.greater(a),
        a.positive() <==> a.greater(F32Bits(0)),
{
}

} // verus!

//! The two encodings that dictionaries use.
use vstd::prelude::*;

verus! {

/// The encoding of a dictionary or a jisyo.
#[derive(Clone, Copy, Debug, PartialEq, Eq, Structural)]
pub enum Encoding {
    Euc,
    Utf8,
}

/// Whether a UTF-8 jisyo starts with a byte order mark.
#[derive(Clone, Copy, Debug, PartialEq, Eq, Structural)]
pub enum EncodingOptions {
    Plain,
    Bom,
}

/// The number that stands for an encoding in a dictionary header.
pub open spec fn encoding_number(e: Encoding) -> u32 {
    match e {
        Encoding::Euc => 0,
        Encoding::Utf8 => 1,
    }
}

impl Encoding {
    /// The encoding that `value` stands for in a dictionary header (0 or 1).
    pub fn from_u32(value: u32) -> (r: Self)
        requires
            value <= 1,
        ensures
            encoding_number(r) == value,
    {
        match value {
            0 => Encoding::Euc,
            _ => Encoding::Utf8,
        }
    }

    /// The number that stands for the encoding in a dictionary header.
    pub fn to_u32(self) -> (r: u32)
        ensures
            r == encoding_number(self),
    {
        match self {
            Encoding::Euc => 0,
            Encoding::Utf8 => 1,
        }
    }
}

impl Default for Encoding {
    fn default() -> (r: Self)
        ensures
            r == Encoding::Euc,
    {
        Encoding::Euc
    }
}

} // verus!

//! The `proto3` wire types.

use vstd::prelude::*;

verus! {

/// Provides available wire types supported by proto3.
///
/// The wire type is carried in the low three bits of a field key. Only the
/// values `0`, `1`, `2` and `5` name a wire format; every other value maps to
/// [`Typ::Unknown`] and is rejected by the decoder.
#[derive(Clone, Copy, Debug, PartialEq, Eq, Structural)]
pub enum Typ {
    /// Wire type `0`: `int32`, `int64`, `uint32`, `uint64`, `sint32`,
    /// `sint64` and `bool`.
    Varint,
    /// Wire type `1`: `fixed64`, `sfixed64` and `double`.
    Bit64,
    /// Wire type `2`: `string`, `bytes`, embedded messages and packed
    /// repeated fields.
    LengthDelimited,
    /// Wire type `5`: `fixed32`, `sfixed32` and `float`.
    Bit32,
    /// A wire type number that proto3 does not define.
    Unknown,
}

/// The number a known wire type is written as on the wire.
pub open spec fn typ_wire(t: Typ) -> nat {
    match t {
        Typ::Varint => 0,
        Typ::Bit64 => 1,
        Typ::LengthDelimited => 2,
        Typ::Bit32 => 5,
        Typ::Unknown => 7,
    }
}

/// The wire type named by a key's low three bits.
pub open spec fn typ_of(v: nat) -> Typ {
    if v == 0 {
        Typ::Varint
    } else if v == 1 {
        Typ::Bit64
    } else if v == 2 {
        Typ::LengthDelimited
    } else if v == 5 {
        Typ::Bit32
    } else {
        Typ::Unknown
    }
}

impl Typ {
    /// Maps a wire type number to the wire type it names.
    pub fn from_value(value: u64) -> (t: Typ)
        ensures
            t == typ_of(value as nat),
    {
        match value {
            0 => Typ::Varint,
            1 => Typ::Bit64,
            2 => Typ::LengthDelimited,
            5 => Typ::Bit32,
            _ => Typ::Unknown,
        }
    }

    /// The number this wire type is written as on the wire.
    pub fn wire(self) -> (r: u8)
        requires
            self != Typ::Unknown,
        ensures
            r == typ_wire(self),
    {
        match self {
            Typ::Varint => 0,
            Typ::Bit64 => 1,
            Typ::LengthDelimited => 2,
            Typ::Bit32 => 5,
            Typ::Unknown => 7,
        }
    }
}

} // verus!

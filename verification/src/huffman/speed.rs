//! The decoder read width: how many bits the matrix decoder consumes per
//! lookup.

use vstd::prelude::*;

verus! {

/// Provides available decoding speed options which represent the number of
/// bits that the decoder reads at a time.
///
/// A larger width makes decoding faster but grows the translation matrix
/// exponentially.
#[derive(Clone, Copy, Debug, PartialEq, Eq, Structural)]
pub enum DecoderSpeed {
    /// Indicates that a decoder should read 1 bit at a time.
    OneBit,
    /// Indicates that a decoder should read 2 bits at a time.
    TwoBits,
    /// Indicates that a decoder should read 3 bits at a time.
    ThreeBits,
    /// Indicates that a decoder should read 4 bits at a time.
    FourBits,
    /// Indicates that a decoder should read 5 bits at a time.
    FiveBits,
}

/// The number of bits a speed option reads at a time.
pub open spec fn speed_bits(s: DecoderSpeed) -> nat {
    match s {
        DecoderSpeed::OneBit => 1,
        DecoderSpeed::TwoBits => 2,
        DecoderSpeed::ThreeBits => 3,
        DecoderSpeed::FourBits => 4,
        DecoderSpeed::FiveBits => 5,
    }
}

impl DecoderSpeed {
    /// Returns a vector of all available decoding speed options.
    pub fn known() -> (r: Vec<DecoderSpeed>)
        ensures
            r@ == seq![
                DecoderSpeed::OneBit,
                DecoderSpeed::TwoBits,
                DecoderSpeed::ThreeBits,
                DecoderSpeed::FourBits,
                DecoderSpeed::FiveBits,
            ],
    {
        let mut all: Vec<DecoderSpeed> = Vec::new();
        all.push(DecoderSpeed::OneBit);
        all.push(DecoderSpeed::TwoBits);
        all.push(DecoderSpeed::ThreeBits);
        all.push(DecoderSpeed::FourBits);
        all.push(DecoderSpeed::FiveBits);
        proof {
            assert(all@ =~= seq![
                DecoderSpeed::OneBit,
                DecoderSpeed::TwoBits,
                DecoderSpeed::ThreeBits,
                DecoderSpeed::FourBits,
                DecoderSpeed::FiveBits,
            ]);
        }
        all
    }

    /// The number of bits this speed option reads at a time.
    pub fn bits(self) -> (r: usize)
        ensures
            r == speed_bits(self),
            1 <= r <= 5,
    {
        match self {
            DecoderSpeed::OneBit => 1,
            DecoderSpeed::TwoBits => 2,
            DecoderSpeed::ThreeBits => 3,
            DecoderSpeed::FourBits => 4,
            DecoderSpeed::FiveBits => 5,
        }
    }
}

} // verus!

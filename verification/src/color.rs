//! The two colours of a one-bit plane.
use vstd::prelude::*;

verus! {

/// A pixel colour of the black/white plane.
#[derive(Clone, Copy, Debug, PartialEq, Eq, Structural)]
pub enum Color {
    Black,
    White,
}

impl Color {
    /// The byte that paints eight neighbouring pixels in this colour.
    pub open spec fn spec_byte_value(self) -> u8 {
        match self {
            Color::Black => 0x00u8,
            Color::White => 0xFFu8,
        }
    }

    /// The other colour.
    pub open spec fn spec_inverse(self) -> Color {
        match self {
            Color::Black => Color::White,
            Color::White => Color::Black,
        }
    }

    /// The byte that paints eight neighbouring pixels in this colour.
    #[verifier::when_used_as_spec(spec_byte_value)]
    pub fn byte_value(self) -> (byte: u8)
        ensures
            byte == self.spec_byte_value(),
    {
        match self {
            Color::Black => 0x00,
            Color::White => 0xFF,
        }
    }

    /// The other colour.
    #[verifier::when_used_as_spec(spec_inverse)]
    pub fn inverse(self) -> (other: Color)
        ensures
            other == self.spec_inverse(),
    {
        match self {
            Color::Black => Color::White,
            Color::White => Color::Black,
        }
    }
}

/// Inverting twice gives the colour back, and the fill byte of the inverse is
/// the bitwise complement of the fill byte.
pub proof fn lemma_inverse(color: Color)
    ensures
        color.inverse().inverse() == color,
        color.inverse() != color,
        color.inverse().byte_value() == 0xFF - color.byte_value(),
{
}

} // verus!

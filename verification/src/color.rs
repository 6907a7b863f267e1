//! Colours and the arithmetic that combines them.

use vstd::prelude::*;

verus! {

/// A colour: red, green and blue, eight bits each.
#[derive(Clone, Copy, Debug, PartialEq, Eq, Structural)]
pub struct Color {
    pub r: u8,
    pub g: u8,
    pub b: u8,
}

/// The mean of two channel values, rounded down.
pub open spec fn mean(a: u8, b: u8) -> u8 {
    ((a + b) / 2) as u8
}

/// A channel value moved by a signed offset and held inside `0..=255`.
pub open spec fn nudged(c: u8, offset: i16) -> u8 {
    if c + offset < 0 {
        0u8
    } else if c + offset > 255 {
        255u8
    } else {
        (c + offset) as u8
    }
}

/// Blends two channel values: half of each, plus one where both are odd.
pub fn blend_channel(a: u8, b: u8) -> (m: u8)
    ensures
        m == (a >> 1) + (b >> 1) + (a & b & 1),
        m == mean(a, b),
{
    assert((a >> 1) == a / 2) by (bit_vector);
    assert((b >> 1) == b / 2) by (bit_vector);
    assert((a & b & 1) == (if a % 2 == 1 && b % 2 == 1 { 1u8 } else { 0u8 })) by (bit_vector);
    (a >> 1) + (b >> 1) + (a & b & 1)
}

/// Moves a channel value by `offset`, stopping at 0 and at 255.
pub fn nudge_channel(c: u8, offset: i16) -> (n: u8)
    ensures
        n == nudged(c, offset),
{
    let moved: i32 = c as i32 + offset as i32;
    if moved < 0 {
        0
    } else if moved > 255 {
        255
    } else {
        moved as u8
    }
}

impl Color {
    /// The colour with each channel the mean of the two colours' channels.
    pub open spec fn blended(self, other: Color) -> Color {
        Color { r: mean(self.r, other.r), g: mean(self.g, other.g), b: mean(self.b, other.b) }
    }

    /// The colour with each channel moved by its own offset.
    pub open spec fn shifted(self, dr: i16, dg: i16, db: i16) -> Color {
        Color { r: nudged(self.r, dr), g: nudged(self.g, dg), b: nudged(self.b, db) }
    }

    pub fn new(r: u8, g: u8, b: u8) -> (c: Color)
        ensures
            c == (Color { r, g, b }),
    {
        Color { r, g, b }
    }

    /// Blends two colours channel by channel.
    pub fn blend(self, other: Color) -> (c: Color)
        ensures
            c == self.blended(other),
    {
        Color {
            r: blend_channel(self.r, other.r),
            g: blend_channel(self.g, other.g),
            b: blend_channel(self.b, other.b),
        }
    }

    /// Moves each channel by its own offset, each held inside `0..=255`.
    pub fn shift(self, dr: i16, dg: i16, db: i16) -> (c: Color)
        ensures
            c == self.shifted(dr, dg, db),
    {
        Color {
            r: nudge_channel(self.r, dr),
            g: nudge_channel(self.g, dg),
            b: nudge_channel(self.b, db),
        }
    }
}

/// Blending is symmetric, and a colour blended with itself is unchanged.
pub proof fn lemma_blend_symmetric(a: Color, b: Color)
    ensures
        a.blended(b) == b.blended(a),
        a.blended(a) == a,
{
}

} // verus!

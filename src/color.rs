use vstd::prelude::*;

use crate::matrix::Grid;

verus! {

/// The channel value that stands for full intensity.
pub const CHANNEL_ONE: u64 = 65535;

/// The largest channel value the library computes with: below `2^48`, enough
/// for any 32-bit value over any maximum to be carried through unchanged.
pub const MAX_CHANNEL: u64 = 0xffff_ffff_ffff;

/// Luma weights of the red, green and blue channels, in ten-thousandths.
pub const RED_WEIGHT: u64 = 722;

pub const GREEN_WEIGHT: u64 = 7152;

pub const BLUE_WEIGHT: u64 = 2126;

/// The sum of the three luma weights: the brightness of a channel value of one.
pub const WEIGHT_TOTAL: u64 = 10000;

/// An RGB colour in fixed point: each channel counts units of `1 / CHANNEL_ONE`.
/// Values above `CHANNEL_ONE`, up to `MAX_CHANNEL`, are allowed and carried
/// through unchanged.
#[derive(Clone, Copy, Debug, PartialEq, Eq, Structural)]
pub struct Color {
    pub r: u64,
    pub g: u64,
    pub b: u64,
}

/// Brightness in units of `1 / (WEIGHT_TOTAL * CHANNEL_ONE)`:
/// 0.0722 of red, 0.7152 of green and 0.2126 of blue.
pub open spec fn brightness_of(c: Color) -> nat {
    (RED_WEIGHT * c.r + GREEN_WEIGHT * c.g + BLUE_WEIGHT * c.b) as nat
}

/// Every channel is at most `MAX_CHANNEL`.
pub open spec fn channels_in_range(c: Color) -> bool {
    c.r <= MAX_CHANNEL && c.g <= MAX_CHANNEL && c.b <= MAX_CHANNEL
}

/// Every pixel of `img` has its channels in range.
pub open spec fn pixels_in_range(img: Grid<Color>) -> bool {
    forall|x: int, y: int| img.in_bounds(x, y) ==> channels_in_range(#[trigger] img.at(x, y))
}

/// No brightness reaches `2^62`.
pub proof fn lemma_brightness_bound(c: Color)
    requires
        channels_in_range(c),
    ensures
        brightness_of(c) < 0x4000_0000_0000_0000,
{
    assert(RED_WEIGHT * c.r + GREEN_WEIGHT * c.g + BLUE_WEIGHT * c.b <= 10000 * 0xffff_ffff_ffff)
        by (nonlinear_arith)
        requires
            c.r <= 0xffff_ffff_ffff,
            c.g <= 0xffff_ffff_ffff,
            c.b <= 0xffff_ffff_ffff,
            RED_WEIGHT == 722,
            GREEN_WEIGHT == 7152,
            BLUE_WEIGHT == 2126,
    ;
}

impl Color {
    pub fn new(r: u64, g: u64, b: u64) -> (c: Color)
        ensures
            c == (Color { r, g, b }),
    {
        Color { r, g, b }
    }

    pub fn black() -> (c: Color)
        ensures
            c == (Color { r: 0, g: 0, b: 0 }),
    {
        Color { r: 0, g: 0, b: 0 }
    }

    /// The colour with `f` applied to each channel.
    pub fn map<F: Fn(u64) -> u64>(&self, f: F) -> (c: Color)
        requires
            call_requires(f, (self.r,)),
            call_requires(f, (self.g,)),
            call_requires(f, (self.b,)),
        ensures
            call_ensures(f, (self.r,), c.r),
            call_ensures(f, (self.g,), c.g),
            call_ensures(f, (self.b,), c.b),
    {
        Color { r: f(self.r), g: f(self.g), b: f(self.b) }
    }

    pub fn brightness(&self) -> (r: u64)
        requires
            channels_in_range(*self),
        ensures
            r == brightness_of(*self),
    {
        proof {
            lemma_brightness_bound(*self);
        }
        RED_WEIGHT * self.r + GREEN_WEIGHT * self.g + BLUE_WEIGHT * self.b
    }
}

} // verus!

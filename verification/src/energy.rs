//! The per-pixel state of the carving grid and the colour-gradient energy
//! that is computed from it.

use vstd::prelude::*;

verus! {

/// A colour of four 8-bit channels: red, green, blue, alpha.
pub type Pixel = [u8; 4];

/// The largest energy a pixel can have: two gradients of four channels,
/// each channel contributing at most `255 * 255`.
pub const MAX_ENERGY: u64 = 520200;

/// One cell of the carving grid: its colour, its gradient energy, and the
/// cheapest cumulative energy of a path from the top row down to it.
#[derive(Clone, Copy, Debug, PartialEq, Eq)]
pub struct PixelEnergyPoint {
    pub pixel: Pixel,
    pub energy: u64,
    pub path_cost: u64,
}

/// The squared difference of two channel values.
pub open spec fn channel_square(a: u8, b: u8) -> int {
    (a as int - b as int) * (a as int - b as int)
}

/// The sum over the four channels of the squared channel differences.
pub open spec fn pixel_square_gradient(p: Pixel, q: Pixel) -> int {
    channel_square(p[0], q[0]) + channel_square(p[1], q[1]) + channel_square(p[2], q[2])
        + channel_square(p[3], q[3])
}

/// The channel-wise mean of two colours, rounded down.
pub open spec fn pixel_average(p: Pixel, q: Pixel) -> Pixel {
    [
        ((p[0] as int + q[0] as int) / 2) as u8,
        ((p[1] as int + q[1] as int) / 2) as u8,
        ((p[2] as int + q[2] as int) / 2) as u8,
        ((p[3] as int + q[3] as int) / 2) as u8,
    ]
}

/// A squared channel difference is at most `255 * 255`.
pub proof fn lemma_channel_square_bound(a: u8, b: u8)
    ensures
        0 <= channel_square(a, b) <= 65025,
{
    let d = a as int - b as int;
    assert(0 <= d * d <= 65025) by (nonlinear_arith)
        requires
            -255 <= d <= 255,
    ;
}

/// The squared gradient of two colours is at most half of `MAX_ENERGY`.
pub proof fn lemma_square_gradient_bound(p: Pixel, q: Pixel)
    ensures
        0 <= pixel_square_gradient(p, q) <= 260100,
{
    lemma_channel_square_bound(p[0], q[0]);
    lemma_channel_square_bound(p[1], q[1]);
    lemma_channel_square_bound(p[2], q[2]);
    lemma_channel_square_bound(p[3], q[3]);
}

fn channel_square_of(a: u8, b: u8) -> (r: u64)
    ensures
        r == channel_square(a, b),
        r <= 65025,
{
    let d: u64 = if a >= b {
        (a - b) as u64
    } else {
        (b - a) as u64
    };
    proof {
        lemma_channel_square_bound(a, b);
        assert(d * d == channel_square(a, b)) by (nonlinear_arith)
            requires
                d == a as int - b as int || d == b as int - a as int,
        ;
    }
    d * d
}

impl PixelEnergyPoint {
    /// A cell of the given colour whose energy and path cost are zero.
    pub fn from_pixel(pixel: Pixel) -> (cell: PixelEnergyPoint)
        ensures
            cell.pixel == pixel,
            cell.energy == 0,
            cell.path_cost == 0,
    {
        PixelEnergyPoint { pixel, energy: 0, path_cost: 0 }
    }

    /// The squared colour gradient between this cell and another.
    pub fn square_gradient(&self, other: &PixelEnergyPoint) -> (gradient: u64)
        ensures
            gradient == pixel_square_gradient(self.pixel, other.pixel),
            gradient <= 260100,
    {
        let c0 = channel_square_of(self.pixel[0], other.pixel[0]);
        let c1 = channel_square_of(self.pixel[1], other.pixel[1]);
        let c2 = channel_square_of(self.pixel[2], other.pixel[2]);
        let c3 = channel_square_of(self.pixel[3], other.pixel[3]);
        c0 + c1 + c2 + c3
    }
}

} // verus!

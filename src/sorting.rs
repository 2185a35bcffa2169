//! Sort keys: each maps one RGBA pixel to an unsigned ordering key.
use vstd::prelude::*;

verus! {

/// The luma that the imaging library gives an RGBA pixel.
pub uninterp spec fn luma_of(p: [u8; 4]) -> u8;

/// Relies on `image::Pixel::to_luma` for `image::Rgba<u8>`: the sRGB-weighted
/// luma of the colour channels, which depends on the pixel alone.
#[verifier::external_body]
fn rgba_luma(p: &[u8; 4]) -> (r: u8)
    ensures
        r == luma_of(*p),
{
    image::Pixel::to_luma(&image::Rgba(*p))[0]
}

pub open spec fn channel_sum(p: [u8; 4]) -> int {
    p[0] + p[1] + p[2] + p[3]
}

pub open spec fn min_u8(a: u8, b: u8) -> u8 {
    if a <= b { a } else { b }
}

pub open spec fn max_u8(a: u8, b: u8) -> u8 {
    if a >= b { a } else { b }
}

pub open spec fn channel_min(p: [u8; 4]) -> u8 {
    min_u8(min_u8(p[0], p[1]), min_u8(p[2], p[3]))
}

pub open spec fn channel_max(p: [u8; 4]) -> u8 {
    max_u8(max_u8(p[0], p[1]), max_u8(p[2], p[3]))
}

/// Perceptual luma of the pixel.
pub fn lightness(pixel: &[u8; 4]) -> (r: u32)
    ensures
        r == luma_of(*pixel),
{
    rgba_luma(pixel) as u32
}

/// Sum of all four channels, alpha included.
pub fn intensity(pixel: &[u8; 4]) -> (r: u32)
    ensures
        r == channel_sum(*pixel),
{
    pixel[0] as u32 + pixel[1] as u32 + pixel[2] as u32 + pixel[3] as u32
}

fn min_of(a: u8, b: u8) -> (r: u8)
    ensures
        r == min_u8(a, b),
{
    if a <= b { a } else { b }
}

fn max_of(a: u8, b: u8) -> (r: u8)
    ensures
        r == max_u8(a, b),
{
    if a >= b { a } else { b }
}

/// Smallest channel value, alpha included.
pub fn chan_min(pixel: &[u8; 4]) -> (r: u32)
    ensures
        r == channel_min(*pixel),
{
    min_of(min_of(pixel[0], pixel[1]), min_of(pixel[2], pixel[3])) as u32
}

/// Largest channel value, alpha included.
pub fn chan_max(pixel: &[u8; 4]) -> (r: u32)
    ensures
        r == channel_max(*pixel),
{
    max_of(max_of(pixel[0], pixel[1]), max_of(pixel[2], pixel[3])) as u32
}

/// The sort key chosen on the command line.
#[derive(Clone, Copy, Debug, PartialEq, Eq, Structural)]
pub enum SortingMode {
    Lightness,
    Intensity,
    /// Orders by `chan_min`, the smallest channel value.
    Minimum,
    /// Orders by `chan_max`, the largest channel value.
    Maximum,
}

/// The key that `mode` gives pixel `p`.
pub open spec fn sort_key(mode: SortingMode, p: [u8; 4]) -> int {
    match mode {
        SortingMode::Lightness => luma_of(p) as int,
        SortingMode::Intensity => channel_sum(p),
        SortingMode::Minimum => channel_min(p) as int,
        SortingMode::Maximum => channel_max(p) as int,
    }
}

impl SortingMode {
    /// Applies the key function of this mode to a pixel.
    pub fn function(self, pixel: &[u8; 4]) -> (r: u32)
        ensures
            r == sort_key(self, *pixel),
    {
        match self {
            SortingMode::Lightness => lightness(pixel),
            SortingMode::Intensity => intensity(pixel),
            SortingMode::Minimum => chan_min(pixel),
            SortingMode::Maximum => chan_max(pixel),
        }
    }
}

} // verus!

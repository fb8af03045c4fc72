//! Colours as byte triples, and the narrowing of scaled channel values to bytes.

use vstd::prelude::*;

verus! {

/// A colour as `[red, green, blue]`, each channel between 0 and 255.
pub type Color = [u8; 3];

/// The largest value of a colour channel.
pub const IMG_MAX_COLOR: u8 = 255;

/// The byte nearest to `v` in the channel range: `v` itself where it lies
/// between 0 and 255, else the end of the range on its side.
pub open spec fn clamp_channel(v: int) -> int {
    if v < 0 {
        0
    } else if v > 255 {
        255
    } else {
        v
    }
}

/// Narrows one channel to a byte. `scaled` is the channel's intensity
/// multiplied by 255 and rounded to the nearest integer; intensities outside
/// the unit interval land outside the byte range and are clamped to its ends.
pub fn channel_from_scaled(scaled: i64) -> (c: u8)
    ensures
        c as int == clamp_channel(scaled as int),
{
    if scaled < 0 {
        0
    } else if scaled > 255 {
        IMG_MAX_COLOR
    } else {
        scaled as u8
    }
}

/// Builds a colour from three scaled and rounded channel intensities,
/// clamping each to the byte range.
pub fn color_from_scaled(red: i64, green: i64, blue: i64) -> (c: Color)
    ensures
        c[0] as int == clamp_channel(red as int),
        c[1] as int == clamp_channel(green as int),
        c[2] as int == clamp_channel(blue as int),
{
    [channel_from_scaled(red), channel_from_scaled(green), channel_from_scaled(blue)]
}

/// Narrowing keeps the order of scaled intensities: what lies between two
/// of them is narrowed to a byte between theirs. So a pixel's average,
/// which lies between the least and the greatest of its samples, is no
/// darker than the one and no brighter than the other once narrowed.
pub proof fn lemma_narrowing_keeps_between(least: int, average: int, greatest: int)
    requires
        least <= average <= greatest,
    ensures
        clamp_channel(least) <= clamp_channel(average) <= clamp_channel(greatest),
        0 <= clamp_channel(average) <= 255,
{
}

/// The rows of a pixel grid as sequences, top row first.
pub open spec fn grid_view(img_arr: &Vec<Vec<Color>>) -> Seq<Seq<Color>> {
    Seq::new(img_arr@.len(), |y: int| img_arr@[y]@)
}

} // verus!

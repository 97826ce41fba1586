//! Decoding of packed platform pixel words into RGB triples.
//!
//! A captured frame hands back one machine word per pixel together with
//! three channel masks; the caller turns each word into the `[u8; 3]`
//! layout that the blur works on.

use vstd::prelude::*;

verus! {

/// Extract the red, green and blue bytes of a packed pixel word, using the
/// channel masks reported by the frame source (red in bits 16..24, green in
/// bits 8..16, blue in bits 0..8).
pub fn decode_pixel(pixel: u64, red_mask: u64, green_mask: u64, blue_mask: u64) -> (px: [u8; 3])
    ensures
        px@[0] == ((pixel & red_mask) >> 16) as u8,
        px@[1] == ((pixel & green_mask) >> 8) as u8,
        px@[2] == (pixel & blue_mask) as u8,
{
    let red = ((pixel & red_mask) >> 16) as u8;
    let green = ((pixel & green_mask) >> 8) as u8;
    let blue = (pixel & blue_mask) as u8;
    [red, green, blue]
}

} // verus!

use vstd::prelude::*;
use crate::qoi::{img_flipped, rgb_to_rgba, ImageData, Qoi};

verus! {

/// Helpers shared by the image formats.
pub struct ImageLoader;

impl ImageLoader {
    /// Turns the image upside down: row `r` and row `height - 1 - r` trade places.
    pub fn flip_vert(img_data: &mut ImageData)
        requires
            old(img_data).height * (old(img_data).width * old(img_data).channels) <= old(
                img_data,
            ).img@.len(),
        ensures
            img_flipped(*old(img_data), *final(img_data)),
    {
        Qoi::flip_vert(img_data);
    }

    /// Widens 3-byte pixels to 4 bytes, each with alpha 255.
    pub fn make4(rgb: &mut [u8]) -> (rgba: Vec<u8>)
        requires
            old(rgb)@.len() % 3 == 0,
        ensures
            rgba@ == rgb_to_rgba(old(rgb)@),
            final(rgb)@ == old(rgb)@,
    {
        Qoi::make4(rgb)
    }
}

} // verus!

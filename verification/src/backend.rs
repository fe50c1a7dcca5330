//! The rendering capability that each compute backend provides, and the
//! shapes of what goes in and comes out of it.

use vstd::prelude::*;
use crate::render_aux::RenderAux;
use crate::render_aux::COLOR_WORDS;
use crate::tiles::ImageSize;
use crate::words::holds_rows;

verus! {

/// Words of a splat's position, and of its log-scale.
pub const POSITION_WORDS: usize = 3;

/// Words of a splat's rotation quaternion.
pub const ROTATION_WORDS: usize = 4;

/// Words of a pixel of an image with one word for each channel.
pub const PIXEL_WORDS: usize = 4;

/// The parameters of the splats: five arrays with one row for each splat, a
/// word holding the bit pattern of a float.
#[derive(Debug)]
pub struct SplatParams {
    pub means: Vec<u32>,
    pub log_scales: Vec<u32>,
    pub quats: Vec<u32>,
    pub colors: Vec<u32>,
    pub raw_opacity: Vec<u32>,
}

impl SplatParams {
    /// Number of splats.
    pub open spec fn num_splats(self) -> int {
        self.raw_opacity@.len() as int
    }

    /// The five arrays hold rows for the same number of splats.
    pub open spec fn wf(self) -> bool {
        &&& self.means@.len() == POSITION_WORDS * self.num_splats()
        &&& self.log_scales@.len() == POSITION_WORDS * self.num_splats()
        &&& self.quats@.len() == ROTATION_WORDS * self.num_splats()
        &&& self.colors@.len() == COLOR_WORDS * self.num_splats()
    }

    /// Tests whether the five arrays hold rows for the same number of splats.
    pub fn check_dims(&self) -> (ok: bool)
        ensures
            ok == self.wf(),
    {
        let n = self.raw_opacity.len();
        holds_rows(n, POSITION_WORDS, self.means.len()) && holds_rows(
            n,
            POSITION_WORDS,
            self.log_scales.len(),
        ) && holds_rows(n, ROTATION_WORDS, self.quats.len()) && holds_rows(
            n,
            COLOR_WORDS,
            self.colors.len(),
        )
    }
}

/// Number of words of an image: one for each pixel where the colour is
/// packed, one for each channel of each pixel where it is not.
pub open spec fn image_words(size: ImageSize, packed: bool) -> int {
    if packed {
        size.width * size.height
    } else {
        size.width * size.height * PIXEL_WORDS
    }
}

/// Tests whether an image has the number of words that its size asks for.
pub fn check_image(image: &Vec<u32>, size: ImageSize, packed: bool) -> (ok: bool)
    ensures
        ok == (image@.len() == image_words(size, packed)),
{
    let width = size.width as u64;
    let height = size.height as u64;
    assert(width * height <= 0xffff_ffff * 0xffff_ffff) by (nonlinear_arith)
        requires
            width <= 0xffff_ffff,
            height <= 0xffff_ffff,
    ;
    let pixels = width * height;
    if packed {
        image.len() as u64 == pixels
    } else {
        image.len() % PIXEL_WORDS == 0 && (image.len() / PIXEL_WORDS) as u64 == pixels
    }
}

/// A compute backend that can render splats. The image that it returns and
/// what it keeps for the backward pass are its own work: `check_image` and
/// `RenderAux::assemble` say what a caller may test of them.
pub trait Backend {
    /// Camera description, opaque to the bookkeeping.
    type Camera;

    /// Renders the splats as seen by the camera into an image of the given
    /// size over the background colour, and keeps what the backward pass
    /// needs. With `render_u32_buffer` the colour of a pixel is packed into
    /// one word.
    fn render_gaussians(
        cam: &Self::Camera,
        img_size: ImageSize,
        splats: &SplatParams,
        background: [u32; 3],
        render_u32_buffer: bool,
    ) -> (rendered: (Vec<u32>, RenderAux))
        requires
            splats.wf(),
    ;
}

/// A backend that also tracks gradients through the rendering operation.
pub trait AutodiffBackend: Backend {

}

} // verus!

//! Pixel sources: what an image generator has to offer, and the generators
//! that need nothing but integers.

use vstd::prelude::*;
use crate::color::{Color, IMG_MAX_COLOR};
use crate::error::RenderError;
use crate::render::is_pixel_count;

verus! {

/// A source of pixel colours.
pub trait PixelData {
    /// Whether the source can be asked for the pixel in column `x` of row
    /// `y`.
    spec fn has_pixel(&self, x: u16, y: u16) -> bool;

    /// Whether `color` is a colour that the source may give for the pixel.
    /// A source that samples at random admits several; a deterministic
    /// source admits one.
    spec fn admits(&self, x: u16, y: u16, color: Color) -> bool;

    /// Generates the colour of one pixel.
    fn get_pixel_rgb(&self, x: u16, y: u16) -> (color: Color)
        requires
            self.has_pixel(x, y),
        ensures
            self.admits(x, y, color),
    ;
}

/// Something with the size of an image.
pub trait ImageShape {
    /// The number of columns.
    spec fn width(&self) -> u16;

    /// The number of rows.
    spec fn height(&self) -> u16;

    /// The image's shape as `[width, height]`.
    fn shape(&self) -> (s: [u16; 2])
        ensures
            s[0] == self.width(),
            s[1] == self.height(),
    ;
}

/// An image's size, fixed by its width and the height that follows from
/// the aspect ratio.
#[derive(Clone, Copy, Debug, PartialEq, Eq, Structural)]
pub struct Image {
    pub width: u16,
    pub height: u16,
}

impl Image {
    /// The image of the given width. `rounded_height` is the width divided
    /// by the aspect ratio and rounded to the nearest integer. A height
    /// outside the range of pixel counts is refused.
    pub fn new(rounded_height: i64, width: u16) -> (r: Result<Image, RenderError>)
        ensures
            match r {
                Ok(image) => is_pixel_count(rounded_height as int) && image.width == width
                    && image.height == rounded_height,
                Err(e) => !is_pixel_count(rounded_height as int) && e
                    == RenderError::InvalidDimensions,
            },
    {
        if rounded_height < 0 || rounded_height > 65535 {
            Err(RenderError::InvalidDimensions)
        } else {
            Ok(Image { width, height: rounded_height as u16 })
        }
    }
}

impl ImageShape for Image {
    open spec fn width(&self) -> u16 {
        self.width
    }

    open spec fn height(&self) -> u16 {
        self.height
    }

    fn shape(&self) -> (s: [u16; 2]) {
        [self.width, self.height]
    }
}

/// An image that fades from black in the top row towards white, every row
/// in one shade of grey.
#[derive(Clone, Copy, Debug, PartialEq, Eq, Structural)]
pub struct BlackAndWhiteGradient {
    pub image: Image,
}

/// The grey of row `y` in a gradient of the given width: the largest channel
/// value times `y`, divided by the width, and of that the low eight bits.
pub open spec fn gradient_shade(width: u16, y: u16) -> int
    recommends
        width > 0,
{
    ((255 * y) / (width as int)) % 256
}

impl BlackAndWhiteGradient {
    /// The gradient of the given width; see `Image::new`.
    pub fn new(rounded_height: i64, width: u16) -> (r: Result<BlackAndWhiteGradient, RenderError>)
        ensures
            match r {
                Ok(gradient) => is_pixel_count(rounded_height as int) && gradient.image.width
                    == width && gradient.image.height == rounded_height,
                Err(e) => !is_pixel_count(rounded_height as int) && e
                    == RenderError::InvalidDimensions,
            },
    {
        match Image::new(rounded_height, width) {
            Ok(image) => Ok(BlackAndWhiteGradient { image }),
            Err(e) => Err(e),
        }
    }
}

impl ImageShape for BlackAndWhiteGradient {
    open spec fn width(&self) -> u16 {
        self.image.width
    }

    open spec fn height(&self) -> u16 {
        self.image.height
    }

    fn shape(&self) -> (s: [u16; 2]) {
        self.image.shape()
    }
}

impl PixelData for BlackAndWhiteGradient {
    /// The rows whose shade can be computed in sixteen bits, in an image
    /// that has columns.
    open spec fn has_pixel(&self, x: u16, y: u16) -> bool {
        self.image.width > 0 && 255 * y <= u16::MAX
    }

    open spec fn admits(&self, x: u16, y: u16, color: Color) -> bool {
        &&& color[0] == gradient_shade(self.image.width, y)
        &&& color[1] == gradient_shade(self.image.width, y)
        &&& color[2] == gradient_shade(self.image.width, y)
    }

    fn get_pixel_rgb(&self, _x: u16, y: u16) -> (color: Color) {
        let s = self.image.shape();
        let image_width: u16 = s[0];
        let scaled: u16 = (IMG_MAX_COLOR as u16) * y / image_width;
        let shade: u8 = (scaled % 256) as u8;
        [shade, shade, shade]
    }
}

} // verus!

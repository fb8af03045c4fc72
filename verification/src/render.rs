//! Render setup: the shape of the image to produce, and the single-slot
//! cache of the parameters derived for it.

use vstd::prelude::*;
use crate::error::RenderError;

verus! {

/// The size of the image to render, in pixels.
#[derive(Clone, Copy, Debug, PartialEq, Eq, Structural)]
pub struct ImageShape {
    pub width: u16,
    pub height: u16,
}

/// Whether `rounded_height` is a pixel count that an image can have.
pub open spec fn is_pixel_count(rounded_height: int) -> bool {
    0 <= rounded_height <= u16::MAX
}

impl ImageShape {
    /// The shape of an image of the given width. `rounded_height` is the
    /// width divided by the aspect ratio and rounded to the nearest integer.
    /// A height outside the range of pixel counts is refused, never
    /// truncated.
    pub fn new(width: u16, rounded_height: i64) -> (r: Result<ImageShape, RenderError>)
        ensures
            match r {
                Ok(shape) => is_pixel_count(rounded_height as int) && shape.width == width
                    && shape.height == rounded_height,
                Err(e) => !is_pixel_count(rounded_height as int) && e
                    == RenderError::InvalidDimensions,
            },
    {
        if rounded_height < 0 || rounded_height > 65535 {
            Err(RenderError::InvalidDimensions)
        } else {
            Ok(ImageShape { width, height: rounded_height as u16 })
        }
    }
}

/// How a render samples: the number of samples per pixel, whether their
/// rays are jittered inside the pixel, and the largest number of rays that
/// one sample's path may cast.
#[derive(Clone, Copy, Debug, PartialEq, Eq, Structural)]
pub struct RenderSettings {
    pub samples: u16,
    pub jitter: bool,
    pub max_depth: u16,
}

impl RenderSettings {
    /// The settings for the given choices. Without a choice a pixel gets
    /// one sample and a path at most ten rays. Rays are jittered only where
    /// a pixel gets more than one sample: a single sample goes through the
    /// pixel's centre.
    pub open spec fn spec_new(
        antialiasing_iters: Option<u16>,
        reflection_max_iters: Option<u16>,
    ) -> Self {
        let samples: u16 = match antialiasing_iters {
            Some(n) => n,
            None => 1,
        };
        RenderSettings {
            samples,
            jitter: samples > 1,
            max_depth: match reflection_max_iters {
                Some(n) => n,
                None => 10,
            },
        }
    }

    /// The settings for the given choices, with the defaults for those not
    /// made.
    pub fn new(antialiasing_iters: Option<u16>, reflection_max_iters: Option<u16>) -> (r: Self)
        ensures
            r == Self::spec_new(antialiasing_iters, reflection_max_iters),
    {
        let samples: u16 = match antialiasing_iters {
            Some(n) => n,
            None => 1,
        };
        let max_depth: u16 = match reflection_max_iters {
            Some(n) => n,
            None => 10,
        };
        RenderSettings { samples, jitter: samples > 1, max_depth }
    }
}

/// The render state that a scene keeps between renders: the shape of the
/// last image and the parameters derived for it. `P` is the type of those
/// parameters. The slot holds one entry, keyed by the image width.
pub struct Renderer<P> {
    pub img_shape: Option<ImageShape>,
    pub params: Option<P>,
}

impl<P> Renderer<P> {
    /// Whether the slot holds parameters that were derived for `img_width`.
    pub open spec fn serves(&self, img_width: u16) -> bool {
        &&& self.params is Some
        &&& self.img_shape is Some
        &&& self.img_shape->0.width == img_width
    }

    /// A renderer with the given slot contents.
    pub fn new(img_shape: Option<ImageShape>, params: Option<P>) -> (r: Self)
        ensures
            r.img_shape == img_shape,
            r.params == params,
    {
        Self { img_shape, params }
    }

    /// A renderer whose slot is empty.
    pub fn empty() -> (r: Self)
        ensures
            r.img_shape is None,
            r.params is None,
            forall|img_width: u16| !r.serves(img_width),
    {
        Self { img_shape: None, params: None }
    }

    /// Whether the parameters must be derived anew before a render at
    /// `img_width`: the slot is empty, or it was filled for another width.
    pub fn needs_refresh(&self, img_width: u16) -> (r: bool)
        ensures
            r == !self.serves(img_width),
    {
        match (&self.img_shape, &self.params) {
            (Some(shape), Some(_)) => shape.width != img_width,
            _ => true,
        }
    }

    /// Replaces the slot's contents by the shape and the parameters derived
    /// for a new render.
    pub fn refresh(&mut self, img_shape: ImageShape, params: P)
        ensures
            final(self).img_shape == Some(img_shape),
            final(self).params == Some(params),
    {
        self.img_shape = Some(img_shape);
        self.params = Some(params);
    }

    /// The shape and the parameters to render with at `img_width`: those in
    /// the slot where it serves that width, and nothing where it does not.
    pub fn current(&self, img_width: u16) -> (r: Option<(&ImageShape, &P)>)
        ensures
            match r {
                Some((shape, params)) => self.serves(img_width) && Some(*shape) == self.img_shape
                    && Some(*params) == self.params,
                None => !self.serves(img_width),
            },
    {
        match (&self.img_shape, &self.params) {
            (Some(shape), Some(params)) => {
                if shape.width == img_width {
                    Some((shape, params))
                } else {
                    None
                }
            },
            _ => None,
        }
    }
}

/// The slot holds one entry: it never serves two widths at once, so
/// parameters derived for one width are never handed out for another.
pub proof fn lemma_slot_serves_one_width<P>(renderer: Renderer<P>, first: u16, second: u16)
    requires
        renderer.serves(first),
        first != second,
    ensures
        !renderer.serves(second),
{
}

} // verus!

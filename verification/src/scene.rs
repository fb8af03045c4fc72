//! The scene: a camera, the objects in registration order, the geometry
//! that tells how rays and objects meet, and the render state. Rendering
//! prepares the render parameters, then shades every pixel: it samples the
//! pixel, follows every sample's path through the objects and blends the
//! light that the paths bring back.

use vstd::prelude::*;
use vstd::pervasive::unreached;
use std::marker::PhantomData;
use crate::color::{clamp_channel, color_from_scaled, grid_view, Color};
use crate::create_img_arr::{
    create_img_arr,
    is_deterministic,
    is_image_of,
    lemma_deterministic_image,
};
use crate::error::RenderError;
use crate::image_generators_catalog::PixelData;
use crate::path::{
    can_trace,
    is_decided_by_first_hit,
    is_single_valued,
    is_traced,
    lemma_first_hit_decides,
    lemma_trace_is_deterministic,
    trace,
    Radiance,
    Surface,
};
use crate::render::{is_pixel_count, ImageShape, RenderSettings, Renderer};

verus! {

/// The real-valued geometry of a scene, as the functions that compute it.
/// For a camera `C`, objects `O`, render parameters `P` and rays `R`:
/// `rounded_height` gives the image's height for a width, rounded to the
/// nearest integer; `derive` the render parameters for an image shape;
/// `primary` the primary ray of a pixel, jittered inside the pixel if told
/// so; `meet` the key of a ray's valid hit distance with an object, where
/// keys order as distances do; `surface` what the object hit does with
/// light; `scatter` the ray scattered from a hit with the given key; and
/// `blend` the colour of a pixel from the ends of its samples' paths, each
/// channel scaled to the byte range and rounded.
pub struct Geometry<H, D, A, M, K, G, B> {
    pub rounded_height: H,
    pub derive: D,
    pub primary: A,
    pub meet: M,
    pub surface: K,
    pub scatter: G,
    pub blend: B,
}

/// A scene of objects of type `O` under a camera of type `C`, with render
/// parameters of type `P` and the geometry `Y`. Objects stay in the order
/// in which they were added; none is ever removed. The render state is a
/// slot for one image width, filled by the scene itself.
pub struct Scene<C, O, P, Y> {
    camera: C,
    objects: Vec<O>,
    renderer: Renderer<P>,
    geometry: Y,
}

/// The grid of colours that a render returns, top row first.
pub type RenderResult = Vec<Vec<Color>>;

impl<C, O, P, Y> Scene<C, O, P, Y> {
    /// The scene's camera.
    pub closed spec fn spec_camera(&self) -> &C {
        &self.camera
    }

    /// The scene's objects, in registration order.
    pub closed spec fn spec_objects(&self) -> &Vec<O> {
        &self.objects
    }

    /// The scene's render state.
    pub closed spec fn spec_renderer(&self) -> &Renderer<P> {
        &self.renderer
    }

    /// The scene's geometry.
    pub closed spec fn spec_geometry(&self) -> &Y {
        &self.geometry
    }

    /// The scene's camera.
    #[verifier::when_used_as_spec(spec_camera)]
    pub fn camera(&self) -> (camera: &C)
        ensures
            camera == self.spec_camera(),
    {
        &self.camera
    }

    /// The scene's objects, in registration order.
    #[verifier::when_used_as_spec(spec_objects)]
    pub fn objects(&self) -> (objects: &Vec<O>)
        ensures
            objects == self.spec_objects(),
    {
        &self.objects
    }

    /// The scene's render state.
    #[verifier::when_used_as_spec(spec_renderer)]
    pub fn renderer(&self) -> (renderer: &Renderer<P>)
        ensures
            renderer == self.spec_renderer(),
    {
        &self.renderer
    }

    /// The scene's geometry.
    #[verifier::when_used_as_spec(spec_geometry)]
    pub fn geometry(&self) -> (geometry: &Y)
        ensures
            geometry == self.spec_geometry(),
    {
        &self.geometry
    }
}

impl<C, O, P, R, H, D, A, M, K, G, B> Scene<C, O, P, Geometry<H, D, A, M, K, G, B>> where
    H: Fn(&C, u16) -> i64,
    D: Fn(&C, ImageShape) -> P,
    A: Fn(&C, &P, u16, u16, bool) -> R,
    M: Fn(&O, &R) -> Option<u64>,
    K: Fn(&O, &R) -> Surface,
    G: Fn(&O, &R, u64) -> R,
    B: Fn(&Vec<(Radiance, R)>) -> [i64; 3],
 {
    /// Whether `shape` and `params` are derived for this scene's camera:
    /// the height is one that the geometry gives for the camera and the
    /// width, and a pixel count, and the parameters are what the geometry
    /// gives for the camera and the shape.
    pub open spec fn derives(&self, shape: ImageShape, params: P) -> bool {
        &&& exists|height: i64|
            #![trigger self.geometry().rounded_height.ensures((self.camera(), shape.width), height)]
            self.geometry().rounded_height.ensures((self.camera(), shape.width), height)
                && is_pixel_count(height as int) && shape.height == height
        &&& self.geometry().derive.ensures((self.camera(), shape), params)
    }

    /// The scene's invariant: the slot is empty or full, and what it holds
    /// is derived for this scene's camera.
    pub open spec fn wf(&self) -> bool {
        &&& self.renderer().img_shape is Some <==> self.renderer().params is Some
        &&& self.renderer().img_shape is Some ==> self.derives(
            self.renderer().img_shape->0,
            self.renderer().params->0,
        )
    }

    /// Whether the geometry gives, for the camera and the width, a height
    /// that no image can have.
    pub open spec fn refuses(&self, img_width: u16) -> bool {
        exists|height: i64|
            #![trigger self.geometry().rounded_height.ensures((self.camera(), img_width), height)]
            self.geometry().rounded_height.ensures((self.camera(), img_width), height)
                && !is_pixel_count(height as int)
    }

    /// Whether a render at `img_width` can be prepared: where the slot does
    /// not serve the width, the geometry can be asked for the height and
    /// for the parameters of a shape of that width.
    pub open spec fn can_prepare(&self, img_width: u16) -> bool {
        !self.renderer().serves(img_width) ==> {
            &&& self.geometry().rounded_height.requires((self.camera(), img_width))
            &&& forall|shape: ImageShape|
                shape.width == img_width ==> #[trigger] self.geometry().derive.requires(
                    (self.camera(), shape),
                )
        }
    }

    /// Whether `end` is the end of one sample of pixel `(x, y)`: of a path
    /// through the scene's objects from a primary ray that the geometry
    /// gives for the camera, the prepared parameters and the pixel, with
    /// the jitter and the limit of the settings.
    pub open spec fn is_sample(
        &self,
        settings: RenderSettings,
        x: u16,
        y: u16,
        end: (Radiance, R),
    ) -> bool {
        &&& self.renderer().params is Some
        &&& exists|first: R|
            #![trigger self.geometry().primary.ensures(
                (self.camera(), &self.renderer().params->0, x, y, settings.jitter),
                first,
            )]
            self.geometry().primary.ensures(
                (self.camera(), &self.renderer().params->0, x, y, settings.jitter),
                first,
            ) && is_traced(
                self.objects()@,
                &self.geometry().meet,
                &self.geometry().surface,
                &self.geometry().scatter,
                first,
                settings.max_depth,
                end,
            )
    }

    /// Whether `ends` are the ends of the samples of pixel `(x, y)`: as
    /// many as the settings say, each the end of one sample.
    pub open spec fn are_samples(
        &self,
        settings: RenderSettings,
        x: u16,
        y: u16,
        ends: Seq<(Radiance, R)>,
    ) -> bool {
        &&& ends.len() == settings.samples
        &&& forall|i: int|
            0 <= i < ends.len() ==> self.is_sample(settings, x, y, #[trigger] ends[i])
    }

    /// Whether pixel `(x, y)` can be sampled: parameters are prepared, and
    /// if a sample is to be taken, the geometry can be asked for the
    /// pixel's primary ray, and every path from such a ray can be followed.
    pub open spec fn can_sample(&self, settings: RenderSettings, x: u16, y: u16) -> bool {
        &&& self.renderer().params is Some
        &&& settings.samples > 0 ==> {
            &&& self.geometry().primary.requires(
                (self.camera(), &self.renderer().params->0, x, y, settings.jitter),
            )
            &&& forall|first: R| #[trigger]
                self.geometry().primary.ensures(
                    (self.camera(), &self.renderer().params->0, x, y, settings.jitter),
                    first,
                ) ==> can_trace(
                    self.objects()@,
                    &self.geometry().meet,
                    &self.geometry().surface,
                    &self.geometry().scatter,
                    &first,
                )
        }
    }

    /// Whether pixel `(x, y)` can be shaded: it can be sampled, and the
    /// geometry can be asked to blend the ends of its samples.
    pub open spec fn can_shade(&self, settings: RenderSettings, x: u16, y: u16) -> bool {
        &&& self.can_sample(settings, x, y)
        &&& forall|ends: Vec<(Radiance, R)>|
            self.are_samples(settings, x, y, ends@) ==> #[trigger] self.geometry().blend.requires(
                (&ends,),
            )
    }

    /// Whether `color` is a colour of pixel `(x, y)`: there are ends of the
    /// pixel's samples that the geometry blends to three scaled channels,
    /// and `color` holds each of them narrowed to a byte.
    pub open spec fn is_shaded(
        &self,
        settings: RenderSettings,
        x: u16,
        y: u16,
        color: Color,
    ) -> bool {
        exists|ends: Vec<(Radiance, R)>, scaled: [i64; 3]|
            #![trigger self.geometry().blend.ensures((&ends,), scaled)]
            {
                &&& self.are_samples(settings, x, y, ends@)
                &&& self.geometry().blend.ensures((&ends,), scaled)
                &&& forall|c: int| 0 <= c < 3 ==> color[c] as int == clamp_channel(scaled[c] as int)
            }
    }

    /// Whether `rows` is a render of this scene with the given settings:
    /// the image of the prepared shape, top row first, that holds in column
    /// `x` of row `y` a colour of pixel `(x, y)`.
    pub open spec fn is_render(&self, settings: RenderSettings, rows: Seq<Seq<Color>>) -> bool {
        &&& self.renderer().img_shape is Some
        &&& rows.len() == self.renderer().img_shape->0.height
        &&& forall|y: int|
            0 <= y < rows.len() ==> (#[trigger] rows[y]).len()
                == self.renderer().img_shape->0.width
        &&& forall|x: int, y: int|
            0 <= y < rows.len() && 0 <= x < rows[y].len() ==> self.is_shaded(
                settings,
                x as u16,
                y as u16,
                #[trigger] rows[y][x],
            )
    }

    /// A render is the image of its frame.
    pub proof fn lemma_render_is_image(&self, settings: RenderSettings, rows: Seq<Seq<Color>>)
        requires
            self.renderer().img_shape is Some,
        ensures
            self.is_render(settings, rows) <==> is_image_of(&self.frame(settings), rows),
    {
        let frame = self.frame(settings);
        assert(forall|x: u16, y: u16, color: Color|
            frame.admits(x, y, color) == self.is_shaded(settings, x, y, color));
    }

    /// A render of this scene with the given settings as a pixel source.
    pub open spec fn frame(&self, settings: RenderSettings) -> Frame<
        '_,
        C,
        O,
        P,
        Geometry<H, D, A, M, K, G, B>,
        R,
    > {
        Frame { scene: self, shape: self.renderer().img_shape->0, settings, rays: PhantomData }
    }

    /// Whether this scene is `other` but for the render state.
    pub open spec fn same_scene(&self, other: &Self) -> bool {
        &&& self.camera() == other.camera()
        &&& self.objects() == other.objects()
        &&& self.geometry() == other.geometry()
    }

    /// Whether a render at `img_width` can be made: it can be prepared, and
    /// with whatever is then in the slot for that width, every pixel of the
    /// image can be shaded.
    pub open spec fn can_render(&self, img_width: u16, settings: RenderSettings) -> bool {
        &&& self.can_prepare(img_width)
        &&& forall|prepared: Self, x: u16, y: u16|
            #![trigger prepared.can_shade(settings, x, y), self.same_scene(&prepared)]
            self.same_scene(&prepared) && prepared.wf() && prepared.renderer().serves(img_width)
                && (self.renderer().serves(img_width) ==> prepared.renderer()
                == self.renderer()) && x < img_width && y < prepared.renderer().img_shape->0.height
                ==> prepared.can_shade(settings, x, y)
    }

    /// With a single-valued geometry a sample of a pixel has one end.
    pub proof fn lemma_sample_is_unique(
        &self,
        settings: RenderSettings,
        x: u16,
        y: u16,
        end: (Radiance, R),
        other: (Radiance, R),
    )
        requires
            has_single_valued_geometry(self, settings),
            self.is_sample(settings, x, y, end),
            self.is_sample(settings, x, y, other),
        ensures
            end == other,
    {
        let first = choose|first: R|
            #![trigger self.geometry().primary.ensures(
                (self.camera(), &self.renderer().params->0, x, y, settings.jitter),
                first,
            )]
            self.geometry().primary.ensures(
                (self.camera(), &self.renderer().params->0, x, y, settings.jitter),
                first,
            ) && is_traced(
                self.objects()@,
                &self.geometry().meet,
                &self.geometry().surface,
                &self.geometry().scatter,
                first,
                settings.max_depth,
                end,
            );
        let second = choose|first: R|
            #![trigger self.geometry().primary.ensures(
                (self.camera(), &self.renderer().params->0, x, y, settings.jitter),
                first,
            )]
            self.geometry().primary.ensures(
                (self.camera(), &self.renderer().params->0, x, y, settings.jitter),
                first,
            ) && is_traced(
                self.objects()@,
                &self.geometry().meet,
                &self.geometry().surface,
                &self.geometry().scatter,
                first,
                settings.max_depth,
                other,
            );
        assert(first == second);
        lemma_trace_is_deterministic(
            self.objects()@,
            &self.geometry().meet,
            &self.geometry().surface,
            &self.geometry().scatter,
            first,
            settings.max_depth,
            end,
            other,
        );
    }

    /// The first hit decides what a pixel shows. Where the geometry gives
    /// `first` as the pixel's only primary ray and `distances` as the ray's
    /// only distance keys, a pixel's colour is blended, and narrowed, from
    /// samples that are each decided by the first hit: by the sky where the
    /// ray escapes, and else by the surface of the object with the smallest
    /// key, the first registered among those with that key.
    pub proof fn lemma_first_hit_decides_pixel(
        &self,
        settings: RenderSettings,
        x: u16,
        y: u16,
        color: Color,
        first: R,
        distances: Seq<Option<u64>>,
    )
        requires
            self.is_shaded(settings, x, y, color),
            settings.max_depth >= 1,
            forall|ray: R| #[trigger]
                self.geometry().primary.ensures(
                    (self.camera(), &self.renderer().params->0, x, y, settings.jitter),
                    ray,
                ) ==> ray == first,
            distances.len() == self.objects()@.len(),
            forall|i: int, key: Option<u64>|
                0 <= i < self.objects()@.len() && #[trigger] self.geometry().meet.ensures(
                    (&self.objects()@[i], &first),
                    key,
                ) ==> key == distances[i],
        ensures
            exists|ends: Vec<(Radiance, R)>, scaled: [i64; 3]|
                #![trigger self.geometry().blend.ensures((&ends,), scaled)]
                {
                    &&& ends@.len() == settings.samples
                    &&& forall|i: int|
                        0 <= i < ends@.len() ==> is_decided_by_first_hit(
                            self.objects()@,
                            &self.geometry().surface,
                            first,
                            distances,
                            settings.max_depth,
                            #[trigger] ends@[i],
                        )
                    &&& self.geometry().blend.ensures((&ends,), scaled)
                    &&& forall|c: int|
                        0 <= c < 3 ==> color[c] as int == clamp_channel(scaled[c] as int)
                },
    {
        let (ends, scaled) = choose|ends: Vec<(Radiance, R)>, scaled: [i64; 3]|
            #![trigger self.geometry().blend.ensures((&ends,), scaled)]
            {
                &&& self.are_samples(settings, x, y, ends@)
                &&& self.geometry().blend.ensures((&ends,), scaled)
                &&& forall|c: int| 0 <= c < 3 ==> color[c] as int == clamp_channel(scaled[c] as int)
            };
        assert forall|i: int| 0 <= i < ends@.len() implies is_decided_by_first_hit(
            self.objects()@,
            &self.geometry().surface,
            first,
            distances,
            settings.max_depth,
            #[trigger] ends@[i],
        ) by {
            assert(self.is_sample(settings, x, y, ends@[i]));
            let ray = choose|ray: R|
                #![trigger self.geometry().primary.ensures(
                    (self.camera(), &self.renderer().params->0, x, y, settings.jitter),
                    ray,
                )]
                self.geometry().primary.ensures(
                    (self.camera(), &self.renderer().params->0, x, y, settings.jitter),
                    ray,
                ) && is_traced(
                    self.objects()@,
                    &self.geometry().meet,
                    &self.geometry().surface,
                    &self.geometry().scatter,
                    ray,
                    settings.max_depth,
                    ends@[i],
                );
            lemma_first_hit_decides(
                self.objects()@,
                &self.geometry().meet,
                &self.geometry().surface,
                &self.geometry().scatter,
                first,
                settings.max_depth,
                ends@[i],
                distances,
            );
        }
    }

    /// An empty scene under the given camera, with nothing prepared.
    pub fn new(camera: C, geometry: Geometry<H, D, A, M, K, G, B>) -> (scene: Self)
        ensures
            scene.wf(),
            *scene.camera() == camera,
            *scene.geometry() == geometry,
            scene.objects()@ == Seq::<O>::empty(),
            scene.renderer().img_shape is None,
            scene.renderer().params is None,
    {
        Self { camera, objects: Vec::new(), renderer: Renderer::empty(), geometry }
    }

    /// Registers an object behind those already in the scene.
    pub fn add_object(&mut self, object: O)
        ensures
            final(self).objects()@ == old(self).objects()@.push(object),
            final(self).camera() == old(self).camera(),
            final(self).geometry() == old(self).geometry(),
            final(self).renderer() == old(self).renderer(),
            old(self).wf() ==> final(self).wf(),
    {
        self.objects.push(object);
    }

    /// Registers several objects, in their order, behind those already in
    /// the scene.
    pub fn add_objects(&mut self, objects: Vec<O>)
        ensures
            final(self).objects()@ == old(self).objects()@ + objects@,
            final(self).camera() == old(self).camera(),
            final(self).geometry() == old(self).geometry(),
            final(self).renderer() == old(self).renderer(),
            old(self).wf() ==> final(self).wf(),
    {
        let mut objects = objects;
        self.objects.append(&mut objects);
    }

    /// Populates the render parameters if the slot does not serve
    /// `img_width`: if it is empty, or was filled for another width. Where
    /// it serves the width, nothing is derived and the scene is left as it
    /// is. Else the geometry gives the image's height; if that is a pixel
    /// count, the geometry gives the parameters and both replace the slot's
    /// contents; if it is none, the render is refused with
    /// `InvalidDimensions` and the scene is left as it is.
    pub fn prepare_render(&mut self, img_width: u16) -> (r: Result<(), RenderError>)
        requires
            old(self).wf(),
            old(self).can_prepare(img_width),
        ensures
            final(self).wf(),
            old(self).same_scene(final(self)),
            old(self).renderer().serves(img_width) ==> r is Ok && final(self).renderer() == old(
                self,
            ).renderer(),
            match r {
                Ok(_) => final(self).renderer().serves(img_width),
                Err(e) => e == RenderError::InvalidDimensions && old(self).refuses(img_width)
                    && final(self).renderer() == old(self).renderer(),
            },
    {
        if !self.renderer.needs_refresh(img_width) {
            return Ok(());
        }
        let height = (self.geometry.rounded_height)(&self.camera, img_width);
        match ImageShape::new(img_width, height) {
            Ok(shape) => {
                let params = (self.geometry.derive)(&self.camera, shape);
                self.renderer.refresh(shape, params);
                Ok(())
            },
            Err(e) => Err(e),
        }
    }

    /// Follows the paths of all samples of one pixel: as many as the
    /// settings say, each from a primary ray of its own that the geometry
    /// gives for the pixel, jittered where the settings say so. Returns the
    /// end of every path, in the order in which the samples were taken.
    pub fn sample_pixel(&self, settings: RenderSettings, x: u16, y: u16) -> (ends: Vec<
        (Radiance, R),
    >)
        requires
            self.can_sample(settings, x, y),
        ensures
            self.are_samples(settings, x, y, ends@),
    {
        let mut ends: Vec<(Radiance, R)> = Vec::new();
        let params = match &self.renderer.params {
            Some(params) => params,
            None => unreached(),
        };
        let mut taken: u16 = 0;
        while taken < settings.samples
            invariant
                taken <= settings.samples,
                self.can_sample(settings, x, y),
                self.renderer().params == Some(*params),
                ends@.len() == taken,
                forall|i: int|
                    0 <= i < ends@.len() ==> self.is_sample(settings, x, y, #[trigger] ends@[i]),
            decreases settings.samples - taken,
        {
            let first = (self.geometry.primary)(&self.camera, params, x, y, settings.jitter);
            let end = trace(
                &self.objects,
                first,
                settings.max_depth,
                &self.geometry.meet,
                &self.geometry.surface,
                &self.geometry.scatter,
            );
            let ghost before = ends@;
            ends.push(end);
            assert forall|i: int| 0 <= i < ends@.len() implies self.is_sample(
                settings,
                x,
                y,
                #[trigger] ends@[i],
            ) by {
                if i < before.len() {
                    assert(ends@[i] == before[i]);
                }
            }
            taken += 1;
        }
        ends
    }

    /// Shades one pixel: samples it, lets the geometry blend the ends of
    /// the samples' paths to three scaled channels, and narrows each to a
    /// byte.
    pub fn shade_pixel(&self, settings: RenderSettings, x: u16, y: u16) -> (color: Color)
        requires
            self.can_shade(settings, x, y),
        ensures
            self.is_shaded(settings, x, y, color),
    {
        let ends = self.sample_pixel(settings, x, y);
        assert(self.geometry().blend.requires((&ends,)));
        let scaled = (self.geometry.blend)(&ends);
        let color = color_from_scaled(scaled[0], scaled[1], scaled[2]);
        assert(self.geometry().blend.ensures((&ends,), scaled));
        assert(self.is_shaded(settings, x, y, color));
        color
    }


    /// Renders the scene into an image `img_width` pixels wide. The render
    /// is prepared as `prepare_render` says; where that is refused, so is the
    /// render, before any pixel is shaded. Then every pixel of the prepared
    /// shape is shaded once, row by row from the top, with the settings that
    /// the two choices give.
    pub fn render(
        &mut self,
        img_width: u16,
        antialiasing_iters: Option<u16>,
        reflection_max_iters: Option<u16>,
    ) -> (r: Result<RenderResult, RenderError>)
        requires
            old(self).wf(),
            old(self).can_render(
                img_width,
                RenderSettings::spec_new(antialiasing_iters, reflection_max_iters),
            ),
        ensures
            final(self).wf(),
            old(self).same_scene(final(self)),
            old(self).renderer().serves(img_width) ==> r is Ok && final(self).renderer() == old(
                self,
            ).renderer(),
            match r {
                Ok(img_arr) => final(self).renderer().serves(img_width) && final(self).is_render(
                    RenderSettings::spec_new(antialiasing_iters, reflection_max_iters),
                    grid_view(&img_arr),
                ),
                Err(e) => e == RenderError::InvalidDimensions && old(self).refuses(img_width)
                    && final(self).renderer() == old(self).renderer(),
            },
    {
        let settings = RenderSettings::new(antialiasing_iters, reflection_max_iters);
        match self.prepare_render(img_width) {
            Ok(_) => {},
            Err(e) => {
                return Err(e);
            },
        }
        let shape = match self.renderer.current(img_width) {
            Some((shape, _)) => *shape,
            None => unreached(),
        };
        let frame = Frame { scene: &*self, shape, settings, rays: PhantomData };
        let img_arr = create_img_arr(&frame);
        proof {
            self.lemma_render_is_image(settings, grid_view(&img_arr));
        }
        Ok(img_arr)
    }
}

/// One render of a scene as a pixel source: pixel `(x, y)` is shaded by
/// the scene with the frame's settings. `R` is the type of the scene's
/// rays.
pub struct Frame<'a, C, O, P, Y, R> {
    pub scene: &'a Scene<C, O, P, Y>,
    pub shape: ImageShape,
    pub settings: RenderSettings,
    pub rays: PhantomData<R>,
}

impl<'a, C, O, P, R, H, D, A, M, K, G, B> PixelData for Frame<
    'a,
    C,
    O,
    P,
    Geometry<H, D, A, M, K, G, B>,
    R,
> where
    H: Fn(&C, u16) -> i64,
    D: Fn(&C, ImageShape) -> P,
    A: Fn(&C, &P, u16, u16, bool) -> R,
    M: Fn(&O, &R) -> Option<u64>,
    K: Fn(&O, &R) -> Surface,
    G: Fn(&O, &R, u64) -> R,
    B: Fn(&Vec<(Radiance, R)>) -> [i64; 3],
 {
    open spec fn has_pixel(&self, x: u16, y: u16) -> bool {
        self.scene.can_shade(self.settings, x, y)
    }

    open spec fn admits(&self, x: u16, y: u16, color: Color) -> bool {
        self.scene.is_shaded(self.settings, x, y, color)
    }

    fn get_pixel_rgb(&self, x: u16, y: u16) -> (color: Color) {
        self.scene.shade_pixel(self.settings, x, y)
    }
}

impl<'a, C, O, P, Y, R> crate::image_generators_catalog::ImageShape for Frame<'a, C, O, P, Y, R> {
    open spec fn width(&self) -> u16 {
        self.shape.width
    }

    open spec fn height(&self) -> u16 {
        self.shape.height
    }

    fn shape(&self) -> (s: [u16; 2]) {
        [self.shape.width, self.shape.height]
    }
}

/// Whether the scene shades with one colour at most for every pixel under
/// the given settings.
pub open spec fn shades_deterministically<C, O, P, R, H, D, A, M, K, G, B>(
    scene: &Scene<C, O, P, Geometry<H, D, A, M, K, G, B>>,
    settings: RenderSettings,
) -> bool where
    H: Fn(&C, u16) -> i64,
    D: Fn(&C, ImageShape) -> P,
    A: Fn(&C, &P, u16, u16, bool) -> R,
    M: Fn(&O, &R) -> Option<u64>,
    K: Fn(&O, &R) -> Surface,
    G: Fn(&O, &R, u64) -> R,
    B: Fn(&Vec<(Radiance, R)>) -> [i64; 3],
 {
    is_deterministic(&scene.frame(settings))
}

/// Whether the scene's geometry gives one answer at most to each question
/// that shading asks under the given settings: one primary ray for a pixel
/// with the settings' jitter, one answer each about objects and rays as
/// `is_single_valued` says, and one blend for the same ends.
pub open spec fn has_single_valued_geometry<C, O, P, R, H, D, A, M, K, G, B>(
    scene: &Scene<C, O, P, Geometry<H, D, A, M, K, G, B>>,
    settings: RenderSettings,
) -> bool where
    H: Fn(&C, u16) -> i64,
    D: Fn(&C, ImageShape) -> P,
    A: Fn(&C, &P, u16, u16, bool) -> R,
    M: Fn(&O, &R) -> Option<u64>,
    K: Fn(&O, &R) -> Surface,
    G: Fn(&O, &R, u64) -> R,
    B: Fn(&Vec<(Radiance, R)>) -> [i64; 3],
 {
    &&& is_single_valued(
        scene.objects()@,
        &scene.geometry().meet,
        &scene.geometry().surface,
        &scene.geometry().scatter,
    )
    &&& forall|x: u16, y: u16, first: R, second: R|
        #![trigger
            scene.geometry().primary.ensures(
                (scene.camera(), &scene.renderer().params->0, x, y, settings.jitter),
                first,
            ),
            scene.geometry().primary.ensures(
                (scene.camera(), &scene.renderer().params->0, x, y, settings.jitter),
                second,
            ),
        ]
        scene.geometry().primary.ensures(
            (scene.camera(), &scene.renderer().params->0, x, y, settings.jitter),
            first,
        ) && scene.geometry().primary.ensures(
            (scene.camera(), &scene.renderer().params->0, x, y, settings.jitter),
            second,
        ) ==> first == second
    &&& forall|ends: Vec<(Radiance, R)>, others: Vec<(Radiance, R)>, first: [i64; 3], second: [i64; 3]|
        #![trigger
            scene.geometry().blend.ensures((&ends,), first),
            scene.geometry().blend.ensures((&others,), second),
        ]
        ends@ == others@ && scene.geometry().blend.ensures((&ends,), first)
            && scene.geometry().blend.ensures((&others,), second) ==> first == second
}

/// Shading is as deterministic as the geometry: where the geometry gives
/// one answer at most to each question, a pixel has one colour. With one
/// sample per pixel no ray is jittered, so primary rays through the pixels'
/// centres, objects that are not diffuse or scatter in one way, and one way
/// to blend make every render of the scene the same.
pub proof fn lemma_single_valued_geometry_shades_deterministically<C, O, P, R, H, D, A, M, K, G, B>(
    scene: &Scene<C, O, P, Geometry<H, D, A, M, K, G, B>>,
    settings: RenderSettings,
) where
    H: Fn(&C, u16) -> i64,
    D: Fn(&C, ImageShape) -> P,
    A: Fn(&C, &P, u16, u16, bool) -> R,
    M: Fn(&O, &R) -> Option<u64>,
    K: Fn(&O, &R) -> Surface,
    G: Fn(&O, &R, u64) -> R,
    B: Fn(&Vec<(Radiance, R)>) -> [i64; 3],

    requires
        has_single_valued_geometry(scene, settings),
    ensures
        shades_deterministically(scene, settings),
{
    let frame = scene.frame(settings);
    assert forall|x: u16, y: u16, first: Color, second: Color|
        #![trigger frame.admits(x, y, first), frame.admits(x, y, second)]
        frame.admits(x, y, first) && frame.admits(x, y, second) implies first == second by {
        assert(scene.is_shaded(settings, x, y, first));
        assert(scene.is_shaded(settings, x, y, second));
        let (ends, scaled) = choose|ends: Vec<(Radiance, R)>, scaled: [i64; 3]|
            #![trigger scene.geometry().blend.ensures((&ends,), scaled)]
            {
                &&& scene.are_samples(settings, x, y, ends@)
                &&& scene.geometry().blend.ensures((&ends,), scaled)
                &&& forall|c: int| 0 <= c < 3 ==> first[c] as int == clamp_channel(scaled[c] as int)
            };
        let (others, other_scaled) = choose|ends: Vec<(Radiance, R)>, scaled: [i64; 3]|
            #![trigger scene.geometry().blend.ensures((&ends,), scaled)]
            {
                &&& scene.are_samples(settings, x, y, ends@)
                &&& scene.geometry().blend.ensures((&ends,), scaled)
                &&& forall|c: int|
                    0 <= c < 3 ==> second[c] as int == clamp_channel(scaled[c] as int)
            };
        assert forall|i: int| 0 <= i < ends@.len() implies ends@[i] == others@[i] by {
            scene.lemma_sample_is_unique(settings, x, y, ends@[i], others@[i]);
        }
        assert(ends@ =~= others@);
        assert(scaled == other_scaled);
        assert(first =~= second);
    }
}

/// Rendering is as deterministic as shading is: where the scene shades
/// with one colour at most for every pixel, two renders of it with the same
/// settings and the same prepared shape are equal, pixel for pixel.
pub proof fn lemma_deterministic_render<C, O, P, R, H, D, A, M, K, G, B>(
    scene: &Scene<C, O, P, Geometry<H, D, A, M, K, G, B>>,
    settings: RenderSettings,
    first: Seq<Seq<Color>>,
    second: Seq<Seq<Color>>,
) where
    H: Fn(&C, u16) -> i64,
    D: Fn(&C, ImageShape) -> P,
    A: Fn(&C, &P, u16, u16, bool) -> R,
    M: Fn(&O, &R) -> Option<u64>,
    K: Fn(&O, &R) -> Surface,
    G: Fn(&O, &R, u64) -> R,
    B: Fn(&Vec<(Radiance, R)>) -> [i64; 3],

    requires
        shades_deterministically(scene, settings),
        scene.is_render(settings, first),
        scene.is_render(settings, second),
    ensures
        first == second,
{
    scene.lemma_render_is_image(settings, first);
    scene.lemma_render_is_image(settings, second);
    lemma_deterministic_image(&scene.frame(settings), first, second);
}

} // verus!

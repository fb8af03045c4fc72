use std::cell::Cell;

use ray_tracing_in_one_weekend::error::RenderError;
use ray_tracing_in_one_weekend::path::{Radiance, Surface};
use ray_tracing_in_one_weekend::render::{ImageShape, RenderSettings};
use ray_tracing_in_one_weekend::scene::{Geometry, Scene};

// A scene of numbers. The camera is the aspect ratio in hundredths, the
// render parameters are the image's pixel count, a ray is the number of its
// pixel, and an object is hit by the rays that it divides, at a distance of
// the object itself.

fn rounded_height(aspect_hundredths: &u32, img_width: u16) -> i64 {
    ((img_width as f64) / (*aspect_hundredths as f64 / 100.0)).round() as i64
}

fn pixel_count(_camera: &u32, shape: ImageShape) -> u32 {
    shape.width as u32 * shape.height as u32
}

fn primary(_camera: &u32, _params: &u32, x: u16, y: u16, jitter: bool) -> u32 {
    2 + x as u32 + 10 * y as u32 + if jitter { 100 } else { 0 }
}

fn meet(object: &u32, ray: &u32) -> Option<u64> {
    if *ray % *object == 0 {
        Some(*object as u64)
    } else {
        None
    }
}

/// Even objects are diffuse, odd ones show themselves as a colour.
fn surface(object: &u32, _ray: &u32) -> Surface {
    if *object % 2 == 0 {
        Surface::Diffuse
    } else {
        Surface::Flat([*object as u8, 0, 0])
    }
}

/// The scattered ray is the next number.
fn scatter(_object: &u32, ray: &u32, _key: u64) -> u32 {
    *ray + 1
}

/// The colour tells the last sample's light, its halvings and the number of
/// samples, each out of the byte range where the test wants it so.
fn blend(ends: &Vec<(Radiance, u32)>) -> [i64; 3] {
    let light = match ends.last() {
        None => -1,
        Some((Radiance::Absorbed, _)) => 0,
        Some((Radiance::Sky { halvings }, ray)) => 1000 * *halvings as i64 + *ray as i64,
        Some((Radiance::Surface { color, halvings }, _)) => {
            1000 * *halvings as i64 + color[0] as i64
        }
    };
    [light % 1000, light / 1000, ends.len() as i64]
}

type Numbers = Scene<
    u32,
    u32,
    u32,
    Geometry<
        fn(&u32, u16) -> i64,
        fn(&u32, ImageShape) -> u32,
        fn(&u32, &u32, u16, u16, bool) -> u32,
        fn(&u32, &u32) -> Option<u64>,
        fn(&u32, &u32) -> Surface,
        fn(&u32, &u32, u64) -> u32,
        fn(&Vec<(Radiance, u32)>) -> [i64; 3],
    >,
>;

fn numbers(aspect_hundredths: u32) -> Numbers {
    Scene::new(
        aspect_hundredths,
        Geometry {
            rounded_height,
            derive: pixel_count,
            primary,
            meet,
            surface,
            scatter,
            blend,
        },
    )
}

#[test]
fn a_new_scene_is_empty_and_unprepared() {
    let scene = numbers(200);
    assert_eq!(*scene.camera(), 200);
    assert!(scene.objects().is_empty());
    assert!(scene.renderer().img_shape.is_none());
    assert!(scene.renderer().params.is_none());
}

#[test]
fn objects_stay_in_registration_order() {
    let mut scene = numbers(200);
    scene.add_object(3);
    scene.add_object(1);
    scene.add_objects(vec![4, 1, 5]);
    scene.add_object(9);
    scene.add_objects(vec![]);
    assert_eq!(*scene.objects(), vec![3, 1, 4, 1, 5, 9]);
    assert_eq!(*scene.camera(), 200);
}

#[test]
fn preparing_fills_the_slot_for_the_width() {
    let mut scene = numbers(200);
    assert_eq!(scene.prepare_render(8), Ok(()));
    assert_eq!(
        scene.renderer().img_shape,
        Some(ImageShape {
            width: 8,
            height: 4
        })
    );
    assert_eq!(scene.renderer().params, Some(32));
}

#[test]
fn preparing_derives_nothing_while_the_width_stays() {
    let derived = Cell::new(0);
    let mut scene = Scene::new(
        100u32,
        Geometry {
            rounded_height,
            derive: |_camera: &u32, shape: ImageShape| {
                derived.set(derived.get() + 1);
                shape.width as u32
            },
            primary,
            meet,
            surface,
            scatter,
            blend,
        },
    );
    scene.prepare_render(8).unwrap();
    scene.prepare_render(8).unwrap();
    scene.render(8, None, None).unwrap();
    scene.prepare_render(8).unwrap();
    assert_eq!(derived.get(), 1);
    assert_eq!(scene.renderer().params, Some(8));
}

#[test]
fn preparing_derives_anew_whenever_the_width_changes() {
    let derived = Cell::new(0);
    let mut scene = Scene::new(
        100u32,
        Geometry {
            rounded_height,
            derive: |_camera: &u32, shape: ImageShape| {
                derived.set(derived.get() + 1);
                shape.width as u32
            },
            primary,
            meet,
            surface,
            scatter,
            blend,
        },
    );
    scene.prepare_render(8).unwrap();
    scene.prepare_render(9).unwrap();
    assert_eq!(scene.renderer().params, Some(9));
    scene.prepare_render(8).unwrap();
    assert_eq!(derived.get(), 3);
    assert_eq!(scene.renderer().params, Some(8));
    assert_eq!(
        scene.renderer().img_shape,
        Some(ImageShape {
            width: 8,
            height: 8
        })
    );
}

#[test]
fn preparing_refuses_a_height_out_of_range_and_keeps_the_slot() {
    // An aspect ratio of one hundredth makes the image a hundred times as
    // high as wide.
    let mut scene = numbers(1);
    assert_eq!(scene.prepare_render(600), Ok(()));
    assert_eq!(scene.prepare_render(700), Err(RenderError::InvalidDimensions));
    assert_eq!(
        scene.renderer().img_shape,
        Some(ImageShape {
            width: 600,
            height: 60000
        })
    );
    assert_eq!(scene.renderer().params, Some(36_000_000));
}

#[test]
fn a_pixel_gets_as_many_samples_as_the_settings_say() {
    let mut scene = numbers(100);
    scene.prepare_render(4).unwrap();
    for samples in [0u16, 1, 2, 7] {
        let settings = RenderSettings::new(Some(samples), Some(5));
        let ends = scene.sample_pixel(settings, 3, 2);
        let first = if samples > 1 { 125 } else { 25 };
        assert_eq!(
            ends,
            vec![(Radiance::Sky { halvings: 0 }, first); samples as usize]
        );
    }
}

#[test]
fn the_samples_of_a_pixel_come_in_the_order_taken() {
    let taken = Cell::new(0u32);
    let mut scene = Scene::new(
        100u32,
        Geometry {
            rounded_height,
            derive: pixel_count,
            primary: |_camera: &u32, _params: &u32, _x: u16, _y: u16, _jitter: bool| {
                taken.set(taken.get() + 1);
                taken.get()
            },
            meet,
            surface,
            scatter,
            blend,
        },
    );
    scene.add_object(4);
    scene.add_object(3);
    scene.prepare_render(1).unwrap();
    let settings = RenderSettings::new(Some(4), Some(10));
    assert_eq!(
        scene.sample_pixel(settings, 0, 0),
        vec![
            (Radiance::Sky { halvings: 0 }, 1),
            (Radiance::Sky { halvings: 0 }, 2),
            (
                Radiance::Surface {
                    color: [3, 0, 0],
                    halvings: 0
                },
                3
            ),
            (Radiance::Sky { halvings: 1 }, 5),
        ]
    );
}

#[test]
fn a_pixel_shows_the_nearest_object_though_registered_later() {
    let mut scene = numbers(100);
    scene.add_objects(vec![7, 5, 3]);
    scene.prepare_render(200).unwrap();
    let settings = RenderSettings::new(None, None);
    // The ray of pixel (103, 0) is 105, hit by 7, 5 and 3: 3 is nearest.
    assert_eq!(scene.shade_pixel(settings, 103, 0), [3, 0, 1]);
    // The ray of pixel (33, 0) is 35, hit by 7 and 5: 5 is nearest.
    assert_eq!(scene.shade_pixel(settings, 33, 0), [5, 0, 1]);
    // The ray of pixel (9, 0) is 11, hit by none.
    assert_eq!(scene.shade_pixel(settings, 9, 0), [11, 0, 1]);
}

#[test]
fn a_pixel_shows_the_first_registered_of_equally_near_objects() {
    let mut scene = Scene::new(
        100u32,
        Geometry {
            rounded_height,
            derive: pixel_count,
            primary,
            meet: |_object: &u32, _ray: &u32| Some(1u64),
            surface,
            scatter,
            blend,
        },
    );
    scene.add_objects(vec![9, 7, 5]);
    scene.prepare_render(4).unwrap();
    let settings = RenderSettings::new(None, None);
    assert_eq!(scene.shade_pixel(settings, 0, 0), [9, 0, 1]);
}

#[test]
fn a_diffuse_hit_with_one_ray_allowed_is_absorbed() {
    let mut scene = numbers(100);
    scene.add_object(2);
    scene.prepare_render(4).unwrap();
    let settings = RenderSettings::new(Some(1), Some(1));
    assert_eq!(
        scene.sample_pixel(settings, 0, 0),
        vec![(Radiance::Absorbed, 2)]
    );
    assert_eq!(scene.shade_pixel(settings, 0, 0), [0, 0, 1]);
}

#[test]
fn a_sample_is_halved_once_for_every_diffuse_hit() {
    let mut scene = numbers(100);
    scene.add_objects(vec![2, 3]);
    scene.prepare_render(20).unwrap();
    let settings = RenderSettings::new(Some(1), Some(10));
    // Ray 2 hits the diffuse 2 and scatters to 3, which hits the flat 3.
    assert_eq!(
        scene.sample_pixel(settings, 0, 0),
        vec![(
            Radiance::Surface {
                color: [3, 0, 0],
                halvings: 1
            },
            3
        )]
    );
    // Ray 4 hits the diffuse 2 and scatters to 5, which escapes.
    assert_eq!(
        scene.sample_pixel(settings, 2, 0),
        vec![(Radiance::Sky { halvings: 1 }, 5)]
    );
    assert_eq!(scene.shade_pixel(settings, 2, 0), [5, 1, 1]);
    // Ray 3 hits the flat 3 at once.
    assert_eq!(scene.shade_pixel(settings, 1, 0), [3, 0, 1]);
}

#[test]
fn a_render_shades_every_pixel_of_the_prepared_shape() {
    let mut scene = numbers(200);
    scene.add_objects(vec![5, 3]);
    let img_arr = scene.render(6, Some(3), Some(5)).unwrap();
    // Rays are 102 to 107 in the top row and ten more in each row below.
    assert_eq!(
        img_arr,
        vec![
            vec![[3u8, 0, 3], [103, 0, 3], [104, 0, 3], [3, 0, 3], [106, 0, 3], [107, 0, 3]],
            vec![[112, 0, 3], [113, 0, 3], [3, 0, 3], [5, 0, 3], [116, 0, 3], [3, 0, 3]],
            vec![[122, 0, 3], [3, 0, 3], [124, 0, 3], [5, 0, 3], [3, 0, 3], [127, 0, 3]],
        ]
    );
    assert_eq!(scene.renderer().params, Some(18));
    assert_eq!(*scene.objects(), vec![5, 3]);
}

#[test]
fn a_render_narrows_what_is_blended_to_bytes() {
    let mut scene = Scene::new(
        100u32,
        Geometry {
            rounded_height,
            derive: pixel_count,
            primary,
            meet,
            surface,
            scatter,
            blend: |_ends: &Vec<(Radiance, u32)>| [-7i64, 128, 300],
        },
    );
    assert_eq!(scene.render(1, None, None), Ok(vec![vec![[0, 128, 255]]]));
}

#[test]
fn a_render_passes_the_default_settings_on() {
    let seen = Cell::new((false, 0usize));
    let mut scene = Scene::new(
        100u32,
        Geometry {
            rounded_height,
            derive: pixel_count,
            primary: |_camera: &u32, _params: &u32, _x: u16, _y: u16, jitter: bool| {
                seen.set((jitter, seen.get().1));
                2u32
            },
            meet,
            surface,
            scatter: |_object: &u32, _ray: &u32, _key: u64| 2u32,
            blend: |ends: &Vec<(Radiance, u32)>| {
                seen.set((seen.get().0, ends.len()));
                match ends[0].0 {
                    Radiance::Absorbed => [1i64, 1, 1],
                    _ => [0, 0, 0],
                }
            },
        },
    );
    scene.add_object(2);
    // One sample without jitter; the ten rays allowed all hit the diffuse 2.
    assert_eq!(scene.render(1, None, None), Ok(vec![vec![[1, 1, 1]]]));
    assert_eq!(seen.get(), (false, 1));
}

#[test]
fn a_refused_render_shades_no_pixel() {
    let blended = Cell::new(0u32);
    let mut scene = Scene::new(
        1u32,
        Geometry {
            rounded_height,
            derive: pixel_count,
            primary,
            meet,
            surface,
            scatter,
            blend: |_ends: &Vec<(Radiance, u32)>| {
                blended.set(blended.get() + 1);
                [0i64, 0, 0]
            },
        },
    );
    assert_eq!(
        scene.render(700, None, None),
        Err(RenderError::InvalidDimensions)
    );
    assert_eq!(blended.get(), 0);
    assert!(scene.renderer().img_shape.is_none());
    assert!(scene.renderer().params.is_none());
}

#[test]
fn a_render_shades_each_pixel_once() {
    let blended = Cell::new(0u32);
    let mut scene = Scene::new(
        200u32,
        Geometry {
            rounded_height,
            derive: pixel_count,
            primary,
            meet,
            surface,
            scatter,
            blend: |_ends: &Vec<(Radiance, u32)>| {
                blended.set(blended.get() + 1);
                [0i64, 0, 0]
            },
        },
    );
    let img_arr = scene.render(10, Some(4), None).unwrap();
    assert_eq!(img_arr.len(), 5);
    assert_eq!(blended.get(), 50);
}

#[test]
fn a_render_of_width_zero_has_no_rows() {
    let mut scene = numbers(200);
    assert_eq!(scene.render(0, None, None), Ok(vec![]));
}

#[test]
fn renders_at_one_width_another_and_the_first_again_agree() {
    // The primary ray tells the parameters in use, so stale ones would show.
    let mut scene = Scene::new(
        200u32,
        Geometry {
            rounded_height,
            derive: pixel_count,
            primary: |_camera: &u32, params: &u32, _x: u16, _y: u16, _jitter: bool| *params,
            meet,
            surface,
            scatter,
            blend,
        },
    );
    let first = scene.render(8, None, None).unwrap();
    let second = scene.render(6, None, None).unwrap();
    let third = scene.render(8, None, None).unwrap();
    assert_eq!(first[0][0], [32, 0, 1]);
    assert_eq!(second[0][0], [18, 0, 1]);
    assert_eq!(first.len(), 4);
    assert_eq!(second.len(), 3);
    assert_eq!(first, third);
}

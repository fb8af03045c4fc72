use ray_tracing_in_one_weekend::error::RenderError;
use ray_tracing_in_one_weekend::render::{ImageShape, RenderSettings, Renderer};

#[test]
fn a_height_in_range_gives_the_shape() {
    assert_eq!(
        ImageShape::new(640, 360),
        Ok(ImageShape {
            width: 640,
            height: 360
        })
    );
    assert_eq!(
        ImageShape::new(0, 0),
        Ok(ImageShape {
            width: 0,
            height: 0
        })
    );
    assert_eq!(
        ImageShape::new(1, 65535),
        Ok(ImageShape {
            width: 1,
            height: 65535
        })
    );
}

#[test]
fn a_height_out_of_range_is_refused() {
    assert_eq!(ImageShape::new(1, 65536), Err(RenderError::InvalidDimensions));
    assert_eq!(ImageShape::new(1, -1), Err(RenderError::InvalidDimensions));
    assert_eq!(
        ImageShape::new(65535, i64::MAX),
        Err(RenderError::InvalidDimensions)
    );
    assert_eq!(
        ImageShape::new(65535, i64::MIN),
        Err(RenderError::InvalidDimensions)
    );
}

#[test]
fn the_height_of_the_default_aspect_ratio_is_rounded_from_the_width() {
    let rounded = |width: u16| ((width as f64) / (16.0 / 9.0)).round() as i64;
    assert_eq!(ImageShape::new(640, rounded(640)).unwrap().height, 360);
    assert_eq!(ImageShape::new(480, rounded(480)).unwrap().height, 270);
    assert_eq!(ImageShape::new(100, rounded(100)).unwrap().height, 56);
    assert_eq!(ImageShape::new(1, rounded(1)).unwrap().height, 1);
}

#[test]
fn a_narrow_aspect_ratio_can_push_the_height_out_of_range() {
    let rounded = ((60000u16 as f64) / 0.5).round() as i64;
    assert_eq!(
        ImageShape::new(60000, rounded),
        Err(RenderError::InvalidDimensions)
    );
}

#[test]
fn settings_default_to_one_sample_and_ten_rays() {
    assert_eq!(
        RenderSettings::new(None, None),
        RenderSettings {
            samples: 1,
            jitter: false,
            max_depth: 10
        }
    );
}

#[test]
fn settings_jitter_only_with_several_samples() {
    assert_eq!(
        RenderSettings::new(Some(1), Some(50)),
        RenderSettings {
            samples: 1,
            jitter: false,
            max_depth: 50
        }
    );
    assert_eq!(
        RenderSettings::new(Some(2), Some(0)),
        RenderSettings {
            samples: 2,
            jitter: true,
            max_depth: 0
        }
    );
    assert_eq!(
        RenderSettings::new(Some(100), None),
        RenderSettings {
            samples: 100,
            jitter: true,
            max_depth: 10
        }
    );
    assert_eq!(
        RenderSettings::new(Some(0), None),
        RenderSettings {
            samples: 0,
            jitter: false,
            max_depth: 10
        }
    );
}

#[test]
fn an_empty_renderer_needs_a_refresh_for_every_width() {
    let renderer: Renderer<u32> = Renderer::empty();
    assert!(renderer.img_shape.is_none());
    assert!(renderer.params.is_none());
    assert!(renderer.needs_refresh(0));
    assert!(renderer.needs_refresh(640));
    assert!(renderer.current(640).is_none());
}

#[test]
fn a_refreshed_renderer_serves_its_width_only() {
    let mut renderer: Renderer<u32> = Renderer::empty();
    let shape = ImageShape::new(640, 360).unwrap();
    renderer.refresh(shape, 17);
    assert!(!renderer.needs_refresh(640));
    assert!(renderer.needs_refresh(641));
    assert!(renderer.needs_refresh(360));
    assert_eq!(renderer.current(640), Some((&shape, &17)));
    assert_eq!(renderer.current(641), None);
}

#[test]
fn a_refresh_for_another_width_replaces_the_slot() {
    let mut renderer: Renderer<&str> = Renderer::empty();
    let first = ImageShape::new(100, 56).unwrap();
    let second = ImageShape::new(200, 113).unwrap();
    renderer.refresh(first, "first");
    renderer.refresh(second, "second");
    assert!(renderer.needs_refresh(100));
    assert_eq!(renderer.current(100), None);
    assert_eq!(renderer.current(200), Some((&second, &"second")));
    renderer.refresh(first, "first again");
    assert_eq!(renderer.current(100), Some((&first, &"first again")));
    assert_eq!(renderer.current(200), None);
}

#[test]
fn a_renderer_with_half_a_slot_needs_a_refresh() {
    let shape = ImageShape::new(8, 4).unwrap();
    let no_params: Renderer<u32> = Renderer::new(Some(shape), None);
    assert!(no_params.needs_refresh(8));
    assert_eq!(no_params.current(8), None);
    let no_shape: Renderer<u32> = Renderer::new(None, Some(3));
    assert!(no_shape.needs_refresh(8));
    assert_eq!(no_shape.current(8), None);
    let full: Renderer<u32> = Renderer::new(Some(shape), Some(3));
    assert!(!full.needs_refresh(8));
    assert_eq!(full.current(8), Some((&shape, &3)));
}

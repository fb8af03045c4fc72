use ray_tracing_in_one_weekend::error::RenderError;
use ray_tracing_in_one_weekend::ppm::{
    img_arr_to_ppm, is_ppm_extension, parse_header, ppm_file_contents, PpmHeader,
};

fn text(bytes: Vec<u8>) -> String {
    String::from_utf8(bytes).unwrap()
}

#[test]
fn serialises_a_two_by_two_grid() {
    let grid = vec![
        vec![[255u8, 0, 0], [0, 255, 0]],
        vec![[0, 0, 255], [10, 20, 30]],
    ];
    assert_eq!(
        text(img_arr_to_ppm(&grid)),
        "P3\n2 2\n255\n255 0 0 0 255 0 0 0 255 10 20 30 "
    );
}

#[test]
fn serialises_a_single_pixel() {
    let grid = vec![vec![[7u8, 99, 100]]];
    assert_eq!(text(img_arr_to_ppm(&grid)), "P3\n1 1\n255\n7 99 100 ");
}

#[test]
fn serialises_rows_top_first_without_line_breaks() {
    let grid = vec![vec![[1u8, 1, 1]], vec![[2, 2, 2]], vec![[3, 3, 3]]];
    assert_eq!(
        text(img_arr_to_ppm(&grid)),
        "P3\n1 3\n255\n1 1 1 2 2 2 3 3 3 "
    );
}

#[test]
fn serialises_a_row_without_pixels() {
    let grid: Vec<Vec<[u8; 3]>> = vec![vec![]];
    assert_eq!(text(img_arr_to_ppm(&grid)), "P3\n0 1\n255\n");
}

#[test]
fn the_width_in_the_header_is_the_top_rows_length() {
    let grid = vec![vec![[0u8, 0, 0], [1, 1, 1]], vec![[2, 2, 2]]];
    assert_eq!(
        text(img_arr_to_ppm(&grid)),
        "P3\n2 2\n255\n0 0 0 1 1 1 2 2 2 "
    );
}

#[test]
fn writes_every_channel_value_in_decimal() {
    for v in 0..=255u8 {
        let grid = vec![vec![[v, v, v]]];
        let expected = format!("P3\n1 1\n255\n{v} {v} {v} ");
        assert_eq!(text(img_arr_to_ppm(&grid)), expected);
    }
}

#[test]
fn header_of_a_written_grid_reads_back() {
    for (width, height) in [(1usize, 1usize), (12, 7), (640, 360), (10, 100), (999, 1)] {
        let grid = vec![vec![[1u8, 2, 3]; width]; height];
        let bytes = img_arr_to_ppm(&grid);
        assert_eq!(
            parse_header(&bytes),
            Some(PpmHeader {
                width,
                height,
                max_value: 255
            })
        );
    }
}

#[test]
fn reads_a_header_with_other_numbers() {
    assert_eq!(
        parse_header(b"P3\n0 0\n0\n"),
        Some(PpmHeader {
            width: 0,
            height: 0,
            max_value: 0
        })
    );
    assert_eq!(
        parse_header(b"P3\n1920 1080\n65535\n1 2 3 "),
        Some(PpmHeader {
            width: 1920,
            height: 1080,
            max_value: 65535
        })
    );
}

#[test]
fn reads_the_largest_number_that_fits() {
    let bytes = format!("P3\n{} 1\n255\n", usize::MAX);
    assert_eq!(
        parse_header(bytes.as_bytes()),
        Some(PpmHeader {
            width: usize::MAX,
            height: 1,
            max_value: 255
        })
    );
}

#[test]
fn refuses_a_number_that_does_not_fit() {
    let bytes = format!("P3\n{}0 1\n255\n", usize::MAX);
    assert_eq!(parse_header(bytes.as_bytes()), None);
    assert_eq!(
        parse_header(b"P3\n1 99999999999999999999999999\n255\n"),
        None
    );
}

#[test]
fn refuses_what_is_no_header() {
    assert_eq!(parse_header(b""), None);
    assert_eq!(parse_header(b"P3"), None);
    assert_eq!(parse_header(b"P6\n2 2\n255\n"), None);
    assert_eq!(parse_header(b"P3 2 2\n255\n"), None);
    assert_eq!(parse_header(b"P3\n2 2\n255"), None);
    assert_eq!(parse_header(b"P3\n2\n2\n255\n"), None);
    assert_eq!(parse_header(b"P3\n2  2\n255\n"), None);
    assert_eq!(parse_header(b"P3\n2 2 255\n"), None);
    assert_eq!(parse_header(b"P3\n 2 2\n255\n"), None);
    assert_eq!(parse_header(b"P3\n2 x\n255\n"), None);
    assert_eq!(parse_header(b"P3\n-2 2\n255\n"), None);
    assert_eq!(parse_header(b"P3\n2 2\n\n"), None);
}

#[test]
fn refuses_needless_leading_zeros() {
    assert_eq!(parse_header(b"P3\n02 2\n255\n"), None);
    assert_eq!(parse_header(b"P3\n2 00\n255\n"), None);
    assert_eq!(parse_header(b"P3\n2 2\n0255\n"), None);
}

#[test]
fn only_the_lower_case_extension_names_the_format() {
    assert!(is_ppm_extension("ppm"));
    assert!(!is_ppm_extension("PPM"));
    assert!(!is_ppm_extension("Ppm"));
    assert!(!is_ppm_extension("png"));
    assert!(!is_ppm_extension("pp"));
    assert!(!is_ppm_extension("ppmm"));
    assert!(!is_ppm_extension(""));
    assert!(!is_ppm_extension("p\u{e9}m"));
}

#[test]
fn file_contents_for_the_format_are_the_serialised_grid() {
    let grid = vec![vec![[9u8, 8, 7]]];
    assert_eq!(
        ppm_file_contents("ppm", &grid),
        Ok(b"P3\n1 1\n255\n9 8 7 ".to_vec())
    );
}

#[test]
fn file_contents_for_another_extension_are_refused() {
    let grid = vec![vec![[9u8, 8, 7]]];
    assert_eq!(
        ppm_file_contents("png", &grid),
        Err(RenderError::UnrecognizedOutputFormat)
    );
    assert_eq!(
        ppm_file_contents("", &grid),
        Err(RenderError::UnrecognizedOutputFormat)
    );
}

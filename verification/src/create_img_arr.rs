//! Image assembly: the grid of colours of a pixel source.

use vstd::prelude::*;
use crate::color::{grid_view, Color};
use crate::image_generators_catalog::{ImageShape, PixelData};

verus! {

/// Whether `rows` is an image of the source `img`: as many rows as the
/// source is high, top row first, each as long as the source is wide, and in
/// column `x` of row `y` a colour that the source admits for that pixel.
pub open spec fn is_image_of<T: PixelData + ImageShape>(img: &T, rows: Seq<Seq<Color>>) -> bool {
    &&& rows.len() == img.height()
    &&& forall|y: int| 0 <= y < rows.len() ==> (#[trigger] rows[y]).len() == img.width()
    &&& forall|x: int, y: int|
        0 <= y < rows.len() && 0 <= x < rows[y].len() ==> img.admits(
            x as u16,
            y as u16,
            #[trigger] rows[y][x],
        )
}

/// Whether the source admits one colour at most for every pixel.
pub open spec fn is_deterministic<T: PixelData>(img: &T) -> bool {
    forall|x: u16, y: u16, first: Color, second: Color|
        #![trigger img.admits(x, y, first), img.admits(x, y, second)]
        img.admits(x, y, first) && img.admits(x, y, second) ==> first == second
}

/// Creates the image of a source as a grid of colours, row by row from the
/// top, asking the source for every pixel once.
pub fn create_img_arr<T: PixelData + ImageShape>(img: &T) -> (img_arr: Vec<Vec<Color>>)
    requires
        forall|x: u16, y: u16| x < img.width() && y < img.height() ==> img.has_pixel(x, y),
    ensures
        is_image_of(img, grid_view(&img_arr)),
{
    let s = img.shape();
    let img_width: u16 = s[0];
    let img_height: u16 = s[1];
    let mut img_arr: Vec<Vec<Color>> = Vec::new();
    let mut y: u16 = 0;
    while y < img_height
        invariant
            y <= img_height,
            img_width == img.width(),
            img_height == img.height(),
            forall|x: u16, y: u16| x < img.width() && y < img.height() ==> img.has_pixel(x, y),
            img_arr@.len() == y,
            forall|j: int| 0 <= j < y ==> (#[trigger] img_arr@[j])@.len() == img_width,
            forall|i: int, j: int|
                0 <= j < y && 0 <= i < img_width ==> img.admits(
                    i as u16,
                    j as u16,
                    #[trigger] img_arr@[j]@[i],
                ),
        decreases img_height - y,
    {
        let mut row: Vec<Color> = Vec::new();
        let mut x: u16 = 0;
        while x < img_width
            invariant
                x <= img_width,
                y < img_height,
                img_width == img.width(),
                img_height == img.height(),
                forall|x: u16, y: u16| x < img.width() && y < img.height() ==> img.has_pixel(x, y),
                row@.len() == x,
                forall|i: int| 0 <= i < x ==> img.admits(i as u16, y, #[trigger] row@[i]),
            decreases img_width - x,
        {
            let color = img.get_pixel_rgb(x, y);
            row.push(color);
            x += 1;
        }
        img_arr.push(row);
        y += 1;
    }
    img_arr
}

/// A deterministic source has one image: two grids created from it are
/// equal, pixel for pixel.
pub proof fn lemma_deterministic_image<T: PixelData + ImageShape>(
    img: &T,
    first: Seq<Seq<Color>>,
    second: Seq<Seq<Color>>,
)
    requires
        is_deterministic(img),
        is_image_of(img, first),
        is_image_of(img, second),
    ensures
        first == second,
{
    assert forall|y: int| 0 <= y < first.len() implies first[y] == second[y] by {
        assert forall|x: int| 0 <= x < first[y].len() implies first[y][x] == second[y][x] by {
            assert(img.admits(x as u16, y as u16, first[y][x]));
            assert(img.admits(x as u16, y as u16, second[y][x]));
        }
        assert(first[y] =~= second[y]);
    }
    assert(first =~= second);
}

} // verus!

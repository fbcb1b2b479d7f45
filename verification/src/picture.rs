//! How a dungeon is pictured: each cell as a square of pixels in the color
//! of what it is, with a darker border along its top and its left.

use vstd::prelude::*;
use vstd::arithmetic::div_mod::lemma_fundamental_div_mod;
use crate::geometry::{Rect, Vec2D};
use crate::ppm::{darker, lemma_offset, offset, shaded, Color, PPM};

verus! {

/// The side of the square of pixels that pictures one cell.
pub const CELL_SIZE: i32 = 7;

/// How bright the border of a pictured cell is, in hundredths of the cell's
/// own color.
pub const BORDER_PERCENT: u32 = 70;

/// The color of walls and of the background.
pub const DARK_COLOR: Color = (0, 0, 0);

/// The color of corridors.
pub const LIGHT_COLOR: Color = (199, 192, 177);

/// The color of doors.
pub const DOOR_COLOR: Color = (230, 100, 0);

/// One entry of the journal that an animated dungeon keeps.
#[derive(Debug, Clone, Copy, PartialEq, Eq)]
pub enum Event {
    /// The cell was pictured in the color.
    Paint(Vec2D, Color),
    /// The picture as it stands after the entries before this one is a frame
    /// of the animation.
    Frame,
}

/// Whether `n` is odd.
pub open spec fn odd(n: int) -> bool {
    n % 2 == 1
}

/// How many pixels picture a row or a column of `cells` cells: `CELL_SIZE`
/// for each cell, and one more.
pub open spec fn pixels_for(cells: int) -> int {
    cells * CELL_SIZE + 1
}

/// The sizes for which a dungeon can be made: positive, odd, and such that
/// the picture has no more pixels than an `i32` counts.
pub open spec fn valid_size(width: int, height: int) -> bool {
    &&& width > 0
    &&& height > 0
    &&& odd(width)
    &&& odd(height)
    &&& pixels_for(width) * pixels_for(height) <= i32::MAX
}

/// A color with every channel between 125 and 255.
pub open spec fn light(color: Color) -> bool {
    125 <= color.0 <= 255 && 125 <= color.1 <= 255 && 125 <= color.2 <= 255
}

/// Whether `(i, j)` is a pixel of the square that pictures the cell `(x, y)`.
pub open spec fn in_footprint(x: int, y: int, i: int, j: int) -> bool {
    x * CELL_SIZE <= i < x * CELL_SIZE + CELL_SIZE && y * CELL_SIZE <= j < y * CELL_SIZE + CELL_SIZE
}

/// What the pixel `(i, j)` of the footprint of `(x, y)` shows once the cell
/// has been pictured in `color`: the top row and the left column are a
/// border in a darker shade, the rest has the color itself.
pub open spec fn pictured(x: int, y: int, color: Color, i: int, j: int) -> Color {
    if i == x * CELL_SIZE || j == y * CELL_SIZE {
        shaded(color, BORDER_PERCENT as int)
    } else {
        color
    }
}

/// The pixels of a picture `width` pixels wide after the cell `(x, y)` has
/// been pictured in `color`.
pub open spec fn paint(pixels: Seq<Color>, width: int, x: int, y: int, color: Color) -> Seq<Color> {
    Seq::new(
        pixels.len(),
        |k: int|
            if in_footprint(x, y, k % width, k / width) {
                pictured(x, y, color, k % width, k / width)
            } else {
                pixels[k]
            },
    )
}

/// The pixels of the picture of a grid of `width` by `height` cells before
/// anything is painted: all dark.
pub open spec fn unpainted(width: int, height: int) -> Seq<Color> {
    Seq::new((pixels_for(width) * pixels_for(height)) as nat, |k: int| DARK_COLOR)
}

/// The pixels of the picture of a grid of `width` by `height` cells after
/// the paintings of the journal, in their order.
pub open spec fn painted(width: int, height: int, log: Seq<Event>) -> Seq<Color>
    decreases log.len(),
{
    if log.len() == 0 {
        unpainted(width, height)
    } else {
        let before = painted(width, height, log.drop_last());
        match log.last() {
            Event::Paint(v, color) => paint(
                before,
                pixels_for(width),
                v.0 as int,
                v.1 as int,
                color,
            ),
            Event::Frame => before,
        }
    }
}

/// The number of frames that the journal marks.
pub open spec fn count_frames(log: Seq<Event>) -> nat
    decreases log.len(),
{
    if log.len() == 0 {
        0
    } else {
        count_frames(log.drop_last()) + if log.last() is Frame {
            1nat
        } else {
            0nat
        }
    }
}

/// The pixels of the picture of a grid of `width` by `height` cells whose
/// cells have the given colors, row by row: each cell is pictured in its
/// color, and the last column and the last row of pixels are dark.
pub open spec fn rendered(width: int, height: int, colors: Seq<Color>) -> Seq<Color> {
    Seq::new(
        (pixels_for(width) * pixels_for(height)) as nat,
        |k: int|
            {
                let i = k % pixels_for(width);
                let j = k / pixels_for(width);
                if i == width * CELL_SIZE || j == height * CELL_SIZE {
                    DARK_COLOR
                } else {
                    pictured(
                        i / (CELL_SIZE as int),
                        j / (CELL_SIZE as int),
                        colors[offset(width, i / (CELL_SIZE as int), j / (CELL_SIZE as int))],
                        i,
                        j,
                    )
                }
            },
    )
}

/// A grid of a valid size has fewer cells than an `i32` counts, and so has
/// each side of its picture pixels.
pub proof fn lemma_pixels_bound(width: int, height: int)
    requires
        valid_size(width, height),
    ensures
        0 < width * height <= i32::MAX,
        0 < pixels_for(width) * pixels_for(height),
        pixels_for(width) <= i32::MAX,
        pixels_for(height) <= i32::MAX,
{
    let pw = pixels_for(width);
    let ph = pixels_for(height);
    assert(0 < width * height <= pw * ph && pw <= pw * ph && ph <= pw * ph) by (nonlinear_arith)
        requires
            0 < width < pw,
            0 < height < ph,
    ;
}

/// Each index below `width * height` is the index of one pixel of a
/// `width` by `height` picture: the pixel in the column `k % width` of the
/// row `k / width`.
pub proof fn lemma_pixel_of_index(width: int, height: int, k: int)
    requires
        0 < width,
        0 <= k < width * height,
    ensures
        0 <= k % width < width,
        0 <= k / width < height,
        offset(width, k % width, k / width) == k,
{
    lemma_fundamental_div_mod(k, width);
    vstd::arithmetic::mul::lemma_mul_is_commutative(width, k / width);
    assert(0 <= k / width < height) by (nonlinear_arith)
        requires
            0 <= k < width * height,
            width > 0,
            k == (k / width) * width + k % width,
            0 <= k % width < width,
    ;
}

/// Pictures the cell `v` in `color`: a border in a darker shade along the
/// top and the left of its footprint, the color itself on the rest.
pub fn paint_cell(image: &mut PPM, v: Vec2D, color: Color)
    requires
        old(image).wf(),
        0 <= v.0,
        0 <= v.1,
        v.0 * CELL_SIZE + CELL_SIZE <= old(image).spec_width(),
        v.1 * CELL_SIZE + CELL_SIZE <= old(image).spec_height(),
    ensures
        final(image).wf(),
        final(image).spec_width() == old(image).spec_width(),
        final(image).spec_height() == old(image).spec_height(),
        final(image)@ == paint(
            old(image)@,
            old(image).spec_width() as int,
            v.0 as int,
            v.1 as int,
            color,
        ),
{
    let Vec2D(x, y) = v;
    // Convert to pixel coordinates
    let (px, py) = (x * CELL_SIZE, y * CELL_SIZE);
    // Create a border slightly darker than the color
    let border = darker(color, BORDER_PERCENT);
    image.draw_rectangle(&Rect(px, py, CELL_SIZE, CELL_SIZE), border);
    let ghost framed = *image;
    // Allow room for border
    image.draw_rectangle(&Rect(px + 1, py + 1, CELL_SIZE - 1, CELL_SIZE - 1), color);
    proof {
        let width = image.spec_width() as int;
        let height = image.spec_height() as int;
        let target = paint(old(image)@, width, x as int, y as int, color);
        assert forall|k: int| 0 <= k < image@.len() implies image@[k] == target[k] by {
            lemma_pixel_of_index(width, height, k);
            let (i, j) = (k % width, k / width);
            assert(old(image).has(i, j));
            let first = framed.pixel(i, j);
            let last = image.pixel(i, j);
            assert(last == image@[k]);
            assert(old(image).pixel(i, j) == old(image)@[k]);
        }
        assert(image@ =~= target);
    }
}

/// Painting a cell of a rendered picture gives the picture rendered with
/// the new color of that cell.
pub proof fn lemma_paint_rendered(
    width: int,
    height: int,
    colors: Seq<Color>,
    x: int,
    y: int,
    color: Color,
)
    requires
        valid_size(width, height),
        colors.len() == width * height,
        0 <= x < width,
        0 <= y < height,
    ensures
        paint(rendered(width, height, colors), pixels_for(width), x, y, color) == rendered(
            width,
            height,
            colors.update(offset(width, x, y), color),
        ),
{
    let pw = pixels_for(width);
    let ph = pixels_for(height);
    let before = rendered(width, height, colors);
    let after = rendered(width, height, colors.update(offset(width, x, y), color));
    let target = paint(before, pw, x, y, color);
    lemma_pixels_bound(width, height);
    lemma_offset(width, height, x, y);
    assert forall|k: int| 0 <= k < after.len() implies after[k] == target[k] by {
        lemma_pixel_of_index(pw, ph, k);
        let (i, j) = (k % pw, k / pw);
        let (a, b) = (i / (CELL_SIZE as int), j / (CELL_SIZE as int));
        if !(i == width * CELL_SIZE || j == height * CELL_SIZE) {
            assert(0 <= a < width && 0 <= b < height);
            lemma_offset(width, height, a, b);
        }
    }
    assert(after =~= target);
}

/// A picture in which nothing is painted is the picture of a grid whose
/// cells are all dark.
pub proof fn lemma_unpainted_rendered(width: int, height: int, colors: Seq<Color>)
    requires
        valid_size(width, height),
        colors.len() == width * height,
        forall|k: int| 0 <= k < colors.len() ==> colors[k] == DARK_COLOR,
    ensures
        rendered(width, height, colors) == unpainted(width, height),
{
    let pw = pixels_for(width);
    let ph = pixels_for(height);
    lemma_pixels_bound(width, height);
    assert forall|k: int| 0 <= k < pw * ph implies rendered(width, height, colors)[k]
        == DARK_COLOR by {
        lemma_pixel_of_index(pw, ph, k);
        let (i, j) = (k % pw, k / pw);
        let (a, b) = (i / (CELL_SIZE as int), j / (CELL_SIZE as int));
        if !(i == width * CELL_SIZE || j == height * CELL_SIZE) {
            assert(0 <= a < width && 0 <= b < height);
            lemma_offset(width, height, a, b);
            assert(shaded(DARK_COLOR, BORDER_PERCENT as int) == DARK_COLOR);
        }
    }
    assert(rendered(width, height, colors) =~= unpainted(width, height));
}

/// What a pixel of a rendered picture shows: the last column and the last
/// row are dark, and every other pixel belongs to the footprint of the cell
/// `(i / CELL_SIZE, j / CELL_SIZE)` and shows that cell pictured in its
/// color.
pub proof fn lemma_rendered_pixel(width: int, height: int, colors: Seq<Color>, i: int, j: int)
    requires
        valid_size(width, height),
        0 <= i < pixels_for(width),
        0 <= j < pixels_for(height),
    ensures
        0 <= offset(pixels_for(width), i, j) < rendered(width, height, colors).len(),
        rendered(width, height, colors)[offset(pixels_for(width), i, j)] == if i == width * CELL_SIZE
            || j == height * CELL_SIZE {
            DARK_COLOR
        } else {
            pictured(
                i / (CELL_SIZE as int),
                j / (CELL_SIZE as int),
                colors[offset(width, i / (CELL_SIZE as int), j / (CELL_SIZE as int))],
                i,
                j,
            )
        },
{
    lemma_pixels_bound(width, height);
    lemma_offset(pixels_for(width), pixels_for(height), i, j);
}

} // verus!

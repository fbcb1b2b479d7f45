//! A raster image of RGB pixels and its plain-text encoding.

use vstd::prelude::*;
use vstd::arithmetic::mul::{lemma_mul_inequality, lemma_mul_is_commutative};
use crate::geometry::{lemma_position, Rect, Vec2D};

verus! {

/// The red, green and blue channel of a pixel.
pub type Color = (u32, u32, u32);

/// The color with every channel scaled down to `percent` hundredths,
/// rounded towards zero.
pub open spec fn shaded(color: Color, percent: int) -> Color {
    (
        (color.0 * percent / 100) as u32,
        (color.1 * percent / 100) as u32,
        (color.2 * percent / 100) as u32,
    )
}

/// A darker shade of `color`: every channel scaled to `percent` hundredths.
pub fn darker(color: Color, percent: u32) -> (dark: Color)
    requires
        percent <= 100,
    ensures
        dark == shaded(color, percent as int),
{
    let scale = percent as u64;
    proof {
        lemma_scaled(color.0 as int, percent as int);
        lemma_scaled(color.1 as int, percent as int);
        lemma_scaled(color.2 as int, percent as int);
    }
    let r = color.0 as u64 * scale / 100;
    let g = color.1 as u64 * scale / 100;
    let b = color.2 as u64 * scale / 100;
    (r as u32, g as u32, b as u32)
}

/// Scaling a channel down keeps it a channel.
proof fn lemma_scaled(c: int, percent: int)
    requires
        0 <= c <= u32::MAX,
        0 <= percent <= 100,
    ensures
        0 <= c * percent <= u32::MAX * 100,
        0 <= c * percent / 100 <= u32::MAX,
{
    assert(0 <= c * percent <= u32::MAX * 100) by (nonlinear_arith)
        requires
            0 <= c <= u32::MAX,
            0 <= percent <= 100,
    ;
}

/// The row-major index of the pixel `(i, j)` in an image `width` wide.
pub open spec fn offset(width: int, i: int, j: int) -> int {
    j * width + i
}

/// A pixel inside a `width` by `height` image has an index below
/// `width * height`, and different pixels have different indices.
pub proof fn lemma_offset(width: int, height: int, i: int, j: int)
    requires
        0 <= i < width,
        0 <= j < height,
    ensures
        0 <= offset(width, i, j) < width * height,
        offset(width, i, j) % width == i,
        offset(width, i, j) / width == j,
{
    lemma_mul_inequality(0, j, width);
    lemma_mul_inequality(j + 1, height, width);
    lemma_mul_is_commutative(height, width);
    assert((j + 1) * width == j * width + width) by (nonlinear_arith);
    vstd::arithmetic::div_mod::lemma_fundamental_div_mod_converse(
        offset(width, i, j),
        width,
        j,
        i,
    );
}

/// A raster image: `width` by `height` pixels, stored row by row from the
/// top left.
pub struct PPM {
    width: i32,
    height: i32,
    bounds: Rect,
    buf: Vec<Color>,
}

impl View for PPM {
    type V = Seq<Color>;

    /// The pixels, row by row.
    closed spec fn view(&self) -> Seq<Color> {
        self.buf@
    }
}

impl PPM {
    /// The number of pixels in a row.
    pub closed spec fn spec_width(&self) -> i32 {
        self.width
    }

    /// The number of rows of pixels.
    pub closed spec fn spec_height(&self) -> i32 {
        self.height
    }

    /// The rectangle of all pixel positions.
    pub closed spec fn bounds(&self) -> Rect {
        self.bounds
    }

    /// The image holds one color for each pixel of its bounds.
    pub open spec fn wf(&self) -> bool {
        &&& self.spec_width() >= 0
        &&& self.spec_height() >= 0
        &&& self.spec_width() * self.spec_height() <= i32::MAX
        &&& self.bounds() == Rect(0, 0, self.spec_width(), self.spec_height())
        &&& self@.len() == self.spec_width() * self.spec_height()
    }

    /// Whether `(i, j)` is a pixel of the image.
    pub open spec fn has(&self, i: int, j: int) -> bool {
        0 <= i < self.spec_width() && 0 <= j < self.spec_height()
    }

    /// The color of the pixel `(i, j)`.
    pub open spec fn pixel(&self, i: int, j: int) -> Color {
        self@[offset(self.spec_width() as int, i, j)]
    }

    /// An image of the given size with every pixel of color `init_color`.
    pub fn new(width: i32, height: i32, init_color: Color) -> (image: Self)
        requires
            0 <= width,
            0 <= height,
            width * height <= i32::MAX,
        ensures
            image.wf(),
            image.spec_width() == width,
            image.spec_height() == height,
            forall|k: int| 0 <= k < image@.len() ==> image@[k] == init_color,
    {
        assert(0 <= width * height) by (nonlinear_arith)
            requires
                0 <= width,
                0 <= height,
        ;
        let count = (width * height) as usize;
        let mut buf: Vec<Color> = Vec::new();
        let mut k: usize = 0;
        while k < count
            invariant
                k <= count,
                buf@.len() == k,
                forall|n: int| 0 <= n < k ==> buf@[n] == init_color,
            decreases count - k,
        {
            buf.push(init_color);
            k += 1;
        }
        Self { width, height, bounds: Rect(0, 0, width, height), buf }
    }

    /// The number of pixels in a row.
    #[verifier::when_used_as_spec(spec_width)]
    pub fn width(&self) -> (width: i32)
        ensures
            width == self.spec_width(),
    {
        self.width
    }

    /// The number of rows of pixels.
    #[verifier::when_used_as_spec(spec_height)]
    pub fn height(&self) -> (height: i32)
        ensures
            height == self.spec_height(),
    {
        self.height
    }

    /// Colors the pixel `p`.
    pub fn set(&mut self, p: &Vec2D, color: (u32, u32, u32))
        requires
            old(self).wf(),
            old(self).bounds().spec_contains(*p),
        ensures
            final(self).wf(),
            final(self).spec_width() == old(self).spec_width(),
            final(self).spec_height() == old(self).spec_height(),
            final(self)@ == old(self)@.update(
                offset(old(self).spec_width() as int, p.0 as int, p.1 as int),
                color,
            ),
    {
        let Vec2D(i, j) = *p;
        proof {
            lemma_offset(self.width as int, self.height as int, i as int, j as int);
        }
        self.buf.set((j * self.width + i) as usize, color);
    }

    /// The color of the pixel `p`.
    pub fn get(&self, p: &Vec2D) -> (color: Color)
        requires
            self.wf(),
            self.bounds().spec_contains(*p),
        ensures
            color == self.pixel(p.0 as int, p.1 as int),
    {
        let Vec2D(i, j) = *p;
        proof {
            lemma_offset(self.width as int, self.height as int, i as int, j as int);
        }
        self.buf[(j * self.width + i) as usize]
    }

    /// Colors every pixel of `rect`, and no other.
    pub fn draw_rectangle(&mut self, rect: &Rect, color: (u32, u32, u32))
        requires
            old(self).wf(),
            rect.wf(),
            0 <= rect.0,
            0 <= rect.1,
            rect.0 + rect.2 <= old(self).spec_width(),
            rect.1 + rect.3 <= old(self).spec_height(),
        ensures
            final(self).wf(),
            final(self).spec_width() == old(self).spec_width(),
            final(self).spec_height() == old(self).spec_height(),
            forall|i: int, j: int|
                old(self).has(i, j) ==> #[trigger] final(self).pixel(i, j) == if rect.covers(i, j) {
                    color
                } else {
                    old(self).pixel(i, j)
                },
    {
        let mut walk = rect.into_iter();
        let ghost width = self.width as int;
        let ghost height = self.height as int;
        loop
            invariant
                walk.wf(),
                walk.rect() == *rect,
                self.wf(),
                self.spec_width() == width == old(self).spec_width(),
                self.spec_height() == height == old(self).spec_height(),
                rect.wf(),
                0 <= rect.0,
                0 <= rect.1,
                rect.0 + rect.2 <= width,
                rect.1 + rect.3 <= height,
                0 <= walk.index() <= rect.area(),
                forall|i: int, j: int|
                    old(self).has(i, j) ==> #[trigger] self.pixel(i, j) == if rect.covers(i, j)
                        && rect.position(i, j) < walk.index() {
                        color
                    } else {
                        old(self).pixel(i, j)
                    },
            ensures
                self.wf(),
                self.spec_width() == old(self).spec_width(),
                self.spec_height() == old(self).spec_height(),
                forall|i: int, j: int|
                    old(self).has(i, j) ==> #[trigger] self.pixel(i, j) == if rect.covers(i, j) {
                        color
                    } else {
                        old(self).pixel(i, j)
                    },
            decreases walk.remaining().len(),
        {
            let ghost before = *self;
            let ghost done = walk.index();
            match walk.next() {
                Some(v) => {
                    proof {
                        crate::geometry::lemma_cell(*rect, done);
                    }
                    self.set(&v, color);
                    proof {
                        assert(walk.index() == done + 1);
                        assert forall|i: int, j: int| old(self).has(i, j) implies #[trigger] self.pixel(
                            i,
                            j,
                        ) == if rect.covers(i, j) && rect.position(i, j) < walk.index() {
                            color
                        } else {
                            old(self).pixel(i, j)
                        } by {
                            lemma_offset(width, height, i, j);
                            lemma_offset(width, height, v.0 as int, v.1 as int);
                            assert(before.pixel(i, j) == if rect.covers(i, j) && rect.position(i, j)
                                < done {
                                color
                            } else {
                                old(self).pixel(i, j)
                            });
                            if rect.covers(i, j) {
                                lemma_position(*rect, i, j);
                            }
                        }
                    }
                },
                None => {
                    proof {
                        assert(walk.remaining().len() == 0);
                        assert(done == rect.area());
                        assert forall|i: int, j: int| rect.covers(i, j) implies rect.position(i, j)
                            < done by {
                            lemma_position(*rect, i, j);
                        }
                    }
                    break ;
                },
            }
        }
    }

    /// The image as plain text: see [`ppm_text`].
    pub fn encode(&self) -> (text: Vec<u8>)
        requires
            self.wf(),
        ensures
            text@ == ppm_text(self.spec_width() as int, self.spec_height() as int, self@),
    {
        let mut text: Vec<u8> = Vec::new();
        text.push(80u8);
        text.push(51u8);
        text.push(10u8);
        push_decimal(&mut text, self.width as u32);
        text.push(32u8);
        push_decimal(&mut text, self.height as u32);
        text.push(10u8);
        text.push(50u8);
        text.push(53u8);
        text.push(53u8);
        text.push(10u8);
        text.push(10u8);
        assert(text@ =~= header(self.spec_width() as int, self.spec_height() as int));
        let ghost head = text@;
        let mut k: usize = 0;
        while k < self.buf.len()
            invariant
                k <= self.buf.len(),
                head == header(self.spec_width() as int, self.spec_height() as int),
                text@ == head + rows(self@.take(k as int)),
            decreases self.buf.len() - k,
        {
            let ghost before = text@;
            let (r, g, b) = self.buf[k];
            push_decimal(&mut text, r);
            text.push(32u8);
            push_decimal(&mut text, g);
            text.push(32u8);
            push_decimal(&mut text, b);
            text.push(10u8);
            proof {
                let done = self@.take(k + 1);
                assert(done.drop_last() =~= self@.take(k as int));
                assert(done.last() == self@[k as int]);
                assert(text@ =~= before + row(self@[k as int]));
                assert(text@ =~= head + rows(done));
            }
            k += 1;
        }
        assert(self@.take(k as int) =~= self@);
        text
    }
}

/// The decimal digits of `n` in ASCII, without leading zeros.
pub open spec fn decimal(n: nat) -> Seq<u8>
    decreases n,
{
    if n < 10 {
        seq![(48 + n) as u8]
    } else {
        decimal(n / 10).push((48 + n % 10) as u8)
    }
}

/// The head of the text: the magic number of plain pixmaps, the width and
/// the height on one line, the largest channel value `255`, and an empty
/// line.
pub open spec fn header(width: int, height: int) -> Seq<u8> {
    seq![80u8, 51u8, 10u8] + decimal(width as nat) + seq![32u8] + decimal(height as nat) + seq![
        10u8,
        50u8,
        53u8,
        53u8,
        10u8,
        10u8,
    ]
}

/// One pixel as a line of text: the three channels in decimal, separated by
/// single spaces.
pub open spec fn row(color: Color) -> Seq<u8> {
    decimal(color.0 as nat) + seq![32u8] + decimal(color.1 as nat) + seq![32u8] + decimal(
        color.2 as nat,
    ) + seq![10u8]
}

/// The lines of the given pixels, in order.
pub open spec fn rows(pixels: Seq<Color>) -> Seq<u8>
    decreases pixels.len(),
{
    if pixels.len() == 0 {
        Seq::empty()
    } else {
        rows(pixels.drop_last()) + row(pixels.last())
    }
}

/// The image as plain text: the head, then one line for each pixel, row by
/// row from the top left.
pub open spec fn ppm_text(width: int, height: int, pixels: Seq<Color>) -> Seq<u8> {
    header(width, height) + rows(pixels)
}

/// Appends the decimal digits of `n` to `text`.
pub fn push_decimal(text: &mut Vec<u8>, n: u32)
    ensures
        final(text)@ == old(text)@ + decimal(n as nat),
    decreases n,
{
    if n >= 10 {
        push_decimal(text, n / 10);
    }
    text.push(48u8 + (n % 10) as u8);
    proof {
        assert(final(text)@ =~= old(text)@ + decimal(n as nat));
    }
}

} // verus!

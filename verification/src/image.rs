//! From colours to pixels: a bitmap for the encoder, and a sketch in text.
use vstd::prelude::*;
use crate::cast::Viewport;
use crate::data::Color;
use crate::number::scalar::Scalar;

verus! {

/// The bitmap type of the `bmp` crate. Verus sees nothing inside it; what it
/// holds goes by the two names below.
#[verifier::external_type_specification]
#[verifier::external_body]
pub struct ExImage(bmp::Image);

/// The pixels of an image as red, green and blue bytes, by column `x` and
/// row `y`, row 0 being the top one.
pub uninterp spec fn image_pixels(img: bmp::Image) -> Map<(u32, u32), (u8, u8, u8)>;

/// The width and height that an image was made with.
pub uninterp spec fn image_size(img: bmp::Image) -> (u32, u32);

/// The longest side of an image built here. Up to it, the sizes that `bmp`
/// computes for the file header fit in 32 bits.
pub const MAX_SIDE: u32 = 0x7FFF;

/// Calls `Image::new`, which makes an image of the given size with every
/// pixel black. The sides are bounded so that the arithmetic of `bmp` on the
/// sizes stays in range.
#[verifier::external_body]
fn black_image(width: u32, height: u32) -> (img: bmp::Image)
    requires
        width <= MAX_SIDE,
        height <= MAX_SIDE,
    ensures
        image_size(img) == (width, height),
        image_pixels(img) == Map::new(
            |k: (u32, u32)| k.0 < width && k.1 < height,
            |k: (u32, u32)| (0u8, 0u8, 0u8),
        ),
{
    bmp::Image::new(width, height)
}

/// Calls `Image::set_pixel` with the pixel that `Pixel::new` makes of the
/// three bytes. It stores the pixel at column `x` of row `y` and leaves
/// every other pixel and the size as they were. A position outside the
/// image is not accepted: `bmp` would index out of range.
#[verifier::external_body]
fn put_pixel(img: &mut bmp::Image, x: u32, y: u32, rgb: (u8, u8, u8))
    requires
        x < image_size(*old(img)).0,
        y < image_size(*old(img)).1,
    ensures
        image_size(*final(img)) == image_size(*old(img)),
        image_pixels(*final(img)) == image_pixels(*old(img)).insert((x, y), rgb),
{
    img.set_pixel(x, y, bmp::Pixel::new(rgb.0, rgb.1, rgb.2))
}

/// A colour part as a byte: the part times 255, rounded down and held to
/// the range of a byte.
pub open spec fn channel_spec(part: Scalar) -> u8 {
    part.mul_spec(Scalar::byte_max_spec()).floor_byte_spec()
}

/// The mark of a pixel in the text sketch: a space where the parts sum to
/// less than one half, a hash sign elsewhere.
pub open spec fn mark_spec(c: Color) -> u8 {
    if c.r.add_spec(c.g).add_spec(c.b).lt_spec(Scalar::half_spec()) {
        0x20
    } else {
        0x23
    }
}

/// One row of the sketch: the mark of each pixel twice, then a line feed.
pub open spec fn row_text(row: Seq<Color>) -> Seq<u8> {
    Seq::new(
        (2 * row.len() + 1) as nat,
        |i: int|
            if i == 2 * row.len() {
                0x0Au8
            } else {
                mark_spec(row[i / 2])
            },
    )
}

/// The sketch: the rows' texts one after the other.
pub open spec fn bitmap_text_spec(rows: Seq<Vec<Color>>) -> Seq<u8>
    decreases rows.len(),
{
    if rows.len() == 0 {
        Seq::empty()
    } else {
        bitmap_text_spec(rows.drop_last()) + row_text(rows.last()@)
    }
}

impl Color {
    /// The colour as red, green and blue bytes.
    pub open spec fn to_rgb_spec(self) -> (u8, u8, u8) {
        (channel_spec(self.r), channel_spec(self.g), channel_spec(self.b))
    }

    /// The colour as red, green and blue bytes. Parts outside `[0, 1]` are
    /// held to the range of a byte.
    pub fn to_rgb(&self) -> (rgb: (u8, u8, u8))
        ensures
            rgb == self.to_rgb_spec(),
    {
        let top = Scalar::byte_max();
        (self.r.mul(top).floor_byte(), self.g.mul(top).floor_byte(), self.b.mul(top).floor_byte())
    }

    /// The mark of the colour in the text sketch.
    pub fn mark(&self) -> (m: u8)
        ensures
            m == mark_spec(*self),
    {
        if self.r.add(self.g).add(self.b).lt(Scalar::half()) {
            0x20
        } else {
            0x23
        }
    }
}

/// The bitmap of a framebuffer, ready for the encoder: the pixel at column
/// `x` of row `y` holds the bytes of the colour at row `y` and column `x`.
pub fn to_image(bitmap: &Vec<Vec<Color>>, v: &Viewport) -> (img: bmp::Image)
    requires
        v.img_width <= MAX_SIDE,
        v.img_height <= MAX_SIDE,
        bitmap@.len() == v.img_height,
        forall|y: int| 0 <= y < bitmap@.len() ==> (#[trigger] bitmap@[y])@.len() == v.img_width,
    ensures
        image_size(img) == (v.img_width, v.img_height),
        forall|x: u32, y: u32|
            image_pixels(img).dom().contains((x, y)) <==> x < v.img_width && y < v.img_height,
        forall|x: u32, y: u32|
            x < v.img_width && y < v.img_height ==> #[trigger] image_pixels(img)[(x, y)]
                == bitmap@[y as int]@[x as int].to_rgb_spec(),
{
    let mut img = black_image(v.img_width, v.img_height);
    let mut y: u32 = 0;
    while y < v.img_height
        invariant
            y <= v.img_height,
            bitmap@.len() == v.img_height,
            forall|k: int| 0 <= k < bitmap@.len() ==> (#[trigger] bitmap@[k])@.len() == v.img_width,
            image_size(img) == (v.img_width, v.img_height),
            forall|a: u32, b: u32|
                image_pixels(img).dom().contains((a, b)) <==> a < v.img_width && b < v.img_height,
            forall|a: u32, b: u32|
                a < v.img_width && b < y ==> #[trigger] image_pixels(img)[(a, b)]
                    == bitmap@[b as int]@[a as int].to_rgb_spec(),
        decreases v.img_height - y,
    {
        let mut x: u32 = 0;
        while x < v.img_width
            invariant
                x <= v.img_width,
                y < v.img_height,
                bitmap@.len() == v.img_height,
                forall|k: int|
                    0 <= k < bitmap@.len() ==> (#[trigger] bitmap@[k])@.len() == v.img_width,
                image_size(img) == (v.img_width, v.img_height),
                forall|a: u32, b: u32|
                    image_pixels(img).dom().contains((a, b)) <==> a < v.img_width && b
                        < v.img_height,
                forall|a: u32, b: u32|
                    a < v.img_width && b < y ==> #[trigger] image_pixels(img)[(a, b)]
                        == bitmap@[b as int]@[a as int].to_rgb_spec(),
                forall|a: u32|
                    a < x ==> #[trigger] image_pixels(img)[(a, y)]
                        == bitmap@[y as int]@[a as int].to_rgb_spec(),
            decreases v.img_width - x,
        {
            let rgb = bitmap[y as usize][x as usize].to_rgb();
            put_pixel(&mut img, x, y, rgb);
            x += 1;
        }
        y += 1;
    }
    img
}

/// The framebuffer as text, row by row: two spaces for a dark pixel, two
/// hash signs for a bright one, and a line feed after each row.
pub fn bitmap_text(bitmap: &Vec<Vec<Color>>) -> (text: Vec<u8>)
    ensures
        text@ == bitmap_text_spec(bitmap@),
{
    let mut text: Vec<u8> = Vec::new();
    let mut y: usize = 0;
    while y < bitmap.len()
        invariant
            y <= bitmap@.len(),
            text@ == bitmap_text_spec(bitmap@.take(y as int)),
        decreases bitmap@.len() - y,
    {
        let row = &bitmap[y];
        let ghost before = text@;
        let mut x: usize = 0;
        while x < row.len()
            invariant
                x <= row@.len(),
                text@.len() == before.len() + 2 * x,
                forall|i: int| 0 <= i < before.len() ==> text@[i] == before[i],
                forall|i: int|
                    0 <= i < 2 * x ==> #[trigger] text@[before.len() + i] == mark_spec(
                        row@[i / 2],
                    ),
            decreases row@.len() - x,
        {
            let m: u8 = row[x].mark();
            text.push(m);
            text.push(m);
            x += 1;
        }
        text.push(0x0A);
        proof {
            let done = bitmap@.take(y as int + 1);
            assert(done.drop_last() =~= bitmap@.take(y as int));
            assert(done.last() == bitmap@[y as int]);
            let whole = before + row_text(row@);
            assert(text@.len() == whole.len());
            assert forall|j: int| 0 <= j < text@.len() implies text@[j] == whole[j] by {
                let i = j - before.len();
                if 0 <= i < 2 * row@.len() {
                    assert(text@[before.len() + i] == mark_spec(row@[i / 2]));
                }
            }
            assert(text@ =~= whole);
        }
        y += 1;
    }
    proof {
        assert(bitmap@.take(bitmap@.len() as int) =~= bitmap@);
    }
    text
}

} // verus!

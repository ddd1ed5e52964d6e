use tracer::cast::Viewport;
use tracer::data::{Color, Point};
use tracer::image::{bitmap_text, to_image, MAX_SIDE};
use tracer::number::scalar::Scalar;

fn num(v: f64) -> Scalar {
    Scalar::from_bits(v.to_bits())
}

fn color(r: f64, g: f64, b: f64) -> Color {
    Color { r: num(r), g: num(g), b: num(b) }
}

fn camera(width: u32, height: u32) -> Viewport {
    Viewport {
        eye: Point { x: num(0.0), y: num(0.0), z: num(-10.0) },
        eye_width: num(10.0),
        eye_height: num(10.0),
        img_width: width,
        img_height: height,
    }
}

#[test]
fn floor_byte_rounds_down_and_saturates() {
    assert_eq!(num(0.0).floor_byte(), 0);
    assert_eq!(num(-0.0).floor_byte(), 0);
    assert_eq!(num(0.9999999999999999).floor_byte(), 0);
    assert_eq!(num(1.0).floor_byte(), 1);
    assert_eq!(num(1.9999999999999998).floor_byte(), 1);
    assert_eq!(num(2.0).floor_byte(), 2);
    assert_eq!(num(63.75).floor_byte(), 63);
    assert_eq!(num(127.5).floor_byte(), 127);
    assert_eq!(num(128.0).floor_byte(), 128);
    assert_eq!(num(254.99999999999997).floor_byte(), 254);
    assert_eq!(num(255.0).floor_byte(), 255);
    assert_eq!(num(255.99999999999997).floor_byte(), 255);
    assert_eq!(num(256.0).floor_byte(), 255);
    assert_eq!(num(1e300).floor_byte(), 255);
    assert_eq!(num(f64::INFINITY).floor_byte(), 255);
    assert_eq!(num(-0.5).floor_byte(), 0);
    assert_eq!(num(-3.0).floor_byte(), 0);
    assert_eq!(num(f64::NEG_INFINITY).floor_byte(), 0);
    assert_eq!(num(f64::NAN).floor_byte(), 0);
    assert_eq!(num(-f64::NAN).floor_byte(), 0);
    assert_eq!(num(5e-324).floor_byte(), 0);
    assert_eq!(num(f64::MIN_POSITIVE).floor_byte(), 0);
}

#[test]
fn floor_byte_agrees_with_the_cast_of_the_floor() {
    let mut v = -3.0f64;
    while v < 260.0 {
        assert_eq!(num(v).floor_byte(), v.floor() as u8, "{}", v);
        v += 0.0625 + v.abs() / 512.0;
    }
    for k in 0..=255u32 {
        let whole = f64::from(k);
        assert_eq!(num(whole).floor_byte(), k as u8);
        assert_eq!(num(whole + 0.5).floor_byte(), k as u8);
        assert_eq!(num(f64::from_bits(whole.to_bits() - 1)).floor_byte(), k.saturating_sub(1) as u8);
    }
}

#[test]
fn colour_parts_become_bytes() {
    assert_eq!(color(0.25, 0.5, 0.75).to_rgb(), (63, 127, 191));
    assert_eq!(color(0.0, 1.0, 0.999).to_rgb(), (0, 255, 254));
    assert_eq!(color(-0.5, 2.0, f64::NAN).to_rgb(), (0, 255, 0));
    assert_eq!(color(1.0 / 255.0, 2.0 / 255.0, 254.0 / 255.0).to_rgb(), (1, 2, 254));
    assert_eq!(
        color(0.17567967061458495, 0.3513593412291699, 0.5270390118437549).to_rgb(),
        (44, 89, 134)
    );
}

#[test]
fn marks_follow_the_sum_of_the_parts() {
    assert_eq!(color(0.0, 0.0, 0.0).mark(), b' ');
    assert_eq!(color(0.1, 0.2, 0.1).mark(), b' ');
    assert_eq!(color(0.25, 0.125, 0.125).mark(), b'#');
    assert_eq!(color(1.0, 1.0, 1.0).mark(), b'#');
    assert_eq!(color(f64::NAN, 0.0, 0.0).mark(), b'#');
    assert_eq!(color(-1.0, 0.0, 0.0).mark(), b' ');
}

#[test]
fn image_holds_the_bytes_of_each_pixel() {
    let bitmap = vec![
        vec![color(0.0, 0.0, 0.0), color(1.0, 1.0, 1.0), color(0.25, 0.5, 0.75)],
        vec![color(1.0, 0.0, 0.0), color(0.0, 1.0, 0.0), color(0.0, 0.0, 1.0)],
    ];
    let img = to_image(&bitmap, &camera(3, 2));
    assert_eq!(img.get_width(), 3);
    assert_eq!(img.get_height(), 2);
    assert_eq!(img.get_pixel(0, 0), bmp::Pixel::new(0, 0, 0));
    assert_eq!(img.get_pixel(1, 0), bmp::Pixel::new(255, 255, 255));
    assert_eq!(img.get_pixel(2, 0), bmp::Pixel::new(63, 127, 191));
    assert_eq!(img.get_pixel(0, 1), bmp::Pixel::new(255, 0, 0));
    assert_eq!(img.get_pixel(1, 1), bmp::Pixel::new(0, 255, 0));
    assert_eq!(img.get_pixel(2, 1), bmp::Pixel::new(0, 0, 255));
}

#[test]
fn image_of_the_largest_side() {
    let row: Vec<Color> = (0..MAX_SIDE).map(|x| color(f64::from(x % 256) / 255.0, 0.0, 1.0)).collect();
    let img = to_image(&vec![row], &camera(MAX_SIDE, 1));
    assert_eq!(img.get_width(), 0x7FFF);
    assert_eq!(img.get_height(), 1);
    assert_eq!(img.get_pixel(0, 0), bmp::Pixel::new(0, 0, 255));
    assert_eq!(img.get_pixel(255, 0), bmp::Pixel::new(255, 0, 255));
    assert_eq!(img.get_pixel(MAX_SIDE - 1, 0), bmp::Pixel::new(254, 0, 255));
}

#[test]
fn text_has_two_marks_for_each_pixel_and_a_line_feed_for_each_row() {
    let bitmap = vec![
        vec![color(0.0, 0.0, 0.0), color(1.0, 1.0, 1.0), color(0.25, 0.5, 0.75)],
        vec![color(1.0, 0.0, 0.0), color(0.1, 0.1, 0.1), color(0.0, 0.0, 0.5)],
    ];
    assert_eq!(bitmap_text(&bitmap), b"  ####\n##  ##\n".to_vec());
    assert_eq!(bitmap_text(&vec![]), Vec::<u8>::new());
    assert_eq!(bitmap_text(&vec![vec![], vec![color(0.0, 0.0, 0.0)]]), b"\n  \n".to_vec());
}

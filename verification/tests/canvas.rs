use sray::canvas::Canvas;
use sray::color::{channel, Color, DefaultColors};
use sray::scalar::Scalar;

fn s(x: f64) -> Scalar {
    Scalar::from_bits(x.to_bits())
}

fn color(r: f64, g: f64, b: f64) -> Color {
    Color::new(s(r), s(g), s(b))
}

fn bits(c: &Color) -> (u64, u64, u64) {
    (c.r().to_bits(), c.g().to_bits(), c.b().to_bits())
}

#[test]
fn new_canvas_is_black() {
    let c = Canvas::new(10, 20);
    assert_eq!(10, c.width());
    assert_eq!(20, c.height());
    for y in 0..20 {
        for x in 0..10 {
            assert_eq!(bits(c.pixel_at(x, y).unwrap()), (0, 0, 0));
        }
    }
}

#[test]
fn empty_canvas_is_valid() {
    let c = Canvas::new(0, 7);
    assert_eq!(0, c.width());
    assert_eq!(7, c.height());
    assert!(c.pixel_at(0, 0).is_none());
    assert_eq!(c.to_ppm(), "P3\n0 7\n255\n");
    let c = Canvas::new(3, 0);
    assert!(c.pixel_at(0, 0).is_none());
    assert_eq!(c.to_ppm(), "P3\n3 0\n255\n");
}

#[test]
fn pixel_at_is_absent_outside_the_canvas() {
    let c = Canvas::new(10, 20);
    assert!(c.pixel_at(10, 5).is_none());
    assert!(c.pixel_at(5, 20).is_none());
    assert!(c.pixel_at(9, 19).is_some());
}

#[test]
fn write_pixel_sets_one_pixel() {
    let mut c = Canvas::new(10, 20);
    c.write_pixel(0, 0, Color::orange());
    assert_eq!(bits(c.pixel_at(0, 0).unwrap()), bits(&Color::orange()));
    c.write_pixel(3, 7, color(-0.5, 0.4, 1.7));
    for y in 0..20 {
        for x in 0..10 {
            let want = if (x, y) == (0, 0) {
                bits(&Color::orange())
            } else if (x, y) == (3, 7) {
                bits(&color(-0.5, 0.4, 1.7))
            } else {
                (0, 0, 0)
            };
            assert_eq!(bits(c.pixel_at(x, y).unwrap()), want);
        }
    }
}

#[test]
fn write_pixel_outside_the_canvas_changes_nothing() {
    let mut c = Canvas::new(10, 20);
    c.write_pixel(10, 5, Color::red());
    c.write_pixel(5, 20, Color::red());
    c.write_pixel(usize::MAX, usize::MAX, Color::red());
    for y in 0..20 {
        for x in 0..10 {
            assert_eq!(bits(c.pixel_at(x, y).unwrap()), (0, 0, 0));
        }
    }
}

#[test]
fn header_of_the_text_image() {
    let c = Canvas::new(10, 20);
    assert!(c.to_ppm().starts_with("P3\n10 20\n255\n"));
}

#[test]
fn text_image_of_three_pixels() {
    let mut c = Canvas::new(5, 3);
    c.write_pixel(0, 0, color(1.0, 0.0, 0.0));
    c.write_pixel(2, 1, color(0.0, 0.5, 1.0));
    c.write_pixel(4, 2, color(0.0, 0.0, 1.0));
    let body = "P3\n\
                5 3\n\
                255\n\
                255 0 0 0 0 0 0 0 0 0 0 0 0 0 0\n\
                0 0 0 0 0 0 0 128 255 0 0 0 0 0 0\n\
                0 0 0 0 0 0 0 0 0 0 0 0 0 0 255\n";
    assert_eq!(body, c.to_ppm());
}

#[test]
fn text_image_of_named_colors() {
    let mut c = Canvas::new(5, 3);
    c.write_pixel(0, 0, Color::red());
    c.write_pixel(2, 1, Color::azure());
    c.write_pixel(4, 2, Color::blue());
    let body = "P3\n\
                5 3\n\
                255\n\
                255 0 0 0 0 0 0 0 0 0 0 0 0 0 0\n\
                0 0 0 0 0 0 0 128 255 0 0 0 0 0 0\n\
                0 0 0 0 0 0 0 0 0 0 0 0 0 0 255\n";
    assert_eq!(body, c.to_ppm());
}

#[test]
fn lines_hold_five_pixels_whatever_the_width() {
    let mut c = Canvas::new(7, 1);
    c.write_pixel(5, 0, color(1.0, 1.0, 1.0));
    assert_eq!(
        c.to_ppm(),
        "P3\n7 1\n255\n0 0 0 0 0 0 0 0 0 0 0 0 0 0 0\n255 255 255 0 0 0\n"
    );
    let c = Canvas::new(2, 3);
    assert_eq!(
        c.to_ppm(),
        "P3\n2 3\n255\n0 0 0 0 0 0 0 0 0 0 0 0 0 0 0\n0 0 0\n"
    );
}

#[test]
fn levels_are_clamped() {
    let mut c = Canvas::new(1, 1);
    c.write_pixel(0, 0, color(1.5, -0.5, f64::NAN));
    assert_eq!(c.to_ppm(), "P3\n1 1\n255\n255 0 0\n");
    c.write_pixel(0, 0, color(f64::INFINITY, f64::NEG_INFINITY, 1e-320));
    assert_eq!(c.to_ppm(), "P3\n1 1\n255\n255 0 1\n");
}

#[test]
fn level_is_the_ceiling_of_the_rounded_product() {
    let mut x: u64 = 0x1234_5678_9abc_def1;
    let mut cases: Vec<f64> = vec![0.0, 1.0, 0.5, 1.0 / 255.0, 2.0 / 255.0, 254.0 / 255.0, 0.999];
    for i in 0..=255 {
        cases.push(i as f64 / 255.0);
        cases.push(f64::from_bits((i as f64 / 255.0).to_bits() + 1));
        cases.push(f64::from_bits((i as f64 / 255.0).to_bits().wrapping_sub(1)));
    }
    for _ in 0..2000 {
        x ^= x << 13;
        x ^= x >> 7;
        x ^= x << 17;
        cases.push(f64::from_bits(x));
        cases.push((x >> 11) as f64 / 9007199254740992.0);
    }
    for &v in cases.iter() {
        let want = ((v * 255.0).ceil() as u32).clamp(0, 255);
        assert_eq!(channel(s(v)) as u32, want, "{:?}", v);
    }
}

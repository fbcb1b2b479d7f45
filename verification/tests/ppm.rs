use dungeon_generator::ppm::{darker, push_decimal};
use dungeon_generator::{Rect, Vec2D, PPM};

#[test]
fn new_image_has_the_initial_color() {
    let image = PPM::new(3, 2, (1, 2, 3));
    assert_eq!(image.width(), 3);
    assert_eq!(image.height(), 2);
    for j in 0..2 {
        for i in 0..3 {
            assert_eq!(image.get(&Vec2D(i, j)), (1, 2, 3));
        }
    }
}

#[test]
fn set_changes_one_pixel() {
    let mut image = PPM::new(3, 2, (0, 0, 0));
    image.set(&Vec2D(2, 1), (9, 8, 7));
    for j in 0..2 {
        for i in 0..3 {
            let expected = if (i, j) == (2, 1) { (9, 8, 7) } else { (0, 0, 0) };
            assert_eq!(image.get(&Vec2D(i, j)), expected);
        }
    }
}

#[test]
fn draw_rectangle_fills_the_rectangle_and_nothing_else() {
    let mut image = PPM::new(5, 4, (0, 0, 0));
    let rect = Rect(1, 1, 3, 2);
    image.draw_rectangle(&rect, (5, 5, 5));
    for j in 0..4 {
        for i in 0..5 {
            let expected = if rect.contains(Vec2D(i, j)) { (5, 5, 5) } else { (0, 0, 0) };
            assert_eq!(image.get(&Vec2D(i, j)), expected);
        }
    }
}

#[test]
fn encode_writes_header_and_pixels() {
    let mut image = PPM::new(2, 1, (0, 0, 0));
    image.set(&Vec2D(1, 0), (255, 10, 7));
    let text = String::from_utf8(image.encode()).unwrap();
    assert_eq!(text, "P3\n2 1\n255\n\n0 0 0\n255 10 7\n");
}

#[test]
fn encode_of_an_empty_image() {
    let image = PPM::new(0, 0, (0, 0, 0));
    assert_eq!(String::from_utf8(image.encode()).unwrap(), "P3\n0 0\n255\n\n");
}

#[test]
fn decimal_digits() {
    let mut text = Vec::new();
    push_decimal(&mut text, 0);
    text.push(b' ');
    push_decimal(&mut text, 9);
    text.push(b' ');
    push_decimal(&mut text, 10);
    text.push(b' ');
    push_decimal(&mut text, 4294967295);
    assert_eq!(String::from_utf8(text).unwrap(), "0 9 10 4294967295");
}

#[test]
fn darker_scales_each_channel() {
    assert_eq!(darker((199, 192, 177), 70), (139, 134, 123));
    assert_eq!(darker((230, 100, 0), 70), (161, 70, 0));
    assert_eq!(darker((10, 20, 30), 100), (10, 20, 30));
    assert_eq!(darker((10, 20, 30), 0), (0, 0, 0));
    assert_eq!(darker((u32::MAX, 1, 0), 50), (u32::MAX / 2, 0, 0));
}

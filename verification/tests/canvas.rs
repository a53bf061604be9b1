use shape_raster::color::Color;
use shape_raster::image::Image;

#[test]
fn named_colors_have_their_channels() {
    assert_eq!(Color::white(), Color::new(255, 255, 255));
    assert_eq!(Color::black(), Color::new(0, 0, 0));
    assert_eq!(Color::red(), Color::new(255, 0, 0));
    assert_eq!(Color::green(), Color::new(0, 255, 0));
    assert_eq!(Color::blue(), Color::new(0, 0, 255));
}

#[test]
fn color_to_rgba_is_opaque() {
    assert_eq!(Color::new(1, 2, 3).to_rgba(), (1, 2, 3, 255));
    assert_eq!(Color::black().to_rgba(), (0, 0, 0, 255));
}

#[test]
fn new_image_is_filled_with_the_default_color() {
    let img = Image::new(3, 2, Color::red());
    assert_eq!(img.width(), 3);
    assert_eq!(img.height(), 2);
    for row in 0..2 {
        for col in 0..3 {
            assert_eq!(img.get_pixel(col, row), Some(Color::red()));
        }
    }
}

#[test]
fn get_after_set_returns_the_color_written() {
    let mut img = Image::new(5, 4, Color::white());
    let teal = Color::new(0, 128, 128);
    img.set_pixel(4, 3, teal);
    assert_eq!(img.get_pixel(4, 3), Some(teal));
    img.set_pixel(0, 0, Color::black());
    assert_eq!(img.get_pixel(0, 0), Some(Color::black()));
    assert_eq!(img.get_pixel(4, 3), Some(teal));
}

#[test]
fn set_leaves_every_other_cell_alone() {
    let mut img = Image::new(4, 3, Color::white());
    img.set_pixel(2, 1, Color::red());
    for row in 0..3 {
        for col in 0..4 {
            let expected = if (col, row) == (2, 1) { Color::red() } else { Color::white() };
            assert_eq!(img.get_pixel(col, row), Some(expected));
        }
    }
}

#[test]
fn columns_and_rows_are_not_exchanged() {
    let mut img = Image::new(3, 2, Color::white());
    img.set_pixel(2, 0, Color::green());
    assert_eq!(img.get_pixel(2, 0), Some(Color::green()));
    assert_eq!(img.get_pixel(0, 1), Some(Color::white()));
    assert_eq!(img.get_pixel(0, 2), None);
}

#[test]
fn get_out_of_bounds_returns_none() {
    let mut img = Image::new(5, 4, Color::white());
    img.set_pixel(4, 3, Color::red());
    assert_eq!(img.get_pixel(5, 0), None);
    assert_eq!(img.get_pixel(0, 4), None);
    assert_eq!(img.get_pixel(5, 4), None);
    assert_eq!(img.get_pixel(usize::MAX, 0), None);
    assert_eq!(img.get_pixel(0, usize::MAX), None);
}

#[test]
fn rgba_bytes_have_four_per_pixel() {
    let img = Image::new(7, 5, Color::white());
    assert_eq!(img.to_rgba_bytes().len(), 7 * 5 * 4);
    let single = Image::new(1, 1, Color::new(9, 8, 7));
    assert_eq!(single.to_rgba_bytes(), vec![9, 8, 7, 255]);
}

#[test]
fn rgba_bytes_are_row_major() {
    let mut img = Image::new(3, 2, Color::black());
    let c = Color::new(10, 20, 30);
    img.set_pixel(1, 1, c);
    let bytes = img.to_rgba_bytes();
    let at = 4 * (1 * 3 + 1);
    assert_eq!(&bytes[at..at + 4], &[10, 20, 30, 255]);
    for row in 0..2 {
        for col in 0..3 {
            let offset = 4 * (row * 3 + col);
            let (r, g, b, a) = img.get_pixel(col, row).unwrap().to_rgba();
            assert_eq!(&bytes[offset..offset + 4], &[r, g, b, a]);
        }
    }
}

#[test]
fn rgba_bytes_of_two_by_two() {
    let mut img = Image::new(2, 2, Color::white());
    img.set_pixel(1, 0, Color::red());
    img.set_pixel(0, 1, Color::green());
    img.set_pixel(1, 1, Color::blue());
    assert_eq!(
        img.to_rgba_bytes(),
        vec![255, 255, 255, 255, 255, 0, 0, 255, 0, 255, 0, 255, 0, 0, 255, 255]
    );
}

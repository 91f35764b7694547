use image::{DynamicImage, GenericImage, GenericImageView, Rgba};
use seam_carving::carve::{Carver, create_debug_image, try_create_debug_image};
use seam_carving::config::{Mode, Orientation};

fn striped(width: u32, height: u32) -> DynamicImage {
    let mut image = DynamicImage::new_rgba8(width, height);
    for y in 0..height {
        for x in 0..width {
            image.put_pixel(x, y, Rgba([x as u8, y as u8, 100, 200]));
        }
    }
    image
}

#[test]
fn debug_image_marks_each_point_red() {
    let image = striped(3, 2);
    let marked = create_debug_image(&image, &[(0, 0), (2, 1), (0, 0)]);
    assert_eq!(marked.dimensions(), (3, 2));
    for y in 0..2 {
        for x in 0..3 {
            let expected = if (x, y) == (0, 0) || (x, y) == (2, 1) {
                [255, 0, 0, 255]
            } else {
                [x as u8, y as u8, 100, 200]
            };
            assert_eq!(marked.get_pixel(x, y).0, expected);
        }
    }
}

#[test]
fn debug_image_leaves_the_given_bitmap_alone() {
    let image = striped(3, 2);
    let _marked = create_debug_image(&image, &[(1, 1)]);
    assert_eq!(image.get_pixel(1, 1).0, [1, 1, 100, 200]);
}

#[test]
fn debug_image_without_points_is_a_copy() {
    let image = striped(3, 2);
    let marked = create_debug_image(&image, &[]);
    assert_eq!(marked, image);
}

#[test]
fn debug_image_keeps_the_format_of_the_bitmap() {
    let mut image = DynamicImage::new_luma8(2, 1);
    image.put_pixel(0, 0, Rgba([50, 50, 50, 255]));
    image.put_pixel(1, 0, Rgba([60, 60, 60, 255]));
    let marked = create_debug_image(&image, &[(1, 0)]);
    let mut expected = image.clone();
    expected.put_pixel(1, 0, Rgba([255, 0, 0, 255]));
    assert_eq!(marked, expected);
    assert_eq!(marked.get_pixel(0, 0).0, [50, 50, 50, 255]);
    assert_ne!(marked.get_pixel(1, 0).0, [60, 60, 60, 255]);
}

#[test]
fn checked_debug_image_refuses_points_outside() {
    let image = striped(3, 2);
    assert!(try_create_debug_image(&image, &[(0, 0), (3, 0)]).is_none());
    assert!(try_create_debug_image(&image, &[(0, 2)]).is_none());
    assert!(try_create_debug_image(&image, &[(usize::MAX, 0)]).is_none());
}

#[test]
fn checked_debug_image_marks_points_inside() {
    let image = striped(3, 2);
    let marked = try_create_debug_image(&image, &[(2, 1)]).unwrap();
    assert_eq!(marked, create_debug_image(&image, &[(2, 1)]));
    assert_eq!(marked.get_pixel(2, 1).0, [255, 0, 0, 255]);
}

#[test]
fn debug_image_of_the_removed_points() {
    let image = striped(4, 3);
    let mut carver = Carver::new(&image);
    carver.resize(1, Orientation::Horizontal, Mode::Shrink);
    let points = carver.get_removed_points();
    let marked = create_debug_image(&image, &points);
    let mut red = 0;
    for y in 0..3 {
        for x in 0..4 {
            if marked.get_pixel(x, y).0 == [255, 0, 0, 255] {
                red += 1;
                assert!(points.contains(&(x as usize, y as usize)));
            }
        }
    }
    assert_eq!(red, 3);
}

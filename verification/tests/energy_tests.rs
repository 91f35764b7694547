use seam_carving::carve::average_pixels;
use seam_carving::energy::{MAX_ENERGY, PixelEnergyPoint};

#[test]
fn average_rounds_each_channel_down() {
    assert_eq!(average_pixels(&[1, 2, 3, 4], &[3, 4, 5, 7]), [2, 3, 4, 5]);
    assert_eq!(average_pixels(&[0, 0, 0, 0], &[1, 1, 1, 1]), [0, 0, 0, 0]);
}

#[test]
fn average_of_the_largest_channels_does_not_overflow() {
    assert_eq!(average_pixels(&[255, 255, 255, 255], &[255, 254, 1, 0]), [255, 254, 128, 127]);
}

#[test]
fn average_is_the_same_in_either_order() {
    let a = [190, 18, 237, 66];
    let b = [105, 102, 206, 36];
    assert_eq!(average_pixels(&a, &b), [147, 60, 221, 51]);
    assert_eq!(average_pixels(&b, &a), [147, 60, 221, 51]);
}

#[test]
fn square_gradient_sums_the_squared_channel_differences() {
    let a = PixelEnergyPoint::from_pixel([10, 20, 30, 40]);
    let b = PixelEnergyPoint::from_pixel([13, 16, 30, 45]);
    assert_eq!(a.square_gradient(&b), 9 + 16 + 0 + 25);
    assert_eq!(b.square_gradient(&a), 50);
    assert_eq!(a.square_gradient(&a), 0);
}

#[test]
fn square_gradient_of_opposite_colours_is_the_largest() {
    let dark = PixelEnergyPoint::from_pixel([0, 0, 0, 0]);
    let light = PixelEnergyPoint::from_pixel([255, 255, 255, 255]);
    assert_eq!(dark.square_gradient(&light), 4 * 255 * 255);
    assert_eq!(2 * dark.square_gradient(&light), MAX_ENERGY);
}

#[test]
fn a_cell_made_from_a_pixel_has_no_energy_yet() {
    let cell = PixelEnergyPoint::from_pixel([1, 2, 3, 4]);
    assert_eq!(cell, PixelEnergyPoint { pixel: [1, 2, 3, 4], energy: 0, path_cost: 0 });
}

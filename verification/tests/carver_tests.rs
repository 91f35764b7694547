use image::{DynamicImage, GenericImage, GenericImageView, Rgba};
use seam_carving::carve::{Carver, ResizeError, sort_by_descending_column};
use seam_carving::config::{Mode, Orientation};
use seam_carving::energy::PixelEnergyPoint;

const SAMPLE: [[u8; 4]; 20] = [
    [108, 78, 116, 146], [19, 37, 34, 46], [49, 161, 205, 19], [190, 18, 237, 66], [105, 102, 206, 36],
    [252, 35, 215, 218], [141, 32, 151, 97], [106, 6, 149, 110], [194, 138, 212, 3], [19, 104, 40, 212],
    [87, 30, 60, 93], [238, 110, 94, 192], [74, 145, 17, 95], [93, 59, 81, 62], [194, 83, 164, 22],
    [173, 110, 229, 56], [148, 17, 208, 40], [154, 163, 76, 245], [192, 52, 124, 89], [202, 240, 132, 149],
];

fn bitmap(width: u32, height: u32, pixels: &[[u8; 4]]) -> DynamicImage {
    let mut image = DynamicImage::new_rgba8(width, height);
    for y in 0..height {
        for x in 0..width {
            image.put_pixel(x, y, Rgba(pixels[(y * width + x) as usize]));
        }
    }
    image
}

fn pixels_of(image: &DynamicImage) -> Vec<[u8; 4]> {
    let (width, height) = image.dimensions();
    let mut pixels = Vec::new();
    for y in 0..height {
        for x in 0..width {
            pixels.push(image.get_pixel(x, y).0);
        }
    }
    pixels
}

fn sample() -> DynamicImage {
    bitmap(5, 4, &SAMPLE)
}

fn uniform(width: u32, height: u32, colour: [u8; 4]) -> DynamicImage {
    let pixels = vec![colour; (width * height) as usize];
    bitmap(width, height, &pixels)
}

#[test]
fn new_carver_has_no_removed_points() {
    let carver = Carver::new(&sample());
    assert_eq!(carver.get_removed_points(), Vec::<(usize, usize)>::new());
}

#[test]
fn rebuild_image_gives_back_the_bitmap() {
    let carver = Carver::new(&sample());
    let image = carver.rebuild_image();
    assert_eq!(image.dimensions(), (5, 4));
    assert_eq!(pixels_of(&image), SAMPLE.to_vec());
}

#[test]
fn one_by_one_shrunk_by_nothing_is_unchanged() {
    let image = bitmap(1, 1, &[[10, 20, 30, 40]]);
    let mut carver = Carver::new(&image);
    let same = carver.resize(0, Orientation::Horizontal, Mode::Shrink);
    assert_eq!(same.dimensions(), (1, 1));
    assert_eq!(same.get_pixel(0, 0).0, [10, 20, 30, 40]);
    let same = carver.resize(0, Orientation::Vertical, Mode::Shrink);
    assert_eq!(same.dimensions(), (1, 1));
    assert_eq!(same.get_pixel(0, 0).0, [10, 20, 30, 40]);
    assert_eq!(carver.get_removed_points(), Vec::<(usize, usize)>::new());
}

#[test]
fn one_by_one_shrunk_by_one_is_refused() {
    let image = bitmap(1, 1, &[[10, 20, 30, 40]]);
    let mut carver = Carver::new(&image);
    let refused = carver.try_resize(1, Orientation::Horizontal, Mode::Shrink);
    assert_eq!(
        refused.err(),
        Some(ResizeError::DistanceTooLarge { requested_distance: 1, current_dimension: 1 })
    );
    let refused = carver.try_resize(1, Orientation::Vertical, Mode::Shrink);
    assert_eq!(
        refused.err(),
        Some(ResizeError::DistanceTooLarge { requested_distance: 1, current_dimension: 1 })
    );
    assert_eq!(carver.get_removed_points(), Vec::<(usize, usize)>::new());
    assert_eq!(pixels_of(&carver.rebuild_image()), vec![[10, 20, 30, 40]]);
}

#[test]
fn distance_equal_to_the_size_is_refused() {
    let mut carver = Carver::new(&sample());
    let refused = carver.try_resize(5, Orientation::Horizontal, Mode::Shrink);
    assert_eq!(
        refused.err(),
        Some(ResizeError::DistanceTooLarge { requested_distance: 5, current_dimension: 5 })
    );
    let refused = carver.try_resize(9, Orientation::Vertical, Mode::Grow);
    assert_eq!(
        refused.err(),
        Some(ResizeError::DistanceTooLarge { requested_distance: 9, current_dimension: 4 })
    );
    let image = carver.rebuild_image();
    assert_eq!(image.dimensions(), (5, 4));
    assert_eq!(pixels_of(&image), SAMPLE.to_vec());
}

#[test]
fn grow_beyond_the_largest_bitmap_is_refused() {
    let image = DynamicImage::new_rgba8(2147483649, 0);
    let mut carver = Carver::new(&image);
    let refused = carver.try_resize(2147483648, Orientation::Horizontal, Mode::Grow);
    assert_eq!(refused.err(), Some(ResizeError::ImageTooLarge { width: 4294967297, height: 0 }));
}

#[test]
fn try_resize_resizes_where_it_can() {
    let mut carver = Carver::new(&sample());
    let image = carver.try_resize(1, Orientation::Horizontal, Mode::Shrink).unwrap();
    assert_eq!(image.dimensions(), (4, 4));
    assert_eq!(carver.get_removed_points(), vec![(2, 3), (1, 2), (2, 1), (3, 0)]);
}

#[test]
fn uniform_image_loses_its_leftmost_column() {
    let mut carver = Carver::new(&uniform(4, 3, [7, 7, 7, 255]));
    let image = carver.resize(1, Orientation::Horizontal, Mode::Shrink);
    assert_eq!(carver.get_removed_points(), vec![(0, 2), (0, 1), (0, 0)]);
    assert_eq!(image.dimensions(), (3, 3));
    assert_eq!(pixels_of(&image), vec![[7, 7, 7, 255]; 9]);
}

#[test]
fn uniform_image_vertical_seam_is_the_top_row() {
    let mut carver = Carver::new(&uniform(4, 3, [7, 7, 7, 255]));
    let image = carver.resize(1, Orientation::Vertical, Mode::Shrink);
    assert_eq!(carver.get_removed_points(), vec![(0, 3), (0, 2), (0, 1), (0, 0)]);
    assert_eq!(image.dimensions(), (4, 2));
}

#[test]
fn path_start_and_path_of_the_sample() {
    let mut carver = Carver::new(&sample());
    carver.calculate_energy();
    assert_eq!(carver.get_path_start(), (2, 3));
    assert_eq!(carver.find_path(2, 3), vec![(2, 3), (1, 2), (2, 1), (3, 0)]);
    assert_eq!(carver.find_path(4, 2), vec![(4, 2), (3, 1), (3, 0)]);
    assert_eq!(carver.find_path(0, 0), vec![(0, 0)]);
}

#[test]
fn path_start_takes_the_leftmost_of_equal_costs() {
    let mut carver = Carver::new(&uniform(3, 1, [1, 2, 3, 4]));
    carver.calculate_energy();
    assert_eq!(carver.get_path_start(), (0, 0));
}

#[test]
fn shrink_by_one_removes_the_cheapest_seam() {
    let mut carver = Carver::new(&sample());
    let image = carver.resize(1, Orientation::Horizontal, Mode::Shrink);
    assert_eq!(image.dimensions(), (4, 4));
    assert_eq!(
        pixels_of(&image),
        vec![
            [108, 78, 116, 146], [19, 37, 34, 46], [49, 161, 205, 19], [105, 102, 206, 36],
            [252, 35, 215, 218], [141, 32, 151, 97], [194, 138, 212, 3], [19, 104, 40, 212],
            [87, 30, 60, 93], [74, 145, 17, 95], [93, 59, 81, 62], [194, 83, 164, 22],
            [173, 110, 229, 56], [148, 17, 208, 40], [192, 52, 124, 89], [202, 240, 132, 149],
        ]
    );
    assert_eq!(carver.get_removed_points(), vec![(2, 3), (1, 2), (2, 1), (3, 0)]);
}

#[test]
fn shrink_by_three_finds_each_seam_in_what_is_left() {
    let mut carver = Carver::new(&sample());
    let image = carver.resize(3, Orientation::Horizontal, Mode::Shrink);
    assert_eq!(image.dimensions(), (2, 4));
    assert_eq!(
        pixels_of(&image),
        vec![
            [19, 37, 34, 46], [105, 102, 206, 36], [194, 138, 212, 3], [19, 104, 40, 212],
            [93, 59, 81, 62], [194, 83, 164, 22], [192, 52, 124, 89], [202, 240, 132, 149],
        ]
    );
    assert_eq!(
        carver.get_removed_points(),
        vec![
            (2, 3), (1, 2), (2, 1), (3, 0), (0, 3), (1, 2), (0, 1), (0, 0), (0, 3), (0, 2), (0, 1),
            (1, 0),
        ]
    );
}

#[test]
fn shrink_distance_is_the_same_as_a_horizontal_shrink() {
    let mut carver = Carver::new(&sample());
    carver.shrink_distance(3);
    let image = carver.rebuild_image();
    assert_eq!(image.dimensions(), (2, 4));
    assert_eq!(carver.get_removed_points().len(), 12);
    let mut other = Carver::new(&sample());
    let resized = other.resize(3, Orientation::Horizontal, Mode::Shrink);
    assert_eq!(pixels_of(&image), pixels_of(&resized));
    assert_eq!(carver.get_removed_points(), other.get_removed_points());
}

#[test]
fn vertical_shrink_records_points_of_the_transposed_grid() {
    let mut carver = Carver::new(&sample());
    let image = carver.resize(2, Orientation::Vertical, Mode::Shrink);
    assert_eq!(image.dimensions(), (5, 2));
    assert_eq!(
        pixels_of(&image),
        vec![
            [87, 30, 60, 93], [19, 37, 34, 46], [49, 161, 205, 19], [194, 138, 212, 3],
            [19, 104, 40, 212], [173, 110, 229, 56], [148, 17, 208, 40], [74, 145, 17, 95],
            [93, 59, 81, 62], [194, 83, 164, 22],
        ]
    );
    assert_eq!(
        carver.get_removed_points(),
        vec![(3, 4), (3, 3), (3, 2), (2, 1), (1, 0), (0, 4), (0, 3), (1, 2), (1, 1), (0, 0)]
    );
}

#[test]
fn grow_by_one_puts_a_mean_beside_each_seam_point() {
    let mut carver = Carver::new(&sample());
    let image = carver.resize(1, Orientation::Horizontal, Mode::Grow);
    assert_eq!(image.dimensions(), (6, 4));
    assert_eq!(
        pixels_of(&image),
        vec![
            [108, 78, 116, 146], [19, 37, 34, 46], [49, 161, 205, 19], [190, 18, 237, 66],
            [147, 60, 221, 51], [105, 102, 206, 36], [252, 35, 215, 218], [141, 32, 151, 97],
            [106, 6, 149, 110], [150, 72, 180, 56], [194, 138, 212, 3], [19, 104, 40, 212],
            [87, 30, 60, 93], [238, 110, 94, 192], [156, 127, 55, 143], [74, 145, 17, 95],
            [93, 59, 81, 62], [194, 83, 164, 22], [173, 110, 229, 56], [148, 17, 208, 40],
            [154, 163, 76, 245], [173, 107, 100, 167], [192, 52, 124, 89], [202, 240, 132, 149],
        ]
    );
    assert_eq!(carver.get_removed_points(), Vec::<(usize, usize)>::new());
}

#[test]
fn grow_by_two_inserts_by_descending_column() {
    let mut carver = Carver::new(&sample());
    assert_eq!(
        carver.get_points_removed_by_shrink(2),
        vec![(3, 0), (2, 3), (2, 1), (1, 2), (1, 2), (0, 3), (0, 1), (0, 0)]
    );
    let image = carver.resize(2, Orientation::Horizontal, Mode::Grow);
    assert_eq!(image.dimensions(), (7, 4));
    assert_eq!(
        pixels_of(&image),
        vec![
            [108, 78, 116, 146], [63, 57, 75, 96], [19, 37, 34, 46], [49, 161, 205, 19],
            [190, 18, 237, 66], [147, 60, 221, 51], [105, 102, 206, 36], [252, 35, 215, 218],
            [196, 33, 183, 157], [141, 32, 151, 97], [106, 6, 149, 110], [150, 72, 180, 56],
            [194, 138, 212, 3], [19, 104, 40, 212], [87, 30, 60, 93], [238, 110, 94, 192],
            [197, 118, 74, 167], [156, 127, 55, 143], [74, 145, 17, 95], [93, 59, 81, 62],
            [194, 83, 164, 22], [173, 110, 229, 56], [160, 63, 218, 48], [148, 17, 208, 40],
            [154, 163, 76, 245], [173, 107, 100, 167], [192, 52, 124, 89], [202, 240, 132, 149],
        ]
    );
}

#[test]
fn grow_distance_is_the_same_as_a_horizontal_grow() {
    let mut carver = Carver::new(&sample());
    carver.grow_distance(2);
    let mut other = Carver::new(&sample());
    let resized = other.resize(2, Orientation::Horizontal, Mode::Grow);
    assert_eq!(pixels_of(&carver.rebuild_image()), pixels_of(&resized));
}

#[test]
fn vertical_grow_by_one() {
    let mut carver = Carver::new(&sample());
    let image = carver.resize(1, Orientation::Vertical, Mode::Grow);
    assert_eq!(image.dimensions(), (5, 5));
    assert_eq!(
        pixels_of(&image),
        vec![
            [108, 78, 116, 146], [19, 37, 34, 46], [49, 161, 205, 19], [190, 18, 237, 66],
            [105, 102, 206, 36], [252, 35, 215, 218], [141, 32, 151, 97], [106, 6, 149, 110],
            [194, 138, 212, 3], [19, 104, 40, 212], [169, 32, 137, 155], [238, 110, 94, 192],
            [74, 145, 17, 95], [93, 59, 81, 62], [194, 83, 164, 22], [87, 30, 60, 93],
            [193, 63, 151, 116], [154, 163, 76, 245], [192, 52, 124, 89], [202, 240, 132, 149],
            [173, 110, 229, 56], [148, 17, 208, 40], [77, 81, 38, 122], [96, 26, 62, 44],
            [101, 120, 66, 74],
        ]
    );
}

#[test]
fn grow_leaves_the_recorded_points_alone() {
    let mut carver = Carver::new(&sample());
    carver.resize(1, Orientation::Horizontal, Mode::Shrink);
    let recorded = carver.get_removed_points();
    carver.resize(2, Orientation::Horizontal, Mode::Grow);
    assert_eq!(carver.get_removed_points(), recorded);
}

#[test]
fn shrink_changes_only_the_size_along_the_axis() {
    for distance in 0..5usize {
        let mut carver = Carver::new(&sample());
        let image = carver.resize(distance, Orientation::Horizontal, Mode::Shrink);
        assert_eq!(image.dimensions(), (5 - distance as u32, 4));
    }
    for distance in 0..4usize {
        let mut carver = Carver::new(&sample());
        let image = carver.resize(distance, Orientation::Vertical, Mode::Shrink);
        assert_eq!(image.dimensions(), (5, 4 - distance as u32));
    }
}

#[test]
fn shrink_records_one_point_for_each_row_of_each_seam() {
    for distance in 0..5usize {
        let mut carver = Carver::new(&sample());
        carver.resize(distance, Orientation::Horizontal, Mode::Shrink);
        assert_eq!(carver.get_removed_points().len(), distance * 4);
    }
    for distance in 0..4usize {
        let mut carver = Carver::new(&sample());
        carver.resize(distance, Orientation::Vertical, Mode::Shrink);
        assert_eq!(carver.get_removed_points().len(), distance * 5);
    }
}

#[test]
fn removed_points_accumulate_over_resizes() {
    let mut carver = Carver::new(&sample());
    carver.resize(1, Orientation::Horizontal, Mode::Shrink);
    assert_eq!(carver.get_removed_points().len(), 4);
    carver.resize(2, Orientation::Vertical, Mode::Shrink);
    assert_eq!(carver.get_removed_points().len(), 4 + 2 * 4);
    assert_eq!(&carver.get_removed_points()[..4], &[(2, 3), (1, 2), (2, 1), (3, 0)]);
}

#[test]
fn each_seam_is_connected_and_has_one_point_in_each_row() {
    let mut carver = Carver::new(&sample());
    carver.resize(4, Orientation::Horizontal, Mode::Shrink);
    let points = carver.get_removed_points();
    assert_eq!(points.len(), 16);
    for (number, seam) in points.chunks(4).enumerate() {
        for (step, point) in seam.iter().enumerate() {
            assert_eq!(point.1, 3 - step);
            assert!(point.0 < 5 - number);
            if step > 0 {
                let before = seam[step - 1].0;
                assert!(point.0 + 1 >= before && point.0 <= before + 1);
            }
        }
    }
}

#[test]
fn grow_then_shrink_restores_the_size() {
    let mut carver = Carver::new(&sample());
    let grown = carver.resize(2, Orientation::Horizontal, Mode::Grow);
    assert_eq!(grown.dimensions(), (7, 4));
    let back = carver.resize(2, Orientation::Horizontal, Mode::Shrink);
    assert_eq!(back.dimensions(), (5, 4));
    let grown = carver.resize(3, Orientation::Vertical, Mode::Grow);
    assert_eq!(grown.dimensions(), (5, 7));
    let back = carver.resize(3, Orientation::Vertical, Mode::Shrink);
    assert_eq!(back.dimensions(), (5, 4));
}

#[test]
fn shrink_then_grow_restores_the_size() {
    let mut carver = Carver::new(&sample());
    let shrunk = carver.resize(2, Orientation::Horizontal, Mode::Shrink);
    assert_eq!(shrunk.dimensions(), (3, 4));
    let back = carver.resize(2, Orientation::Horizontal, Mode::Grow);
    assert_eq!(back.dimensions(), (5, 4));
    let shrunk = carver.resize(1, Orientation::Vertical, Mode::Shrink);
    assert_eq!(shrunk.dimensions(), (5, 3));
    let back = carver.resize(1, Orientation::Vertical, Mode::Grow);
    assert_eq!(back.dimensions(), (5, 4));
}

#[test]
fn shrink_then_grow_is_refused_where_too_little_is_left() {
    let mut carver = Carver::new(&uniform(3, 1, [9, 9, 9, 9]));
    carver.resize(2, Orientation::Horizontal, Mode::Shrink);
    let refused = carver.try_resize(2, Orientation::Horizontal, Mode::Grow);
    assert_eq!(
        refused.err(),
        Some(ResizeError::DistanceTooLarge { requested_distance: 2, current_dimension: 1 })
    );
}

#[test]
fn carving_twice_gives_the_same_result() {
    for (orientation, mode) in [
        (Orientation::Horizontal, Mode::Shrink),
        (Orientation::Horizontal, Mode::Grow),
        (Orientation::Vertical, Mode::Shrink),
        (Orientation::Vertical, Mode::Grow),
    ] {
        let mut first = Carver::new(&sample());
        let mut second = Carver::new(&sample());
        let one = first.resize(2, orientation, mode);
        let two = second.resize(2, orientation, mode);
        assert_eq!(one.dimensions(), two.dimensions());
        assert_eq!(pixels_of(&one), pixels_of(&two));
        assert_eq!(first.get_removed_points(), second.get_removed_points());
    }
}

#[test]
fn a_copy_of_a_carver_is_carved_on_its_own() {
    let mut carver = Carver::new(&sample());
    let mut copy = carver.clone();
    copy.resize(2, Orientation::Horizontal, Mode::Shrink);
    assert_eq!(carver.get_removed_points(), Vec::<(usize, usize)>::new());
    assert_eq!(pixels_of(&carver.rebuild_image()), SAMPLE.to_vec());
    carver.resize(2, Orientation::Horizontal, Mode::Shrink);
    assert_eq!(carver.get_removed_points(), copy.get_removed_points());
}

#[test]
fn remove_path_takes_one_cell_from_each_row_of_the_path() {
    let mut carver = Carver::new(&bitmap(
        3,
        2,
        &[[1, 0, 0, 0], [2, 0, 0, 0], [3, 0, 0, 0], [4, 0, 0, 0], [5, 0, 0, 0], [6, 0, 0, 0]],
    ));
    carver.remove_path(vec![(1, 1), (2, 0)]);
    assert_eq!(
        pixels_of(&carver.rebuild_image()),
        vec![[1, 0, 0, 0], [2, 0, 0, 0], [4, 0, 0, 0], [6, 0, 0, 0]]
    );
    assert_eq!(carver.get_removed_points(), vec![(1, 1), (2, 0)]);
}

#[test]
fn bitmap_without_rows_loses_columns_and_records_nothing() {
    let mut carver = Carver::new(&DynamicImage::new_rgba8(5, 0));
    let image = carver.resize(2, Orientation::Horizontal, Mode::Shrink);
    assert_eq!(image.dimensions(), (3, 0));
    assert_eq!(carver.get_removed_points(), Vec::<(usize, usize)>::new());
}

#[test]
fn carver_reads_bitmaps_of_other_formats() {
    let mut image = DynamicImage::new_rgb8(2, 1);
    image.put_pixel(0, 0, Rgba([1, 2, 3, 255]));
    image.put_pixel(1, 0, Rgba([4, 5, 6, 255]));
    let carver = Carver::new(&image);
    let rebuilt = carver.rebuild_image();
    assert_eq!(pixels_of(&rebuilt), vec![[1, 2, 3, 255], [4, 5, 6, 255]]);
}

#[test]
fn points_are_sorted_by_descending_column_and_keep_their_order_within_one() {
    let points = vec![(1, 0), (3, 1), (0, 2), (3, 3), (1, 4), (2, 5), (1, 6)];
    assert_eq!(
        sort_by_descending_column(&points, 4),
        vec![(3, 1), (3, 3), (2, 5), (1, 0), (1, 4), (1, 6), (0, 2)]
    );
    assert_eq!(sort_by_descending_column(&points, 2), vec![(1, 0), (1, 4), (1, 6), (0, 2)]);
    assert_eq!(sort_by_descending_column(&Vec::new(), 4), Vec::<(usize, usize)>::new());
}

#[test]
fn width_and_height_follow_the_resizes() {
    let mut carver = Carver::new(&sample());
    assert_eq!((carver.width(), carver.height()), (5, 4));
    carver.resize(2, Orientation::Horizontal, Mode::Shrink);
    assert_eq!((carver.width(), carver.height()), (3, 4));
    carver.resize(1, Orientation::Vertical, Mode::Grow);
    assert_eq!((carver.width(), carver.height()), (3, 5));
}

fn sample_energy(x: usize, y: usize) -> u64 {
    let at = |x: usize, y: usize| PixelEnergyPoint::from_pixel(SAMPLE[y * 5 + x]);
    let left = at(x.saturating_sub(1), y);
    let right = at((x + 1).min(4), y);
    let up = at(x, y.saturating_sub(1));
    let down = at(x, (y + 1).min(3));
    left.square_gradient(&right) + up.square_gradient(&down)
}

fn least_energy_below(x: usize, y: usize) -> u64 {
    let here = sample_energy(x, y);
    if y == 3 {
        return here;
    }
    let mut least = u64::MAX;
    for next in x.saturating_sub(1)..=(x + 1).min(4) {
        least = least.min(least_energy_below(next, y + 1));
    }
    here + least
}

#[test]
fn energies_of_the_sample() {
    assert_eq!(sample_energy(0, 0), 63896);
    assert_eq!(sample_energy(3, 0), 25917);
    assert_eq!(sample_energy(1, 2), 22019);
    assert_eq!(sample_energy(4, 3), 80974);
}

#[test]
fn no_connected_path_has_less_energy_than_the_seam() {
    let mut carver = Carver::new(&sample());
    carver.resize(1, Orientation::Horizontal, Mode::Shrink);
    let seam = carver.get_removed_points();
    let along: u64 = seam.iter().map(|&(x, y)| sample_energy(x, y)).sum();
    let least = (0..5).map(|x| least_energy_below(x, 0)).min().unwrap();
    assert_eq!(along, 161862);
    assert_eq!(along, least);
}

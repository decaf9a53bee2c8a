use bmp_canvas::{BMPImage, Color};

fn painted(image: &BMPImage, color: u32) -> Vec<(usize, usize)> {
    let mut cells = Vec::new();
    for y in 0..image.height() as usize {
        for x in 0..image.width() as usize {
            if image.get_pixel(x, y) == Some(color) {
                cells.push((x, y));
            }
        }
    }
    cells
}

/// The eight mirror images of each offset around the centre, without
/// repeats, in scan order.
fn mirrored(cx: i64, cy: i64, offsets: &[(i64, i64)]) -> Vec<(usize, usize)> {
    let mut cells: Vec<(usize, usize)> = Vec::new();
    for &(a, b) in offsets.iter() {
        let images = [
            (cx + a, cy + b),
            (cx - a, cy - b),
            (cx + a, cy - b),
            (cx - a, cy + b),
            (cx + b, cy + a),
            (cx - b, cy - a),
            (cx + b, cy - a),
            (cx - b, cy + a),
        ];
        for &(x, y) in images.iter() {
            if x >= 0 && y >= 0 && !cells.contains(&(x as usize, y as usize)) {
                cells.push((x as usize, y as usize));
            }
        }
    }
    cells.sort_by_key(|&(x, y)| (y, x));
    cells
}

#[test]
fn circle_of_radius_zero_is_its_centre() {
    let mut image = BMPImage::new(7, 6, 0, 0, Color::WHITE);
    image.draw_circle(3, 2, 0, Color::RED);
    assert_eq!(painted(&image, Color::RED), vec![(3, 2)]);
    assert_eq!(painted(&image, Color::WHITE).len(), 7 * 6 - 1);
}

#[test]
fn circle_of_radius_zero_outside_the_grid_paints_nothing() {
    let mut image = BMPImage::new(3, 3, 0, 0, Color::WHITE);
    image.draw_circle(3, 1, 0, Color::RED);
    image.draw_circle(1, 3, 0, Color::RED);
    assert_eq!(painted(&image, Color::WHITE).len(), 9);
}

#[test]
fn circle_of_radius_one_is_the_four_neighbours_of_its_centre() {
    let mut image = BMPImage::new(5, 5, 0, 0, Color::WHITE);
    image.draw_circle(2, 2, 1, Color::RED);
    assert_eq!(painted(&image, Color::RED), vec![(2, 1), (1, 2), (3, 2), (2, 3)]);
}

#[test]
fn circle_of_radius_two() {
    let mut image = BMPImage::new(7, 7, 0, 0, Color::WHITE);
    image.draw_circle(3, 3, 2, Color::RED);
    assert_eq!(painted(&image, Color::RED), mirrored(3, 3, &[(0, 2), (1, 2)]));
    assert_eq!(
        painted(&image, Color::RED),
        vec![
            (2, 1),
            (3, 1),
            (4, 1),
            (1, 2),
            (5, 2),
            (1, 3),
            (5, 3),
            (1, 4),
            (5, 4),
            (2, 5),
            (3, 5),
            (4, 5)
        ]
    );
}

#[test]
fn circle_of_radius_five_is_the_mirror_images_of_its_first_octant() {
    let mut image = BMPImage::new(21, 21, 0, 0, Color::WHITE);
    image.draw_circle(10, 10, 5, Color::RED);
    let expected = mirrored(10, 10, &[(0, 5), (1, 5), (2, 5), (3, 4)]);
    assert_eq!(expected.len(), 28);
    assert_eq!(painted(&image, Color::RED), expected);
}

#[test]
fn circle_of_radius_five_is_closed_under_the_eight_reflections() {
    let mut image = BMPImage::new(21, 21, 0, 0, Color::WHITE);
    image.draw_circle(10, 10, 5, Color::RED);
    let cells = painted(&image, Color::RED);
    assert!(!cells.is_empty());
    for &(x, y) in cells.iter() {
        let u = x as i64 - 10;
        let v = y as i64 - 10;
        let images = [(u, v), (-u, v), (u, -v), (-u, -v), (v, u), (-v, u), (v, -u), (-v, -u)];
        for &(a, b) in images.iter() {
            let cell = ((10 + a) as usize, (10 + b) as usize);
            assert!(cells.contains(&cell), "({}, {}) has no image at {:?}", x, y, cell);
        }
    }
}

#[test]
fn circle_reaches_its_radius_along_both_axes_and_no_farther() {
    let mut image = BMPImage::new(30, 30, 0, 0, Color::WHITE);
    image.draw_circle(14, 15, 9, Color::RED);
    let cells = painted(&image, Color::RED);
    assert!(cells.contains(&(14 + 9, 15)));
    assert!(cells.contains(&(14 - 9, 15)));
    assert!(cells.contains(&(14, 15 + 9)));
    assert!(cells.contains(&(14, 15 - 9)));
    for &(x, y) in cells.iter() {
        assert!(5 <= x && x <= 23);
        assert!(6 <= y && y <= 24);
    }
}

#[test]
fn circle_around_a_corner_keeps_the_part_inside_the_grid() {
    let mut image = BMPImage::new(5, 5, 0, 0, Color::WHITE);
    image.draw_circle(0, 0, 3, Color::RED);
    // Offsets of radius 3: (0, 3), (1, 3), (2, 2).
    assert_eq!(painted(&image, Color::RED), vec![(3, 0), (3, 1), (2, 2), (0, 3), (1, 3)]);
}

#[test]
fn circle_larger_than_the_grid_paints_nothing() {
    let mut image = BMPImage::new(5, 5, 0, 0, Color::WHITE);
    image.draw_circle(2, 2, 40, Color::RED);
    assert_eq!(painted(&image, Color::WHITE).len(), 25);
}

#[test]
fn circle_around_a_far_centre_does_not_overflow() {
    let mut image = BMPImage::new(4, 4, 0, 0, Color::WHITE);
    image.draw_circle(usize::MAX, usize::MAX, 3, Color::RED);
    image.draw_circle(usize::MAX, 1, 2, Color::RED);
    image.draw_circle(1, usize::MAX, 2, Color::RED);
    assert_eq!(painted(&image, Color::WHITE).len(), 16);
}

#[test]
fn circle_that_crosses_the_right_edge_is_cut_there() {
    let mut image = BMPImage::new(4, 5, 0, 0, Color::WHITE);
    image.draw_circle(3, 2, 1, Color::RED);
    assert_eq!(painted(&image, Color::RED), vec![(3, 1), (2, 2), (3, 3)]);
}

#[test]
fn circle_cells_are_within_one_cell_of_the_ideal_circle() {
    for radius in 1..=40usize {
        let mut image = BMPImage::new(101, 101, 0, 0, Color::WHITE);
        image.draw_circle(50, 50, radius, Color::RED);
        let cells = painted(&image, Color::RED);
        assert!(cells.len() >= 4);
        let r = radius as i64;
        for &(x, y) in cells.iter() {
            let u = x as i64 - 50;
            let v = y as i64 - 50;
            let squared = u * u + v * v;
            assert!((r - 1) * (r - 1) <= squared, "radius {}: ({}, {})", radius, u, v);
            assert!(squared <= r * r + r, "radius {}: ({}, {})", radius, u, v);
        }
    }
}

#[test]
fn circle_has_one_cell_for_each_column_of_its_first_octant() {
    let mut image = BMPImage::new(41, 41, 0, 0, Color::WHITE);
    image.draw_circle(20, 20, 12, Color::RED);
    // Offsets of radius 12 in the first octant, by the decision rule.
    let offsets =
        [(0, 12), (1, 12), (2, 12), (3, 12), (4, 11), (5, 11), (6, 10), (7, 10), (8, 9)];
    assert_eq!(painted(&image, Color::RED), mirrored(20, 20, &offsets));
}

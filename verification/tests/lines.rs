use bmp_canvas::{BMPImage, Color};

fn painted(image: &BMPImage, color: u32) -> Vec<(usize, usize)> {
    let mut cells = Vec::new();
    for y in 0..image.height() as usize {
        for x in 0..image.width() as usize {
            if image.get_pixel(x, y) == Some(color) {
                cells.push((x, y));
            }
        }
    }
    cells
}

#[test]
fn line_between_a_cell_and_itself_is_that_cell() {
    let mut image = BMPImage::new(7, 6, 0, 0, Color::WHITE);
    image.draw_line(3, 2, 3, 2, Color::RED);
    assert_eq!(painted(&image, Color::RED), vec![(3, 2)]);
    assert_eq!(painted(&image, Color::WHITE).len(), 7 * 6 - 1);
}

#[test]
fn line_between_a_cell_and_itself_in_every_cell_paints_one_cell() {
    for y in 0..4 {
        for x in 0..5 {
            let mut image = BMPImage::new(5, 4, 0, 0, Color::WHITE);
            image.draw_line(x, y, x, y, Color::BLUE);
            assert_eq!(painted(&image, Color::BLUE), vec![(x, y)]);
        }
    }
}

#[test]
fn horizontal_line_of_five_cells() {
    let mut image = BMPImage::new(5, 3, 0, 0, Color::WHITE);
    image.draw_line(0, 0, 4, 0, Color::RED);
    assert_eq!(painted(&image, Color::RED), vec![(0, 0), (1, 0), (2, 0), (3, 0), (4, 0)]);
    assert_eq!(painted(&image, Color::WHITE).len(), 10);
}

#[test]
fn horizontal_line_on_a_wider_grid_leaves_the_rest_alone() {
    let mut image = BMPImage::new(9, 4, 0, 0, Color::BLACK);
    image.draw_line(0, 0, 4, 0, Color::RED);
    assert_eq!(painted(&image, Color::RED), vec![(0, 0), (1, 0), (2, 0), (3, 0), (4, 0)]);
    assert_eq!(painted(&image, Color::BLACK).len(), 9 * 4 - 5);
}

#[test]
fn horizontal_line_drawn_from_right_to_left() {
    let mut image = BMPImage::new(6, 3, 0, 0, Color::WHITE);
    image.draw_line(5, 1, 2, 1, Color::RED);
    assert_eq!(painted(&image, Color::RED), vec![(2, 1), (3, 1), (4, 1), (5, 1)]);
}

#[test]
fn vertical_line_in_both_directions() {
    let mut down = BMPImage::new(3, 6, 0, 0, Color::WHITE);
    down.draw_line(1, 1, 1, 4, Color::RED);
    assert_eq!(painted(&down, Color::RED), vec![(1, 1), (1, 2), (1, 3), (1, 4)]);
    let mut up = BMPImage::new(3, 6, 0, 0, Color::WHITE);
    up.draw_line(1, 4, 1, 1, Color::RED);
    assert_eq!(painted(&up, Color::RED), vec![(1, 1), (1, 2), (1, 3), (1, 4)]);
}

#[test]
fn diagonal_line_steps_along_both_axes_at_once() {
    let mut image = BMPImage::new(5, 5, 0, 0, Color::WHITE);
    image.draw_line(0, 0, 4, 4, Color::RED);
    assert_eq!(painted(&image, Color::RED), vec![(0, 0), (1, 1), (2, 2), (3, 3), (4, 4)]);
    let mut anti = BMPImage::new(5, 5, 0, 0, Color::WHITE);
    anti.draw_line(4, 0, 0, 4, Color::RED);
    assert_eq!(painted(&anti, Color::RED), vec![(4, 0), (3, 1), (2, 2), (1, 3), (0, 4)]);
}

#[test]
fn gentle_line_has_one_cell_per_column_nearest_to_the_segment() {
    let mut image = BMPImage::new(6, 3, 0, 0, Color::WHITE);
    image.draw_line(0, 0, 5, 2, Color::RED);
    assert_eq!(
        painted(&image, Color::RED),
        vec![(0, 0), (1, 0), (2, 1), (3, 1), (4, 2), (5, 2)]
    );
}

#[test]
fn steep_line_has_one_cell_per_row_nearest_to_the_segment() {
    let mut image = BMPImage::new(3, 6, 0, 0, Color::WHITE);
    image.draw_line(0, 0, 2, 5, Color::RED);
    assert_eq!(
        painted(&image, Color::RED),
        vec![(0, 0), (0, 1), (1, 2), (1, 3), (2, 4), (2, 5)]
    );
}

#[test]
fn line_rounds_a_half_towards_its_second_end() {
    // Run 4, rise 2: at one and at three steps the ideal segment passes
    // half-way between two rows.
    let mut forth = BMPImage::new(5, 3, 0, 0, Color::WHITE);
    forth.draw_line(0, 0, 4, 2, Color::RED);
    assert_eq!(painted(&forth, Color::RED), vec![(0, 0), (1, 1), (2, 1), (3, 2), (4, 2)]);
    let mut back = BMPImage::new(5, 3, 0, 0, Color::WHITE);
    back.draw_line(4, 2, 0, 0, Color::RED);
    assert_eq!(painted(&back, Color::RED), vec![(0, 0), (1, 0), (2, 1), (3, 1), (4, 2)]);
}

#[test]
fn line_without_ties_is_the_same_from_either_end() {
    let mut forth = BMPImage::new(8, 5, 0, 0, Color::WHITE);
    forth.draw_line(1, 1, 6, 3, Color::RED);
    let mut back = BMPImage::new(8, 5, 0, 0, Color::WHITE);
    back.draw_line(6, 3, 1, 1, Color::RED);
    assert_eq!(painted(&forth, Color::RED), painted(&back, Color::RED));
    assert_eq!(
        painted(&forth, Color::RED),
        vec![(1, 1), (2, 1), (3, 2), (4, 2), (5, 3), (6, 3)]
    );
}

#[test]
fn line_has_as_many_cells_as_its_longer_extent_plus_one() {
    let ends: [(usize, usize, usize, usize); 6] =
        [(0, 0, 9, 3), (9, 3, 0, 0), (2, 9, 5, 0), (0, 0, 9, 9), (7, 1, 7, 8), (1, 6, 8, 6)];
    for &(x0, y0, x1, y1) in ends.iter() {
        let mut image = BMPImage::new(10, 10, 0, 0, Color::WHITE);
        image.draw_line(x0, y0, x1, y1, Color::RED);
        let run = if x0 < x1 { x1 - x0 } else { x0 - x1 };
        let rise = if y0 < y1 { y1 - y0 } else { y0 - y1 };
        let cells = painted(&image, Color::RED);
        assert_eq!(cells.len(), run.max(rise) + 1);
        assert!(cells.contains(&(x0, y0)));
        assert!(cells.contains(&(x1, y1)));
    }
}

#[test]
fn line_that_leaves_the_grid_is_cut_at_the_edge() {
    let mut image = BMPImage::new(5, 3, 0, 0, Color::WHITE);
    image.draw_line(0, 1, 9, 1, Color::RED);
    assert_eq!(painted(&image, Color::RED), vec![(0, 1), (1, 1), (2, 1), (3, 1), (4, 1)]);
    let mut tilted = BMPImage::new(3, 3, 0, 0, Color::WHITE);
    tilted.draw_line(0, 0, 5, 5, Color::RED);
    assert_eq!(painted(&tilted, Color::RED), vec![(0, 0), (1, 1), (2, 2)]);
}

#[test]
fn line_that_enters_the_grid_is_drawn_from_the_edge() {
    let mut image = BMPImage::new(4, 4, 0, 0, Color::WHITE);
    image.draw_line(7, 2, 2, 2, Color::RED);
    assert_eq!(painted(&image, Color::RED), vec![(2, 2), (3, 2)]);
}

#[test]
fn line_outside_the_grid_paints_nothing() {
    let mut image = BMPImage::new(4, 4, 0, 0, Color::WHITE);
    let before = image.bitmap_bytes();
    image.draw_line(4, 0, 9, 3, Color::RED);
    image.draw_line(0, 4, 3, 20, Color::RED);
    image.draw_line(10, 10, 10, 10, Color::RED);
    assert_eq!(image.bitmap_bytes(), before);
}

#[test]
fn line_between_far_ends_on_one_row_does_not_overflow() {
    let mut image = BMPImage::new(3, 2, 0, 0, Color::WHITE);
    image.draw_line(usize::MAX, 0, usize::MAX - 3, 0, Color::RED);
    image.draw_line(usize::MAX, usize::MAX, usize::MAX - 2, usize::MAX - 5, Color::RED);
    assert_eq!(painted(&image, Color::RED), vec![]);
}

#[test]
fn line_over_a_line_takes_the_later_color_where_they_cross() {
    let mut image = BMPImage::new(5, 5, 0, 0, Color::WHITE);
    image.draw_line(0, 2, 4, 2, Color::RED);
    image.draw_line(2, 0, 2, 4, Color::BLUE);
    assert_eq!(painted(&image, Color::RED), vec![(0, 2), (1, 2), (3, 2), (4, 2)]);
    assert_eq!(painted(&image, Color::BLUE), vec![(2, 0), (2, 1), (2, 2), (2, 3), (2, 4)]);
}

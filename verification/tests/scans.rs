use bmp_canvas::{BMPImage, Color};

fn rows(image: &BMPImage) -> Vec<Vec<u32>> {
    let mut out = Vec::new();
    for y in 0..image.height() as usize {
        let mut row = Vec::new();
        for x in 0..image.width() as usize {
            match image.get_pixel(x, y) {
                Some(color) => row.push(color),
                None => panic!("no cell at ({}, {})", x, y),
            }
        }
        out.push(row);
    }
    out
}

const W: u32 = Color::WHITE;
const R: u32 = Color::RED;
const G: u32 = Color::GREEN;
const B: u32 = Color::BLUE;

#[test]
fn apply_on_x_with_no_instruction_changes_nothing() {
    let mut image = BMPImage::new(4, 3, 0, 0, 0x1122_3344);
    image.set_pixel(1, 1, R);
    let before = rows(&image);
    image.apply_on_x(|_x| Vec::new());
    assert_eq!(rows(&image), before);
}

#[test]
fn apply_on_y_with_no_instruction_changes_nothing() {
    let mut image = BMPImage::new(4, 3, 0, 0, 0x1122_3344);
    image.set_pixel(2, 0, G);
    let before = rows(&image);
    image.apply_on_y(|_y| Vec::new());
    assert_eq!(rows(&image), before);
}

#[test]
fn apply_on_x_reads_each_pair_as_a_row_of_its_column() {
    let mut image = BMPImage::new(3, 4, 0, 0, W);
    image.apply_on_x(|x| vec![(x + 1, R)]);
    assert_eq!(
        rows(&image),
        vec![vec![W, W, W], vec![R, W, W], vec![W, R, W], vec![W, W, R]]
    );
}

#[test]
fn apply_on_y_reads_each_pair_as_a_column_of_its_row() {
    let mut image = BMPImage::new(4, 3, 0, 0, W);
    image.apply_on_y(|y| vec![(y + 1, R)]);
    assert_eq!(rows(&image), vec![vec![W, R, W, W], vec![W, W, R, W], vec![W, W, W, R]]);
}

#[test]
fn apply_on_x_calls_the_function_once_for_each_column_in_order() {
    let calls = std::cell::RefCell::new(Vec::new());
    let mut image = BMPImage::new(5, 2, 0, 0, W);
    image.apply_on_x(|x| {
        calls.borrow_mut().push(x);
        Vec::new()
    });
    assert_eq!(calls.into_inner(), vec![0, 1, 2, 3, 4]);
}

#[test]
fn apply_on_y_calls_the_function_once_for_each_row_in_order() {
    let calls = std::cell::RefCell::new(Vec::new());
    let mut image = BMPImage::new(5, 2, 0, 0, W);
    image.apply_on_y(|y| {
        calls.borrow_mut().push(y);
        Vec::new()
    });
    assert_eq!(calls.into_inner(), vec![0, 1]);
}

#[test]
fn apply_on_x_leaves_out_rows_outside_the_grid() {
    let mut image = BMPImage::new(2, 2, 0, 0, W);
    image.apply_on_x(|_x| vec![(2, R), (1, G), (usize::MAX, B)]);
    assert_eq!(rows(&image), vec![vec![W, W], vec![G, G]]);
}

#[test]
fn apply_on_y_leaves_out_columns_outside_the_grid() {
    let mut image = BMPImage::new(2, 2, 0, 0, W);
    image.apply_on_y(|_y| vec![(2, R), (1, G), (usize::MAX, B)]);
    assert_eq!(rows(&image), vec![vec![W, G], vec![W, G]]);
}

#[test]
fn apply_on_x_lets_a_later_instruction_override_an_earlier_one() {
    let mut image = BMPImage::new(2, 3, 0, 0, W);
    image.apply_on_x(|_x| vec![(0, R), (2, B), (0, G)]);
    assert_eq!(rows(&image), vec![vec![G, G], vec![W, W], vec![B, B]]);
}

#[test]
fn apply_on_x_fills_a_gradient() {
    let mut image = BMPImage::new(3, 2, 0, 0, W);
    image.apply_on_x(|x| (0..2).map(|y| (y, Color::from_rgb(x as u8, y as u8, 0))).collect());
    assert_eq!(
        rows(&image),
        vec![
            vec![0xFF00_0000, 0xFF01_0000, 0xFF02_0000],
            vec![0xFF00_0100, 0xFF01_0100, 0xFF02_0100]
        ]
    );
}

#[test]
fn apply_on_an_empty_grid_never_calls_the_function() {
    let mut image = BMPImage::new(0, 0, 0, 0, W);
    image.apply_on_x(|_x| panic!("called for a column that does not exist"));
    image.apply_on_y(|_y| panic!("called for a row that does not exist"));
}

#[test]
fn paint_column_writes_each_pair_down_one_column() {
    let mut image = BMPImage::new(3, 3, 0, 0, W);
    image.paint_column(1, &vec![(0, R), (2, B), (3, G), (0, G)]);
    assert_eq!(rows(&image), vec![vec![W, G, W], vec![W, W, W], vec![W, B, W]]);
}

#[test]
fn paint_row_writes_each_pair_along_one_row() {
    let mut image = BMPImage::new(3, 3, 0, 0, W);
    image.paint_row(1, &vec![(0, R), (2, B), (3, G), (0, G)]);
    assert_eq!(rows(&image), vec![vec![W, W, W], vec![G, W, B], vec![W, W, W]]);
}

#[test]
fn paint_outside_the_grid_changes_nothing() {
    let mut image = BMPImage::new(3, 3, 0, 0, W);
    image.paint_column(3, &vec![(0, R), (1, R)]);
    image.paint_row(3, &vec![(0, R), (1, R)]);
    assert_eq!(rows(&image), vec![vec![W; 3]; 3]);
}

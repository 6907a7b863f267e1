use color_growth::canvas::paint;
use color_growth::color::Color;
use color_growth::grid::cell_index;
use color_growth::grid::cell_location;
use color_growth::grid::neighbor;
use color_growth::grid::Direction;
use color_growth::grid::Grid;
use color_growth::grid::Location;

fn at(row: usize, col: usize) -> Location {
    Location { row, col }
}

#[test]
fn cells_are_numbered_row_after_row() {
    assert_eq!(cell_index(5, at(0, 0)), 0);
    assert_eq!(cell_index(5, at(0, 4)), 4);
    assert_eq!(cell_index(5, at(1, 0)), 5);
    assert_eq!(cell_index(5, at(4, 4)), 24);
    assert_eq!(cell_location(5, 24), at(4, 4));
    assert_eq!(cell_location(5, 7), at(1, 2));
    for cell in 0..25 {
        assert_eq!(cell_index(5, cell_location(5, cell)), cell);
    }
}

#[test]
fn neighbors_inside_the_grid() {
    assert_eq!(neighbor(3, at(1, 1), Direction::Up), Some(at(0, 1)));
    assert_eq!(neighbor(3, at(1, 1), Direction::Left), Some(at(1, 0)));
    assert_eq!(neighbor(3, at(1, 1), Direction::Down), Some(at(2, 1)));
    assert_eq!(neighbor(3, at(1, 1), Direction::Right), Some(at(1, 2)));
}

#[test]
fn neighbors_off_the_grid() {
    assert_eq!(neighbor(3, at(0, 0), Direction::Up), None);
    assert_eq!(neighbor(3, at(0, 0), Direction::Left), None);
    assert_eq!(neighbor(3, at(2, 2), Direction::Down), None);
    assert_eq!(neighbor(3, at(2, 2), Direction::Right), None);
    assert_eq!(neighbor(1, at(0, 0), Direction::Down), None);
    assert_eq!(neighbor(1, at(0, 0), Direction::Right), None);
}

#[test]
fn commit_sets_then_blends() {
    let mut g = Grid::new(4);
    assert_eq!(g.count(), 0);
    assert_eq!(g.color_at(at(1, 2)), None);
    g.commit(cell_index(4, at(1, 2)), Color::new(200, 255, 0));
    assert_eq!(g.color_at(at(1, 2)), Some(Color::new(200, 255, 0)));
    assert_eq!(g.color_of(6), Some(Color::new(200, 255, 0)));
    assert_eq!(g.count(), 1);
    g.commit(cell_index(4, at(1, 2)), Color::new(50, 1, 7));
    assert_eq!(g.color_at(at(1, 2)), Some(Color::new(125, 128, 3)));
    assert_eq!(g.count(), 1);
    assert_eq!(g.size(), 4);
}

#[test]
fn color_at_is_none_off_the_grid() {
    let mut g = Grid::new(2);
    g.commit(0, Color::new(1, 2, 3));
    assert_eq!(g.color_at(at(2, 0)), None);
    assert_eq!(g.color_at(at(0, 2)), None);
    assert_eq!(g.color_at(at(usize::MAX, usize::MAX)), None);
}

fn filled(size: usize, vacant: &[(usize, usize)]) -> Grid {
    let mut g = Grid::new(size);
    for row in 0..size {
        for col in 0..size {
            if !vacant.contains(&(row, col)) {
                g.commit(cell_index(size, at(row, col)), Color::new(9, 9, 9));
            }
        }
    }
    g
}

#[test]
fn gate_is_closed_on_a_full_grid() {
    let g = filled(7, &[]);
    for smoothing in 0..10 {
        assert!(!g.open_near(at(3, 3), smoothing));
        assert!(!g.open_near(at(0, 0), smoothing));
        assert!(!g.open_near(at(6, 0), smoothing));
    }
    assert!(!g.open_near(at(3, 3), usize::MAX));
}

#[test]
fn gate_sees_along_rows_columns_and_diagonals() {
    // along the row
    assert!(filled(9, &[(4, 7)]).open_near(at(4, 4), 3));
    assert!(filled(9, &[(4, 1)]).open_near(at(4, 4), 3));
    // along the column
    assert!(filled(9, &[(7, 4)]).open_near(at(4, 4), 3));
    assert!(filled(9, &[(1, 4)]).open_near(at(4, 4), 3));
    // along both diagonals
    assert!(filled(9, &[(7, 7)]).open_near(at(4, 4), 3));
    assert!(filled(9, &[(1, 1)]).open_near(at(4, 4), 3));
    assert!(filled(9, &[(1, 7)]).open_near(at(4, 4), 3));
    assert!(filled(9, &[(7, 1)]).open_near(at(4, 4), 3));
}

#[test]
fn gate_sees_no_further_than_the_smoothing() {
    assert!(!filled(9, &[(4, 7)]).open_near(at(4, 4), 2));
    assert!(!filled(9, &[(7, 7)]).open_near(at(4, 4), 2));
    assert!(!filled(9, &[(0, 4)]).open_near(at(4, 4), 3));
    assert!(filled(9, &[(0, 4)]).open_near(at(4, 4), 4));
}

#[test]
fn gate_sees_nothing_off_the_star() {
    // a knight's move away
    assert!(!filled(9, &[(5, 6)]).open_near(at(4, 4), 8));
    assert!(!filled(9, &[(2, 3)]).open_near(at(4, 4), 8));
}

#[test]
fn gate_with_no_smoothing_looks_at_the_cell_itself() {
    assert!(!filled(5, &[(2, 3)]).open_near(at(2, 2), 0));
    assert!(filled(5, &[(2, 2)]).open_near(at(2, 2), 0));
}

#[test]
fn paint_puts_rows_on_the_x_axis() {
    let mut g = Grid::new(3);
    g.commit(cell_index(3, at(2, 0)), Color::new(10, 20, 30));
    g.commit(cell_index(3, at(0, 1)), Color::new(1, 2, 3));
    let samples = paint(&g).into_samples();
    assert_eq!(samples.len(), 27);
    let img = image::RgbImage::from_raw(3, 3, samples).unwrap();
    assert_eq!(img.get_pixel(2, 0), &image::Rgb([10, 20, 30]));
    assert_eq!(img.get_pixel(0, 1), &image::Rgb([1, 2, 3]));
    let mut black = 0;
    for x in 0..3 {
        for y in 0..3 {
            if img.get_pixel(x, y) == &image::Rgb([0, 0, 0]) {
                black += 1;
            }
        }
    }
    assert_eq!(black, 7);
}

#[test]
fn paint_of_an_empty_grid_is_black() {
    let g = Grid::new(4);
    let samples = paint(&g).into_samples();
    assert_eq!(samples, vec![0u8; 48]);
}

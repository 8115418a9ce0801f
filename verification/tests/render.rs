use gridsim::render::Frame;
use gridsim::{Direction, Grid};

#[test]
fn blank_grid_has_no_frame_and_no_text() {
    let grid = Grid::new();
    assert_eq!(grid.frame(), None);
    assert_eq!(grid.render(), "");
    let mut spaced = Grid::new_from_string("   \n  ");
    assert_eq!(spaced.frame(), None);
    assert_eq!(spaced.render(), "");
    spaced.spawn_cursor(1, 0, 0, Direction::Right, vec![], 1, false);
    assert_eq!(spaced.frame(), None);
    assert_eq!(spaced.render(), "");
}

#[test]
fn frame_is_the_smallest_rectangle() {
    let grid = Grid::new_from_string("  ab\n c");
    assert_eq!(grid.frame(), Some(Frame { min_x: 1, max_x: 3, min_y: 0, max_y: 1 }));
    let mut far = Grid::new();
    far.set_cell(100, 7, b'x');
    assert_eq!(far.frame(), Some(Frame { min_x: 100, max_x: 100, min_y: 7, max_y: 7 }));
    far.set_cell(3, 200, b'y');
    assert_eq!(far.frame(), Some(Frame { min_x: 3, max_x: 100, min_y: 7, max_y: 200 }));
    far.set_cell(3, 200, b' ');
    assert_eq!(far.frame(), Some(Frame { min_x: 100, max_x: 100, min_y: 7, max_y: 7 }));
}

#[test]
fn frame_reaches_the_far_corner() {
    let mut grid = Grid::new();
    grid.set_cell(usize::MAX, usize::MAX, b'x');
    assert_eq!(
        grid.frame(),
        Some(Frame { min_x: usize::MAX, max_x: usize::MAX, min_y: usize::MAX, max_y: usize::MAX })
    );
    assert_eq!(grid.render(), "x\n");
}

#[test]
fn render_shows_the_frame_row_by_row() {
    let grid = Grid::new_from_string("  ab\n c");
    assert_eq!(grid.render(), " ab\nc  \n");
    let single = Grid::new_from_string("\n\n   >");
    assert_eq!(single.render(), ">\n");
}

#[test]
fn render_highlights_cursors() {
    let mut grid = Grid::new_from_string("  ab\n c");
    grid.spawn_cursor(1, 2, 0, Direction::Right, vec![], 1, false);
    assert_eq!(grid.render(), " \u{1b}[7ma\u{1b}[0mb\nc  \n");
    grid.spawn_cursor(2, 3, 1, Direction::Right, vec![], 1, false);
    grid.spawn_cursor(3, 3, 1, Direction::Up, vec![], 1, false);
    assert_eq!(grid.render(), " \u{1b}[7ma\u{1b}[0mb\nc \u{1b}[7m \u{1b}[0m\n");
    grid.spawn_cursor(4, 0, 0, Direction::Right, vec![], 1, false);
    grid.spawn_cursor(5, 50, 50, Direction::Right, vec![], 1, false);
    assert_eq!(grid.render(), " \u{1b}[7ma\u{1b}[0mb\nc \u{1b}[7m \u{1b}[0m\n");
}

#[test]
fn render_spans_chunks() {
    let mut grid = Grid::new();
    grid.set_cell(31, 31, b'a');
    grid.set_cell(33, 32, b'b');
    assert_eq!(grid.render(), "a  \n  b\n");
}

#[test]
fn render_writes_high_bytes_as_their_characters() {
    let mut grid = Grid::new();
    grid.set_cell(0, 0, 200);
    grid.set_cell(1, 0, b'z');
    assert_eq!(grid.render(), "\u{c8}z\n");
}

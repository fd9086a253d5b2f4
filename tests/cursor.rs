use tagtable::cursor::Cursor;
use tagtable::cursor::CursorDir;

fn shifted(mut c: Cursor, dir: CursorDir, n: usize, bx: usize, by: usize) -> Cursor {
    c.shift(dir, n, bx, by);
    c
}

#[test]
fn moving_up_from_first_row_enters_header() {
    assert_eq!(shifted(Cursor::Cell(0, 0), CursorDir::U, 1, 5, 5), Cursor::Column(0));
    assert_eq!(shifted(Cursor::Cell(3, 2), CursorDir::U, 2, 5, 5), Cursor::Cell(3, 0));
    assert_eq!(shifted(Cursor::Cell(3, 2), CursorDir::U, 3, 5, 5), Cursor::Column(3));
}

#[test]
fn moving_down_from_header_enters_grid() {
    assert_eq!(shifted(Cursor::Column(2), CursorDir::D, 1, 5, 5), Cursor::Cell(2, 0));
    assert_eq!(shifted(Cursor::Column(2), CursorDir::D, 3, 5, 5), Cursor::Cell(2, 2));
    assert_eq!(shifted(Cursor::Column(2), CursorDir::D, 10, 5, 5), Cursor::Cell(2, 4));
}

#[test]
fn header_ignores_moving_up() {
    assert_eq!(shifted(Cursor::Column(1), CursorDir::U, 4, 5, 5), Cursor::Column(1));
}

#[test]
fn sideways_moves_saturate_and_clamp() {
    assert_eq!(shifted(Cursor::Cell(1, 1), CursorDir::L, 5, 5, 5), Cursor::Cell(0, 1));
    assert_eq!(shifted(Cursor::Cell(1, 1), CursorDir::R, usize::MAX, 5, 5), Cursor::Cell(4, 1));
    assert_eq!(shifted(Cursor::Column(1), CursorDir::R, 2, 5, 5), Cursor::Column(3));
    assert_eq!(shifted(Cursor::Column(1), CursorDir::L, 1, 5, 5), Cursor::Column(0));
    assert_eq!(shifted(Cursor::Cell(1, 3), CursorDir::D, usize::MAX, 5, 5), Cursor::Cell(1, 4));
}

#[test]
fn zero_shift_still_clamps() {
    assert_eq!(shifted(Cursor::Cell(7, 9), CursorDir::D, 0, 5, 5), Cursor::Cell(4, 4));
    assert_eq!(shifted(Cursor::Column(7), CursorDir::D, 0, 5, 5), Cursor::Cell(4, 0));
    assert_eq!(shifted(Cursor::Column(2), CursorDir::D, 0, 5, 5), Cursor::Cell(2, 0));
    assert_eq!(shifted(Cursor::Column(7), CursorDir::U, 0, 5, 5), Cursor::Column(4));
    assert_eq!(shifted(Cursor::Cell(7, 9), CursorDir::U, 0, 0, 0), Cursor::Cell(0, 0));
}

#[test]
fn clamp_to_empty_bounds() {
    let mut c = Cursor::Cell(3, 3);
    c.clamp(0, 2);
    assert_eq!(c, Cursor::Cell(0, 1));
}

#[test]
fn cursor_queries() {
    assert_eq!(Cursor::Cell(2, 3).to_xy(), (2, Some(3)));
    assert_eq!(Cursor::Column(2).to_xy(), (2, None));
    assert_eq!(Cursor::Cell(2, 3).column_index(), None);
    assert_eq!(Cursor::Column(2).column_index(), Some(2));
    assert!(Cursor::Column(2).is_in_column_mode());
    assert!(!Cursor::Column(2).is_in_cell_mode());
    assert!(Cursor::Cell(0, 0).is_in_cell_mode());
    assert!(!Cursor::Cell(0, 0).is_in_column_mode());
}

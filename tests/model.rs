use tagtable::cursor::Cursor;
use tagtable::data::Column;
use tagtable::data::ColumnKey;
use tagtable::data::Data;
use tagtable::data::Record;
use tagtable::data::Sizing;
use tagtable::model::Model;

fn record(entries: &[(&str, &str)]) -> Record {
    let mut r = Record::new();
    for (k, v) in entries {
        r.metadata.push((k.to_string(), v.to_string()));
    }
    r
}

fn column(key: &str, title: &str, sizing: Sizing) -> Column {
    Column { key: ColumnKey::Meta(key.to_string()), title: title.to_string(), sizing }
}

fn sample() -> Model {
    let columns = vec![
        column("a", "A", Sizing::Auto),
        column("a", "A", Sizing::Fixed(2)),
        column("a", "A", Sizing::Lower(9)),
        column("a", "A", Sizing::Upper(3)),
        column("a", "A", Sizing::Bound(1, 4)),
        column("a", "A", Sizing::Bound(7, 9)),
    ];
    let records = vec![record(&[("a", "hello")]), record(&[("a", "hi")]), record(&[])];
    Model::with_data(Data::with_data(columns, records))
}

fn widths(m: &Model) -> Vec<usize> {
    let mut out = Vec::new();
    let mut it = m.iter_cached_widths();
    while let Some(w) = it.next() {
        out.push(w);
    }
    out
}

#[test]
fn widths_follow_each_sizing() {
    let m = sample();
    assert_eq!(widths(&m), vec![5, 2, 9, 3, 4, 7]);
    assert!(!m.is_dirty());
    assert_eq!(m.cursor, Cursor::Cell(0, 0));
}

#[test]
fn recache_twice_recomputes_nothing() {
    let mut m = sample();
    m.recache();
    let before = widths(&m);
    m.recache();
    assert_eq!(widths(&m), before);
    // Change the records behind the cache's back: a clean cache is not
    // recomputed, so the widths stay as they were.
    m.data.records.push(record(&[("a", "a much longer value")]));
    m.recache();
    assert_eq!(widths(&m), before);
    // Through the model, the change marks the cache dirty once.
    m.mutate_records().push(record(&[("a", "x")]));
    assert!(m.is_dirty());
    m.recache();
    assert!(!m.is_dirty());
    assert_eq!(widths(&m), vec![19, 2, 19, 3, 4, 9]);
}

#[test]
fn editing_columns_marks_dirty() {
    let mut m = sample();
    let cols = m.mutate_columns();
    cols.truncate(2);
    cols.push(column("a", "A", Sizing::Fixed(11)));
    assert!(m.is_dirty());
    m.recache();
    assert_eq!(widths(&m), vec![5, 2, 11]);
}

#[test]
fn total_width_and_offsets() {
    let m = sample();
    // 5 + 2 + 9 + 3 + 4 + 7 = 30, and five separators.
    assert_eq!(m.total_display_width(3), 45);
    assert_eq!(m.total_display_width(0), 30);
    assert_eq!(m.column_offset(0, 3), Some(0));
    assert_eq!(m.column_offset(1, 3), Some(8));
    assert_eq!(m.column_offset(5, 3), Some(38));
    assert_eq!(m.column_offset(6, 3), None);
    let empty = Model::with_data(Data::new());
    assert_eq!(empty.total_display_width(3), 0);
    assert_eq!(empty.column_offset(0, 3), None);
}

#[test]
fn sorting_keeps_the_cache_clean() {
    let mut m = sample();
    m.sort_by_column_index(0, false);
    assert!(!m.is_dirty());
    assert_eq!(widths(&m), vec![5, 2, 9, 3, 4, 7]);
    assert_eq!(m.data.records[0].get_meta("a"), None);
    assert_eq!(m.data.records[1].get_meta("a"), Some("hello"));
    assert_eq!(m.data.records[2].get_meta("a"), Some("hi"));
}

#[test]
fn cursor_moves_through_the_model() {
    let mut m = sample();
    m.move_cursor_up(1);
    assert!(m.is_cursor_at_column(0));
    assert!(!m.is_cursor_at_cell(0, 0));
    m.move_cursor_right(2);
    assert!(m.is_cursor_at_column(2));
    m.move_cursor_down(1);
    assert!(m.is_cursor_at_cell(2, 0));
    m.move_cursor_down(10);
    assert!(m.is_cursor_at_cell(2, 2));
    m.move_cursor_left(10);
    assert!(m.is_cursor_at_cell(0, 2));
    m.move_cursor_right(100);
    assert!(m.is_cursor_at_cell(5, 2));
    assert!(!m.is_dirty());
}

#[test]
fn cursor_returns_into_bounds_after_rows_removed() {
    let mut m = sample();
    m.move_cursor_down(2);
    assert!(m.is_cursor_at_cell(0, 2));
    m.mutate_records().pop();
    m.move_cursor_down(0);
    assert!(m.is_cursor_at_cell(0, 1));
    m.mutate_records().clear();
    m.move_cursor_up(0);
    assert!(m.is_cursor_at_cell(0, 0));
}

use std::cmp::Ordering;

use tagtable::config::Config;
use tagtable::data::Column;
use tagtable::data::ColumnKey;
use tagtable::data::Data;
use tagtable::data::InfoKind;
use tagtable::data::Record;
use tagtable::data::Sizing;
use tagtable::data::SizingRepr;
use tagtable::fit::Util;
use tagtable::text::compare_text;
use tagtable::text::file_name;

fn record(entries: &[(&str, &str)], path: &str) -> Record {
    let mut r = Record::new();
    for (k, v) in entries {
        r.metadata.push((k.to_string(), v.to_string()));
    }
    r.file_path = path.to_string();
    r
}

fn column(key: &str, title: &str, sizing: Sizing) -> Column {
    Column { key: ColumnKey::Meta(key.to_string()), title: title.to_string(), sizing }
}

fn values(data: &Data, key: &str) -> Vec<Option<String>> {
    data.records.iter().map(|r| r.get_meta(key).map(|s| s.to_string())).collect()
}

#[test]
fn sort_puts_absent_first_ascending_and_last_descending() {
    let make = || {
        Data::with_data(
            vec![column("k", "K", Sizing::Auto)],
            vec![record(&[("k", "b")], "/1"), record(&[("k", "a")], "/2"), record(&[], "/3")],
        )
    };
    let mut data = make();
    data.sort_by_column_index(0, false);
    assert_eq!(values(&data, "k"), vec![None, Some("a".to_string()), Some("b".to_string())]);

    let mut data = make();
    data.sort_by_column_index(0, true);
    assert_eq!(values(&data, "k"), vec![Some("b".to_string()), Some("a".to_string()), None]);
}

#[test]
fn sort_is_stable() {
    let mut data = Data::with_data(
        vec![column("k", "K", Sizing::Auto)],
        vec![
            record(&[("k", "x")], "/1"),
            record(&[("k", "a")], "/2"),
            record(&[("k", "x")], "/3"),
            record(&[], "/4"),
            record(&[("k", "a")], "/5"),
            record(&[], "/6"),
        ],
    );
    data.sort_by_column_index(0, false);
    let paths: Vec<&str> = data.records.iter().map(|r| r.file_path.as_str()).collect();
    assert_eq!(paths, vec!["/4", "/6", "/2", "/5", "/1", "/3"]);
    data.sort_by_column_index(0, true);
    let paths: Vec<&str> = data.records.iter().map(|r| r.file_path.as_str()).collect();
    assert_eq!(paths, vec!["/1", "/3", "/2", "/5", "/4", "/6"]);
}

#[test]
fn sort_past_last_column_changes_nothing() {
    let mut data = Data::with_data(
        vec![column("k", "K", Sizing::Auto)],
        vec![record(&[("k", "b")], "/1"), record(&[("k", "a")], "/2")],
    );
    data.sort_by_column_index(1, false);
    assert_eq!(values(&data, "k"), vec![Some("b".to_string()), Some("a".to_string())]);
}

#[test]
fn sort_by_file_name() {
    let mut data = Data::with_data(
        vec![Column { key: ColumnKey::Info(InfoKind::FileName), title: "F".to_string(), sizing: Sizing::Auto }],
        vec![record(&[], "/z/b.flac"), record(&[], "/a/c.flac"), record(&[], "/y/a.flac")],
    );
    data.sort_by_column_index(0, false);
    let paths: Vec<&str> = data.records.iter().map(|r| r.file_path.as_str()).collect();
    assert_eq!(paths, vec!["/y/a.flac", "/z/b.flac", "/a/c.flac"]);
}

#[test]
fn record_lookups() {
    let r = record(&[("ARTIST", "Someone"), ("TITLE", "Song"), ("ARTIST", "Other")], "/music/x/song.flac");
    assert_eq!(r.get_meta("ARTIST"), Some("Someone"));
    assert_eq!(r.get_meta("TITLE"), Some("Song"));
    assert_eq!(r.get_meta("ALBUM"), None);
    assert_eq!(r.get_info(&InfoKind::FilePath), Some("/music/x/song.flac"));
    assert_eq!(r.get_info(&InfoKind::FileName), Some("song.flac"));
    assert_eq!(r.get(&ColumnKey::Meta("TITLE".to_string())), Some("Song"));
    assert_eq!(r.get(&ColumnKey::Info(InfoKind::FileName)), Some("song.flac"));
    let empty = Record::new();
    assert_eq!(empty.get_meta("ARTIST"), None);
    assert_eq!(empty.get_info(&InfoKind::FileName), None);
    assert_eq!(empty.get_info(&InfoKind::FilePath), Some(""));
}

#[test]
fn file_names_of_paths() {
    assert_eq!(file_name("/music/a.flac"), Some("a.flac"));
    assert_eq!(file_name("a.flac"), Some("a.flac"));
    assert_eq!(file_name("dir/sub/"), Some("sub"));
    assert_eq!(file_name("dir/sub/."), Some("sub"));
    assert_eq!(file_name("dir/.."), None);
    assert_eq!(file_name("/"), None);
    assert_eq!(file_name(""), None);
    assert_eq!(file_name("."), None);
    assert_eq!(file_name("..x"), Some("..x"));
}

#[test]
fn text_order() {
    assert_eq!(compare_text("a", "b"), Ordering::Less);
    assert_eq!(compare_text("b", "a"), Ordering::Greater);
    assert_eq!(compare_text("ab", "ab"), Ordering::Equal);
    assert_eq!(compare_text("ab", "abc"), Ordering::Less);
    assert_eq!(compare_text("", ""), Ordering::Equal);
    assert_eq!(compare_text("Z", "a"), Ordering::Less);
    assert_eq!(compare_text("é", "z"), "é".cmp("z"));
}

#[test]
fn iter_column_yields_each_record_value() {
    let data = Data::with_data(
        vec![],
        vec![record(&[("k", "1")], "/1"), record(&[], "/2")],
    );
    let mut it = data.iter_column("k");
    assert_eq!(it.next(), Some(Some("1")));
    assert_eq!(it.next(), Some(None));
    assert_eq!(it.next(), None);
}

#[test]
fn sizing_from_written_form() {
    assert_eq!(Sizing::from(SizingRepr::Auto), Sizing::Auto);
    assert_eq!(Sizing::from(SizingRepr::Fixed(4)), Sizing::Fixed(4));
    assert_eq!(Sizing::from(SizingRepr::Lower(3, ())), Sizing::Lower(3));
    assert_eq!(Sizing::from(SizingRepr::Upper((), 9)), Sizing::Upper(9));
    assert_eq!(Sizing::from(SizingRepr::Bound(2, 8)), Sizing::Bound(2, 8));
    assert_eq!(Sizing::from(SizingRepr::Bound(8, 2)), Sizing::Bound(8, 8));
}

#[test]
fn column_content_width_takes_widest() {
    let records = vec![
        record(&[("k", "日本人")], "/1"),
        record(&[("k", "ab")], "/2"),
        record(&[], "/3"),
    ];
    assert_eq!(Util::max_column_content_width(&column("k", "K", Sizing::Auto), &records), 6);
    assert_eq!(Util::max_column_content_width(&column("k", "A long title", Sizing::Auto), &records), 12);
    assert_eq!(Util::max_column_content_width(&column("z", "T", Sizing::Auto), &records), 1);
    assert_eq!(Util::max_column_content_width(&column("z", "", Sizing::Auto), &vec![]), 0);
}

#[test]
fn default_config_columns() {
    let config = Config::default();
    let titles: Vec<&str> = config.columns.iter().map(|c| c.title.as_str()).collect();
    assert_eq!(titles, vec!["Artist", "Title", "Album", "File Name"]);
    assert_eq!(config.columns[0].key, ColumnKey::Meta("ARTIST".to_string()));
    assert_eq!(config.columns[3].key, ColumnKey::Meta("FILENAME".to_string()));
    assert!(config.columns.iter().all(|c| c.sizing == Sizing::Auto));
}

#[test]
fn empty_data() {
    let data = Data::new();
    assert!(data.columns.is_empty());
    assert!(data.records.is_empty());
    let data = Data::default();
    assert!(data.records.is_empty());
}

#[test]
fn insert_meta_replaces_an_existing_key() {
    let mut r = Record::new();
    r.insert_meta("ARTIST".to_string(), "First".to_string());
    r.insert_meta("TITLE".to_string(), "Song".to_string());
    r.insert_meta("ARTIST".to_string(), "Second".to_string());
    assert_eq!(r.get_meta("ARTIST"), Some("Second"));
    assert_eq!(r.get_meta("TITLE"), Some("Song"));
    assert_eq!(r.metadata.len(), 2);
}

#[test]
fn sort_many_records_is_sorted_and_stable() {
    let records: Vec<Record> = (0..53)
        .map(|i| {
            let path = format!("/{:02}", i);
            if i % 9 == 0 {
                record(&[], &path)
            } else {
                let v = format!("v{}", (i * 7) % 5);
                record(&[("k", v.as_str())], &path)
            }
        })
        .collect();
    let mut data = Data::with_data(vec![column("k", "K", Sizing::Auto)], records);
    data.sort_by_column_index(0, false);
    let got: Vec<(Option<String>, String)> = data
        .records
        .iter()
        .map(|r| (r.get_meta("k").map(|s| s.to_string()), r.file_path.clone()))
        .collect();
    let mut expected = got.clone();
    expected.sort_by(|a, b| a.0.cmp(&b.0).then(a.1.cmp(&b.1)));
    assert_eq!(got, expected);
    assert_eq!(got.len(), 53);

    data.sort_by_column_index(0, true);
    let got: Vec<(Option<String>, String)> = data
        .records
        .iter()
        .map(|r| (r.get_meta("k").map(|s| s.to_string()), r.file_path.clone()))
        .collect();
    let mut expected = got.clone();
    expected.sort_by(|a, b| b.0.cmp(&a.0).then(a.1.cmp(&b.1)));
    assert_eq!(got, expected);
}

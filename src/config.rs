//! What columns the table shows.
use vstd::prelude::*;

use crate::data::Column;
use crate::data::ColumnKey;
use crate::data::Columns;
use crate::data::Sizing;

verus! {

pub struct Config {
    pub columns: Columns,
}

/// An automatically sized column showing the metadata entry `key` under the
/// header `title`.
fn meta_column(key: &str, title: &str) -> (r: Column)
    ensures
        r.key matches ColumnKey::Meta(k) && k@ == key@,
        r.title@ == title@,
        r.sizing == Sizing::Auto,
{
    Column { key: ColumnKey::Meta(key.to_owned()), title: title.to_owned(), sizing: Sizing::Auto }
}

impl Default for Config {
    /// Artist, title, album and file name, each sized automatically.
    fn default() -> (r: Self)
        ensures
            r.columns@.len() == 4,
            r.columns@[0].key matches ColumnKey::Meta(k) && k@ == "ARTIST"@,
            r.columns@[0].title@ == "Artist"@,
            r.columns@[1].key matches ColumnKey::Meta(k) && k@ == "TITLE"@,
            r.columns@[1].title@ == "Title"@,
            r.columns@[2].key matches ColumnKey::Meta(k) && k@ == "ALBUM"@,
            r.columns@[2].title@ == "Album"@,
            r.columns@[3].key matches ColumnKey::Meta(k) && k@ == "FILENAME"@,
            r.columns@[3].title@ == "File Name"@,
            forall|i: int| 0 <= i < 4 ==> (#[trigger] r.columns@[i]).sizing == Sizing::Auto,
    {
        let mut columns: Columns = Vec::new();
        columns.push(meta_column("ARTIST", "Artist"));
        columns.push(meta_column("TITLE", "Title"));
        columns.push(meta_column("ALBUM", "Album"));
        columns.push(meta_column("FILENAME", "File Name"));
        Self { columns }
    }
}

} // verus!

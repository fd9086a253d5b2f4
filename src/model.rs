//! The table model: records, cursor, and the cached column widths.
use vstd::prelude::*;

use crate::cursor::clamped;
use crate::cursor::shifted;
use crate::cursor::Cursor;
use crate::cursor::CursorDir;
use crate::data::content_width;
use crate::data::stably_sorted;
use crate::data::has_value;
use crate::data::with_value;
use crate::data::Column;
use crate::data::Columns;
use crate::data::Data;
use crate::data::IterCache;
use crate::data::Record;
use crate::data::Records;
use crate::data::Sizing;
use crate::data::field_width;
use crate::fit::Util;

verus! {

broadcast use vstd::seq_lib::group_filter_ensures;

/// The content width a sizing gives a column whose widest value takes
/// `content` cells.
pub open spec fn resolve(sizing: Sizing, content: nat) -> nat {
    match sizing {
        Sizing::Auto => content,
        Sizing::Fixed(width) => width as nat,
        Sizing::Lower(min_width) => if content < min_width {
            min_width as nat
        } else {
            content
        },
        Sizing::Upper(max_width) => if content > max_width {
            max_width as nat
        } else {
            content
        },
        Sizing::Bound(min_width, max_width) => {
            let floored = if content < min_width {
                min_width as nat
            } else {
                content
            };
            if floored > max_width {
                max_width as nat
            } else {
                floored
            }
        },
    }
}

/// The width of `column` over `records`.
pub open spec fn column_width(column: Column, records: Seq<Record>) -> nat {
    resolve(column.sizing, content_width(column, records))
}

/// `widths` holds, column by column, the width of each column over `records`.
pub open spec fn widths_match(widths: Seq<usize>, columns: Seq<Column>, records: Seq<Record>) -> bool {
    &&& widths.len() == columns.len()
    &&& forall|i: int| 0 <= i < widths.len() ==> widths[i] == column_width(#[trigger] columns[i], records)
}

/// The sum of `widths`.
pub open spec fn sum_widths(widths: Seq<usize>) -> nat
    decreases widths.len(),
{
    if widths.len() == 0 {
        0
    } else {
        sum_widths(widths.drop_last()) + widths.last() as nat
    }
}

/// The cells taken by all columns with a separator of `sep_width` between
/// each two of them.
pub open spec fn total_width_of(widths: Seq<usize>, sep_width: nat) -> nat {
    sum_widths(widths) + sep_width * (if widths.len() == 0 {
        0
    } else {
        (widths.len() - 1) as nat
    })
}

/// Where column `i` starts: the widths before it and a separator after each.
pub open spec fn offset_of(widths: Seq<usize>, i: int, sep_width: nat) -> nat {
    sum_widths(widths.take(i)) + sep_width * (i as nat)
}

/// Marks the cached widths as stale. Only the model sets or clears it: it is
/// set when the columns or records are handed out for editing, and cleared
/// by `recache`.
pub struct DirtyFlag {
    set: bool,
}

impl DirtyFlag {
    pub closed spec fn is_set(&self) -> bool {
        self.set
    }
}

pub struct Model {
    pub data: Data,
    pub cursor: Cursor,
    /// One content width per column, valid while the cache is not dirty.
    pub cached_content_widths: Vec<usize>,
    pub dirty: DirtyFlag,
}

/// What `recache` does: a dirty cache is recomputed from the data and made
/// clean; a clean one is left alone, together with everything else.
pub open spec fn recached(before: Model, after: Model) -> bool {
    &&& !after.is_dirty()
    &&& after.data == before.data
    &&& after.cursor == before.cursor
    &&& before.is_dirty() ==> widths_match(
        after.cached_content_widths@,
        before.data.columns@,
        before.data.records@,
    )
    &&& !before.is_dirty() ==> after == before
}

impl Model {
    pub open spec fn spec_is_dirty(&self) -> bool {
        self.dirty.is_set()
    }

    /// Whether the cached widths are stale.
    #[verifier::when_used_as_spec(spec_is_dirty)]
    pub fn is_dirty(&self) -> (r: bool)
        ensures
            r == self.spec_is_dirty(),
    {
        self.dirty.set
    }

    /// A clean cache holds the widths of the current data.
    pub open spec fn wf(&self) -> bool {
        !self.is_dirty() ==> widths_match(
            self.cached_content_widths@,
            self.data.columns@,
            self.data.records@,
        )
    }

    /// A model of `data` with the cursor on the first cell and the widths
    /// computed.
    pub fn with_data(data: Data) -> (r: Self)
        ensures
            r.data == data,
            r.cursor == Cursor::Cell(0, 0),
            !r.is_dirty(),
            r.wf(),
    {
        let cached_content_widths = Vec::with_capacity(data.columns.len());
        let mut new = Self { data, cursor: Cursor::Cell(0, 0), cached_content_widths, dirty: DirtyFlag { set: true } };
        new.recache();
        new
    }

    fn move_cursor(&mut self, cursor_dir: CursorDir, n: usize)
        ensures
            final(self).cursor == clamped(
                shifted(old(self).cursor, cursor_dir, n),
                old(self).data.columns@.len() as usize,
                old(self).data.records@.len() as usize,
            ),
            final(self).data == old(self).data,
            final(self).cached_content_widths == old(self).cached_content_widths,
            final(self).is_dirty() == old(self).is_dirty(),
    {
        let bound_x = self.data.columns.len();
        let bound_y = self.data.records.len();
        self.cursor.shift(cursor_dir, n, bound_x, bound_y);
    }

    pub fn move_cursor_up(&mut self, n: usize)
        ensures
            final(self).cursor == clamped(
                shifted(old(self).cursor, CursorDir::U, n),
                old(self).data.columns@.len() as usize,
                old(self).data.records@.len() as usize,
            ),
            final(self).data == old(self).data,
            final(self).cached_content_widths == old(self).cached_content_widths,
            final(self).is_dirty() == old(self).is_dirty(),
    {
        self.move_cursor(CursorDir::U, n)
    }

    pub fn move_cursor_down(&mut self, n: usize)
        ensures
            final(self).cursor == clamped(
                shifted(old(self).cursor, CursorDir::D, n),
                old(self).data.columns@.len() as usize,
                old(self).data.records@.len() as usize,
            ),
            final(self).data == old(self).data,
            final(self).cached_content_widths == old(self).cached_content_widths,
            final(self).is_dirty() == old(self).is_dirty(),
    {
        self.move_cursor(CursorDir::D, n)
    }

    pub fn move_cursor_left(&mut self, n: usize)
        ensures
            final(self).cursor == clamped(
                shifted(old(self).cursor, CursorDir::L, n),
                old(self).data.columns@.len() as usize,
                old(self).data.records@.len() as usize,
            ),
            final(self).data == old(self).data,
            final(self).cached_content_widths == old(self).cached_content_widths,
            final(self).is_dirty() == old(self).is_dirty(),
    {
        self.move_cursor(CursorDir::L, n)
    }

    pub fn move_cursor_right(&mut self, n: usize)
        ensures
            final(self).cursor == clamped(
                shifted(old(self).cursor, CursorDir::R, n),
                old(self).data.columns@.len() as usize,
                old(self).data.records@.len() as usize,
            ),
            final(self).data == old(self).data,
            final(self).cached_content_widths == old(self).cached_content_widths,
            final(self).is_dirty() == old(self).is_dirty(),
    {
        self.move_cursor(CursorDir::R, n)
    }

    pub fn is_cursor_at_column(&self, x: usize) -> (r: bool)
        ensures
            r == (self.cursor == Cursor::Column(x)),
    {
        match self.cursor {
            Cursor::Column(cx) => cx == x,
            Cursor::Cell(..) => false,
        }
    }

    pub fn is_cursor_at_cell(&self, x: usize, y: usize) -> (r: bool)
        ensures
            r == (self.cursor == Cursor::Cell(x, y)),
    {
        match self.cursor {
            Cursor::Cell(cx, cy) => cx == x && cy == y,
            Cursor::Column(..) => false,
        }
    }

    /// Recomputes the column widths if the cache is dirty.
    pub fn recache(&mut self)
        ensures
            recached(*old(self), *final(self)),
    {
        if self.dirty.set {
            self.dirty = DirtyFlag { set: false };
        } else {
            return;
        }

        self.cached_content_widths.clear();
        let n = self.data.columns.len();
        let mut i: usize = 0;
        while i < n
            invariant
                n == self.data.columns@.len(),
                self.data == old(self).data,
                self.cursor == old(self).cursor,
                !self.dirty.set,
                i <= n,
                self.cached_content_widths@.len() == i,
                forall|k: int|
                    0 <= k < i ==> self.cached_content_widths@[k] == column_width(
                        #[trigger] self.data.columns@[k],
                        self.data.records@,
                    ),
            decreases n - i,
        {
            let column = &self.data.columns[i];
            let mccw = Util::max_column_content_width(column, &self.data.records);
            let content_width = match column.sizing {
                Sizing::Auto => mccw,
                Sizing::Fixed(width) => width,
                Sizing::Lower(min_width) => if mccw < min_width {
                    min_width
                } else {
                    mccw
                },
                Sizing::Upper(max_width) => if mccw > max_width {
                    max_width
                } else {
                    mccw
                },
                Sizing::Bound(min_width, max_width) => {
                    let floored = if mccw < min_width {
                        min_width
                    } else {
                        mccw
                    };
                    if floored > max_width {
                        max_width
                    } else {
                        floored
                    }
                },
            };
            self.cached_content_widths.push(content_width);
            i = i + 1;
        }
    }

    /// The cells taken by all columns, with `column_sep_width` cells between
    /// each two of them.
    pub fn total_display_width(&self, column_sep_width: usize) -> (r: usize)
        requires
            total_width_of(self.cached_content_widths@, column_sep_width as nat) <= usize::MAX,
        ensures
            r == total_width_of(self.cached_content_widths@, column_sep_width as nat),
    {
        let n = self.cached_content_widths.len();
        let gaps = n.saturating_sub(1);
        proof {
            assert(self.cached_content_widths@.take(n as int) =~= self.cached_content_widths@);
        }
        let total_sep_width = column_sep_width * gaps;
        let sum = sum_prefix(&self.cached_content_widths, n, usize::MAX - total_sep_width);
        sum + total_sep_width
    }

    /// Where column `column_index` starts, with `column_sep_width` cells
    /// between columns; `None` past the last column.
    pub fn column_offset(&self, column_index: usize, column_sep_width: usize) -> (r: Option<usize>)
        requires
            column_index < self.cached_content_widths@.len() ==> offset_of(
                self.cached_content_widths@,
                column_index as int,
                column_sep_width as nat,
            ) <= usize::MAX,
        ensures
            column_index >= self.cached_content_widths@.len() ==> r is None,
            column_index < self.cached_content_widths@.len() ==> r == Some(
                offset_of(
                    self.cached_content_widths@,
                    column_index as int,
                    column_sep_width as nat,
                ) as usize,
            ),
    {
        if column_index >= self.cached_content_widths.len() {
            None
        } else {
            let seps = column_sep_width * column_index;
            let sum = sum_prefix(&self.cached_content_widths, column_index, usize::MAX - seps);
            Some(sum + seps)
        }
    }

    /// Marks the cache dirty and hands out the columns for a batch of edits.
    pub fn mutate_columns(&mut self) -> (r: &mut Columns)
        ensures
            *r == old(self).data.columns,
            final(self).data.columns == *final(r),
            final(self).data.records == old(self).data.records,
            final(self).cursor == old(self).cursor,
            final(self).cached_content_widths == old(self).cached_content_widths,
            final(self).is_dirty(),
    {
        self.dirty = DirtyFlag { set: true };
        &mut self.data.columns
    }

    /// Marks the cache dirty and hands out the records for a batch of edits.
    pub fn mutate_records(&mut self) -> (r: &mut Records)
        ensures
            *r == old(self).data.records,
            final(self).data.records == *final(r),
            final(self).data.columns == old(self).data.columns,
            final(self).cursor == old(self).cursor,
            final(self).cached_content_widths == old(self).cached_content_widths,
            final(self).is_dirty(),
    {
        self.dirty = DirtyFlag { set: true };
        &mut self.data.records
    }

    /// Sorts the records stably by the column at `column_index`. Reordering
    /// records leaves every column's width as it was, so the cache stays
    /// as clean or dirty as it was.
    pub fn sort_by_column_index(&mut self, column_index: usize, is_descending: bool)
        ensures
            old(self).wf() ==> final(self).wf(),
            final(self).is_dirty() == old(self).is_dirty(),
            final(self).cursor == old(self).cursor,
            final(self).cached_content_widths == old(self).cached_content_widths,
            final(self).data.columns == old(self).data.columns,
            column_index < old(self).data.columns@.len() ==> stably_sorted(
                old(self).data.records@,
                final(self).data.records@,
                old(self).data.columns@[column_index as int].key,
                is_descending,
            ),
            column_index >= old(self).data.columns@.len() ==> final(self).data.records
                == old(self).data.records,
    {
        self.data.sort_by_column_index(column_index, is_descending);
        proof {
            if column_index < old(self).data.columns@.len() {
                let key = old(self).data.columns@[column_index as int].key;
                assert forall|k: int| 0 <= k < self.data.columns@.len() implies content_width(
                    #[trigger] self.data.columns@[k],
                    self.data.records@,
                ) == content_width(self.data.columns@[k], old(self).data.records@) by {
                    lemma_same_records_same_width(
                        self.data.columns@[k],
                        old(self).data.records@,
                        self.data.records@,
                        key,
                    );
                }
            }
        }
    }

    /// The cached widths, column by column.
    pub fn iter_cached_widths<'a>(&'a self) -> (r: IterCache<'a>)
        ensures
            r.widths@ == self.cached_content_widths@,
            r.index == 0,
    {
        IterCache { widths: self.cached_content_widths.as_slice(), index: 0 }
    }
}

/// The sum of the first `n` widths, known to be at most `bound`.
fn sum_prefix(widths: &Vec<usize>, n: usize, bound: usize) -> (r: usize)
    requires
        n <= widths@.len(),
        sum_widths(widths@.take(n as int)) <= bound,
    ensures
        r == sum_widths(widths@.take(n as int)),
{
    let mut sum: usize = 0;
    let mut i: usize = 0;
    while i < n
        invariant
            i <= n <= widths@.len(),
            sum_widths(widths@.take(n as int)) <= bound,
            sum == sum_widths(widths@.take(i as int)),
        decreases n - i,
    {
        proof {
            assert(widths@.take(i + 1).drop_last() =~= widths@.take(i as int));
            lemma_sum_prefix_monotone(widths@.take(n as int), i + 1);
            assert(widths@.take(n as int).take(i + 1) =~= widths@.take(i + 1));
        }
        sum = sum + widths[i];
        i = i + 1;
    }
    sum
}

/// A prefix sums to no more than the whole.
proof fn lemma_sum_prefix_monotone(ws: Seq<usize>, i: int)
    requires
        0 <= i <= ws.len(),
    ensures
        sum_widths(ws.take(i)) <= sum_widths(ws),
    decreases ws.len() - i,
{
    if i < ws.len() {
        lemma_sum_prefix_monotone(ws, i + 1);
        assert(ws.take(i + 1).drop_last() =~= ws.take(i));
    } else {
        assert(ws.take(i) =~= ws);
    }
}

/// Every record of `a` is in `b` and the other way round when `b` is `a`
/// stably sorted; so a column is as wide over one as over the other.
proof fn lemma_same_records_same_width(column: Column, a: Seq<Record>, b: Seq<Record>, key: crate::data::ColumnKey)
    requires
        forall|v: Option<Seq<char>>| #[trigger] with_value(b, key, v) == with_value(a, key, v),
    ensures
        content_width(column, a) == content_width(column, b),
{
    assert forall|r: Record| a.contains(r) implies b.contains(r) by {
        lemma_member_moves(a, b, key, r);
    }
    assert forall|r: Record| b.contains(r) implies a.contains(r) by {
        lemma_member_moves(b, a, key, r);
    }
    lemma_content_width_attained(column, a);
    lemma_content_width_attained(column, b);
    lemma_content_width_bounds(column, a);
    lemma_content_width_bounds(column, b);
}

proof fn lemma_member_moves(a: Seq<Record>, b: Seq<Record>, key: crate::data::ColumnKey, r: Record)
    requires
        forall|v: Option<Seq<char>>| #[trigger] with_value(b, key, v) == with_value(a, key, v),
        a.contains(r),
    ensures
        b.contains(r),
{
    let v = r.field_value(key);
    let p = has_value(key, v);
    let k = choose|k: int| 0 <= k < a.len() && a[k] == r;
    a.lemma_filter_contains(p, k);
    assert(with_value(b, key, v).contains(r));
    b.lemma_filter_contains_rev(p, r);
}

/// Every record's width, and the title's, is within the content width.
proof fn lemma_content_width_bounds(column: Column, rs: Seq<Record>)
    ensures
        display_width_of_title(column) <= content_width(column, rs),
        forall|r: Record| rs.contains(r) ==> field_width(r, column.key) <= content_width(column, rs),
    decreases rs.len(),
{
    if rs.len() > 0 {
        lemma_content_width_bounds(column, rs.drop_last());
        assert forall|r: Record| rs.contains(r) implies field_width(r, column.key) <= content_width(column, rs) by {
            let k = choose|k: int| 0 <= k < rs.len() && rs[k] == r;
            if k < rs.len() - 1 {
                assert(rs.drop_last()[k] == r);
                assert(rs.drop_last().contains(r));
            }
        }
    }
}

/// The content width is the title's width or some record's width.
proof fn lemma_content_width_attained(column: Column, rs: Seq<Record>)
    ensures
        content_width(column, rs) == display_width_of_title(column) || exists|r: Record|
            rs.contains(r) && content_width(column, rs) == field_width(r, column.key),
    decreases rs.len(),
{
    if rs.len() > 0 {
        lemma_content_width_attained(column, rs.drop_last());
        if content_width(column, rs) != display_width_of_title(column) {
            if content_width(column, rs) == field_width(rs.last(), column.key) {
                assert(rs[rs.len() - 1] == rs.last());
                assert(rs.contains(rs.last()));
            } else {
                let r = choose|r: Record|
                    rs.drop_last().contains(r) && content_width(column, rs.drop_last()) == field_width(
                        r,
                        column.key,
                    );
                let k = choose|k: int| 0 <= k < rs.drop_last().len() && rs.drop_last()[k] == r;
                assert(rs[k] == r);
                assert(rs.contains(r));
            }
        }
    }
}

pub open spec fn display_width_of_title(column: Column) -> nat {
    crate::width::display_width(column.title@)
}

/// Calling `recache` a second time, with nothing changed in between, does
/// nothing.
pub proof fn lemma_recache_idempotent(m0: Model, m1: Model, m2: Model)
    requires
        recached(m0, m1),
        recached(m1, m2),
    ensures
        m2 == m1,
{
}

} // verus!

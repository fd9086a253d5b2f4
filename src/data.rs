//! Columns, records, and the record store.
use vstd::prelude::*;

use crate::fit::Util;
use crate::text::compare_text;
use crate::text::file_name;
use crate::text::file_name_of;
use crate::text::lemma_lex_irreflexive;
use crate::text::lemma_lex_total;
use crate::text::lemma_lex_transitive;
use crate::text::lex_lt;
use crate::width::display_width;
use crate::width::text_width;

verus! {

broadcast use vstd::seq_lib::group_filter_ensures, vstd::seq::Seq::filter_distributes_over_add;

/// How the width of a column's content is chosen from the widest value.
#[derive(Debug, Clone, Copy, PartialEq, Eq, Structural)]
pub enum Sizing {
    /// As wide as the widest value.
    Auto,
    /// Exactly this wide.
    Fixed(usize),
    /// As wide as the widest value, but at least this wide.
    Lower(usize),
    /// As wide as the widest value, but at most this wide.
    Upper(usize),
    /// As wide as the widest value, kept within `[min, max]`.
    Bound(usize, usize),
}

/// The written form of a sizing: nothing, `[w]`, `[min, null]`,
/// `[null, max]` or `[min, max]`.
#[derive(Debug, Clone, Copy)]
pub enum SizingRepr {
    Auto,
    Fixed(usize),
    Lower(usize, ()),
    Upper((), usize),
    Bound(usize, usize),
}

/// The sizing a written form stands for; a bound whose minimum exceeds its
/// maximum becomes `(min, min)`.
pub open spec fn sizing_of(repr: SizingRepr) -> Sizing {
    match repr {
        SizingRepr::Auto => Sizing::Auto,
        SizingRepr::Fixed(width) => Sizing::Fixed(width),
        SizingRepr::Lower(min_width, _) => Sizing::Lower(min_width),
        SizingRepr::Upper(_, max_width) => Sizing::Upper(max_width),
        SizingRepr::Bound(min_width, max_width) => if min_width > max_width {
            Sizing::Bound(min_width, min_width)
        } else {
            Sizing::Bound(min_width, max_width)
        },
    }
}

impl From<SizingRepr> for Sizing {
    fn from(repr: SizingRepr) -> (r: Self)
        ensures
            r == sizing_of(repr),
    {
        match repr {
            SizingRepr::Auto => Sizing::Auto,
            SizingRepr::Fixed(width) => Sizing::Fixed(width),
            SizingRepr::Lower(min_width, _) => Sizing::Lower(min_width),
            SizingRepr::Upper(_, max_width) => Sizing::Upper(max_width),
            SizingRepr::Bound(min_width, max_width) => {
                if min_width > max_width {
                    Sizing::Bound(min_width, min_width)
                } else {
                    Sizing::Bound(min_width, max_width)
                }
            },
        }
    }
}

impl vstd::std_specs::convert::FromSpecImpl<SizingRepr> for Sizing {
    open spec fn obeys_from_spec() -> bool {
        true
    }

    open spec fn from_spec(repr: SizingRepr) -> Sizing {
        sizing_of(repr)
    }
}

/// Attributes derived from a record's file path.
#[derive(Debug, Clone, Copy, Hash, PartialEq, Eq, Structural)]
pub enum InfoKind {
    FileName,
    FilePath,
}

/// Where a column's values come from.
#[derive(Debug, Clone, Hash, PartialEq)]
pub enum ColumnKey {
    /// The metadata entry with this key.
    Meta(String),
    /// An attribute of the file path.
    Info(InfoKind),
}

#[derive(Debug, Clone)]
pub struct Column {
    /// Where the column's values come from.
    pub key: ColumnKey,
    /// A human-readable name for the column, shown in its header.
    pub title: String,
    /// How wide the column's content is (separators not included).
    pub sizing: Sizing,
}

/// One row: metadata entries, and the path of the file they were read from.
pub struct Record {
    /// Metadata keys and their values. `insert_meta` keeps the keys unique
    /// (`keys_unique`); a lookup finds the first entry with the key.
    pub metadata: Vec<(String, String)>,
    pub file_path: String,
}

/// The value of the first entry of `entries` whose key is `key`.
pub open spec fn meta_lookup(entries: Seq<(String, String)>, key: Seq<char>) -> Option<Seq<char>>
    decreases entries.len(),
{
    if entries.len() == 0 {
        None
    } else if entries[0].0@ == key {
        Some(entries[0].1@)
    } else {
        meta_lookup(entries.drop_first(), key)
    }
}

/// No two entries share a key.
pub open spec fn keys_unique(entries: Seq<(String, String)>) -> bool {
    forall|i: int, j: int| 0 <= i < j < entries.len() ==> entries[i].0@ != entries[j].0@
}

/// With unique keys the entries are a map: looking up a key gives the value
/// of the one entry with that key, and nothing for a key no entry has.
pub proof fn lemma_lookup_unique(entries: Seq<(String, String)>, key: Seq<char>)
    requires
        keys_unique(entries),
    ensures
        forall|i: int|
            0 <= i < entries.len() && (#[trigger] entries[i]).0@ == key ==> meta_lookup(entries, key)
                == Some(entries[i].1@),
        (forall|i: int| 0 <= i < entries.len() ==> (#[trigger] entries[i]).0@ != key) ==> meta_lookup(
            entries,
            key,
        ) is None,
    decreases entries.len(),
{
    if entries.len() > 0 {
        let rest = entries.drop_first();
        lemma_lookup_unique(rest, key);
        assert forall|i: int| 0 <= i < entries.len() && (#[trigger] entries[i]).0@ == key implies meta_lookup(
            entries,
            key,
        ) == Some(entries[i].1@) by {
            if i > 0 {
                assert(rest[i - 1] == entries[i]);
            }
        }
        if forall|i: int| 0 <= i < entries.len() ==> (#[trigger] entries[i]).0@ != key {
            assert forall|i: int| 0 <= i < rest.len() implies (#[trigger] rest[i]).0@ != key by {
                assert(rest[i] == entries[i + 1]);
            }
        }
    }
}

/// A key no entry has is not found.
proof fn lemma_lookup_absent(entries: Seq<(String, String)>, key: Seq<char>)
    requires
        forall|i: int| 0 <= i < entries.len() ==> (#[trigger] entries[i]).0@ != key,
    ensures
        meta_lookup(entries, key) is None,
    decreases entries.len(),
{
    if entries.len() > 0 {
        let rest = entries.drop_first();
        assert forall|i: int| 0 <= i < rest.len() implies (#[trigger] rest[i]).0@ != key by {
            assert(rest[i] == entries[i + 1]);
        }
        lemma_lookup_absent(rest, key);
    }
}

/// Appending an entry changes only the lookup of a key no entry had.
proof fn lemma_lookup_push(entries: Seq<(String, String)>, entry: (String, String), key: Seq<char>)
    ensures
        meta_lookup(entries.push(entry), key) == if meta_lookup(entries, key) is Some {
            meta_lookup(entries, key)
        } else if entry.0@ == key {
            Some(entry.1@)
        } else {
            None
        },
    decreases entries.len(),
{
    if entries.len() > 0 {
        assert(entries.push(entry)[0] == entries[0]);
        assert(entries.push(entry).drop_first() =~= entries.drop_first().push(entry));
        lemma_lookup_push(entries.drop_first(), entry, key);
    } else {
        assert(entries.push(entry).drop_first() =~= entries);
    }
}

/// Replacing the first entry with a key changes only that key's lookup.
proof fn lemma_lookup_replace_first(entries: Seq<(String, String)>, i: int, entry: (String, String), key: Seq<char>)
    requires
        0 <= i < entries.len(),
        entries[i].0@ == entry.0@,
        forall|j: int| 0 <= j < i ==> (#[trigger] entries[j]).0@ != entry.0@,
    ensures
        meta_lookup(entries.update(i, entry), key) == if key == entry.0@ {
            Some(entry.1@)
        } else {
            meta_lookup(entries, key)
        },
    decreases i,
{
    if i == 0 {
        assert(entries.update(i, entry).drop_first() =~= entries.drop_first());
    } else {
        let rest = entries.drop_first();
        assert(entries.update(i, entry)[0] == entries[0]);
        assert(entries.update(i, entry).drop_first() =~= rest.update(i - 1, entry));
        assert forall|j: int| 0 <= j < i - 1 implies (#[trigger] rest[j]).0@ != entry.0@ by {
            assert(rest[j] == entries[j + 1]);
        }
        lemma_lookup_replace_first(rest, i - 1, entry, key);
    }
}

/// The characters of an optional string.
pub open spec fn opt_view(o: Option<&str>) -> Option<Seq<char>> {
    match o {
        Some(s) => Some(s@),
        None => None,
    }
}

impl Record {
    pub open spec fn info_value(&self, kind: InfoKind) -> Option<Seq<char>> {
        match kind {
            InfoKind::FileName => file_name_of(self.file_path@),
            InfoKind::FilePath => Some(self.file_path@),
        }
    }

    /// The record's value in a column with key `key`.
    pub open spec fn field_value(&self, key: ColumnKey) -> Option<Seq<char>> {
        match key {
            ColumnKey::Meta(k) => meta_lookup(self.metadata@, k@),
            ColumnKey::Info(kind) => self.info_value(kind),
        }
    }

    /// A record with no metadata and an empty path.
    pub fn new() -> (r: Self)
        ensures
            r.metadata@.len() == 0,
            r.file_path@.len() == 0,
    {
        Self { metadata: Vec::new(), file_path: String::new() }
    }

    pub fn get_meta(&self, meta_key: &str) -> (r: Option<&str>)
        ensures
            opt_view(r) == meta_lookup(self.metadata@, meta_key@),
    {
        let mut i: usize = 0;
        proof {
            assert(self.metadata@.skip(0) =~= self.metadata@);
        }
        while i < self.metadata.len()
            invariant
                i <= self.metadata@.len(),
                meta_lookup(self.metadata@, meta_key@) == meta_lookup(
                    self.metadata@.skip(i as int),
                    meta_key@,
                ),
            decreases self.metadata@.len() - i,
        {
            let entry = &self.metadata[i];
            proof {
                assert(self.metadata@.skip(i as int)[0] == self.metadata@[i as int]);
                assert(self.metadata@.skip(i as int).drop_first() =~= self.metadata@.skip(i + 1));
            }
            match compare_text(entry.0.as_str(), meta_key) {
                core::cmp::Ordering::Equal => {
                    return Some(entry.1.as_str());
                },
                _ => {},
            }
            i = i + 1;
        }
        None
    }

    /// Sets the value of the metadata key `key`, replacing the value of an
    /// entry that already has the key.
    pub fn insert_meta(&mut self, key: String, value: String)
        ensures
            final(self).file_path == old(self).file_path,
            meta_lookup(final(self).metadata@, key@) == Some(value@),
            forall|k: Seq<char>|
                k != key@ ==> #[trigger] meta_lookup(final(self).metadata@, k) == meta_lookup(
                    old(self).metadata@,
                    k,
                ),
            keys_unique(old(self).metadata@) ==> keys_unique(final(self).metadata@),
    {
        let mut i: usize = 0;
        while i < self.metadata.len()
            invariant
                self.metadata == old(self).metadata,
                self.file_path == old(self).file_path,
                i <= self.metadata@.len(),
                forall|j: int| 0 <= j < i ==> (#[trigger] self.metadata@[j]).0@ != key@,
            decreases self.metadata@.len() - i,
        {
            match compare_text(self.metadata[i].0.as_str(), key.as_str()) {
                core::cmp::Ordering::Equal => {
                    let ghost entries = self.metadata@;
                    let ghost entry = (key, value);
                    proof {
                        assert forall|k: Seq<char>| #[trigger]
                            meta_lookup(entries.update(i as int, entry), k) == if k == key@ {
                                Some(value@)
                            } else {
                                meta_lookup(entries, k)
                            } by {
                            lemma_lookup_replace_first(entries, i as int, entry, k);
                        }
                    }
                    self.metadata.set(i, (key, value));
                    proof {
                        assert(self.metadata@ == entries.update(i as int, entry));
                        lemma_lookup_replace_first(entries, i as int, entry, key@);
                    }
                    return;
                },
                _ => {},
            }
            i = i + 1;
        }
        let ghost entries = self.metadata@;
        let ghost entry = (key, value);
        proof {
            assert forall|k: Seq<char>| #[trigger]
                meta_lookup(entries.push(entry), k) == if meta_lookup(entries, k) is Some {
                    meta_lookup(entries, k)
                } else if entry.0@ == k {
                    Some(entry.1@)
                } else {
                    None
                } by {
                lemma_lookup_push(entries, entry, k);
            }
            lemma_lookup_push(entries, entry, key@);
            if meta_lookup(entries, key@) is Some {
                lemma_lookup_absent(entries, key@);
            }
        }
        self.metadata.push((key, value));
    }

    pub fn get_info(&self, info_kind: &InfoKind) -> (r: Option<&str>)
        ensures
            opt_view(r) == self.info_value(*info_kind),
    {
        match info_kind {
            InfoKind::FileName => file_name(self.file_path.as_str()),
            InfoKind::FilePath => Some(self.file_path.as_str()),
        }
    }

    pub fn get(&self, column_key: &ColumnKey) -> (r: Option<&str>)
        ensures
            opt_view(r) == self.field_value(*column_key),
    {
        match column_key {
            ColumnKey::Meta(meta_key) => self.get_meta(meta_key.as_str()),
            ColumnKey::Info(info_kind) => self.get_info(info_kind),
        }
    }
}

pub type Columns = Vec<Column>;

pub type Records = Vec<Record>;

/// Ordered columns and ordered records.
pub struct Data {
    pub columns: Columns,
    pub records: Records,
}

/// `a` comes before `b` in ascending order: an absent value before a present
/// one, present values lexicographically.
pub open spec fn value_lt(a: Option<Seq<char>>, b: Option<Seq<char>>) -> bool {
    match (a, b) {
        (None, Some(_)) => true,
        (Some(x), Some(y)) => lex_lt(x, y),
        _ => false,
    }
}

/// `a` comes before `b` in the order asked for: descending reverses the
/// whole ascending order, absent values included.
pub open spec fn goes_before(a: Option<Seq<char>>, b: Option<Seq<char>>, descending: bool) -> bool {
    if descending {
        value_lt(b, a)
    } else {
        value_lt(a, b)
    }
}

/// No record of `rs` goes before one placed ahead of it.
pub open spec fn sorted_by(rs: Seq<Record>, key: ColumnKey, descending: bool) -> bool {
    forall|i: int, j: int|
        0 <= i < j < rs.len() ==> !goes_before(
            #[trigger] rs[j].field_value(key),
            #[trigger] rs[i].field_value(key),
            descending,
        )
}

/// Whether a record's value under `key` is `v`.
pub open spec fn has_value(key: ColumnKey, v: Option<Seq<char>>) -> spec_fn(Record) -> bool {
    |r: Record| r.field_value(key) == v
}

/// The records of `rs`, in order, whose value under `key` is `v`.
pub open spec fn with_value(rs: Seq<Record>, key: ColumnKey, v: Option<Seq<char>>) -> Seq<Record> {
    rs.filter(has_value(key, v))
}

/// `after` is `before` stably sorted by `key`: sorted, and the records that
/// share a value keep their relative order.
pub open spec fn stably_sorted(before: Seq<Record>, after: Seq<Record>, key: ColumnKey, descending: bool) -> bool {
    &&& sorted_by(after, key, descending)
    &&& forall|v: Option<Seq<char>>| #[trigger] with_value(after, key, v) == with_value(before, key, v)
}

proof fn lemma_before_irreflexive(a: Option<Seq<char>>, descending: bool)
    ensures
        !goes_before(a, a, descending),
{
    if let Some(x) = a {
        lemma_lex_irreflexive(x);
    }
}

proof fn lemma_before_transitive(a: Option<Seq<char>>, b: Option<Seq<char>>, c: Option<Seq<char>>, descending: bool)
    requires
        goes_before(a, b, descending),
        goes_before(b, c, descending),
    ensures
        goes_before(a, c, descending),
{
    if descending {
        if let (Some(x), Some(y), Some(z)) = (a, b, c) {
            lemma_lex_transitive(z, y, x);
        }
    } else {
        if let (Some(x), Some(y), Some(z)) = (a, b, c) {
            lemma_lex_transitive(x, y, z);
        }
    }
}

proof fn lemma_before_total(a: Option<Seq<char>>, b: Option<Seq<char>>, descending: bool)
    ensures
        a == b || goes_before(a, b, descending) || goes_before(b, a, descending),
{
    if let (Some(x), Some(y)) = (a, b) {
        lemma_lex_total(x, y);
    }
}

/// Not going before is transitive.
proof fn lemma_not_before_transitive(a: Option<Seq<char>>, b: Option<Seq<char>>, c: Option<Seq<char>>, descending: bool)
    requires
        !goes_before(c, b, descending),
        !goes_before(b, a, descending),
    ensures
        !goes_before(c, a, descending),
{
    lemma_before_total(b, c, descending);
    if goes_before(c, a, descending) && b != c && goes_before(b, c, descending) {
        lemma_before_transitive(b, c, a, descending);
    }
}

/// Whether a value goes before another; the values are given as strings.
fn value_goes_before(a: Option<&str>, b: Option<&str>, descending: bool) -> (r: bool)
    ensures
        r == goes_before(opt_view(a), opt_view(b), descending),
{
    let (first, second) = if descending {
        (b, a)
    } else {
        (a, b)
    };
    match (first, second) {
        (None, Some(_)) => true,
        (Some(x), Some(y)) => match compare_text(x, y) {
            core::cmp::Ordering::Less => true,
            _ => false,
        },
        _ => false,
    }
}

/// No record of `rs` has value `v` under `key`: none is kept.
proof fn lemma_with_value_empty(rs: Seq<Record>, key: ColumnKey, v: Option<Seq<char>>)
    requires
        forall|k: int| 0 <= k < rs.len() ==> (#[trigger] rs[k]).field_value(key) != v,
    ensures
        with_value(rs, key, v) == Seq::<Record>::empty(),
    decreases rs.len(),
{
    reveal(Seq::filter);
    if rs.len() > 0 {
        let shorter = rs.drop_last();
        assert forall|k: int| 0 <= k < shorter.len() implies (#[trigger] shorter[k]).field_value(key) != v by {
            assert(shorter[k] == rs[k]);
        }
        lemma_with_value_empty(shorter, key, v);
        assert(rs.last().field_value(key) != v);
    }
    assert(with_value(rs, key, v) =~= Seq::<Record>::empty());
}

/// Going before is not undone by a smaller value on the left.
proof fn lemma_le_then_before(a: Option<Seq<char>>, b: Option<Seq<char>>, c: Option<Seq<char>>, descending: bool)
    requires
        !goes_before(b, a, descending),
        goes_before(b, c, descending),
    ensures
        goes_before(a, c, descending),
{
    lemma_before_total(a, b, descending);
    if a != b && goes_before(a, b, descending) {
        lemma_before_transitive(a, b, c, descending);
    }
}

/// Nothing both goes before and after another value.
proof fn lemma_before_asymmetric(a: Option<Seq<char>>, b: Option<Seq<char>>, descending: bool)
    requires
        goes_before(a, b, descending),
    ensures
        !goes_before(b, a, descending),
{
    if goes_before(b, a, descending) {
        lemma_before_transitive(a, b, a, descending);
        lemma_before_irreflexive(a, descending);
    }
}

/// Merges two sorted runs into one, the records of `left` before those of
/// `right` that share their value.
fn merge(left: Vec<Record>, right: Vec<Record>, key: &ColumnKey, descending: bool) -> (r: Vec<Record>)
    requires
        sorted_by(left@, *key, descending),
        sorted_by(right@, *key, descending),
    ensures
        sorted_by(r@, *key, descending),
        forall|v: Option<Seq<char>>| #[trigger]
            with_value(r@, *key, v) == with_value(left@, *key, v) + with_value(right@, *key, v),
{
    let ghost la = left@;
    let ghost lb = right@;
    let ghost k = *key;
    let mut a = left;
    let mut b = right;
    // The merged tail is built from its end; `rev` holds it back to front.
    let mut rev: Vec<Record> = Vec::new();
    let ghost mut tail: Seq<Record> = Seq::empty();
    proof {
        assert(la.skip(la.len() as int) =~= Seq::<Record>::empty());
        assert(lb.skip(lb.len() as int) =~= Seq::<Record>::empty());
    }
    while a.len() > 0 || b.len() > 0
        invariant
            k == *key,
            sorted_by(la, k, descending),
            sorted_by(lb, k, descending),
            a@ == la.take(a@.len() as int),
            b@ == lb.take(b@.len() as int),
            a@.len() <= la.len(),
            b@.len() <= lb.len(),
            rev@.len() == tail.len(),
            forall|i: int| 0 <= i < rev@.len() ==> #[trigger] rev@[i] == tail[tail.len() - 1 - i],
            sorted_by(tail, k, descending),
            forall|t: int, i: int|
                0 <= t < tail.len() && 0 <= i < a@.len() ==> !goes_before(
                    #[trigger] tail[t].field_value(k),
                    #[trigger] la[i].field_value(k),
                    descending,
                ),
            forall|t: int, i: int|
                0 <= t < tail.len() && 0 <= i < b@.len() ==> !goes_before(
                    #[trigger] tail[t].field_value(k),
                    #[trigger] lb[i].field_value(k),
                    descending,
                ),
            forall|i: int, j: int|
                a@.len() <= i < la.len() && 0 <= j < b@.len() ==> goes_before(
                    #[trigger] lb[j].field_value(k),
                    #[trigger] la[i].field_value(k),
                    descending,
                ),
            forall|v: Option<Seq<char>>| #[trigger]
                with_value(tail, k, v) == with_value(la.skip(a@.len() as int), k, v) + with_value(
                    lb.skip(b@.len() as int),
                    k,
                    v,
                ),
        decreases a@.len() + b@.len(),
    {
        let na = a.len();
        let nb = b.len();
        let take_left = na > 0 && (nb == 0 || value_goes_before(
            b[nb - 1].get(key),
            a[na - 1].get(key),
            descending,
        ));
        let ghost old_tail = tail;
        if take_left {
            let ghost z = la[na - 1];
            let ghost vz = z.field_value(k);
            proof {
                assert(a@[na - 1] == z);
                assert forall|i: int| 0 <= i < na - 1 implies !goes_before(
                    vz,
                    #[trigger] la[i].field_value(k),
                    descending,
                ) by {}
                assert forall|j: int| 0 <= j < nb implies goes_before(
                    #[trigger] lb[j].field_value(k),
                    vz,
                    descending,
                ) by {
                    assert(b@[nb - 1] == lb[nb - 1]);
                    if j < nb - 1 {
                        lemma_le_then_before(
                            lb[j].field_value(k),
                            lb[nb - 1].field_value(k),
                            vz,
                            descending,
                        );
                    }
                }
                assert forall|j: int| 0 <= j < nb implies !goes_before(
                    vz,
                    #[trigger] lb[j].field_value(k),
                    descending,
                ) by {
                    lemma_before_asymmetric(lb[j].field_value(k), vz, descending);
                }
                assert(la.skip(na - 1) =~= seq![z] + la.skip(na as int));
                assert(la.take(na - 1) =~= a@.subrange(0, na - 1));
            }
            if let Some(r) = a.pop() {
                rev.push(r);
            }
            proof {
                tail = seq![z] + old_tail;
                assert forall|v: Option<Seq<char>>| #[trigger]
                    with_value(tail, k, v) == with_value(la.skip(na - 1), k, v) + with_value(
                        lb.skip(nb as int),
                        k,
                        v,
                    ) by {
                    old_tail.lemma_filter_prepend(z, has_value(k, v));
                    la.skip(na as int).lemma_filter_prepend(z, has_value(k, v));
                    assert(with_value(old_tail, k, v) == with_value(la.skip(na as int), k, v)
                        + with_value(lb.skip(nb as int), k, v));
                    if vz == v {
                        assert(with_value(tail, k, v) =~= seq![z] + with_value(old_tail, k, v));
                        assert(with_value(la.skip(na - 1), k, v) =~= seq![z] + with_value(la.skip(na as int), k, v));
                    } else {
                        assert(with_value(tail, k, v) =~= with_value(old_tail, k, v));
                        assert(with_value(la.skip(na - 1), k, v) =~= with_value(la.skip(na as int), k, v));
                    }
                }
            }
        } else {
            let ghost z = lb[nb - 1];
            let ghost vz = z.field_value(k);
            proof {
                assert(b@[nb - 1] == z);
                if na > 0 {
                    assert(a@[na - 1] == la[na - 1]);
                    assert(!goes_before(vz, la[na - 1].field_value(k), descending));
                }
                assert forall|i: int| 0 <= i < na implies !goes_before(
                    vz,
                    #[trigger] la[i].field_value(k),
                    descending,
                ) by {
                    if i < na - 1 {
                        lemma_not_before_transitive(
                            la[i].field_value(k),
                            la[na - 1].field_value(k),
                            vz,
                            descending,
                        );
                    }
                }
                assert forall|j: int| 0 <= j < nb - 1 implies !goes_before(
                    vz,
                    #[trigger] lb[j].field_value(k),
                    descending,
                ) by {}
                assert forall|v: Option<Seq<char>>| #[trigger]
                    with_value(la.skip(na as int), k, v) == Seq::<Record>::empty() || vz != v by {
                    if vz == v {
                        let rest = la.skip(na as int);
                        assert forall|i: int| 0 <= i < rest.len() implies (#[trigger] rest[i]).field_value(k)
                            != v by {
                            assert(rest[i] == la[na + i]);
                            lemma_before_irreflexive(vz, descending);
                        }
                        lemma_with_value_empty(rest, k, v);
                    }
                }
                assert(lb.skip(nb - 1) =~= seq![z] + lb.skip(nb as int));
                assert(lb.take(nb - 1) =~= b@.subrange(0, nb - 1));
            }
            if let Some(r) = b.pop() {
                rev.push(r);
            }
            proof {
                tail = seq![z] + old_tail;
                assert forall|v: Option<Seq<char>>| #[trigger]
                    with_value(tail, k, v) == with_value(la.skip(na as int), k, v) + with_value(
                        lb.skip(nb - 1),
                        k,
                        v,
                    ) by {
                    old_tail.lemma_filter_prepend(z, has_value(k, v));
                    lb.skip(nb as int).lemma_filter_prepend(z, has_value(k, v));
                    assert(with_value(old_tail, k, v) == with_value(la.skip(na as int), k, v)
                        + with_value(lb.skip(nb as int), k, v));
                    assert(with_value(la.skip(na as int), k, v) == Seq::<Record>::empty() || vz != v);
                    if vz == v {
                        assert(with_value(tail, k, v) =~= seq![z] + with_value(old_tail, k, v));
                        assert(with_value(lb.skip(nb - 1), k, v) =~= seq![z] + with_value(lb.skip(nb as int), k, v));
                        assert(with_value(tail, k, v) =~= with_value(la.skip(na as int), k, v) + with_value(
                            lb.skip(nb - 1),
                            k,
                            v,
                        ));
                    } else {
                        assert(with_value(tail, k, v) =~= with_value(old_tail, k, v));
                        assert(with_value(lb.skip(nb - 1), k, v) =~= with_value(lb.skip(nb as int), k, v));
                    }
                }
            }
        }
        proof {
            let z = tail[0];
            assert forall|t: int, j: int| 0 <= t < j < tail.len() implies !goes_before(
                #[trigger] tail[j].field_value(k),
                #[trigger] tail[t].field_value(k),
                descending,
            ) by {
                if t > 0 {
                    assert(tail[t] == old_tail[t - 1] && tail[j] == old_tail[j - 1]);
                } else {
                    assert(tail[j] == old_tail[j - 1]);
                    if take_left {
                        assert(!goes_before(old_tail[j - 1].field_value(k), la[na - 1].field_value(k), descending));
                    } else {
                        assert(!goes_before(old_tail[j - 1].field_value(k), lb[nb - 1].field_value(k), descending));
                    }
                }
            }
            assert forall|i: int| 0 <= i < rev@.len() implies #[trigger] rev@[i] == tail[tail.len() - 1 - i] by {
                if i < rev@.len() - 1 {
                    assert(tail[tail.len() - 1 - i] == old_tail[old_tail.len() - 1 - i]);
                }
            }
        }
    }
    proof {
        assert(la.skip(0) =~= la);
        assert(lb.skip(0) =~= lb);
    }
    let mut out: Vec<Record> = Vec::new();
    while rev.len() > 0
        invariant
            rev@.len() + out@.len() == tail.len(),
            forall|i: int| 0 <= i < rev@.len() ==> #[trigger] rev@[i] == tail[tail.len() - 1 - i],
            out@ == tail.take(out@.len() as int),
        decreases rev@.len(),
    {
        if let Some(r) = rev.pop() {
            proof {
                assert(r == tail[out@.len() as int]);
                assert(tail.take(out@.len() + 1int) =~= out@.push(r));
            }
            out.push(r);
        }
    }
    proof {
        assert(tail.take(tail.len() as int) =~= tail);
    }
    out
}

/// Sorts `records` stably by their value under `key`, splitting in halves.
fn merge_sort(records: Vec<Record>, key: &ColumnKey, descending: bool) -> (r: Vec<Record>)
    ensures
        stably_sorted(records@, r@, *key, descending),
    decreases records@.len(),
{
    let n = records.len();
    if n <= 1 {
        return records;
    }
    let mut left = records;
    let right = left.split_off(n / 2);
    let ghost la = left@;
    let ghost lb = right@;
    let sorted_left = merge_sort(left, key, descending);
    let sorted_right = merge_sort(right, key, descending);
    let r = merge(sorted_left, sorted_right, key, descending);
    proof {
        assert(records@ =~= la + lb);
    }
    r
}

/// Sorts `records` stably by their value under `key`.
fn sort_records(records: &mut Vec<Record>, key: &ColumnKey, descending: bool)
    ensures
        stably_sorted(old(records)@, final(records)@, *key, descending),
{
    let all = records.split_off(0);
    proof {
        assert(all@ =~= old(records)@);
    }
    *records = merge_sort(all, key, descending);
}

impl Data {
    /// No columns and no records.
    pub fn new() -> (r: Self)
        ensures
            r.columns@.len() == 0,
            r.records@.len() == 0,
    {
        Self::with_data(Vec::new(), Vec::new())
    }

    pub fn with_data(columns: Columns, records: Records) -> (r: Self)
        ensures
            r.columns == columns,
            r.records == records,
    {
        Self { columns, records }
    }

    /// The values of the metadata key `column_key`, record by record.
    pub fn iter_column<'a>(&'a self, column_key: &'a str) -> (r: IterColumn<'a>)
        ensures
            r.key == column_key,
            r.records@ == self.records@,
            r.index == 0,
    {
        IterColumn { key: column_key, records: self.records.as_slice(), index: 0 }
    }

    /// Sorts the records stably by their value in the column at
    /// `column_index`; an index past the last column changes nothing.
    pub fn sort_by_column_index(&mut self, column_index: usize, is_descending: bool)
        ensures
            final(self).columns == old(self).columns,
            column_index < old(self).columns@.len() ==> stably_sorted(
                old(self).records@,
                final(self).records@,
                old(self).columns@[column_index as int].key,
                is_descending,
            ),
            column_index >= old(self).columns@.len() ==> final(self).records == old(self).records,
    {
        if column_index < self.columns.len() {
            sort_records(&mut self.records, &self.columns[column_index].key, is_descending);
        }
    }
}

impl Default for Data {
    fn default() -> (r: Self)
        ensures
            r.columns@.len() == 0,
            r.records@.len() == 0,
    {
        Self::new()
    }
}

/// Yields, record by record, the value of one metadata key.
pub struct IterColumn<'a> {
    pub key: &'a str,
    pub records: &'a [Record],
    pub index: usize,
}

impl<'a> IterColumn<'a> {
    /// The value in the next record, or `None` past the last record.
    pub fn next(&mut self) -> (r: Option<Option<&'a str>>)
        ensures
            final(self).key == old(self).key,
            final(self).records == old(self).records,
            old(self).index < old(self).records@.len() ==> {
                &&& r is Some
                &&& opt_view(r->0) == meta_lookup(
                    old(self).records@[old(self).index as int].metadata@,
                    old(self).key@,
                )
                &&& final(self).index == old(self).index + 1
            },
            old(self).index >= old(self).records@.len() ==> r is None && final(self).index
                == old(self).index,
    {
        if self.index < self.records.len() {
            let record = &self.records[self.index];
            self.index = self.index + 1;
            Some(record.get_meta(self.key))
        } else {
            None
        }
    }
}

/// Yields cached column widths in order.
pub struct IterCache<'a> {
    pub widths: &'a [usize],
    pub index: usize,
}

impl<'a> IterCache<'a> {
    pub fn next(&mut self) -> (r: Option<usize>)
        ensures
            final(self).widths == old(self).widths,
            old(self).index < old(self).widths@.len() ==> r == Some(
                old(self).widths@[old(self).index as int],
            ) && final(self).index == old(self).index + 1,
            old(self).index >= old(self).widths@.len() ==> r is None && final(self).index
                == old(self).index,
    {
        if self.index < self.widths.len() {
            let w = self.widths[self.index];
            self.index = self.index + 1;
            Some(w)
        } else {
            None
        }
    }
}

/// Cells taken by a record's value under `key` (none when it is absent).
pub open spec fn field_width(r: Record, key: ColumnKey) -> nat {
    match r.field_value(key) {
        Some(v) => display_width(v),
        None => 0,
    }
}

/// The widest of a column's title and its values in `rs`.
pub open spec fn content_width(column: Column, rs: Seq<Record>) -> nat
    decreases rs.len(),
{
    if rs.len() == 0 {
        display_width(column.title@)
    } else {
        let rest = content_width(column, rs.drop_last());
        let w = field_width(rs.last(), column.key);
        if w > rest {
            w
        } else {
            rest
        }
    }
}

impl Util {
    /// The widest of a column's title and its values in `records`.
    pub fn max_column_content_width(column: &Column, records: &Records) -> (r: usize)
        ensures
            r == content_width(*column, records@),
    {
        let mut max_seen = text_width(column.title.as_str());
        let column_key = &column.key;
        let mut i: usize = 0;
        while i < records.len()
            invariant
                i <= records@.len(),
                *column_key == column.key,
                max_seen == content_width(*column, records@.take(i as int)),
            decreases records@.len() - i,
        {
            let curr_row_width = match records[i].get(column_key) {
                Some(s) => text_width(s),
                None => 0,
            };
            proof {
                assert(records@.take(i + 1).drop_last() =~= records@.take(i as int));
                assert(records@.take(i + 1).last() == records@[i as int]);
            }
            if curr_row_width > max_seen {
                max_seen = curr_row_width;
            }
            i = i + 1;
        }
        proof {
            assert(records@.take(records@.len() as int) =~= records@);
        }
        max_seen
    }
}

} // verus!

//! Display width of text in terminal cells.
//!
//! The width of a character comes from the `unicode-width` crate; the width of
//! a string is the sum of the widths of its characters, a control character
//! counting as zero.
use unicode_width::UnicodeWidthChar;
use unicode_width::UnicodeWidthStr;
use vstd::prelude::*;

verus! {

/// What `UnicodeWidthChar::width` returns for a character: its width in
/// cells, or `None` for a control character.
pub uninterp spec fn char_width_of(c: char) -> Option<usize>;

/// Number of cells a character occupies (a control character occupies none).
pub open spec fn cells(c: char) -> nat {
    match char_width_of(c) {
        Some(w) => w as nat,
        None => 0,
    }
}

/// Number of cells a sequence of characters occupies.
pub open spec fn display_width(s: Seq<char>) -> nat
    decreases s.len(),
{
    if s.len() == 0 {
        0
    } else {
        display_width(s.drop_last()) + cells(s.last())
    }
}

/// Relies on `UnicodeWidthChar::width` (non-CJK variant): the width of a
/// character, which its tables give as 0, 1 or 2.
#[verifier::external_body]
pub(crate) fn char_width(c: char) -> (r: Option<usize>)
    ensures
        r == char_width_of(c),
        r matches Some(w) ==> w <= 2,
{
    UnicodeWidthChar::width(c)
}

/// Relies on `UnicodeWidthStr::width` (non-CJK variant), which sums the
/// character widths, counting a control character as zero.
#[verifier::external_body]
pub(crate) fn text_width(s: &str) -> (r: usize)
    ensures
        r == display_width(s@),
{
    UnicodeWidthStr::width(s)
}

/// Adding one character to a prefix adds that character's cells.
pub proof fn lemma_width_take_step(s: Seq<char>, i: int)
    requires
        0 <= i < s.len(),
    ensures
        display_width(s.take(i + 1)) == display_width(s.take(i)) + cells(s[i]),
{
    assert(s.take(i + 1).drop_last() =~= s.take(i));
}

/// A longer prefix is never narrower.
pub proof fn lemma_width_monotone(s: Seq<char>, i: int, j: int)
    requires
        0 <= i <= j <= s.len(),
    ensures
        display_width(s.take(i)) <= display_width(s.take(j)),
    decreases j - i,
{
    if i < j {
        lemma_width_monotone(s, i, j - 1);
        lemma_width_take_step(s, j - 1);
    }
}

/// The width of a whole sequence bounds the width of each of its prefixes.
pub proof fn lemma_width_prefix_bound(s: Seq<char>, i: int)
    requires
        0 <= i <= s.len(),
    ensures
        display_width(s.take(i)) <= display_width(s),
{
    lemma_width_monotone(s, i, s.len() as int);
    assert(s.take(s.len() as int) =~= s);
}

} // verus!

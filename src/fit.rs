//! Fitting one string into an exact number of terminal cells.
use vstd::prelude::*;
use vstd::string::*;

use crate::width::char_width;
use crate::width::display_width;
use crate::width::lemma_width_prefix_bound;
use crate::width::lemma_width_take_step;
use crate::width::text_width;

verus! {

/// Whether a fitted string was cut, and if so how to finish the cut.
#[derive(Debug, Clone, Copy, PartialEq, Eq, Structural)]
pub enum TrimStatus {
    Untrimmed,
    /// Blank cells to print after the kept text (a wide character that did
    /// not fit leaves a gap of one), and whether an ellipsis follows.
    Trimmed(usize, bool),
}

impl TrimStatus {
    pub fn is_trimmed(&self) -> (r: bool)
        ensures
            r == (*self is Trimmed),
    {
        matches!(self, Self::Trimmed(..))
    }

    pub open spec fn spec_padding(&self) -> usize {
        match self {
            Self::Untrimmed => 0,
            Self::Trimmed(padding, _) => *padding,
        }
    }

    pub fn padding(&self) -> (r: usize)
        ensures
            r == self.spec_padding(),
    {
        match self {
            Self::Untrimmed => 0,
            Self::Trimmed(padding, _) => *padding,
        }
    }

    pub fn emit_ellipsis(&self) -> (r: bool)
        ensures
            r == (match self {
                Self::Untrimmed => false,
                Self::Trimmed(_, emit) => *emit,
            }),
    {
        match self {
            Self::Untrimmed => false,
            Self::Trimmed(_, emit_ellipsis) => *emit_ellipsis,
        }
    }
}

/// The result of fitting a string into a width.
#[derive(Debug, Clone, Copy, PartialEq, Eq)]
pub struct TrimOutput<'a> {
    /// The kept prefix of the input string.
    pub display_str: &'a str,
    /// Cells taken by `display_str`.
    pub output_width: usize,
    /// Cells the whole input string would take.
    pub full_real_width: usize,
    pub trim_status: TrimStatus,
}

impl<'a> TrimOutput<'a> {
    /// The column at which the ellipsis is printed.
    pub fn ellipsis_offset(&self) -> (r: usize)
        requires
            self.output_width + self.trim_status.spec_padding() <= usize::MAX,
        ensures
            r == self.output_width + self.trim_status.spec_padding(),
    {
        self.output_width + self.trim_status.padding()
    }
}

/// The ellipsis width actually used: none when it is wider than the target.
pub open spec fn effective_ellipsis(target_width: nat, ellipsis_width: nat) -> nat {
    if ellipsis_width > target_width {
        0
    } else {
        ellipsis_width
    }
}

/// Cells left for text when a string has to be cut and followed by an ellipsis.
pub open spec fn text_budget(target_width: nat, ellipsis_width: nat) -> nat {
    (target_width - effective_ellipsis(target_width, ellipsis_width)) as nat
}

/// `k` is where `s` is cut to fit `budget` cells: the first `k` characters
/// fit, the first `k + 1` do not.
pub open spec fn is_cut_point(s: Seq<char>, budget: nat, k: int) -> bool {
    &&& 0 <= k < s.len()
    &&& display_width(s.take(k)) <= budget
    &&& display_width(s.take(k + 1)) > budget
}

/// What fitting `s` into `target_width` cells, with an ellipsis of
/// `ellipsis_width` cells, returns.
pub open spec fn fits_as(s: Seq<char>, target_width: nat, ellipsis_width: nat, r: TrimOutput) -> bool {
    let e = effective_ellipsis(target_width, ellipsis_width);
    let budget = text_budget(target_width, ellipsis_width);
    let k = r.display_str@.len() as int;
    &&& r.full_real_width == display_width(s)
    &&& r.output_width == display_width(r.display_str@)
    &&& display_width(s) <= target_width ==> {
        &&& r.display_str@ == s
        &&& r.trim_status == TrimStatus::Untrimmed
    }
    &&& display_width(s) > target_width ==> {
        &&& is_cut_point(s, budget, k)
        &&& r.display_str@ == s.take(k)
        &&& r.trim_status == TrimStatus::Trimmed((budget - r.output_width) as usize, e != 0)
        &&& budget - r.output_width <= 1
    }
}

/// Namespace for the text layout helpers.
pub struct Util;

impl Util {
    /// Fits `text` into `target_width` cells, without an ellipsis.
    pub fn trim_display_str<'a>(text: &'a str, target_width: usize) -> (r: TrimOutput<'a>)
        ensures
            fits_as(text@, target_width as nat, 0, r),
    {
        Self::trim_display_str_elided(text, target_width, 0)
    }

    /// Fits `text` into `target_width` cells. When the string is too
    /// wide, it is cut so that an ellipsis of `ellipsis_width` cells still fits
    /// after it; an ellipsis wider than the target is left out.
    pub fn trim_display_str_elided<'a>(
        text: &'a str,
        target_width: usize,
        ellipsis_width: usize,
    ) -> (r: TrimOutput<'a>)
        ensures
            fits_as(text@, target_width as nat, ellipsis_width as nat, r),
    {
        let ghost s = text@;
        let full_real_width = text_width(text);
        let n_chars = text.unicode_len();

        // An ellipsis wider than the target is not printed at all; this also
        // covers a target width of 0.
        let used_ellipsis_width = if target_width < ellipsis_width {
            0
        } else {
            ellipsis_width
        };
        let elided_width = target_width - used_ellipsis_width;

        let mut curr_width: usize = 0;
        let mut char_index: usize = 0;
        let mut past_elision_point = false;
        let mut elided_i: usize = 0;
        let mut output_width: usize = 0;
        let mut padding: usize = 0;

        for ch in it: text.chars()
            invariant
                it.seq() == s,
                s == text@,
                n_chars == s.len(),
                full_real_width == display_width(s),
                used_ellipsis_width == effective_ellipsis(target_width as nat, ellipsis_width as nat),
                elided_width == text_budget(target_width as nat, ellipsis_width as nat),
                char_index == it.index(),
                char_index <= s.len(),
                curr_width == display_width(s.take(char_index as int)),
                curr_width <= target_width,
                past_elision_point == (curr_width > elided_width),
                past_elision_point ==> {
                    &&& is_cut_point(s, elided_width as nat, elided_i as int)
                    &&& elided_i < char_index
                    &&& output_width == display_width(s.take(elided_i as int))
                    &&& padding == elided_width - output_width
                    &&& padding <= 1
                },
        {
            let last_width = curr_width;
            let w = match char_width(ch) {
                Some(w) => w,
                None => 0,
            };
            proof {
                lemma_width_take_step(s, char_index as int);
                lemma_width_prefix_bound(s, char_index + 1);
            }
            curr_width = curr_width + w;
            char_index = char_index + 1;

            if !past_elision_point && curr_width > elided_width {
                past_elision_point = true;
                elided_i = char_index - 1;
                padding = elided_width - last_width;
                output_width = last_width;
            }

            if curr_width > target_width {
                let display_str = text.substring_char(0, elided_i);
                proof {
                    lemma_width_prefix_bound(s, char_index as int);
                    assert(display_str@ =~= s.take(elided_i as int));
                }
                return TrimOutput {
                    display_str,
                    output_width,
                    full_real_width,
                    trim_status: TrimStatus::Trimmed(padding, used_ellipsis_width != 0),
                };
            }
        }
        proof {
            assert(s.take(s.len() as int) =~= s);
        }
        TrimOutput {
            display_str: text,
            output_width: curr_width,
            full_real_width,
            trim_status: TrimStatus::Untrimmed,
        }
    }
}

/// A string no wider than the target comes back whole and untrimmed.
pub proof fn lemma_fit_round_trip(s: Seq<char>, target_width: nat, ellipsis_width: nat, r: TrimOutput)
    requires
        fits_as(s, target_width, ellipsis_width, r),
        display_width(s) <= target_width,
    ensures
        r.display_str@ == s,
        r.trim_status == TrimStatus::Untrimmed,
{
}

/// What fitting returns never takes more cells than the target.
pub proof fn lemma_fit_width_bound(s: Seq<char>, target_width: nat, ellipsis_width: nat, r: TrimOutput)
    requires
        fits_as(s, target_width, ellipsis_width, r),
    ensures
        display_width(r.display_str@) <= target_width,
{
}

} // verus!

//! Rendering a multi-valued field: its values joined by a separator, cut
//! with an ellipsis only where the whole joined sequence overflows.
use vstd::prelude::*;

use crate::fit::is_cut_point;
use crate::fit::Util;
use crate::fit::effective_ellipsis;
use crate::width::display_width;
use crate::width::lemma_width_monotone;
use crate::width::text_width;

verus! {

/// `vals` with `sep` between each two neighbours.
pub open spec fn interleave<'a>(vals: Seq<&'a str>, sep: &'a str) -> Seq<&'a str>
    decreases vals.len(),
{
    if vals.len() == 0 {
        seq![]
    } else if vals.len() == 1 {
        seq![vals[0]]
    } else {
        seq![vals[0], sep] + interleave(vals.drop_first(), sep)
    }
}

/// Yields the values of a slice with a separator between each two of them.
#[derive(Debug, Clone, Copy)]
pub struct Interpolator<'a> {
    pub values: &'a [&'a str],
    pub separator: &'a str,
    /// Index of the next value to yield.
    pub index: usize,
    /// Whether a separator comes before that value.
    pub emit_sep: bool,
}

impl<'a> Interpolator<'a> {
    /// The values not yet yielded.
    pub open spec fn rest(&self) -> Seq<&'a str> {
        if self.index < self.values@.len() {
            self.values@.subrange(self.index as int, self.values@.len() as int)
        } else {
            seq![]
        }
    }

    /// What the interpolator still yields.
    pub open spec fn pending(&self) -> Seq<&'a str> {
        if self.emit_sep && self.rest().len() > 0 {
            seq![self.separator] + interleave(self.rest(), self.separator)
        } else {
            interleave(self.rest(), self.separator)
        }
    }

    pub fn new(values: &'a [&'a str], separator: &'a str) -> (r: Self)
        ensures
            r.values == values,
            r.separator == separator,
            r.pending() == interleave(values@, separator),
    {
        let r = Self { values, separator, index: 0, emit_sep: false };
        proof {
            assert(r.rest() =~= values@);
        }
        r
    }

    /// Yields the next value or separator.
    pub fn next(&mut self) -> (r: Option<&'a str>)
        ensures
            final(self).values == old(self).values,
            final(self).separator == old(self).separator,
            old(self).pending().len() == 0 ==> r is None && final(self).pending() == old(self).pending(),
            old(self).pending().len() > 0 ==> {
                &&& r == Some(old(self).pending()[0])
                &&& final(self).pending() == old(self).pending().drop_first()
            },
    {
        if self.index >= self.values.len() {
            return None;
        }
        let ghost rest = self.rest();
        let ret = if self.emit_sep {
            self.separator
        } else {
            let s = self.values[self.index];
            self.index = self.index + 1;
            s
        };
        self.emit_sep = !self.emit_sep;
        proof {
            if self.emit_sep {
                assert(self.rest() =~= rest.drop_first());
            }
            assert(self.pending() =~= old(self).pending().drop_first());
        }
        Some(ret)
    }

    /// Everything the interpolator still yields, in order.
    pub fn collect(self) -> (r: Vec<&'a str>)
        ensures
            r@ == self.pending(),
    {
        let mut it = self;
        let mut out: Vec<&'a str> = Vec::new();
        loop
            invariant
                out@ + it.pending() == self.pending(),
            ensures
                out@ == self.pending(),
            decreases it.pending().len(),
        {
            match it.next() {
                Some(f) => {
                    proof {
                        assert(out@.push(f) + it.pending() =~= self.pending());
                    }
                    out.push(f);
                },
                None => {
                    proof {
                        assert(out@ + it.pending() =~= out@);
                    }
                    break;
                },
            }
        }
        out
    }
}

/// The characters of each string.
pub open spec fn views<'a>(figs: Seq<&'a str>) -> Seq<Seq<char>> {
    figs.map_values(|f: &'a str| f@)
}

/// Cells taken by a sequence of strings placed one after another.
pub open spec fn total_width(figs: Seq<Seq<char>>) -> nat
    decreases figs.len(),
{
    if figs.len() == 0 {
        0
    } else {
        display_width(figs[0]) + total_width(figs.drop_first())
    }
}

/// Number of leading characters of `s` that fit in `budget` cells.
pub open spec fn cut_len(s: Seq<char>, budget: nat) -> int
    decreases s.len(),
{
    if display_width(s) <= budget || s.len() == 0 {
        s.len() as int
    } else {
        cut_len(s.drop_last(), budget)
    }
}

/// Each string placed at its offset, one after another from `offset`.
pub open spec fn verbatim(figs: Seq<Seq<char>>, offset: nat) -> Seq<(nat, Seq<char>)>
    decreases figs.len(),
{
    if figs.len() == 0 {
        seq![]
    } else {
        seq![(offset, figs[0])] + verbatim(figs.drop_first(), offset + display_width(figs[0]))
    }
}

/// `padding` single blanks from `offset`, then the ellipsis.
pub open spec fn ellipsis_run(offset: nat, padding: nat, ellipsis: Seq<char>) -> Seq<(nat, Seq<char>)>
    decreases padding,
{
    if padding == 0 {
        seq![(offset, ellipsis)]
    } else {
        seq![(offset, seq![' '])] + ellipsis_run(offset + 1, (padding - 1) as nat, ellipsis)
    }
}

/// What is placed for `figs` starting at `offset`: strings that fit in the
/// uncontested width are placed whole; at the first that does not, the rest
/// of the sequence is placed whole if all of it fits in the target width, and
/// otherwise that string is cut to the uncontested width and followed by the
/// blanks left by the cut and the ellipsis.
pub open spec fn head_run(
    figs: Seq<Seq<char>>,
    offset: nat,
    target_width: nat,
    uncontested_width: nat,
    ellipsis: Seq<char>,
) -> Seq<(nat, Seq<char>)>
    decreases figs.len(),
{
    if figs.len() == 0 {
        seq![]
    } else if offset + display_width(figs[0]) <= uncontested_width {
        seq![(offset, figs[0])] + head_run(
            figs.drop_first(),
            offset + display_width(figs[0]),
            target_width,
            uncontested_width,
            ellipsis,
        )
    } else if offset + total_width(figs) > target_width {
        let room = (uncontested_width - offset) as nat;
        let shown = figs[0].take(cut_len(figs[0], room));
        seq![(offset, shown)] + ellipsis_run(
            offset + display_width(shown),
            (room - display_width(shown)) as nat,
            ellipsis,
        )
    } else {
        verbatim(figs, offset)
    }
}

/// The fragments, with their offsets, that render `values` joined by
/// `separator` in `target_width` cells, eliding with `ellipsis` on overflow.
pub open spec fn render<'a>(
    values: Seq<&'a str>,
    target_width: nat,
    separator: &'a str,
    ellipsis: &'a str,
) -> Seq<(nat, Seq<char>)> {
    let ellipsis_width = effective_ellipsis(target_width, display_width(ellipsis@));
    head_run(
        views(interleave(values, separator)),
        0,
        target_width,
        (target_width - ellipsis_width) as nat,
        ellipsis@,
    )
}

#[derive(Clone, Copy)]
enum State<'a> {
    Head { figment_iter: Interpolator<'a>, target_width: usize, uncontested_width: usize },
    Tail(Interpolator<'a>),
    Ellipsis(usize),
    Done,
}

/// Yields `(offset, fragment)` pairs that render several values joined by a
/// separator into a width.
pub struct MultiFigments<'a> {
    offset: usize,
    ellipsis: &'a str,
    ellipsis_width: usize,
    state: State<'a>,
}

impl<'a> MultiFigments<'a> {
    /// The fragments still to come.
    pub closed spec fn pending(&self) -> Seq<(nat, Seq<char>)> {
        match self.state {
            State::Head { figment_iter, target_width, uncontested_width } => head_run(
                views(figment_iter.pending()),
                self.offset as nat,
                target_width as nat,
                uncontested_width as nat,
                self.ellipsis@,
            ),
            State::Tail(it) => verbatim(views(it.pending()), self.offset as nat),
            State::Ellipsis(padding) => ellipsis_run(
                self.offset as nat,
                padding as nat,
                self.ellipsis@,
            ),
            State::Done => seq![],
        }
    }

    pub closed spec fn wf(&self) -> bool {
        match self.state {
            State::Head { figment_iter, target_width, uncontested_width } => {
                &&& self.offset <= uncontested_width <= target_width
                &&& uncontested_width + self.ellipsis_width == target_width
            },
            State::Tail(it) => self.offset + total_width(views(it.pending())) <= usize::MAX,
            State::Ellipsis(padding) => self.offset + padding + self.ellipsis_width <= usize::MAX,
            State::Done => true,
        }
    }

    pub fn new(values: &'a [&'a str], target_width: usize, separator: &'a str, ellipsis: &'a str) -> (r: Self)
        ensures
            r.wf(),
            r.pending() == render(values@, target_width as nat, separator, ellipsis),
    {
        // An ellipsis too wide for the target width is never printed.
        let full_ellipsis_width = text_width(ellipsis);
        let ellipsis_width = if full_ellipsis_width <= target_width {
            full_ellipsis_width
        } else {
            0
        };

        // Text always owns this much of the width; the ellipsis, if any, can
        // never be drawn inside it.
        let uncontested_width = target_width - ellipsis_width;

        let figment_iter = Interpolator::new(values, separator);

        Self {
            offset: 0,
            ellipsis,
            ellipsis_width,
            state: State::Head { figment_iter, target_width, uncontested_width },
        }
    }

    /// Yields the next fragment and its offset.
    pub fn next(&mut self) -> (r: Option<(usize, &'a str)>)
        requires
            old(self).wf(),
        ensures
            final(self).wf(),
            old(self).pending().len() == 0 ==> r is None && final(self).pending() == old(self).pending(),
            old(self).pending().len() > 0 ==> {
                &&& r is Some
                &&& (r->0).0 == old(self).pending()[0].0
                &&& (r->0).1@ == old(self).pending()[0].1
                &&& final(self).pending() == old(self).pending().drop_first()
            },
    {
        match self.state {
            State::Head { figment_iter, target_width, uncontested_width } => {
                let mut figment_iter = figment_iter;
                let ghost figs = views(figment_iter.pending());
                let figment = match figment_iter.next() {
                    Some(f) => f,
                    None => {
                        return None;
                    },
                };
                let ghost rest = views(figment_iter.pending());
                proof {
                    assert(rest =~= figs.drop_first());
                }
                let remaining_uncontested = uncontested_width - self.offset;
                let trim_output = Util::trim_display_str(figment, remaining_uncontested);

                if trim_output.trim_status.is_trimmed() {
                    let figment_width = trim_output.full_real_width;
                    if overflows(self.offset, figment_width, figment_iter, target_width) {
                        // The sequence really overflows: emit the cut figment,
                        // then the padding and the ellipsis.
                        let ret = Some((self.offset, trim_output.display_str));
                        proof {
                            lemma_cut_len_unique(
                                figment@,
                                remaining_uncontested as nat,
                                trim_output.display_str@.len() as int,
                            );
                        }
                        self.offset = self.offset + trim_output.output_width;
                        self.state = State::Ellipsis(trim_output.trim_status.padding());
                        ret
                    } else {
                        // Everything from here on fits the target width after
                        // all: emit it whole.
                        let ret = Some((self.offset, figment));
                        self.offset = self.offset + figment_width;
                        self.state = State::Tail(figment_iter);
                        ret
                    }
                } else {
                    let ret = Some((self.offset, figment));
                    self.offset = self.offset + trim_output.full_real_width;
                    self.state = State::Head { figment_iter, target_width, uncontested_width };
                    ret
                }
            },
            State::Tail(tail_iter) => {
                let mut tail_iter = tail_iter;
                let ghost figs = views(tail_iter.pending());
                let figment = match tail_iter.next() {
                    Some(f) => f,
                    None => {
                        return None;
                    },
                };
                proof {
                    assert(views(tail_iter.pending()) =~= figs.drop_first());
                }
                let width = text_width(figment);
                let ret = Some((self.offset, figment));
                self.offset = self.offset + width;
                self.state = State::Tail(tail_iter);
                ret
            },
            State::Ellipsis(padding) => {
                let ret = if padding > 0 {
                    proof {
                        reveal_strlit(" ");
                    }
                    let r = Some((self.offset, " "));
                    self.offset = self.offset + 1;
                    self.state = State::Ellipsis(padding - 1);
                    r
                } else {
                    let r = Some((self.offset, self.ellipsis));
                    self.offset = self.offset + self.ellipsis_width;
                    self.state = State::Done;
                    r
                };
                proof {
                    assert(self.pending() =~= old(self).pending().drop_first());
                }
                ret
            },
            State::Done => None,
        }
    }

    /// Every fragment still to come, in order.
    pub fn collect(self) -> (r: Vec<(usize, &'a str)>)
        requires
            self.wf(),
        ensures
            r@.len() == self.pending().len(),
            forall|i: int|
                0 <= i < r@.len() ==> r@[i].0 == self.pending()[i].0 && (#[trigger] r@[i]).1@
                    == self.pending()[i].1,
    {
        let mut figments = self;
        let mut out: Vec<(usize, &'a str)> = Vec::new();
        loop
            invariant
                figments.wf(),
                out@.len() + figments.pending().len() == self.pending().len(),
                forall|i: int|
                    0 <= i < out@.len() ==> out@[i].0 == self.pending()[i].0 && (#[trigger] out@[i]).1@
                        == self.pending()[i].1,
                forall|i: int|
                    0 <= i < figments.pending().len() ==> #[trigger] figments.pending()[i]
                        == self.pending()[out@.len() + i],
            ensures
                out@.len() == self.pending().len(),
                forall|i: int|
                    0 <= i < out@.len() ==> out@[i].0 == self.pending()[i].0 && (#[trigger] out@[i]).1@
                        == self.pending()[i].1,
            decreases figments.pending().len(),
        {
            let ghost before = figments.pending();
            match figments.next() {
                Some(f) => {
                    proof {
                        assert(before[0] == self.pending()[out@.len() as int]);
                        assert forall|i: int| 0 <= i < figments.pending().len() implies #[trigger] figments.pending()[i]
                            == self.pending()[out@.len() + 1 + i] by {
                            assert(figments.pending()[i] == before[i + 1]);
                        }
                    }
                    out.push(f);
                },
                None => {
                    break;
                },
            }
        }
        out
    }
}

/// Whether placing a string of `first_width` cells at `offset` and then every
/// string `rest` still yields goes past `target_width`.
fn overflows(offset: usize, first_width: usize, rest: Interpolator, target_width: usize) -> (r: bool)
    requires
        offset <= target_width,
    ensures
        r == (offset + first_width + total_width(views(rest.pending())) > target_width),
{
    let ghost all = views(rest.pending());
    let mut frontier = offset;
    let mut w = first_width;
    let mut look = rest;
    loop
        invariant
            all == views(rest.pending()),
            frontier <= target_width,
            frontier + w + total_width(views(look.pending())) == offset + first_width + total_width(all),
        decreases look.pending().len(),
    {
        if w > target_width - frontier {
            return true;
        }
        frontier = frontier + w;
        let ghost figs = views(look.pending());
        match look.next() {
            Some(f) => {
                proof {
                    assert(views(look.pending()) =~= figs.drop_first());
                }
                w = text_width(f);
            },
            None => {
                return false;
            },
        }
    }
}

proof fn lemma_head_run_fits(
    figs: Seq<Seq<char>>,
    offset: nat,
    target_width: nat,
    uncontested_width: nat,
    ellipsis: Seq<char>,
)
    requires
        offset + total_width(figs) <= target_width,
    ensures
        head_run(figs, offset, target_width, uncontested_width, ellipsis) == verbatim(figs, offset),
    decreases figs.len(),
{
    if figs.len() > 0 && offset + display_width(figs[0]) <= uncontested_width {
        lemma_head_run_fits(
            figs.drop_first(),
            offset + display_width(figs[0]),
            target_width,
            uncontested_width,
            ellipsis,
        );
    }
}

proof fn lemma_ellipsis_run_last(offset: nat, padding: nat, ellipsis: Seq<char>)
    ensures
        ellipsis_run(offset, padding, ellipsis).len() > 0,
        ellipsis_run(offset, padding, ellipsis).last() == (offset + padding, ellipsis),
    decreases padding,
{
    if padding > 0 {
        lemma_ellipsis_run_last(offset + 1, (padding - 1) as nat, ellipsis);
    }
}

proof fn lemma_head_run_overflows(
    figs: Seq<Seq<char>>,
    offset: nat,
    target_width: nat,
    uncontested_width: nat,
    ellipsis: Seq<char>,
)
    requires
        offset <= uncontested_width <= target_width,
        offset + total_width(figs) > target_width,
    ensures
        head_run(figs, offset, target_width, uncontested_width, ellipsis).len() > 0,
        head_run(figs, offset, target_width, uncontested_width, ellipsis).last() == (
            uncontested_width,
            ellipsis,
        ),
    decreases figs.len(),
{
    let w = display_width(figs[0]);
    if offset + w <= uncontested_width {
        lemma_head_run_overflows(figs.drop_first(), offset + w, target_width, uncontested_width, ellipsis);
    } else {
        let room = (uncontested_width - offset) as nat;
        let shown = figs[0].take(cut_len(figs[0], room));
        lemma_cut_len_fits(figs[0], room);
        lemma_ellipsis_run_last(
            offset + display_width(shown),
            (room - display_width(shown)) as nat,
            ellipsis,
        );
    }
}

/// What `cut_len` keeps fits the budget.
proof fn lemma_cut_len_fits(s: Seq<char>, budget: nat)
    ensures
        0 <= cut_len(s, budget) <= s.len(),
        display_width(s.take(cut_len(s, budget))) <= budget,
    decreases s.len(),
{
    if display_width(s) <= budget || s.len() == 0 {
        assert(s.take(s.len() as int) =~= s);
    } else {
        lemma_cut_len_fits(s.drop_last(), budget);
        assert(s.drop_last().take(cut_len(s, budget)) =~= s.take(cut_len(s, budget)));
    }
}

/// When the joined values fit the target width, they are all placed whole,
/// one after another: nothing is elided.
pub proof fn lemma_render_fits(values: Seq<&str>, target_width: nat, separator: &str, ellipsis: &str)
    requires
        total_width(views(interleave(values, separator))) <= target_width,
    ensures
        render(values, target_width, separator, ellipsis) == verbatim(
            views(interleave(values, separator)),
            0,
        ),
{
    let ellipsis_width = effective_ellipsis(target_width, display_width(ellipsis@));
    lemma_head_run_fits(
        views(interleave(values, separator)),
        0,
        target_width,
        (target_width - ellipsis_width) as nat,
        ellipsis@,
    );
}

/// When the joined values overflow the target width, the last fragment is
/// the ellipsis, placed so that it ends at the target width (at the target
/// width itself when the ellipsis is too wide to print).
pub proof fn lemma_render_overflows(values: Seq<&str>, target_width: nat, separator: &str, ellipsis: &str)
    requires
        total_width(views(interleave(values, separator))) > target_width,
    ensures
        render(values, target_width, separator, ellipsis).len() > 0,
        render(values, target_width, separator, ellipsis).last() == (
            (target_width - effective_ellipsis(target_width, display_width(ellipsis@))) as nat,
            ellipsis@,
        ),
{
    let ellipsis_width = effective_ellipsis(target_width, display_width(ellipsis@));
    lemma_head_run_overflows(
        views(interleave(values, separator)),
        0,
        target_width,
        (target_width - ellipsis_width) as nat,
        ellipsis@,
    );
}

/// A cut point is where `cut_len` cuts.
proof fn lemma_cut_len_unique(s: Seq<char>, budget: nat, k: int)
    requires
        is_cut_point(s, budget, k),
    ensures
        cut_len(s, budget) == k,
    decreases s.len(),
{
    assert(s.take(s.len() as int) =~= s);
    if display_width(s) <= budget {
        lemma_width_monotone(s, k + 1, s.len() as int);
    } else {
        let t = s.drop_last();
        assert(t.take(k) =~= s.take(k));
        if k < s.len() - 1 {
            assert(t.take(k + 1) =~= s.take(k + 1));
            lemma_cut_len_unique(t, budget, k);
        } else {
            assert(t =~= s.take(k));
            assert(cut_len(t, budget) == t.len());
        }
    }
}

} // verus!

//! The streaming entry parser: a line-oriented state machine that yields one
//! `Result` per syntactic block and resynchronizes at the next blank line
//! after a grammar error, so one malformed block never costs its neighbours.

use vstd::prelude::*;

use crate::entry::{EntryView, SubRip};
use crate::error::{ErrView, ParseError};
use crate::lines::{split_into_lines, split_lines};
use crate::text::{dec_value, is_decimal_token, parse_decimal, views_of};
use crate::timecode::{is_timecode_token, timecode_of, Timecode};

verus! {

/// A blank line: the separator between subtitle blocks.
pub open spec fn blank(l: Seq<char>) -> bool {
    l.len() == 0
}

/// The first non-blank line at or after `i`, or the length if none is left.
pub open spec fn skip_blank_from(lines: Seq<Seq<char>>, i: int) -> int
    decreases lines.len() - i,
{
    if !(0 <= i < lines.len()) {
        lines.len() as int
    } else if !blank(lines[i]) {
        i
    } else {
        skip_blank_from(lines, i + 1)
    }
}

pub proof fn lemma_skip_blank_from(lines: Seq<Seq<char>>, i: int)
    requires
        0 <= i <= lines.len(),
    ensures
        i <= skip_blank_from(lines, i) <= lines.len(),
        skip_blank_from(lines, i) < lines.len() ==> !blank(lines[skip_blank_from(lines, i)]),
        forall|k: int| i <= k < skip_blank_from(lines, i) ==> blank(#[trigger] lines[k]),
    decreases lines.len() - i,
{
    if 0 <= i < lines.len() && blank(lines[i]) {
        lemma_skip_blank_from(lines, i + 1);
    }
}

/// The first blank line at or after `i`, or the length: the point where the
/// parser resynchronizes after an error, and where a text block ends.
pub open spec fn next_blank_from(lines: Seq<Seq<char>>, i: int) -> int
    decreases lines.len() - i,
{
    if !(0 <= i < lines.len()) {
        lines.len() as int
    } else if blank(lines[i]) {
        i
    } else {
        next_blank_from(lines, i + 1)
    }
}

pub proof fn lemma_next_blank_from(lines: Seq<Seq<char>>, i: int)
    requires
        0 <= i <= lines.len(),
    ensures
        i <= next_blank_from(lines, i) <= lines.len(),
        next_blank_from(lines, i) < lines.len() ==> blank(lines[next_blank_from(lines, i)]),
        forall|k: int| i <= k < next_blank_from(lines, i) ==> !blank(#[trigger] lines[k]),
    decreases lines.len() - i,
{
    if 0 <= i < lines.len() && !blank(lines[i]) {
        lemma_next_blank_from(lines, i + 1);
    }
}

/// The timing line shape: `timecode --> timecode`, single spaces around the
/// arrow, nothing more.
pub open spec fn is_timing_line(l: Seq<char>) -> bool {
    &&& l.len() == 29
    &&& is_timecode_token(l.subrange(0, 12))
    &&& l[12] == ' '
    &&& l[13] == '-'
    &&& l[14] == '-'
    &&& l[15] == '>'
    &&& l[16] == ' '
    &&& is_timecode_token(l.subrange(17, 29))
}

pub open spec fn timing_start(l: Seq<char>) -> Timecode {
    timecode_of(l.subrange(0, 12))
}

pub open spec fn timing_end(l: Seq<char>) -> Timecode {
    timecode_of(l.subrange(17, 29))
}

/// What one advance of the parser yields at position `i`: `None` when only
/// blank lines remain, otherwise one outcome and the position where parsing
/// resumes. A malformed block costs exactly the lines up to the next blank.
pub open spec fn step_at(lines: Seq<Seq<char>>, i: int) -> Option<
    (Result<EntryView, ErrView>, int),
> {
    let b = skip_blank_from(lines, i);
    if b == lines.len() {
        None
    } else if !is_decimal_token(lines[b]) {
        Some(
            (Err(ErrView::MalformedPosition { line: lines[b] }), next_blank_from(lines, b)),
        )
    } else if b + 1 == lines.len() {
        Some((Err(ErrView::MalformedTiming { line: Seq::empty() }), lines.len() as int))
    } else if !is_timing_line(lines[b + 1]) {
        Some(
            (Err(ErrView::MalformedTiming { line: lines[b + 1] }), next_blank_from(lines, b + 1)),
        )
    } else {
        let t = next_blank_from(lines, b + 2);
        Some(
            (
                Ok(
                    EntryView {
                        position: dec_value(lines[b]),
                        start: timing_start(lines[b + 1]),
                        end: timing_end(lines[b + 1]),
                        text: lines.subrange(b + 2, t),
                    },
                ),
                t,
            ),
        )
    }
}

/// An advance always consumes at least one line and never runs past the end.
pub proof fn lemma_step_at_bounds(lines: Seq<Seq<char>>, i: int)
    requires
        0 <= i <= lines.len(),
    ensures
        step_at(lines, i) matches Some((o, j)) ==> i < j <= lines.len(),
{
    lemma_skip_blank_from(lines, i);
    let b = skip_blank_from(lines, i);
    if b < lines.len() {
        lemma_next_blank_from(lines, b);
        if b + 1 < lines.len() {
            lemma_next_blank_from(lines, b + 1);
            if b + 2 <= lines.len() {
                lemma_next_blank_from(lines, b + 2);
            }
        }
    }
}

/// Every entry the parser yields can be rendered again: its timecodes are
/// within the digit widths, and its position fits the machine's type.
pub proof fn lemma_parsed_entry_renders(lines: Seq<Seq<char>>, i: int)
    requires
        0 <= i <= lines.len(),
    ensures
        step_at(lines, i) matches Some((Ok(e), j)) ==> e.start.wf() && e.end.wf() && 0
            <= e.position <= usize::MAX,
{
    lemma_skip_blank_from(lines, i);
    let b = skip_blank_from(lines, i);
    if b < lines.len() && is_decimal_token(lines[b]) && b + 1 < lines.len() && is_timing_line(
        lines[b + 1],
    ) {
        crate::timecode::lemma_timecode_of_wf(lines[b + 1].subrange(0, 12));
        crate::timecode::lemma_timecode_of_wf(lines[b + 1].subrange(17, 29));
        crate::text::lemma_dec_value_nonneg(lines[b]);
    }
}

/// Every outcome the parser will yield from position `i` on, in order.
pub open spec fn outcomes_from(lines: Seq<Seq<char>>, i: int) -> Seq<
    Result<EntryView, ErrView>,
>
    decreases lines.len() - i,
{
    if !(0 <= i <= lines.len()) {
        Seq::empty()
    } else {
        match step_at(lines, i) {
            None => Seq::empty(),
            Some((o, j)) => {
                proof {
                    lemma_step_at_bounds(lines, i);
                }
                seq![o] + outcomes_from(lines, j)
            },
        }
    }
}

/// One unfolding of `outcomes_from`, in the form the iterator contract uses.
pub proof fn lemma_outcomes_unfold(lines: Seq<Seq<char>>, i: int)
    requires
        0 <= i <= lines.len(),
    ensures
        step_at(lines, i) is None ==> outcomes_from(lines, i) == Seq::<
            Result<EntryView, ErrView>,
        >::empty(),
        step_at(lines, i) matches Some((o, j)) ==> outcomes_from(lines, i) == seq![o]
            + outcomes_from(lines, j) && outcomes_from(lines, i).drop_first() == outcomes_from(
            lines,
            j,
        ) && outcomes_from(lines, i)[0] == o,
{
    lemma_step_at_bounds(lines, i);
    match step_at(lines, i) {
        None => {},
        Some((o, j)) => {
            assert(outcomes_from(lines, i) == seq![o] + outcomes_from(lines, j));
            assert((seq![o] + outcomes_from(lines, j)).drop_first() =~= outcomes_from(lines, j));
        },
    }
}

/// The mathematical content of one parse result.
pub open spec fn outcome_view(r: Result<SubRip, ParseError>) -> Result<EntryView, ErrView> {
    match r {
        Ok(e) => Ok(e@),
        Err(x) => Err(x@),
    }
}

/// The mathematical content of a vector of parse results.
pub open spec fn outcomes_of(rs: Seq<Result<SubRip, ParseError>>) -> Seq<
    Result<EntryView, ErrView>,
> {
    Seq::new(rs.len(), |i: int| outcome_view(rs[i]))
}

/// Parses a line as `timecode --> timecode`.
fn parse_timing(line: &str) -> (r: Option<(Timecode, Timecode)>)
    ensures
        is_timing_line(line@) ==> r == Some((timing_start(line@), timing_end(line@))),
        !is_timing_line(line@) ==> r is None,
{
    if line.unicode_len() != 29 {
        return None;
    }
    let sep_ok = line.get_char(12) == ' ' && line.get_char(13) == '-' && line.get_char(14) == '-'
        && line.get_char(15) == '>' && line.get_char(16) == ' ';
    if !sep_ok {
        return None;
    }
    let a = line.substring_char(0, 12);
    let b = line.substring_char(17, 29);
    match (Timecode::parse(a), Timecode::parse(b)) {
        (Ok(s), Ok(e)) => Some((s, e)),
        _ => None,
    }
}

/// A lazy, finite, forward-only sequence of parse results over one stream.
/// Each advance yields a fully formed entry or one error; the stream as a
/// whole is never aborted by a grammar error.
pub struct Parser {
    lines: Vec<String>,
    idx: usize,
}

impl Parser {
    /// The lines of the stream under the parser.
    pub closed spec fn lines_model(&self) -> Seq<Seq<char>> {
        views_of(self.lines@)
    }

    /// The current position of the state machine, as a line index.
    pub closed spec fn pos(&self) -> int {
        self.idx as int
    }

    pub open spec fn wf(&self) -> bool {
        0 <= self.pos() <= self.lines_model().len()
    }

    /// The outcomes that future advances will yield, in order.
    pub open spec fn remaining_outcomes(&self) -> Seq<Result<EntryView, ErrView>> {
        outcomes_from(self.lines_model(), self.pos())
    }

    /// Starts a parser over a whole stream.
    pub fn new(input: &str) -> (r: Parser)
        ensures
            r.wf(),
            r.lines_model() == split_lines(input@),
            r.remaining_outcomes() == outcomes_from(split_lines(input@), 0),
    {
        Parser { lines: split_into_lines(input), idx: 0 }
    }

    /// Skips to the next blank line: per-entry recovery after an error.
    fn advance_to_blank(&mut self)
        requires
            old(self).wf(),
        ensures
            final(self).wf(),
            final(self).lines_model() == old(self).lines_model(),
            final(self).pos() == next_blank_from(old(self).lines_model(), old(self).pos()),
    {
        let ghost lm = self.lines_model();
        let ghost i0 = self.pos();
        let len = self.lines.len();
        while self.idx < len && !self.lines[self.idx].as_str().is_empty()
            invariant
                self.lines_model() == lm,
                len == lm.len(),
                i0 <= self.idx <= len,
                next_blank_from(lm, i0) == next_blank_from(lm, self.idx as int),
            decreases len - self.idx,
        {
            self.idx = self.idx + 1;
        }
        proof {
            lemma_next_blank_from(lm, self.idx as int);
        }
    }

    /// One advance of the sequence: `None` at the end of the stream, else
    /// exactly the first of the remaining outcomes. Re-iterating is not
    /// possible: the yielded outcome is no longer among the remaining ones.
    pub fn next(&mut self) -> (r: Option<Result<SubRip, ParseError>>)
        requires
            old(self).wf(),
        ensures
            final(self).wf(),
            final(self).lines_model() == old(self).lines_model(),
            match r {
                None => {
                    &&& old(self).remaining_outcomes().len() == 0
                    &&& final(self).remaining_outcomes().len() == 0
                },
                Some(x) => {
                    &&& old(self).remaining_outcomes().len() > 0
                    &&& outcome_view(x) == old(self).remaining_outcomes()[0]
                    &&& final(self).remaining_outcomes() == old(self).remaining_outcomes().drop_first()
                },
            },
    {
        let ghost lm = self.lines_model();
        let ghost i0 = self.pos();
        proof {
            lemma_outcomes_unfold(lm, i0);
        }
        let len = self.lines.len();
        // AwaitPosition: skip the blank lines between blocks.
        while self.idx < len && self.lines[self.idx].as_str().is_empty()
            invariant
                self.lines_model() == lm,
                len == lm.len(),
                i0 <= self.idx <= len,
                skip_blank_from(lm, i0) == skip_blank_from(lm, self.idx as int),
            decreases len - self.idx,
        {
            self.idx = self.idx + 1;
        }
        proof {
            lemma_skip_blank_from(lm, self.idx as int);
            assert(skip_blank_from(lm, i0) == self.idx as int);
        }
        if self.idx == len {
            // Terminal: end of stream with no pending partial entry.
            return None;
        }
        let b = self.idx;
        let pos_opt = parse_decimal(self.lines[b].as_str());
        match pos_opt {
            None => {
                let line = self.lines[b].clone();
                self.advance_to_blank();
                Some(Err(ParseError::MalformedPosition { line }))
            },
            Some(position) => {
                proof {
                    crate::text::lemma_dec_value_nonneg(lm[b as int]);
                }
                if b + 1 == len {
                    // AwaitTiming at end of stream: the timing line never came.
                    self.idx = len;
                    Some(Err(ParseError::MalformedTiming { line: String::new() }))
                } else {
                    match parse_timing(self.lines[b + 1].as_str()) {
                        None => {
                            let line = self.lines[b + 1].clone();
                            self.idx = b + 1;
                            self.advance_to_blank();
                            Some(Err(ParseError::MalformedTiming { line }))
                        },
                        Some((start, end)) => {
                            // CollectText: consecutive non-blank lines.
                            let mut text: Vec<String> = Vec::new();
                            self.idx = b + 2;
                            while self.idx < len && !self.lines[self.idx].as_str().is_empty()
                                invariant
                                    self.lines_model() == lm,
                                    len == lm.len(),
                                    b + 2 <= self.idx <= len,
                                    next_blank_from(lm, b + 2) == next_blank_from(
                                        lm,
                                        self.idx as int,
                                    ),
                                    views_of(text@) == lm.subrange(b + 2, self.idx as int),
                                decreases len - self.idx,
                            {
                                let ghost prev = text@;
                                text.push(self.lines[self.idx].clone());
                                proof {
                                    let i = self.idx as int;
                                    assert(text@ == prev.push(self.lines@[i]));
                                    assert(views_of(prev) == lm.subrange(b + 2, i));
                                    assert(views_of(prev).len() == prev.len());
                                    assert(prev.len() == i - b - 2);
                                    assert(lm[i] == self.lines@[i]@);
                                    assert forall|k: int| 0 <= k < text@.len() implies views_of(
                                        text@,
                                    )[k] == lm.subrange(b + 2, i + 1)[k] by {
                                        assert(views_of(text@)[k] == text@[k]@);
                                        if k < prev.len() {
                                            assert(text@[k] == prev[k]);
                                            assert(views_of(prev)[k] == lm.subrange(b + 2, i)[k]);
                                            assert(lm.subrange(b + 2, i)[k] == lm[b + 2 + k]);
                                        } else {
                                            assert(k == prev.len());
                                            assert(text@[k] == self.lines@[i]);
                                            assert(b + 2 + k == i);
                                        }
                                        assert(lm.subrange(b + 2, i + 1)[k] == lm[b + 2 + k]);
                                    }
                                    assert(views_of(text@) =~= lm.subrange(b + 2, i + 1));
                                }
                                self.idx = self.idx + 1;
                            }
                            proof {
                                lemma_next_blank_from(lm, self.idx as int);
                                assert(next_blank_from(lm, b + 2) == self.idx as int);
                            }
                            Some(Ok(SubRip { position, start, end, text }))
                        },
                    }
                }
            },
        }
    }
}

/// Parses a whole stream, eagerly driving the lazy sequence to its end:
/// exactly one outcome per syntactic block, in source order.
pub fn parse(input: &str) -> (r: Vec<Result<SubRip, ParseError>>)
    ensures
        outcomes_of(r@) == outcomes_from(split_lines(input@), 0),
{
    let ghost total = outcomes_from(split_lines(input@), 0);
    let mut p = Parser::new(input);
    let mut out: Vec<Result<SubRip, ParseError>> = Vec::new();
    let mut fin = false;
    while !fin
        invariant
            p.wf(),
            outcomes_of(out@) + p.remaining_outcomes() == total,
            fin ==> p.remaining_outcomes().len() == 0,
        decreases p.remaining_outcomes().len() + (if fin {
            0int
        } else {
            1int
        }),
    {
        let ghost prev = out@;
        match p.next() {
            None => {
                fin = true;
            },
            Some(x) => {
                out.push(x);
                proof {
                    assert(outcomes_of(out@) =~= outcomes_of(prev) + seq![outcome_view(x)]);
                    assert(outcomes_of(out@) + p.remaining_outcomes() =~= total);
                }
            },
        }
    }
    proof {
        assert(outcomes_of(out@) =~= total);
    }
    out
}

} // verus!

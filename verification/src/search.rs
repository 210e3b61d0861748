//! The search orchestrator: drives the parser over one stream, applies the
//! match-span engine to each entry, and reports every outcome exactly once.

use vstd::prelude::*;

use crate::entry::{join_views, join_text, SubRip};
use crate::error::{ErrView, ParseError};
use crate::lines::split_lines;
use crate::matcher::{
    compute_spans, highlight_wf, regex_match_spans, render_highlighted, seg_views, Pattern, Segment,
};
use crate::entry::EntryView;
use crate::parser::{outcome_view, outcomes_from, Parser};

verus! {

/// What the orchestrator reports for one parse result: a parse failure,
/// passed through; a highlighted rendering when the pattern matched; or
/// nothing to show.
#[derive(Debug)]
pub enum SearchOutcome {
    /// The block was malformed; the error is reported, never swallowed.
    ParseFailure(ParseError),
    /// At least one match: the alternating rendering plan for the entry's
    /// joined text.
    Matched(Vec<Segment>),
    /// A well-formed entry in which the pattern does not match.
    NoMatch,
}

/// The outcome that the orchestrator owes for one parse result.
pub open spec fn reported(o: SearchOutcome, res: Result<EntryView, ErrView>, pat: Seq<char>) -> bool {
    match res {
        Err(ev) => o matches SearchOutcome::ParseFailure(pe) && pe@ == ev,
        Ok(en) => {
            let joined = join_views(en.text);
            let spans = regex_match_spans(pat, joined);
            if spans.len() == 0 {
                o is NoMatch
            } else {
                o matches SearchOutcome::Matched(segs) && highlight_wf(
                    seg_views(segs@),
                    joined,
                    spans,
                )
            }
        },
    }
}

/// Searches one entry: joins its text lines with newlines, computes the
/// match spans, and renders the highlighted segments only when at least
/// one span exists.
pub fn search_entry(entry: &SubRip, pattern: &Pattern) -> (r: Option<Vec<Segment>>)
    ensures
        ({
            let joined = join_views(entry@.text);
            let spans = regex_match_spans(pattern@, joined);
            &&& (r is None <==> spans.len() == 0)
            &&& (r matches Some(segs) ==> highlight_wf(seg_views(segs@), joined, spans))
        }),
{
    let text = join_text(&entry.text);
    let spans = compute_spans(pattern, text.as_str());
    if spans.len() == 0 {
        None
    } else {
        Some(render_highlighted(text.as_str(), &spans))
    }
}

/// Drives the parser to exhaustion over one stream: one reported outcome
/// per syntactic block, in source order, errors included.
pub fn search(input: &str, pattern: &Pattern) -> (r: Vec<SearchOutcome>)
    ensures
        ({
            let os = outcomes_from(split_lines(input@), 0);
            &&& r@.len() == os.len()
            &&& forall|k: int| 0 <= k < os.len() ==> reported(#[trigger] r@[k], os[k], pattern@)
        }),
{
    let ghost total = outcomes_from(split_lines(input@), 0);
    let mut p = Parser::new(input);
    let mut out: Vec<SearchOutcome> = Vec::new();
    let mut fin = false;
    while !fin
        invariant
            p.wf(),
            p.remaining_outcomes() == total.skip(out@.len() as int),
            out@.len() <= total.len(),
            forall|k: int| 0 <= k < out@.len() ==> reported(#[trigger] out@[k], total[k], pattern@),
            fin ==> p.remaining_outcomes().len() == 0,
        decreases p.remaining_outcomes().len() + (if fin {
            0int
        } else {
            1int
        }),
    {
        let ghost n = out@.len() as int;
        proof {
            assert(total.skip(n).len() == total.len() - n);
        }
        match p.next() {
            None => {
                fin = true;
                proof {
                    assert(n == total.len());
                }
            },
            Some(x) => {
                proof {
                    assert(outcome_view(x) == total.skip(n)[0]);
                    assert(total.skip(n)[0] == total[n]);
                    assert(total.skip(n).drop_first() =~= total.skip(n + 1));
                }
                match x {
                    Err(e) => {
                        out.push(SearchOutcome::ParseFailure(e));
                    },
                    Ok(sub) => {
                        match search_entry(&sub, pattern) {
                            None => {
                                out.push(SearchOutcome::NoMatch);
                            },
                            Some(segs) => {
                                out.push(SearchOutcome::Matched(segs));
                            },
                        }
                    },
                }
                proof {
                    assert(out@.len() == n + 1);
                    assert(reported(out@[n], total[n], pattern@));
                }
            },
        }
    }
    proof {
        assert(out@.len() == total.len());
    }
    out
}

} // verus!

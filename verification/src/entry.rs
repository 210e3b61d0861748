//! The subtitle entry model and its canonical textual rendering.

use vstd::prelude::*;

use crate::text::{dec_str, render_decimal, views_of};
use crate::timecode::{spec_render_timecode, Timecode};

verus! {

/// One subtitle record of a SubRip (`.srt`) stream.
#[derive(Debug, PartialEq)]
pub struct SubRip {
    /// Subtitle position: the sequence number as it appeared in the source.
    pub position: usize,
    /// The time that the subtitle should appear.
    pub start: Timecode,
    /// The time that the subtitle should disappear.
    pub end: Timecode,
    /// The lines of this subtitle, in source order.
    pub text: Vec<String>,
}

/// The mathematical content of a subtitle entry.
pub ghost struct EntryView {
    pub position: int,
    pub start: Timecode,
    pub end: Timecode,
    pub text: Seq<Seq<char>>,
}

impl View for SubRip {
    type V = EntryView;

    open spec fn view(&self) -> EntryView {
        EntryView {
            position: self.position as int,
            start: self.start,
            end: self.end,
            text: views_of(self.text@),
        }
    }
}

/// Lines joined with a single newline between them, none at the end.
pub open spec fn join_views(ls: Seq<Seq<char>>) -> Seq<char>
    decreases ls.len(),
{
    if ls.len() == 0 {
        Seq::empty()
    } else if ls.len() == 1 {
        ls[0]
    } else {
        join_views(ls.drop_last()) + seq!['\n'] + ls.last()
    }
}

/// A text line the parser could have produced: non-blank, holding no
/// newline, and with no carriage return left at its end.
pub open spec fn line_wf(l: Seq<char>) -> bool {
    &&& l.len() > 0
    &&& forall|j: int| 0 <= j < l.len() ==> #[trigger] l[j] != '\n'
    &&& l.last() != '\r'
}

/// An entry the parser could have produced.
pub open spec fn entry_wf(e: EntryView) -> bool {
    &&& 0 <= e.position <= usize::MAX
    &&& e.start.wf()
    &&& e.end.wf()
    &&& forall|i: int| 0 <= i < e.text.len() ==> line_wf(#[trigger] e.text[i])
}

/// The canonical block: position line, timing line, then the text lines,
/// newline-joined with no trailing blank line.
pub open spec fn spec_render_entry(e: EntryView) -> Seq<char> {
    dec_str(e.position as nat) + seq!['\n'] + spec_render_timecode(e.start) + seq![
        ' ',
        '-',
        '-',
        '>',
        ' ',
    ] + spec_render_timecode(e.end) + seq!['\n'] + join_views(e.text)
}

/// Joins text lines with a newline separator.
pub fn join_text(lines: &Vec<String>) -> (r: String)
    ensures
        r@ == join_views(views_of(lines@)),
{
    proof {
        reveal_strlit("\n");
    }
    let ghost ls = views_of(lines@);
    let mut out = String::new();
    let mut i: usize = 0;
    while i < lines.len()
        invariant
            0 <= i <= lines.len(),
            ls == views_of(lines@),
            out@ == join_views(ls.take(i as int)),
        decreases lines.len() - i,
    {
        proof {
            reveal_strlit("\n");
        }
        if i > 0 {
            out.append("\n");
        }
        out.append(lines[i].as_str());
        proof {
            assert("\n"@ =~= seq!['\n']);
            let t = ls.take(i + 1);
            assert(t.drop_last() == ls.take(i as int));
            assert(t.last() == lines@[i as int]@);
        }
        i = i + 1;
    }
    proof {
        assert(ls.take(lines@.len() as int) == ls);
    }
    out
}

impl SubRip {
    /// Renders the canonical 4-line-minimum block.
    pub fn render(&self) -> (r: String)
        requires
            self.start.wf(),
            self.end.wf(),
        ensures
            r@ == spec_render_entry(self@),
    {
        proof {
            reveal_strlit("\n");
            reveal_strlit(" --> ");
        }
        let mut out = render_decimal(self.position);
        out.append("\n");
        let st = self.start.render();
        out.append(st.as_str());
        out.append(" --> ");
        let en = self.end.render();
        out.append(en.as_str());
        out.append("\n");
        let tx = join_text(&self.text);
        out.append(tx.as_str());
        proof {
            assert("\n"@ =~= seq!['\n']);
            assert(" --> "@ =~= seq![' ', '-', '-', '>', ' ']);
        }
        out
    }
}

} // verus!

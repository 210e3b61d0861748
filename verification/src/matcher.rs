//! The match-span engine: where a compiled pattern matches inside a text,
//! and the alternation of unmatched and matched segments that a
//! presentation layer needs to highlight the matches.

use vstd::prelude::*;

use vstd::string::StringSliceAdditionalSpecFns;
use vstd::utf8::{
    encode_utf8, encode_utf8_decode_utf8, encode_utf8_valid_utf8, is_char_boundary,
    is_char_boundary_iff_not_is_continuation_byte, is_char_boundary_start_end_of_seq,
    decode_utf8_split, valid_utf8, valid_utf8_split,
};

verus! {

#[verifier::external_type_specification]
#[verifier::external_body]
pub struct ExRegex(regex::Regex);

/// A compiled search pattern. In contracts a pattern is identified by its
/// source text, which fully determines what it matches.
pub struct Pattern {
    re: regex::Regex,
    src: String,
}

impl View for Pattern {
    type V = Seq<char>;

    closed spec fn view(&self) -> Seq<char> {
        self.src@
    }
}

/// Relies on `regex::Regex::new`: `None` when the crate rejects the
/// expression, a matcher compiled from exactly this source otherwise.
#[verifier::external_body]
fn compile(src: &str) -> Option<regex::Regex> {
    regex::Regex::new(src).ok()
}

impl Pattern {
    /// Compiles a pattern; `None` reports a syntax error in the expression.
    pub fn new(src: &str) -> (r: Option<Pattern>)
        ensures
            r matches Some(p) ==> p@ == src@,
    {
        match compile(src) {
            Some(re) => Some(Pattern { re, src: String::from_str(src) }),
            None => None,
        }
    }
}

/// One half-open byte range `[start, end)` into a text: one match.
#[derive(Debug, PartialEq, Eq, Structural, Clone, Copy)]
pub struct MatchSpan {
    pub start: usize,
    pub end: usize,
}

impl View for MatchSpan {
    type V = (int, int);

    open spec fn view(&self) -> (int, int) {
        (self.start as int, self.end as int)
    }
}

pub open spec fn spans_view(v: Seq<MatchSpan>) -> Seq<(int, int)> {
    Seq::new(v.len(), |i: int| v[i]@)
}

pub open spec fn pairs_view(v: Seq<(usize, usize)>) -> Seq<(int, int)> {
    Seq::new(v.len(), |i: int| (v[i].0 as int, v[i].1 as int))
}

/// Spans as a matcher yields them: within the text, ordered, non-overlapping,
/// and cut at character boundaries of its UTF-8 form.
pub open spec fn spans_wf(spans: Seq<(int, int)>, bytes: Seq<u8>) -> bool {
    &&& forall|k: int|
        0 <= k < spans.len() ==> 0 <= (#[trigger] spans[k]).0 <= spans[k].1 <= bytes.len()
    &&& forall|k: int|
        0 <= k < spans.len() ==> is_char_boundary(bytes, (#[trigger] spans[k]).0)
            && is_char_boundary(bytes, spans[k].1)
    &&& forall|k: int| 0 <= k < spans.len() - 1 ==> (#[trigger] spans[k]).1 <= spans[k + 1].0
}

/// The byte spans of the successive leftmost non-overlapping matches of a
/// pattern (given by its source text) in a text, in order.
pub uninterp spec fn regex_match_spans(pattern: Seq<char>, text: Seq<char>) -> Seq<(int, int)>;

/// Relies on `regex::Regex::find_iter`: it yields the successive
/// non-overlapping matches, leftmost first; each match's `start` and `end`
/// are byte offsets into the haystack with `start <= end`, both falling on
/// UTF-8 character boundaries. The result depends on the pattern's source
/// and the haystack alone.
#[verifier::external_body]
fn find_matches(p: &Pattern, text: &str) -> (r: Vec<(usize, usize)>)
    ensures
        pairs_view(r@) == regex_match_spans(p@, text@),
        spans_wf(pairs_view(r@), text.spec_bytes()),
{
    p.re.find_iter(text).map(|m| (m.start(), m.end())).collect()
}

/// Computes the ordered, non-overlapping spans where the pattern matches.
pub fn compute_spans(pattern: &Pattern, text: &str) -> (r: Vec<MatchSpan>)
    ensures
        spans_view(r@) == regex_match_spans(pattern@, text@),
        spans_wf(spans_view(r@), text.spec_bytes()),
{
    let m = find_matches(pattern, text);
    let mut out: Vec<MatchSpan> = Vec::new();
    let mut i: usize = 0;
    while i < m.len()
        invariant
            0 <= i <= m.len(),
            out@.len() == i,
            forall|k: int| 0 <= k < i ==> spans_view(out@)[k] == pairs_view(m@)[k],
        decreases m.len() - i,
    {
        let (s, e) = m[i];
        out.push(MatchSpan { start: s, end: e });
        i = i + 1;
    }
    proof {
        assert(spans_view(out@) =~= pairs_view(m@));
    }
    out
}

/// One segment of a highlighted rendering: a piece of the text, marked
/// matched or unmatched.
#[derive(Debug)]
pub struct Segment {
    pub text: String,
    pub matched: bool,
}

/// The mathematical content of a segment.
pub ghost struct SegView {
    pub text: Seq<char>,
    pub matched: bool,
}

impl View for Segment {
    type V = SegView;

    open spec fn view(&self) -> SegView {
        SegView { text: self.text@, matched: self.matched }
    }
}

pub open spec fn seg_views(v: Seq<Segment>) -> Seq<SegView> {
    Seq::new(v.len(), |i: int| v[i]@)
}

/// All the segments' text, in order.
pub open spec fn concat_seg_text(segs: Seq<SegView>) -> Seq<char>
    decreases segs.len(),
{
    if segs.len() == 0 {
        Seq::empty()
    } else {
        concat_seg_text(segs.drop_last()) + segs.last().text
    }
}

/// Where segment `j` begins in the text's bytes: odd segments are the
/// spans themselves, even segments the gaps around and between them.
pub open spec fn seg_lo(spans: Seq<(int, int)>, j: int) -> int {
    if j % 2 == 1 {
        spans[j / 2].0
    } else if j == 0 {
        0
    } else {
        spans[j / 2 - 1].1
    }
}

/// Where segment `j` ends in the text's bytes.
pub open spec fn seg_hi(spans: Seq<(int, int)>, j: int, total: int) -> int {
    if j % 2 == 1 {
        spans[j / 2].1
    } else if j / 2 < spans.len() {
        spans[j / 2].0
    } else {
        total
    }
}

/// A rendering plan that covers the text exactly once: unmatched and
/// matched segments alternate, starting and ending unmatched (possibly
/// empty); each segment carries exactly its byte range of the text, and
/// together they reconstruct the text with nothing added or dropped.
pub open spec fn highlight_wf(segs: Seq<SegView>, text: Seq<char>, spans: Seq<(int, int)>) -> bool {
    let bytes = encode_utf8(text);
    &&& segs.len() == 2 * spans.len() + 1
    &&& forall|j: int| 0 <= j < segs.len() ==> ((#[trigger] segs[j]).matched <==> j % 2 == 1)
    &&& forall|j: int|
        0 <= j < segs.len() ==> encode_utf8((#[trigger] segs[j]).text) == bytes.subrange(
            seg_lo(spans, j),
            seg_hi(spans, j, bytes.len() as int),
        )
    &&& concat_seg_text(segs) == text
}

/// Splits a text at a character boundary of its UTF-8 form; the two parts
/// carry exactly the two byte ranges, and together the whole text.
fn split_str_at<'a>(s: &'a str, mid: usize) -> (r: (&'a str, &'a str))
    requires
        is_char_boundary(s.spec_bytes(), mid as int),
    ensures
        r.0.spec_bytes() == s.spec_bytes().subrange(0, mid as int),
        r.1.spec_bytes() == s.spec_bytes().subrange(mid as int, s.spec_bytes().len() as int),
        s@ == r.0@ + r.1@,
{
    proof {
        encode_utf8_valid_utf8(s@);
        decode_utf8_split(s.spec_bytes(), mid as int);
        encode_utf8_decode_utf8(s@);
    }
    let r = s.split_at(mid);
    proof {
        encode_utf8_decode_utf8(r.0@);
        encode_utf8_decode_utf8(r.1@);
        assert(s@ == r.0@ + r.1@);
    }
    r
}

/// A character boundary of a text is one of its suffixes, too.
proof fn lemma_boundary_in_suffix(bytes: Seq<u8>, cut: int, x: int)
    requires
        valid_utf8(bytes),
        is_char_boundary(bytes, cut),
        is_char_boundary(bytes, x),
        0 <= cut <= x <= bytes.len(),
    ensures
        is_char_boundary(bytes.subrange(cut, bytes.len() as int), x - cut),
{
    valid_utf8_split(bytes, cut);
    let suf = bytes.subrange(cut, bytes.len() as int);
    if x == bytes.len() {
        is_char_boundary_start_end_of_seq(suf);
    } else if x == cut {
        is_char_boundary_start_end_of_seq(suf);
    } else {
        is_char_boundary_iff_not_is_continuation_byte(bytes, x);
        is_char_boundary_iff_not_is_continuation_byte(suf, x - cut);
        assert(suf[x - cut] == bytes[x]);
    }
}

proof fn lemma_concat_seg_push(segs: Seq<SegView>, s: SegView)
    ensures
        concat_seg_text(segs.push(s)) == concat_seg_text(segs) + s.text,
{
    assert(segs.push(s).drop_last() =~= segs);
    assert(segs.push(s).last() == s);
}

/// Renders the alternating unmatched/matched segments of a text under the
/// given spans. A match touching the start or end of the text leaves an
/// empty unmatched segment there rather than dropping it, so the segments
/// always reconstruct the text exactly.
pub fn render_highlighted(text: &str, spans: &Vec<MatchSpan>) -> (r: Vec<Segment>)
    requires
        spans_wf(spans_view(spans@), text.spec_bytes()),
    ensures
        highlight_wf(seg_views(r@), text@, spans_view(spans@)),
{
    let ghost sv = spans_view(spans@);
    let ghost bytes = text.spec_bytes();
    proof {
        encode_utf8_valid_utf8(text@);
        is_char_boundary_start_end_of_seq(bytes);
    }
    let mut segs: Vec<Segment> = Vec::new();
    let mut rest: &str = text;
    let mut done_to: usize = 0;
    let mut k: usize = 0;
    proof {
        assert(rest.spec_bytes() =~= bytes.subrange(0, bytes.len() as int));
        assert(concat_seg_text(seg_views(segs@)) + rest@ =~= text@);
    }
    while k < spans.len()
        invariant
            sv == spans_view(spans@),
            bytes == text.spec_bytes(),
            spans_wf(sv, bytes),
            valid_utf8(bytes),
            0 <= k <= spans.len(),
            done_to as int == seg_lo(sv, 2 * (k as int)),
            done_to <= bytes.len(),
            is_char_boundary(bytes, done_to as int),
            rest.spec_bytes() == bytes.subrange(done_to as int, bytes.len() as int),
            segs@.len() == 2 * k,
            forall|j: int|
                0 <= j < 2 * k ==> ((#[trigger] seg_views(segs@)[j]).matched <==> j % 2 == 1),
            forall|j: int|
                0 <= j < 2 * k ==> encode_utf8((#[trigger] seg_views(segs@)[j]).text)
                    == bytes.subrange(seg_lo(sv, j), seg_hi(sv, j, bytes.len() as int)),
            concat_seg_text(seg_views(segs@)) + rest@ == text@,
        decreases spans.len() - k,
    {
        let sp = spans[k];
        proof {
            assert(sv[k as int] == (sp.start as int, sp.end as int));
            if k > 0 {
                assert(sv[k - 1].1 <= sv[k as int].0);
            }
            lemma_boundary_in_suffix(bytes, done_to as int, sp.start as int);
        }
        let mid1 = sp.start - done_to;
        let (pre, tail) = split_str_at(rest, mid1);
        proof {
            assert(pre.spec_bytes() =~= bytes.subrange(done_to as int, sp.start as int));
            assert(tail.spec_bytes() =~= bytes.subrange(sp.start as int, bytes.len() as int));
            lemma_boundary_in_suffix(bytes, sp.start as int, sp.end as int);
        }
        let mid2 = sp.end - sp.start;
        let (mat, tail2) = split_str_at(tail, mid2);
        proof {
            assert(mat.spec_bytes() =~= bytes.subrange(sp.start as int, sp.end as int));
            assert(tail2.spec_bytes() =~= bytes.subrange(sp.end as int, bytes.len() as int));
        }
        let ghost old_segs = seg_views(segs@);
        let ghost old_rest = rest@;
        segs.push(Segment { text: String::from_str(pre), matched: false });
        segs.push(Segment { text: String::from_str(mat), matched: true });
        rest = tail2;
        done_to = sp.end;
        k = k + 1;
        proof {
            let pre_v = SegView { text: pre@, matched: false };
            let mat_v = SegView { text: mat@, matched: true };
            assert(seg_views(segs@) =~= old_segs.push(pre_v).push(mat_v));
            lemma_concat_seg_push(old_segs, pre_v);
            lemma_concat_seg_push(old_segs.push(pre_v), mat_v);
            assert(concat_seg_text(seg_views(segs@)) + rest@ =~= concat_seg_text(old_segs)
                + (pre@ + (mat@ + tail2@)));
            assert(old_rest == pre@ + (mat@ + tail2@));
            assert(concat_seg_text(seg_views(segs@)) + rest@ =~= text@);
            assert(encode_utf8(pre_v.text) == bytes.subrange(
                seg_lo(sv, 2 * (k as int) - 2),
                seg_hi(sv, 2 * (k as int) - 2, bytes.len() as int),
            ));
            assert(encode_utf8(mat_v.text) == bytes.subrange(
                seg_lo(sv, 2 * (k as int) - 1),
                seg_hi(sv, 2 * (k as int) - 1, bytes.len() as int),
            ));
            assert(forall|j: int|
                0 <= j < 2 * k - 2 ==> seg_views(segs@)[j] == #[trigger] old_segs[j]);
        }
    }
    let ghost old_segs = seg_views(segs@);
    segs.push(Segment { text: String::from_str(rest), matched: false });
    proof {
        let last_v = SegView { text: rest@, matched: false };
        assert(seg_views(segs@) =~= old_segs.push(last_v));
        lemma_concat_seg_push(old_segs, last_v);
        assert(concat_seg_text(seg_views(segs@)) =~= text@);
        assert(encode_utf8(last_v.text) == rest.spec_bytes());
        assert(seg_lo(sv, 2 * sv.len() as int) == done_to as int);
        assert(seg_hi(sv, 2 * sv.len() as int, bytes.len() as int) == bytes.len() as int);
        assert(forall|j: int| 0 <= j < 2 * sv.len() ==> seg_views(segs@)[j] == #[trigger] old_segs[j]);
        assert(highlight_wf(seg_views(segs@), text@, sv));
    }
    segs
}

} // verus!

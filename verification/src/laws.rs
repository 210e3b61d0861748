//! The laws of the stream grammar: what parsing owes for streams built of
//! well-formed and malformed blocks, and for canonical renderings.

use vstd::prelude::*;

use crate::entry::{entry_wf, join_views, line_wf, spec_render_entry, EntryView};
use crate::error::ErrView;
use crate::lines::{
    first_newline_from, lemma_first_newline_from, split_lines, split_lines_from, strip_cr,
};
use crate::parser::{
    blank, is_timing_line, lemma_next_blank_from, lemma_outcomes_unfold, lemma_skip_blank_from,
    lemma_step_at_bounds, next_blank_from, outcomes_from, skip_blank_from, step_at, timing_end,
    timing_start,
};
use crate::text::{
    all_digits, dec_str, dec_value, is_decimal_token, is_digit, lemma_dec_str_shape,
    lemma_dec_str_value, lemma_digit_char_is_digit,
};
use crate::timecode::{
    is_timecode_token, lemma_timecode_round_trip, spec_render_timecode, timecode_of, Timecode,
};

verus! {

/// The timing line of an entry's canonical rendering.
pub open spec fn timing_line_of(e: EntryView) -> Seq<char> {
    spec_render_timecode(e.start) + seq![' ', '-', '-', '>', ' '] + spec_render_timecode(e.end)
}

/// The lines of an entry's canonical block.
pub open spec fn block_lines(e: EntryView) -> Seq<Seq<char>> {
    seq![dec_str(e.position as nat), timing_line_of(e)] + e.text
}

/// One block of a stream: well-formed with a known entry, or malformed.
pub ghost enum BlockSpec {
    Good(EntryView),
    Bad(Seq<Seq<char>>),
}

/// A malformed block: non-blank lines whose first line is no position
/// line, or which end before a timing line, or whose second line is no
/// timing line.
pub open spec fn bad_block_wf(b: Seq<Seq<char>>) -> bool {
    &&& b.len() >= 1
    &&& forall|i: int| 0 <= i < b.len() ==> !blank(#[trigger] b[i])
    &&& (!is_decimal_token(b[0]) || b.len() == 1 || !is_timing_line(b[1]))
}

pub open spec fn block_wf(bs: BlockSpec) -> bool {
    match bs {
        BlockSpec::Good(e) => entry_wf(e),
        BlockSpec::Bad(b) => bad_block_wf(b),
    }
}

pub open spec fn block_to_lines(bs: BlockSpec) -> Seq<Seq<char>> {
    match bs {
        BlockSpec::Good(e) => block_lines(e),
        BlockSpec::Bad(b) => b,
    }
}

/// A stream: blocks, each followed by one blank separator line.
pub open spec fn stream_lines(blocks: Seq<BlockSpec>) -> Seq<Seq<char>>
    decreases blocks.len(),
{
    if blocks.len() == 0 {
        Seq::empty()
    } else {
        block_to_lines(blocks[0]) + seq![Seq::<char>::empty()] + stream_lines(blocks.drop_first())
    }
}

proof fn lemma_skip_blank_shift(a: Seq<Seq<char>>, b: Seq<Seq<char>>, i: int)
    requires
        0 <= i <= b.len(),
    ensures
        skip_blank_from(a + b, a.len() + i) == a.len() + skip_blank_from(b, i),
    decreases b.len() - i,
{
    assert((a + b).len() == a.len() + b.len());
    if i < b.len() {
        assert((a + b)[a.len() + i] == b[i]);
        if blank(b[i]) {
            lemma_skip_blank_shift(a, b, i + 1);
        }
    }
}

proof fn lemma_next_blank_shift(a: Seq<Seq<char>>, b: Seq<Seq<char>>, i: int)
    requires
        0 <= i <= b.len(),
    ensures
        next_blank_from(a + b, a.len() + i) == a.len() + next_blank_from(b, i),
    decreases b.len() - i,
{
    assert((a + b).len() == a.len() + b.len());
    if i < b.len() {
        assert((a + b)[a.len() + i] == b[i]);
        if !blank(b[i]) {
            lemma_next_blank_shift(a, b, i + 1);
        }
    }
}

/// A step of the machine never looks left of where it stands.
proof fn lemma_step_shift(a: Seq<Seq<char>>, b: Seq<Seq<char>>, i: int)
    requires
        0 <= i <= b.len(),
    ensures
        ({
            let down = step_at(b, i);
            match step_at(a + b, a.len() + i) {
                None => down is None,
                Some((o, j)) => down matches Some((o2, j2)) && o == o2 && j == a.len() + j2,
            }
        }),
{
    let s = a + b;
    assert(s.len() == a.len() + b.len());
    lemma_skip_blank_shift(a, b, i);
    let p = skip_blank_from(b, i);
    lemma_skip_blank_from(b, i);
    if p < b.len() {
        assert(s[a.len() + p] == b[p]);
        if !is_decimal_token(b[p]) {
            lemma_next_blank_shift(a, b, p);
        } else if p + 1 == b.len() {
        } else {
            assert(s[a.len() + p + 1] == b[p + 1]);
            if !is_timing_line(b[p + 1]) {
                lemma_next_blank_shift(a, b, p + 1);
            } else {
                lemma_next_blank_shift(a, b, p + 2);
                let t = next_blank_from(b, p + 2);
                lemma_next_blank_from(b, p + 2);
                assert(s.subrange(a.len() + p + 2, a.len() + t) =~= b.subrange(p + 2, t));
            }
        }
    }
}

proof fn lemma_outcomes_shift(a: Seq<Seq<char>>, b: Seq<Seq<char>>, i: int)
    requires
        0 <= i <= b.len(),
    ensures
        outcomes_from(a + b, a.len() + i) == outcomes_from(b, i),
    decreases b.len() - i,
{
    let s = a + b;
    assert(s.len() == a.len() + b.len());
    lemma_step_shift(a, b, i);
    lemma_step_at_bounds(b, i);
    lemma_outcomes_unfold(b, i);
    lemma_outcomes_unfold(s, a.len() + i);
    match step_at(b, i) {
        None => {
            assert(outcomes_from(s, a.len() + i) =~= outcomes_from(b, i));
        },
        Some((o, j)) => {
            lemma_outcomes_shift(a, b, j);
        },
    }
}

/// Parsing does not see a leading blank line.
proof fn lemma_outcomes_at_blank(lines: Seq<Seq<char>>, i: int)
    requires
        0 <= i < lines.len(),
        blank(lines[i]),
    ensures
        outcomes_from(lines, i) == outcomes_from(lines, i + 1),
{
    assert(skip_blank_from(lines, i) == skip_blank_from(lines, i + 1));
    assert(step_at(lines, i) == step_at(lines, i + 1));
    lemma_outcomes_unfold(lines, i);
    lemma_outcomes_unfold(lines, i + 1);
    match step_at(lines, i) {
        None => {
            assert(outcomes_from(lines, i) =~= outcomes_from(lines, i + 1));
        },
        Some((o, j)) => {
        },
    }
}

proof fn lemma_next_blank_at(lines: Seq<Seq<char>>, i: int, t: int)
    requires
        0 <= i <= t <= lines.len(),
        forall|k: int| i <= k < t ==> !blank(#[trigger] lines[k]),
        t == lines.len() || blank(lines[t]),
    ensures
        next_blank_from(lines, i) == t,
    decreases t - i,
{
    if i < t {
        lemma_next_blank_at(lines, i + 1, t);
    }
}

/// The canonical block of a well-formed entry, at the head of a stream
/// whose continuation is empty or starts blank, parses to that entry and
/// consumes exactly the block.
proof fn lemma_step_good(e: EntryView, rest: Seq<Seq<char>>)
    requires
        entry_wf(e),
        rest.len() == 0 || blank(rest[0]),
    ensures
        step_at(block_lines(e) + rest, 0) == Some(
            (Ok::<EntryView, ErrView>(e), block_lines(e).len() as int),
        ),
{
    let bl = block_lines(e);
    let s = bl + rest;
    let n = bl.len() as int;
    assert(n == 2 + e.text.len());
    lemma_dec_str_shape(e.position as nat);
    lemma_dec_str_value(e.position as nat);
    let dec = dec_str(e.position as nat);
    assert(s[0] == dec);
    assert(!blank(s[0]));
    assert(skip_blank_from(s, 0) == 0);
    assert(is_decimal_token(s[0]));
    let tl = timing_line_of(e);
    assert(s[1] == tl);
    lemma_timecode_round_trip(e.start);
    lemma_timecode_round_trip(e.end);
    assert(spec_render_timecode(e.start).len() == 12);
    assert(tl.len() == 29);
    assert(tl.subrange(0, 12) =~= spec_render_timecode(e.start));
    assert(tl.subrange(17, 29) =~= spec_render_timecode(e.end));
    assert(tl[12] == ' ');
    assert(tl[13] == '-');
    assert(tl[14] == '-');
    assert(tl[15] == '>');
    assert(tl[16] == ' ');
    assert(is_timing_line(s[1]));
    assert(1 < s.len());
    assert forall|k: int| 2 <= k < n implies !blank(#[trigger] s[k]) by {
        assert(s[k] == e.text[k - 2]);
        assert(line_wf(e.text[k - 2]));
    }
    assert(n == s.len() || blank(s[n]));
    lemma_next_blank_at(s, 2, n);
    assert(s.subrange(2, n) =~= e.text);
    assert(timing_start(s[1]) == e.start);
    assert(timing_end(s[1]) == e.end);
    assert(dec_value(s[0]) == e.position);
}

/// A malformed block at the head of such a stream parses to one error and
/// consumes exactly the block: the following block is untouched.
proof fn lemma_step_bad(bl: Seq<Seq<char>>, rest: Seq<Seq<char>>)
    requires
        bad_block_wf(bl),
        rest.len() == 0 || blank(rest[0]),
    ensures
        step_at(bl + rest, 0) matches Some((o, j)) && o is Err && j == bl.len(),
{
    let s = bl + rest;
    let n = bl.len() as int;
    assert(s.len() == bl.len() + rest.len());
    assert(s[0] == bl[0]);
    assert(!blank(s[0]));
    assert(skip_blank_from(s, 0) == 0);
    assert forall|k: int| 0 <= k < n implies !blank(#[trigger] s[k]) by {
        assert(s[k] == bl[k]);
    }
    assert(n == s.len() || blank(s[n]));
    if !is_decimal_token(bl[0]) {
        lemma_next_blank_at(s, 0, n);
    } else if bl.len() == 1 {
        if rest.len() == 0 {
        } else {
            assert(s[1] == rest[0]);
            assert(blank(s[1]));
            assert(!is_timing_line(s[1]));
            lemma_next_blank_at(s, 1, 1);
        }
    } else {
        assert(s[1] == bl[1]);
        assert(!is_timing_line(s[1]));
        lemma_next_blank_at(s, 1, n);
    }
}

/// Law: a stream of blocks, each followed by a blank separator line,
/// parses to exactly one outcome per block, in source order: the entry
/// itself for a well-formed block, an error for a malformed one — an
/// error never swallows a neighbouring block.
pub proof fn lemma_stream_outcomes(blocks: Seq<BlockSpec>)
    requires
        forall|k: int| 0 <= k < blocks.len() ==> block_wf(#[trigger] blocks[k]),
    ensures
        outcomes_from(stream_lines(blocks), 0).len() == blocks.len(),
        forall|k: int|
            0 <= k < blocks.len() ==> match #[trigger] blocks[k] {
                BlockSpec::Good(e) => outcomes_from(stream_lines(blocks), 0)[k] == Ok::<
                    EntryView,
                    ErrView,
                >(e),
                BlockSpec::Bad(_) => outcomes_from(stream_lines(blocks), 0)[k] is Err,
            },
    decreases blocks.len(),
{
    let s = stream_lines(blocks);
    if blocks.len() == 0 {
        assert(skip_blank_from(s, 0) == 0);
        assert(step_at(s, 0) is None);
        lemma_outcomes_unfold(s, 0);
    } else {
        let b0 = blocks[0];
        let bl = block_to_lines(b0);
        let tail = blocks.drop_first();
        let rest = seq![Seq::<char>::empty()] + stream_lines(tail);
        assert(s == bl + rest);
        assert(blank(rest[0]));
        match b0 {
            BlockSpec::Good(e) => {
                lemma_step_good(e, rest);
            },
            BlockSpec::Bad(b) => {
                lemma_step_bad(b, rest);
            },
        }
        let n = bl.len() as int;
        lemma_outcomes_unfold(s, 0);
        assert(s[n] == rest[0]);
        assert(n < s.len());
        lemma_outcomes_at_blank(s, n);
        assert(s =~= (bl + seq![Seq::<char>::empty()]) + stream_lines(tail));
        lemma_outcomes_shift(bl + seq![Seq::<char>::empty()], stream_lines(tail), 0);
        assert(outcomes_from(s, n + 1) == outcomes_from(stream_lines(tail), 0));
        assert forall|k: int| 0 <= k < tail.len() implies block_wf(#[trigger] tail[k]) by {
            assert(tail[k] == blocks[k + 1]);
        }
        lemma_stream_outcomes(tail);
        let os = outcomes_from(s, 0);
        let os_tail = outcomes_from(stream_lines(tail), 0);
        assert(os == seq![step_at(s, 0)->Some_0.0] + os_tail);
        assert(os.len() == blocks.len());
        assert forall|k: int|
            0 <= k < blocks.len() implies match #[trigger] blocks[k] {
            BlockSpec::Good(e) => os[k] == Ok::<EntryView, ErrView>(e),
            BlockSpec::Bad(_) => os[k] is Err,
        } by {
            if k > 0 {
                assert(blocks[k] == tail[k - 1]);
                assert(os[k] == os_tail[k - 1]);
            }
        }
    }
}

/// Law: a stream of N well-formed entries parses to exactly N successes,
/// in source order, each carrying its entry.
pub proof fn lemma_well_formed_stream(entries: Seq<EntryView>)
    requires
        forall|k: int| 0 <= k < entries.len() ==> entry_wf(#[trigger] entries[k]),
    ensures
        ({
            let os = outcomes_from(
                stream_lines(entries.map_values(|e: EntryView| BlockSpec::Good(e))),
                0,
            );
            &&& os.len() == entries.len()
            &&& forall|k: int|
                0 <= k < entries.len() ==> os[k] == Ok::<EntryView, ErrView>(
                    #[trigger] entries[k],
                )
        }),
{
    let blocks = entries.map_values(|e: EntryView| BlockSpec::Good(e));
    assert(blocks.len() == entries.len());
    assert forall|k: int| 0 <= k < blocks.len() implies block_wf(#[trigger] blocks[k]) by {
        assert(blocks[k] == BlockSpec::Good(entries[k]));
    }
    lemma_stream_outcomes(blocks);
    let os = outcomes_from(stream_lines(blocks), 0);
    assert forall|k: int|
        0 <= k < entries.len() implies os[k] == Ok::<EntryView, ErrView>(entries[k]) by {
        assert(blocks[k] == BlockSpec::Good(entries[k]));
    }
}

/// Law: a malformed block between two well-formed ones yields success,
/// error, success — three results, the error contained to its own block.
pub proof fn lemma_error_contained(e1: EntryView, bad: Seq<Seq<char>>, e2: EntryView)
    requires
        entry_wf(e1),
        bad_block_wf(bad),
        entry_wf(e2),
    ensures
        ({
            let os = outcomes_from(
                stream_lines(seq![BlockSpec::Good(e1), BlockSpec::Bad(bad), BlockSpec::Good(e2)]),
                0,
            );
            &&& os.len() == 3
            &&& os[0] == Ok::<EntryView, ErrView>(e1)
            &&& os[1] is Err
            &&& os[2] == Ok::<EntryView, ErrView>(e2)
        }),
{
    let blocks = seq![BlockSpec::Good(e1), BlockSpec::Bad(bad), BlockSpec::Good(e2)];
    lemma_stream_outcomes(blocks);
    assert(blocks[0] == BlockSpec::Good(e1));
    assert(blocks[1] == BlockSpec::Bad(bad));
    assert(blocks[2] == BlockSpec::Good(e2));
}

proof fn lemma_first_newline_at(s: Seq<char>, i: int, t: int)
    requires
        0 <= i <= t <= s.len(),
        forall|k: int| i <= k < t ==> #[trigger] s[k] != '\n',
        t == s.len() || s[t] == '\n',
    ensures
        first_newline_from(s, i) == t,
    decreases t - i,
{
    if i < t {
        lemma_first_newline_at(s, i + 1, t);
    }
}

proof fn lemma_first_newline_shift(a: Seq<char>, b: Seq<char>, i: int)
    requires
        0 <= i <= b.len(),
    ensures
        first_newline_from(a + b, a.len() + i) == a.len() + first_newline_from(b, i),
    decreases b.len() - i,
{
    assert((a + b).len() == a.len() + b.len());
    if i < b.len() {
        assert((a + b)[a.len() + i] == b[i]);
        if b[i] != '\n' {
            lemma_first_newline_shift(a, b, i + 1);
        }
    }
}

proof fn lemma_split_shift(a: Seq<char>, b: Seq<char>, i: int)
    requires
        0 <= i <= b.len(),
    ensures
        split_lines_from(a + b, a.len() + i) == split_lines_from(b, i),
    decreases b.len() - i,
{
    let s = a + b;
    assert(s.len() == a.len() + b.len());
    lemma_first_newline_shift(a, b, i);
    let n = first_newline_from(b, i);
    lemma_first_newline_from(b, i);
    assert(s.subrange(a.len() + i, a.len() + n) =~= b.subrange(i, n));
    if n < b.len() {
        lemma_split_shift(a, b, n + 1);
        assert(split_lines_from(s, a.len() + i) =~= split_lines_from(b, i));
    } else {
        assert(split_lines_from(s, a.len() + i) =~= split_lines_from(b, i));
    }
}

/// Splitting text that begins with a newline-free line cuts that line off.
proof fn lemma_split_head(l: Seq<char>, t: Seq<char>)
    requires
        forall|j: int| 0 <= j < l.len() ==> #[trigger] l[j] != '\n',
    ensures
        split_lines(l + seq!['\n'] + t) == seq![strip_cr(l)] + split_lines(t),
{
    let s = l + seq!['\n'] + t;
    assert(s.len() == l.len() + 1 + t.len());
    assert forall|k: int| 0 <= k < l.len() implies #[trigger] s[k] != '\n' by {
        assert(s[k] == l[k]);
    }
    assert(s[l.len() as int] == '\n');
    lemma_first_newline_at(s, 0, l.len() as int);
    assert(s.subrange(0, l.len() as int) =~= l);
    assert(s =~= (l + seq!['\n']) + t);
    lemma_split_shift(l + seq!['\n'], t, 0);
    assert(split_lines_from(s, l.len() as int + 1) == split_lines(t));
    assert(split_lines(s) =~= seq![strip_cr(l)] + split_lines(t));
}

/// A newline-free text is one line.
proof fn lemma_split_single(l: Seq<char>)
    requires
        forall|j: int| 0 <= j < l.len() ==> #[trigger] l[j] != '\n',
    ensures
        split_lines(l) == seq![strip_cr(l)],
{
    lemma_first_newline_at(l, 0, l.len() as int);
    assert(l.subrange(0, l.len() as int) =~= l);
}

/// Peeling the first line off a join.
proof fn lemma_join_front(ls: Seq<Seq<char>>)
    requires
        ls.len() >= 2,
    ensures
        join_views(ls) == ls[0] + seq!['\n'] + join_views(ls.drop_first()),
    decreases ls.len(),
{
    if ls.len() == 2 {
        assert(ls.drop_last() =~= seq![ls[0]]);
        assert(join_views(seq![ls[0]]) == ls[0]);
        assert(ls.drop_first() =~= seq![ls[1]]);
        assert(join_views(seq![ls[1]]) == ls[1]);
        assert(join_views(ls) =~= ls[0] + seq!['\n'] + join_views(ls.drop_first()));
    } else {
        lemma_join_front(ls.drop_last());
        let head = ls.drop_last();
        let tail = ls.drop_first();
        assert(head.drop_first() =~= tail.drop_last());
        assert(head[0] == ls[0]);
        assert(join_views(ls) == join_views(head) + seq!['\n'] + ls.last());
        assert(join_views(head) == ls[0] + seq!['\n'] + join_views(tail.drop_last()));
        assert(tail.len() >= 2);
        assert(tail.last() == ls.last());
        assert(join_views(tail) == join_views(tail.drop_last()) + seq!['\n'] + ls.last());
        assert(join_views(ls) =~= ls[0] + seq!['\n'] + join_views(tail));
    }
}

/// Joining well-formed lines and splitting the result gives them back.
proof fn lemma_split_join(ls: Seq<Seq<char>>)
    requires
        ls.len() >= 1,
        forall|i: int| 0 <= i < ls.len() ==> line_wf(#[trigger] ls[i]),
    ensures
        split_lines(join_views(ls)) == ls,
    decreases ls.len(),
{
    if ls.len() == 1 {
        assert(line_wf(ls[0]));
        lemma_split_single(ls[0]);
        assert(strip_cr(ls[0]) == ls[0]);
        assert(seq![ls[0]] =~= ls);
    } else {
        lemma_join_front(ls);
        let tail = ls.drop_first();
        assert(line_wf(ls[0]));
        lemma_split_head(ls[0], join_views(tail));
        assert(strip_cr(ls[0]) == ls[0]);
        assert forall|i: int| 0 <= i < tail.len() implies line_wf(#[trigger] tail[i]) by {
            assert(tail[i] == ls[i + 1]);
        }
        lemma_split_join(tail);
        assert(seq![ls[0]] + tail =~= ls);
    }
}

/// No character of a rendered timecode is a newline or carriage return.
proof fn lemma_render_timecode_chars(t: Timecode)
    ensures
        forall|j: int|
            0 <= j < spec_render_timecode(t).len() ==> #[trigger] spec_render_timecode(t)[j]
                != '\n' && spec_render_timecode(t)[j] != '\r',
{
    let s = spec_render_timecode(t);
    lemma_digit_char_is_digit(t.hours as int / 10);
    lemma_digit_char_is_digit(t.hours as int % 10);
    lemma_digit_char_is_digit(t.minutes as int / 10);
    lemma_digit_char_is_digit(t.minutes as int % 10);
    lemma_digit_char_is_digit(t.seconds as int / 10);
    lemma_digit_char_is_digit(t.seconds as int % 10);
    lemma_digit_char_is_digit(t.milliseconds as int / 100);
    lemma_digit_char_is_digit(t.milliseconds as int / 10 % 10);
    lemma_digit_char_is_digit(t.milliseconds as int % 10);
    assert forall|j: int| 0 <= j < s.len() implies #[trigger] s[j] != '\n' && s[j] != '\r' by {
        assert(is_digit(s[j]) || s[j] == ':' || s[j] == ',');
    }
}

/// Law: parsing the canonical rendering of a well-formed entry yields
/// exactly that entry, so parse-then-render is idempotent: whatever
/// padding a source block used, its canonical form re-parses to the same
/// entry and re-renders to itself.
pub proof fn lemma_render_parse(e: EntryView)
    requires
        entry_wf(e),
    ensures
        outcomes_from(split_lines(spec_render_entry(e)), 0) == seq![Ok::<EntryView, ErrView>(e)],
{
    let r = spec_render_entry(e);
    let dec = dec_str(e.position as nat);
    let tl = timing_line_of(e);
    lemma_dec_str_shape(e.position as nat);
    assert forall|j: int| 0 <= j < dec.len() implies #[trigger] dec[j] != '\n' by {
        assert(is_digit(dec[j]));
    }
    assert(is_digit(dec.last()));
    assert(strip_cr(dec) == dec);
    lemma_render_timecode_chars(e.start);
    lemma_render_timecode_chars(e.end);
    assert(spec_render_timecode(e.start).len() == 12);
    assert(tl.len() == 29);
    assert forall|j: int| 0 <= j < tl.len() implies #[trigger] tl[j] != '\n' by {
        if j < 12 {
            assert(tl[j] == spec_render_timecode(e.start)[j]);
        } else if j < 17 {
            assert(tl[j] == seq![' ', '-', '-', '>', ' '][j - 12]);
        } else {
            assert(tl[j] == spec_render_timecode(e.end)[j - 17]);
        }
    }
    assert(tl.last() == spec_render_timecode(e.end)[11]);
    assert(tl.last() != '\r');
    assert(strip_cr(tl) == tl);
    let joined = join_views(e.text);
    assert(r =~= dec + seq!['\n'] + (tl + seq!['\n'] + joined));
    lemma_split_head(dec, tl + seq!['\n'] + joined);
    lemma_split_head(tl, joined);
    assert(split_lines(r) == seq![dec] + (seq![tl] + split_lines(joined)));
    if e.text.len() == 0 {
        assert(joined == Seq::<char>::empty());
        lemma_split_single(joined);
        assert(strip_cr(joined) == joined);
        let s = split_lines(r);
        assert(s =~= block_lines(e) + seq![Seq::<char>::empty()]);
        lemma_step_good(e, seq![Seq::<char>::empty()]);
        lemma_outcomes_unfold(s, 0);
        assert(block_lines(e).len() == 2);
        assert(blank(s[2]));
        lemma_outcomes_at_blank(s, 2);
        assert(skip_blank_from(s, 3) == 3);
        assert(step_at(s, 3) is None);
        lemma_outcomes_unfold(s, 3);
        assert(outcomes_from(s, 0) =~= seq![Ok::<EntryView, ErrView>(e)]);
    } else {
        lemma_split_join(e.text);
        let s = split_lines(r);
        assert(s =~= block_lines(e) + Seq::<Seq<char>>::empty());
        lemma_step_good(e, Seq::empty());
        lemma_outcomes_unfold(s, 0);
        let n = block_lines(e).len() as int;
        assert(n == s.len());
        assert(skip_blank_from(s, n) == n);
        assert(step_at(s, n) is None);
        lemma_outcomes_unfold(s, n);
        assert(outcomes_from(s, 0) =~= seq![Ok::<EntryView, ErrView>(e)]);
    }
}

} // verus!

//! The timecode model: `HH:MM:SS,mmm` with fixed zero-padded field widths.

use vstd::prelude::*;

use crate::error::{ErrView, ParseError};
use crate::text::{digit_char, digit_val, is_digit};

verus! {

/// One instant of a subtitle timeline. The textual form zero-pads hours,
/// minutes and seconds to two digits and milliseconds to three,
/// comma-separated as `HH:MM:SS,mmm`.
#[derive(Debug, PartialEq, Eq, Structural, Clone, Copy)]
pub struct Timecode {
    pub hours: i8,
    pub minutes: i8,
    pub seconds: i8,
    pub milliseconds: i16,
}

impl Timecode {
    /// Fields within the widths that the fixed textual form can carry.
    /// Parsing never rejects a value beyond its digit shape, so ranges run
    /// to the width's limit, not to the conventional 59 or 23.
    pub open spec fn wf(self) -> bool {
        &&& 0 <= self.hours <= 99
        &&& 0 <= self.minutes <= 99
        &&& 0 <= self.seconds <= 99
        &&& 0 <= self.milliseconds <= 999
    }
}

/// The fixed-width textual form of a timecode.
pub open spec fn spec_render_timecode(t: Timecode) -> Seq<char> {
    let h = t.hours as int;
    let m = t.minutes as int;
    let s = t.seconds as int;
    let ms = t.milliseconds as int;
    seq![
        digit_char(h / 10),
        digit_char(h % 10),
        ':',
        digit_char(m / 10),
        digit_char(m % 10),
        ':',
        digit_char(s / 10),
        digit_char(s % 10),
        ',',
        digit_char(ms / 100),
        digit_char(ms / 10 % 10),
        digit_char(ms % 10),
    ]
}

/// Exactly the accepted token shape: two digits, `:`, two digits, `:`,
/// two digits, `,`, three digits.
pub open spec fn is_timecode_token(s: Seq<char>) -> bool {
    &&& s.len() == 12
    &&& is_digit(s[0])
    &&& is_digit(s[1])
    &&& s[2] == ':'
    &&& is_digit(s[3])
    &&& is_digit(s[4])
    &&& s[5] == ':'
    &&& is_digit(s[6])
    &&& is_digit(s[7])
    &&& s[8] == ','
    &&& is_digit(s[9])
    &&& is_digit(s[10])
    &&& is_digit(s[11])
}

/// The timecode a well-shaped token denotes.
pub open spec fn timecode_of(s: Seq<char>) -> Timecode {
    Timecode {
        hours: (digit_val(s[0]) * 10 + digit_val(s[1])) as i8,
        minutes: (digit_val(s[3]) * 10 + digit_val(s[4])) as i8,
        seconds: (digit_val(s[6]) * 10 + digit_val(s[7])) as i8,
        milliseconds: (digit_val(s[9]) * 100 + digit_val(s[10]) * 10 + digit_val(s[11])) as i16,
    }
}

impl Timecode {
    /// Renders the timecode as `HH:MM:SS,mmm`.
    pub fn render(&self) -> (r: String)
        requires
            self.wf(),
        ensures
            r@ == spec_render_timecode(*self),
    {
        proof {
            reveal_strlit(":");
            reveal_strlit(",");
        }
        let h = self.hours as u8;
        let m = self.minutes as u8;
        let s = self.seconds as u8;
        let ms = self.milliseconds as u16;
        let mut out = String::new();
        out.append(crate::text::digit_str(h / 10));
        out.append(crate::text::digit_str(h % 10));
        out.append(":");
        out.append(crate::text::digit_str(m / 10));
        out.append(crate::text::digit_str(m % 10));
        out.append(":");
        out.append(crate::text::digit_str(s / 10));
        out.append(crate::text::digit_str(s % 10));
        out.append(",");
        out.append(crate::text::digit_str((ms / 100) as u8));
        out.append(crate::text::digit_str((ms / 10 % 10) as u8));
        out.append(crate::text::digit_str((ms % 10) as u8));
        assert(out@ =~= spec_render_timecode(*self));
        out
    }

    /// Parses a token of exactly the fixed-width shape; any other shape is a
    /// `MalformedTimecode` error. No range check beyond the digit widths.
    pub fn parse(token: &str) -> (r: Result<Timecode, ParseError>)
        ensures
            is_timecode_token(token@) ==> r == Ok::<Timecode, ParseError>(timecode_of(token@)),
            !is_timecode_token(token@) ==> (r matches Err(e) && e@ == (ErrView::MalformedTimecode {
                token: token@,
            })),
    {
        if token.unicode_len() != 12 {
            return Err(ParseError::MalformedTimecode { token: String::from_str(token) });
        }
        let c0 = token.get_char(0);
        let c1 = token.get_char(1);
        let c2 = token.get_char(2);
        let c3 = token.get_char(3);
        let c4 = token.get_char(4);
        let c5 = token.get_char(5);
        let c6 = token.get_char(6);
        let c7 = token.get_char(7);
        let c8 = token.get_char(8);
        let c9 = token.get_char(9);
        let c10 = token.get_char(10);
        let c11 = token.get_char(11);
        let shape_ok = is_digit_at(c0) && is_digit_at(c1) && c2 == ':' && is_digit_at(c3)
            && is_digit_at(c4) && c5 == ':' && is_digit_at(c6) && is_digit_at(c7) && c8 == ','
            && is_digit_at(c9) && is_digit_at(c10) && is_digit_at(c11);
        if !shape_ok {
            return Err(ParseError::MalformedTimecode { token: String::from_str(token) });
        }
        let hours = (digit_at(c0) * 10 + digit_at(c1)) as i8;
        let minutes = (digit_at(c3) * 10 + digit_at(c4)) as i8;
        let seconds = (digit_at(c6) * 10 + digit_at(c7)) as i8;
        let milliseconds = (digit_at(c9) as i16) * 100 + (digit_at(c10) as i16) * 10 + digit_at(
            c11,
        ) as i16;
        Ok(Timecode { hours, minutes, seconds, milliseconds })
    }
}

fn is_digit_at(c: char) -> (b: bool)
    ensures
        b == is_digit(c),
{
    let u = c as u32;
    48 <= u && u <= 57
}

fn digit_at(c: char) -> (d: u8)
    requires
        is_digit(c),
    ensures
        d == digit_val(c),
        d < 10,
{
    (c as u32 - 48) as u8
}

/// A parsed timecode always satisfies the width bounds.
pub proof fn lemma_timecode_of_wf(s: Seq<char>)
    requires
        is_timecode_token(s),
    ensures
        timecode_of(s).wf(),
{
}

/// Law: rendering a well-formed timecode and parsing the text back yields
/// the timecode itself (round trip).
pub proof fn lemma_timecode_round_trip(t: Timecode)
    requires
        t.wf(),
    ensures
        is_timecode_token(spec_render_timecode(t)),
        timecode_of(spec_render_timecode(t)) == t,
{
    let h = t.hours as int;
    let m = t.minutes as int;
    let s = t.seconds as int;
    let ms = t.milliseconds as int;
    crate::text::lemma_digit_char_val(h / 10);
    crate::text::lemma_digit_char_val(h % 10);
    crate::text::lemma_digit_char_val(m / 10);
    crate::text::lemma_digit_char_val(m % 10);
    crate::text::lemma_digit_char_val(s / 10);
    crate::text::lemma_digit_char_val(s % 10);
    crate::text::lemma_digit_char_val(ms / 100);
    crate::text::lemma_digit_char_val(ms / 10 % 10);
    crate::text::lemma_digit_char_val(ms % 10);
    assert(h / 10 * 10 + h % 10 == h) by (nonlinear_arith);
    assert(m / 10 * 10 + m % 10 == m) by (nonlinear_arith);
    assert(s / 10 * 10 + s % 10 == s) by (nonlinear_arith);
    assert(ms / 100 * 100 + ms / 10 % 10 * 10 + ms % 10 == ms) by (nonlinear_arith)
        requires
            0 <= ms <= 999,
    ;
}

} // verus!

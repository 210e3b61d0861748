//! Grammar errors. Each is scoped to one subtitle block: the parser reports
//! it once and resumes at the next blank line.

use vstd::prelude::*;

verus! {

/// Why one subtitle block failed to parse, with the offending text.
#[derive(Debug, PartialEq)]
pub enum ParseError {
    /// A position line did not read as an unsigned decimal number.
    MalformedPosition { line: String },
    /// A timing line did not read as `timecode --> timecode`. The line is
    /// empty when the stream ended before one appeared.
    MalformedTiming { line: String },
    /// A timecode token did not match the `HH:MM:SS,mmm` digit shape.
    MalformedTimecode { token: String },
}

/// The mathematical content of a `ParseError`.
pub ghost enum ErrView {
    MalformedPosition { line: Seq<char> },
    MalformedTiming { line: Seq<char> },
    MalformedTimecode { token: Seq<char> },
}

impl View for ParseError {
    type V = ErrView;

    open spec fn view(&self) -> ErrView {
        match self {
            ParseError::MalformedPosition { line } => ErrView::MalformedPosition {
                line: line@,
            },
            ParseError::MalformedTiming { line } => ErrView::MalformedTiming { line: line@ },
            ParseError::MalformedTimecode { token } => ErrView::MalformedTimecode {
                token: token@,
            },
        }
    }
}

impl ParseError {
    /// A short human-readable account of the error, with the offending text.
    pub fn describe(&self) -> (r: String)
        ensures
            r@.len() > 0,
    {
        proof {
            reveal_strlit("malformed position line: ");
            reveal_strlit("malformed timing line: ");
            reveal_strlit("malformed timecode: ");
        }
        let mut s = match self {
            ParseError::MalformedPosition { .. } => String::from_str("malformed position line: "),
            ParseError::MalformedTiming { .. } => String::from_str("malformed timing line: "),
            ParseError::MalformedTimecode { .. } => String::from_str("malformed timecode: "),
        };
        match self {
            ParseError::MalformedPosition { line } => s.append(line.as_str()),
            ParseError::MalformedTiming { line } => s.append(line.as_str()),
            ParseError::MalformedTimecode { token } => s.append(token.as_str()),
        }
        s
    }
}

} // verus!

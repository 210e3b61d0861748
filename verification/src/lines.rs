//! Splitting a raw character stream into lines, tolerating LF and CRLF.

use vstd::prelude::*;

use crate::text::views_of;

verus! {

/// The index of the first newline at or after `i`, or the length if none.
pub open spec fn first_newline_from(s: Seq<char>, i: int) -> int
    decreases s.len() - i,
{
    if !(0 <= i < s.len()) {
        s.len() as int
    } else if s[i] == '\n' {
        i
    } else {
        first_newline_from(s, i + 1)
    }
}

pub proof fn lemma_first_newline_from(s: Seq<char>, i: int)
    requires
        0 <= i <= s.len(),
    ensures
        i <= first_newline_from(s, i) <= s.len(),
        first_newline_from(s, i) < s.len() ==> s[first_newline_from(s, i)] == '\n',
        forall|k: int| i <= k < first_newline_from(s, i) ==> #[trigger] s[k] != '\n',
    decreases s.len() - i,
{
    if 0 <= i < s.len() && s[i] != '\n' {
        lemma_first_newline_from(s, i + 1);
    }
}

/// A line with one trailing carriage return removed, so that CRLF line
/// endings read the same as LF.
pub open spec fn strip_cr(l: Seq<char>) -> Seq<char> {
    if l.len() > 0 && l.last() == '\r' {
        l.drop_last()
    } else {
        l
    }
}

/// The lines of the stream from position `i` on: the text is cut at each
/// newline, and each piece loses one trailing carriage return. A stream
/// that does not end in a newline still yields its final piece.
pub open spec fn split_lines_from(s: Seq<char>, i: int) -> Seq<Seq<char>>
    decreases s.len() - i,
{
    if !(0 <= i <= s.len()) {
        Seq::empty()
    } else {
        let n = first_newline_from(s, i);
        if n == s.len() {
            seq![strip_cr(s.subrange(i, n))]
        } else {
            proof {
                lemma_first_newline_from(s, i);
            }
            seq![strip_cr(s.subrange(i, n))] + split_lines_from(s, n + 1)
        }
    }
}

pub open spec fn split_lines(s: Seq<char>) -> Seq<Seq<char>> {
    split_lines_from(s, 0)
}

/// Splits a stream into its lines.
pub fn split_into_lines(s: &str) -> (r: Vec<String>)
    ensures
        views_of(r@) == split_lines(s@),
{
    let n = s.unicode_len();
    let mut out: Vec<String> = Vec::new();
    let mut i: usize = 0;
    let mut done = false;
    while !done
        invariant
            0 <= i <= n,
            n == s@.len(),
            !done ==> views_of(out@) + split_lines_from(s@, i as int) == split_lines(s@),
            done ==> views_of(out@) == split_lines(s@),
        decreases n - i + (if done {
            0int
        } else {
            1int
        }),
    {
        let ghost prev = out@;
        let mut j = i;
        while j < n && s.get_char(j) != '\n'
            invariant
                i <= j <= n,
                n == s@.len(),
                first_newline_from(s@, i as int) == first_newline_from(s@, j as int),
            decreases n - j,
        {
            j = j + 1;
        }
        proof {
            lemma_first_newline_from(s@, j as int);
            assert(first_newline_from(s@, i as int) == j);
        }
        let end = if j > i && s.get_char(j - 1) == '\r' {
            j - 1
        } else {
            j
        };
        proof {
            let piece = s@.subrange(i as int, j as int);
            if j > i && s@[j - 1] == '\r' {
                assert(piece.last() == s@[j - 1]);
                assert(piece.drop_last() =~= s@.subrange(i as int, end as int));
            }
            assert(strip_cr(piece) == s@.subrange(i as int, end as int));
        }
        let line = String::from_str(s.substring_char(i, end));
        out.push(line);
        proof {
            assert(views_of(out@) =~= views_of(prev) + seq![s@.subrange(i as int, end as int)]);
        }
        if j == n {
            done = true;
            proof {
                assert(views_of(out@) =~= split_lines(s@));
            }
        } else {
            i = j + 1;
            proof {
                assert(views_of(out@) + split_lines_from(s@, i as int) =~= split_lines(s@));
            }
        }
    }
    out
}

} // verus!

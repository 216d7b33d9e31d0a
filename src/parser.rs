use vstd::prelude::*;
use crate::splitter::{has_no, NEWLINE};
use crate::value::{parse_value, tenths_of, MAX_ABS_TENTHS};

verus! {

/// The field separator.
pub const SEMICOLON: u8 = 59;

/// Position of the first `b` in `s`, or -1.
pub open spec fn first_index(s: Seq<u8>, b: u8) -> int
    decreases s.len(),
{
    if s.len() == 0 {
        -1
    } else if s[0] == b {
        0
    } else {
        let r = first_index(s.drop_first(), b);
        if r < 0 {
            -1
        } else {
            r + 1
        }
    }
}

pub proof fn lemma_first_index(s: Seq<u8>, b: u8)
    ensures
        -1 <= first_index(s, b) < s.len(),
        first_index(s, b) == -1 <==> has_no(s, b),
        first_index(s, b) >= 0 ==> s[first_index(s, b)] == b && has_no(
            s.take(first_index(s, b)),
            b,
        ),
    decreases s.len(),
{
    if s.len() > 0 {
        let t = s.drop_first();
        lemma_first_index(t, b);
        if s[0] != b {
            assert forall|j: int| 1 <= j < s.len() implies s[j] == t[j - 1] by {}
            if first_index(t, b) >= 0 {
                let k = first_index(t, b);
                assert forall|j: int| 0 <= j < k + 1 implies #[trigger] s.take(k + 1)[j] != b by {
                    if j > 0 {
                        assert(t.take(k)[j - 1] == s[j]);
                    }
                }
            } else {
                assert forall|j: int| 0 <= j < s.len() implies s[j] != b by {
                    if j > 0 {
                        assert(t[j - 1] == s[j]);
                    }
                }
            }
        }
    }
}

/// Relies on memchr::memchr: the position of the first `needle` in
/// `haystack`, or `None` where there is none.
#[verifier::external_body]
fn find_byte(needle: u8, haystack: &[u8]) -> (r: Option<usize>)
    ensures
        r is None <==> has_no(haystack@, needle),
        r is Some ==> {
            &&& r.unwrap() < haystack@.len()
            &&& haystack@[r.unwrap() as int] == needle
            &&& has_no(haystack@.take(r.unwrap() as int), needle)
        },
{
    memchr::memchr(needle, haystack)
}

fn find_first(needle: u8, haystack: &[u8]) -> (r: Option<usize>)
    ensures
        r is None <==> first_index(haystack@, needle) == -1,
        r is Some ==> r.unwrap() == first_index(haystack@, needle),
{
    let r = find_byte(needle, haystack);
    proof {
        lemma_first_index(haystack@, needle);
        if r is Some {
            let i = r.unwrap() as int;
            let k = first_index(haystack@, needle);
            if k < i {
                assert(haystack@.take(i)[k] == needle);
            }
            if i < k {
                assert(haystack@.take(k)[i] == needle);
            }
        }
    }
    r
}

/// What makes a chunk's text malformed.
#[derive(Debug, Clone, Copy, PartialEq, Eq, Structural)]
pub enum ParseError {
    /// Text after the last newline.
    MissingNewline,
    /// A line without `;`.
    MissingSeparator,
    /// A value field that is not a one-decimal number.
    InvalidValue,
}

/// The first record of `s`: where its name ends, where its line ends, and
/// its value; `None` where `s` is empty.
pub open spec fn first_record(s: Seq<u8>) -> Result<Option<(int, int, int)>, ParseError> {
    if s.len() == 0 {
        Ok(None)
    } else {
        let j = first_index(s, NEWLINE);
        if j < 0 {
            Err(ParseError::MissingNewline)
        } else {
            let i = first_index(s.take(j), SEMICOLON);
            if i < 0 {
                Err(ParseError::MissingSeparator)
            } else {
                match tenths_of(s.subrange(i + 1, j)) {
                    Some(v) => Ok(Some((i, j, v))),
                    None => Err(ParseError::InvalidValue),
                }
            }
        }
    }
}

/// The records that `s` holds, in order, each a name and a value in tenths;
/// or the first fault.
pub open spec fn records(s: Seq<u8>) -> Result<Seq<(Seq<u8>, int)>, ParseError>
    decreases s.len(),
{
    match first_record(s) {
        Err(e) => Err(e),
        Ok(None) => Ok(Seq::empty()),
        Ok(Some((i, j, v))) => {
            if 0 <= j < s.len() {
                match records(s.subrange(j + 1, s.len() as int)) {
                    Ok(rest) => Ok(seq![(s.take(i), v)] + rest),
                    Err(e) => Err(e),
                }
            } else {
                Err(ParseError::MissingNewline)
            }
        },
    }
}

/// Reads the first record of `rest`.
pub fn next_record(rest: &[u8]) -> (r: Result<Option<(usize, usize, i64)>, ParseError>)
    ensures
        match first_record(rest@) {
            Err(e) => r == Err::<Option<(usize, usize, i64)>, ParseError>(e),
            Ok(None) => r == Ok::<Option<(usize, usize, i64)>, ParseError>(None),
            Ok(Some((i, j, v))) => r is Ok && r.unwrap() is Some && {
                let (ri, rj, rv) = r.unwrap().unwrap();
                &&& ri as int == i
                &&& rj as int == j
                &&& rv as int == v
            },
        },
        r is Ok && r.unwrap() is Some ==> {
            let (ri, rj, rv) = r.unwrap().unwrap();
            &&& ri < rj < rest@.len()
            &&& -MAX_ABS_TENTHS <= rv <= MAX_ABS_TENTHS
        },
{
    if rest.len() == 0 {
        return Ok(None);
    }
    let j = match find_first(NEWLINE, rest) {
        Some(j) => j,
        None => return Err(ParseError::MissingNewline),
    };
    proof {
        lemma_first_index(rest@, NEWLINE);
    }
    let line = vstd::slice::slice_subrange(rest, 0, j);
    assert(line@ =~= rest@.take(j as int));
    let i = match find_first(SEMICOLON, line) {
        Some(i) => i,
        None => return Err(ParseError::MissingSeparator),
    };
    proof {
        lemma_first_index(line@, SEMICOLON);
    }
    let field = vstd::slice::slice_subrange(rest, i + 1, j);
    match parse_value(field) {
        Some(v) => Ok(Some((i, j, v))),
        None => Err(ParseError::InvalidValue),
    }
}

} // verus!

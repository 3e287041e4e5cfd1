use vstd::prelude::*;
use vstd::string::*;

use crate::dice::Dice;
use crate::dice_roll::DiceRoll;
use crate::error::ParserError;
use crate::grammar::{groups_from, groups_view, parse_groups};

verus! {

/// The input with every space character removed; other whitespace stays.
pub open spec fn strip_spaces(s: Seq<char>) -> Seq<char>
    decreases s.len(),
{
    if s.len() == 0 {
        seq![]
    } else if s.last() == ' ' {
        strip_spaces(s.drop_last())
    } else {
        strip_spaces(s.drop_last()).push(s.last())
    }
}

/// A character of the Unicode `White_Space` property.
pub open spec fn is_white(c: char) -> bool {
    ||| '\u{9}' <= c && c <= '\u{d}'
    ||| c == ' '
    ||| c == '\u{85}'
    ||| c == '\u{a0}'
    ||| c == '\u{1680}'
    ||| '\u{2000}' <= c && c <= '\u{200a}'
    ||| c == '\u{2028}'
    ||| c == '\u{2029}'
    ||| c == '\u{202f}'
    ||| c == '\u{205f}'
    ||| c == '\u{3000}'
}

/// Nothing but whitespace stands in `s` from `from` on.
pub open spec fn rest_is_white(s: Seq<char>, from: int) -> bool {
    forall|i: int| from <= i < s.len() ==> is_white(#[trigger] s[i])
}

/// The groups of a command whose spaces are already removed: the whole
/// command must be a comma-separated list of groups, up to trailing whitespace.
pub open spec fn parse_spec(s: Seq<char>) -> Option<Seq<Seq<(Dice, nat)>>> {
    match groups_from(s, 0) {
        Some((gs, e)) => if rest_is_white(s, e) { Some(gs) } else { None },
        None => None,
    }
}

/// Where reading a command whose spaces are already removed stopped.
pub open spec fn stop_position(s: Seq<char>) -> int {
    match groups_from(s, 0) {
        Some((_, e)) => e,
        None => 0,
    }
}

/// The text that opens the message of a rejected command.
pub open spec fn error_prefix() -> Seq<char> {
    "Expected remaining input to be empty, found: "@
}

/// Tests for a character of the Unicode `White_Space` property.
fn is_white_char(c: char) -> (b: bool)
    ensures
        b == is_white(c),
{
    ('\u{9}' <= c && c <= '\u{d}') || c == ' ' || c == '\u{85}' || c == '\u{a0}' || c == '\u{1680}'
        || ('\u{2000}' <= c && c <= '\u{200a}') || c == '\u{2028}' || c == '\u{2029}' || c
        == '\u{202f}' || c == '\u{205f}' || c == '\u{3000}'
}

/// Relies on String::push: appends one character at the end of the string.
#[verifier::external_body]
fn push_char(s: &mut String, c: char)
    ensures
        final(s)@ == old(s)@.push(c),
{
    s.push(c);
}

/// The characters of `i`, without its spaces.
fn without_spaces(i: &str) -> (r: Vec<char>)
    ensures
        r@ == strip_spaces(i@),
{
    let n = i.unicode_len();
    let mut out: Vec<char> = Vec::new();
    let mut k: usize = 0;
    while k < n
        invariant
            k <= n,
            n == i@.len(),
            out@ == strip_spaces(i@.take(k as int)),
        decreases n - k,
    {
        let c = i.get_char(k);
        proof {
            assert(i@.take(k as int + 1).drop_last() =~= i@.take(k as int));
        }
        if c != ' ' {
            out.push(c);
        }
        k = k + 1;
    }
    proof {
        assert(i@.take(n as int) =~= i@);
    }
    out
}

/// Parses a dice command such as `2rkyyg, ppb` into its groups of rolls.
///
/// Spaces are removed first. The rest must be a comma-separated list of
/// groups, each one roll or more (an optional count, then an alias), tallied
/// into one roll per kind in order of first occurrence; trailing whitespace
/// is allowed. Anything else is a `ParseError` whose message ends with the
/// input left unread.
pub fn parse_line(i: &str) -> (r: Result<Vec<Vec<DiceRoll>>, ParserError>)
    ensures
        match parse_spec(strip_spaces(i@)) {
            Some(gs) => r matches Ok(v) && groups_view(v@) == gs,
            None => r matches Err(ParserError::ParseError(m)) && m@ == error_prefix()
                + strip_spaces(i@).subrange(stop_position(strip_spaces(i@)), strip_spaces(i@).len() as int),
        },
{
    let s = without_spaces(i);
    let len = s.len();
    let (groups, stop) = match parse_groups(s.as_slice(), 0) {
        Some((groups, e)) => (Some(groups), e),
        None => (None, 0),
    };
    let mut k: usize = stop;
    while k < len && is_white_char(s[k])
        invariant
            stop <= k <= len,
            len == s@.len(),
            forall|t: int| stop <= t < k ==> is_white(#[trigger] s@[t]),
        decreases len - k,
    {
        k = k + 1;
    }
    if k == len {
        if let Some(groups) = groups {
            return Ok(groups);
        }
    }
    let mut message = String::from_str("Expected remaining input to be empty, found: ");
    let mut j: usize = stop;
    while j < len
        invariant
            stop <= j <= len,
            len == s@.len(),
            message@ == error_prefix() + s@.subrange(stop as int, j as int),
        decreases len - j,
    {
        proof {
            assert(s@.subrange(stop as int, j as int + 1) =~= s@.subrange(stop as int, j as int).push(s@[j as int]));
        }
        push_char(&mut message, s[j]);
        j = j + 1;
    }
    Err(ParserError::ParseError(message))
}

} // verus!

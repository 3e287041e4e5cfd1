use vstd::prelude::*;

use crate::alias::{alias_at, alias_table, char_matches, lemma_aliases_nonempty, resolve_from};
use crate::grammar::{
    digit_end, lemma_rolls_end_bounds, group_at, groups_after, groups_from, is_digit, roll_at, rolls_end, rolls_from,
};
use crate::line::{is_white, parse_spec, strip_spaces};

verus! {

/// The character is, ignoring ASCII case, a letter of some alias.
pub open spec fn alias_char(c: char) -> bool {
    exists|k: int, j: int|
        0 <= k < alias_table().len() && 0 <= j < alias_table()[k].0.len() && char_matches(
            c,
            #[trigger] alias_table()[k].0[j],
        )
}

/// The character can stand inside a command: a digit, a comma, or a letter of an alias.
pub open spec fn readable(c: char) -> bool {
    is_digit(c) || c == ',' || alias_char(c)
}

/// Every character of `s[from..to]` can stand inside a command.
pub open spec fn all_readable(s: Seq<char>, from: int, to: int) -> bool {
    forall|t: int| from <= t < to ==> readable(#[trigger] s[t])
}

proof fn lemma_resolve_reads(s: Seq<char>, pos: int, k: int)
    requires
        resolve_from(s, pos, k) is Some,
    ensures
        all_readable(s, pos, resolve_from(s, pos, k)->Some_0.1),
    decreases alias_table().len() - k,
{
    if 0 <= k < alias_table().len() {
        let a = alias_table()[k].0;
        if alias_at(s, pos, a) {
            assert forall|t: int| pos <= t < pos + a.len() implies readable(#[trigger] s[t]) by {
                assert(char_matches(s[pos + (t - pos)], a[t - pos]));
            }
        } else {
            lemma_resolve_reads(s, pos, k + 1);
        }
    }
}

proof fn lemma_digits_read(s: Seq<char>, pos: int)
    ensures
        all_readable(s, pos, digit_end(s, pos)),
    decreases s.len() - pos,
{
    if 0 <= pos < s.len() && is_digit(s[pos]) {
        lemma_digits_read(s, pos + 1);
    }
}

proof fn lemma_rolls_read(s: Seq<char>, pos: int)
    ensures
        all_readable(s, pos, rolls_end(s, pos)),
    decreases s.len() - pos,
{
    if let Some((_, _, e)) = roll_at(s, pos) {
        if pos < e <= s.len() {
            lemma_digits_read(s, pos);
            lemma_resolve_reads(s, digit_end(s, pos), 0);
            lemma_rolls_read(s, e);
        }
    }
}

proof fn lemma_groups_after_read(s: Seq<char>, e: int)
    ensures
        all_readable(s, e, groups_after(s, e).1),
    decreases s.len() - e,
{
    if 0 <= e < s.len() && s[e] == ',' {
        if let Some((_, e2)) = group_at(s, e + 1) {
            if e < e2 <= s.len() {
                lemma_rolls_read(s, e + 1);
                lemma_groups_after_read(s, e2);
            }
        }
    }
}

/// A character that is no digit, no comma, no whitespace and no letter of
/// any alias can never be part of a command: any text holding one is rejected.
pub proof fn lemma_unreadable_char_rejects(s: Seq<char>, i: int)
    requires
        0 <= i < s.len(),
        !readable(s[i]),
        !is_white(s[i]),
    ensures
        parse_spec(s) is None,
{
    if let Some((gs, end)) = groups_from(s, 0) {
        if let Some((_, e)) = group_at(s, 0) {
            lemma_rolls_read(s, 0);
            lemma_groups_after_read(s, e);
            if i < end {
                assert(readable(s[i]));
            }
        }
    }
}

/// Removing spaces keeps every other character of a command.
pub proof fn lemma_strip_spaces_keeps_char(s: Seq<char>, i: int)
    requires
        0 <= i < s.len(),
        s[i] != ' ',
    ensures
        exists|j: int| 0 <= j < strip_spaces(s).len() && #[trigger] strip_spaces(s)[j] == s[i],
    decreases s.len(),
{
    if i < s.len() - 1 {
        lemma_strip_spaces_keeps_char(s.drop_last(), i);
        let j = choose|j: int| 0 <= j < strip_spaces(s.drop_last()).len() && #[trigger] strip_spaces(
            s.drop_last(),
        )[j] == s.drop_last()[i];
        assert(strip_spaces(s)[j] == s[i]);
    } else {
        let r = strip_spaces(s);
        assert(r[r.len() - 1] == s[i]);
    }
}

/// A command line holding a character that is no space or other whitespace,
/// no digit, no comma and no letter of any alias is rejected.
pub proof fn lemma_line_with_unreadable_char_rejected(line: Seq<char>, i: int)
    requires
        0 <= i < line.len(),
        !readable(line[i]),
        !is_white(line[i]),
    ensures
        parse_spec(strip_spaces(line)) is None,
{
    lemma_strip_spaces_keeps_char(line, i);
    let s = strip_spaces(line);
    let j = choose|j: int| 0 <= j < s.len() && #[trigger] s[j] == line[i];
    lemma_unreadable_char_rejects(s, j);
}

proof fn lemma_resolve_ends_with_letter(s: Seq<char>, pos: int, k: int)
    requires
        resolve_from(s, pos, k) is Some,
    ensures
        s[resolve_from(s, pos, k)->Some_0.1 - 1] != ',',
    decreases alias_table().len() - k,
{
    crate::alias::lemma_resolve_advances(s, pos, k);
    if 0 <= k < alias_table().len() {
        let a = alias_table()[k].0;
        if alias_at(s, pos, a) {
            lemma_aliases_nonempty();
            let j = a.len() - 1;
            assert(char_matches(s[pos + j], a[j]));
        } else {
            lemma_resolve_ends_with_letter(s, pos, k + 1);
        }
    }
}

proof fn lemma_rolls_end_with_letter(s: Seq<char>, pos: int)
    requires
        0 <= pos <= s.len(),
        rolls_from(s, pos).len() > 0,
    ensures
        s[rolls_end(s, pos) - 1] != ',',
    decreases s.len() - pos,
{
    if let Some((_, _, e)) = roll_at(s, pos) {
        if pos < e <= s.len() {
            if rolls_from(s, e).len() > 0 {
                lemma_rolls_end_with_letter(s, e);
            } else {
                assert(rolls_end(s, e) == e);
                lemma_resolve_ends_with_letter(s, digit_end(s, pos), 0);
            }
        }
    }
}

proof fn lemma_groups_after_end(s: Seq<char>, e: int)
    requires
        0 < e <= s.len(),
        s[e - 1] != ',',
    ensures
        0 < groups_after(s, e).1 <= s.len(),
        s[groups_after(s, e).1 - 1] != ',',
    decreases s.len() - e,
{
    if e < s.len() && s[e] == ',' {
        if let Some((_, e2)) = group_at(s, e + 1) {
            if e < e2 <= s.len() {
                lemma_rolls_end_with_letter(s, e + 1);
                lemma_groups_after_end(s, e2);
            }
        }
    }
}

/// A command whose last character, once spaces are removed, is a comma is
/// rejected: the list of groups never ends on a comma, and a comma is no
/// whitespace that could trail it.
pub proof fn lemma_trailing_comma_rejected(s: Seq<char>)
    requires
        s.len() > 0,
        s.last() == ',',
    ensures
        parse_spec(s) is None,
{
    if let Some((_, e)) = group_at(s, 0) {
        lemma_rolls_end_bounds(s, 0);
        lemma_rolls_end_with_letter(s, 0);
        lemma_groups_after_end(s, e);
        let end = groups_after(s, e).1;
        if end < s.len() {
            assert(!is_white(s[s.len() - 1]));
        }
    }
}

} // verus!

use vstd::prelude::*;

use crate::aggregate::{aggregate, aggregate_rolls, counts_fit};
use crate::alias::{parse_dice_as_value, resolve};
use crate::dice::Dice;
use crate::dice_roll::{roll_view, rolls_view, DiceRoll};

verus! {

/// An ASCII decimal digit.
pub open spec fn is_digit(c: char) -> bool {
    '0' <= c && c <= '9'
}

/// The position after the run of digits that starts at `pos`.
pub open spec fn digit_end(s: Seq<char>, pos: int) -> int
    decreases s.len() - pos,
{
    if 0 <= pos < s.len() && is_digit(s[pos]) {
        digit_end(s, pos + 1)
    } else {
        pos
    }
}

/// The number written in decimal by the digits `s[from..to]`.
pub open spec fn digits_value(s: Seq<char>, from: int, to: int) -> nat
    decreases to - from,
{
    if from < to {
        digits_value(s, from, to - 1) * 10 + (s[to - 1] as u32 - '0' as u32) as nat
    } else {
        0
    }
}

/// One roll at `pos`: an optional count (1 when absent) and an alias.
/// Gives the kind, the count and the position after the alias; nothing when
/// no alias follows the digits, or when the count does not fit in a `u32`.
pub open spec fn roll_at(s: Seq<char>, pos: int) -> Option<(Dice, nat, int)> {
    let e = digit_end(s, pos);
    let count = if e == pos { 1 } else { digits_value(s, pos, e) };
    match resolve(s, e) {
        Some((d, end)) => if count <= u32::MAX { Some((d, count, end)) } else { None },
        None => None,
    }
}

/// The rolls that follow one another from `pos` on, up to the first place where none can be read.
pub open spec fn rolls_from(s: Seq<char>, pos: int) -> Seq<(Dice, nat)>
    decreases s.len() - pos,
{
    match roll_at(s, pos) {
        Some((d, c, e)) => if pos < e <= s.len() { seq![(d, c)] + rolls_from(s, e) } else { seq![] },
        None => seq![],
    }
}

/// The position where the rolls read from `pos` on stop.
pub open spec fn rolls_end(s: Seq<char>, pos: int) -> int
    decreases s.len() - pos,
{
    match roll_at(s, pos) {
        Some((_, _, e)) => if pos < e <= s.len() { rolls_end(s, e) } else { pos },
        None => pos,
    }
}

/// The group at `pos`: at least one roll, tallied per kind, with every total
/// fitting in a `u32`. Gives the tally and the position after the group.
pub open spec fn group_at(s: Seq<char>, pos: int) -> Option<(Seq<(Dice, nat)>, int)> {
    let rolls = rolls_from(s, pos);
    if rolls.len() > 0 && counts_fit(aggregate(rolls)) {
        Some((aggregate(rolls), rolls_end(s, pos)))
    } else {
        None
    }
}

/// After a group that ends at `e`: the groups that follow, each after a comma,
/// and the position where the list stops. A comma not followed by a group is
/// left unread.
pub open spec fn groups_after(s: Seq<char>, e: int) -> (Seq<Seq<(Dice, nat)>>, int)
    decreases s.len() - e,
{
    if 0 <= e < s.len() && s[e] == ',' {
        match group_at(s, e + 1) {
            Some((g, e2)) => if e < e2 <= s.len() {
                (seq![g] + groups_after(s, e2).0, groups_after(s, e2).1)
            } else {
                (seq![], e)
            },
            None => (seq![], e),
        }
    } else {
        (seq![], e)
    }
}

/// The comma-separated groups from `pos` on, and the position where they stop;
/// nothing when not even one group can be read.
pub open spec fn groups_from(s: Seq<char>, pos: int) -> Option<(Seq<Seq<(Dice, nat)>>, int)> {
    match group_at(s, pos) {
        Some((g, e)) => Some((seq![g] + groups_after(s, e).0, groups_after(s, e).1)),
        None => None,
    }
}

/// The mathematical reading of a list of groups.
pub open spec fn groups_view(gs: Seq<Vec<DiceRoll>>) -> Seq<Seq<(Dice, nat)>> {
    gs.map_values(|g: Vec<DiceRoll>| rolls_view(g@))
}

pub proof fn lemma_rolls_end_bounds(s: Seq<char>, pos: int)
    requires
        0 <= pos <= s.len(),
    ensures
        pos <= rolls_end(s, pos) <= s.len(),
        rolls_from(s, pos).len() > 0 ==> pos < rolls_end(s, pos),
    decreases s.len() - pos,
{
    if let Some((_, _, e)) = roll_at(s, pos) {
        if pos < e <= s.len() {
            lemma_rolls_end_bounds(s, e);
        }
    }
}

/// The number written by the digits `s[from..to]`, or `None` when it does not fit in a `u32`.
fn read_count(s: &[char], from: usize, to: usize) -> (r: Option<u32>)
    requires
        from <= to <= s@.len(),
        forall|t: int| from <= t < to ==> is_digit(#[trigger] s@[t]),
    ensures
        match r {
            Some(v) => v == digits_value(s@, from as int, to as int),
            None => digits_value(s@, from as int, to as int) > u32::MAX,
        },
{
    let mut value: u32 = 0;
    let mut i: usize = from;
    while i < to
        invariant
            from <= i <= to,
            to <= s@.len(),
            forall|t: int| from <= t < to ==> is_digit(#[trigger] s@[t]),
            value == digits_value(s@, from as int, i as int),
        decreases to - i,
    {
        assert(is_digit(s@[i as int]));
        let digit = (s[i] as u32) - ('0' as u32);
        let wide: u64 = (value as u64) * 10 + (digit as u64);
        assert(digits_value(s@, from as int, i as int + 1) == wide);
        if wide > u32::MAX as u64 {
            proof {
                lemma_digits_value_grows(s@, from as int, i as int + 1, to as int);
            }
            return None;
        }
        value = wide as u32;
        i = i + 1;
    }
    Some(value)
}

/// Reads one roll at `pos`: an optional decimal count, 1 when absent, then an
/// alias. Returns the roll and the position after it, or `None` when no alias
/// follows the digits or the count does not fit in a `u32`.
pub fn parse_dice(s: &[char], pos: usize) -> (r: Option<(DiceRoll, usize)>)
    requires
        pos <= s@.len(),
    ensures
        match roll_at(s@, pos as int) {
            Some((d, c, e)) => pos < e <= s@.len() && r == Some(
                (DiceRoll { die: d, number_of_dice_to_roll: c as u32 }, e as usize),
            ),
            None => r is None,
        },
{
    let len = s.len();
    let mut e: usize = pos;
    while e < len && '0' <= s[e] && s[e] <= '9'
        invariant
            pos <= e <= len,
            len == s@.len(),
            digit_end(s@, pos as int) == digit_end(s@, e as int),
            forall|t: int| pos <= t < e ==> is_digit(#[trigger] s@[t]),
        decreases len - e,
    {
        e = e + 1;
    }
    let found = parse_dice_as_value(s, e);
    match found {
        None => None,
        Some((die, end)) => {
            let mut count: u32 = 1;
            if e > pos {
                match read_count(s, pos, e) {
                    Some(value) => {
                        count = value;
                    },
                    None => {
                        return None;
                    },
                }
            }
            Some((DiceRoll::new(die, count), end))
        },
    }
}

proof fn lemma_digits_value_grows(s: Seq<char>, from: int, mid: int, to: int)
    requires
        from <= mid <= to,
        forall|t: int| from <= t < to ==> is_digit(#[trigger] s[t]),
    ensures
        digits_value(s, from, mid) <= digits_value(s, from, to),
    decreases to - mid,
{
    if mid < to {
        lemma_digits_value_grows(s, from, mid, to - 1);
        assert(is_digit(s[to - 1]));
    }
}

/// Reads one group at `pos`: one roll or more, tallied into one roll per kind
/// in order of first occurrence. Returns the group and the position after it,
/// or `None` when no roll can be read there or a total does not fit in a `u32`.
pub fn parse_group(s: &[char], pos: usize) -> (r: Option<(Vec<DiceRoll>, usize)>)
    requires
        pos <= s@.len(),
    ensures
        match group_at(s@, pos as int) {
            Some((g, e)) => r matches Some((v, end)) && rolls_view(v@) == g && end == e,
            None => r is None,
        },
{
    let len = s.len();
    let mut rolls: Vec<DiceRoll> = Vec::new();
    let mut cur: usize = pos;
    loop
        invariant
            pos <= cur <= len,
            len == s@.len(),
            rolls_from(s@, pos as int) == rolls_view(rolls@) + rolls_from(s@, cur as int),
            rolls_end(s@, pos as int) == rolls_end(s@, cur as int),
        ensures
            pos <= cur <= len,
            rolls_from(s@, pos as int) == rolls_view(rolls@),
            rolls_end(s@, pos as int) == cur,
        decreases len - cur,
    {
        match parse_dice(s, cur) {
            Some((roll, e)) => {
                proof {
                    assert(rolls_view(rolls@.push(roll)) =~= rolls_view(rolls@).push(roll_view(roll)));
                    assert(rolls_view(rolls@) + rolls_from(s@, cur as int) =~= rolls_view(
                        rolls@,
                    ).push(roll_view(roll)) + rolls_from(s@, e as int));
                }
                rolls.push(roll);
                cur = e;
            },
            None => {
                proof {
                    assert(rolls_from(s@, cur as int) =~= seq![]);
                    assert(rolls_end(s@, cur as int) == cur);
                    assert(rolls_view(rolls@) + rolls_from(s@, cur as int) =~= rolls_view(rolls@));
                }
                break;
            },
        }
    }
    if rolls.len() == 0 {
        return None;
    }
    match aggregate_rolls(&rolls) {
        Some(group) => Some((group, cur)),
        None => None,
    }
}

/// Reads comma-separated groups from `pos` on. Returns them in input order
/// with the position where the list stops (a comma not followed by a group is
/// left unread), or `None` when not even one group can be read at `pos`.
pub fn parse_groups(s: &[char], pos: usize) -> (r: Option<(Vec<Vec<DiceRoll>>, usize)>)
    requires
        pos <= s@.len(),
    ensures
        match groups_from(s@, pos as int) {
            Some((gs, e)) => r matches Some((v, end)) && groups_view(v@) == gs && end == e,
            None => r is None,
        },
        r matches Some((_, end)) ==> pos <= end <= s@.len(),
{
    let len = s.len();
    match parse_group(s, pos) {
        None => None,
        Some((first, e)) => {
            proof {
                lemma_rolls_end_bounds(s@, pos as int);
            }
            let mut groups: Vec<Vec<DiceRoll>> = Vec::new();
            groups.push(first);
            let mut cur: usize = e;
            loop
                invariant
                    pos <= cur <= len,
                    len == s@.len(),
                    groups_from(s@, pos as int) == Some(
                        (
                            groups_view(groups@) + groups_after(s@, cur as int).0,
                            groups_after(s@, cur as int).1,
                        ),
                    ),
                ensures
                    groups_from(s@, pos as int) == Some((groups_view(groups@), cur as int)),
                decreases len - cur,
            {
                if cur < len && s[cur] == ',' {
                    match parse_group(s, cur + 1) {
                        Some((next, e2)) => {
                            proof {
                                lemma_rolls_end_bounds(s@, cur as int + 1);
                                let g = rolls_view(next@);
                                assert(groups_view(groups@.push(next)) =~= groups_view(groups@).push(g));
                                assert(groups_view(groups@) + groups_after(s@, cur as int).0
                                    =~= groups_view(groups@).push(g) + groups_after(s@, e2 as int).0);
                            }
                            groups.push(next);
                            cur = e2;
                        },
                        None => {
                            proof {
                                assert(groups_view(groups@) + groups_after(s@, cur as int).0
                                    =~= groups_view(groups@));
                            }
                            break;
                        },
                    }
                } else {
                    proof {
                        assert(groups_view(groups@) + groups_after(s@, cur as int).0 =~= groups_view(groups@));
                    }
                    break;
                }
            }
            Some((groups, cur))
        },
    }
}

} // verus!

use vstd::prelude::*;
use vstd::string::*;

use crate::dice::Dice;

verus! {

/// The aliases of each kind of die, in the order in which they are tried.
/// The first alias that matches wins, so the order is part of the grammar.
pub open spec fn alias_table() -> Seq<(Seq<char>, Dice)> {
    seq![
        ("green"@, Dice::Ability),
        ("g"@, Dice::Ability),
        ("ability"@, Dice::Ability),
        ("abil"@, Dice::Ability),
        ("challenge"@, Dice::Challenge),
        ("cha"@, Dice::Challenge),
        ("red"@, Dice::Challenge),
        ("r"@, Dice::Challenge),
        ("proficiency"@, Dice::Proficiency),
        ("prof"@, Dice::Proficiency),
        ("yellow"@, Dice::Proficiency),
        ("y"@, Dice::Proficiency),
        ("difficulty"@, Dice::Difficulty),
        ("purple"@, Dice::Difficulty),
        ("p"@, Dice::Difficulty),
        ("diff"@, Dice::Difficulty),
        ("dif"@, Dice::Difficulty),
        ("black"@, Dice::Setback),
        ("k"@, Dice::Setback),
        ("setback"@, Dice::Setback),
        ("s"@, Dice::Setback),
        ("force"@, Dice::Force),
        ("white"@, Dice::Force),
        ("w"@, Dice::Force),
        ("blue"@, Dice::Boost),
        ("boost"@, Dice::Boost),
        ("b"@, Dice::Boost),
    ]
}

/// Number of entries of the alias table.
pub const ALIAS_COUNT: usize = 27;

/// The input character `c` equals the lower-case alias character `a`, ignoring ASCII case.
pub open spec fn char_matches(c: char, a: char) -> bool {
    c == a || ('A' <= c && c <= 'Z' && c as u32 + 32 == a as u32)
}

/// The alias `a` occurs, ignoring case, in `s` at position `pos`.
pub open spec fn alias_at(s: Seq<char>, pos: int, a: Seq<char>) -> bool {
    &&& 0 <= pos
    &&& pos + a.len() <= s.len()
    &&& forall|j: int| 0 <= j < a.len() ==> char_matches(s[pos + j], #[trigger] a[j])
}

/// The first alias of the table, from entry `k` on, that occurs at `pos`:
/// its kind and the position just after it.
pub open spec fn resolve_from(s: Seq<char>, pos: int, k: int) -> Option<(Dice, int)>
    decreases alias_table().len() - k,
{
    if 0 <= k < alias_table().len() {
        if alias_at(s, pos, alias_table()[k].0) {
            Some((alias_table()[k].1, pos + alias_table()[k].0.len()))
        } else {
            resolve_from(s, pos, k + 1)
        }
    } else {
        None
    }
}

/// The kind of die named at `pos`, and the position after its alias.
pub open spec fn resolve(s: Seq<char>, pos: int) -> Option<(Dice, int)> {
    resolve_from(s, pos, 0)
}

/// Every alias holds at least one character, and only lower-case ASCII letters.
#[verifier::rlimit(50)]
pub proof fn lemma_aliases_nonempty()
    ensures
        alias_table().len() == ALIAS_COUNT,
        forall|k: int| 0 <= k < alias_table().len() ==> #[trigger] alias_table()[k].0.len() > 0,
        forall|k: int, j: int|
            0 <= k < alias_table().len() && 0 <= j < alias_table()[k].0.len() ==> 'a' <= #[trigger] alias_table()[k].0[j]
                && alias_table()[k].0[j] <= 'z',
{
    reveal_strlit("green");
    reveal_strlit("g");
    reveal_strlit("ability");
    reveal_strlit("abil");
    reveal_strlit("challenge");
    reveal_strlit("cha");
    reveal_strlit("red");
    reveal_strlit("r");
    reveal_strlit("proficiency");
    reveal_strlit("prof");
    reveal_strlit("yellow");
    reveal_strlit("y");
    reveal_strlit("difficulty");
    reveal_strlit("purple");
    reveal_strlit("p");
    reveal_strlit("diff");
    reveal_strlit("dif");
    reveal_strlit("black");
    reveal_strlit("k");
    reveal_strlit("setback");
    reveal_strlit("s");
    reveal_strlit("force");
    reveal_strlit("white");
    reveal_strlit("w");
    reveal_strlit("blue");
    reveal_strlit("boost");
    reveal_strlit("b");
}

/// A resolved alias ends after `pos` and within the input.
pub proof fn lemma_resolve_advances(s: Seq<char>, pos: int, k: int)
    requires
        resolve_from(s, pos, k) is Some,
    ensures
        pos < resolve_from(s, pos, k)->Some_0.1 <= s.len(),
    decreases alias_table().len() - k,
{
    lemma_aliases_nonempty();
    if 0 <= k < alias_table().len() && !alias_at(s, pos, alias_table()[k].0) {
        lemma_resolve_advances(s, pos, k + 1);
    }
}

/// When no earlier entry of the table occurs at `pos` and entry `k` does,
/// the resolver picks entry `k`.
pub proof fn lemma_first_match(s: Seq<char>, pos: int, i: int, k: int)
    requires
        0 <= i <= k < alias_table().len(),
        alias_at(s, pos, alias_table()[k].0),
        forall|k2: int| i <= k2 < k ==> !alias_at(s, pos, #[trigger] alias_table()[k2].0),
    ensures
        resolve_from(s, pos, i) == Some((alias_table()[k].1, pos + alias_table()[k].0.len())),
    decreases k - i,
{
    if i < k {
        lemma_first_match(s, pos, i + 1, k);
    }
}

/// Every alias of the table, standing alone and written in any mix of upper
/// and lower case, resolves to its own kind and is consumed whole.
#[verifier::rlimit(100)]
pub proof fn lemma_alias_resolves_to_its_kind(k: int, s: Seq<char>)
    requires
        0 <= k < alias_table().len(),
        s.len() == alias_table()[k].0.len(),
        forall|j: int| 0 <= j < s.len() ==> char_matches(s[j], #[trigger] alias_table()[k].0[j]),
    ensures
        resolve(s, 0) == Some((alias_table()[k].1, s.len() as int)),
{
    reveal_strlit("green");
    reveal_strlit("g");
    reveal_strlit("ability");
    reveal_strlit("abil");
    reveal_strlit("challenge");
    reveal_strlit("cha");
    reveal_strlit("red");
    reveal_strlit("r");
    reveal_strlit("proficiency");
    reveal_strlit("prof");
    reveal_strlit("yellow");
    reveal_strlit("y");
    reveal_strlit("difficulty");
    reveal_strlit("purple");
    reveal_strlit("p");
    reveal_strlit("diff");
    reveal_strlit("dif");
    reveal_strlit("black");
    reveal_strlit("k");
    reveal_strlit("setback");
    reveal_strlit("s");
    reveal_strlit("force");
    reveal_strlit("white");
    reveal_strlit("w");
    reveal_strlit("blue");
    reveal_strlit("boost");
    reveal_strlit("b");
    let a = alias_table()[k].0;
    assert(char_matches(s[0], a[0]));
    if s.len() > 1 {
        assert(char_matches(s[1], a[1]));
    }
    if s.len() > 2 {
        assert(char_matches(s[2], a[2]));
    }
    assert(alias_at(s, 0, a));
    assert forall|k2: int| 0 <= k2 < k implies !alias_at(s, 0, #[trigger] alias_table()[k2].0) by {
        let b = alias_table()[k2].0;
        if alias_at(s, 0, b) {
            assert(char_matches(s[0], b[0]));
            if b.len() > 1 {
                assert(char_matches(s[1], b[1]));
            }
            if b.len() > 2 {
                assert(char_matches(s[2], b[2]));
            }
        }
    }
    lemma_first_match(s, 0, 0, k);
}

/// Entry `k` of the alias table, as an executable string and its kind.
fn alias_entry(k: usize) -> (r: (&'static str, Dice))
    requires
        k < ALIAS_COUNT,
    ensures
        r.0@ == alias_table()[k as int].0,
        r.1 == alias_table()[k as int].1,
{
    match k {
        0 => ("green", Dice::Ability),
        1 => ("g", Dice::Ability),
        2 => ("ability", Dice::Ability),
        3 => ("abil", Dice::Ability),
        4 => ("challenge", Dice::Challenge),
        5 => ("cha", Dice::Challenge),
        6 => ("red", Dice::Challenge),
        7 => ("r", Dice::Challenge),
        8 => ("proficiency", Dice::Proficiency),
        9 => ("prof", Dice::Proficiency),
        10 => ("yellow", Dice::Proficiency),
        11 => ("y", Dice::Proficiency),
        12 => ("difficulty", Dice::Difficulty),
        13 => ("purple", Dice::Difficulty),
        14 => ("p", Dice::Difficulty),
        15 => ("diff", Dice::Difficulty),
        16 => ("dif", Dice::Difficulty),
        17 => ("black", Dice::Setback),
        18 => ("k", Dice::Setback),
        19 => ("setback", Dice::Setback),
        20 => ("s", Dice::Setback),
        21 => ("force", Dice::Force),
        22 => ("white", Dice::Force),
        23 => ("w", Dice::Force),
        24 => ("blue", Dice::Boost),
        25 => ("boost", Dice::Boost),
        _ => ("b", Dice::Boost),
    }
}

/// Tests whether the alias `a` occurs, ignoring ASCII case, in `s` at `pos`.
fn alias_matches(s: &[char], pos: usize, a: &str) -> (b: bool)
    requires
        pos <= s@.len(),
    ensures
        b == alias_at(s@, pos as int, a@),
{
    let n = a.unicode_len();
    let len = s.len();
    if n > len - pos {
        return false;
    }
    let mut j: usize = 0;
    while j < n
        invariant
            len == s@.len(),
            pos + n <= len,
            n == a@.len(),
            j <= n,
            forall|t: int| 0 <= t < j ==> char_matches(s@[pos + t], #[trigger] a@[t]),
        decreases n - j,
    {
        let c = s[pos + j];
        let d = a.get_char(j);
        if !(c == d || ('A' <= c && c <= 'Z' && (c as u32) + 32 == d as u32)) {
            return false;
        }
        j = j + 1;
    }
    true
}

/// Reads the alias of a die at `pos`: the first alias of the table that occurs
/// there, ignoring ASCII case. Returns its kind and the position after it.
pub fn parse_dice_as_value(s: &[char], pos: usize) -> (r: Option<(Dice, usize)>)
    requires
        pos <= s@.len(),
    ensures
        match resolve(s@, pos as int) {
            Some((d, e)) => r == Some((d, e as usize)) && pos < e <= s@.len(),
            None => r is None,
        },
{
    proof {
        lemma_aliases_nonempty();
    }
    let len = s.len();
    let mut k: usize = 0;
    while k < ALIAS_COUNT
        invariant
            k <= ALIAS_COUNT,
            pos <= len,
            len == s@.len(),
            alias_table().len() == ALIAS_COUNT,
            resolve(s@, pos as int) == resolve_from(s@, pos as int, k as int),
        decreases ALIAS_COUNT - k,
    {
        let (a, d) = alias_entry(k);
        if alias_matches(s, pos, a) {
            proof {
                lemma_resolve_advances(s@, pos as int, 0);
            }
            let n = a.unicode_len();
            return Some((d, pos + n));
        }
        k = k + 1;
    }
    None
}

} // verus!

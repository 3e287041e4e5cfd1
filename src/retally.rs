use vstd::prelude::*;

use crate::aggregate::{aggregate, counts_fit, lemma_aggregate_distinct, lemma_aggregate_of_distinct};
use crate::alias::{alias_at, alias_table, char_matches, resolve, resolve_from};
use crate::dice::Dice;
use crate::grammar::{
    digit_end, digits_value, group_at, groups_after, is_digit, roll_at, rolls_end, rolls_from,
};
use crate::line::{parse_spec, rest_is_white, strip_spaces};

verus! {

/// The inputs `s` from `pos` on and `t` from `q` on are the same text.
pub open spec fn same_from(s: Seq<char>, pos: int, t: Seq<char>, q: int) -> bool {
    &&& 0 <= pos <= s.len()
    &&& 0 <= q <= t.len()
    &&& s.subrange(pos, s.len() as int) == t.subrange(q, t.len() as int)
}

proof fn lemma_same_from_index(s: Seq<char>, pos: int, t: Seq<char>, q: int, i: int)
    requires
        same_from(s, pos, t, q),
        0 <= i < s.len() - pos,
    ensures
        s[pos + i] == t[q + i],
        s.len() - pos == t.len() - q,
{
    assert(s.subrange(pos, s.len() as int)[i] == s[pos + i]);
    assert(t.subrange(q, t.len() as int).len() == t.len() - q);
    assert(t.subrange(q, t.len() as int)[i] == t[q + i]);
}

proof fn lemma_same_from_step(s: Seq<char>, pos: int, t: Seq<char>, q: int, n: int)
    requires
        same_from(s, pos, t, q),
        0 <= n <= s.len() - pos,
    ensures
        same_from(s, pos + n, t, q + n),
{
    lemma_same_from_len(s, pos, t, q);
    assert(s.subrange(pos + n, s.len() as int) =~= s.subrange(pos, s.len() as int).subrange(n, s.len() - pos));
    assert(t.subrange(q + n, t.len() as int) =~= t.subrange(q, t.len() as int).subrange(n, t.len() - q));
}

proof fn lemma_same_from_len(s: Seq<char>, pos: int, t: Seq<char>, q: int)
    requires
        same_from(s, pos, t, q),
    ensures
        s.len() - pos == t.len() - q,
{
    assert(s.subrange(pos, s.len() as int).len() == s.len() - pos);
}

proof fn lemma_alias_at_shift(s: Seq<char>, pos: int, t: Seq<char>, q: int, a: Seq<char>)
    requires
        same_from(s, pos, t, q),
    ensures
        alias_at(s, pos, a) == alias_at(t, q, a),
{
    lemma_same_from_len(s, pos, t, q);
    if pos + a.len() <= s.len() {
        assert forall|j: int| 0 <= j < a.len() implies char_matches(s[pos + j], #[trigger] a[j])
            == char_matches(t[q + j], a[j]) by {
            lemma_same_from_index(s, pos, t, q, j);
        }
    }
}

proof fn lemma_resolve_shift(s: Seq<char>, pos: int, t: Seq<char>, q: int, k: int)
    requires
        same_from(s, pos, t, q),
    ensures
        match resolve_from(s, pos, k) {
            Some((d, e)) => resolve_from(t, q, k) == Some((d, e - pos + q)),
            None => resolve_from(t, q, k) is None,
        },
    decreases alias_table().len() - k,
{
    if 0 <= k < alias_table().len() {
        lemma_alias_at_shift(s, pos, t, q, alias_table()[k].0);
        lemma_resolve_shift(s, pos, t, q, k + 1);
    }
}

proof fn lemma_digit_end_shift(s: Seq<char>, pos: int, t: Seq<char>, q: int)
    requires
        same_from(s, pos, t, q),
    ensures
        digit_end(s, pos) - pos == digit_end(t, q) - q,
        pos <= digit_end(s, pos) <= s.len(),
    decreases s.len() - pos,
{
    lemma_same_from_len(s, pos, t, q);
    if pos < s.len() {
        lemma_same_from_index(s, pos, t, q, 0);
        if is_digit(s[pos]) {
            lemma_same_from_step(s, pos, t, q, 1);
            lemma_digit_end_shift(s, pos + 1, t, q + 1);
        }
    }
}

proof fn lemma_digits_value_shift(s: Seq<char>, pos: int, t: Seq<char>, q: int, n: int)
    requires
        same_from(s, pos, t, q),
        0 <= n <= s.len() - pos,
    ensures
        digits_value(s, pos, pos + n) == digits_value(t, q, q + n),
    decreases n,
{
    if n > 0 {
        lemma_digits_value_shift(s, pos, t, q, n - 1);
        lemma_same_from_index(s, pos, t, q, n - 1);
    }
}

proof fn lemma_roll_at_shift(s: Seq<char>, pos: int, t: Seq<char>, q: int)
    requires
        same_from(s, pos, t, q),
    ensures
        match roll_at(s, pos) {
            Some((d, c, e)) => roll_at(t, q) == Some((d, c, e - pos + q)),
            None => roll_at(t, q) is None,
        },
{
    lemma_digit_end_shift(s, pos, t, q);
    let n = digit_end(s, pos) - pos;
    lemma_digits_value_shift(s, pos, t, q, n);
    lemma_same_from_step(s, pos, t, q, n);
    lemma_resolve_shift(s, pos + n, t, q + n, 0);
}

/// The rolls read from a position depend only on the text from there on.
proof fn lemma_rolls_shift(s: Seq<char>, pos: int, t: Seq<char>, q: int)
    requires
        same_from(s, pos, t, q),
    ensures
        rolls_from(s, pos) == rolls_from(t, q),
        rolls_end(s, pos) - pos == rolls_end(t, q) - q,
    decreases s.len() - pos,
{
    lemma_roll_at_shift(s, pos, t, q);
    lemma_same_from_len(s, pos, t, q);
    if let Some((d, c, e)) = roll_at(s, pos) {
        if pos < e <= s.len() {
            lemma_same_from_step(s, pos, t, q, e - pos);
            lemma_rolls_shift(s, e, t, e - pos + q);
        }
    }
}

/// The decimal digit character of `d`, for `d` below ten.
pub open spec fn digit_char(d: nat) -> char {
    if d == 0 {
        '0'
    } else if d == 1 {
        '1'
    } else if d == 2 {
        '2'
    } else if d == 3 {
        '3'
    } else if d == 4 {
        '4'
    } else if d == 5 {
        '5'
    } else if d == 6 {
        '6'
    } else if d == 7 {
        '7'
    } else if d == 8 {
        '8'
    } else {
        '9'
    }
}

/// `n` written in decimal, without leading zeros.
pub open spec fn decimal(n: nat) -> Seq<char>
    decreases n,
{
    if n < 10 {
        seq![digit_char(n)]
    } else {
        decimal(n / 10).push(digit_char(n % 10))
    }
}

/// The one-letter alias of each kind of die.
pub open spec fn letter(d: Dice) -> char {
    match d {
        Dice::Ability => 'g',
        Dice::Challenge => 'r',
        Dice::Proficiency => 'y',
        Dice::Difficulty => 'p',
        Dice::Setback => 'k',
        Dice::Force => 'w',
        Dice::Boost => 'b',
    }
}

/// One entry of a group written as a command: its count in decimal, then its letter.
pub open spec fn token(r: (Dice, nat)) -> Seq<char> {
    decimal(r.1).push(letter(r.0))
}

/// A group written back as a command, one token per entry.
pub open spec fn render(g: Seq<(Dice, nat)>) -> Seq<char>
    decreases g.len(),
{
    if g.len() == 0 {
        seq![]
    } else {
        token(g[0]) + render(g.drop_first())
    }
}

proof fn lemma_digit_char(d: nat)
    requires
        d < 10,
    ensures
        is_digit(digit_char(d)),
        digit_char(d) as u32 - '0' as u32 == d,
{
}

proof fn lemma_decimal(n: nat, s: Seq<char>)
    requires
        decimal(n).len() <= s.len(),
        s.take(decimal(n).len() as int) == decimal(n),
    ensures
        decimal(n).len() >= 1,
        forall|i: int| 0 <= i < decimal(n).len() ==> is_digit(#[trigger] decimal(n)[i]),
        digits_value(s, 0, decimal(n).len() as int) == n,
    decreases n,
{
    let m = decimal(n).len() as int;
    assert(s[m - 1] == s.take(m)[m - 1]);
    lemma_digit_char((n % 10) as nat);
    if n < 10 {
        assert(s[0] == digit_char(n));
        assert(n % 10 == n);
    } else {
        let front = decimal(n / 10);
        assert(s.take(m - 1) =~= s.take(m).take(m - 1));
        assert(front =~= decimal(n).take(m - 1));
        lemma_decimal(n / 10, s);
        assert(s[m - 1] == digit_char((n % 10) as nat));
        assert(digits_value(s, 0, m) == digits_value(s, 0, m - 1) * 10 + (n % 10));
        assert forall|i: int| 0 <= i < m implies is_digit(#[trigger] decimal(n)[i]) by {
            if i < m - 1 {
                assert(decimal(n)[i] == front[i]);
            }
        }
    }
}

proof fn lemma_digit_end_at(s: Seq<char>, i: int, m: int)
    requires
        0 <= i <= m <= s.len(),
        forall|t: int| i <= t < m ==> is_digit(#[trigger] s[t]),
        m == s.len() || !is_digit(s[m]),
    ensures
        digit_end(s, i) == m,
    decreases m - i,
{
    if i < m {
        lemma_digit_end_at(s, i + 1, m);
    }
}

proof fn lemma_letter_resolves(s: Seq<char>, m: int, d: Dice)
    requires
        0 <= m < s.len(),
        s[m] == letter(d),
        m + 1 == s.len() || is_digit(s[m + 1]),
    ensures
        resolve(s, m) == Some((d, m + 1)),
{
    reveal_strlit("green");
    reveal_strlit("g");
    reveal_strlit("ability");
    reveal_strlit("abil");
    reveal_strlit("challenge");
    reveal_strlit("cha");
    reveal_strlit("red");
    reveal_strlit("r");
    reveal_strlit("proficiency");
    reveal_strlit("prof");
    reveal_strlit("yellow");
    reveal_strlit("y");
    reveal_strlit("difficulty");
    reveal_strlit("purple");
    reveal_strlit("p");
    reveal_strlit("diff");
    reveal_strlit("dif");
    reveal_strlit("black");
    reveal_strlit("k");
    reveal_strlit("setback");
    reveal_strlit("s");
    reveal_strlit("force");
    reveal_strlit("white");
    reveal_strlit("w");
    reveal_strlit("blue");
    reveal_strlit("boost");
    reveal_strlit("b");
    let k: int = match d {
        Dice::Ability => 1,
        Dice::Challenge => 7,
        Dice::Proficiency => 11,
        Dice::Difficulty => 14,
        Dice::Setback => 18,
        Dice::Force => 23,
        Dice::Boost => 26,
    };
    assert(alias_at(s, m, alias_table()[k].0)) by {
        assert(char_matches(s[m + 0], alias_table()[k].0[0]));
    }
    assert forall|k2: int| 0 <= k2 < k implies !alias_at(s, m, #[trigger] alias_table()[k2].0) by {
        let b = alias_table()[k2].0;
        if alias_at(s, m, b) {
            assert(char_matches(s[m + 0], b[0]));
            if b.len() > 1 {
                assert(char_matches(s[m + 1], b[1]));
            }
        }
    }
    crate::alias::lemma_first_match(s, m, 0, k);
}

/// A token followed by nothing or by a digit reads as one roll of its entry.
proof fn lemma_token_roll(r: (Dice, nat), u: Seq<char>)
    requires
        r.1 <= u32::MAX,
        u.len() == 0 || is_digit(u[0]),
    ensures
        roll_at(token(r) + u, 0) == Some((r.0, r.1, token(r).len() as int)),
{
    let s = token(r) + u;
    let m = decimal(r.1).len() as int;
    assert(s.take(m) =~= decimal(r.1));
    lemma_decimal(r.1, s);
    assert forall|t: int| 0 <= t < m implies is_digit(#[trigger] s[t]) by {
        assert(s[t] == decimal(r.1)[t]);
    }
    assert(s[m] == letter(r.0));
    lemma_digit_end_at(s, 0, m);
    if u.len() > 0 {
        assert(s[m + 1] == u[0]);
    }
    lemma_letter_resolves(s, m, r.0);
}

proof fn lemma_render_starts_with_digit(g: Seq<(Dice, nat)>)
    requires
        g.len() > 0,
    ensures
        render(g).len() > 0 && is_digit(render(g)[0]),
{
    let d = decimal(g[0].1);
    assert(d.take(d.len() as int) =~= d);
    lemma_decimal(g[0].1, d);
    assert(render(g)[0] == d[0]);
}

/// The rolls read from a rendered group are its entries, and they use up the text.
proof fn lemma_render_rolls(g: Seq<(Dice, nat)>)
    requires
        counts_fit(g),
    ensures
        rolls_from(render(g), 0) == g,
        rolls_end(render(g), 0) == render(g).len(),
    decreases g.len(),
{
    let s = render(g);
    if g.len() == 0 {
        if let Some((d, e)) = resolve(s, digit_end(s, 0)) {
            crate::alias::lemma_resolve_advances(s, digit_end(s, 0), 0);
        }
        assert(rolls_from(s, 0) =~= g);
    } else {
        let rest = g.drop_first();
        assert(counts_fit(rest)) by {
            assert forall|i: int| 0 <= i < rest.len() implies #[trigger] rest[i].1 <= u32::MAX by {
                assert(rest[i] == g[i + 1]);
            }
        }
        assert(g[0].1 <= u32::MAX);
        let u = render(rest);
        if rest.len() > 0 {
            lemma_render_starts_with_digit(rest);
        }
        lemma_token_roll(g[0], u);
        let n = token(g[0]).len() as int;
        assert(s.subrange(n, s.len() as int) =~= u.subrange(0, u.len() as int));
        lemma_rolls_shift(s, n, u, 0);
        lemma_render_rolls(rest);
        assert(seq![(g[0].0, g[0].1)] + rest =~= g);
    }
}

proof fn lemma_render_has_no_space(g: Seq<(Dice, nat)>)
    ensures
        forall|i: int| 0 <= i < render(g).len() ==> #[trigger] render(g)[i] != ' ',
    decreases g.len(),
{
    if g.len() > 0 {
        let rest = g.drop_first();
        lemma_render_has_no_space(rest);
        let d = decimal(g[0].1);
        assert(d.take(d.len() as int) =~= d);
        lemma_decimal(g[0].1, d);
        let tok = token(g[0]);
        assert forall|i: int| 0 <= i < render(g).len() implies #[trigger] render(g)[i] != ' ' by {
            if i < d.len() {
                assert(render(g)[i] == d[i]);
                assert(is_digit(d[i]));
            } else if i == d.len() {
                assert(render(g)[i] == letter(g[0].0));
            } else {
                assert(render(g)[i] == render(rest)[i - tok.len()]);
            }
        }
    }
}

proof fn lemma_strip_spaces_keeps(s: Seq<char>)
    requires
        forall|i: int| 0 <= i < s.len() ==> #[trigger] s[i] != ' ',
    ensures
        strip_spaces(s) == s,
    decreases s.len(),
{
    if s.len() > 0 {
        lemma_strip_spaces_keeps(s.drop_last());
        assert(s[s.len() - 1] != ' ');
        assert(s.drop_last().push(s.last()) =~= s);
    }
}

/// A group as the grammar reads it, written back as one token per entry (its
/// count in decimal, then the kind's one-letter alias), reads again as the
/// very same group: the tally of a tally is the tally itself. This holds of
/// the group read alone and of the rendered text as a whole command.
pub proof fn lemma_retally(s: Seq<char>, pos: int, g: Seq<(Dice, nat)>, e: int)
    requires
        group_at(s, pos) == Some((g, e)),
    ensures
        group_at(render(g), 0) == Some((g, render(g).len() as int)),
        parse_spec(strip_spaces(render(g))) == Some(seq![g]),
{
    let rolls = rolls_from(s, pos);
    assert(g == aggregate(rolls));
    lemma_aggregate_distinct(rolls);
    lemma_aggregate_of_distinct(g);
    lemma_render_rolls(g);
    assert(g.len() > 0);
    let r = render(g);
    assert(group_at(r, 0) == Some((g, r.len() as int)));
    assert(groups_after(r, r.len() as int) == (Seq::<Seq<(Dice, nat)>>::empty(), r.len() as int));
    assert(seq![g] + Seq::<Seq<(Dice, nat)>>::empty() =~= seq![g]);
    assert(rest_is_white(r, r.len() as int));
    lemma_render_has_no_space(g);
    lemma_strip_spaces_keeps(r);
}

} // verus!

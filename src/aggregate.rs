use vstd::prelude::*;

use crate::dice::Dice;
use crate::dice_roll::{roll_view, rolls_view, DiceRoll};

verus! {

/// No two entries of `g` are of the same kind.
pub open spec fn kinds_distinct(g: Seq<(Dice, nat)>) -> bool {
    forall|i: int, j: int| 0 <= i < j < g.len() ==> g[i].0 != g[j].0
}

/// Some entry of `acc` is of kind `d`.
pub open spec fn has_kind(acc: Seq<(Dice, nat)>, d: Dice) -> bool {
    exists|i: int| 0 <= i < acc.len() && acc[i].0 == d
}

/// Adds `c` dice of kind `d` to the tally `acc`: to the entry of that kind if
/// there is one, else as a new entry at the end.
pub open spec fn add_roll(acc: Seq<(Dice, nat)>, d: Dice, c: nat) -> Seq<(Dice, nat)> {
    if has_kind(acc, d) {
        let i = choose|i: int| 0 <= i < acc.len() && acc[i].0 == d;
        acc.update(i, (d, acc[i].1 + c))
    } else {
        acc.push((d, c))
    }
}

/// One entry per kind that occurs in `rolls`, in order of first occurrence,
/// holding the sum of that kind's counts.
pub open spec fn aggregate(rolls: Seq<(Dice, nat)>) -> Seq<(Dice, nat)>
    decreases rolls.len(),
{
    if rolls.len() == 0 {
        seq![]
    } else {
        add_roll(aggregate(rolls.drop_last()), rolls.last().0, rolls.last().1)
    }
}

/// Every count of `g` fits in a `u32`.
pub open spec fn counts_fit(g: Seq<(Dice, nat)>) -> bool {
    forall|i: int| 0 <= i < g.len() ==> #[trigger] g[i].1 <= u32::MAX
}

/// `big` holds the entries of `small` at the same places, with counts as large or larger.
pub open spec fn dominates(big: Seq<(Dice, nat)>, small: Seq<(Dice, nat)>) -> bool {
    &&& small.len() <= big.len()
    &&& forall|i: int| 0 <= i < small.len() ==> #[trigger] big[i].0 == small[i].0 && small[i].1 <= big[i].1
}

proof fn lemma_add_roll_distinct(acc: Seq<(Dice, nat)>, d: Dice, c: nat)
    requires
        kinds_distinct(acc),
    ensures
        kinds_distinct(add_roll(acc, d, c)),
        dominates(add_roll(acc, d, c), acc),
        has_kind(add_roll(acc, d, c), d),
{
    let r = add_roll(acc, d, c);
    if has_kind(acc, d) {
        let i = choose|i: int| 0 <= i < acc.len() && acc[i].0 == d;
        assert(r[i].0 == d);
    } else {
        assert(r[acc.len() as int].0 == d);
    }
}

/// The tally of any rolls has one entry per kind.
pub proof fn lemma_aggregate_distinct(rolls: Seq<(Dice, nat)>)
    ensures
        kinds_distinct(aggregate(rolls)),
    decreases rolls.len(),
{
    if rolls.len() > 0 {
        lemma_aggregate_distinct(rolls.drop_last());
        lemma_add_roll_distinct(aggregate(rolls.drop_last()), rolls.last().0, rolls.last().1);
    }
}

/// The tally of a prefix of the rolls is dominated by the tally of all of them.
proof fn lemma_aggregate_prefix(rolls: Seq<(Dice, nat)>, n: int)
    requires
        0 <= n <= rolls.len(),
    ensures
        dominates(aggregate(rolls), aggregate(rolls.take(n))),
    decreases rolls.len(),
{
    if n < rolls.len() {
        let front = rolls.drop_last();
        assert(front.take(n) =~= rolls.take(n));
        lemma_aggregate_prefix(front, n);
        lemma_aggregate_distinct(front);
        lemma_add_roll_distinct(aggregate(front), rolls.last().0, rolls.last().1);
    } else {
        assert(rolls.take(n) =~= rolls);
    }
}

/// Tallying again what is already a tally changes nothing: a tally has one
/// entry per kind, and each entry then stands for itself.
pub proof fn lemma_aggregate_idempotent(rolls: Seq<(Dice, nat)>)
    ensures
        aggregate(aggregate(rolls)) == aggregate(rolls),
{
    lemma_aggregate_distinct(rolls);
    lemma_aggregate_of_distinct(aggregate(rolls));
}

/// Rolls that already name each kind once are their own tally.
pub proof fn lemma_aggregate_of_distinct(g: Seq<(Dice, nat)>)
    requires
        kinds_distinct(g),
    ensures
        aggregate(g) == g,
    decreases g.len(),
{
    if g.len() > 0 {
        let front = g.drop_last();
        assert(kinds_distinct(front));
        lemma_aggregate_of_distinct(front);
        if has_kind(front, g.last().0) {
            let i = choose|i: int| 0 <= i < front.len() && front[i].0 == g.last().0;
            assert(g[i].0 == g[g.len() - 1].0);
        }
        assert(front.push(g.last()) =~= g);
    }
}

/// Tallies `rolls` into one roll per kind, in order of first occurrence.
/// Returns `None` when a kind's total does not fit in a `u32`.
pub fn aggregate_rolls(rolls: &Vec<DiceRoll>) -> (r: Option<Vec<DiceRoll>>)
    ensures
        counts_fit(aggregate(rolls_view(rolls@))) <==> r is Some,
        r matches Some(g) ==> rolls_view(g@) == aggregate(rolls_view(rolls@)),
{
    let ghost all = rolls_view(rolls@);
    let mut acc: Vec<DiceRoll> = Vec::new();
    let mut n: usize = 0;
    while n < rolls.len()
        invariant
            n <= rolls@.len(),
            all == rolls_view(rolls@),
            rolls_view(acc@) == aggregate(all.take(n as int)),
            counts_fit(rolls_view(acc@)),
        decreases rolls@.len() - n,
    {
        let roll = rolls[n];
        proof {
            assert(all.take(n as int + 1).drop_last() =~= all.take(n as int));
            assert(all.take(n as int + 1).last() == roll_view(roll));
            lemma_aggregate_distinct(all.take(n as int));
        }
        let ghost before = rolls_view(acc@);
        let mut i: usize = 0;
        while i < acc.len() && acc[i].die != roll.die
            invariant
                i <= acc@.len(),
                rolls_view(acc@) == before,
                forall|j: int| 0 <= j < i ==> before[j].0 != roll.die,
            decreases acc@.len() - i,
        {
            i = i + 1;
        }
        if i < acc.len() {
            let old_count = acc[i].number_of_dice_to_roll;
            proof {
                assert(before[i as int].0 == roll.die);
                assert(has_kind(before, roll.die));
                let c = choose|c: int| 0 <= c < before.len() && before[c].0 == roll.die;
                assert(c == i);
            }
            if old_count > u32::MAX - roll.number_of_dice_to_roll {
                proof {
                    lemma_aggregate_prefix(all, n as int + 1);
                    let tally = aggregate(all.take(n as int + 1));
                    assert(tally == add_roll(before, roll.die, roll.number_of_dice_to_roll as nat));
                    assert(tally[i as int].1 > u32::MAX);
                    assert(aggregate(all)[i as int].0 == tally[i as int].0);
                    assert(aggregate(all)[i as int].1 > u32::MAX);
                }
                return None;
            }
            acc.set(i, DiceRoll::new(roll.die, old_count + roll.number_of_dice_to_roll));
            proof {
                assert(rolls_view(acc@) =~= add_roll(before, roll.die, roll.number_of_dice_to_roll as nat));
            }
        } else {
            acc.push(roll);
            proof {
                assert(rolls_view(acc@) =~= add_roll(before, roll.die, roll.number_of_dice_to_roll as nat));
            }
        }
        n = n + 1;
    }
    proof {
        assert(all.take(n as int) =~= all);
    }
    Some(acc)
}

} // verus!

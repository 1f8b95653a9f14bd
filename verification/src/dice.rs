//! Rolling: one group of dice, and every group of a notation.

use crate::notation::{
    greatest_totals, groups, least_totals, rollable, scan, scanned, DiceGroup, Group,
};
use crate::results::{
    faces_sum, faces_within, lemma_faces_sum_bounds, lemma_faces_sum_grows, totals_sum,
    AllRollResults, DiceRolls, RollResult,
};
use rand::Rng;
use vstd::prelude::*;

verus! {

/// `rand::rngs::ThreadRng`, the handle to the generator of the calling thread.
/// Nothing is known of what it holds.
#[verifier::external_type_specification]
#[verifier::external_body]
pub struct ExThreadRng(rand::rngs::ThreadRng);

/// `rand::thread_rng` hands out the handle to the generator of the calling
/// thread, which the system seeds on first use. Nothing is claimed of the
/// handle. Where the system gives no seed, `rand` panics.
pub assume_specification[ rand::thread_rng ]() -> (rng: rand::rngs::ThreadRng)
;

/// Draws one face with `rand::Rng::gen_range` over the inclusive range from 1
/// to `sides`. Not proved: that the face drawn lies in that range. `gen_range`
/// panics on an empty range, which `sides >= 1` rules out. Which face comes is
/// left open, and two draws need not agree.
#[verifier::external_body]
fn draw_face(rng: &mut rand::rngs::ThreadRng, sides: usize) -> (face: usize)
    requires
        sides >= 1,
    ensures
        1 <= face <= sides,
{
    rng.gen_range(1..=sides)
}

/// The roller of single groups of dice.
pub struct Dice {}

/// The message with which a group of `num` dice of `sides` sides is refused.
pub open spec fn refusal(num: usize, sides: usize) -> Seq<char>
    recommends
        num < 1 || sides < 2,
{
    if num < 1 && sides < 2 {
        "There must be at least 1 die, and dice must have at least 2 sides"@
    } else if num < 1 {
        "There must be at least 1 die"@
    } else {
        "Dice must have at least 2 sides"@
    }
}

impl Dice {
    /// The outcome of a group whose dice showed `rolls`.
    pub fn tally(rolls: Vec<usize>, sides: usize, modifier: isize) -> (res: RollResult)
        requires
            faces_sum(rolls@) + modifier <= isize::MAX,
        ensures
            res.rolled.rolls@ == rolls@,
            res.selected_rolls.rolls@ == rolls@,
            res.total == faces_sum(rolls@) + modifier,
            res.sides == sides,
            res.num_dice == rolls@.len(),
            res.modifier == modifier,
    {
        let mut total: isize = modifier;
        let mut selected: Vec<usize> = Vec::new();
        let mut i: usize = 0;
        while i < rolls.len()
            invariant
                0 <= i <= rolls@.len(),
                total == faces_sum(rolls@.take(i as int)) + modifier,
                selected@ == rolls@.take(i as int),
                faces_sum(rolls@) + modifier <= isize::MAX,
            decreases rolls@.len() - i,
        {
            let face: usize = rolls[i];
            proof {
                assert(rolls@.take(i + 1).drop_last() == rolls@.take(i as int));
                lemma_faces_sum_grows(rolls@, i + 1);
            }
            let next: i128 = total as i128 + face as i128;
            total = next as isize;
            selected.push(face);
            i += 1;
        }
        assert(rolls@.take(i as int) == rolls@);
        let num_dice: usize = rolls.len();
        RollResult {
            total,
            rolled: DiceRolls { rolls },
            selected_rolls: DiceRolls { rolls: selected },
            sides,
            num_dice,
            modifier,
        }
    }

    /// Rolls `num` dice of `sides` sides and adds `modifier` to their sum.
    ///
    /// A group without dice, or of dice with fewer than two sides, is refused
    /// with a message. The greatest total that the group can give must fit in
    /// `isize`.
    pub fn roll(num: usize, sides: usize, modifier: isize) -> (res: Result<RollResult, String>)
        requires
            num >= 1 && sides >= 2 ==> num * sides + modifier <= isize::MAX,
        ensures
            res is Ok <==> num >= 1 && sides >= 2,
            res matches Ok(r) ==> r.wf() && r.num_dice == num && r.sides == sides && r.modifier
                == modifier,
            res matches Err(e) ==> e@ == refusal(num, sides),
    {
        if num < 1 && sides < 2 {
            Err("There must be at least 1 die, and dice must have at least 2 sides".to_owned())
        } else if num < 1 {
            Err("There must be at least 1 die".to_owned())
        } else if sides < 2 {
            Err("Dice must have at least 2 sides".to_owned())
        } else {
            let mut rng = rand::thread_rng();
            let mut rolls: Vec<usize> = Vec::new();
            let mut i: usize = 0;
            while i < num
                invariant
                    sides >= 2,
                    i <= num,
                    rolls@.len() == i,
                    faces_within(rolls@, sides),
                decreases num - i,
            {
                let face = draw_face(&mut rng, sides);
                rolls.push(face);
                i += 1;
            }
            proof {
                lemma_faces_sum_bounds(rolls@, sides);
            }
            Ok(Dice::tally(rolls, sides, modifier))
        }
    }
}

/// Whether every total that the groups `gs` can give together fits in `isize`.
pub open spec fn totals_fit(gs: Seq<Group>) -> bool {
    isize::MIN <= least_totals(gs) && greatest_totals(gs) <= isize::MAX
}

/// Whether `g` can join an aggregate of the groups `before`: it can be rolled,
/// and no total that the aggregate can then have leaves the range of `isize`.
pub open spec fn admits(before: Seq<Group>, g: Group) -> bool {
    &&& rollable(g)
    &&& isize::MIN <= least_totals(before) + g.least_total()
    &&& greatest_totals(before) + g.greatest_total() <= isize::MAX
}

/// The groups of `gs` that are rolled, in order: each one that can join those
/// admitted before it.
pub open spec fn admitted(gs: Seq<Group>) -> Seq<Group>
    decreases gs.len(),
{
    if gs.len() == 0 {
        Seq::empty()
    } else if admits(admitted(gs.drop_last()), gs.last()) {
        admitted(gs.drop_last()).push(gs.last())
    } else {
        admitted(gs.drop_last())
    }
}

/// Every group that is rolled can be rolled, the groups rolled are no more
/// than the groups given, and every total that they can give together fits in
/// `isize`.
pub proof fn lemma_admitted_rollable(gs: Seq<Group>)
    ensures
        admitted(gs).len() <= gs.len(),
        forall|i: int| 0 <= i < admitted(gs).len() ==> rollable(#[trigger] admitted(gs)[i]),
        isize::MIN <= least_totals(admitted(gs)) <= greatest_totals(admitted(gs)) <= isize::MAX,
    decreases gs.len(),
{
    if gs.len() > 0 {
        let before = admitted(gs.drop_last());
        lemma_admitted_rollable(gs.drop_last());
        if admits(before, gs.last()) {
            let g = gs.last();
            assert(before.push(g).drop_last() == before);
            assert(g.count <= g.count * g.sides) by (nonlinear_arith)
                requires
                    g.sides >= 1,
            ;
        }
    }
}

/// Where no group is valid, none is rolled.
pub proof fn lemma_admitted_none(gs: Seq<Group>)
    requires
        forall|i: int| 0 <= i < gs.len() ==> !(#[trigger] gs[i]).valid(),
    ensures
        admitted(gs) == Seq::<Group>::empty(),
    decreases gs.len(),
{
    if gs.len() > 0 {
        assert forall|i: int| 0 <= i < gs.drop_last().len() implies !(#[trigger] gs.drop_last()[i]).valid() by {
            assert(gs.drop_last()[i] == gs[i]);
        }
        lemma_admitted_none(gs.drop_last());
        assert(!gs[gs.len() - 1].valid());
    }
}

/// Where every group can be rolled and the totals that the first groups can
/// give together fit in `isize`, however many of them are taken, every group
/// is rolled.
pub proof fn lemma_admitted_all(gs: Seq<Group>)
    requires
        forall|i: int| 0 <= i < gs.len() ==> rollable(#[trigger] gs[i]),
        forall|n: int| 0 <= n <= gs.len() ==> #[trigger] totals_fit(gs.take(n)),
    ensures
        admitted(gs) == gs,
    decreases gs.len(),
{
    if gs.len() > 0 {
        let front = gs.drop_last();
        assert forall|i: int| 0 <= i < front.len() implies rollable(#[trigger] front[i]) by {
            assert(front[i] == gs[i]);
        }
        assert forall|n: int| 0 <= n <= front.len() implies #[trigger] totals_fit(
            front.take(n),
        ) by {
            assert(front.take(n) == gs.take(n));
            assert(totals_fit(gs.take(n)));
        }
        lemma_admitted_all(front);
        assert(gs.take(gs.len() as int) == gs);
        assert(totals_fit(gs.take(gs.len() as int)));
        assert(rollable(gs[gs.len() - 1]));
        assert(front.push(gs.last()) == gs);
    }
}

/// An aggregate that is well formed has its total between the sum of the
/// least and the sum of the greatest totals of its groups; without outcomes
/// its total is 0.
pub proof fn lemma_total_within(all: AllRollResults)
    requires
        all.wf(),
    ensures
        least_totals(all.groups()) <= all.total <= greatest_totals(all.groups()),
        all.rolled@.len() == 0 ==> all.total == 0,
{
    lemma_totals_sum_within(all.rolled@);
}

/// The totals of well-formed outcomes sum to no less than the least and to no
/// more than the greatest totals of their groups.
pub proof fn lemma_totals_sum_within(outcomes: Seq<RollResult>)
    requires
        forall|i: int| 0 <= i < outcomes.len() ==> (#[trigger] outcomes[i]).wf(),
    ensures
        least_totals(outcomes.map_values(|r: RollResult| r.group())) <= totals_sum(outcomes)
            <= greatest_totals(outcomes.map_values(|r: RollResult| r.group())),
    decreases outcomes.len(),
{
    if outcomes.len() > 0 {
        let front = outcomes.drop_last();
        let last = outcomes.last();
        assert forall|i: int| 0 <= i < front.len() implies (#[trigger] front[i]).wf() by {
            assert(front[i] == outcomes[i]);
        }
        lemma_totals_sum_within(front);
        assert(outcomes.map_values(|r: RollResult| r.group()).drop_last() == front.map_values(
            |r: RollResult| r.group(),
        ));
        assert(last.wf());
        lemma_faces_sum_bounds(last.rolled.rolls@, last.sides);
    }
}

/// Where no group of a notation is valid, rolling it gives no outcome and the
/// total 0: so for an empty text, for a text without groups, and for one
/// whose groups all lack dice or sides.
pub proof fn lemma_nothing_valid_nothing_rolled(all: AllRollResults, dice: Seq<char>)
    requires
        all.wf(),
        all.groups() == admitted(groups(dice)),
        forall|i: int| 0 <= i < groups(dice).len() ==> !(#[trigger] groups(dice)[i]).valid(),
    ensures
        all.rolled@.len() == 0,
        all.total == 0,
{
    lemma_admitted_none(groups(dice));
    assert(all.groups().len() == all.rolled@.len());
}

/// The range of the totals of an aggregate once `group` has joined it, where
/// it can: `least` and `greatest` bound the totals before.
fn widened(least: isize, greatest: isize, group: &DiceGroup) -> (range: Option<(isize, isize)>)
    requires
        least <= greatest,
    ensures
        range == if rollable(group@) && isize::MIN <= least + group@.least_total() && greatest
            + group@.greatest_total() <= isize::MAX {
            Some(
                (
                    (least + group@.least_total()) as isize,
                    (greatest + group@.greatest_total()) as isize,
                ),
            )
        } else {
            None::<(isize, isize)>
        },
{
    proof {
        if group.sides >= 1 {
            assert(group.num <= group.num * group.sides) by (nonlinear_arith)
                requires
                    group.sides >= 1,
            ;
        }
    }
    match group.total_range() {
        Some((lowest, highest)) => {
            match (least.checked_add(lowest), greatest.checked_add(highest)) {
                (Some(new_least), Some(new_greatest)) => Some((new_least, new_greatest)),
                _ => None,
            }
        },
        None => None,
    }
}

/// Rolls every group of the notation `dice`, from left to right.
///
/// Text that belongs to no group is skipped. A group that cannot be rolled is
/// left out: one without dice, one of dice with fewer than two sides, and one
/// whose numbers, or whose totals together with those before it, do not fit
/// the machine's integers.
pub fn roll(dice: &str) -> (res: AllRollResults)
    ensures
        res.wf(),
        res.groups() == admitted(groups(dice@)),
{
    let found = scan(dice);
    let ghost gs = groups(dice@);
    let mut rolled: Vec<RollResult> = Vec::new();
    let mut total: isize = 0;
    let mut least: isize = 0;
    let mut greatest: isize = 0;
    let mut k: usize = 0;
    while k < found.len()
        invariant
            k <= found@.len(),
            found@ == gs.map_values(|g: Group| scanned(g)),
            rolled@.map_values(|r: RollResult| r.group()) == admitted(gs.take(k as int)),
            forall|i: int| 0 <= i < rolled@.len() ==> (#[trigger] rolled@[i]).wf(),
            total == totals_sum(rolled@),
            least == least_totals(admitted(gs.take(k as int))),
            greatest == greatest_totals(admitted(gs.take(k as int))),
            least <= total <= greatest,
        decreases found@.len() - k,
    {
        let ghost before = admitted(gs.take(k as int));
        let ghost g = gs[k as int];
        proof {
            assert(gs.take(k + 1).drop_last() == gs.take(k as int));
            assert(gs.take(k + 1).last() == g);
            assert(found@[k as int] == scanned(g));
        }
        let range = match found[k] {
            Some(group) => widened(least, greatest, &group),
            None => None,
        };
        proof {
            assert(range is Some <==> admits(before, g));
        }
        if let Some((new_least, new_greatest)) = range {
            let group = found[k].unwrap();
            assert(group@ == g);
            if let Ok(outcome) = Dice::roll(group.num, group.sides, group.modifier) {
                proof {
                    lemma_faces_sum_bounds(outcome.rolled.rolls@, outcome.sides);
                    assert(rolled@.push(outcome).drop_last() == rolled@);
                    assert(rolled@.push(outcome).map_values(|r: RollResult| r.group())
                        == rolled@.map_values(|r: RollResult| r.group()).push(g));
                    assert(before.push(g).drop_last() == before);
                }
                total = total + outcome.total;
                least = new_least;
                greatest = new_greatest;
                rolled.push(outcome);
            }
        }
        k += 1;
    }
    proof {
        assert(gs.take(k as int) == gs);
    }
    AllRollResults { total, rolled }
}

} // verus!

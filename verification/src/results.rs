//! Outcomes of rolls: what one group of dice gave and what a whole notation gave.

use crate::decimal::{decimal_digits, push_decimal, push_signed, signed_digits};
use crate::notation::{written, written_modifier, Group};
use vstd::prelude::*;
use vstd::relations::{sorted_by, total_ordering};
use vstd::seq_lib::lemma_sorted_unique;

verus! {

/// The faces that one group of dice showed, in the order in which they fell.
#[derive(Debug, Clone)]
pub struct DiceRolls {
    pub rolls: Vec<usize>,
}

/// The outcome of one group of dice.
#[derive(Debug)]
pub struct RollResult {
    pub total: isize,
    pub rolled: DiceRolls,
    pub selected_rolls: DiceRolls,
    pub sides: usize,
    pub num_dice: usize,
    pub modifier: isize,
}

/// The outcomes of all the groups of one notation, in the order of the notation.
#[derive(Debug)]
pub struct AllRollResults {
    pub total: isize,
    pub rolled: Vec<RollResult>,
}

/// The sum of a sequence of faces.
pub open spec fn faces_sum(faces: Seq<usize>) -> int
    decreases faces.len(),
{
    if faces.len() == 0 {
        0
    } else {
        faces_sum(faces.drop_last()) + faces.last()
    }
}

/// Whether every face lies between 1 and `sides`.
pub open spec fn faces_within(faces: Seq<usize>, sides: usize) -> bool {
    forall|i: int| 0 <= i < faces.len() ==> 1 <= #[trigger] faces[i] <= sides
}

/// The sum of the totals of a sequence of outcomes.
pub open spec fn totals_sum(outcomes: Seq<RollResult>) -> int
    decreases outcomes.len(),
{
    if outcomes.len() == 0 {
        0
    } else {
        totals_sum(outcomes.drop_last()) + outcomes.last().total
    }
}

/// The sum of the first `n` faces is at most the sum of them all.
pub proof fn lemma_faces_sum_grows(faces: Seq<usize>, n: int)
    requires
        0 <= n <= faces.len(),
    ensures
        0 <= faces_sum(faces.take(n)) <= faces_sum(faces),
    decreases faces.len() - n,
{
    if n == faces.len() {
        assert(faces.take(n) == faces);
        lemma_faces_sum_nonnegative(faces);
    } else {
        assert(faces.take(n + 1).drop_last() == faces.take(n));
        lemma_faces_sum_grows(faces, n + 1);
        lemma_faces_sum_nonnegative(faces.take(n));
    }
}

/// A sum of faces is not negative.
pub proof fn lemma_faces_sum_nonnegative(faces: Seq<usize>)
    ensures
        0 <= faces_sum(faces),
    decreases faces.len(),
{
    if faces.len() > 0 {
        lemma_faces_sum_nonnegative(faces.drop_last());
    }
}

/// Faces between 1 and `sides` sum to at least their number and to at most
/// their number times `sides`.
pub proof fn lemma_faces_sum_bounds(faces: Seq<usize>, sides: usize)
    requires
        faces_within(faces, sides),
    ensures
        faces.len() <= faces_sum(faces) <= faces.len() * sides,
    decreases faces.len(),
{
    if faces.len() > 0 {
        let front = faces.drop_last();
        assert(faces_within(front, sides)) by {
            assert forall|i: int| 0 <= i < front.len() implies 1 <= #[trigger] front[i] <= sides by {
                assert(front[i] == faces[i]);
            }
        }
        lemma_faces_sum_bounds(front, sides);
        assert(front.len() * sides + sides == faces.len() * sides) by (nonlinear_arith)
            requires
                front.len() + 1 == faces.len(),
        ;
    }
}

/// Whether `faces` stand from the highest to the lowest.
pub open spec fn is_descending(faces: Seq<usize>) -> bool {
    forall|i: int, j: int| 0 <= i < j < faces.len() ==> faces[i] >= faces[j]
}

/// `faces` from the highest to the lowest.
pub open spec fn descending(faces: Seq<usize>) -> Seq<usize> {
    faces.sort_by(|a: usize, b: usize| a >= b)
}

/// `descending(faces)` holds the faces of `faces`, each as often as `faces`
/// does, from the highest to the lowest.
pub proof fn lemma_descending(faces: Seq<usize>)
    ensures
        is_descending(descending(faces)),
        descending(faces).to_multiset() == faces.to_multiset(),
        descending(faces).len() == faces.len(),
{
    let geq = |a: usize, b: usize| a >= b;
    assert(total_ordering(geq));
    faces.lemma_sort_by_ensures(geq);
    let sorted = descending(faces);
    assert forall|i: int, j: int| 0 <= i < j < sorted.len() implies sorted[i] >= sorted[j] by {
        assert(geq(sorted[i], sorted[j]));
    }
    faces.to_multiset_ensures();
    sorted.to_multiset_ensures();
}

/// Only one sequence holds given faces from the highest to the lowest.
pub proof fn lemma_descending_unique(sorted: Seq<usize>, faces: Seq<usize>)
    requires
        is_descending(sorted),
        sorted.to_multiset() == faces.to_multiset(),
    ensures
        sorted == descending(faces),
{
    let geq = |a: usize, b: usize| a >= b;
    assert(total_ordering(geq));
    faces.lemma_sort_by_ensures(geq);
    assert(sorted_by(sorted, geq));
    lemma_sorted_unique(sorted, descending(faces), geq);
}

/// `parts` one after the other, with `separator` between each two.
pub open spec fn joined(parts: Seq<Seq<char>>, separator: Seq<char>) -> Seq<char>
    decreases parts.len(),
{
    if parts.len() == 0 {
        Seq::empty()
    } else if parts.len() == 1 {
        parts[0]
    } else {
        joined(parts.drop_last(), separator) + separator + parts.last()
    }
}

/// Merges two descending sequences of faces into one.
fn merged(left: &Vec<usize>, right: &Vec<usize>) -> (both: Vec<usize>)
    requires
        is_descending(left@),
        is_descending(right@),
    ensures
        is_descending(both@),
        both@.to_multiset() == left@.to_multiset().add(right@.to_multiset()),
{
    let mut both: Vec<usize> = Vec::new();
    let mut i: usize = 0;
    let mut j: usize = 0;
    assert(left@.take(0).to_multiset().add(right@.take(0).to_multiset()) =~= both@.to_multiset())
        by {
        broadcast use vstd::seq_lib::group_to_multiset_ensures;

        assert(left@.take(0) == Seq::<usize>::empty());
        assert(right@.take(0) == Seq::<usize>::empty());
        assert(both@ == Seq::<usize>::empty());
    }
    while i < left.len() || j < right.len()
        invariant
            i <= left@.len(),
            j <= right@.len(),
            is_descending(left@),
            is_descending(right@),
            is_descending(both@),
            both@.to_multiset() == left@.take(i as int).to_multiset().add(
                right@.take(j as int).to_multiset(),
            ),
            forall|k: int| 0 <= k < both@.len() && i < left@.len() ==> both@[k] >= left@[i as int],
            forall|k: int| 0 <= k < both@.len() && j < right@.len() ==> both@[k] >= right@[j as int],
        decreases left@.len() - i + right@.len() - j,
    {
        let ghost before = both@;
        if j >= right.len() || (i < left.len() && left[i] >= right[j]) {
            let face: usize = left[i];
            both.push(face);
            proof {
                vstd::seq_lib::to_multiset_build(before, face);
                vstd::seq_lib::to_multiset_build(left@.take(i as int), face);
                assert(left@.take(i + 1) == left@.take(i as int).push(face));
                assert(both@.to_multiset() =~= left@.take(i + 1).to_multiset().add(
                    right@.take(j as int).to_multiset(),
                ));
            }
            i += 1;
        } else {
            let face: usize = right[j];
            both.push(face);
            proof {
                vstd::seq_lib::to_multiset_build(before, face);
                vstd::seq_lib::to_multiset_build(right@.take(j as int), face);
                assert(right@.take(j + 1) == right@.take(j as int).push(face));
                assert(both@.to_multiset() =~= left@.take(i as int).to_multiset().add(
                    right@.take(j + 1).to_multiset(),
                ));
            }
            j += 1;
        }
    }
    proof {
        assert(left@.take(i as int) == left@);
        assert(right@.take(j as int) == right@);
    }
    both
}

/// The faces of `faces` from `from` up to `to`, from the highest to the lowest.
fn sorted_span(faces: &Vec<usize>, from: usize, to: usize) -> (sorted: Vec<usize>)
    requires
        from <= to <= faces@.len(),
    ensures
        is_descending(sorted@),
        sorted@.to_multiset() == faces@.subrange(from as int, to as int).to_multiset(),
    decreases to - from,
{
    if to - from <= 1 {
        let mut sorted: Vec<usize> = Vec::new();
        if from < to {
            sorted.push(faces[from]);
        }
        assert(sorted@ == faces@.subrange(from as int, to as int));
        sorted
    } else {
        let middle: usize = from + (to - from) / 2;
        let left = sorted_span(faces, from, middle);
        let right = sorted_span(faces, middle, to);
        proof {
            vstd::seq_lib::lemma_multiset_commutative(
                faces@.subrange(from as int, middle as int),
                faces@.subrange(middle as int, to as int),
            );
            assert(faces@.subrange(from as int, middle as int) + faces@.subrange(
                middle as int,
                to as int,
            ) == faces@.subrange(from as int, to as int));
        }
        merged(&left, &right)
    }
}

impl DiceRolls {
    /// How the faces are shown: from the highest to the lowest, with commas
    /// between them, in square brackets.
    pub open spec fn display(&self) -> Seq<char> {
        seq!['['] + joined(
            descending(self.rolls@).map_values(|f: usize| decimal_digits(f as nat)),
            seq![','],
        ) + seq![']']
    }

    /// The faces from the highest to the lowest.
    pub fn sort(&self) -> (sorted: Vec<usize>)
        ensures
            sorted@ == descending(self.rolls@),
            is_descending(sorted@),
            sorted@.to_multiset() == self.rolls@.to_multiset(),
    {
        let sorted = sorted_span(&self.rolls, 0, self.rolls.len());
        proof {
            assert(self.rolls@.subrange(0, self.rolls@.len() as int) == self.rolls@);
            lemma_descending_unique(sorted@, self.rolls@);
        }
        sorted
    }

    /// The faces as they are shown.
    pub fn to_string(&self) -> (text: String)
        ensures
            text@ == self.display(),
    {
        let sorted = self.sort();
        let ghost parts = sorted@.map_values(|f: usize| decimal_digits(f as nat));
        proof {
            reveal_strlit("[");
            reveal_strlit(",");
            reveal_strlit("]");
        }
        let mut text = String::new();
        text.append("[");
        assert(text@ == seq!['[']);
        let mut k: usize = 0;
        while k < sorted.len()
            invariant
                k <= sorted@.len(),
                parts == sorted@.map_values(|f: usize| decimal_digits(f as nat)),
                ","@ == seq![','],
                text@ == seq!['['] + joined(parts.take(k as int), seq![',']),
            decreases sorted@.len() - k,
        {
            if k > 0 {
                text.append(",");
            }
            push_decimal(&mut text, sorted[k]);
            proof {
                assert(parts.take(k + 1).drop_last() == parts.take(k as int));
                assert(text@ =~= seq!['['] + joined(parts.take(k + 1), seq![',']));
            }
            k += 1;
        }
        text.append("]");
        proof {
            assert(parts.take(k as int) == parts);
        }
        text
    }
}

impl RollResult {
    /// The notation of the group that the outcome is of.
    pub open spec fn notation(&self) -> Seq<char> {
        written(self.group())
    }

    /// How the outcome is shown: the notation, the faces and the total, with
    /// colons between them.
    pub open spec fn display(&self) -> Seq<char> {
        self.notation() + seq![':'] + self.rolled.display() + seq![':'] + signed_digits(
            self.total as int,
        )
    }

    /// The modifier as it is written behind the dice.
    pub fn signed_modifier(&self) -> (text: String)
        ensures
            text@ == written_modifier(self.modifier as int),
    {
        proof {
            reveal_strlit("+");
        }
        let mut text = String::new();
        if self.modifier < 0 {
            push_signed(&mut text, self.modifier);
        } else if self.modifier > 0 {
            text.append("+");
            push_decimal(&mut text, self.modifier as usize);
        }
        text
    }

    /// The notation of the group.
    pub fn dice_as_str(&self) -> (text: String)
        ensures
            text@ == self.notation(),
    {
        proof {
            reveal_strlit("d");
        }
        let mut text = String::new();
        push_decimal(&mut text, self.num_dice);
        text.append("d");
        push_decimal(&mut text, self.sides);
        text.append(self.signed_modifier().as_str());
        text
    }

    /// The outcome as it is shown.
    pub fn to_string(&self) -> (text: String)
        ensures
            text@ == self.display(),
    {
        proof {
            reveal_strlit(":");
        }
        let mut text = self.dice_as_str();
        text.append(":");
        text.append(self.rolled.to_string().as_str());
        text.append(":");
        push_signed(&mut text, self.total);
        text
    }

    /// The group that the outcome is of.
    pub open spec fn group(&self) -> Group {
        Group {
            count: self.num_dice as nat,
            sides: self.sides as nat,
            modifier: self.modifier as int,
        }
    }

    /// The invariant of an outcome: one face per die, each between 1 and the
    /// number of sides; the total is their sum plus the modifier; the selected
    /// faces are the faces rolled.
    pub open spec fn wf(&self) -> bool {
        &&& self.rolled.rolls@.len() == self.num_dice
        &&& faces_within(self.rolled.rolls@, self.sides)
        &&& self.total == faces_sum(self.rolled.rolls@) + self.modifier
        &&& self.selected_rolls.rolls@ == self.rolled.rolls@
    }
}

impl AllRollResults {
    /// How the aggregate is shown: the notations of the groups, the faces of
    /// the groups and the total, with commas between groups and colons
    /// between the three.
    pub open spec fn display(&self) -> Seq<char> {
        joined(self.rolled@.map_values(|r: RollResult| r.notation()), seq![',']) + seq![':']
            + joined(self.rolled@.map_values(|r: RollResult| r.rolled.display()), seq![','])
            + seq![':'] + signed_digits(self.total as int)
    }

    /// The aggregate as it is shown.
    pub fn to_string(&self) -> (text: String)
        ensures
            text@ == self.display(),
    {
        let ghost notations = self.rolled@.map_values(|r: RollResult| r.notation());
        let ghost faces = self.rolled@.map_values(|r: RollResult| r.rolled.display());
        proof {
            reveal_strlit(",");
            reveal_strlit(":");
        }
        let mut text = String::new();
        let mut k: usize = 0;
        while k < self.rolled.len()
            invariant
                k <= self.rolled@.len(),
                notations == self.rolled@.map_values(|r: RollResult| r.notation()),
                ","@ == seq![','],
                text@ == joined(notations.take(k as int), seq![',']),
            decreases self.rolled@.len() - k,
        {
            if k > 0 {
                text.append(",");
            }
            text.append(self.rolled[k].dice_as_str().as_str());
            proof {
                assert(notations.take(k + 1).drop_last() == notations.take(k as int));
                assert(text@ =~= joined(notations.take(k + 1), seq![',']));
            }
            k += 1;
        }
        proof {
            assert(notations.take(k as int) == notations);
        }
        text.append(":");
        let ghost head = text@;
        k = 0;
        while k < self.rolled.len()
            invariant
                k <= self.rolled@.len(),
                faces == self.rolled@.map_values(|r: RollResult| r.rolled.display()),
                ","@ == seq![','],
                text@ == head + joined(faces.take(k as int), seq![',']),
            decreases self.rolled@.len() - k,
        {
            if k > 0 {
                text.append(",");
            }
            text.append(self.rolled[k].rolled.to_string().as_str());
            proof {
                assert(faces.take(k + 1).drop_last() == faces.take(k as int));
                assert(text@ =~= head + joined(faces.take(k + 1), seq![',']));
            }
            k += 1;
        }
        proof {
            assert(faces.take(k as int) == faces);
        }
        text.append(":");
        push_signed(&mut text, self.total);
        text
    }

    /// The groups that the outcomes are of, in order.
    pub open spec fn groups(&self) -> Seq<Group> {
        self.rolled@.map_values(|r: RollResult| r.group())
    }

    /// The invariant of an aggregate: every outcome is well formed and the
    /// total is the sum of their totals.
    pub open spec fn wf(&self) -> bool {
        &&& forall|i: int| 0 <= i < self.rolled@.len() ==> (#[trigger] self.rolled@[i]).wf()
        &&& self.total == totals_sum(self.rolled@)
    }
}

} // verus!

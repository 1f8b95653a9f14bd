//! The grammar of dice notation and its scanner.
//!
//! A group is written as a run of digits, the letter `d`, a run of digits and,
//! optionally, a sign followed by a run of digits: the number of dice, the
//! number of sides and the modifier. A text is read from left to right; each
//! group starts at the first position after the group before it where one can
//! start, and takes as many characters as it can. Everything else is skipped.

use crate::decimal::{
    chars_of, decimal_digits, decimal_value, digits_end, is_digit, lemma_decimal_digits,
    lemma_digits_end, lemma_digits_end_reaches, lemma_digits_end_run, lemma_digits_end_within,
    read_number, signed_digits,
};
use vstd::prelude::*;

verus! {

/// What one group of a notation asks for, as the numbers that its digits denote.
pub ghost struct Group {
    pub count: nat,
    pub sides: nat,
    pub modifier: int,
}

/// One group of a notation whose numbers fit the machine's integers.
#[derive(Debug, Clone, Copy, PartialEq, Eq, Structural)]
pub struct DiceGroup {
    pub num: usize,
    pub sides: usize,
    pub modifier: isize,
}

impl View for DiceGroup {
    type V = Group;

    open spec fn view(&self) -> Group {
        Group { count: self.num as nat, sides: self.sides as nat, modifier: self.modifier as int }
    }
}

impl Group {
    /// Whether the group can be rolled at all: at least one die, of at least
    /// two sides.
    pub open spec fn valid(self) -> bool {
        self.count >= 1 && self.sides >= 2
    }

    /// The least total that the group can give: every die shows 1.
    pub open spec fn least_total(self) -> int {
        self.count + self.modifier
    }

    /// The greatest total that the group can give: every die shows its
    /// highest face.
    pub open spec fn greatest_total(self) -> int {
        self.count * self.sides + self.modifier
    }
}

/// The sum of the least totals of `gs`.
pub open spec fn least_totals(gs: Seq<Group>) -> int
    decreases gs.len(),
{
    if gs.len() == 0 {
        0
    } else {
        least_totals(gs.drop_last()) + gs.last().least_total()
    }
}

/// The sum of the greatest totals of `gs`.
pub open spec fn greatest_totals(gs: Seq<Group>) -> int
    decreases gs.len(),
{
    if gs.len() == 0 {
        0
    } else {
        greatest_totals(gs.drop_last()) + gs.last().greatest_total()
    }
}

/// Whether the numbers of `g` fit the machine's integers.
pub open spec fn fits(g: Group) -> bool {
    g.count <= usize::MAX && g.sides <= usize::MAX && isize::MIN <= g.modifier <= isize::MAX
}

/// `g` in the machine's integers, where its numbers fit them.
pub open spec fn scanned(g: Group) -> Option<DiceGroup> {
    if fits(g) {
        Some(DiceGroup { num: g.count as usize, sides: g.sides as usize, modifier: g.modifier as isize })
    } else {
        None
    }
}

/// Whether `g` can be rolled on this machine: it is valid, its numbers fit
/// the machine's integers, and so does every total that it can give.
pub open spec fn rollable(g: Group) -> bool {
    g.valid() && fits(g) && g.greatest_total() <= isize::MAX
}

impl DiceGroup {
    /// The least and the greatest total that the group can give, where it can
    /// be rolled.
    pub fn total_range(&self) -> (range: Option<(isize, isize)>)
        ensures
            range == if rollable(self@) {
                Some((self@.least_total() as isize, self@.greatest_total() as isize))
            } else {
                None::<(isize, isize)>
            },
    {
        if self.num < 1 || self.sides < 2 {
            return None;
        }
        proof {
            assert(self.num <= self.num * self.sides) by (nonlinear_arith)
                requires
                    self.sides >= 1,
            ;
        }
        match self.num.checked_mul(self.sides) {
            Some(faces) => {
                let greatest: i128 = faces as i128 + self.modifier as i128;
                if greatest <= isize::MAX as i128 {
                    let least: i128 = self.num as i128 + self.modifier as i128;
                    Some((least as isize, greatest as isize))
                } else {
                    None
                }
            },
            None => None,
        }
    }
}

/// Whether `c` is a sign.
pub open spec fn is_sign(c: char) -> bool {
    c == '+' || c == '-'
}

/// Where the number of dice of a group that starts at `start` ends.
pub open spec fn count_end(s: Seq<char>, start: int) -> int {
    digits_end(s, start)
}

/// Where the number of sides of a group that starts at `start` ends.
pub open spec fn sides_end(s: Seq<char>, start: int) -> int {
    digits_end(s, count_end(s, start) + 1)
}

/// Whether a group starts at `start`: a digit stands there, the letter `d`
/// follows the run of digits, and a digit follows the letter.
pub open spec fn starts_group(s: Seq<char>, start: int) -> bool {
    &&& 0 <= start < count_end(s, start) < s.len()
    &&& s[count_end(s, start)] == 'd'
    &&& count_end(s, start) + 1 < sides_end(s, start)
}

/// Whether the group that starts at `start` has a modifier: a sign follows
/// the number of sides, and a digit follows the sign.
pub open spec fn has_modifier(s: Seq<char>, start: int) -> bool {
    &&& sides_end(s, start) < s.len()
    &&& is_sign(s[sides_end(s, start)])
    &&& sides_end(s, start) + 1 < digits_end(s, sides_end(s, start) + 1)
}

/// Where the group that starts at `start` ends.
pub open spec fn group_end(s: Seq<char>, start: int) -> int {
    if has_modifier(s, start) {
        digits_end(s, sides_end(s, start) + 1)
    } else {
        sides_end(s, start)
    }
}

/// The modifier of the group that starts at `start`; 0 where it has none.
pub open spec fn modifier_at(s: Seq<char>, start: int) -> int {
    if has_modifier(s, start) {
        let magnitude = decimal_value(s.subrange(sides_end(s, start) + 1, group_end(s, start)));
        if s[sides_end(s, start)] == '-' {
            -magnitude
        } else {
            magnitude as int
        }
    } else {
        0
    }
}

/// The group that starts at `start`.
pub open spec fn group_at(s: Seq<char>, start: int) -> Group
    recommends
        starts_group(s, start),
{
    Group {
        count: decimal_value(s.subrange(start, count_end(s, start))),
        sides: decimal_value(s.subrange(count_end(s, start) + 1, sides_end(s, start))),
        modifier: modifier_at(s, start),
    }
}

/// The groups of `s` from position `from` on, from left to right.
pub open spec fn groups_from(s: Seq<char>, from: int) -> Seq<Group>
    decreases s.len() - from,
    via groups_from_decreases
{
    if from < 0 || from >= s.len() {
        Seq::empty()
    } else if starts_group(s, from) {
        seq![group_at(s, from)] + groups_from(s, group_end(s, from))
    } else {
        groups_from(s, from + 1)
    }
}

#[via_fn]
proof fn groups_from_decreases(s: Seq<char>, from: int) {
    if 0 <= from < s.len() && starts_group(s, from) {
        lemma_group_end(s, from);
    }
}

/// The groups of `s`, from left to right.
pub open spec fn groups(s: Seq<char>) -> Seq<Group> {
    groups_from(s, 0)
}

/// A group ends behind its start, within the text, and its parts lie in order.
pub proof fn lemma_group_end(s: Seq<char>, start: int)
    requires
        starts_group(s, start),
    ensures
        start < count_end(s, start) < sides_end(s, start) <= group_end(s, start) <= s.len(),
{
    lemma_digits_end(s, count_end(s, start) + 1);
    if has_modifier(s, start) {
        lemma_digits_end(s, sides_end(s, start) + 1);
    }
}

/// Whether `t` is a number of the grammar: digits, at least one.
pub open spec fn is_number(t: Seq<char>) -> bool {
    t.len() >= 1 && forall|i: int| 0 <= i < t.len() ==> is_digit(#[trigger] t[i])
}

/// Whether `t` is a group of the grammar whose number of dice ends at `c` and
/// whose number of sides ends at `e`: a number, the letter `d`, a number and
/// then either nothing or a sign and a number.
pub open spec fn is_group_split(t: Seq<char>, c: int, e: int) -> bool {
    &&& 0 < c < e <= t.len()
    &&& is_number(t.subrange(0, c))
    &&& t[c] == 'd'
    &&& is_number(t.subrange(c + 1, e))
    &&& (e == t.len() || (is_sign(t[e]) && is_number(t.subrange(e + 1, t.len() as int))))
}

/// Whether `t` is a group of the grammar.
pub open spec fn is_group(t: Seq<char>) -> bool {
    exists|c: int, e: int| is_group_split(t, c, e)
}

/// What the scanner takes as a group is a group of the grammar.
pub proof fn lemma_group_is_of_grammar(s: Seq<char>, start: int)
    requires
        starts_group(s, start),
    ensures
        is_group(s.subrange(start, group_end(s, start))),
{
    let end = group_end(s, start);
    let t = s.subrange(start, end);
    let c = count_end(s, start) - start;
    let e = sides_end(s, start) - start;
    lemma_group_end(s, start);
    lemma_digits_end(s, start);
    lemma_digits_end(s, count_end(s, start) + 1);
    assert forall|i: int| 0 <= i < c implies is_digit(#[trigger] t.subrange(0, c)[i]) by {
        assert(t.subrange(0, c)[i] == s[start + i]);
    }
    assert forall|i: int| 0 <= i < e - c - 1 implies is_digit(
        #[trigger] t.subrange(c + 1, e)[i],
    ) by {
        assert(t.subrange(c + 1, e)[i] == s[start + c + 1 + i]);
    }
    if has_modifier(s, start) {
        lemma_digits_end(s, sides_end(s, start) + 1);
        let tail = t.subrange(e + 1, t.len() as int);
        assert forall|i: int| 0 <= i < tail.len() implies is_digit(#[trigger] tail[i]) by {
            assert(tail[i] == s[start + e + 1 + i]);
        }
    }
    assert(is_group_split(t, c, e));
}

/// Wherever a group of the grammar stands in a text, the scanner finds a
/// group that starts there and reaches at least as far: it takes the longest.
pub proof fn lemma_grammar_is_scanned(s: Seq<char>, start: int, end: int)
    requires
        0 <= start <= end <= s.len(),
        is_group(s.subrange(start, end)),
    ensures
        starts_group(s, start),
        end <= group_end(s, start),
{
    let t = s.subrange(start, end);
    let (c, e) = choose|c: int, e: int| is_group_split(t, c, e);
    assert forall|i: int| start <= i < start + c implies is_digit(#[trigger] s[i]) by {
        assert(s[i] == t.subrange(0, c)[i - start]);
    }
    assert(s[start + c] == t[c]);
    lemma_digits_end_run(s, start, start + c);
    assert forall|i: int| start + c + 1 <= i < start + e implies is_digit(#[trigger] s[i]) by {
        assert(s[i] == t.subrange(c + 1, e)[i - start - c - 1]);
    }
    lemma_digits_end_reaches(s, start + c + 1, start + e);
    if e < t.len() {
        let tail = t.subrange(e + 1, t.len() as int);
        assert(s[start + e] == t[e]);
        lemma_digits_end_run(s, start + c + 1, start + e);
        assert forall|i: int| start + e + 1 <= i < end implies is_digit(#[trigger] s[i]) by {
            assert(s[i] == tail[i - start - e - 1]);
        }
        lemma_digits_end_reaches(s, start + e + 1, end);
    }
}

/// The magnitude of a modifier.
pub open spec fn magnitude_of(modifier: int) -> nat {
    if modifier < 0 {
        (-modifier) as nat
    } else {
        modifier as nat
    }
}

/// How a modifier is written behind the dice: nothing for 0, with its sign
/// otherwise.
pub open spec fn written_modifier(modifier: int) -> Seq<char> {
    if modifier < 0 {
        signed_digits(modifier)
    } else if modifier > 0 {
        seq!['+'] + decimal_digits(modifier as nat)
    } else {
        Seq::empty()
    }
}

/// How a group is written: the number of dice, the letter `d`, the number of
/// sides, and the modifier.
pub open spec fn written(g: Group) -> Seq<char> {
    decimal_digits(g.count) + seq!['d'] + decimal_digits(g.sides) + written_modifier(g.modifier)
}

/// A group as it is written is read back as that group, and as nothing else.
pub proof fn lemma_written_scans_back(g: Group)
    ensures
        groups(written(g)) == seq![g],
{
    let count = decimal_digits(g.count);
    let sides = decimal_digits(g.sides);
    let modifier = written_modifier(g.modifier);
    let magnitude = decimal_digits(magnitude_of(g.modifier));
    let s = written(g);
    let c = count.len() as int;
    let e = c + 1 + sides.len();
    lemma_decimal_digits(g.count);
    lemma_decimal_digits(g.sides);
    lemma_decimal_digits(magnitude_of(g.modifier));
    assert(modifier.len() == 0 || modifier.len() == 1 + magnitude.len());
    assert(s.len() == e + modifier.len());
    assert forall|i: int| 0 <= i < c implies is_digit(#[trigger] s[i]) by {
        assert(s[i] == count[i]);
    }
    assert(s[c] == 'd');
    lemma_digits_end_run(s, 0, c);
    assert forall|i: int| c + 1 <= i < e implies is_digit(#[trigger] s[i]) by {
        assert(s[i] == sides[i - c - 1]);
    }
    if g.modifier != 0 {
        assert(s[e] == modifier[0]);
        assert(is_sign(s[e]));
        assert forall|i: int| e + 1 <= i < s.len() implies is_digit(#[trigger] s[i]) by {
            assert(s[i] == modifier[i - e]);
            assert(modifier[i - e] == magnitude[i - e - 1]);
        }
        lemma_digits_end_run(s, e + 1, s.len() as int);
        assert(s.subrange(e + 1, s.len() as int) == magnitude);
    }
    lemma_digits_end_run(s, c + 1, e);
    assert(s.subrange(0, c) == count);
    assert(s.subrange(c + 1, e) == sides);
    assert(starts_group(s, 0));
    assert(group_end(s, 0) == s.len());
    assert(group_at(s, 0) == g);
    assert(groups_from(s, s.len() as int) == Seq::<Group>::empty());
    assert(seq![g] + Seq::<Group>::empty() == seq![g]);
}

/// A text without the letter `d` holds no group.
pub proof fn lemma_no_letter_no_groups(s: Seq<char>)
    requires
        forall|i: int| 0 <= i < s.len() ==> s[i] != 'd',
    ensures
        groups(s) == Seq::<Group>::empty(),
{
    assert forall|j: int| 0 <= j < s.len() implies !starts_group(s, j) by {
        if 0 <= count_end(s, j) < s.len() {
            assert(s[count_end(s, j)] != 'd');
        }
    }
    lemma_skip(s, 0, s.len() as int);
}

/// Where no group starts from `from` up to `to`, the groups from `from` on
/// are those from `to` on.
pub proof fn lemma_skip(s: Seq<char>, from: int, to: int)
    requires
        0 <= from <= to <= s.len(),
        forall|j: int| from <= j < to ==> !starts_group(s, j),
    ensures
        groups_from(s, from) == groups_from(s, to),
    decreases to - from,
{
    if from < to {
        lemma_skip(s, from + 1, to);
    }
}

/// Where no group starts at the head of a run of digits, none starts within it.
pub proof fn lemma_no_group_in_run(s: Seq<char>, from: int)
    requires
        0 <= from <= s.len(),
        !starts_group(s, from),
    ensures
        forall|j: int| from <= j < count_end(s, from) ==> !starts_group(s, j),
{
    assert forall|j: int| from <= j < count_end(s, from) implies !starts_group(s, j) by {
        lemma_digits_end_within(s, from, j);
    }
}

/// `n` as an `isize`, where it is one.
pub open spec fn as_isize(n: int) -> Option<isize> {
    if isize::MIN <= n <= isize::MAX {
        Some(n as isize)
    } else {
        None
    }
}

/// The modifier that a sign and a magnitude denote, where it fits in an `isize`.
fn signed(negative: bool, magnitude: usize) -> (m: Option<isize>)
    ensures
        m == as_isize(
            if negative {
                -magnitude
            } else {
                magnitude as int
            },
        ),
{
    if magnitude <= isize::MAX as usize {
        if negative {
            Some(-(magnitude as isize))
        } else {
            Some(magnitude as isize)
        }
    } else if negative && magnitude - 1 == isize::MAX as usize {
        Some(isize::MIN)
    } else {
        None
    }
}

/// Scans `dice` for its groups, from left to right. A group whose numbers do
/// not all fit the machine's integers comes out as `None`.
pub fn scan(dice: &str) -> (out: Vec<Option<DiceGroup>>)
    ensures
        out@ == groups(dice@).map_values(|g: Group| scanned(g)),
{
    let s = chars_of(dice);
    let mut out: Vec<Option<DiceGroup>> = Vec::new();
    let ghost mut done: Seq<Group> = Seq::empty();
    let mut i: usize = 0;
    while i < s.len()
        invariant
            s@ == dice@,
            i <= s@.len(),
            done + groups_from(s@, i as int) == groups(s@),
            out@ == done.map_values(|g: Group| scanned(g)),
        decreases s@.len() - i,
    {
        let (count_end, count) = read_number(&s, i);
        proof {
            lemma_digits_end(s@, i as int);
        }
        let mut found = false;
        if i < count_end && count_end < s.len() && s[count_end] == 'd' {
            let (sides_end, sides) = read_number(&s, count_end + 1);
            if count_end + 1 < sides_end {
                proof {
                    lemma_group_end(s@, i as int);
                }
                let mut end: usize = sides_end;
                let mut modifier: Option<isize> = Some(0);
                if sides_end < s.len() && (s[sides_end] == '+' || s[sides_end] == '-') {
                    let (modifier_end, magnitude) = read_number(&s, sides_end + 1);
                    if sides_end + 1 < modifier_end {
                        end = modifier_end;
                        modifier = match magnitude {
                            Some(magnitude) => signed(s[sides_end] == '-', magnitude),
                            None => None,
                        };
                    }
                }
                let group = match (count, sides, modifier) {
                    (Some(num), Some(sides), Some(modifier)) => Some(
                        DiceGroup { num, sides, modifier },
                    ),
                    _ => None,
                };
                proof {
                    let g = group_at(s@, i as int);
                    assert(end == group_end(s@, i as int));
                    assert(group == scanned(g));
                    assert(done.push(g) + groups_from(s@, end as int) == done + groups_from(
                        s@,
                        i as int,
                    ));
                    assert(done.push(g).map_values(|g: Group| scanned(g)) == out@.push(group));
                    done = done.push(g);
                }
                out.push(group);
                i = end;
                found = true;
            }
        }
        if !found {
            let next: usize = if i < count_end {
                count_end
            } else {
                i + 1
            };
            proof {
                lemma_no_group_in_run(s@, i as int);
                lemma_skip(s@, i as int, next as int);
            }
            i = next;
        }
    }
    proof {
        assert(done + groups_from(s@, i as int) == done);
    }
    out
}

} // verus!

//! Decimal numerals: the digits of a number and the value of a run of digits.

use vstd::prelude::*;

verus! {

/// Whether `c` is one of the ten ASCII digits.
pub open spec fn is_digit(c: char) -> bool {
    '0' <= c <= '9'
}

/// The value of the ASCII digit `c`.
pub open spec fn digit_value(c: char) -> nat
    recommends
        is_digit(c),
{
    (c as int - '0' as int) as nat
}

/// The ASCII digit that stands for `d`.
pub open spec fn digit_char(d: nat) -> char
    recommends
        d < 10,
{
    ('0' as int + d) as char
}

/// The value that a run of digits denotes, most significant digit first.
pub open spec fn decimal_value(s: Seq<char>) -> nat
    decreases s.len(),
{
    if s.len() == 0 {
        0
    } else {
        decimal_value(s.drop_last()) * 10 + digit_value(s.last())
    }
}

/// The shortest run of digits that denotes `n`.
pub open spec fn decimal_digits(n: nat) -> Seq<char>
    decreases n,
{
    if n < 10 {
        seq![digit_char(n)]
    } else {
        decimal_digits(n / 10).push(digit_char(n % 10))
    }
}

/// How a signed number is written: a minus sign before the digits of a
/// negative one, the digits alone otherwise.
pub open spec fn signed_digits(n: int) -> Seq<char> {
    if n < 0 {
        seq!['-'] + decimal_digits((-n) as nat)
    } else {
        decimal_digits(n as nat)
    }
}

/// Where the longest run of digits that starts at `from` ends: the first
/// position from `from` on that holds no digit.
pub open spec fn digits_end(s: Seq<char>, from: int) -> int
    decreases s.len() - from,
{
    if 0 <= from < s.len() && is_digit(s[from]) {
        digits_end(s, from + 1)
    } else {
        from
    }
}

/// `n` as a `usize`, where it is one.
pub open spec fn as_usize(n: nat) -> Option<usize> {
    if n <= usize::MAX {
        Some(n as usize)
    } else {
        None
    }
}

/// The digits of a number are digits, at least one of them, and denote the
/// number.
pub proof fn lemma_decimal_digits(n: nat)
    ensures
        decimal_digits(n).len() >= 1,
        forall|i: int| 0 <= i < decimal_digits(n).len() ==> is_digit(#[trigger] decimal_digits(n)[i]),
        decimal_value(decimal_digits(n)) == n,
    decreases n,
{
    let digits = decimal_digits(n);
    if n < 10 {
        assert(digits.drop_last() == Seq::<char>::empty());
        assert(decimal_value(digits.drop_last()) == 0);
    } else {
        lemma_decimal_digits(n / 10);
        assert(digits.drop_last() == decimal_digits(n / 10));
    }
}

/// A run of digits ends at or after its start, within the text, and holds
/// digits only; the position behind it holds none.
pub proof fn lemma_digits_end(s: Seq<char>, from: int)
    requires
        0 <= from <= s.len(),
    ensures
        from <= digits_end(s, from) <= s.len(),
        forall|i: int| from <= i < digits_end(s, from) ==> is_digit(#[trigger] s[i]),
        digits_end(s, from) < s.len() ==> !is_digit(s[digits_end(s, from)]),
    decreases s.len() - from,
{
    if from < s.len() && is_digit(s[from]) {
        lemma_digits_end(s, from + 1);
    }
}

/// A run of digits that is entered later ends where it ended.
pub proof fn lemma_digits_end_within(s: Seq<char>, from: int, at: int)
    requires
        0 <= from <= at <= digits_end(s, from),
    ensures
        digits_end(s, at) == digits_end(s, from),
    decreases at - from,
{
    if from < at {
        lemma_digits_end_within(s, from + 1, at);
    }
}

/// A stretch of digits that no digit follows is the run of digits that starts
/// where it starts.
pub proof fn lemma_digits_end_run(s: Seq<char>, from: int, to: int)
    requires
        0 <= from <= to <= s.len(),
        forall|i: int| from <= i < to ==> is_digit(#[trigger] s[i]),
        to < s.len() ==> !is_digit(s[to]),
    ensures
        digits_end(s, from) == to,
    decreases to - from,
{
    if from < to {
        lemma_digits_end_run(s, from + 1, to);
    }
}

/// A run of digits reaches at least as far as any stretch of digits from its
/// start.
pub proof fn lemma_digits_end_reaches(s: Seq<char>, from: int, to: int)
    requires
        0 <= from <= to <= s.len(),
        forall|i: int| from <= i < to ==> is_digit(#[trigger] s[i]),
    ensures
        to <= digits_end(s, from),
    decreases to - from,
{
    if from < to {
        assert(is_digit(s[from]));
        lemma_digits_end_reaches(s, from + 1, to);
    } else {
        lemma_digits_end(s, from);
    }
}

/// Tells whether `c` is an ASCII digit.
pub fn char_is_digit(c: char) -> (b: bool)
    ensures
        b == is_digit(c),
{
    '0' <= c && c <= '9'
}

/// The characters of `s`, in order.
pub fn chars_of(s: &str) -> (v: Vec<char>)
    ensures
        v@ == s@,
{
    let mut v: Vec<char> = Vec::new();
    let mut it = s.chars();
    for c in iter: it
        invariant
            v@ == iter.seq().take(iter.index()),
    {
        v.push(c);
    }
    v
}

/// Reads the run of digits of `s` that starts at `start`: where it ends, and
/// its value where that fits in a `usize`.
pub fn read_number(s: &Vec<char>, start: usize) -> (res: (usize, Option<usize>))
    requires
        start <= s@.len(),
    ensures
        res.0 == digits_end(s@, start as int),
        res.1 == as_usize(decimal_value(s@.subrange(start as int, res.0 as int))),
{
    let mut end: usize = start;
    let mut value: Option<usize> = Some(0);
    proof {
        lemma_digits_end(s@, start as int);
    }
    while end < s.len() && char_is_digit(s[end])
        invariant
            start <= end <= s@.len(),
            end <= digits_end(s@, start as int),
            value == as_usize(decimal_value(s@.subrange(start as int, end as int))),
        decreases s@.len() - end,
    {
        let digit: usize = (s[end] as u32 - '0' as u32) as usize;
        proof {
            let run = s@.subrange(start as int, end + 1);
            assert(run.drop_last() == s@.subrange(start as int, end as int));
            assert(run.last() == s@[end as int]);
            assert(digit == digit_value(s@[end as int]));
            lemma_digits_end_within(s@, start as int, end as int);
            lemma_digits_end(s@, end + 1);
        }
        value = match value {
            Some(v) => match v.checked_mul(10) {
                Some(tens) => tens.checked_add(digit),
                None => None,
            },
            None => None,
        };
        end += 1;
    }
    proof {
        lemma_digits_end_within(s@, start as int, end as int);
    }
    (end, value)
}

/// The digit that stands for `d`, as a text of one character.
fn digit_text(d: usize) -> (text: &'static str)
    requires
        d < 10,
    ensures
        text@ == seq![digit_char(d as nat)],
{
    proof {
        reveal_strlit("0");
        reveal_strlit("1");
        reveal_strlit("2");
        reveal_strlit("3");
        reveal_strlit("4");
        reveal_strlit("5");
        reveal_strlit("6");
        reveal_strlit("7");
        reveal_strlit("8");
        reveal_strlit("9");
    }
    let text = match d {
        0 => "0",
        1 => "1",
        2 => "2",
        3 => "3",
        4 => "4",
        5 => "5",
        6 => "6",
        7 => "7",
        8 => "8",
        _ => "9",
    };
    assert(text@ =~= seq![digit_char(d as nat)]);
    text
}

/// Appends the digits of `n` to `out`.
pub fn push_decimal(out: &mut String, n: usize)
    ensures
        final(out)@ == old(out)@ + decimal_digits(n as nat),
    decreases n,
{
    if n >= 10 {
        push_decimal(out, n / 10);
    }
    out.append(digit_text(n % 10));
    proof {
        let front = old(out)@;
        if n >= 10 {
            assert(out@ =~= front + decimal_digits((n / 10) as nat).push(
                digit_char((n % 10) as nat),
            ));
        }
    }
}

/// Appends `n` to `out` as a signed number is written.
pub fn push_signed(out: &mut String, n: isize)
    ensures
        final(out)@ == old(out)@ + signed_digits(n as int),
{
    if n < 0 {
        proof {
            reveal_strlit("-");
        }
        out.append("-");
        let magnitude: i128 = -(n as i128);
        push_decimal(out, magnitude as usize);
        assert(out@ =~= old(out)@ + signed_digits(n as int));
    } else {
        push_decimal(out, n as usize);
    }
}

} // verus!

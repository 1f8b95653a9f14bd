use dice_roller::notation::{scan, DiceGroup};
use regex::Regex;

fn group(num: usize, sides: usize, modifier: isize) -> Option<DiceGroup> {
    Some(DiceGroup {
        num,
        sides,
        modifier,
    })
}

fn grammar() -> Regex {
    Regex::new("([0-9]+)d([0-9]+)([-+][0-9]+)?").unwrap()
}

// The groups of `text` as a regular expression for the grammar finds them.
fn groups_by_pattern(pattern: &Regex, text: &str) -> Vec<Option<DiceGroup>> {
    pattern
        .captures_iter(text)
        .map(|found| {
            let num = found.get(1).unwrap().as_str().parse::<usize>().ok();
            let sides = found.get(2).unwrap().as_str().parse::<usize>().ok();
            let modifier = match found.get(3) {
                Some(written) => written.as_str().parse::<isize>().ok(),
                None => Some(0),
            };
            match (num, sides, modifier) {
                (Some(num), Some(sides), Some(modifier)) => group(num, sides, modifier),
                _ => None,
            }
        })
        .collect()
}

#[test]
fn scan_finds_groups_in_order() {
    assert_eq!(scan("3d6+2 2d4"), vec![group(3, 6, 2), group(2, 4, 0)]);
}

#[test]
fn scan_reads_a_negative_modifier() {
    assert_eq!(scan("1d2-3"), vec![group(1, 2, -3)]);
}

#[test]
fn scan_reads_long_numbers() {
    assert_eq!(scan("12d345+6789"), vec![group(12, 345, 6789)]);
}

#[test]
fn scan_reads_leading_zeros() {
    assert_eq!(scan("003d006+007"), vec![group(3, 6, 7)]);
    assert_eq!(scan("0d0-0"), vec![group(0, 0, 0)]);
}

#[test]
fn scan_skips_other_text() {
    assert_eq!(
        scan("roll 2d10, then 1d4-1 please"),
        vec![group(2, 10, 0), group(1, 4, -1)]
    );
}

#[test]
fn scan_of_text_without_groups_is_empty() {
    for text in ["", "3+2", "d", "d6", "3d", "3 d 6", "3D6", "+-+", "12345", "3d+6"] {
        assert_eq!(scan(text), vec![], "in {:?}", text);
    }
}

#[test]
fn scan_takes_a_sign_without_digits_as_other_text() {
    assert_eq!(scan("3d6+"), vec![group(3, 6, 0)]);
    assert_eq!(scan("3d6-"), vec![group(3, 6, 0)]);
    assert_eq!(scan("3d6+-2"), vec![group(3, 6, 0)]);
    assert_eq!(scan("3d6+ 2d4"), vec![group(3, 6, 0), group(2, 4, 0)]);
}

#[test]
fn scan_takes_the_longest_group() {
    assert_eq!(scan("1d2+3d4"), vec![group(1, 2, 3)]);
    assert_eq!(scan("1d2d3"), vec![group(1, 2, 0)]);
    assert_eq!(scan("1d2+3+4"), vec![group(1, 2, 3)]);
}

#[test]
fn scan_starts_a_group_at_the_head_of_its_digits() {
    assert_eq!(scan("x12d6"), vec![group(12, 6, 0)]);
    assert_eq!(scan("1d2 3d4-5,6d7"), vec![group(1, 2, 0), group(3, 4, -5), group(6, 7, 0)]);
    assert_eq!(scan("1d2-3d4"), vec![group(1, 2, -3)]);
    assert_eq!(scan("dd1d2dd"), vec![group(1, 2, 0)]);
}

#[test]
fn scan_knows_ascii_digits_only() {
    assert_eq!(scan("\u{0663}d6"), vec![]);
    assert_eq!(scan("3d\u{ff16}"), vec![]);
    assert_eq!(scan("\u{00e9}3d6\u{00fc}"), vec![group(3, 6, 0)]);
    assert_eq!(scan("3d6\u{2212}2"), vec![group(3, 6, 0)]);
}

#[test]
fn scan_reports_numbers_beyond_the_machine_as_none() {
    assert_eq!(scan("99999999999999999999999999999999999999999d6"), vec![None]);
    assert_eq!(scan("6d99999999999999999999999999999999999999999"), vec![None]);
    assert_eq!(scan("1d6+99999999999999999999999999999999999999999"), vec![None]);
    assert_eq!(scan("1d6-99999999999999999999999999999999999999999"), vec![None]);
    assert_eq!(
        scan("2d4 99999999999999999999999999999999999999999d6 1d8"),
        vec![group(2, 4, 0), None, group(1, 8, 0)]
    );
}

#[test]
fn scan_reads_the_limits_of_the_machine() {
    let most = format!("{}d{}+{}", usize::MAX, usize::MAX, isize::MAX);
    assert_eq!(scan(&most), vec![group(usize::MAX, usize::MAX, isize::MAX)]);
    let least = format!("1d2{}", isize::MIN);
    assert_eq!(scan(&least), vec![group(1, 2, isize::MIN)]);
    let above = format!("1d2+{}", isize::MAX as u128 + 1);
    assert_eq!(scan(&above), vec![None]);
    let below = format!("1d2-{}", isize::MAX as u128 + 2);
    assert_eq!(scan(&below), vec![None]);
    let beyond = format!("{}d2", usize::MAX as u128 + 1);
    assert_eq!(scan(&beyond), vec![None]);
}

#[test]
fn scan_agrees_with_a_pattern_of_the_grammar() {
    let texts = [
        "",
        "3d6",
        "3d6+2 2d4",
        "1d2-3",
        "3d6+",
        "3d6+-2",
        "1d2+3d4",
        "1d2d3d4d5",
        "12d34+56-78",
        "d6 3d 3+2 +4d6-",
        "0d0+0 00d00-00",
        "1d6+99999999999999999999999999999999999999999",
        "99999999999999999999999999999999999999999d6 2d4",
        "\u{00e9}3d6\u{00fc} \u{0663}d6 4d8",
        "a1b2c3d4e5f6d7+8g9d",
        "1d2 3d4,5d6;7d8+9\n10d11-12\t13d14",
        "++1d1--1d1+-1d1-+1d1",
        "111d222+333d444+555d666",
    ];
    let pattern = grammar();
    for text in texts {
        assert_eq!(scan(text), groups_by_pattern(&pattern, text), "in {:?}", text);
    }
}

#[test]
fn scan_agrees_with_a_pattern_on_every_short_text() {
    let pattern = grammar();
    let letters = ['1', '0', 'd', '+', '-', ' '];
    let mut texts: Vec<String> = vec![String::new()];
    for _ in 0..5 {
        let mut longer: Vec<String> = Vec::new();
        for text in &texts {
            for letter in letters {
                let mut next = text.clone();
                next.push(letter);
                longer.push(next);
            }
        }
        for text in &longer {
            assert_eq!(scan(text), groups_by_pattern(&pattern, text), "in {:?}", text);
        }
        texts = longer;
    }
}

#[test]
fn total_range_of_a_group_that_can_be_rolled() {
    let three = DiceGroup { num: 3, sides: 6, modifier: 2 };
    assert_eq!(three.total_range(), Some((5, 20)));
    let low = DiceGroup { num: 1, sides: 2, modifier: -3 };
    assert_eq!(low.total_range(), Some((-2, -1)));
    let wide = DiceGroup { num: 1, sides: usize::MAX, modifier: isize::MIN };
    assert_eq!(wide.total_range(), Some((isize::MIN + 1, isize::MAX)));
}

#[test]
fn total_range_of_a_group_that_cannot_be_rolled() {
    assert_eq!(DiceGroup { num: 0, sides: 6, modifier: 0 }.total_range(), None);
    assert_eq!(DiceGroup { num: 3, sides: 1, modifier: 0 }.total_range(), None);
    assert_eq!(DiceGroup { num: 3, sides: 0, modifier: 0 }.total_range(), None);
    assert_eq!(DiceGroup { num: usize::MAX, sides: 2, modifier: 0 }.total_range(), None);
    assert_eq!(DiceGroup { num: 1, sides: 2, modifier: isize::MAX - 1 }.total_range(), None);
    assert_eq!(
        DiceGroup { num: 1, sides: 2, modifier: isize::MAX - 2 }.total_range(),
        Some((isize::MAX - 1, isize::MAX))
    );
}

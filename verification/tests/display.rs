use dice_roller::results::{AllRollResults, DiceRolls, RollResult};

fn outcome(rolls: Vec<usize>, sides: usize, modifier: isize, total: isize) -> RollResult {
    RollResult {
        total,
        rolled: DiceRolls { rolls: rolls.clone() },
        selected_rolls: DiceRolls { rolls: rolls.clone() },
        sides,
        num_dice: rolls.len(),
        modifier,
    }
}

#[test]
fn sort_gives_the_faces_from_the_highest_to_the_lowest() {
    assert_eq!(DiceRolls { rolls: vec![3, 4, 2] }.sort(), vec![4, 3, 2]);
    assert_eq!(DiceRolls { rolls: vec![1, 6, 3, 6, 1, 1] }.sort(), vec![6, 6, 3, 1, 1, 1]);
    assert_eq!(DiceRolls { rolls: vec![5] }.sort(), vec![5]);
    assert_eq!(DiceRolls { rolls: vec![] }.sort(), Vec::<usize>::new());
    assert_eq!(DiceRolls { rolls: vec![1, 2, 3, 4, 5] }.sort(), vec![5, 4, 3, 2, 1]);
    assert_eq!(DiceRolls { rolls: vec![0, usize::MAX, 7] }.sort(), vec![usize::MAX, 7, 0]);
}

#[test]
fn sort_leaves_the_faces_as_they_fell() {
    let rolls = DiceRolls { rolls: vec![3, 4, 2, 4, 1] };
    let sorted = rolls.sort();
    assert_eq!(sorted, vec![4, 4, 3, 2, 1]);
    assert_eq!(rolls.rolls, vec![3, 4, 2, 4, 1]);
    let shown = rolls.to_string();
    assert_eq!(shown, "[4,4,3,2,1]");
    assert_eq!(rolls.rolls, vec![3, 4, 2, 4, 1]);
}

#[test]
fn sort_agrees_with_the_standard_library() {
    let mut rolls: Vec<usize> = Vec::new();
    let mut seed: usize = 12345;
    for _ in 0..30000 {
        seed = seed.wrapping_mul(6364136223846793005).wrapping_add(1442695040888963407);
        rolls.push((seed >> 33) % 20 + 1);
    }
    let mut expected = rolls.clone();
    expected.sort();
    expected.reverse();
    assert_eq!(DiceRolls { rolls }.sort(), expected);
}

#[test]
fn faces_without_dice_are_shown_as_empty_brackets() {
    assert_eq!(DiceRolls { rolls: vec![] }.to_string(), "[]");
    assert_eq!(DiceRolls { rolls: vec![12] }.to_string(), "[12]");
    assert_eq!(DiceRolls { rolls: vec![10, 100, 1] }.to_string(), "[100,10,1]");
}

#[test]
fn signed_modifier_is_empty_for_zero_and_signed_otherwise() {
    assert_eq!(outcome(vec![1], 6, 0, 1).signed_modifier(), "");
    assert_eq!(outcome(vec![1], 6, 2, 3).signed_modifier(), "+2");
    assert_eq!(outcome(vec![1], 6, -2, -1).signed_modifier(), "-2");
    assert_eq!(outcome(vec![1], 6, isize::MAX, 0).signed_modifier(), format!("+{}", isize::MAX));
    assert_eq!(outcome(vec![1], 6, isize::MIN, 0).signed_modifier(), isize::MIN.to_string());
}

#[test]
fn dice_as_str_is_the_notation_of_the_group() {
    assert_eq!(outcome(vec![1, 6, 3], 6, 0, 10).dice_as_str(), "3d6");
    assert_eq!(outcome(vec![3, 6, 3], 6, 2, 14).dice_as_str(), "3d6+2");
    assert_eq!(outcome(vec![2, 1, 4], 6, -2, 5).dice_as_str(), "3d6-2");
    assert_eq!(outcome(vec![7; 12], 100, 10, 94).dice_as_str(), "12d100+10");
    assert_eq!(outcome(vec![], 0, 0, 0).dice_as_str(), "0d0");
}

#[test]
fn outcome_shows_the_total_with_its_sign() {
    assert_eq!(outcome(vec![1, 1, 2], 6, -6, -2).to_string(), "3d6-6:[2,1,1]:-2");
    assert_eq!(outcome(vec![2, 2], 2, -4, 0).to_string(), "2d2-4:[2,2]:0");
    assert_eq!(outcome(vec![20], 20, 100, 120).to_string(), "1d20+100:[20]:120");
}

#[test]
fn outcome_is_shown_as_its_fields_say() {
    let odd = RollResult {
        total: -7,
        rolled: DiceRolls { rolls: vec![2, 9] },
        selected_rolls: DiceRolls { rolls: vec![] },
        sides: 4,
        num_dice: 5,
        modifier: 1,
    };
    assert_eq!(odd.to_string(), "5d4+1:[9,2]:-7");
}

#[test]
fn aggregate_without_outcomes_shows_the_total_alone() {
    assert_eq!(AllRollResults { total: 0, rolled: vec![] }.to_string(), "::0");
}

#[test]
fn aggregate_of_one_outcome_has_no_commas_between_groups() {
    let all = AllRollResults { total: 10, rolled: vec![outcome(vec![1, 6, 3], 6, 0, 10)] };
    assert_eq!(all.to_string(), "3d6:[6,3,1]:10");
}

#[test]
fn aggregate_of_three_outcomes_joins_them_in_order() {
    let all = AllRollResults {
        total: -1,
        rolled: vec![
            outcome(vec![2, 1, 4], 6, -2, 5),
            outcome(vec![3, 4], 4, 1, 8),
            outcome(vec![1], 20, -15, -14),
        ],
    };
    assert_eq!(all.to_string(), "3d6-2,2d4+1,1d20-15:[4,2,1],[4,3],[1]:-1");
}

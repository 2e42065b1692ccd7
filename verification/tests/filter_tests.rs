//! Tests of the structural position filters and the opening template.

use focdle::guesser::{create_better_guess, FreqOracle, Guesser};

// Symbol indices: digits at their value, then '+', '-', '*', '%', '='.
const PLUS: usize = 10;
const MINUS: usize = 11;
const STAR: usize = 12;
const PERCENT: usize = 13;

fn fresh(difficulty: usize) -> Guesser {
    Guesser::new(difficulty, &vec![], FreqOracle::uniform(difficulty))
}

#[test]
fn probe_filter_blocks_operators_and_zero_up_front() {
    let g = fresh(9);
    let f = g.fail_filters(0, None, 2, 0);
    assert!(f[0]);
    assert!(f[PLUS] && f[MINUS] && f[STAR] && f[PERCENT]);
    for k in 1..10 {
        assert!(!f[k]);
    }
    assert!(!f[14]);
}

#[test]
fn probe_filter_blocks_operator_after_operator() {
    let g = fresh(9);
    let f = g.fail_filters(3, Some('+'), 1, 0);
    assert!(f[0]);
    assert!(f[PLUS] && f[MINUS] && f[STAR] && f[PERCENT]);
    assert!(!f[5]);
}

#[test]
fn probe_filter_blocks_operators_when_budget_spent() {
    let g = fresh(9);
    let f = g.fail_filters(4, Some('5'), -2, 0);
    assert!(f[PLUS] && f[MINUS] && f[STAR] && f[PERCENT]);
    assert!(!f[0]);
    let f2 = g.fail_filters(4, Some('5'), 2, 2);
    assert!(f2[PLUS] && f2[MINUS] && f2[STAR] && f2[PERCENT]);
}

#[test]
fn solve_filter_caps_operand_length_at_two_digits() {
    let g = fresh(9);
    // Two digits behind the cursor: every digit is filtered.
    let f = g.normal_filters(2, Some('4'), Some('1'), 2, 0, 3);
    for k in 0..10 {
        assert!(f[k]);
    }
    // The operator budget equals the remaining operator need: digits are
    // filtered to keep room.
    let f2 = g.normal_filters(3, Some('+'), Some('1'), 2, 0, 3);
    for k in 0..10 {
        assert!(f2[k]);
    }
    // No operator budget left: operators are filtered.
    let f3 = g.normal_filters(4, Some('1'), Some('+'), 0, 0, 2);
    assert!(f3[PLUS] && f3[MINUS] && f3[STAR] && f3[PERCENT]);
}

#[test]
fn opening_template_keeps_its_equality_positions() {
    // The difficulty-eight template fixes the equality sign at position
    // five; the chooser only re-fills the other slots.
    let guess = create_better_guess(&vec![], 8, FreqOracle::uniform(8)).unwrap();
    assert_eq!(guess.chars().nth(5), Some('='));
    assert!(guess.chars().filter(|c| *c == '=').count() >= 1);

    // The difficulty-nine template fixes equality signs at five and six.
    let guess9 = create_better_guess(&vec![], 9, FreqOracle::uniform(9)).unwrap();
    assert_eq!(guess9.chars().nth(5), Some('='));
    assert_eq!(guess9.chars().nth(6), Some('='));
}

#[test]
fn opening_pool_is_gated_by_difficulty() {
    // Below fourteen no '9' is offered; below thirteen no '+', '-' or '*';
    // below eight no '%'.
    let g7 = create_better_guess(&vec![], 7, FreqOracle::uniform(7)).unwrap();
    assert!(g7.chars().all(|c| ('0'..='8').contains(&c)));

    let g8 = create_better_guess(&vec![], 8, FreqOracle::uniform(8)).unwrap();
    assert!(g8.chars().all(|c| ('0'..='8').contains(&c) || c == '%' || c == '='));

    let g13 = create_better_guess(&vec![], 13, FreqOracle::uniform(13)).unwrap();
    assert!(!g13.contains('9'));
}

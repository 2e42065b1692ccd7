//! Tests of the constraint index builder.

use focdle::feedback::set_colors;
use focdle::index::InfoIndex;

// Symbol indices: digits at their value, then '+', '-', '*', '%', '='.
const PLUS: usize = 10;
const MINUS: usize = 11;
const STAR: usize = 12;
const PERCENT: usize = 13;
const EQ: usize = 14;

#[test]
fn index_initial_bounds() {
    let idx = InfoIndex::build(7, &vec![]);
    assert_eq!(idx.lookup[0].min, 0);
    assert_eq!(idx.lookup[0].max, 0); // difficulty - 7
    assert_eq!(idx.lookup[1].min, 0);
    assert_eq!(idx.lookup[1].max, 4); // difficulty - 3
    assert_eq!(idx.lookup[PLUS].min, 0);
    assert_eq!(idx.lookup[PLUS].max, 2);
    assert_eq!(idx.lookup[EQ].min, 1);
    assert_eq!(idx.lookup[EQ].max, 1);
    for k in 0..15 {
        for p in 0..7 {
            assert!(!idx.lookup[k].correct[p]);
            assert!(!idx.lookup[k].incorrect[p]);
        }
    }
}

#[test]
fn index_folds_feedback_and_infers_operators() {
    // Secret 1+1+1=3, guess 2+2+2=4: both plus signs and the equality sign
    // are green, every '2' and the '4' are grey.
    let row = set_colors("1+1+1=3", "2+2+2=4");
    let idx = InfoIndex::build(7, &vec![row]);

    // '+' confirmed twice: every other operator is ruled out.
    assert_eq!(idx.lookup[PLUS].min, 2);
    assert_eq!(idx.lookup[PLUS].max, 2);
    for op in [MINUS, STAR, PERCENT] {
        assert_eq!(idx.lookup[op].min, 0);
        assert_eq!(idx.lookup[op].max, 0);
    }

    // Grey symbols drop to zero occurrences.
    assert_eq!(idx.lookup[2].min, 0);
    assert_eq!(idx.lookup[2].max, 0);
    assert_eq!(idx.lookup[4].min, 0);
    assert_eq!(idx.lookup[4].max, 0);

    // Position facts.
    assert!(idx.lookup[PLUS].correct[1]);
    assert!(idx.lookup[PLUS].correct[3]);
    assert!(idx.lookup[EQ].correct[5]);
    assert!(idx.lookup[2].incorrect[0]);
    assert!(idx.lookup[2].incorrect[2]);
    assert!(idx.lookup[2].incorrect[4]);
    assert!(idx.lookup[4].incorrect[6]);
    assert!(!idx.lookup[1].incorrect[0]);
}

#[test]
fn index_monotone_across_growing_history() {
    // Bounds only tighten as real feedback accumulates.
    let secret = "11+1+1=13";
    let guesses = ["98-76+54=", "12+34-56=", "11+1+1=13"];
    let mut history = Vec::new();
    let mut prev = InfoIndex::build(9, &history);
    for g in guesses {
        history.push(set_colors(secret, g));
        let next = InfoIndex::build(9, &history);
        for k in 0..15 {
            assert!(prev.lookup[k].min <= next.lookup[k].min);
            assert!(prev.lookup[k].max >= next.lookup[k].max);
        }
        prev = next;
    }
}

#[test]
fn index_yellow_raises_minimum() {
    // Secret 1+1+1=3, guess 3+1+1=1: the leading '3' is misplaced, so at
    // least one '3' must occur.
    let row = set_colors("1+1+1=3", "3+1+1=1");
    let idx = InfoIndex::build(7, &vec![row]);
    assert!(idx.lookup[3].min >= 1);
    assert!(idx.lookup[3].incorrect[0]);
}

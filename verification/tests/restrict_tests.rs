//! Tests of the restriction checker.

use focdle::feedback::set_colors;
use focdle::index::InfoIndex;
use focdle::restrict::passes_restrictions;

#[test]
fn restriction_accepts_valid_fresh_guess() {
    let idx = InfoIndex::build(7, &vec![]);
    assert!(passes_restrictions("1+1+1=3", &idx));
}

#[test]
fn restriction_rejects_missing_equality() {
    // The equality sign must occur exactly once.
    let idx = InfoIndex::build(7, &vec![]);
    assert!(!passes_restrictions("1+1+131", &idx));
}

#[test]
fn restriction_rejects_occurrence_above_maximum() {
    // Six ones exceed the four operand-and-result digit slots of
    // difficulty seven.
    let idx = InfoIndex::build(7, &vec![]);
    assert!(!passes_restrictions("111=111", &idx));
}

#[test]
fn restriction_rejects_ruled_out_position() {
    // '2' was grey at position 0, so no '2' may stand there again.
    let row = set_colors("1+1+1=3", "2+2+2=4");
    let idx = InfoIndex::build(7, &vec![row]);
    assert!(!passes_restrictions("2+4+1=7", &idx));
}

#[test]
fn restriction_rejects_contradicting_confirmed_position() {
    // '+' is confirmed at position 1; a guess with '1' there violates it.
    let row = set_colors("1+1+1=3", "2+2+2=4");
    let idx = InfoIndex::build(7, &vec![row]);
    assert!(!passes_restrictions("11+1=12", &idx));
}

#[test]
fn restriction_is_deterministic_on_revalidation() {
    // A guess judged against an index built from a history H is judged the
    // same against a fresh index rebuilt from the same H.
    let row = set_colors("11+1+1=13", "98-76+54=");
    let history = vec![row];
    let idx1 = InfoIndex::build(9, &history);
    let idx2 = InfoIndex::build(9, &history);
    for guess in ["11+1+1=13", "12+34+5=9", "99-9-9=81", "1+1+11=13"] {
        let first = passes_restrictions(guess, &idx1);
        let again = passes_restrictions(guess, &idx2);
        assert_eq!(first, again);
        assert_eq!(first, passes_restrictions(guess, &idx1));
    }
}

#[test]
fn restriction_rejects_too_diverse_guess() {
    // After a round proving that '1' repeats at least four times, a guess
    // spreading over many distinct symbols is rejected.
    let row = set_colors("11+1+1=13", "11+1+1=31");
    let idx = InfoIndex::build(9, &vec![row]);
    // '1' now has a minimum of five occurrences (four green, one yellow)
    // and '+' of two, so at most four distinct symbols fit into nine slots.
    assert!(!passes_restrictions("12+34-56=", &idx));
}

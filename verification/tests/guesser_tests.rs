//! Tests of the guessing engine: guess creation, the probe decision, and
//! the convergence of the solve search.

use focdle::feedback::set_colors;
use focdle::guesser::{create_better_guess, FreqOracle, Guesser};

#[test]
fn first_guess_has_the_difficulty_length() {
    for difficulty in 7..=15usize {
        let oracle = FreqOracle::uniform(difficulty);
        let guess = create_better_guess(&vec![], difficulty, oracle).unwrap();
        assert_eq!(guess.chars().count(), difficulty);
    }
}

#[test]
fn probe_decision_follows_difficulty_table() {
    let secret8 = "4+5+9=18";
    let row = set_colors(secret8, "12+34=56");
    let history = vec![row];

    // Difficulty 8 probes exactly on the first attempt after feedback.
    let g1 = Guesser::new(8, &history, FreqOracle::uniform(8));
    assert!(g1.should_fail());

    // Difficulty 7 never probes.
    let row7 = set_colors("1+1+1=3", "2+2+2=4");
    let g2 = Guesser::new(7, &vec![row7], FreqOracle::uniform(7));
    assert!(!g2.should_fail());

    // Attempt 0 never probes either.
    let g3 = Guesser::new(8, &vec![], FreqOracle::uniform(8));
    assert!(!g3.should_fail());
}

#[test]
fn equality_deduction_assumes_position_when_unknown() {
    // With no confirmed equality position, the sign is assumed at
    // min(difficulty - 2, 8).
    let row = set_colors("4+5+9=18", "12+34-56");
    let mut g = Guesser::new(8, &vec![row], FreqOracle::uniform(8));
    // Position 6 assumed: result length 8 - 6 - 1 = 1.
    assert_eq!(g.deduce_equality(), 1);

    let row10 = set_colors("44+44+9=97", "12*34-56%7");
    let mut g10 = Guesser::new(10, &vec![row10], FreqOracle::uniform(10));
    // Position 8 assumed: result length 10 - 8 - 1 = 1.
    assert_eq!(g10.deduce_equality(), 1);
}

#[test]
fn equality_deduction_keeps_confirmed_position() {
    // The guess puts '=' on the secret's position: the deduction keeps it.
    let row = set_colors("11+1+1=13", "99-9-9=81");
    let mut g = Guesser::new(9, &vec![row], FreqOracle::uniform(9));
    assert_eq!(g.deduce_equality(), 2);
}

#[test]
fn probe_guess_has_length_and_avoids_ruled_out_positions() {
    let secret = "4+5+9=18";
    let oracle = FreqOracle::uniform(8);
    let first = create_better_guess(&vec![], 8, oracle).unwrap();
    let mut history = vec![set_colors(secret, &first)];
    // The second guess of difficulty 8 is a probe.
    let oracle2 = FreqOracle::uniform(8);
    let probe = create_better_guess(&history, 8, oracle2).unwrap();
    assert_eq!(probe.chars().count(), 8);

    // No symbol stands on a position its feedback already ruled out,
    // except where the equality deduction rewrote the equality facts.
    let idx = focdle::index::InfoIndex::build(8, &history);
    for (i, c) in probe.chars().enumerate() {
        if c == '=' {
            continue;
        }
        let k = "0123456789+-*%=".chars().position(|x| x == c).unwrap();
        assert!(
            !idx.lookup[k].incorrect[i],
            "symbol {} at ruled-out position {}",
            c,
            i
        );
    }
    history.push(set_colors(secret, &probe));
}

#[test]
fn solve_converges_on_small_secret() {
    let secret = "1+1+1=3";
    let mut history = Vec::new();
    let mut solved = false;
    for _round in 0..10 {
        let oracle = FreqOracle::uniform(7);
        let guess = create_better_guess(&history, 7, oracle).unwrap();
        assert_eq!(guess.chars().count(), 7);
        if guess == secret {
            solved = true;
            break;
        }
        history.push(set_colors(secret, &guess));
    }
    assert!(solved, "secret not reached within ten rounds");
}

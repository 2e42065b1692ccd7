//! Tests of secret generation and the small utility functions.

use focdle::alphabet::string_of_chars;
use focdle::eval::fast_eval;
use focdle::rng::rand_below;
use focdle::secret::create_secret;

#[test]
fn secrets_are_valid_equations_of_every_difficulty() {
    for difficulty in 7..=15usize {
        let secret = create_secret(difficulty);
        assert_eq!(secret.chars().count(), difficulty);
        let pos = secret.find('=').unwrap();
        let value = fast_eval(&secret[..pos]).unwrap();
        assert!(value >= 1);
        assert_eq!(format!("{}", value), secret[pos + 1..]);
    }
}

#[test]
fn secrets_vary_between_draws() {
    // Not a certainty, but fifty draws of difficulty nine collapsing onto
    // one equation would mean the random source is not wired in.
    let mut distinct = std::collections::HashSet::new();
    for _ in 0..50 {
        distinct.insert(create_secret(9));
    }
    assert!(distinct.len() > 1);
}

#[test]
fn random_draws_respect_bound() {
    for _ in 0..1000 {
        assert!(rand_below(7) < 7);
        assert!(rand_below(1) == 0);
    }
}

#[test]
fn strings_are_built_from_characters() {
    let v = vec!['9', '9', '*', '2', '=', '1', '9', '8'];
    assert_eq!(string_of_chars(&v), "99*2=198");
    let empty: Vec<char> = Vec::new();
    assert_eq!(string_of_chars(&empty), "");
}

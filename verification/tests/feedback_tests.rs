//! Tests of the feedback generator's colouring.

use focdle::feedback::{set_colors, Color};

#[test]
fn feedback_identical_guess_is_all_green() {
    let colors = set_colors("1+1+1=3", "1+1+1=3");
    assert_eq!(colors.len(), 7);
    for (i, c) in colors.iter().enumerate() {
        assert_eq!(c.index, i);
        assert!(matches!(c.color, Color::GREEN));
    }
}

#[test]
fn feedback_duplicates_greedy_left_to_right() {
    let colors = set_colors("11+1+1=13", "1+11+1=13");
    let expected = [
        Color::GREEN,
        Color::YELLOW,
        Color::YELLOW,
        Color::GREEN,
        Color::GREEN,
        Color::GREEN,
        Color::GREEN,
        Color::GREEN,
        Color::GREEN,
    ];
    assert_eq!(colors.len(), 9);
    for (i, c) in colors.iter().enumerate() {
        assert_eq!(c.index, i);
        assert_eq!(c.chara, "1+11+1=13".chars().nth(i).unwrap());
        assert_eq!(c.color, expected[i]);
    }
}

#[test]
fn feedback_absent_symbols_are_grey() {
    let colors = set_colors("1+1+1=3", "2+2+2=4");
    let expected = [
        Color::GREY,
        Color::GREEN,
        Color::GREY,
        Color::GREEN,
        Color::GREY,
        Color::GREEN,
        Color::GREY,
    ];
    for (i, c) in colors.iter().enumerate() {
        assert_eq!(c.color, expected[i]);
    }
}

#[test]
fn feedback_no_double_counting_single_occurrence() {
    // The secret has one '3'; the guess places '3' twice in wrong spots:
    // only the first earns a yellow.
    let colors = set_colors("1+1+1=3", "3+3+1=1");
    assert!(matches!(colors[0].color, Color::YELLOW));
    assert!(matches!(colors[2].color, Color::GREY));
}

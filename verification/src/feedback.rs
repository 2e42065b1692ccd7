//! Scoring of a guess against a secret: each position is coloured green
//! (exact match), yellow (present elsewhere, duplicate-aware) or grey
//! (absent), with the classic two-pass duplicate accounting.

use vstd::prelude::*;
use crate::alphabet::{all_symbols, count_char, lemma_count_le_len, sym_of};

verus! {

/// Colour of one guess position.
#[derive(Clone, Copy, PartialEq, Eq, Structural, Debug)]
pub enum Color {
    GREEN,
    YELLOW,
    GREY,
}

/// Feedback for one guess position: where it was, what was guessed there,
/// and how it scored.
#[derive(Clone, Copy, PartialEq, Eq, Structural, Debug)]
pub struct ColorInfo {
    pub index: usize,
    pub chara: char,
    pub color: Color,
}

/// Number of exact matches of character `c` among the first `upto` positions.
pub open spec fn green_count(s: Seq<char>, g: Seq<char>, c: char, upto: int) -> nat
    decreases upto,
{
    if upto <= 0 {
        0
    } else {
        green_count(s, g, c, upto - 1) + if s[upto - 1] == g[upto - 1] && g[upto - 1] == c {
            1nat
        } else {
            0nat
        }
    }
}

/// Number of yellow positions of character `c` before position `i`.
pub open spec fn yellows_before(s: Seq<char>, g: Seq<char>, c: char, i: int) -> nat
    decreases i, 0int,
{
    if i <= 0 {
        0
    } else {
        yellows_before(s, g, c, i - 1) + if g[i - 1] != s[i - 1] && g[i - 1] == c && is_yellow(
            s,
            g,
            i - 1,
        ) {
            1nat
        } else {
            0nat
        }
    }
}

/// A non-matching position is yellow when the secret still has an unclaimed
/// occurrence of the guessed character: one not consumed by an exact match
/// nor by an earlier yellow of the same character.
pub open spec fn is_yellow(s: Seq<char>, g: Seq<char>, i: int) -> bool
    decreases i, 1int,
{
    g[i] != s[i] && count_char(s, g[i]) > green_count(s, g, g[i], g.len() as int)
        + yellows_before(s, g, g[i], i)
}

/// Colour of position `i`.
pub open spec fn spec_color(s: Seq<char>, g: Seq<char>, i: int) -> Color {
    if g[i] == s[i] {
        Color::GREEN
    } else if is_yellow(s, g, i) {
        Color::YELLOW
    } else {
        Color::GREY
    }
}

/// Feedback entry of position `i`.
pub open spec fn spec_cell(s: Seq<char>, g: Seq<char>, i: int) -> ColorInfo {
    ColorInfo { index: i as usize, chara: g[i], color: spec_color(s, g, i) }
}

/// The whole feedback row of a guess against a secret.
pub open spec fn spec_colors(s: Seq<char>, g: Seq<char>) -> Seq<ColorInfo> {
    Seq::new(g.len(), |i: int| spec_cell(s, g, i))
}

/// Counting over a prefix never exceeds counting over the whole.
pub proof fn lemma_count_prefix_le(s: Seq<char>, c: char, j: int)
    requires
        0 <= j <= s.len(),
    ensures
        count_char(s.take(j), c) <= count_char(s, c),
    decreases s.len() - j,
{
    if j < s.len() {
        lemma_count_prefix_le(s, c, j + 1);
        assert(s.take(j + 1).drop_last() =~= s.take(j));
        assert(count_char(s.take(j), c) <= count_char(s.take(j + 1), c));
    } else {
        assert(s.take(j) =~= s);
    }
}

/// Exact matches of `c` in a prefix never outnumber the occurrences of `c`
/// in the same prefix of the secret.
pub proof fn lemma_green_le_prefix_count(s: Seq<char>, g: Seq<char>, c: char, j: int)
    requires
        0 <= j <= s.len(),
    ensures
        green_count(s, g, c, j) <= count_char(s.take(j), c),
    decreases j,
{
    if j > 0 {
        lemma_green_le_prefix_count(s, g, c, j - 1);
        assert(s.take(j).drop_last() =~= s.take(j - 1));
        assert(s.take(j).last() == s[j - 1]);
    }
}

/// Scores `guess` against `secret`: one feedback entry for each position.
/// Both strings must have the same length and only use game symbols.
pub fn set_colors(secret: &str, guess: &str) -> (r: Vec<ColorInfo>)
    requires
        secret@.len() == guess@.len(),
        all_symbols(secret@),
        all_symbols(guess@),
    ensures
        r@ == spec_colors(secret@, guess@),
{
    let s = crate::alphabet::chars_vec(secret);
    let g = crate::alphabet::chars_vec(guess);
    let ghost ss: Seq<char> = secret@;
    let ghost gs: Seq<char> = guess@;
    let n: usize = s.len();

    // Count every symbol of the secret.
    let mut counts: Vec<usize> = Vec::new();
    let mut k: usize = 0;
    while k < 15
        invariant
            k <= 15,
            counts@.len() == k,
            forall|t: int|
                0 <= t < k ==> #[trigger] counts@[t] == count_char(
                    ss.take(0),
                    crate::alphabet::spec_sym_char(t),
                ),
        decreases 15 - k,
    {
        counts.push(0);
        k = k + 1;
    }

    let mut j: usize = 0;
    while j < n
        invariant
            j <= n,
            n == ss.len(),
            s@ == ss,
            counts@.len() == 15,
            all_symbols(ss),
            forall|t: int|
                0 <= t < 15 ==> #[trigger] counts@[t] == count_char(
                    ss.take(j as int),
                    crate::alphabet::spec_sym_char(t),
                ),
        decreases n - j,
    {
        let c = s[j];
        let t = sym_of(c).unwrap();
        proof {
            crate::alphabet::lemma_sym_roundtrip(ss[j as int]);
            lemma_count_le_len(ss.take(j as int), ss[j as int]);
            assert(ss.take(j + 1).drop_last() =~= ss.take(j as int));
            assert(ss.take(j + 1).last() == ss[j as int]);
        }
        let cur = counts[t];
        counts[t] = cur + 1;
        j = j + 1;
    }
    proof {
        assert(ss.take(n as int) =~= ss);
    }

    // Claim one occurrence for every exact match.
    let mut j2: usize = 0;
    while j2 < n
        invariant
            j2 <= n,
            n == ss.len(),
            n == gs.len(),
            s@ == ss,
            g@ == gs,
            counts@.len() == 15,
            all_symbols(ss),
            all_symbols(gs),
            forall|t: int|
                0 <= t < 15 ==> #[trigger] counts@[t] == count_char(ss, crate::alphabet::spec_sym_char(t))
                    - green_count(ss, gs, crate::alphabet::spec_sym_char(t), j2 as int),
        decreases n - j2,
    {
        if g[j2] == s[j2] {
            let t = sym_of(g[j2]).unwrap();
            proof {
                crate::alphabet::lemma_sym_roundtrip(gs[j2 as int]);
                lemma_green_le_prefix_count(ss, gs, gs[j2 as int], j2 + 1);
                lemma_count_prefix_le(ss, gs[j2 as int], j2 + 1);
            }
            let cur = counts[t];
            counts[t] = cur - 1;
        }
        j2 = j2 + 1;
    }

    // Colour every position, spending remaining occurrences on yellows.
    let mut r: Vec<ColorInfo> = Vec::new();
    let mut i: usize = 0;
    while i < n
        invariant
            i <= n,
            n == ss.len(),
            n == gs.len(),
            s@ == ss,
            g@ == gs,
            counts@.len() == 15,
            all_symbols(ss),
            all_symbols(gs),
            forall|t: int|
                0 <= t < 15 ==> #[trigger] counts@[t] == count_char(ss, crate::alphabet::spec_sym_char(t))
                    - green_count(ss, gs, crate::alphabet::spec_sym_char(t), gs.len() as int)
                    - yellows_before(ss, gs, crate::alphabet::spec_sym_char(t), i as int),
            r@.len() == i,
            forall|p: int| 0 <= p < i ==> #[trigger] r@[p] == spec_cell(ss, gs, p),
        decreases n - i,
    {
        let gc = g[i];
        let t = sym_of(gc).unwrap();
        proof {
            crate::alphabet::lemma_sym_roundtrip(gs[i as int]);
            assert forall|t2: int| 0 <= t2 < 15 implies yellows_before(
                ss,
                gs,
                crate::alphabet::spec_sym_char(t2),
                i + 1,
            ) == yellows_before(ss, gs, crate::alphabet::spec_sym_char(t2), i as int) + (
            if gs[i as int] != ss[i as int] && gs[i as int] == crate::alphabet::spec_sym_char(t2)
                && is_yellow(ss, gs, i as int) {
                1nat
            } else {
                0nat
            }) by {
                crate::alphabet::lemma_sym_char_roundtrip(t2);
            }
        }
        if gc == s[i] {
            r.push(ColorInfo { index: i, chara: gc, color: Color::GREEN });
        } else {
            let cur = counts[t];
            if cur > 0 {
                proof {
                    assert(is_yellow(ss, gs, i as int));
                }
                counts[t] = cur - 1;
                r.push(ColorInfo { index: i, chara: gc, color: Color::YELLOW });
            } else {
                proof {
                    assert(!is_yellow(ss, gs, i as int));
                }
                r.push(ColorInfo { index: i, chara: gc, color: Color::GREY });
            }
        }
        i = i + 1;
    }
    proof {
        assert(r@ =~= spec_colors(ss, gs));
    }
    r
}

} // verus!

//! The library's global law: as the history of a game against one fixed
//! secret grows, the constraint index only tightens — no symbol's occurrence
//! minimum ever decreases and no maximum ever increases between builds.

use vstd::prelude::*;
use crate::alphabet::{count_char, spec_sym_char};
use crate::feedback::{
    green_count, is_yellow, lemma_green_le_prefix_count, spec_cell, spec_colors, yellows_before,
    Color, ColorInfo,
};
use crate::index::{
    digit_min_sum, final_max, final_min, fold_max, fold_min, init_max, init_min,
    lemma_fold_max_monotone, lemma_fold_min_monotone, op_max, op_min, row_capped, row_tally,
};

verus! {

/// A row's tally of a character over a prefix is its exact matches plus its
/// yellows over that prefix.
proof fn lemma_tally_prefix(s: Seq<char>, g: Seq<char>, c: char, j: int)
    requires
        s.len() == g.len(),
        0 <= j <= g.len(),
    ensures
        row_tally(spec_colors(s, g).take(j), c) == green_count(s, g, c, j) + yellows_before(
            s,
            g,
            c,
            j,
        ),
    decreases j,
{
    if j > 0 {
        lemma_tally_prefix(s, g, c, j - 1);
        let row = spec_colors(s, g);
        assert(row.take(j).drop_last() =~= row.take(j - 1));
        assert(row.take(j).last() == spec_cell(s, g, j - 1));
    }
}

/// Exact matches plus yellows of a character never outnumber its
/// occurrences in the secret.
proof fn lemma_yellows_bounded(s: Seq<char>, g: Seq<char>, c: char, i: int)
    requires
        s.len() == g.len(),
        0 <= i <= g.len(),
    ensures
        green_count(s, g, c, g.len() as int) + yellows_before(s, g, c, i) <= count_char(s, c),
    decreases i,
{
    if i == 0 {
        lemma_green_le_prefix_count(s, g, c, s.len() as int);
        assert(s.take(s.len() as int) =~= s);
    } else {
        lemma_yellows_bounded(s, g, c, i - 1);
        if g[i - 1] != s[i - 1] && g[i - 1] == c && is_yellow(s, g, i - 1) {
            assert(count_char(s, c) > green_count(s, g, c, g.len() as int) + yellows_before(
                s,
                g,
                c,
                i - 1,
            ));
        }
    }
}

/// Yellows only accumulate along the row.
proof fn lemma_yellows_monotone(s: Seq<char>, g: Seq<char>, c: char, i1: int, i2: int)
    requires
        0 <= i1 <= i2,
    ensures
        yellows_before(s, g, c, i1) <= yellows_before(s, g, c, i2),
    decreases i2 - i1,
{
    if i1 < i2 {
        lemma_yellows_monotone(s, g, c, i1, i2 - 1);
    }
}

/// A row's whole tally of a character never outnumbers its occurrences in
/// the secret.
proof fn lemma_row_tally_le_count(s: Seq<char>, g: Seq<char>, c: char)
    requires
        s.len() == g.len(),
    ensures
        row_tally(spec_colors(s, g), c) <= count_char(s, c),
{
    let row = spec_colors(s, g);
    assert(row.take(g.len() as int) =~= row);
    lemma_tally_prefix(s, g, c, g.len() as int);
    lemma_yellows_bounded(s, g, c, g.len() as int);
}

/// A grey entry of a character means the whole secret supply of that
/// character is spoken for: the row's tally equals the occurrence count.
proof fn lemma_capped_tally(s: Seq<char>, g: Seq<char>, c: char)
    requires
        s.len() == g.len(),
        row_capped(spec_colors(s, g), c),
    ensures
        row_tally(spec_colors(s, g), c) == count_char(s, c),
{
    let row = spec_colors(s, g);
    let i = choose|i: int|
        0 <= i < row.len() && (#[trigger] row[i]).chara == c && row[i].color is GREY;
    assert(row[i] == spec_cell(s, g, i));
    assert(g[i] == c && g[i] != s[i] && !is_yellow(s, g, i));
    lemma_yellows_bounded(s, g, c, i);
    lemma_yellows_bounded(s, g, c, g.len() as int);
    lemma_yellows_monotone(s, g, c, i, g.len() as int);
    assert(row.take(g.len() as int) =~= row);
    lemma_tally_prefix(s, g, c, g.len() as int);
}

/// Helper: over any prefix, the non-grey tally of a character never exceeds
/// its occurrences in the guess, and equals them while no grey of it has
/// appeared.
proof fn lemma_tally_vs_guess_count(s: Seq<char>, g: Seq<char>, c: char, j: int)
    requires
        s.len() == g.len(),
        0 <= j <= g.len(),
    ensures
        row_tally(spec_colors(s, g).take(j), c) <= count_char(g.take(j), c),
        !row_capped(spec_colors(s, g).take(j), c) ==> row_tally(spec_colors(s, g).take(j), c)
            == count_char(g.take(j), c),
    decreases j,
{
    let row = spec_colors(s, g);
    if j > 0 {
        lemma_tally_vs_guess_count(s, g, c, j - 1);
        assert(row.take(j).drop_last() =~= row.take(j - 1));
        assert(row.take(j).last() == spec_cell(s, g, j - 1));
        assert(g.take(j).drop_last() =~= g.take(j - 1));
        assert(g.take(j).last() == g[j - 1]);
        if row_capped(row.take(j - 1), c) {
            let w = choose|w: int|
                0 <= w < row.take(j - 1).len() && (#[trigger] row.take(j - 1)[w]).chara == c
                    && row.take(j - 1)[w].color is GREY;
            assert(row.take(j)[w] == row.take(j - 1)[w]);
            assert(row_capped(row.take(j), c));
        }
        if row_capped(row.take(j), c) && !(row[j - 1].chara == c && row[j - 1].color is GREY) {
            let w = choose|w: int|
                0 <= w < row.take(j).len() && (#[trigger] row.take(j)[w]).chara == c && row.take(
                    j,
                )[w].color is GREY;
            assert(w < j - 1);
            assert(row.take(j - 1)[w] == row.take(j)[w]);
            assert(row_capped(row.take(j - 1), c));
        }
    }
}

/// The duplicate-aware law of one feedback row: the number of non-grey
/// entries of a character is exactly the smaller of its occurrence counts in
/// the guess and in the secret.
pub proof fn lemma_feedback_tally_min(s: Seq<char>, g: Seq<char>, c: char)
    requires
        s.len() == g.len(),
    ensures
        row_tally(spec_colors(s, g), c) == crate::index::nmin(count_char(g, c), count_char(s, c)),
{
    let row = spec_colors(s, g);
    assert(row.take(g.len() as int) =~= row);
    assert(g.take(g.len() as int) =~= g);
    lemma_tally_vs_guess_count(s, g, c, g.len() as int);
    lemma_row_tally_le_count(s, g, c);
    if row_capped(row, c) {
        lemma_capped_tally(s, g, c);
    }
}

/// Sum of a secret's digit occurrence counts below `upto`.
pub open spec fn digit_count_sum(s: Seq<char>, upto: int) -> nat
    decreases upto,
{
    if upto <= 0 {
        0
    } else {
        digit_count_sum(s, upto - 1) + count_char(s, spec_sym_char(upto - 1))
    }
}

/// Sum of a secret's operator occurrence counts.
pub open spec fn op_count_sum(s: Seq<char>) -> nat {
    count_char(s, spec_sym_char(10)) + count_char(s, spec_sym_char(11)) + count_char(
        s,
        spec_sym_char(12),
    ) + count_char(s, spec_sym_char(13))
}

/// A secret the initial bounds are sound for: the right length, every
/// symbol's occurrence count within the starting bounds, exactly two
/// operator characters and exactly the operand-and-result digit slots
/// filled with digits.
pub open spec fn secret_counts_ok(s: Seq<char>, difficulty: nat) -> bool {
    &&& s.len() == difficulty
    &&& 7 <= difficulty <= 15
    &&& forall|k: int|
        0 <= k < 15 ==> init_min(k) <= #[trigger] count_char(s, spec_sym_char(k)) <= init_max(
            difficulty,
            k,
        )
    &&& op_count_sum(s) == 2
    &&& digit_count_sum(s, 10) == difficulty - 3
}

/// Every row of the history is the real feedback of the matching guess
/// against the secret.
pub open spec fn history_of(rows: Seq<Seq<ColorInfo>>, guesses: Seq<Seq<char>>, s: Seq<char>) -> bool {
    &&& rows.len() == guesses.len()
    &&& forall|r: int|
        0 <= r < rows.len() ==> (#[trigger] rows[r]) == spec_colors(s, guesses[r])
            && guesses[r].len() == s.len()
}

/// The folded bounds bracket the truth: for a history of real feedback
/// against a secret within the starting bounds, every symbol's occurrence
/// count in the secret stays between the folded minimum and maximum.
pub proof fn lemma_bounds_bracket(
    rows: Seq<Seq<ColorInfo>>,
    guesses: Seq<Seq<char>>,
    s: Seq<char>,
    difficulty: nat,
    k: int,
)
    requires
        secret_counts_ok(s, difficulty),
        history_of(rows, guesses, s),
        0 <= k < 15,
    ensures
        fold_min(rows, difficulty, k) <= count_char(s, spec_sym_char(k)),
        count_char(s, spec_sym_char(k)) <= fold_max(rows, difficulty, k),
    decreases rows.len(),
{
    let c = spec_sym_char(k);
    if rows.len() == 0 {
        assert(init_min(k) <= count_char(s, c) <= init_max(difficulty, k));
    } else {
        let shorter = rows.drop_last();
        let gshorter = guesses.drop_last();
        assert(history_of(shorter, gshorter, s));
        lemma_bounds_bracket(shorter, gshorter, s, difficulty, k);
        let g = guesses[guesses.len() - 1];
        assert(rows.last() == spec_colors(s, g));
        lemma_row_tally_le_count(s, g, c);
        if row_capped(rows.last(), c) {
            lemma_capped_tally(s, g, c);
        }
    }
}

/// A character standing at a position occurs at least once.
proof fn lemma_count_at_position(s: Seq<char>, c: char, p: int)
    requires
        0 <= p < s.len(),
        s[p] == c,
    ensures
        count_char(s, c) >= 1,
    decreases s.len(),
{
    if p < s.len() - 1 {
        lemma_count_at_position(s.drop_last(), c, p);
    }
}

/// A character standing at two distinct positions occurs at least twice.
proof fn lemma_count_two_positions(s: Seq<char>, c: char, p1: int, p2: int)
    requires
        0 <= p1 < s.len(),
        0 <= p2 < s.len(),
        p1 != p2,
        s[p1] == c,
        s[p2] == c,
    ensures
        count_char(s, c) >= 2,
    decreases s.len(),
{
    if p1 < s.len() - 1 && p2 < s.len() - 1 {
        lemma_count_two_positions(s.drop_last(), c, p1, p2);
    } else if p1 == s.len() - 1 {
        lemma_count_at_position(s.drop_last(), c, p2);
    } else {
        lemma_count_at_position(s.drop_last(), c, p1);
    }
}

/// A history of real feedback never confirms the equality sign at two
/// different positions: the index's confirmed-position set for it has at
/// most one member.
pub proof fn lemma_eq_position_unique(
    rows: Seq<Seq<ColorInfo>>,
    guesses: Seq<Seq<char>>,
    s: Seq<char>,
    difficulty: nat,
    p1: int,
    p2: int,
)
    requires
        secret_counts_ok(s, difficulty),
        history_of(rows, guesses, s),
        crate::index::corr_pos(rows, '=', p1),
        crate::index::corr_pos(rows, '=', p2),
    ensures
        p1 == p2,
{
    lemma_confirmed_matches_secret(rows, guesses, s, difficulty, p1);
    lemma_confirmed_matches_secret(rows, guesses, s, difficulty, p2);
    if p1 != p2 {
        lemma_count_two_positions(s, '=', p1, p2);
        assert(count_char(s, spec_sym_char(14)) <= 1);
    }
}

/// A confirmed position really holds that character in the secret.
proof fn lemma_confirmed_matches_secret(
    rows: Seq<Seq<ColorInfo>>,
    guesses: Seq<Seq<char>>,
    s: Seq<char>,
    difficulty: nat,
    p: int,
)
    requires
        secret_counts_ok(s, difficulty),
        history_of(rows, guesses, s),
        crate::index::corr_pos(rows, '=', p),
    ensures
        0 <= p < s.len(),
        s[p] == '=',
{
    let r = choose|r: int|
        0 <= r < rows.len() && crate::index::row_correct(#[trigger] rows[r], '=', p);
    let g = guesses[r];
    assert(rows[r] == spec_colors(s, g));
    let j = choose|j: int|
        0 <= j < rows[r].len() && (#[trigger] rows[r][j]).chara == '=' && rows[r][j].color
            is GREEN && rows[r][j].index == p;
    assert(rows[r][j] == spec_cell(s, g, j));
    assert(j == p && g[p] == '=' && g[p] == s[p]);
}

/// Pointwise larger digit minimums give a larger digit sum, also with one
/// digit set aside on both sides.
proof fn lemma_digit_sum_mono(
    rows1: Seq<Seq<ColorInfo>>,
    rows2: Seq<Seq<ColorInfo>>,
    difficulty: nat,
    k: int,
    upto: int,
)
    requires
        forall|t: int|
            0 <= t < 10 ==> fold_min(rows1, difficulty, t) <= fold_min(rows2, difficulty, t),
        0 <= upto <= 10,
    ensures
        digit_min_sum(rows1, difficulty, upto) + (if 0 <= k < upto {
            fold_min(rows2, difficulty, k)
        } else {
            0nat
        }) <= digit_min_sum(rows2, difficulty, upto) + (if 0 <= k < upto {
            fold_min(rows1, difficulty, k)
        } else {
            0nat
        }),
    decreases upto,
{
    if upto > 0 {
        lemma_digit_sum_mono(rows1, rows2, difficulty, k, upto - 1);
    }
}

/// The digit minimums reserve no more slots than the secret's digits fill,
/// with one digit set aside on both sides.
proof fn lemma_digit_sum_le_counts(
    rows: Seq<Seq<ColorInfo>>,
    guesses: Seq<Seq<char>>,
    s: Seq<char>,
    difficulty: nat,
    k: int,
    upto: int,
)
    requires
        secret_counts_ok(s, difficulty),
        history_of(rows, guesses, s),
        0 <= upto <= 10,
    ensures
        digit_min_sum(rows, difficulty, upto) + (if 0 <= k < upto {
            count_char(s, spec_sym_char(k))
        } else {
            0nat
        }) <= digit_count_sum(s, upto) + (if 0 <= k < upto {
            fold_min(rows, difficulty, k)
        } else {
            0nat
        }),
    decreases upto,
{
    if upto > 0 {
        lemma_digit_sum_le_counts(rows, guesses, s, difficulty, k, upto - 1);
        lemma_bounds_bracket(rows, guesses, s, difficulty, upto - 1);
    }
}

/// The library's tightening law: rebuilding the index after one more round
/// of real feedback against the same secret never lowers any symbol's
/// occurrence minimum and never raises any maximum, the operator and digit
/// cross-inference passes included.
pub proof fn lemma_index_monotone(
    rows: Seq<Seq<ColorInfo>>,
    guesses: Seq<Seq<char>>,
    g: Seq<char>,
    s: Seq<char>,
    difficulty: nat,
    k: int,
)
    requires
        secret_counts_ok(s, difficulty),
        history_of(rows, guesses, s),
        g.len() == s.len(),
        0 <= k < 15,
    ensures
        final_min(rows, difficulty, k) <= final_min(rows.push(spec_colors(s, g)), difficulty, k),
        final_max(rows.push(spec_colors(s, g)), difficulty, k) <= final_max(rows, difficulty, k),
{
    let row = spec_colors(s, g);
    let rows2 = rows.push(row);
    let guesses2 = guesses.push(g);
    assert(rows2.drop_last() =~= rows);
    assert(guesses2.drop_last() =~= guesses);
    assert forall|r: int|
        0 <= r < rows2.len() implies (#[trigger] rows2[r]) == spec_colors(s, guesses2[r])
            && guesses2[r].len() == s.len() by {
        if r < rows.len() {
            assert(rows2[r] == rows[r]);
            assert(guesses2[r] == guesses[r]);
        }
    }
    assert(history_of(rows2, guesses2, s));

    assert forall|t: int|
        0 <= t < 15 implies fold_min(rows, difficulty, t) <= fold_min(rows2, difficulty, t)
            && fold_max(rows2, difficulty, t) <= fold_max(rows, difficulty, t) && fold_min(
            rows,
            difficulty,
            t,
        ) <= count_char(s, spec_sym_char(t)) && count_char(s, spec_sym_char(t)) <= fold_max(
            rows,
            difficulty,
            t,
        ) && fold_min(rows2, difficulty, t) <= count_char(s, spec_sym_char(t)) && count_char(
            s,
            spec_sym_char(t),
        ) <= fold_max(rows2, difficulty, t) by {
        lemma_bounds_bracket(rows, guesses, s, difficulty, t);
        lemma_bounds_bracket(rows2, guesses2, s, difficulty, t);
        lemma_fold_min_monotone(rows, row, difficulty, t);
        lemma_row_tally_le_count(s, g, spec_sym_char(t));
        lemma_fold_max_monotone(rows, row, difficulty, t);
    }

    if 10 <= k <= 13 {
        let c10 = count_char(s, spec_sym_char(10));
        let c11 = count_char(s, spec_sym_char(11));
        let c12 = count_char(s, spec_sym_char(12));
        let c13 = count_char(s, spec_sym_char(13));
        assert(c10 + c11 + c12 + c13 == 2);
        assert(fold_min(rows, difficulty, 10) <= fold_min(rows2, difficulty, 10) <= c10
            <= fold_max(rows2, difficulty, 10) <= fold_max(rows, difficulty, 10));
        assert(fold_min(rows, difficulty, 11) <= fold_min(rows2, difficulty, 11) <= c11
            <= fold_max(rows2, difficulty, 11) <= fold_max(rows, difficulty, 11));
        assert(fold_min(rows, difficulty, 12) <= fold_min(rows2, difficulty, 12) <= c12
            <= fold_max(rows2, difficulty, 12) <= fold_max(rows, difficulty, 12));
        assert(fold_min(rows, difficulty, 13) <= fold_min(rows2, difficulty, 13) <= c13
            <= fold_max(rows2, difficulty, 13) <= fold_max(rows, difficulty, 13));
        assert(op_min(rows, difficulty, k) <= op_min(rows2, difficulty, k));
        assert(op_max(rows2, difficulty, k) <= op_max(rows, difficulty, k));
    } else if 0 <= k <= 9 {
        let ck = count_char(s, spec_sym_char(k));
        let m = fold_min(rows, difficulty, k);
        let mx = fold_max(rows, difficulty, k);
        let m2 = fold_min(rows2, difficulty, k);
        let mx2 = fold_max(rows2, difficulty, k);
        crate::index::lemma_digit_min_sum_ge(rows, difficulty, k);
        crate::index::lemma_digit_min_sum_ge(rows2, difficulty, k);
        lemma_digit_sum_mono(rows, rows2, difficulty, k, 10);
        lemma_digit_sum_le_counts(rows, guesses, s, difficulty, k, 10);
        let tsum = digit_min_sum(rows, difficulty, 10);
        let tsum2 = digit_min_sum(rows2, difficulty, 10);
        assert(tsum2 - m2 >= tsum - m);
        assert(tsum - m <= difficulty - 3 - ck);
        if m == mx {
            assert(m2 == m && mx2 == mx);
        } else if m2 == mx2 {
            assert(m2 == ck && mx2 == ck);
            assert(final_max(rows2, difficulty, k) == ck);
        }
        assert(final_max(rows2, difficulty, k) <= final_max(rows, difficulty, k));
    }
}

/// The finished bounds still bracket the truth: after the operator and
/// digit cross-inference passes, every symbol's occurrence count in the
/// secret lies between the final minimum and maximum — so the finished
/// bounds are consistent, with the minimum never above the maximum.
pub proof fn lemma_final_bounds_bracket(
    rows: Seq<Seq<ColorInfo>>,
    guesses: Seq<Seq<char>>,
    s: Seq<char>,
    difficulty: nat,
    k: int,
)
    requires
        secret_counts_ok(s, difficulty),
        history_of(rows, guesses, s),
        0 <= k < 15,
    ensures
        final_min(rows, difficulty, k) <= count_char(s, spec_sym_char(k)),
        count_char(s, spec_sym_char(k)) <= final_max(rows, difficulty, k),
        final_min(rows, difficulty, k) <= final_max(rows, difficulty, k),
{
    assert forall|t: int|
        0 <= t < 15 implies fold_min(rows, difficulty, t) <= count_char(s, spec_sym_char(t))
            && count_char(s, spec_sym_char(t)) <= fold_max(rows, difficulty, t) by {
        lemma_bounds_bracket(rows, guesses, s, difficulty, t);
    }
    if 10 <= k <= 13 {
        let c10 = count_char(s, spec_sym_char(10));
        let c11 = count_char(s, spec_sym_char(11));
        let c12 = count_char(s, spec_sym_char(12));
        let c13 = count_char(s, spec_sym_char(13));
        assert(c10 + c11 + c12 + c13 == 2);
        assert(fold_min(rows, difficulty, 10) <= c10 <= fold_max(rows, difficulty, 10));
        assert(fold_min(rows, difficulty, 11) <= c11 <= fold_max(rows, difficulty, 11));
        assert(fold_min(rows, difficulty, 12) <= c12 <= fold_max(rows, difficulty, 12));
        assert(fold_min(rows, difficulty, 13) <= c13 <= fold_max(rows, difficulty, 13));
        assert(op_min(rows, difficulty, k) <= count_char(s, spec_sym_char(k)));
        assert(count_char(s, spec_sym_char(k)) <= op_max(rows, difficulty, k));
    } else if 0 <= k <= 9 {
        crate::index::lemma_digit_min_sum_ge(rows, difficulty, k);
        lemma_digit_sum_le_counts(rows, guesses, s, difficulty, k, 10);
        assert(count_char(s, spec_sym_char(k)) <= final_max(rows, difficulty, k));
    }
}

/// The tightening law across any growth of the history: extending a history
/// by any number of further feedback rounds never lowers a minimum and
/// never raises a maximum.
pub proof fn lemma_index_monotone_many(
    rows: Seq<Seq<ColorInfo>>,
    guesses: Seq<Seq<char>>,
    more: Seq<Seq<char>>,
    s: Seq<char>,
    difficulty: nat,
    k: int,
)
    requires
        secret_counts_ok(s, difficulty),
        history_of(rows, guesses, s),
        forall|r: int| 0 <= r < more.len() ==> (#[trigger] more[r]).len() == s.len(),
        0 <= k < 15,
    ensures
        final_min(rows, difficulty, k) <= final_min(
            rows + more.map_values(|g: Seq<char>| spec_colors(s, g)),
            difficulty,
            k,
        ),
        final_max(rows + more.map_values(|g: Seq<char>| spec_colors(s, g)), difficulty, k)
            <= final_max(rows, difficulty, k),
    decreases more.len(),
{
    let ext = more.map_values(|g: Seq<char>| spec_colors(s, g));
    if more.len() == 0 {
        assert(rows + ext =~= rows);
    } else {
        let g0 = more[0];
        let rows1 = rows.push(spec_colors(s, g0));
        let guesses1 = guesses.push(g0);
        lemma_index_monotone(rows, guesses, g0, s, difficulty, k);
        assert forall|r: int|
            0 <= r < rows1.len() implies (#[trigger] rows1[r]) == spec_colors(s, guesses1[r])
                && guesses1[r].len() == s.len() by {
            if r < rows.len() {
                assert(rows1[r] == rows[r]);
                assert(guesses1[r] == guesses[r]);
            }
        }
        assert(history_of(rows1, guesses1, s));
        lemma_index_monotone_many(rows1, guesses1, more.drop_first(), s, difficulty, k);
        assert(rows1 + more.drop_first().map_values(|g: Seq<char>| spec_colors(s, g)) =~= rows
            + ext);
    }
}

/// The tightening law over whole indexes: an index built from a history and
/// an index rebuilt after one more round of real feedback agree that every
/// minimum only rose and every maximum only fell.
pub proof fn lemma_build_monotone(
    idx1: crate::index::InfoIndex,
    idx2: crate::index::InfoIndex,
    rows: Seq<Seq<ColorInfo>>,
    guesses: Seq<Seq<char>>,
    g: Seq<char>,
    s: Seq<char>,
)
    requires
        idx1.wf(),
        idx2.wf(),
        idx1.difficulty == idx2.difficulty,
        secret_counts_ok(s, idx1.difficulty as nat),
        history_of(rows, guesses, s),
        g.len() == s.len(),
        idx1.matches_history(rows),
        idx2.matches_history(rows.push(spec_colors(s, g))),
    ensures
        forall|k: int|
            0 <= k < 15 ==> (#[trigger] idx1.lookup@[k]).min <= idx2.lookup@[k].min
                && idx2.lookup@[k].max <= idx1.lookup@[k].max,
{
    assert forall|k: int|
        0 <= k < 15 implies (#[trigger] idx1.lookup@[k]).min <= idx2.lookup@[k].min
            && idx2.lookup@[k].max <= idx1.lookup@[k].max by {
        lemma_index_monotone(rows, guesses, g, s, idx1.difficulty as nat, k);
    }
}

} // verus!

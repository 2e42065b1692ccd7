//! The constraint index: the feedback of all past rounds folded into
//! per-symbol occurrence bounds and position facts, followed by two
//! cross-inference passes over the operators and the digit budget.

use vstd::prelude::*;
use crate::alphabet::{is_symbol, spec_sym_char, sym_of};
use crate::feedback::{Color, ColorInfo};

verus! {

/// Larger of two naturals.
pub open spec fn nmax(a: nat, b: nat) -> nat {
    if a >= b {
        a
    } else {
        b
    }
}

/// Smaller of two naturals.
pub open spec fn nmin(a: nat, b: nat) -> nat {
    if a <= b {
        a
    } else {
        b
    }
}

/// What the history proves about one symbol: positions confirmed to hold it,
/// positions that cannot hold it, and occurrence bounds.
pub struct InfoLookup {
    pub correct: Vec<bool>,
    pub incorrect: Vec<bool>,
    pub min: usize,
    pub max: usize,
}

/// The constraint index: one entry per alphabet symbol.
pub struct InfoIndex {
    pub difficulty: usize,
    pub lookup: Vec<InfoLookup>,
}

/// Feedback rows of a vector of rounds, as sequences.
pub open spec fn rows_view(v: Seq<Vec<ColorInfo>>) -> Seq<Seq<ColorInfo>> {
    Seq::new(v.len(), |i: int| v[i]@)
}

/// A usable feedback row: one entry per position, indices in range, symbols
/// of the alphabet.
pub open spec fn wf_row(row: Seq<ColorInfo>, difficulty: nat) -> bool {
    &&& row.len() == difficulty
    &&& forall|j: int|
        0 <= j < row.len() ==> (#[trigger] row[j]).index < difficulty && is_symbol(row[j].chara)
}

/// A usable history.
pub open spec fn wf_rows(rows: Seq<Seq<ColorInfo>>, difficulty: nat) -> bool {
    forall|r: int| 0 <= r < rows.len() ==> wf_row(#[trigger] rows[r], difficulty)
}

/// Starting occurrence minimum of symbol `k`: only the equality sign is
/// known to occur.
pub open spec fn init_min(k: int) -> nat {
    if k == 14 {
        1
    } else {
        0
    }
}

/// Starting occurrence maximum of symbol `k`: the zero digit cannot fill a
/// leading operand slot nor pad results freely, other digits are bounded by
/// the operand and result slots, operators occur at most twice, the equality
/// sign exactly once.
pub open spec fn init_max(difficulty: nat, k: int) -> nat {
    if k == 0 {
        (difficulty - 7) as nat
    } else if 1 <= k <= 9 {
        (difficulty - 3) as nat
    } else if 10 <= k <= 13 {
        2
    } else {
        1
    }
}

/// Greens and yellows of character `c` in one row.
pub open spec fn row_tally(row: Seq<ColorInfo>, c: char) -> nat
    decreases row.len(),
{
    if row.len() == 0 {
        0
    } else {
        row_tally(row.drop_last(), c) + if row.last().chara == c && !(row.last().color
            is GREY) {
            1nat
        } else {
            0nat
        }
    }
}

/// The row holds a grey entry of character `c`.
pub open spec fn row_capped(row: Seq<ColorInfo>, c: char) -> bool {
    exists|j: int| 0 <= j < row.len() && (#[trigger] row[j]).chara == c && row[j].color is GREY
}

/// The row confirms character `c` at position `p`.
pub open spec fn row_correct(row: Seq<ColorInfo>, c: char, p: int) -> bool {
    exists|j: int|
        0 <= j < row.len() && (#[trigger] row[j]).chara == c && row[j].color is GREEN
            && row[j].index == p
}

/// The row rules character `c` out of position `p`.
pub open spec fn row_incorrect(row: Seq<ColorInfo>, c: char, p: int) -> bool {
    exists|j: int|
        0 <= j < row.len() && (#[trigger] row[j]).chara == c && !(row[j].color is GREEN)
            && row[j].index == p
}

/// Some past row confirms character `c` at position `p`.
pub open spec fn corr_pos(rows: Seq<Seq<ColorInfo>>, c: char, p: int) -> bool {
    exists|r: int| 0 <= r < rows.len() && row_correct(#[trigger] rows[r], c, p)
}

/// Some past row rules character `c` out of position `p`.
pub open spec fn incorr_pos(rows: Seq<Seq<ColorInfo>>, c: char, p: int) -> bool {
    exists|r: int| 0 <= r < rows.len() && row_incorrect(#[trigger] rows[r], c, p)
}

/// Occurrence minimum of symbol `k` after folding the history, before
/// cross-inference: each row raises it to that row's tally, unless the
/// bounds have already met.
pub open spec fn fold_min(rows: Seq<Seq<ColorInfo>>, difficulty: nat, k: int) -> nat
    decreases rows.len(), 0int,
{
    if rows.len() == 0 {
        init_min(k)
    } else {
        let m = fold_min(rows.drop_last(), difficulty, k);
        let mx = fold_max(rows.drop_last(), difficulty, k);
        if m == mx {
            m
        } else {
            nmax(m, row_tally(rows.last(), spec_sym_char(k)))
        }
    }
}

/// Occurrence maximum of symbol `k` after folding the history, before
/// cross-inference: a row with a grey entry of the symbol pins the maximum
/// to the freshly raised minimum.
pub open spec fn fold_max(rows: Seq<Seq<ColorInfo>>, difficulty: nat, k: int) -> nat
    decreases rows.len(), 1int,
{
    if rows.len() == 0 {
        init_max(difficulty, k)
    } else {
        let m = fold_min(rows.drop_last(), difficulty, k);
        let mx = fold_max(rows.drop_last(), difficulty, k);
        if m == mx {
            mx
        } else if row_capped(rows.last(), spec_sym_char(k)) {
            nmax(m, row_tally(rows.last(), spec_sym_char(k)))
        } else {
            mx
        }
    }
}

/// Smallest operator symbol whose folded minimum is two, or 14 when none is.
pub open spec fn first_double_op(rows: Seq<Seq<ColorInfo>>, difficulty: nat) -> int {
    if fold_min(rows, difficulty, 10) == 2 {
        10
    } else if fold_min(rows, difficulty, 11) == 2 {
        11
    } else if fold_min(rows, difficulty, 12) == 2 {
        12
    } else if fold_min(rows, difficulty, 13) == 2 {
        13
    } else {
        14
    }
}

/// How many operators have folded minimum one.
pub open spec fn single_op_count(rows: Seq<Seq<ColorInfo>>, difficulty: nat) -> int {
    (if fold_min(rows, difficulty, 10) == 1 {
        1int
    } else {
        0int
    }) + (if fold_min(rows, difficulty, 11) == 1 {
        1int
    } else {
        0int
    }) + (if fold_min(rows, difficulty, 12) == 1 {
        1int
    } else {
        0int
    }) + (if fold_min(rows, difficulty, 13) == 1 {
        1int
    } else {
        0int
    })
}

/// Occurrence minimum of an operator after cross-inference: once one
/// operator is confirmed twice, or two operators once each, the others are
/// ruled out.
pub open spec fn op_min(rows: Seq<Seq<ColorInfo>>, difficulty: nat, k: int) -> nat {
    let f = first_double_op(rows, difficulty);
    if f < 14 {
        if k == f {
            fold_min(rows, difficulty, k)
        } else {
            0
        }
    } else if single_op_count(rows, difficulty) == 2 {
        if fold_min(rows, difficulty, k) == 1 {
            fold_min(rows, difficulty, k)
        } else {
            0
        }
    } else {
        fold_min(rows, difficulty, k)
    }
}

/// Occurrence maximum of an operator after cross-inference: ruled-out
/// operators drop to zero, two singly-confirmed operators occur exactly
/// once, and a lone singly-confirmed operator caps every other operator at
/// one.
pub open spec fn op_max(rows: Seq<Seq<ColorInfo>>, difficulty: nat, k: int) -> nat {
    let f = first_double_op(rows, difficulty);
    if f < 14 {
        if k == f {
            fold_max(rows, difficulty, k)
        } else {
            0
        }
    } else if single_op_count(rows, difficulty) == 2 {
        if fold_min(rows, difficulty, k) == 1 {
            1
        } else {
            0
        }
    } else if single_op_count(rows, difficulty) == 1 {
        if fold_min(rows, difficulty, k) == 1 {
            fold_max(rows, difficulty, k)
        } else {
            nmin(fold_max(rows, difficulty, k), 1)
        }
    } else {
        fold_max(rows, difficulty, k)
    }
}

/// Sum of the folded minimums of the digit symbols below `upto`.
pub open spec fn digit_min_sum(rows: Seq<Seq<ColorInfo>>, difficulty: nat, upto: int) -> nat
    decreases upto,
{
    if upto <= 0 {
        0
    } else {
        digit_min_sum(rows, difficulty, upto - 1) + fold_min(rows, difficulty, upto - 1)
    }
}

/// Final occurrence minimum of symbol `k` once the whole history is folded.
pub open spec fn final_min(rows: Seq<Seq<ColorInfo>>, difficulty: nat, k: int) -> nat {
    if 10 <= k <= 13 {
        op_min(rows, difficulty, k)
    } else {
        fold_min(rows, difficulty, k)
    }
}

/// Final occurrence maximum of symbol `k`: a digit with open bounds is also
/// capped by the operand-and-result slots not reserved by the other digits'
/// minimums.
pub open spec fn final_max(rows: Seq<Seq<ColorInfo>>, difficulty: nat, k: int) -> nat {
    if 0 <= k <= 9 {
        let m = fold_min(rows, difficulty, k);
        let mx = fold_max(rows, difficulty, k);
        if m < mx {
            let reserved = (digit_min_sum(rows, difficulty, 10) - m) as nat;
            let budget = if difficulty - 3 >= reserved {
                (difficulty - 3 - reserved) as nat
            } else {
                0nat
            };
            nmin(mx, budget)
        } else {
            mx
        }
    } else if 10 <= k <= 13 {
        op_max(rows, difficulty, k)
    } else {
        fold_max(rows, difficulty, k)
    }
}

/// Folding one more feedback row never lowers a symbol's occurrence
/// minimum: the bounds only tighten as the history grows.
pub proof fn lemma_fold_min_monotone(
    rows: Seq<Seq<ColorInfo>>,
    row: Seq<ColorInfo>,
    difficulty: nat,
    k: int,
)
    ensures
        fold_min(rows, difficulty, k) <= fold_min(rows.push(row), difficulty, k),
{
    assert(rows.push(row).drop_last() =~= rows);
    assert(rows.push(row).last() == row);
}

/// Folding one more feedback row never raises a symbol's occurrence
/// maximum, as long as the bounds were consistent and the new row's tally
/// fits under the current maximum — which holds of every row scored against
/// a real secret the bounds bracket.
pub proof fn lemma_fold_max_monotone(
    rows: Seq<Seq<ColorInfo>>,
    row: Seq<ColorInfo>,
    difficulty: nat,
    k: int,
)
    requires
        fold_min(rows, difficulty, k) <= fold_max(rows, difficulty, k),
        row_tally(row, spec_sym_char(k)) <= fold_max(rows, difficulty, k),
    ensures
        fold_max(rows.push(row), difficulty, k) <= fold_max(rows, difficulty, k),
        fold_min(rows.push(row), difficulty, k) <= fold_max(rows.push(row), difficulty, k),
{
    assert(rows.push(row).drop_last() =~= rows);
    assert(rows.push(row).last() == row);
}

/// A row's tally never outnumbers its entries.
pub proof fn lemma_row_tally_le_len(row: Seq<ColorInfo>, c: char)
    ensures
        row_tally(row, c) <= row.len(),
    decreases row.len(),
{
    if row.len() > 0 {
        lemma_row_tally_le_len(row.drop_last(), c);
    }
}

/// Helper: the digit minimum sum dominates each of its summands.
proof fn lemma_digit_min_sum_ge_upto(rows: Seq<Seq<ColorInfo>>, difficulty: nat, k: int, upto: int)
    requires
        0 <= k < upto,
    ensures
        fold_min(rows, difficulty, k) <= digit_min_sum(rows, difficulty, upto),
    decreases upto,
{
    if k < upto - 1 {
        lemma_digit_min_sum_ge_upto(rows, difficulty, k, upto - 1);
    }
}

/// The digit minimum sum dominates each digit's folded minimum.
pub proof fn lemma_digit_min_sum_ge(rows: Seq<Seq<ColorInfo>>, difficulty: nat, k: int)
    requires
        0 <= k < 10,
    ensures
        fold_min(rows, difficulty, k) <= digit_min_sum(rows, difficulty, 10),
{
    lemma_digit_min_sum_ge_upto(rows, difficulty, k, 10);
}

impl InfoIndex {
    /// Structurally usable index.
    pub open spec fn wf(&self) -> bool {
        &&& 7 <= self.difficulty <= 15
        &&& self.lookup@.len() == 15
        &&& forall|k: int|
            0 <= k < 15 ==> (#[trigger] self.lookup@[k]).correct@.len() == self.difficulty
                && self.lookup@[k].incorrect@.len() == self.difficulty && self.lookup@[k].min
                <= self.difficulty && self.lookup@[k].max <= self.difficulty
    }

    /// The index states exactly what the history model derives, except that
    /// the equality symbol's confirmed positions may have been overridden.
    pub open spec fn matches_history(&self, rows: Seq<Seq<ColorInfo>>) -> bool {
        &&& forall|k: int|
            0 <= k < 15 ==> (#[trigger] self.lookup@[k]).min == final_min(
                rows,
                self.difficulty as nat,
                k,
            ) && self.lookup@[k].max == final_max(rows, self.difficulty as nat, k)
        &&& forall|k: int, p: int|
            0 <= k < 15 && 0 <= p < self.difficulty ==> (#[trigger] self.lookup@[k].correct@[p])
                == corr_pos(rows, spec_sym_char(k), p)
        &&& forall|k: int, p: int|
            0 <= k < 15 && 0 <= p < self.difficulty ==> (#[trigger] self.lookup@[k].incorrect@[p])
                == incorr_pos(rows, spec_sym_char(k), p)
    }

    /// Builds the index for one round: initial bounds, the fold of every
    /// feedback row, then operator and digit cross-inference.
    pub fn build(difficulty: usize, info: &Vec<Vec<ColorInfo>>) -> (r: InfoIndex)
        requires
            7 <= difficulty <= 15,
            wf_rows(rows_view(info@), difficulty as nat),
        ensures
            r.wf(),
            r.difficulty == difficulty,
            r.matches_history(rows_view(info@)),
    {
        let ghost rows: Seq<Seq<ColorInfo>> = rows_view(info@);
        // Initial bounds.
        let mut lookup: Vec<InfoLookup> = Vec::new();
        let mut k: usize = 0;
        while k < 15
            invariant
                k <= 15,
                7 <= difficulty <= 15,
                lookup@.len() == k,
                forall|t: int|
                    0 <= t < k ==> (#[trigger] lookup@[t]).min == init_min(t) && lookup@[t].max
                        == init_max(difficulty as nat, t) && lookup@[t].correct@.len() == difficulty
                        && lookup@[t].incorrect@.len() == difficulty && (forall|p: int|
                        0 <= p < difficulty ==> !(#[trigger] lookup@[t].correct@[p])) && (forall|
                        p: int,
                    |
                        0 <= p < difficulty ==> !(#[trigger] lookup@[t].incorrect@[p])),
            decreases 15 - k,
        {
            let mut cvec: Vec<bool> = Vec::new();
            let mut ivec: Vec<bool> = Vec::new();
            let mut p: usize = 0;
            while p < difficulty
                invariant
                    p <= difficulty,
                    cvec@.len() == p,
                    ivec@.len() == p,
                    forall|q: int| 0 <= q < p ==> !(#[trigger] cvec@[q]),
                    forall|q: int| 0 <= q < p ==> !(#[trigger] ivec@[q]),
                decreases difficulty - p,
            {
                cvec.push(false);
                ivec.push(false);
                p = p + 1;
            }
            let mn: usize = if k == 14 {
                1
            } else {
                0
            };
            let mx: usize = if k == 0 {
                difficulty - 7
            } else if k <= 9 {
                difficulty - 3
            } else if k <= 13 {
                2
            } else {
                1
            };
            lookup.push(InfoLookup { correct: cvec, incorrect: ivec, min: mn, max: mx });
            k = k + 1;
        }

        // Fold each feedback row.
        let mut ri: usize = 0;
        while ri < info.len()
            invariant
                ri <= info@.len(),
                7 <= difficulty <= 15,
                rows == rows_view(info@),
                wf_rows(rows, difficulty as nat),
                lookup@.len() == 15,
                forall|t: int|
                    0 <= t < 15 ==> (#[trigger] lookup@[t]).min == fold_min(
                        rows.take(ri as int),
                        difficulty as nat,
                        t,
                    ) && lookup@[t].max == fold_max(rows.take(ri as int), difficulty as nat, t)
                        && lookup@[t].min <= difficulty && lookup@[t].max <= difficulty
                        && lookup@[t].correct@.len() == difficulty && lookup@[t].incorrect@.len()
                        == difficulty,
                forall|t: int, p: int|
                    0 <= t < 15 && 0 <= p < difficulty ==> (#[trigger] lookup@[t].correct@[p])
                        == corr_pos(rows.take(ri as int), spec_sym_char(t), p),
                forall|t: int, p: int|
                    0 <= t < 15 && 0 <= p < difficulty ==> (#[trigger] lookup@[t].incorrect@[p])
                        == incorr_pos(rows.take(ri as int), spec_sym_char(t), p),
            decreases info@.len() - ri,
        {
            proof {
                assert(rows.take(0) =~= Seq::<Seq<ColorInfo>>::empty());
            }
            let row: &Vec<ColorInfo> = &info[ri];
            let ghost rseq: Seq<ColorInfo> = row@;
            proof {
                assert(rows[ri as int] == rseq);
                assert(wf_row(rseq, difficulty as nat));
            }
            let mut tally: Vec<usize> = Vec::new();
            let mut capped: Vec<bool> = Vec::new();
            let mut k2: usize = 0;
            while k2 < 15
                invariant
                    k2 <= 15,
                    tally@.len() == k2,
                    capped@.len() == k2,
                    forall|t: int| 0 <= t < k2 ==> (#[trigger] tally@[t]) == 0,
                    forall|t: int| 0 <= t < k2 ==> !(#[trigger] capped@[t]),
                decreases 15 - k2,
            {
                tally.push(0);
                capped.push(false);
                k2 = k2 + 1;
            }

            // Scan the row: record position facts, the tally and the caps.
            let mut j: usize = 0;
            while j < row.len()
                invariant
                    j <= rseq.len(),
                    row@ == rseq,
                    wf_row(rseq, difficulty as nat),
                    7 <= difficulty <= 15,
                    rows == rows_view(info@),
                    ri < rows.len(),
                    rows[ri as int] == rseq,
                    wf_rows(rows, difficulty as nat),
                    tally@.len() == 15,
                    capped@.len() == 15,
                    lookup@.len() == 15,
                    forall|t: int|
                        0 <= t < 15 ==> (#[trigger] tally@[t]) == row_tally(
                            rseq.take(j as int),
                            spec_sym_char(t),
                        ),
                    forall|t: int|
                        0 <= t < 15 ==> (#[trigger] capped@[t]) == row_capped(
                            rseq.take(j as int),
                            spec_sym_char(t),
                        ),
                    forall|t: int|
                        0 <= t < 15 ==> (#[trigger] lookup@[t]).min == fold_min(
                            rows.take(ri as int),
                            difficulty as nat,
                            t,
                        ) && lookup@[t].max == fold_max(rows.take(ri as int), difficulty as nat, t)
                            && lookup@[t].min <= difficulty && lookup@[t].max <= difficulty
                            && lookup@[t].correct@.len() == difficulty
                            && lookup@[t].incorrect@.len() == difficulty,
                    forall|t: int, p: int|
                        0 <= t < 15 && 0 <= p < difficulty ==> (#[trigger] lookup@[t].correct@[p])
                            == (corr_pos(rows.take(ri as int), spec_sym_char(t), p) || row_correct(
                            rseq.take(j as int),
                            spec_sym_char(t),
                            p,
                        )),
                    forall|t: int, p: int|
                        0 <= t < 15 && 0 <= p < difficulty ==> (#[trigger] lookup@[t].incorrect@[p])
                            == (incorr_pos(rows.take(ri as int), spec_sym_char(t), p)
                            || row_incorrect(rseq.take(j as int), spec_sym_char(t), p)),
                decreases rseq.len() - j,
            {
                let cell = row[j];
                let t = sym_of(cell.chara).unwrap();
                let idx = cell.index;
                proof {
                    crate::alphabet::lemma_sym_roundtrip(rseq[j as int].chara);
                    lemma_row_tally_le_len(rseq.take(j as int), spec_sym_char(t as int));
                    assert(rseq.take(j + 1).drop_last() =~= rseq.take(j as int));
                    assert(rseq.take(j + 1).last() == rseq[j as int]);
                    assert forall|t2: int, p2: int| 0 <= t2 < 15 && 0 <= p2 < difficulty implies {
                        &&& row_correct(rseq.take(j + 1), spec_sym_char(t2), p2) == (row_correct(
                            rseq.take(j as int),
                            spec_sym_char(t2),
                            p2,
                        ) || (rseq[j as int].chara == spec_sym_char(t2) && rseq[j as int].color
                            is GREEN && rseq[j as int].index == p2))
                        &&& row_incorrect(rseq.take(j + 1), spec_sym_char(t2), p2) == (
                        row_incorrect(rseq.take(j as int), spec_sym_char(t2), p2) || (
                        rseq[j as int].chara == spec_sym_char(t2) && !(rseq[j as int].color
                            is GREEN) && rseq[j as int].index == p2))
                        &&& row_capped(rseq.take(j + 1), spec_sym_char(t2)) == (row_capped(
                            rseq.take(j as int),
                            spec_sym_char(t2),
                        ) || (rseq[j as int].chara == spec_sym_char(t2) && rseq[j as int].color
                            is GREY))
                    } by {
                        let pre = rseq.take(j as int);
                        let post = rseq.take(j + 1);
                        let c2 = spec_sym_char(t2);
                        if row_correct(pre, c2, p2) {
                            let w = choose|w: int|
                                0 <= w < pre.len() && (#[trigger] pre[w]).chara == c2 && pre[w].color
                                    is GREEN && pre[w].index == p2;
                            assert(post[w] == pre[w]);
                        }
                        if row_incorrect(pre, c2, p2) {
                            let w = choose|w: int|
                                0 <= w < pre.len() && (#[trigger] pre[w]).chara == c2 && !(
                                pre[w].color is GREEN) && pre[w].index == p2;
                            assert(post[w] == pre[w]);
                        }
                        if row_capped(pre, c2) {
                            let w = choose|w: int|
                                0 <= w < pre.len() && (#[trigger] pre[w]).chara == c2 && pre[w].color
                                    is GREY;
                            assert(post[w] == pre[w]);
                        }
                        if row_correct(post, c2, p2) {
                            let w = choose|w: int|
                                0 <= w < post.len() && (#[trigger] post[w]).chara == c2
                                    && post[w].color is GREEN && post[w].index == p2;
                            if w < j {
                                assert(pre[w] == post[w]);
                            }
                        }
                        if row_incorrect(post, c2, p2) {
                            let w = choose|w: int|
                                0 <= w < post.len() && (#[trigger] post[w]).chara == c2 && !(
                                post[w].color is GREEN) && post[w].index == p2;
                            if w < j {
                                assert(pre[w] == post[w]);
                            }
                        }
                        if row_capped(post, c2) {
                            let w = choose|w: int|
                                0 <= w < post.len() && (#[trigger] post[w]).chara == c2
                                    && post[w].color is GREY;
                            if w < j {
                                assert(pre[w] == post[w]);
                            }
                        }
                    }
                }
                match cell.color {
                    Color::GREEN => {
                        lookup[t].correct[idx] = true;
                        let cur = tally[t];
                        tally[t] = cur + 1;
                        proof {
                            lemma_row_tally_le_len(rseq.take(j + 1), spec_sym_char(t as int));
                        }
                    },
                    Color::YELLOW => {
                        lookup[t].incorrect[idx] = true;
                        let cur = tally[t];
                        tally[t] = cur + 1;
                        proof {
                            lemma_row_tally_le_len(rseq.take(j + 1), spec_sym_char(t as int));
                        }
                    },
                    Color::GREY => {
                        lookup[t].incorrect[idx] = true;
                        capped[t] = true;
                    },
                }
                j = j + 1;
            }
            proof {
                assert(rseq.take(rseq.len() as int) =~= rseq);
                assert forall|t: int| 0 <= t < 15 implies row_tally(rseq, spec_sym_char(t))
                    <= difficulty by {
                    lemma_row_tally_le_len(rseq, spec_sym_char(t));
                }
            }

            proof {
                assert forall|t: int, p: int| 0 <= t < 15 && 0 <= p < difficulty implies {
                    &&& corr_pos(rows.take(ri + 1), spec_sym_char(t), p) == (corr_pos(
                        rows.take(ri as int),
                        spec_sym_char(t),
                        p,
                    ) || row_correct(rseq, spec_sym_char(t), p))
                    &&& incorr_pos(rows.take(ri + 1), spec_sym_char(t), p) == (incorr_pos(
                        rows.take(ri as int),
                        spec_sym_char(t),
                        p,
                    ) || row_incorrect(rseq, spec_sym_char(t), p))
                } by {
                    let pre = rows.take(ri as int);
                    let post = rows.take(ri + 1);
                    let c2 = spec_sym_char(t);
                    assert(post.drop_last() =~= pre);
                    if corr_pos(pre, c2, p) {
                        let w = choose|w: int| 0 <= w < pre.len() && row_correct(#[trigger] pre[w], c2, p);
                        assert(post[w] == pre[w]);
                    }
                    if incorr_pos(pre, c2, p) {
                        let w = choose|w: int|
                            0 <= w < pre.len() && row_incorrect(#[trigger] pre[w], c2, p);
                        assert(post[w] == pre[w]);
                    }
                    if row_correct(rseq, c2, p) {
                        assert(post[ri as int] == rseq);
                    }
                    if row_incorrect(rseq, c2, p) {
                        assert(post[ri as int] == rseq);
                    }
                    if corr_pos(post, c2, p) {
                        let w = choose|w: int| 0 <= w < post.len() && row_correct(#[trigger] post[w], c2, p);
                        if w < ri {
                            assert(pre[w] == post[w]);
                        } else {
                            assert(post[w] == rseq);
                        }
                    }
                    if incorr_pos(post, c2, p) {
                        let w = choose|w: int|
                            0 <= w < post.len() && row_incorrect(#[trigger] post[w], c2, p);
                        if w < ri {
                            assert(pre[w] == post[w]);
                        } else {
                            assert(post[w] == rseq);
                        }
                    }
                }
            }
            // Raise minimums to the tally; a grey entry pins the maximum.
            let mut k3: usize = 0;
            while k3 < 15
                invariant
                    k3 <= 15,
                    7 <= difficulty <= 15,
                    rows == rows_view(info@),
                    ri < rows.len(),
                    rows[ri as int] == rseq,
                    wf_rows(rows, difficulty as nat),
                    rseq.len() == difficulty,
                    tally@.len() == 15,
                    capped@.len() == 15,
                    lookup@.len() == 15,
                    forall|t: int|
                        0 <= t < 15 ==> (#[trigger] tally@[t]) == row_tally(rseq, spec_sym_char(t))
                            && tally@[t] <= difficulty,
                    forall|t: int|
                        0 <= t < 15 ==> (#[trigger] capped@[t]) == row_capped(
                            rseq,
                            spec_sym_char(t),
                        ),
                    forall|t: int|
                        0 <= t < 15 ==> (#[trigger] lookup@[t]).correct@.len() == difficulty
                            && lookup@[t].incorrect@.len() == difficulty && lookup@[t].min
                            <= difficulty && lookup@[t].max <= difficulty,
                    forall|t: int|
                        k3 <= t < 15 ==> (#[trigger] lookup@[t]).min == fold_min(
                            rows.take(ri as int),
                            difficulty as nat,
                            t,
                        ) && lookup@[t].max == fold_max(rows.take(ri as int), difficulty as nat, t),
                    forall|t: int|
                        0 <= t < k3 ==> (#[trigger] lookup@[t]).min == fold_min(
                            rows.take(ri + 1),
                            difficulty as nat,
                            t,
                        ) && lookup@[t].max == fold_max(rows.take(ri + 1), difficulty as nat, t),
                    forall|t: int, p: int|
                        0 <= t < 15 && 0 <= p < difficulty ==> (#[trigger] lookup@[t].correct@[p])
                            == corr_pos(rows.take(ri + 1), spec_sym_char(t), p),
                    forall|t: int, p: int|
                        0 <= t < 15 && 0 <= p < difficulty ==> (#[trigger] lookup@[t].incorrect@[p])
                            == incorr_pos(rows.take(ri + 1), spec_sym_char(t), p),
                decreases 15 - k3,
            {
                proof {
                    assert(rows.take(ri + 1).drop_last() =~= rows.take(ri as int));
                    assert(rows.take(ri + 1).last() == rseq);
                }
                let mn = lookup[k3].min;
                let mx = lookup[k3].max;
                if mn != mx {
                    let t = tally[k3];
                    let newmin = if t > mn {
                        t
                    } else {
                        mn
                    };
                    lookup[k3].min = newmin;
                    if capped[k3] {
                        lookup[k3].max = newmin;
                    }
                }
                k3 = k3 + 1;
            }
            ri = ri + 1;
        }
        proof {
            assert(rows.take(rows.len() as int) =~= rows);
        }

        // Operator cross-inference.
        let m10 = lookup[10].min;
        let m11 = lookup[11].min;
        let m12 = lookup[12].min;
        let m13 = lookup[13].min;
        let f: usize = if m10 == 2 {
            10
        } else if m11 == 2 {
            11
        } else if m12 == 2 {
            12
        } else if m13 == 2 {
            13
        } else {
            14
        };
        let singles: usize = (if m10 == 1 {
            1
        } else {
            0
        }) + (if m11 == 1 {
            1
        } else {
            0
        }) + (if m12 == 1 {
            1
        } else {
            0
        }) + (if m13 == 1 {
            1
        } else {
            0
        });
        let mut k4: usize = 10;
        while k4 < 14
            invariant
                10 <= k4 <= 14,
                7 <= difficulty <= 15,
                lookup@.len() == 15,
                f as int == first_double_op(rows, difficulty as nat),
                singles as int == single_op_count(rows, difficulty as nat),
                forall|t: int|
                    0 <= t < 15 ==> (#[trigger] lookup@[t]).correct@.len() == difficulty
                        && lookup@[t].incorrect@.len() == difficulty && lookup@[t].min <= difficulty
                        && lookup@[t].max <= difficulty,
                forall|t: int|
                    (0 <= t < 10 || 14 <= t < 15 || k4 <= t < 14) ==> (#[trigger] lookup@[t]).min
                        == fold_min(rows, difficulty as nat, t) && lookup@[t].max == fold_max(
                        rows,
                        difficulty as nat,
                        t,
                    ),
                forall|t: int|
                    10 <= t < k4 ==> (#[trigger] lookup@[t]).min == op_min(rows, difficulty as nat, t)
                        && lookup@[t].max == op_max(rows, difficulty as nat, t),
                forall|t: int, p: int|
                    0 <= t < 15 && 0 <= p < difficulty ==> (#[trigger] lookup@[t].correct@[p])
                        == corr_pos(rows, spec_sym_char(t), p),
                forall|t: int, p: int|
                    0 <= t < 15 && 0 <= p < difficulty ==> (#[trigger] lookup@[t].incorrect@[p])
                        == incorr_pos(rows, spec_sym_char(t), p),
            decreases 14 - k4,
        {
            let mn = lookup[k4].min;
            let mx = lookup[k4].max;
            if f < 14 {
                if k4 != f {
                    lookup[k4].min = 0;
                    lookup[k4].max = 0;
                }
            } else if singles == 2 {
                if mn == 1 {
                    lookup[k4].max = 1;
                } else {
                    lookup[k4].min = 0;
                    lookup[k4].max = 0;
                }
            } else if singles == 1 {
                if mn != 1 && mx > 1 {
                    lookup[k4].max = 1;
                }
            }
            k4 = k4 + 1;
        }

        // Digit budget redistribution.
        let mut total_min: usize = 0;
        let mut k5: usize = 0;
        while k5 < 10
            invariant
                k5 <= 10,
                7 <= difficulty <= 15,
                lookup@.len() == 15,
                forall|t: int|
                    0 <= t < 10 ==> (#[trigger] lookup@[t]).min == fold_min(rows, difficulty as nat, t)
                        && lookup@[t].min <= difficulty,
                total_min as int == digit_min_sum(rows, difficulty as nat, k5 as int),
                total_min <= k5 * 15,
            decreases 10 - k5,
        {
            total_min = total_min + lookup[k5].min;
            k5 = k5 + 1;
        }

        let max_digits: usize = difficulty - 3;
        let mut k6: usize = 0;
        while k6 < 10
            invariant
                k6 <= 10,
                7 <= difficulty <= 15,
                max_digits == difficulty - 3,
                lookup@.len() == 15,
                total_min as int == digit_min_sum(rows, difficulty as nat, 10),
                total_min <= 150,
                forall|t: int|
                    0 <= t < 15 ==> (#[trigger] lookup@[t]).correct@.len() == difficulty
                        && lookup@[t].incorrect@.len() == difficulty && lookup@[t].min <= difficulty
                        && lookup@[t].max <= difficulty,
                forall|t: int|
                    0 <= t < 10 ==> (#[trigger] lookup@[t]).min == fold_min(rows, difficulty as nat, t),
                forall|t: int|
                    10 <= t < 14 ==> (#[trigger] lookup@[t]).min == op_min(rows, difficulty as nat, t)
                        && lookup@[t].max == op_max(rows, difficulty as nat, t),
                forall|t: int|
                    14 <= t < 15 ==> (#[trigger] lookup@[t]).min == fold_min(rows, difficulty as nat, t)
                        && lookup@[t].max == fold_max(rows, difficulty as nat, t),
                forall|t: int|
                    k6 <= t < 10 ==> (#[trigger] lookup@[t]).max == fold_max(rows, difficulty as nat, t),
                forall|t: int|
                    0 <= t < k6 ==> (#[trigger] lookup@[t]).max == final_max(rows, difficulty as nat, t),
                forall|t: int, p: int|
                    0 <= t < 15 && 0 <= p < difficulty ==> (#[trigger] lookup@[t].correct@[p])
                        == corr_pos(rows, spec_sym_char(t), p),
                forall|t: int, p: int|
                    0 <= t < 15 && 0 <= p < difficulty ==> (#[trigger] lookup@[t].incorrect@[p])
                        == incorr_pos(rows, spec_sym_char(t), p),
            decreases 10 - k6,
        {
            let mn = lookup[k6].min;
            let mx = lookup[k6].max;
            if mn < mx {
                proof {
                    lemma_digit_min_sum_ge(rows, difficulty as nat, k6 as int);
                }
                let reserved = total_min - mn;
                let budget: usize = if max_digits >= reserved {
                    max_digits - reserved
                } else {
                    0
                };
                if budget < mx {
                    lookup[k6].max = budget;
                }
            }
            k6 = k6 + 1;
        }

        InfoIndex { difficulty, lookup }
    }
}

} // verus!

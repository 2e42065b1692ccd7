//! The restriction checker: does a fully formed candidate guess respect
//! every fact the constraint index derived from the history?

use vstd::prelude::*;
use crate::alphabet::{all_symbols, chars_vec, count_char, spec_sym_char, sym_char, sym_freqs};
use crate::index::InfoIndex;

verus! {

/// Confirmed and ruled-out positions are respected: a position confirmed for
/// a symbol holds that symbol, a position ruled out for a symbol does not.
pub open spec fn positions_ok(g: Seq<char>, idx: InfoIndex) -> bool {
    &&& forall|k: int, p: int|
        0 <= k < 15 && 0 <= p < g.len() && (#[trigger] idx.lookup@[k].correct@[p]) ==> g[p]
            == spec_sym_char(k)
    &&& forall|k: int, p: int|
        0 <= k < 15 && 0 <= p < g.len() && (#[trigger] idx.lookup@[k].incorrect@[p]) ==> g[p]
            != spec_sym_char(k)
}

/// The occurrence count of symbol `k` lies within its bounds; when the
/// bounds have met, it matches them exactly.
pub open spec fn counts_ok(g: Seq<char>, idx: InfoIndex, k: int) -> bool {
    let c = count_char(g, spec_sym_char(k));
    let mn = idx.lookup@[k].min;
    let mx = idx.lookup@[k].max;
    if mn == mx {
        c == mn
    } else {
        mn <= c <= mx
    }
}

/// Guess positions proven to repeat a symbol: one beyond each minimum.
pub open spec fn excess_sum(idx: InfoIndex, upto: int) -> nat
    decreases upto,
{
    if upto <= 0 {
        0
    } else {
        excess_sum(idx, upto - 1) + if idx.lookup@[upto - 1].min >= 1 {
            (idx.lookup@[upto - 1].min - 1) as nat
        } else {
            0nat
        }
    }
}

/// How many symbols below `upto` occur in the guess.
pub open spec fn distinct_syms(g: Seq<char>, upto: int) -> nat
    decreases upto,
{
    if upto <= 0 {
        0
    } else {
        distinct_syms(g, upto - 1) + if count_char(g, spec_sym_char(upto - 1)) >= 1 {
            1nat
        } else {
            0nat
        }
    }
}

/// A candidate satisfies the index when every position fact and every
/// occurrence bound holds, and the guess is not more diverse than the
/// duplicate budget allows.
pub open spec fn spec_satisfies(g: Seq<char>, idx: InfoIndex) -> bool {
    &&& positions_ok(g, idx)
    &&& forall|k: int| 0 <= k < 15 ==> counts_ok(g, idx, k)
    &&& distinct_syms(g, 15) + excess_sum(idx, 15) <= g.len()
}

/// Checks a candidate guess, given as characters, against the index.
pub fn satisfies_chars(g: &Vec<char>, index: &InfoIndex) -> (r: bool)
    requires
        index.wf(),
        g@.len() == index.difficulty,
        all_symbols(g@),
    ensures
        r == spec_satisfies(g@, *index),
{
    let ghost gs: Seq<char> = g@;
    let freq = sym_freqs(g);
    let d: usize = index.difficulty;
    let mut k: usize = 0;
    while k < 15
        invariant
            k <= 15,
            index.wf(),
            d == index.difficulty,
            gs.len() == d,
            g@ == gs,
            freq@.len() == 15,
            forall|t: int| 0 <= t < 15 ==> #[trigger] freq@[t] == count_char(gs, spec_sym_char(t)),
            forall|t: int, p: int|
                0 <= t < k && 0 <= p < gs.len() && (#[trigger] index.lookup@[t].correct@[p])
                    ==> gs[p] == spec_sym_char(t),
            forall|t: int, p: int|
                0 <= t < k && 0 <= p < gs.len() && (#[trigger] index.lookup@[t].incorrect@[p])
                    ==> gs[p] != spec_sym_char(t),
            forall|t: int| 0 <= t < k ==> counts_ok(gs, *index, t),
        decreases 15 - k,
    {
        let ck = sym_char(k);
        let mut p: usize = 0;
        while p < d
            invariant
                p <= d,
                k < 15,
                index.wf(),
                d == index.difficulty,
                gs.len() == d,
                g@ == gs,
                ck == spec_sym_char(k as int),
                forall|q: int|
                    0 <= q < p && (#[trigger] index.lookup@[k as int].correct@[q]) ==> gs[q]
                        == spec_sym_char(k as int),
                forall|q: int|
                    0 <= q < p && (#[trigger] index.lookup@[k as int].incorrect@[q]) ==> gs[q]
                        != spec_sym_char(k as int),
            decreases d - p,
        {
            if index.lookup[k].correct[p] {
                if g[p] != ck {
                    proof {
                        assert(!positions_ok(gs, *index));
                    }
                    return false;
                }
            }
            if index.lookup[k].incorrect[p] {
                if g[p] == ck {
                    proof {
                        assert(!positions_ok(gs, *index));
                    }
                    return false;
                }
            }
            p = p + 1;
        }
        let mn = index.lookup[k].min;
        let mx = index.lookup[k].max;
        let c = freq[k];
        if mn == mx {
            if c != mn {
                proof {
                    assert(!counts_ok(gs, *index, k as int));
                }
                return false;
            }
        } else {
            if c < mn || c > mx {
                proof {
                    assert(!counts_ok(gs, *index, k as int));
                }
                return false;
            }
        }
        k = k + 1;
    }

    // Duplicate budget: the guess may not be more diverse than what the
    // proven repetitions leave room for.
    let mut excess: usize = 0;
    let mut distinct: usize = 0;
    let mut k2: usize = 0;
    while k2 < 15
        invariant
            k2 <= 15,
            index.wf(),
            gs.len() == d,
            g@ == gs,
            freq@.len() == 15,
            forall|t: int| 0 <= t < 15 ==> #[trigger] freq@[t] == count_char(gs, spec_sym_char(t)),
            excess as int == excess_sum(*index, k2 as int),
            distinct as int == distinct_syms(gs, k2 as int),
            excess <= k2 * 15,
            distinct <= k2,
        decreases 15 - k2,
    {
        let mn = index.lookup[k2].min;
        if mn >= 1 {
            excess = excess + (mn - 1);
        }
        if freq[k2] > 0 {
            distinct = distinct + 1;
        }
        k2 = k2 + 1;
    }
    if distinct + excess > g.len() {
        return false;
    }
    true
}

/// Checks a candidate guess against the index.  The guess must have the
/// index's length and stay within the game alphabet.
pub fn passes_restrictions(guess: &str, index: &InfoIndex) -> (r: bool)
    requires
        index.wf(),
        guess@.len() == index.difficulty,
        all_symbols(guess@),
    ensures
        r == spec_satisfies(guess@, *index),
{
    let g = chars_vec(guess);
    satisfies_chars(&g, index)
}

/// Helper: equal bounds give equal excess sums.
proof fn lemma_excess_sum_same(idx1: InfoIndex, idx2: InfoIndex, upto: int)
    requires
        idx1.lookup@.len() == 15,
        idx2.lookup@.len() == 15,
        upto <= 15,
        forall|k: int|
            0 <= k < 15 ==> (#[trigger] idx1.lookup@[k]).min == idx2.lookup@[k].min,
    ensures
        excess_sum(idx1, upto) == excess_sum(idx2, upto),
    decreases upto,
{
    if upto > 0 {
        lemma_excess_sum_same(idx1, idx2, upto - 1);
    }
}

/// The checker is deterministic over the history: two indexes built from the
/// same history judge every guess alike, so a guess accepted once is
/// accepted again on re-validation.
pub proof fn lemma_satisfies_stable(
    g: Seq<char>,
    rows: Seq<Seq<crate::feedback::ColorInfo>>,
    idx1: InfoIndex,
    idx2: InfoIndex,
)
    requires
        idx1.wf(),
        idx2.wf(),
        idx1.difficulty == idx2.difficulty,
        idx1.matches_history(rows),
        idx2.matches_history(rows),
        g.len() == idx1.difficulty,
    ensures
        spec_satisfies(g, idx1) == spec_satisfies(g, idx2),
{
    assert forall|k: int| 0 <= k < 15 implies (#[trigger] idx1.lookup@[k]).min
        == idx2.lookup@[k].min && idx1.lookup@[k].max == idx2.lookup@[k].max by {}
    assert forall|k: int, p: int| 0 <= k < 15 && 0 <= p < g.len() implies (#[trigger] idx1.lookup@[k].correct@[p])
        == idx2.lookup@[k].correct@[p] && (#[trigger] idx1.lookup@[k].incorrect@[p])
        == idx2.lookup@[k].incorrect@[p] by {}
    lemma_excess_sum_same(idx1, idx2, 15);
    if positions_ok(g, idx1) {
        assert forall|k: int, p: int|
            0 <= k < 15 && 0 <= p < g.len() && (#[trigger] idx2.lookup@[k].correct@[p]) implies g[p]
            == spec_sym_char(k) by {
            assert(idx1.lookup@[k].correct@[p]);
        }
        assert forall|k: int, p: int|
            0 <= k < 15 && 0 <= p < g.len() && (#[trigger] idx2.lookup@[k].incorrect@[p]) implies g[p]
            != spec_sym_char(k) by {
            assert(idx1.lookup@[k].incorrect@[p]);
        }
    }
    if positions_ok(g, idx2) {
        assert forall|k: int, p: int|
            0 <= k < 15 && 0 <= p < g.len() && (#[trigger] idx1.lookup@[k].correct@[p]) implies g[p]
            == spec_sym_char(k) by {
            assert(idx2.lookup@[k].correct@[p]);
        }
        assert forall|k: int, p: int|
            0 <= k < 15 && 0 <= p < g.len() && (#[trigger] idx1.lookup@[k].incorrect@[p]) implies g[p]
            != spec_sym_char(k) by {
            assert(idx2.lookup@[k].incorrect@[p]);
        }
    }
    assert(positions_ok(g, idx1) == positions_ok(g, idx2));
    assert forall|k: int| 0 <= k < 15 implies counts_ok(g, idx1, k) == counts_ok(g, idx2, k) by {}
}

/// A guess whose occurrence count of some symbol breaks that symbol's met
/// bounds is always rejected, whatever the rest of the guess looks like.
pub proof fn lemma_satisfies_rejects_count(g: Seq<char>, idx: InfoIndex, k: int)
    requires
        idx.wf(),
        g.len() == idx.difficulty,
        0 <= k < 15,
        idx.lookup@[k].min == idx.lookup@[k].max,
        count_char(g, spec_sym_char(k)) != idx.lookup@[k].min,
    ensures
        !spec_satisfies(g, idx),
{
    assert(!counts_ok(g, idx, k));
}

} // verus!

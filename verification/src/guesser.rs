//! The guessing engine: ranks candidate characters by an externally supplied
//! positional weight table, decides between probing and solving, and runs
//! the two backtracking searches.

use vstd::prelude::*;
use vstd::seq_lib::group_to_multiset_ensures;
use crate::alphabet::{
    all_symbols, is_symbol, lemma_sym_char_roundtrip, lemma_sym_roundtrip, spec_sym_char,
    spec_sym_of, string_of_chars, sym_char, sym_of,
};
use crate::digits::digits_of;
use crate::eval::{eval_chars, spec_eval};
use crate::feedback::ColorInfo;
use crate::index::{rows_view, wf_rows, InfoIndex};
use crate::restrict::{satisfies_chars, spec_satisfies};
use crate::rng::rand_below;

verus! {

/// The frequency oracle: an externally supplied weight for every alphabet
/// symbol at every position, scaled to integers.  Larger weights make a
/// symbol more attractive at that position.
pub struct FreqOracle {
    pub weights: Vec<Vec<i64>>,
}

impl FreqOracle {
    /// A usable oracle for a given difficulty: one row of fifteen bounded
    /// weights per position.
    pub open spec fn wf(&self, difficulty: nat) -> bool {
        &&& self.weights@.len() == difficulty
        &&& forall|p: int|
            0 <= p < self.weights@.len() ==> (#[trigger] self.weights@[p])@.len() == 15
        &&& forall|p: int, k: int|
            0 <= p < self.weights@.len() && 0 <= k < 15 ==> 0 <= #[trigger] self.weights@[p]@[k]
                <= 1000000000000
    }

    /// An oracle that weighs every symbol alike, for callers without
    /// external frequency data.
    pub fn uniform(difficulty: usize) -> (r: FreqOracle)
        requires
            7 <= difficulty <= 15,
        ensures
            r.wf(difficulty as nat),
    {
        let mut weights: Vec<Vec<i64>> = Vec::new();
        let mut p: usize = 0;
        while p < difficulty
            invariant
                p <= difficulty,
                weights@.len() == p,
                forall|q: int|
                    0 <= q < p ==> (#[trigger] weights@[q])@.len() == 15 && forall|k: int|
                        0 <= k < 15 ==> #[trigger] weights@[q]@[k] == 1000000,
            decreases difficulty - p,
        {
            let mut row: Vec<i64> = Vec::new();
            let mut k: usize = 0;
            while k < 15
                invariant
                    k <= 15,
                    row@.len() == k,
                    forall|t: int| 0 <= t < k ==> #[trigger] row@[t] == 1000000,
                decreases 15 - k,
            {
                row.push(1000000);
                k = k + 1;
            }
            weights.push(row);
            p = p + 1;
        }
        FreqOracle { weights }
    }
}

/// The `Guesser` owns one round of deduction: the constraint index built
/// from the history, the difficulty, and the number of past attempts.
pub struct Guesser {
    pub index: InfoIndex,
    pub difficulty: usize,
    pub attempt: usize,
    pub oracle: FreqOracle,
}

impl Guesser {
    /// A usable guesser.
    pub open spec fn wf(&self) -> bool {
        &&& self.index.wf()
        &&& self.index.difficulty == self.difficulty
        &&& 7 <= self.difficulty <= 15
        &&& self.oracle.wf(self.difficulty as nat)
    }

    /// Builds a guesser for one round: the constraint index is rebuilt from
    /// the whole history, and the attempt number is the history's length.
    pub fn new(difficulty: usize, all_info: &Vec<Vec<ColorInfo>>, oracle: FreqOracle) -> (r:
        Guesser)
        requires
            7 <= difficulty <= 15,
            wf_rows(rows_view(all_info@), difficulty as nat),
            oracle.wf(difficulty as nat),
        ensures
            r.wf(),
            r.difficulty == difficulty,
            r.attempt == all_info@.len(),
            r.index.matches_history(rows_view(all_info@)),
    {
        let index = InfoIndex::build(difficulty, all_info);
        Guesser { index, difficulty, attempt: all_info.len(), oracle }
    }

    /// Orders a list of candidate characters, best first: by oracle weight
    /// with a small random jitter, and, mid-search, penalised by how often
    /// the character was already used.  The result is a permutation of the
    /// input; the order never affects correctness, only preference.
    fn choice_sort(
        &self,
        choices: &mut Vec<char>,
        position: usize,
        frequency: &Vec<usize>,
        use_freq: bool,
    )
        requires
            self.wf(),
            position < self.difficulty,
            frequency@.len() == 15,
            forall|t: int| 0 <= t < 15 ==> #[trigger] frequency@[t] <= 1000,
            all_symbols(old(choices)@),
        ensures
            final(choices)@.to_multiset() == old(choices)@.to_multiset(),
            final(choices)@.len() == old(choices)@.len(),
            all_symbols(final(choices)@),
    {
        broadcast use group_to_multiset_ensures;

        let n: usize = choices.len();
        let mut keys: Vec<i64> = Vec::new();
        let mut i: usize = 0;
        while i < n
            invariant
                i <= n,
                n == choices@.len(),
                keys@.len() == i,
                self.wf(),
                position < self.difficulty,
                frequency@.len() == 15,
                forall|t: int| 0 <= t < 15 ==> #[trigger] frequency@[t] <= 1000,
                all_symbols(choices@),
            decreases n - i,
        {
            let c = choices[i];
            let t = sym_of(c).unwrap();
            proof {
                lemma_sym_roundtrip(choices@[i as int]);
            }
            let w: i64 = self.oracle.weights[position][t];
            let jitter: i64 = rand_below(100000) as i64;
            let key: i64 = if use_freq {
                jitter - 5 * w + (frequency[t] as i64) * 1000000
            } else {
                jitter - w
            };
            keys.push(key);
            i = i + 1;
        }

        // Extract the remaining candidate with the smallest key, repeatedly.
        let ghost orig: Seq<char> = choices@;
        let mut rest: Vec<char> = Vec::new();
        let mut rest_keys: Vec<i64> = Vec::new();
        let mut i2: usize = 0;
        while i2 < n
            invariant
                i2 <= n,
                n == choices@.len(),
                n == keys@.len(),
                choices@ == orig,
                rest@.len() == i2,
                rest_keys@.len() == i2,
                rest@ == orig.take(i2 as int),
            decreases n - i2,
        {
            rest.push(choices[i2]);
            rest_keys.push(keys[i2]);
            proof {
                assert(rest@ =~= orig.take(i2 + 1 as int));
            }
            i2 = i2 + 1;
        }
        proof {
            assert(rest@ =~= orig);
        }

        let mut out: Vec<char> = Vec::new();
        while rest.len() > 0
            invariant
                rest@.len() == rest_keys@.len(),
                out@.to_multiset().add(rest@.to_multiset()) =~= orig.to_multiset(),
                all_symbols(orig),
                forall|j: int| 0 <= j < rest@.len() ==> orig.contains(#[trigger] rest@[j]),
                forall|j: int| 0 <= j < out@.len() ==> orig.contains(#[trigger] out@[j]),
            decreases rest@.len(),
        {
            let mut best: usize = 0;
            let mut j: usize = 1;
            while j < rest_keys.len()
                invariant
                    best < j || (j == 1 && best == 0),
                    j <= rest_keys@.len(),
                    best < rest_keys@.len() || rest_keys@.len() == 0,
                decreases rest_keys@.len() - j,
            {
                if rest_keys[j] < rest_keys[best] {
                    best = j;
                }
                j = j + 1;
            }
            let ghost out0: Seq<char> = out@;
            let ghost rest0: Seq<char> = rest@;
            let c = rest[best];
            out.push(c);
            let _ = rest.remove(best);
            let _ = rest_keys.remove(best);
            proof {
                out0.to_multiset_ensures();
                rest0.to_multiset_ensures();
                assert(rest0.contains(c));
                assert(out@ == out0.push(c));
                assert(out0.push(c).to_multiset() =~= out0.to_multiset().insert(c));
                assert(rest@ == rest0.remove(best as int));
                assert(rest0.remove(best as int).to_multiset() =~= rest0.to_multiset().remove(
                    rest0[best as int]));
                assert(out@.to_multiset() =~= out0.to_multiset().insert(c));
                assert(rest@.to_multiset() =~= rest0.to_multiset().remove(c));
                assert(out@.to_multiset().add(rest@.to_multiset()) =~= out0.to_multiset().add(
                    rest0.to_multiset()));
            }
        }
        proof {
            assert(rest@.to_multiset() =~= Seq::<char>::empty().to_multiset());
            assert(out@.to_multiset() =~= orig.to_multiset());
            assert(out@.to_multiset().len() == orig.to_multiset().len());
            assert forall|j: int| 0 <= j < out@.len() implies is_symbol(#[trigger] out@[j]) by {
                let c = out@[j];
                let w = choose|w: int| 0 <= w < orig.len() && orig[w] == c;
            }
        }
        *choices = out;
    }

}

/// The hand-tuned opening template of each difficulty: fixed equality signs
/// and slots for the chooser to re-fill.
pub open spec fn spec_template(difficulty: int) -> Seq<char> {
    if difficulty == 7 {
        seq!['1', '+', '-', '*', '%', '5', '4']
    } else if difficulty == 8 {
        seq!['1', '+', '-', '*', '%', '=', '5', '4']
    } else if difficulty == 9 {
        seq!['1', '+', '-', '*', '%', '=', '=', '4', '4']
    } else if difficulty == 10 {
        seq!['1', '+', '-', '*', '%', '4', '=', '=', '1', '5']
    } else if difficulty == 11 {
        seq!['1', '+', '-', '*', '%', '4', '=', '=', '1', '6', '5']
    } else if difficulty == 12 {
        seq!['1', '+', '-', '*', '%', '4', '5', '=', '1', '7', '6', '1']
    } else if difficulty == 13 {
        seq!['1', '+', '-', '3', '*', '%', '5', '=', '1', '7', '6', '1', '1']
    } else if difficulty == 14 {
        seq!['1', '2', '+', '-', '4', '*', '%', '6', '1', '8', '7', '1', '1', '1']
    } else {
        seq!['1', '2', '+', '-', '4', '*', '%', '6', '1', '2', '2', '1', '1', '1', '1']
    }
}

/// The equality position assumed when the history has not confirmed one:
/// the smaller of `difficulty - 2` and eight.
pub open spec fn assumed_eq_position(difficulty: int) -> int {
    if difficulty - 2 < 8 {
        difficulty - 2
    } else {
        8
    }
}

/// A character the chooser may place in an opening-guess slot: digits below
/// nine always, nine only from difficulty fourteen, modulo from eight, the
/// other operators from thirteen.
pub open spec fn pool_ok(difficulty: int, c: char) -> bool {
    ||| (crate::alphabet::is_digit_char(c) && c != '9')
    ||| (c == '9' && difficulty >= 14)
    ||| (c == '%' && difficulty >= 8)
    ||| (crate::alphabet::is_op_char(c) && difficulty >= 13)
}

impl Guesser {
    /// Builds the opening template of a difficulty.
    fn template_for(difficulty: usize) -> (r: Vec<char>)
        requires
            7 <= difficulty <= 15,
        ensures
            r@ == spec_template(difficulty as int),
            r@.len() == difficulty,
    {
        let mut r: Vec<char> = Vec::new();
        if difficulty == 7 {
            r.push('1');
            r.push('+');
            r.push('-');
            r.push('*');
            r.push('%');
            r.push('5');
            r.push('4');
        } else if difficulty == 8 {
            r.push('1');
            r.push('+');
            r.push('-');
            r.push('*');
            r.push('%');
            r.push('=');
            r.push('5');
            r.push('4');
        } else if difficulty == 9 {
            r.push('1');
            r.push('+');
            r.push('-');
            r.push('*');
            r.push('%');
            r.push('=');
            r.push('=');
            r.push('4');
            r.push('4');
        } else if difficulty == 10 {
            r.push('1');
            r.push('+');
            r.push('-');
            r.push('*');
            r.push('%');
            r.push('4');
            r.push('=');
            r.push('=');
            r.push('1');
            r.push('5');
        } else if difficulty == 11 {
            r.push('1');
            r.push('+');
            r.push('-');
            r.push('*');
            r.push('%');
            r.push('4');
            r.push('=');
            r.push('=');
            r.push('1');
            r.push('6');
            r.push('5');
        } else if difficulty == 12 {
            r.push('1');
            r.push('+');
            r.push('-');
            r.push('*');
            r.push('%');
            r.push('4');
            r.push('5');
            r.push('=');
            r.push('1');
            r.push('7');
            r.push('6');
            r.push('1');
        } else if difficulty == 13 {
            r.push('1');
            r.push('+');
            r.push('-');
            r.push('3');
            r.push('*');
            r.push('%');
            r.push('5');
            r.push('=');
            r.push('1');
            r.push('7');
            r.push('6');
            r.push('1');
            r.push('1');
        } else if difficulty == 14 {
            r.push('1');
            r.push('2');
            r.push('+');
            r.push('-');
            r.push('4');
            r.push('*');
            r.push('%');
            r.push('6');
            r.push('1');
            r.push('8');
            r.push('7');
            r.push('1');
            r.push('1');
            r.push('1');
        } else {
            r.push('1');
            r.push('2');
            r.push('+');
            r.push('-');
            r.push('4');
            r.push('*');
            r.push('%');
            r.push('6');
            r.push('1');
            r.push('2');
            r.push('2');
            r.push('1');
            r.push('1');
            r.push('1');
            r.push('1');
        }
        proof {
            assert(r@ =~= spec_template(difficulty as int));
        }
        r
    }

    /// The opening guess: the difficulty's template with every slot but the
    /// equality signs re-filled by the chooser over the difficulty-gated
    /// candidate pool.
    pub fn initial_guess(&self) -> (r: Vec<char>)
        requires
            self.wf(),
        ensures
            r@.len() == self.difficulty,
            all_symbols(r@),
            forall|i: int|
                0 <= i < r@.len() ==> ((#[trigger] r@[i] == '=') == (spec_template(
                    self.difficulty as int,
                )[i] == '=')),
            forall|i: int|
                0 <= i < r@.len() && spec_template(self.difficulty as int)[i] != '='
                    ==> pool_ok(self.difficulty as int, #[trigger] r@[i]),
    {
        broadcast use group_to_multiset_ensures;

        let d = self.difficulty;
        let mut nums: Vec<char> = Vec::new();
        nums.push('0');
        nums.push('1');
        nums.push('2');
        nums.push('3');
        nums.push('4');
        nums.push('5');
        nums.push('6');
        nums.push('7');
        nums.push('8');
        if d >= 8 {
            nums.push('%');
        }
        if d >= 13 {
            nums.push('+');
            nums.push('-');
            nums.push('*');
            nums.push('%');
        }
        if d >= 14 {
            nums.push('9');
        }
        proof {
            assert forall|j: int| 0 <= j < nums@.len() implies pool_ok(
                d as int,
                #[trigger] nums@[j],
            ) by {}
        }
        let mut template = Self::template_for(d);
        let ghost template0: Seq<char> = template@;
        let mut freq: Vec<usize> = Vec::new();
        let mut k: usize = 0;
        while k < 15
            invariant
                k <= 15,
                freq@.len() == k,
                forall|t: int| 0 <= t < k ==> #[trigger] freq@[t] == 0,
            decreases 15 - k,
        {
            freq.push(0);
            k = k + 1;
        }
        let mut i: usize = 0;
        while i < d
            invariant
                i <= d,
                self.wf(),
                d == self.difficulty,
                template@.len() == d,
                template0 == spec_template(d as int),
                nums@.len() >= 9,
                forall|j: int| 0 <= j < nums@.len() ==> pool_ok(d as int, #[trigger] nums@[j]),
                freq@.len() == 15,
                forall|t: int| 0 <= t < 15 ==> #[trigger] freq@[t] <= i,
                forall|j: int| i <= j < d ==> #[trigger] template@[j] == template0[j],
                forall|j: int|
                    0 <= j < i ==> ((#[trigger] template@[j] == '=') == (template0[j] == '=')),
                forall|j: int|
                    0 <= j < i && template0[j] != '=' ==> pool_ok(
                        d as int,
                        #[trigger] template@[j],
                    ),
            decreases d - i,
        {
            if template[i] == '=' {
                i = i + 1;
                continue;
            }
            proof {
                assert forall|j: int| 0 <= j < nums@.len() implies is_symbol(
                    #[trigger] nums@[j],
                ) by {}
            }
            let ghost pre_pool: Seq<char> = nums@;
            self.choice_sort(&mut nums, i, &freq, true);
            proof {
                pre_pool.to_multiset_ensures();
                nums@.to_multiset_ensures();
                assert forall|j: int| 0 <= j < nums@.len() implies pool_ok(
                    d as int,
                    #[trigger] nums@[j],
                ) by {
                    assert(nums@.contains(nums@[j]));
                    assert(pre_pool.to_multiset().count(nums@[j]) > 0);
                    assert(pre_pool.contains(nums@[j]));
                }
            }
            let c = nums[0];
            let t = sym_of(c).unwrap();
            proof {
                lemma_sym_roundtrip(nums@[0]);
            }
            let cur = freq[t];
            freq[t] = cur + 1;
            template[i] = c;
            i = i + 1;
        }
        proof {
            assert forall|j: int| 0 <= j < template@.len() implies is_symbol(
                #[trigger] template@[j],
            ) by {
                if template0[j] == '=' {
                    assert(template@[j] == '=' || pool_ok(d as int, template@[j]));
                }
            }
        }
        template
    }

    /// Deduces where the equality sign stands and returns the result length.
    /// Unless the history has confirmed exactly one position, the sign is
    /// assumed at the smaller of `difficulty - 2` and eight, and that
    /// assumption is written into the index.
    pub fn deduce_equality(&mut self) -> (result_length: usize)
        requires
            old(self).wf(),
        ensures
            final(self).wf(),
            final(self).difficulty == old(self).difficulty,
            final(self).attempt == old(self).attempt,
            final(self).oracle == old(self).oracle,
            forall|k: int|
                0 <= k < 15 && k != 14 ==> final(self).index.lookup@[k] == old(
                    self,
                ).index.lookup@[k],
            final(self).index.lookup@[14].min == old(self).index.lookup@[14].min,
            final(self).index.lookup@[14].max == old(self).index.lookup@[14].max,
            final(self).index.lookup@[14].incorrect == old(self).index.lookup@[14].incorrect,
            result_length < final(self).difficulty,
            exists|p: int|
                0 <= p < final(self).difficulty && result_length == final(self).difficulty - 1 - p
                    && (#[trigger] final(self).index.lookup@[14].correct@[p]) && (forall|q: int|
                    0 <= q < final(self).difficulty && q != p
                        ==> !final(self).index.lookup@[14].correct@[q]),
            count_trues(old(self).index.lookup@[14].correct@, old(self).difficulty as int) != 1
                ==> (forall|q: int|
                0 <= q < final(self).difficulty
                    ==> ((#[trigger] final(self).index.lookup@[14].correct@[q]) == (q
                    == assumed_eq_position(final(self).difficulty as int)))) && result_length
                == final(self).difficulty - 1 - assumed_eq_position(
                final(self).difficulty as int,
            ),
            count_trues(old(self).index.lookup@[14].correct@, old(self).difficulty as int) == 1
                ==> *final(self) == *old(self) && (forall|p: int|
                0 <= p < old(self).difficulty
                    && (#[trigger] old(self).index.lookup@[14].correct@[p]) ==> result_length
                    == old(self).difficulty - 1 - p),
    {
        let d = self.difficulty;
        let mut found: usize = d;
        let mut multiple: bool = false;
        let mut q: usize = 0;
        let ghost cvec0: Seq<bool> = self.index.lookup@[14].correct@;
        while q < d
            invariant
                q <= d,
                *self == *old(self),
                self.wf(),
                d == self.difficulty,
                cvec0 == self.index.lookup@[14].correct@,
                found == d || (found < q && self.index.lookup@[14].correct@[found as int]),
                !multiple && found < d ==> forall|t: int|
                    0 <= t < q && t != found ==> !self.index.lookup@[14].correct@[t],
                found == d ==> !multiple && forall|t: int|
                    0 <= t < q ==> !self.index.lookup@[14].correct@[t],
                found == d ==> count_trues(cvec0, q as int) == 0,
                found < d && !multiple ==> count_trues(cvec0, q as int) == 1,
                multiple ==> count_trues(cvec0, q as int) >= 2,
            decreases d - q,
        {
            proof {
                assert(count_trues(cvec0, q + 1) == count_trues(cvec0, q as int) + (if cvec0[q as int] {
                    1nat
                } else {
                    0nat
                }));
            }
            if self.index.lookup[14].correct[q] {
                if found < d {
                    multiple = true;
                } else {
                    found = q;
                }
            }
            q = q + 1;
        }
        if multiple || found == d {
            let pos: usize = if d - 2 < 8 {
                d - 2
            } else {
                8
            };
            let mut cvec: Vec<bool> = Vec::new();
            let mut q2: usize = 0;
            while q2 < d
                invariant
                    q2 <= d,
                    pos < d,
                    cvec@.len() == q2,
                    forall|t: int| 0 <= t < q2 ==> #[trigger] cvec@[t] == (t == pos),
                decreases d - q2,
            {
                cvec.push(q2 == pos);
                q2 = q2 + 1;
            }
            self.index.lookup[14].correct = cvec;
            proof {
                assert(self.index.lookup@[14].correct@[pos as int]);
                assert(forall|q: int|
                    0 <= q < d && q != pos ==> !self.index.lookup@[14].correct@[q]);
            }
            d - pos - 1
        } else {
            proof {
                assert(self.index.lookup@[14].correct@[found as int]);
                assert(forall|q: int|
                    0 <= q < d && q != found ==> !self.index.lookup@[14].correct@[q]);
            }
            d - found - 1
        }
    }
}

/// How many entries of a prefix are set.
pub open spec fn count_trues(s: Seq<bool>, upto: int) -> nat
    decreases upto,
{
    if upto <= 0 {
        0
    } else {
        count_trues(s, upto - 1) + if s[upto - 1] {
            1nat
        } else {
            0nat
        }
    }
}

/// Total number of confirmed positions over the symbols below `upto`.
pub open spec fn corr_sum(idx: InfoIndex, upto: int) -> nat
    decreases upto,
{
    if upto <= 0 {
        0
    } else {
        corr_sum(idx, upto - 1) + count_trues(
            idx.lookup@[upto - 1].correct@,
            idx.difficulty as int,
        )
    }
}

/// Confirmed positions of the still-admissible operators below `upto`.
pub open spec fn op_corr_sum(idx: InfoIndex, upto: int) -> nat
    decreases upto,
{
    if upto <= 10 {
        0
    } else {
        op_corr_sum(idx, upto - 1) + if idx.lookup@[upto - 1].max > 0 {
            count_trues(idx.lookup@[upto - 1].correct@, idx.difficulty as int)
        } else {
            0nat
        }
    }
}

/// The modulo operator is the only operator the history confirms.
pub open spec fn only_modulo_confirmed(idx: InfoIndex) -> bool {
    idx.lookup@[13].min > 0 && idx.lookup@[10].min == 0 && idx.lookup@[11].min == 0
        && idx.lookup@[12].min == 0
}

/// The hand-tuned probe decision: whether this attempt should gather
/// information instead of trying to solve, by difficulty, attempt number,
/// confirmed positions and confirmed operators.
pub open spec fn spec_should_fail(idx: InfoIndex, difficulty: int, attempt: int) -> bool {
    let correct = corr_sum(idx, 15) as int;
    if difficulty == 7 {
        false
    } else if difficulty == 8 {
        attempt == 1
    } else if difficulty == 9 {
        attempt == 1 || (idx.lookup@[13].min > 0 && difficulty - correct <= 4 && attempt == 2)
    } else if difficulty == 10 {
        attempt == 1 || (attempt == 3 && only_modulo_confirmed(idx) && 1 < difficulty - correct
            && difficulty - correct <= 3)
    } else {
        attempt == 1 || (attempt == 2 && difficulty - correct <= 2) || (attempt == 3
            && only_modulo_confirmed(idx) && 1 < difficulty - correct && difficulty - correct <= 3)
    }
}

impl Guesser {
    /// Decides between probing and solving for this attempt.
    pub fn should_fail(&self) -> (r: bool)
        requires
            self.wf(),
        ensures
            r == spec_should_fail(self.index, self.difficulty as int, self.attempt as int),
    {
        let d = self.difficulty;
        let mut correct: usize = 0;
        let mut k: usize = 0;
        while k < 15
            invariant
                k <= 15,
                self.wf(),
                d == self.difficulty,
                correct as int == corr_sum(self.index, k as int),
                correct <= k * 15,
            decreases 15 - k,
        {
            let mut c: usize = 0;
            let mut p: usize = 0;
            while p < d
                invariant
                    p <= d,
                    k < 15,
                    self.wf(),
                    d == self.difficulty,
                    c as int == count_trues(self.index.lookup@[k as int].correct@, p as int),
                    c <= p,
                decreases d - p,
            {
                if self.index.lookup[k].correct[p] {
                    c = c + 1;
                }
                p = p + 1;
            }
            correct = correct + c;
            k = k + 1;
        }
        let modulo_min = self.index.lookup[13].min;
        let only_modulo = modulo_min > 0 && self.index.lookup[10].min == 0
            && self.index.lookup[11].min == 0 && self.index.lookup[12].min == 0;
        let attempt = self.attempt;
        if d == 7 {
            false
        } else if d == 8 {
            attempt == 1
        } else if d == 9 {
            attempt == 1 || (modulo_min > 0 && d <= correct + 4 && attempt == 2)
        } else if d == 10 {
            attempt == 1 || (attempt == 3 && only_modulo && correct + 1 < d && d <= correct + 3)
        } else {
            attempt == 1 || (attempt == 2 && d <= correct + 2) || (attempt == 3 && only_modulo
                && correct + 1 < d && d <= correct + 3)
        }
    }

    /// Collects the search inputs: the symbols still admissible, the
    /// confirmed symbol of each position, and how many operator positions
    /// are already confirmed.
    pub fn create_guess_variables(&self) -> (r: (Vec<usize>, Vec<Option<usize>>, usize))
        requires
            self.wf(),
        ensures
            forall|j: int|
                0 <= j < r.0@.len() ==> (#[trigger] r.0@[j]) < 14 && self.index.lookup@[r.0@[j] as int].max
                    > 0,
            forall|k: int|
                0 <= k < 14 && self.index.lookup@[k].max > 0 ==> r.0@.contains(k as usize),
            forall|j1: int, j2: int|
                #![trigger r.0@[j1], r.0@[j2]]
                0 <= j1 < j2 < r.0@.len() ==> r.0@[j1] < r.0@[j2],
            r.1@.len() == self.difficulty,
            forall|p: int|
                0 <= p < r.1@.len() && (#[trigger] r.1@[p]) is Some ==> (r.1@[p]->0 as int) < 14
                    && self.index.lookup@[r.1@[p]->0 as int].correct@[p]
                    && self.index.lookup@[r.1@[p]->0 as int].max > 0,
            forall|k: int, p: int|
                0 <= k < 14 && 0 <= p < self.difficulty && self.index.lookup@[k].max > 0 && (
                #[trigger] self.index.lookup@[k].correct@[p]) ==> (#[trigger] r.1@[p]) is Some,
            r.2 as int == op_corr_sum(self.index, 14),
    {
        let d = self.difficulty;
        let mut valid: Vec<usize> = Vec::new();
        let mut valid_positions: Vec<Option<usize>> = Vec::new();
        let mut valid_operators: usize = 0;
        let mut p0: usize = 0;
        while p0 < d
            invariant
                p0 <= d,
                valid_positions@.len() == p0,
                forall|p: int| 0 <= p < p0 ==> (#[trigger] valid_positions@[p]) is None,
            decreases d - p0,
        {
            valid_positions.push(None);
            p0 = p0 + 1;
        }
        let mut k: usize = 0;
        while k < 14
            invariant
                k <= 14,
                self.wf(),
                d == self.difficulty,
                valid_positions@.len() == d,
                valid_operators as int == op_corr_sum(self.index, k as int),
                valid_operators as int <= 15 * (if k < 10 { 0int } else { k - 10 }),
                forall|j: int|
                    0 <= j < valid@.len() ==> (#[trigger] valid@[j]) < 14
                        && self.index.lookup@[valid@[j] as int].max > 0,
                forall|j: int| 0 <= j < valid@.len() ==> (#[trigger] valid@[j]) < k,
                forall|j1: int, j2: int|
                    #![trigger valid@[j1], valid@[j2]]
                    0 <= j1 < j2 < valid@.len() ==> valid@[j1] < valid@[j2],
                forall|t: int|
                    0 <= t < k && self.index.lookup@[t].max > 0 ==> valid@.contains(t as usize),
                forall|p: int|
                    0 <= p < d && (#[trigger] valid_positions@[p]) is Some ==> (valid_positions@[p]->0
                        as int) < 14 && self.index.lookup@[valid_positions@[p]->0 as int].correct@[p]
                        && self.index.lookup@[valid_positions@[p]->0 as int].max > 0,
                forall|t: int, p: int|
                    0 <= t < k && 0 <= p < d && self.index.lookup@[t].max > 0 && (
                    #[trigger] self.index.lookup@[t].correct@[p]) ==> (
                    #[trigger] valid_positions@[p]) is Some,
            decreases 14 - k,
        {
            if self.index.lookup[k].max > 0 {
                let ghost valid0 = valid@;
                valid.push(k);
                proof {
                    assert forall|t: int|
                        0 <= t < k + 1 && self.index.lookup@[t].max > 0 implies valid@.contains(
                        t as usize,
                    ) by {
                        if t < k {
                            let w = choose|w: int| 0 <= w < valid0.len() && valid0[w] == t as usize;
                            assert(valid@[w] == t as usize);
                        } else {
                            assert(valid@[valid@.len() - 1] == t as usize);
                        }
                    }
                }
                let mut cc: usize = 0;
                let mut p: usize = 0;
                while p < d
                    invariant
                        p <= d,
                        k < 14,
                        self.wf(),
                        d == self.difficulty,
                        self.index.lookup@[k as int].max > 0,
                        valid_positions@.len() == d,
                        cc as int == count_trues(self.index.lookup@[k as int].correct@, p as int),
                        cc <= p,
                        forall|q: int|
                            0 <= q < d && (#[trigger] valid_positions@[q]) is Some ==> (
                            valid_positions@[q]->0 as int) < 14
                                && self.index.lookup@[valid_positions@[q]->0 as int].correct@[q]
                                && self.index.lookup@[valid_positions@[q]->0 as int].max > 0,
                        forall|t: int, q: int|
                            0 <= t < k && 0 <= q < d && self.index.lookup@[t].max > 0 && (
                            #[trigger] self.index.lookup@[t].correct@[q]) ==> (
                            #[trigger] valid_positions@[q]) is Some,
                        forall|q: int|
                            0 <= q < p && (#[trigger] self.index.lookup@[k as int].correct@[q])
                                ==> (#[trigger] valid_positions@[q]) is Some,
                    decreases d - p,
                {
                    proof {
                        assert(count_trues(self.index.lookup@[k as int].correct@, p + 1)
                            == count_trues(self.index.lookup@[k as int].correct@, p as int) + (
                        if self.index.lookup@[k as int].correct@[p as int] {
                            1nat
                        } else {
                            0nat
                        }));
                    }
                    if self.index.lookup[k].correct[p] {
                        valid_positions[p] = Some(k);
                        cc = cc + 1;
                    }
                    p = p + 1;
                }
                if k >= 10 {
                    valid_operators = valid_operators + cc;
                }
            }
            k = k + 1;
        }
        (valid, valid_positions, valid_operators)
    }
}

/// An operator symbol index.
pub open spec fn op_sym(k: int) -> bool {
    10 <= k <= 13
}

/// A digit symbol index.
pub open spec fn digit_sym(k: int) -> bool {
    0 <= k <= 9
}

/// Structural filter of the probe search: no operator or zero up front or
/// after an operator, no operator at the end, and no operators at all once
/// the budget or the confirmed placements forbid them.
pub open spec fn spec_fail_filter(
    difficulty: int,
    position: int,
    prev: Option<char>,
    ops_left: int,
    ops_valid: int,
    k: int,
) -> bool {
    ||| (position == 0 && (op_sym(k) || k == 0))
    ||| (position + 1 == difficulty && op_sym(k))
    ||| (position >= 1 && prev is Some && crate::alphabet::is_op_char(prev->0) && (op_sym(k) || k
        == 0))
    ||| (ops_left <= -2 && op_sym(k))
    ||| (ops_valid >= 2 && op_sym(k))
}

/// Structural filter of the solve search: the probe rules, plus operand
/// length capped at two digits and room kept for the operators still owed.
pub open spec fn spec_normal_filter(
    difficulty: int,
    position: int,
    prev: Option<char>,
    prev2: Option<char>,
    ops_left: int,
    ops_valid: int,
    chars_remain: int,
    k: int,
) -> bool {
    ||| (position == 0 && (op_sym(k) || k == 0))
    ||| (position + 1 == difficulty && op_sym(k))
    ||| (position >= 1 && prev is Some && crate::alphabet::is_op_char(prev->0) && (op_sym(k) || k
        == 0))
    ||| (position >= 2 && prev is Some && crate::alphabet::is_digit_char(prev->0) && prev2 is Some
        && crate::alphabet::is_digit_char(prev2->0) && digit_sym(k))
    ||| (chars_remain == 2 && prev is Some && crate::alphabet::is_digit_char(prev->0) && digit_sym(
        k,
    ))
    ||| (((chars_remain == 2 && ops_left == 1) || (chars_remain == 3 && ops_left == 2))
        && digit_sym(k))
    ||| ((ops_left == 0 || ops_valid >= 3) && op_sym(k))
}

impl Guesser {
    /// Computes the probe search's structural filter for one position.
    pub fn fail_filters(
        &self,
        position: usize,
        prev: Option<char>,
        ops_left: i64,
        ops_valid: usize,
    ) -> (r: Vec<bool>)
        requires
            self.wf(),
            position < self.difficulty,
        ensures
            r@.len() == 15,
            forall|k: int|
                0 <= k < 15 ==> #[trigger] r@[k] == spec_fail_filter(
                    self.difficulty as int,
                    position as int,
                    prev,
                    ops_left as int,
                    ops_valid as int,
                    k,
                ),
    {
        let d = self.difficulty;
        let prev_op: bool = match prev {
            Some(c) => c == '+' || c == '-' || c == '*' || c == '%',
            None => false,
        };
        let mut r: Vec<bool> = Vec::new();
        let mut k: usize = 0;
        while k < 15
            invariant
                k <= 15,
                r@.len() == k,
                d == self.difficulty,
                position < d,
                prev_op == (prev is Some && crate::alphabet::is_op_char(prev->0)),
                forall|t: int|
                    0 <= t < k ==> #[trigger] r@[t] == spec_fail_filter(
                        d as int,
                        position as int,
                        prev,
                        ops_left as int,
                        ops_valid as int,
                        t,
                    ),
            decreases 15 - k,
        {
            let op_k = k >= 10 && k <= 13;
            let v = (position == 0 && (op_k || k == 0)) || (position + 1 == d && op_k) || (position
                >= 1 && prev_op && (op_k || k == 0)) || (ops_left <= -2 && op_k) || (ops_valid >= 2
                && op_k);
            r.push(v);
            k = k + 1;
        }
        r
    }

    /// Computes the solve search's structural filter for one position.
    pub fn normal_filters(
        &self,
        position: usize,
        prev: Option<char>,
        prev2: Option<char>,
        ops_left: i64,
        ops_valid: usize,
        chars_remain: usize,
    ) -> (r: Vec<bool>)
        requires
            self.wf(),
            position < self.difficulty,
        ensures
            r@.len() == 15,
            forall|k: int|
                0 <= k < 15 ==> #[trigger] r@[k] == spec_normal_filter(
                    self.difficulty as int,
                    position as int,
                    prev,
                    prev2,
                    ops_left as int,
                    ops_valid as int,
                    chars_remain as int,
                    k,
                ),
    {
        let d = self.difficulty;
        let prev_op: bool = match prev {
            Some(c) => c == '+' || c == '-' || c == '*' || c == '%',
            None => false,
        };
        let prev_digit: bool = match prev {
            Some(c) => '0' <= c && c <= '9',
            None => false,
        };
        let prev2_digit: bool = match prev2 {
            Some(c) => '0' <= c && c <= '9',
            None => false,
        };
        let mut r: Vec<bool> = Vec::new();
        let mut k: usize = 0;
        while k < 15
            invariant
                k <= 15,
                r@.len() == k,
                d == self.difficulty,
                position < d,
                prev_op == (prev is Some && crate::alphabet::is_op_char(prev->0)),
                prev_digit == (prev is Some && crate::alphabet::is_digit_char(prev->0)),
                prev2_digit == (prev2 is Some && crate::alphabet::is_digit_char(prev2->0)),
                forall|t: int|
                    0 <= t < k ==> #[trigger] r@[t] == spec_normal_filter(
                        d as int,
                        position as int,
                        prev,
                        prev2,
                        ops_left as int,
                        ops_valid as int,
                        chars_remain as int,
                        t,
                    ),
            decreases 15 - k,
        {
            let op_k = k >= 10 && k <= 13;
            let digit_k = k <= 9;
            let v = (position == 0 && (op_k || k == 0)) || (position + 1 == d && op_k) || (position
                >= 1 && prev_op && (op_k || k == 0)) || (position >= 2 && prev_digit && prev2_digit
                && digit_k) || (chars_remain == 2 && prev_digit && digit_k) || (((chars_remain == 2
                && ops_left == 1) || (chars_remain == 3 && ops_left == 2)) && digit_k) || ((ops_left
                == 0 || ops_valid >= 3) && op_k);
            r.push(v);
            k = k + 1;
        }
        r
    }

    /// Undoes the newest search decision: the last position before the
    /// cursor that still has an alternative loses its current top choice, and
    /// every position right of it is cleared for a fresh candidate list.
    /// False means no alternative remains anywhere before the cursor: the
    /// whole search space is exhausted.
    pub fn revert(&self, position: usize, stack: &mut Vec<Vec<char>>) -> (ok: bool)
        requires
            position <= old(stack)@.len(),
        ensures
            final(stack)@.len() == old(stack)@.len(),
            forall|i: int|
                0 <= i < final(stack)@.len() ==> (#[trigger] final(stack)@[i])@.len() <= old(
                    stack,
                )@[i]@.len(),
            forall|i: int, j: int|
                0 <= i < final(stack)@.len() && 0 <= j < final(stack)@[i]@.len() ==> (
                #[trigger] final(stack)@[i]@[j]) == old(stack)@[i]@[j],
            ok == exists|j: int| 0 <= j < position && (#[trigger] old(stack)@[j])@.len() >= 2,
            forall|i: int|
                position <= i < old(stack)@.len() ==> #[trigger] final(stack)@[i]
                    == old(stack)@[i],
            !ok ==> forall|i: int| 0 <= i < position ==> (#[trigger] final(stack)@[i])@.len() == 0,
            ok ==> exists|j: int|
                0 <= j < position && (#[trigger] old(stack)@[j])@.len() >= 2
                    && final(stack)@[j]@ == old(stack)@[j]@.drop_last() && (forall|i: int|
                    0 <= i < j ==> #[trigger] final(stack)@[i] == old(stack)@[i]) && (forall|
                    i: int,
                |
                    j < i < position ==> (#[trigger] final(stack)@[i])@.len() == 0
                        && old(stack)@[i]@.len() <= 1),
    {
        let mut p: usize = position;
        while p >= 1
            invariant
                p <= position <= stack@.len(),
                stack@.len() == old(stack)@.len(),
                forall|i: int|
                    0 <= i < p || position <= i < stack@.len() ==> #[trigger] stack@[i]
                        == old(stack)@[i],
                forall|i: int| p <= i < position ==> (#[trigger] stack@[i])@.len() == 0,
                forall|i: int| p <= i < position ==> (#[trigger] old(stack)@[i])@.len() <= 1,
            decreases p,
        {
            let ghost before: Seq<char> = stack@[p - 1]@;
            proof {
                assert(before == old(stack)@[p - 1]@);
            }
            let _ = stack[p - 1].pop();
            if stack[p - 1].len() == 0 {
                proof {
                    assert(old(stack)@[p - 1]@.len() <= 1);
                    assert forall|i: int| p - 1 <= i < position implies (
                    #[trigger] stack@[i])@.len() == 0 by {
                        if i > p - 1 {
                            assert(stack@[i]@.len() == 0);
                        }
                    }
                    assert forall|i: int| p - 1 <= i < position implies (
                    #[trigger] old(stack)@[i])@.len() <= 1 by {}
                    assert forall|i: int| 0 <= i < p - 1 || position <= i < stack@.len() implies (
                    #[trigger] stack@[i]) == old(stack)@[i] by {}
                }
                p = p - 1;
            } else {
                proof {
                    assert(old(stack)@[p - 1]@.len() >= 2);
                    assert(stack@[p - 1]@ == old(stack)@[p - 1]@.drop_last());
                }
                return true;
            }
        }
        proof {
            assert forall|j: int| 0 <= j < position implies (#[trigger] old(stack)@[j])@.len()
                <= 1 by {
                assert(stack@[j]@.len() == 0);
            }
        }
        false
    }

    /// The probe search: fills every position with an admissible symbol,
    /// preferring symbols that confirm nothing already known.  The flag
    /// reports a clean run: one that never fell back past the position
    /// facts; a clean probe never places a symbol on one of its ruled-out
    /// positions.
    pub fn backtrack_fail(
        &self,
        valid: &Vec<usize>,
        valid_positions: &Vec<Option<usize>>,
        valid_operators: usize,
    ) -> (r: (Vec<char>, bool))
        requires
            self.wf(),
            forall|j: int| 0 <= j < valid@.len() ==> (#[trigger] valid@[j]) < 14,
            valid_positions@.len() == self.difficulty,
            forall|p: int|
                0 <= p < valid_positions@.len() && (#[trigger] valid_positions@[p]) is Some ==> (
                valid_positions@[p]->0) < 14,
        ensures
            r.0@.len() == self.difficulty,
            all_symbols(r.0@),
            r.1 ==> forall|i: int|
                0 <= i < r.0@.len() ==> !self.index.lookup@[spec_sym_of(
                    #[trigger] r.0@[i],
                )].incorrect@[i],
            r.1 ==> forall|i: int|
                0 <= i < r.0@.len() && (#[trigger] valid_positions@[i]) is Some ==> r.0@[i]
                    != spec_sym_char(valid_positions@[i]->0 as int),
            self.index.lookup@[13].min >= 1 ==> forall|i: int|
                0 <= i < r.0@.len() ==> crate::alphabet::is_digit_char(#[trigger] r.0@[i]) || (
                valid_positions@[i] is Some && r.0@[i] == spec_sym_char(
                    valid_positions@[i]->0 as int,
                )),
    {
        broadcast use group_to_multiset_ensures;

        let d = self.difficulty;
        let mut output: Vec<char> = Vec::new();
        let mut freq: Vec<usize> = Vec::new();
        let mut z: usize = 0;
        while z < 15
            invariant
                z <= 15,
                freq@.len() == z,
                forall|t: int| 0 <= t < z ==> #[trigger] freq@[t] == 0,
            decreases 15 - z,
        {
            freq.push(0);
            z = z + 1;
        }
        let mut ops_left: i64 = 2;
        let mut clean: bool = true;
        while output.len() < d
            invariant
                self.wf(),
                d == self.difficulty,
                forall|j: int| 0 <= j < valid@.len() ==> (#[trigger] valid@[j]) < 14,
                valid_positions@.len() == d,
                forall|p: int|
                    0 <= p < valid_positions@.len() && (#[trigger] valid_positions@[p]) is Some
                        ==> (valid_positions@[p]->0) < 14,
                output@.len() <= d,
                all_symbols(output@),
                freq@.len() == 15,
                forall|t: int| 0 <= t < 15 ==> #[trigger] freq@[t] <= output@.len(),
                2 - output@.len() <= ops_left <= 2,
                clean ==> forall|i: int|
                    0 <= i < output@.len() ==> !self.index.lookup@[spec_sym_of(
                        #[trigger] output@[i],
                    )].incorrect@[i],
                clean ==> forall|i: int|
                    0 <= i < output@.len() && (#[trigger] valid_positions@[i]) is Some
                        ==> output@[i] != spec_sym_char(valid_positions@[i]->0 as int),
                self.index.lookup@[13].min >= 1 ==> forall|i: int|
                    0 <= i < output@.len() ==> crate::alphabet::is_digit_char(
                        #[trigger] output@[i],
                    ) || (valid_positions@[i] is Some && output@[i] == spec_sym_char(
                        valid_positions@[i]->0 as int,
                    )),
            decreases d - output.len(),
        {
            let position = output.len();
            let prev: Option<char> = if position >= 1 {
                Some(output[position - 1])
            } else {
                None
            };
            let mut filter = self.fail_filters(position, prev, ops_left, valid_operators);
            match valid_positions[position] {
                Some(t) => {
                    filter[t] = true;
                },
                None => {},
            }
            if self.index.lookup[13].min >= 1 {
                filter[10] = true;
                filter[11] = true;
                filter[12] = true;
                filter[13] = true;
            }
            proof {
                assert(valid_positions@[position as int] is Some
                    ==> filter@[valid_positions@[position as int]->0 as int]);
                assert(self.index.lookup@[13].min >= 1 ==> filter@[10] && filter@[11]
                    && filter@[12] && filter@[13]);
            }
            let mut choices: Vec<char> = Vec::new();
            let mut vj: usize = 0;
            while vj < valid.len()
                invariant
                    vj <= valid@.len(),
                    self.wf(),
                    d == self.difficulty,
                    position < d,
                    filter@.len() == 15,
                    freq@.len() == 15,
                    forall|j: int| 0 <= j < valid@.len() ==> (#[trigger] valid@[j]) < 14,
                    valid_positions@.len() == d,
                    forall|q: int|
                        0 <= q < valid_positions@.len() && (#[trigger] valid_positions@[q])
                            is Some ==> (valid_positions@[q]->0) < 14,
                    valid_positions@[position as int] is Some
                        ==> filter@[valid_positions@[position as int]->0 as int],
                    self.index.lookup@[13].min >= 1 ==> filter@[10] && filter@[11] && filter@[12]
                        && filter@[13],
                    forall|j: int|
                        0 <= j < choices@.len() ==> is_symbol(#[trigger] choices@[j])
                            && !self.index.lookup@[spec_sym_of(
                            choices@[j],
                        )].incorrect@[position as int] && (valid_positions@[position as int]
                            is Some ==> choices@[j] != spec_sym_char(
                            valid_positions@[position as int]->0 as int,
                        )) && (self.index.lookup@[13].min >= 1
                            ==> crate::alphabet::is_digit_char(choices@[j])),
                decreases valid@.len() - vj,
            {
                let k = valid[vj];
                if !filter[k] && !self.index.lookup[k].incorrect[position] {
                    let mn = self.index.lookup[k].min;
                    let mx = self.index.lookup[k].max;
                    let cf = freq[k];
                    if !(mn == mx && mn <= cf) {
                        choices.push(sym_char(k));
                        proof {
                            lemma_sym_char_roundtrip(k as int);
                            if valid_positions@[position as int] is Some {
                                lemma_sym_char_roundtrip(
                                    valid_positions@[position as int]->0 as int,
                                );
                            }
                        }
                    }
                }
                vj = vj + 1;
            }
            if choices.len() == 0 {
                clean = false;
                match valid_positions[position] {
                    Some(t) => {
                        choices.push(sym_char(t));
                        proof {
                            lemma_sym_char_roundtrip(t as int);
                        }
                    },
                    None => {
                        choices.push('0');
                        choices.push('1');
                        choices.push('2');
                        choices.push('3');
                        choices.push('4');
                        choices.push('5');
                        choices.push('6');
                        choices.push('7');
                        choices.push('8');
                        choices.push('9');
                    },
                }
            }
            let ghost was_clean: bool = clean;
            proof {
                assert forall|j: int| 0 <= j < choices@.len() implies is_symbol(
                    #[trigger] choices@[j],
                ) by {}
                assert forall|j: int|
                    0 <= j < choices@.len() implies (self.index.lookup@[13].min >= 1
                    ==> crate::alphabet::is_digit_char(#[trigger] choices@[j]) || (
                valid_positions@[position as int] is Some && choices@[j] == spec_sym_char(
                    valid_positions@[position as int]->0 as int,
                ))) by {}
            }
            let mut subfreq: Vec<usize> = Vec::new();
            let mut k2: usize = 0;
            while k2 < 15
                invariant
                    k2 <= 15,
                    subfreq@.len() == k2,
                    self.wf(),
                    d == self.difficulty,
                    freq@.len() == 15,
                    forall|t: int| 0 <= t < 15 ==> #[trigger] freq@[t] <= 15,
                    forall|t: int| 0 <= t < k2 ==> #[trigger] subfreq@[t] <= 1000,
                decreases 15 - k2,
            {
                let mut cc: usize = 0;
                let mut p: usize = 0;
                while p < d
                    invariant
                        p <= d,
                        cc <= p,
                        k2 < 15,
                        self.wf(),
                        d == self.difficulty,
                    decreases d - p,
                {
                    if self.index.lookup[k2].correct[p] {
                        cc = cc + 1;
                    }
                    p = p + 1;
                }
                subfreq.push(freq[k2] + (d - cc));
                k2 = k2 + 1;
            }
            let ghost pre_sort: Seq<char> = choices@;
            self.choice_sort(&mut choices, position, &subfreq, true);
            let c = choices[0];
            let t = sym_of(c).unwrap();
            proof {
                lemma_sym_roundtrip(choices@[0]);
                pre_sort.to_multiset_ensures();
                choices@.to_multiset_ensures();
                assert(choices@.contains(c));
                assert(pre_sort.to_multiset().count(c) > 0);
                assert(pre_sort.contains(c));
                let w = choose|w: int| 0 <= w < pre_sort.len() && pre_sort[w] == c;
                assert(was_clean ==> (valid_positions@[position as int] is Some ==> c
                    != spec_sym_char(valid_positions@[position as int]->0 as int)));
                assert(was_clean ==> !self.index.lookup@[spec_sym_of(c)].incorrect@[position as int]);
                assert(self.index.lookup@[13].min >= 1 ==> crate::alphabet::is_digit_char(c) || (
                valid_positions@[position as int] is Some && c == spec_sym_char(
                    valid_positions@[position as int]->0 as int,
                )));
            }
            if t >= 10 && t <= 13 {
                ops_left = ops_left - 1;
            }
            let cf2 = freq[t];
            freq[t] = cf2 + 1;
            output.push(c);
        }
        (output, clean)
    }

    /// The solve search: a depth-first search over the expression positions
    /// with one list of remaining candidates per position.  A returned guess
    /// is a full equation of the right length, starting with a nonzero
    /// digit, whose expression evaluates to a positive value with exactly
    /// the deduced result digits, and which satisfies every restriction of
    /// the index.  `None` means the search ran out: the reachable candidate
    /// space was exhausted, or the iteration bound that stands in for a
    /// termination measure was spent.
    pub fn backtrack(
        &self,
        valid: &Vec<usize>,
        valid_positions: &Vec<Option<usize>>,
        valid_operators: usize,
        expression_length: usize,
        result_length: usize,
    ) -> (r: Option<Vec<char>>)
        requires
            self.wf(),
            expression_length + 1 + result_length == self.difficulty,
            forall|j: int| 0 <= j < valid@.len() ==> (#[trigger] valid@[j]) < 14,
            valid_positions@.len() == self.difficulty,
            forall|p: int|
                0 <= p < valid_positions@.len() && (#[trigger] valid_positions@[p]) is Some ==> (
                valid_positions@[p]->0) < 14,
        ensures
            r is Some ==> r->0@.len() == self.difficulty && all_symbols(r->0@) && spec_satisfies(
                r->0@,
                self.index,
            ) && r->0@[expression_length as int] == '=' && spec_eval(
                r->0@.subrange(0, expression_length as int),
            ) is Some && spec_eval(r->0@.subrange(0, expression_length as int))->0 >= 1
                && r->0@.subrange(expression_length as int + 1, r->0@.len() as int)
                == crate::digits::spec_digits(
                spec_eval(r->0@.subrange(0, expression_length as int))->0,
            ),
            r is Some ==> crate::alphabet::is_digit_char(r->0@[0]) && r->0@[0] != '0',
    {
        broadcast use group_to_multiset_ensures;

        let d = self.difficulty;
        let el = expression_length;
        let mut stack: Vec<Vec<char>> = Vec::new();
        while stack.len() < el
            invariant
                stack@.len() <= el,
                forall|i: int| 0 <= i < stack@.len() ==> (#[trigger] stack@[i])@.len() == 0,
            decreases el - stack.len(),
        {
            stack.push(Vec::new());
        }
        let mut budget: u64 = 5000000;
        while budget > 0
            invariant
                self.wf(),
                d == self.difficulty,
                el == expression_length,
                el + 1 + result_length == d,
                forall|j: int| 0 <= j < valid@.len() ==> (#[trigger] valid@[j]) < 14,
                valid_positions@.len() == d,
                forall|p: int|
                    0 <= p < valid_positions@.len() && (#[trigger] valid_positions@[p]) is Some
                        ==> (valid_positions@[p]->0) < 14,
                stack@.len() == el,
                forall|i: int, j: int|
                    0 <= i < stack@.len() && 0 <= j < stack@[i]@.len() ==> is_symbol(
                        #[trigger] stack@[i]@[j],
                    ) && stack@[i]@[j] != '=',
                el > 0 ==> forall|j: int|
                    0 <= j < stack@[0]@.len() ==> crate::alphabet::is_digit_char(
                        #[trigger] stack@[0]@[j],
                    ) && stack@[0]@[j] != '0',
            decreases budget,
        {
            budget = budget - 1;

            // The current partial expression: the top choice of each position.
            let mut output: Vec<char> = Vec::new();
            let mut freq0: Vec<usize> = Vec::new();
            let mut z: usize = 0;
            while z < 15
                invariant
                    z <= 15,
                    freq0@.len() == z,
                    forall|t: int| 0 <= t < z ==> #[trigger] freq0@[t] == 0,
                decreases 15 - z,
            {
                freq0.push(0);
                z = z + 1;
            }
            let mut ops_left: i64 = 2;
            let mut gi: usize = 0;
            while gi < el && stack[gi].len() > 0
                invariant
                    gi <= el,
                    stack@.len() == el,
                    el <= d,
                    d <= 15,
                    forall|i: int, j: int|
                        0 <= i < stack@.len() && 0 <= j < stack@[i]@.len() ==> is_symbol(
                            #[trigger] stack@[i]@[j],
                        ) && stack@[i]@[j] != '=',
                    output@.len() == gi,
                    all_symbols(output@),
                    forall|j: int| 0 <= j < output@.len() ==> #[trigger] output@[j] != '=',
                    el > 0 ==> forall|j: int|
                        0 <= j < stack@[0]@.len() ==> crate::alphabet::is_digit_char(
                            #[trigger] stack@[0]@[j],
                        ) && stack@[0]@[j] != '0',
                    output@.len() > 0 ==> crate::alphabet::is_digit_char(output@[0])
                        && output@[0] != '0',
                    freq0@.len() == 15,
                    forall|t: int| 0 <= t < 15 ==> #[trigger] freq0@[t] <= output@.len(),
                    2 - output@.len() <= ops_left <= 2,
                decreases el - gi,
            {
                let li = stack[gi].len();
                let item = stack[gi][li - 1];
                let t = sym_of(item).unwrap();
                proof {
                    lemma_sym_roundtrip(stack@[gi as int]@[li - 1]);
                }
                if t >= 10 && t <= 13 {
                    ops_left = ops_left - 1;
                }
                let cf = freq0[t];
                freq0[t] = cf + 1;
                output.push(item);
                gi = gi + 1;
            }
            let position = output.len();

            if position == el {
                // A full expression: evaluate, append the result, check.
                let ans = eval_chars(&output);
                if let Some(val) = ans {
                    if val >= 1 {
                        let digs = digits_of(val as u32);
                        if digs.len() == result_length {
                            let mut g: Vec<char> = Vec::new();
                            crate::secret::extend_chars(&mut g, &output);
                            g.push('=');
                            crate::secret::extend_chars(&mut g, &digs);
                            proof {
                                assert(g@.subrange(0, el as int) =~= output@);
                                assert(g@.subrange(el as int + 1, g@.len() as int) =~= digs@);
                                crate::digits::lemma_digits_are_digits(val as int);
                                assert forall|i: int| 0 <= i < g@.len() implies is_symbol(
                                    #[trigger] g@[i],
                                ) by {
                                    if i < el {
                                        assert(g@[i] == output@[i]);
                                    } else if i > el {
                                        assert(g@[i] == digs@[i - el - 1]);
                                    }
                                }
                            }
                            if satisfies_chars(&g, &self.index) {
                                proof {
                                    if el == 0 {
                                        assert(output@ =~= Seq::<char>::empty());
                                        assert(crate::eval::spec_scan(
                                            output@,
                                            0,
                                            true,
                                            Seq::<int>::empty(),
                                            Seq::<crate::eval::Op>::empty(),
                                        ) == Some(
                                            (Seq::<int>::empty(), Seq::<crate::eval::Op>::empty()),
                                        ));
                                        assert(false);
                                    }
                                    assert(g@[0] == output@[0]);
                                }
                                return Some(g);
                            }
                        }
                    }
                }
                if !self.revert(el, &mut stack) {
                    return None;
                }
                continue;
            }
            // Structural filter and candidate list for the cursor position.
            let prev: Option<char> = if position >= 1 {
                Some(output[position - 1])
            } else {
                None
            };
            let prev2: Option<char> = if position >= 2 {
                Some(output[position - 2])
            } else {
                None
            };
            let filter = self.normal_filters(
                position,
                prev,
                prev2,
                ops_left,
                valid_operators,
                el - position,
            );

            match valid_positions[position] {
                Some(t) => {
                    // The position is confirmed: either take the confirmed
                    // symbol or give up on this branch.
                    let mn = self.index.lookup[t].min;
                    let mx = self.index.lookup[t].max;
                    let cf = freq0[t];
                    let too_much = mn == mx && mn <= cf;
                    if filter[t] || too_much {
                        if !self.revert(position, &mut stack) {
                            return None;
                        }
                    } else {
                        stack[position].push(sym_char(t));
                        proof {
                            lemma_sym_char_roundtrip(t as int);
                            if position == 0 {
                                assert(!spec_normal_filter(
                                    d as int,
                                    0,
                                    prev,
                                    prev2,
                                    ops_left as int,
                                    valid_operators as int,
                                    el - position,
                                    t as int,
                                ));
                                assert(!op_sym(t as int) && t != 0);
                            }
                        }
                    }
                    continue;
                },
                None => {},
            }

            let mut choices: Vec<char> = Vec::new();
            let mut vj: usize = 0;
            while vj < valid.len()
                invariant
                    vj <= valid@.len(),
                    self.wf(),
                    d == self.difficulty,
                    position < d,
                    filter@.len() == 15,
                    freq0@.len() == 15,
                    forall|j: int| 0 <= j < valid@.len() ==> (#[trigger] valid@[j]) < 14,
                    filter@.len() == 15,
                    forall|q: int|
                        0 <= q < 15 ==> #[trigger] filter@[q] == spec_normal_filter(
                            d as int,
                            position as int,
                            prev,
                            prev2,
                            ops_left as int,
                            valid_operators as int,
                            el - position,
                            q,
                        ),
                    forall|j: int|
                        0 <= j < choices@.len() ==> is_symbol(#[trigger] choices@[j])
                            && choices@[j] != '=' && (position == 0
                            ==> crate::alphabet::is_digit_char(choices@[j]) && choices@[j] != '0'),
                decreases valid@.len() - vj,
            {
                let k = valid[vj];
                if !filter[k] && !self.index.lookup[k].incorrect[position] {
                    let mn = self.index.lookup[k].min;
                    let mx = self.index.lookup[k].max;
                    let cf = freq0[k];
                    if !(mn == mx && mn <= cf) {
                        choices.push(sym_char(k));
                        proof {
                            lemma_sym_char_roundtrip(k as int);
                            if position == 0 {
                                assert(!op_sym(k as int) && k != 0);
                            }
                        }
                    }
                }
                vj = vj + 1;
            }
            if choices.len() == 0 {
                if !self.revert(position, &mut stack) {
                    return None;
                }
                continue;
            }
            let ghost pre_sort: Seq<char> = choices@;
            self.choice_sort(&mut choices, position, &freq0, false);
            proof {
                pre_sort.to_multiset_ensures();
                choices@.to_multiset_ensures();
                assert forall|j: int| 0 <= j < choices@.len() implies is_symbol(
                    #[trigger] choices@[j],
                ) && choices@[j] != '=' && (position == 0 ==> crate::alphabet::is_digit_char(
                    choices@[j],
                ) && choices@[j] != '0') by {
                    assert(choices@.contains(choices@[j]));
                    assert(pre_sort.to_multiset().count(choices@[j]) > 0);
                    assert(pre_sort.contains(choices@[j]));
                }
            }
            // The best candidate must end on top of the stack, so the sorted
            // list goes in reversed.
            let mut rev: Vec<char> = Vec::new();
            let cl = choices.len();
            let mut ri: usize = 0;
            while ri < cl
                invariant
                    ri <= cl,
                    cl == choices@.len(),
                    rev@.len() == ri,
                    forall|j: int|
                        0 <= j < choices@.len() ==> is_symbol(#[trigger] choices@[j])
                            && choices@[j] != '=' && (position == 0
                            ==> crate::alphabet::is_digit_char(choices@[j]) && choices@[j] != '0'),
                    forall|j: int|
                        0 <= j < rev@.len() ==> is_symbol(#[trigger] rev@[j]) && rev@[j] != '='
                            && (position == 0 ==> crate::alphabet::is_digit_char(rev@[j])
                            && rev@[j] != '0'),
                decreases cl - ri,
            {
                rev.push(choices[cl - 1 - ri]);
                ri = ri + 1;
            }
            stack[position] = rev;
        }
        None
    }

    /// Produces the next guess: the opening template on the first attempt,
    /// afterwards either a probe or a solve over the deduced expression
    /// shape.  `None` reports an exhausted solve search, the fatal outcome a
    /// caller must not retry blindly.
    pub fn create_guess(&mut self) -> (r: Option<String>)
        requires
            old(self).wf(),
        ensures
            final(self).wf(),
            final(self).difficulty == old(self).difficulty,
            r is Some ==> r->0@.len() == old(self).difficulty && all_symbols(r->0@),
            r is None ==> old(self).attempt >= 1 && final(self).attempt == old(self).attempt
                && !spec_should_fail(
                final(self).index,
                final(self).difficulty as int,
                final(self).attempt as int,
            ),
    {
        if self.attempt == 0 {
            let g = self.initial_guess();
            return Some(string_of_chars(&g));
        }
        let result_length = self.deduce_equality();
        let expression_length = self.difficulty - result_length - 1;
        let fail = self.should_fail();
        let vars = self.create_guess_variables();
        let valid = vars.0;
        let valid_positions = vars.1;
        let valid_operators = vars.2;
        if fail {
            let pr = self.backtrack_fail(&valid, &valid_positions, valid_operators);
            Some(string_of_chars(&pr.0))
        } else {
            match self.backtrack(
                &valid,
                &valid_positions,
                valid_operators,
                expression_length,
                result_length,
            ) {
                Some(g) => Some(string_of_chars(&g)),
                None => None,
            }
        }
    }
}

/// One whole round: builds a guesser over the history and asks it for the
/// best next guess.
pub fn create_better_guess(
    info: &Vec<Vec<ColorInfo>>,
    difficulty: usize,
    oracle: FreqOracle,
) -> (r: Option<String>)
    requires
        7 <= difficulty <= 15,
        wf_rows(rows_view(info@), difficulty as nat),
        oracle.wf(difficulty as nat),
    ensures
        r is Some ==> r->0@.len() == difficulty && all_symbols(r->0@),
        r is None ==> info@.len() >= 1,
{
    let mut guesser = Guesser::new(difficulty, info, oracle);
    guesser.create_guess()
}

} // verus!

//! Decimal digit strings of nonnegative values.

use vstd::prelude::*;
use crate::alphabet::{is_digit_char, spec_sym_char, sym_char};

verus! {

/// The decimal digits of `n`, most significant first.
pub open spec fn spec_digits(n: int) -> Seq<char>
    decreases n,
{
    if n < 10 {
        seq![spec_sym_char(n)]
    } else {
        spec_digits(n / 10).push(spec_sym_char(n % 10))
    }
}

/// Digit strings hold digit characters only.
pub proof fn lemma_digits_are_digits(n: int)
    requires
        n >= 0,
    ensures
        spec_digits(n).len() >= 1,
        forall|i: int| 0 <= i < spec_digits(n).len() ==> is_digit_char(#[trigger] spec_digits(n)[i]),
    decreases n,
{
    if n >= 10 {
        lemma_digits_are_digits(n / 10);
    }
}

/// A value below one hundred has at most two digits.
pub proof fn lemma_two_digits(n: int)
    requires
        0 <= n < 100,
    ensures
        spec_digits(n).len() <= 2,
{
    if n >= 10 {
        assert(n / 10 < 10);
        assert(spec_digits(n / 10).len() == 1);
    }
}

/// Writes `n` in decimal.
pub fn digits_of(n: u32) -> (r: Vec<char>)
    ensures
        r@ == spec_digits(n as int),
        r@.len() >= 1,
    decreases n,
{
    if n < 10 {
        let mut v: Vec<char> = Vec::new();
        v.push(sym_char(n as usize));
        proof {
            assert(v@ =~= spec_digits(n as int));
        }
        v
    } else {
        let mut v = digits_of(n / 10);
        v.push(sym_char((n % 10) as usize));
        proof {
            assert(v@ =~= spec_digits(n as int));
        }
        v
    }
}

} // verus!

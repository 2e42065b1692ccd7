//! The fixed 15-symbol alphabet of the game: ten digits, four operators and
//! the equality sign, with a canonical index for each symbol.

use vstd::prelude::*;

verus! {

/// True for the ten digit characters.
pub open spec fn is_digit_char(c: char) -> bool {
    '0' <= c && c <= '9'
}

/// True for the four operator characters.
pub open spec fn is_op_char(c: char) -> bool {
    c == '+' || c == '-' || c == '*' || c == '%'
}

/// True for every character of the alphabet.
pub open spec fn is_symbol(c: char) -> bool {
    is_digit_char(c) || is_op_char(c) || c == '='
}

/// Numeric value of a digit character.
pub open spec fn char_digit(c: char) -> int {
    c as int - '0' as int
}

/// Canonical index of a symbol: digits at 0..=9, then '+', '-', '*', '%', '='.
pub open spec fn spec_sym_of(c: char) -> int {
    if is_digit_char(c) {
        char_digit(c)
    } else if c == '+' {
        10
    } else if c == '-' {
        11
    } else if c == '*' {
        12
    } else if c == '%' {
        13
    } else if c == '=' {
        14
    } else {
        15
    }
}

/// The symbol at a canonical index.
pub open spec fn spec_sym_char(k: int) -> char {
    if k == 0 {
        '0'
    } else if k == 1 {
        '1'
    } else if k == 2 {
        '2'
    } else if k == 3 {
        '3'
    } else if k == 4 {
        '4'
    } else if k == 5 {
        '5'
    } else if k == 6 {
        '6'
    } else if k == 7 {
        '7'
    } else if k == 8 {
        '8'
    } else if k == 9 {
        '9'
    } else if k == 10 {
        '+'
    } else if k == 11 {
        '-'
    } else if k == 12 {
        '*'
    } else if k == 13 {
        '%'
    } else {
        '='
    }
}

/// Round trip between a symbol and its index.
pub proof fn lemma_sym_roundtrip(c: char)
    requires
        is_symbol(c),
    ensures
        0 <= spec_sym_of(c) < 15,
        spec_sym_char(spec_sym_of(c)) == c,
{
}

/// Round trip between an index and its symbol.
pub proof fn lemma_sym_char_roundtrip(k: int)
    requires
        0 <= k < 15,
    ensures
        is_symbol(spec_sym_char(k)),
        spec_sym_of(spec_sym_char(k)) == k,
{
}

/// Index of a character of the alphabet; `None` for any other character.
pub fn sym_of(c: char) -> (r: Option<usize>)
    ensures
        is_symbol(c) ==> r == Some(spec_sym_of(c) as usize),
        !is_symbol(c) ==> r is None,
{
    if '0' <= c && c <= '9' {
        Some((c as usize) - ('0' as usize))
    } else if c == '+' {
        Some(10)
    } else if c == '-' {
        Some(11)
    } else if c == '*' {
        Some(12)
    } else if c == '%' {
        Some(13)
    } else if c == '=' {
        Some(14)
    } else {
        None
    }
}

/// The character of the alphabet at a canonical index.
pub fn sym_char(k: usize) -> (c: char)
    requires
        k < 15,
    ensures
        c == spec_sym_char(k as int),
{
    if k == 0 {
        '0'
    } else if k == 1 {
        '1'
    } else if k == 2 {
        '2'
    } else if k == 3 {
        '3'
    } else if k == 4 {
        '4'
    } else if k == 5 {
        '5'
    } else if k == 6 {
        '6'
    } else if k == 7 {
        '7'
    } else if k == 8 {
        '8'
    } else if k == 9 {
        '9'
    } else if k == 10 {
        '+'
    } else if k == 11 {
        '-'
    } else if k == 12 {
        '*'
    } else if k == 13 {
        '%'
    } else {
        '='
    }
}

/// Number of occurrences of `c` in `s`.
pub open spec fn count_char(s: Seq<char>, c: char) -> nat
    decreases s.len(),
{
    if s.len() == 0 {
        0
    } else {
        count_char(s.drop_last(), c) + if s.last() == c {
            1nat
        } else {
            0nat
        }
    }
}

/// All characters of `s` belong to the alphabet.
pub open spec fn all_symbols(s: Seq<char>) -> bool {
    forall|i: int| 0 <= i < s.len() ==> is_symbol(#[trigger] s[i])
}

/// Counts every alphabet symbol in a vector of characters.
pub fn sym_freqs(v: &Vec<char>) -> (r: Vec<usize>)
    requires
        all_symbols(v@),
    ensures
        r@.len() == 15,
        forall|k: int| 0 <= k < 15 ==> #[trigger] r@[k] == count_char(v@, spec_sym_char(k)),
{
    let ghost s: Seq<char> = v@;
    let mut r: Vec<usize> = Vec::new();
    let mut k: usize = 0;
    while k < 15
        invariant
            k <= 15,
            r@.len() == k,
            forall|t: int|
                0 <= t < k ==> #[trigger] r@[t] == count_char(s.take(0), spec_sym_char(t)),
        decreases 15 - k,
    {
        r.push(0);
        k = k + 1;
    }
    let n: usize = v.len();
    let mut j: usize = 0;
    while j < n
        invariant
            j <= n,
            n == s.len(),
            v@ == s,
            r@.len() == 15,
            all_symbols(s),
            forall|t: int|
                0 <= t < 15 ==> #[trigger] r@[t] == count_char(s.take(j as int), spec_sym_char(t)),
        decreases n - j,
    {
        let c = v[j];
        let t = sym_of(c).unwrap();
        proof {
            lemma_sym_roundtrip(s[j as int]);
            lemma_count_le_len(s.take(j as int), s[j as int]);
            assert(s.take(j + 1).drop_last() =~= s.take(j as int));
            assert(s.take(j + 1).last() == s[j as int]);
        }
        let cur = r[t];
        r[t] = cur + 1;
        j = j + 1;
    }
    proof {
        assert(s.take(n as int) =~= s);
    }
    r
}

/// Occurrences never outnumber the positions.
pub proof fn lemma_count_le_len(s: Seq<char>, c: char)
    ensures
        count_char(s, c) <= s.len(),
    decreases s.len(),
{
    if s.len() > 0 {
        lemma_count_le_len(s.drop_last(), c);
    }
}

/// Copies the characters of a string into a vector.
pub fn chars_vec(s: &str) -> (r: Vec<char>)
    ensures
        r@ == s@,
{
    let n: usize = s.unicode_len();
    let mut r: Vec<char> = Vec::new();
    let mut i: usize = 0;
    while i < n
        invariant
            i <= n,
            n == s@.len(),
            r@ == s@.take(i as int),
        decreases n - i,
    {
        r.push(s.get_char(i));
        proof {
            assert(r@ =~= s@.take(i + 1 as int));
        }
        i = i + 1;
    }
    proof {
        assert(r@ =~= s@);
    }
    r
}

/// Relies on String::push: appends one character to the string.
#[verifier::external_body]
fn push_char(s: &mut String, c: char)
    ensures
        final(s)@ == old(s)@.push(c),
{
    s.push(c);
}

/// Builds a string from a vector of characters.
pub fn string_of_chars(v: &Vec<char>) -> (r: String)
    ensures
        r@ == v@,
{
    let mut s = String::new();
    let n: usize = v.len();
    let mut i: usize = 0;
    while i < n
        invariant
            i <= n,
            n == v@.len(),
            s@ == v@.take(i as int),
        decreases n - i,
    {
        push_char(&mut s, v[i]);
        proof {
            assert(s@ =~= v@.take(i + 1 as int));
        }
        i = i + 1;
    }
    proof {
        assert(s@ =~= v@);
    }
    s
}

} // verus!

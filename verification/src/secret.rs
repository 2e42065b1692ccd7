//! Generation of a secret equation of a given difficulty: random operands
//! and operators first, a fixed equation as a deterministic fallback.

use vstd::prelude::*;
use crate::alphabet::{all_symbols, is_symbol, string_of_chars, sym_char};
use crate::digits::{digits_of, lemma_digits_are_digits, spec_digits};
use crate::eval::{eval_chars, lemma_tokens_shape_111, lemma_tokens_shape_211,
    lemma_tokens_shape_221, lemma_tokens_shape_222, spec_eval};
use crate::rng::rand_below;

verus! {

/// A well-formed secret: an expression, the equality sign, then exactly the
/// decimal digits of the expression's positive value.
pub open spec fn is_secret(s: Seq<char>, difficulty: nat) -> bool {
    &&& s.len() == difficulty
    &&& exists|e: int|
        0 <= e < s.len() && #[trigger] s[e] == '=' && spec_eval(s.subrange(0, e)) is Some
            && spec_eval(s.subrange(0, e))->0 >= 1 && s.subrange(e + 1, s.len() as int)
            == spec_digits(spec_eval(s.subrange(0, e))->0)
}

/// Appends all characters of `src` to `dst`.
pub fn extend_chars(dst: &mut Vec<char>, src: &Vec<char>)
    ensures
        final(dst)@ == old(dst)@ + src@,
{
    let n: usize = src.len();
    let mut i: usize = 0;
    while i < n
        invariant
            i <= n,
            n == src@.len(),
            dst@ == old(dst)@ + src@.take(i as int),
        decreases n - i,
    {
        dst.push(src[i]);
        proof {
            assert(dst@ =~= old(dst)@ + src@.take(i + 1 as int));
        }
        i = i + 1;
    }
    proof {
        assert(dst@ =~= old(dst)@ + src@);
    }
}

/// Turns an expression into a full secret when its value is positive and the
/// total length lands on the difficulty.
fn try_secret(expr: &Vec<char>, difficulty: usize) -> (r: Option<String>)
    requires
        7 <= difficulty <= 15,
        all_symbols(expr@),
        expr@.len() <= 16,
    ensures
        r is Some ==> r->0@.len() == difficulty && is_secret(r->0@, difficulty as nat)
            && all_symbols(r->0@),
{
    let v = eval_chars(expr);
    match v {
        Some(val) => {
            if val >= 1 {
                let digs = digits_of(val as u32);
                if digs.len() <= 15 && expr.len() + 1 + digs.len() == difficulty {
                    let mut g: Vec<char> = Vec::new();
                    extend_chars(&mut g, expr);
                    g.push('=');
                    extend_chars(&mut g, &digs);
                    proof {
                        let e: int = expr@.len() as int;
                        assert(g@[e] == '=');
                        assert(g@.subrange(0, e) =~= expr@);
                        assert(g@.subrange(e + 1, g@.len() as int) =~= digs@);
                        lemma_digits_are_digits(val as int);
                        assert forall|i: int| 0 <= i < g@.len() implies is_symbol(
                            #[trigger] g@[i],
                        ) by {
                            if i < e {
                                assert(g@[i] == expr@[i]);
                            } else if i > e {
                                assert(g@[i] == digs@[i - e - 1]);
                            }
                        }
                        assert(is_secret(g@, difficulty as nat));
                    }
                    return Some(string_of_chars(&g));
                }
                None
            } else {
                None
            }
        },
        None => None,
    }
}

/// A random candidate expression: three operands below one hundred joined by
/// two random operators.
fn random_expression() -> (r: Vec<char>)
    ensures
        all_symbols(r@),
        r@.len() <= 16,
{
    let n1 = rand_below(100) as u32;
    let n2 = rand_below(100) as u32;
    let n3 = rand_below(100) as u32;
    let o1: usize = 10 + rand_below(4) as usize;
    let o2: usize = 10 + rand_below(4) as usize;
    let d1 = digits_of(n1);
    let d2 = digits_of(n2);
    let d3 = digits_of(n3);
    proof {
        lemma_digits_are_digits(n1 as int);
        lemma_digits_are_digits(n2 as int);
        lemma_digits_are_digits(n3 as int);
        crate::digits::lemma_two_digits(n1 as int);
        crate::digits::lemma_two_digits(n2 as int);
        crate::digits::lemma_two_digits(n3 as int);
    }
    let mut r: Vec<char> = Vec::new();
    extend_chars(&mut r, &d1);
    r.push(sym_char(o1));
    extend_chars(&mut r, &d2);
    r.push(sym_char(o2));
    extend_chars(&mut r, &d3);
    proof {
        crate::alphabet::lemma_sym_char_roundtrip(o1 as int);
        crate::alphabet::lemma_sym_char_roundtrip(o2 as int);
        assert forall|i: int| 0 <= i < r@.len() implies is_symbol(#[trigger] r@[i]) by {}
    }
    r
}

/// Assembles an expression of known positive value into a full secret.
fn assemble_secret(expr: Vec<char>, val: u32, difficulty: usize) -> (r: Vec<char>)
    requires
        7 <= difficulty <= 15,
        all_symbols(expr@),
        val >= 1,
        spec_eval(expr@) == Some(val as int),
        expr@.len() + 1 + spec_digits(val as int).len() == difficulty,
    ensures
        r@.len() == difficulty,
        is_secret(r@, difficulty as nat),
        all_symbols(r@),
{
    let digs = digits_of(val);
    let mut g = expr;
    let ghost eview: Seq<char> = g@;
    g.push('=');
    extend_chars(&mut g, &digs);
    proof {
        let e: int = eview.len() as int;
        assert(g@[e] == '=');
        assert(g@.subrange(0, e) =~= eview);
        assert(g@.subrange(e + 1, g@.len() as int) =~= digs@);
        lemma_digits_are_digits(val as int);
        assert forall|i: int| 0 <= i < g@.len() implies is_symbol(#[trigger] g@[i]) by {
            if i < e {
                assert(g@[i] == eview[i]);
            } else if i > e {
                assert(g@[i] == digs@[i - e - 1]);
            }
        }
        assert(is_secret(g@, difficulty as nat));
    }
    g
}

/// The fixed fallback secret of each difficulty, proved valid once and for
/// all: it backs the generator's unconditional success.
fn fallback_secret(difficulty: usize) -> (r: Vec<char>)
    requires
        7 <= difficulty <= 15,
    ensures
        r@.len() == difficulty,
        is_secret(r@, difficulty as nat),
        all_symbols(r@),
{
    let mut x: Vec<char> = Vec::new();
    if difficulty == 7 {
        // 1+1+1=3
        x.push('1');
        x.push('+');
        x.push('1');
        x.push('+');
        x.push('1');
        proof {
            assert(x@ =~= seq!['1', '+', '1', '+', '1']);
            lemma_tokens_shape_111('1', '+', '1', '+', '1');
            assert(spec_eval(x@) == Some(3int));
            assert(spec_digits(3).len() == 1);
        }
        assemble_secret(x, 3, difficulty)
    } else if difficulty == 8 {
        // 4+5+9=18
        x.push('4');
        x.push('+');
        x.push('5');
        x.push('+');
        x.push('9');
        proof {
            assert(x@ =~= seq!['4', '+', '5', '+', '9']);
            lemma_tokens_shape_111('4', '+', '5', '+', '9');
            assert(spec_eval(x@) == Some(18int));
            assert(spec_digits(1).len() == 1);
            assert(spec_digits(18).len() == 2);
        }
        assemble_secret(x, 18, difficulty)
    } else if difficulty == 9 {
        // 44+5+9=58
        x.push('4');
        x.push('4');
        x.push('+');
        x.push('5');
        x.push('+');
        x.push('9');
        proof {
            assert(x@ =~= seq!['4', '4', '+', '5', '+', '9']);
            lemma_tokens_shape_211('4', '4', '+', '5', '+', '9');
            assert(spec_eval(x@) == Some(58int));
            assert(spec_digits(5).len() == 1);
            assert(spec_digits(58).len() == 2);
        }
        assemble_secret(x, 58, difficulty)
    } else if difficulty == 10 {
        // 44+44+9=97
        x.push('4');
        x.push('4');
        x.push('+');
        x.push('4');
        x.push('4');
        x.push('+');
        x.push('9');
        proof {
            assert(x@ =~= seq!['4', '4', '+', '4', '4', '+', '9']);
            lemma_tokens_shape_221('4', '4', '+', '4', '4', '+', '9');
            assert(spec_eval(x@) == Some(97int));
            assert(spec_digits(9).len() == 1);
            assert(spec_digits(97).len() == 2);
        }
        assemble_secret(x, 97, difficulty)
    } else if difficulty == 11 {
        // 44+44+11=99
        x.push('4');
        x.push('4');
        x.push('+');
        x.push('4');
        x.push('4');
        x.push('+');
        x.push('1');
        x.push('1');
        proof {
            assert(x@ =~= seq!['4', '4', '+', '4', '4', '+', '1', '1']);
            lemma_tokens_shape_222('4', '4', '+', '4', '4', '+', '1', '1');
            assert(spec_eval(x@) == Some(99int));
            assert(spec_digits(9).len() == 1);
            assert(spec_digits(99).len() == 2);
        }
        assemble_secret(x, 99, difficulty)
    } else if difficulty == 12 {
        // 44+44+44=132
        x.push('4');
        x.push('4');
        x.push('+');
        x.push('4');
        x.push('4');
        x.push('+');
        x.push('4');
        x.push('4');
        proof {
            assert(x@ =~= seq!['4', '4', '+', '4', '4', '+', '4', '4']);
            lemma_tokens_shape_222('4', '4', '+', '4', '4', '+', '4', '4');
            assert(spec_eval(x@) == Some(132int));
            assert(spec_digits(1).len() == 1);
            assert(spec_digits(13).len() == 2);
            assert(spec_digits(132).len() == 3);
        }
        assemble_secret(x, 132, difficulty)
    } else if difficulty == 13 {
        // 99*99+99=9900
        x.push('9');
        x.push('9');
        x.push('*');
        x.push('9');
        x.push('9');
        x.push('+');
        x.push('9');
        x.push('9');
        proof {
            assert(x@ =~= seq!['9', '9', '*', '9', '9', '+', '9', '9']);
            lemma_tokens_shape_222('9', '9', '*', '9', '9', '+', '9', '9');
            assert(spec_eval(x@) == Some(9900int));
            assert(spec_digits(9).len() == 1);
            assert(spec_digits(99).len() == 2);
            assert(spec_digits(990).len() == 3);
            assert(spec_digits(9900).len() == 4);
        }
        assemble_secret(x, 9900, difficulty)
    } else if difficulty == 14 {
        // 99*99*10=98010
        x.push('9');
        x.push('9');
        x.push('*');
        x.push('9');
        x.push('9');
        x.push('*');
        x.push('1');
        x.push('0');
        proof {
            assert(x@ =~= seq!['9', '9', '*', '9', '9', '*', '1', '0']);
            lemma_tokens_shape_222('9', '9', '*', '9', '9', '*', '1', '0');
            assert(spec_eval(x@) == Some(98010int));
            assert(spec_digits(9).len() == 1);
            assert(spec_digits(98).len() == 2);
            assert(spec_digits(980).len() == 3);
            assert(spec_digits(9801).len() == 4);
            assert(spec_digits(98010).len() == 5);
        }
        assemble_secret(x, 98010, difficulty)
    } else {
        // 99*99*99=970299
        x.push('9');
        x.push('9');
        x.push('*');
        x.push('9');
        x.push('9');
        x.push('*');
        x.push('9');
        x.push('9');
        proof {
            assert(x@ =~= seq!['9', '9', '*', '9', '9', '*', '9', '9']);
            lemma_tokens_shape_222('9', '9', '*', '9', '9', '*', '9', '9');
            assert(spec_eval(x@) == Some(970299int));
            assert(spec_digits(9).len() == 1);
            assert(spec_digits(97).len() == 2);
            assert(spec_digits(970).len() == 3);
            assert(spec_digits(9702).len() == 4);
            assert(spec_digits(97029).len() == 5);
            assert(spec_digits(970299).len() == 6);
        }
        assemble_secret(x, 970299, difficulty)
    }
}

/// Draws random equations until one lands on the wanted difficulty with a
/// positive result; after a bounded number of draws, falls back to a fixed
/// equation of that difficulty, so a valid secret always comes back.
pub fn create_secret(difficulty: usize) -> (r: String)
    requires
        7 <= difficulty <= 15,
    ensures
        r@.len() == difficulty,
        is_secret(r@, difficulty as nat),
        all_symbols(r@),
{
    let mut attempts: u32 = 0;
    while attempts < 5000
        invariant
            7 <= difficulty <= 15,
        decreases 5000 - attempts,
    {
        let expr = random_expression();
        let candidate = try_secret(&expr, difficulty);
        if let Some(s) = candidate {
            return s;
        }
        attempts = attempts + 1;
    }
    let g = fallback_secret(difficulty);
    string_of_chars(&g)
}

} // verus!

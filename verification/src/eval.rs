//! Evaluation of candidate equation expressions: three 1-2 digit operands
//! joined by two operators, with `*` and `%` binding tighter than `+` and `-`.

use vstd::prelude::*;
use crate::alphabet::{char_digit, chars_vec, is_digit_char, is_op_char};

verus! {

/// One of the four binary operators of the game.
#[derive(Clone, Copy, PartialEq, Eq, Structural, Debug)]
pub enum Op {
    Add,
    Sub,
    Mul,
    Mod,
}

/// Precedence: multiplication and modulo bind tighter than addition and
/// subtraction.
pub open spec fn prec(op: Op) -> int {
    match op {
        Op::Add => 0,
        Op::Sub => 0,
        Op::Mul => 1,
        Op::Mod => 1,
    }
}

/// The operator written as a character.
pub open spec fn op_of_char(c: char) -> Op {
    if c == '+' {
        Op::Add
    } else if c == '-' {
        Op::Sub
    } else if c == '*' {
        Op::Mul
    } else {
        Op::Mod
    }
}

/// Remainder with truncation toward zero, as the machine computes it for a
/// positive divisor.
pub open spec fn trunc_mod(a: int, b: int) -> int {
    if a >= 0 {
        a % b
    } else {
        -((-a) % b)
    }
}

/// Applies one operator to two operand values; modulo by zero has no value.
pub open spec fn spec_apply(l: int, r: int, op: Op) -> Option<int> {
    match op {
        Op::Add => Some(l + r),
        Op::Sub => Some(l - r),
        Op::Mul => Some(l * r),
        Op::Mod => if r == 0 {
            None
        } else {
            Some(trunc_mod(l, r))
        },
    }
}

/// Applies one operator where either side may already have failed.
pub open spec fn spec_run(l: Option<int>, r: Option<int>, op: Op) -> Option<int> {
    if l is None || r is None {
        None
    } else {
        spec_apply(l->0, r->0, op)
    }
}

/// Scanner over the expression: collects operand values and operators,
/// alternating between them, or fails on any other shape.
pub open spec fn spec_scan(
    s: Seq<char>,
    i: int,
    was_op: bool,
    nums: Seq<int>,
    ops: Seq<Op>,
) -> Option<(Seq<int>, Seq<Op>)>
    decreases s.len() - i,
{
    if i >= s.len() {
        Some((nums, ops))
    } else {
        let c = s[i];
        if is_digit_char(c) {
            if !was_op || nums.len() >= 3 {
                None
            } else if i + 1 < s.len() && is_digit_char(s[i + 1]) {
                spec_scan(s, i + 2, false, nums.push(char_digit(c) * 10 + char_digit(s[i + 1])), ops)
            } else {
                spec_scan(s, i + 1, false, nums.push(char_digit(c)), ops)
            }
        } else if is_op_char(c) {
            if was_op || ops.len() >= 2 {
                None
            } else {
                spec_scan(s, i + 1, true, nums, ops.push(op_of_char(c)))
            }
        } else {
            None
        }
    }
}

/// Tokens of the whole expression.
pub open spec fn spec_tokens(s: Seq<char>) -> Option<(Seq<int>, Seq<Op>)> {
    spec_scan(s, 0, true, Seq::empty(), Seq::empty())
}

/// Value of an expression: exactly three operands and two operators are
/// required; the higher-precedence second operator is applied first,
/// otherwise evaluation runs left to right.
pub open spec fn spec_eval(s: Seq<char>) -> Option<int> {
    match spec_tokens(s) {
        Some((nums, ops)) => {
            if nums.len() == 3 && ops.len() == 2 {
                if prec(ops[1]) > prec(ops[0]) {
                    spec_run(Some(nums[0]), spec_apply(nums[1], nums[2], ops[1]), ops[0])
                } else {
                    spec_run(spec_apply(nums[0], nums[1], ops[0]), Some(nums[2]), ops[1])
                }
            } else {
                None
            }
        },
        None => None,
    }
}

/// An expression only has a value when it consists of exactly three
/// operands joined by exactly two operators; any other token pattern has
/// none.
pub proof fn lemma_eval_needs_exact_shape(s: Seq<char>)
    ensures
        spec_eval(s) is Some ==> spec_tokens(s) is Some && (spec_tokens(s)->0).0.len() == 3
            && (spec_tokens(s)->0).1.len() == 2,
{
}

/// Tokens of a five-character expression of three one-digit operands.
pub proof fn lemma_tokens_shape_111(d0: char, o0: char, d1: char, o1: char, d2: char)
    requires
        is_digit_char(d0),
        is_digit_char(d1),
        is_digit_char(d2),
        is_op_char(o0),
        is_op_char(o1),
    ensures
        spec_tokens(seq![d0, o0, d1, o1, d2]) == Some(
            (
                seq![char_digit(d0), char_digit(d1), char_digit(d2)],
                seq![op_of_char(o0), op_of_char(o1)],
            ),
        ),
{
    let e = seq![d0, o0, d1, o1, d2];
    let n0 = Seq::<int>::empty();
    let q0 = Seq::<Op>::empty();
    let n1 = n0.push(char_digit(d0));
    let q1 = q0.push(op_of_char(o0));
    let n2 = n1.push(char_digit(d1));
    let q2 = q1.push(op_of_char(o1));
    let n3 = n2.push(char_digit(d2));
    assert(spec_scan(e, 0, true, n0, q0) == spec_scan(e, 1, false, n1, q0));
    assert(spec_scan(e, 1, false, n1, q0) == spec_scan(e, 2, true, n1, q1));
    assert(spec_scan(e, 2, true, n1, q1) == spec_scan(e, 3, false, n2, q1));
    assert(spec_scan(e, 3, false, n2, q1) == spec_scan(e, 4, true, n2, q2));
    assert(spec_scan(e, 4, true, n2, q2) == spec_scan(e, 5, false, n3, q2));
    assert(spec_scan(e, 5, false, n3, q2) == Some((n3, q2)));
    assert(n3 =~= seq![char_digit(d0), char_digit(d1), char_digit(d2)]);
    assert(q2 =~= seq![op_of_char(o0), op_of_char(o1)]);
}

/// Tokens of a six-character expression whose first operand has two digits.
pub proof fn lemma_tokens_shape_211(
    d0: char,
    d1: char,
    o0: char,
    d2: char,
    o1: char,
    d3: char,
)
    requires
        is_digit_char(d0),
        is_digit_char(d1),
        is_digit_char(d2),
        is_digit_char(d3),
        is_op_char(o0),
        is_op_char(o1),
    ensures
        spec_tokens(seq![d0, d1, o0, d2, o1, d3]) == Some(
            (
                seq![char_digit(d0) * 10 + char_digit(d1), char_digit(d2), char_digit(d3)],
                seq![op_of_char(o0), op_of_char(o1)],
            ),
        ),
{
    let e = seq![d0, d1, o0, d2, o1, d3];
    let n0 = Seq::<int>::empty();
    let q0 = Seq::<Op>::empty();
    let n1 = n0.push(char_digit(d0) * 10 + char_digit(d1));
    let q1 = q0.push(op_of_char(o0));
    let n2 = n1.push(char_digit(d2));
    let q2 = q1.push(op_of_char(o1));
    let n3 = n2.push(char_digit(d3));
    assert(spec_scan(e, 0, true, n0, q0) == spec_scan(e, 2, false, n1, q0));
    assert(spec_scan(e, 2, false, n1, q0) == spec_scan(e, 3, true, n1, q1));
    assert(spec_scan(e, 3, true, n1, q1) == spec_scan(e, 4, false, n2, q1));
    assert(spec_scan(e, 4, false, n2, q1) == spec_scan(e, 5, true, n2, q2));
    assert(spec_scan(e, 5, true, n2, q2) == spec_scan(e, 6, false, n3, q2));
    assert(spec_scan(e, 6, false, n3, q2) == Some((n3, q2)));
    assert(n3 =~= seq![
        char_digit(d0) * 10 + char_digit(d1),
        char_digit(d2),
        char_digit(d3),
    ]);
    assert(q2 =~= seq![op_of_char(o0), op_of_char(o1)]);
}

/// Tokens of a seven-character expression whose first two operands have two
/// digits.
pub proof fn lemma_tokens_shape_221(
    d0: char,
    d1: char,
    o0: char,
    d2: char,
    d3: char,
    o1: char,
    d4: char,
)
    requires
        is_digit_char(d0),
        is_digit_char(d1),
        is_digit_char(d2),
        is_digit_char(d3),
        is_digit_char(d4),
        is_op_char(o0),
        is_op_char(o1),
    ensures
        spec_tokens(seq![d0, d1, o0, d2, d3, o1, d4]) == Some(
            (
                seq![
                    char_digit(d0) * 10 + char_digit(d1),
                    char_digit(d2) * 10 + char_digit(d3),
                    char_digit(d4),
                ],
                seq![op_of_char(o0), op_of_char(o1)],
            ),
        ),
{
    let e = seq![d0, d1, o0, d2, d3, o1, d4];
    let n0 = Seq::<int>::empty();
    let q0 = Seq::<Op>::empty();
    let n1 = n0.push(char_digit(d0) * 10 + char_digit(d1));
    let q1 = q0.push(op_of_char(o0));
    let n2 = n1.push(char_digit(d2) * 10 + char_digit(d3));
    let q2 = q1.push(op_of_char(o1));
    let n3 = n2.push(char_digit(d4));
    assert(spec_scan(e, 0, true, n0, q0) == spec_scan(e, 2, false, n1, q0));
    assert(spec_scan(e, 2, false, n1, q0) == spec_scan(e, 3, true, n1, q1));
    assert(spec_scan(e, 3, true, n1, q1) == spec_scan(e, 5, false, n2, q1));
    assert(spec_scan(e, 5, false, n2, q1) == spec_scan(e, 6, true, n2, q2));
    assert(spec_scan(e, 6, true, n2, q2) == spec_scan(e, 7, false, n3, q2));
    assert(spec_scan(e, 7, false, n3, q2) == Some((n3, q2)));
    assert(n3 =~= seq![
        char_digit(d0) * 10 + char_digit(d1),
        char_digit(d2) * 10 + char_digit(d3),
        char_digit(d4),
    ]);
    assert(q2 =~= seq![op_of_char(o0), op_of_char(o1)]);
}

/// Tokens of an eight-character expression of three two-digit operands.
pub proof fn lemma_tokens_shape_222(
    d0: char,
    d1: char,
    o0: char,
    d2: char,
    d3: char,
    o1: char,
    d4: char,
    d5: char,
)
    requires
        is_digit_char(d0),
        is_digit_char(d1),
        is_digit_char(d2),
        is_digit_char(d3),
        is_digit_char(d4),
        is_digit_char(d5),
        is_op_char(o0),
        is_op_char(o1),
    ensures
        spec_tokens(seq![d0, d1, o0, d2, d3, o1, d4, d5]) == Some(
            (
                seq![
                    char_digit(d0) * 10 + char_digit(d1),
                    char_digit(d2) * 10 + char_digit(d3),
                    char_digit(d4) * 10 + char_digit(d5),
                ],
                seq![op_of_char(o0), op_of_char(o1)],
            ),
        ),
{
    let e = seq![d0, d1, o0, d2, d3, o1, d4, d5];
    let n0 = Seq::<int>::empty();
    let q0 = Seq::<Op>::empty();
    let n1 = n0.push(char_digit(d0) * 10 + char_digit(d1));
    let q1 = q0.push(op_of_char(o0));
    let n2 = n1.push(char_digit(d2) * 10 + char_digit(d3));
    let q2 = q1.push(op_of_char(o1));
    let n3 = n2.push(char_digit(d4) * 10 + char_digit(d5));
    assert(spec_scan(e, 0, true, n0, q0) == spec_scan(e, 2, false, n1, q0));
    assert(spec_scan(e, 2, false, n1, q0) == spec_scan(e, 3, true, n1, q1));
    assert(spec_scan(e, 3, true, n1, q1) == spec_scan(e, 5, false, n2, q1));
    assert(spec_scan(e, 5, false, n2, q1) == spec_scan(e, 6, true, n2, q2));
    assert(spec_scan(e, 6, true, n2, q2) == spec_scan(e, 8, false, n3, q2));
    assert(spec_scan(e, 8, false, n3, q2) == Some((n3, q2)));
    assert(n3 =~= seq![
        char_digit(d0) * 10 + char_digit(d1),
        char_digit(d2) * 10 + char_digit(d3),
        char_digit(d4) * 10 + char_digit(d5),
    ]);
    assert(q2 =~= seq![op_of_char(o0), op_of_char(o1)]);
}

/// The integer value held by an optional machine integer.
pub open spec fn opt_int(o: Option<i32>) -> Option<int> {
    match o {
        Some(v) => Some(v as int),
        None => None,
    }
}

/// Applies one operator step of the evaluation.
fn run(left: Option<i32>, right: Option<i32>, op: Op) -> (r: Option<i32>)
    requires
        left is Some ==> -9801 <= left->0 <= 9801,
        right is Some ==> -9801 <= right->0 <= 9801,
        op is Mod && right is Some ==> right->0 >= 0,
    ensures
        opt_int(r) == spec_run(opt_int(left), opt_int(right), op),
        r is Some ==> -96059601 <= r->0 <= 96059601,
        (r is Some && left->0 >= -99 && left->0 <= 99 && right->0 >= -99 && right->0 <= 99)
            ==> -9801 <= r->0 <= 9801,
{
    if left.is_none() || right.is_none() {
        return None;
    }
    let l = left.unwrap();
    let r = right.unwrap();
    match op {
        Op::Add => Some(l + r),
        Op::Sub => Some(l - r),
        Op::Mul => {
            proof {
                assert(-96059601 <= l * r <= 96059601) by (nonlinear_arith)
                    requires
                        -9801 <= l <= 9801,
                        -9801 <= r <= 9801,
                ;
                assert((-99 <= l <= 99 && -99 <= r <= 99) ==> -9801 <= l * r <= 9801)
                    by (nonlinear_arith);
            }
            Some(l * r)
        },
        Op::Mod => {
            if r == 0 {
                None
            } else {
                if l >= 0 {
                    Some(l % r)
                } else {
                    Some(-((-l) % r))
                }
            }
        },
    }
}

/// Sequence of mathematical values of a vector of machine integers.
pub open spec fn int_seq(s: Seq<i32>) -> Seq<int> {
    s.map_values(|x: i32| x as int)
}

/// Evaluates a candidate expression over a vector of characters.  The result
/// is the value of the expression, or `None` where the expression does not
/// have the shape `operand op operand op operand` or divides modulo zero.
pub fn eval_chars(chars: &Vec<char>) -> (r: Option<i32>)
    ensures
        opt_int(r) == spec_eval(chars@),
{
    let ghost s: Seq<char> = chars@;
    let n: usize = chars.len();
    let mut nums: Vec<i32> = Vec::new();
    let mut ops: Vec<Op> = Vec::new();
    let mut was_op: bool = true;
    let mut i: usize = 0;

    proof {
        assert(int_seq(nums@) =~= Seq::<int>::empty());
        assert(ops@ =~= Seq::<Op>::empty());
    }

    while i < n
        invariant
            i <= n,
            n == s.len(),
            chars@ == s,
            nums@.len() <= 3,
            ops@.len() <= 2,
            forall|k: int| 0 <= k < nums@.len() ==> 0 <= #[trigger] nums@[k] <= 99,
            spec_tokens(s) == spec_scan(s, i as int, was_op, int_seq(nums@), ops@),
        decreases n - i,
    {
        let ghost i0: int = i as int;
        let ghost nums0: Seq<int> = int_seq(nums@);
        let ghost ops0: Seq<Op> = ops@;
        let c = chars[i];
        if '0' <= c && c <= '9' {
            if !was_op {
                return None;
            }
            if nums.len() >= 3 {
                return None;
            }
            was_op = false;
            if i + 1 < n {
                let c1 = chars[i + 1];
                if '0' <= c1 && c1 <= '9' {
                    let d0: u32 = c as u32 - '0' as u32;
                    let d1: u32 = c1 as u32 - '0' as u32;
                    let v: i32 = (d0 * 10 + d1) as i32;
                    nums.push(v);
                    i = i + 2;
                    proof {
                        let pushed = nums0.push(char_digit(s[i0]) * 10 + char_digit(s[i0 + 1]));
                        assert(int_seq(nums@) =~= pushed);
                        assert(spec_scan(s, i0, true, nums0, ops0) == spec_scan(
                            s,
                            i0 + 2,
                            false,
                            pushed,
                            ops0,
                        ));
                    }
                    continue;
                }
            }
            let v: i32 = (c as u32 - '0' as u32) as i32;
            nums.push(v);
            i = i + 1;
            proof {
                let pushed = nums0.push(char_digit(s[i0]));
                assert(int_seq(nums@) =~= pushed);
                assert(spec_scan(s, i0, true, nums0, ops0) == spec_scan(
                    s,
                    i0 + 1,
                    false,
                    pushed,
                    ops0,
                ));
            }
        } else if c == '+' || c == '-' || c == '*' || c == '%' {
            if was_op {
                return None;
            }
            if ops.len() >= 2 {
                return None;
            }
            was_op = true;
            let op = if c == '+' {
                Op::Add
            } else if c == '-' {
                Op::Sub
            } else if c == '*' {
                Op::Mul
            } else {
                Op::Mod
            };
            ops.push(op);
            i = i + 1;
            proof {
                let pushed = ops0.push(op_of_char(s[i0]));
                assert(ops@ =~= pushed);
                assert(spec_scan(s, i0, false, nums0, ops0) == spec_scan(
                    s,
                    i0 + 1,
                    true,
                    nums0,
                    pushed,
                ));
            }
        } else {
            return None;
        }
    }

    if nums.len() != 3 || ops.len() != 2 {
        return None;
    }

    if prec_exec(ops[1]) > prec_exec(ops[0]) {
        run(Some(nums[0]), run(Some(nums[1]), Some(nums[2]), ops[1]), ops[0])
    } else {
        run(run(Some(nums[0]), Some(nums[1]), ops[0]), Some(nums[2]), ops[1])
    }
}

/// Precedence of an operator.
fn prec_exec(op: Op) -> (r: u32)
    ensures
        r as int == prec(op),
{
    match op {
        Op::Add => 0,
        Op::Sub => 0,
        Op::Mul => 1,
        Op::Mod => 1,
    }
}

/// Evaluates a candidate equation expression given as a string.
pub fn fast_eval(expression: &str) -> (r: Option<i32>)
    ensures
        opt_int(r) == spec_eval(expression@),
{
    let chars = chars_vec(expression);
    eval_chars(&chars)
}

} // verus!

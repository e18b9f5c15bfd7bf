//! The expression evaluator: a single left-to-right scan that collects
//! operands and operators, evaluates nested groups recursively, and folds
//! the collected stacks into one value.
//!
//! The meaning of an expression is fixed by the spec function `eval_expr`.
//! Its result is an `Option`: `Some(Ok(v))` for a value, `Some(Err(e))` for
//! one of the five rejections, and `None` for the one malformed shape the
//! fold cannot handle — more operands than operators can join, as in a group
//! placed directly after a number. `try_evaluate_expression` is total and
//! returns exactly that; `evaluate_expression` asks the caller to stay away
//! from the `None` shapes and returns the plain `Result`.

use vstd::prelude::*;

use crate::ops::Operator;
use crate::ops::ParseError;
use crate::ops::apply_op;
use crate::ops::apply_operator;
use crate::ops::char_operator;
use crate::ops::is_operator_char;
use crate::ops::parse_operator;

verus! {

/// Decimal digits.
pub open spec fn is_digit_char(c: char) -> bool {
    '0' as u32 <= c as u32 && c as u32 <= '9' as u32
}

/// The numeric value of a digit character.
pub open spec fn digit_value(c: char) -> int
    recommends
        is_digit_char(c),
{
    c as u32 - '0' as u32
}

/// The characters the notation is written in: digits, the four operator
/// letters, and the two group delimiters.
pub open spec fn valid_char(c: char) -> bool {
    is_digit_char(c) || is_operator_char(c) || c == 'e' || c == 'f'
}

/// The first position at or after `i` that does not hold a digit.
pub open spec fn digit_run_end(s: Seq<char>, i: int) -> int
    recommends
        0 <= i <= s.len(),
    decreases s.len() - i,
{
    if i < 0 || i >= s.len() {
        i
    } else if is_digit_char(s[i]) {
        digit_run_end(s, i + 1)
    } else {
        i
    }
}

/// The value a digit run accumulates left to right, starting from `acc`:
/// each digit multiplies the accumulator by ten and adds itself, both with
/// wraparound.
pub open spec fn digits_value(s: Seq<char>, i: int, j: int, acc: i32) -> i32
    recommends
        0 <= i <= j <= s.len(),
    decreases j - i,
{
    if i >= j {
        acc
    } else {
        digits_value(
            s,
            i + 1,
            j,
            vstd::wrapping::i32_specs::wrapping_add(
                vstd::wrapping::i32_specs::wrapping_mul(acc, 10),
                digit_value(s[i]) as i32,
            ),
        )
    }
}

/// The position of the `f` that closes a group, scanning from `i` with
/// `depth` groups currently open: an `e` deepens, an `f` at depth one is the
/// match, any other character is passed over. `None` when the input ends
/// with the group still open.
pub open spec fn find_group_end(s: Seq<char>, i: int, depth: int) -> Option<int>
    recommends
        0 <= i <= s.len(),
        depth >= 1,
    decreases s.len() - i,
{
    if i < 0 || i >= s.len() {
        None
    } else if s[i] == 'f' && depth == 1 {
        Some(i)
    } else if s[i] == 'f' {
        find_group_end(s, i + 1, depth - 1)
    } else if s[i] == 'e' {
        find_group_end(s, i + 1, depth + 1)
    } else {
        find_group_end(s, i + 1, depth)
    }
}

pub proof fn lemma_digit_run_end_bounds(s: Seq<char>, i: int)
    requires
        0 <= i <= s.len(),
    ensures
        i <= digit_run_end(s, i) <= s.len(),
    decreases s.len() - i,
{
    if i < s.len() && is_digit_char(s[i]) {
        lemma_digit_run_end_bounds(s, i + 1);
    }
}

pub proof fn lemma_find_group_end_bounds(s: Seq<char>, i: int, depth: int)
    requires
        0 <= i <= s.len(),
    ensures
        find_group_end(s, i, depth) matches Some(j) ==> i <= j < s.len() && s[j] == 'f',
    decreases s.len() - i,
{
    if i < s.len() && !(s[i] == 'f' && depth == 1) {
        if s[i] == 'f' {
            lemma_find_group_end_bounds(s, i + 1, depth - 1);
        } else if s[i] == 'e' {
            lemma_find_group_end_bounds(s, i + 1, depth + 1);
        } else {
            lemma_find_group_end_bounds(s, i + 1, depth);
        }
    }
}

/// Prepends what one scan step produced to everything the rest of the scan
/// produces. An error or an undefined rest swallows the prefix: the first
/// failure of the scan is the whole scan's failure.
pub open spec fn scan_with_prefix(
    nums: Seq<i32>,
    ops: Seq<Operator>,
    tail: Option<Result<(Seq<i32>, Seq<Operator>), ParseError>>,
) -> Option<Result<(Seq<i32>, Seq<Operator>), ParseError>> {
    match tail {
        None => None,
        Some(Err(e)) => Some(Err(e)),
        Some(Ok(p)) => Some(Ok((nums + p.0, ops + p.1))),
    }
}

/// The operand and operator stacks the left-to-right scan of `s` collects
/// from position `i` on, or the first failure it meets: a digit run becomes
/// one operand; an operator letter becomes one operator; an `e` opens a
/// group whose content — every character up to but not including the
/// matching `f` — is evaluated recursively, the value standing in as one
/// operand; an `f` with no open group is `UnmatchedClosingParenthesis`; any
/// other character is `InvalidCharacter`.
pub open spec fn scan(s: Seq<char>, i: int) -> Option<
    Result<(Seq<i32>, Seq<Operator>), ParseError>,
>
    decreases s.len(), 1int, s.len() - i,
        when 0 <= i <= s.len()
        via scan_decreases
{
    if i >= s.len() {
        Some(Ok((Seq::empty(), Seq::empty())))
    } else if is_digit_char(s[i]) {
        let j = digit_run_end(s, i);
        scan_with_prefix(seq![digits_value(s, i, j, 0)], Seq::empty(), scan(s, j))
    } else if is_operator_char(s[i]) {
        scan_with_prefix(Seq::empty(), seq![char_operator(s[i])], scan(s, i + 1))
    } else if s[i] == 'e' {
        match find_group_end(s, i + 1, 1) {
            None => Some(Err(ParseError::UnmatchedOpeningParenthesis)),
            Some(j) => match eval_expr(s.subrange(i + 1, j)) {
                None => None,
                Some(Err(e)) => Some(Err(e)),
                Some(Ok(v)) => scan_with_prefix(seq![v], Seq::empty(), scan(s, j + 1)),
            },
        }
    } else if s[i] == 'f' {
        Some(Err(ParseError::UnmatchedClosingParenthesis))
    } else {
        Some(Err(ParseError::InvalidCharacter))
    }
}

#[via_fn]
proof fn scan_decreases(s: Seq<char>, i: int) {
    if 0 <= i && i < s.len() {
        if is_digit_char(s[i]) {
            lemma_digit_run_end_bounds(s, i + 1);
        }
        if s[i] == 'e' {
            lemma_find_group_end_bounds(s, i + 1, 1);
        }
    }
}

/// The left-to-right fold from position `k`, the running result being
/// `acc`: operator `k - 1` joins the running result with operand `k`, with
/// no precedence. `None` when an operand has no operator to join it.
pub open spec fn fold_from(nums: Seq<i32>, ops: Seq<Operator>, acc: i32, k: int) -> Option<
    Result<i32, ParseError>,
>
    recommends
        1 <= k <= nums.len(),
    decreases nums.len() - k,
{
    if k >= nums.len() {
        Some(Ok(acc))
    } else if k - 1 >= ops.len() {
        None
    } else {
        match apply_op(ops[k - 1], acc, nums[k]) {
            Err(e) => Some(Err(e)),
            Ok(v) => fold_from(nums, ops, v, k + 1),
        }
    }
}

/// The meaning of an expression: scan it into the two stacks, reject an
/// empty operand stack as `EmptyExpression`, and otherwise fold left to
/// right starting from the first operand. `None` stands for the shapes the
/// fold leaves undefined (an operand with no operator to join it).
pub open spec fn eval_expr(s: Seq<char>) -> Option<Result<i32, ParseError>>
    decreases s.len(), 2int, 0int,
{
    match scan(s, 0) {
        None => None,
        Some(Err(e)) => Some(Err(e)),
        Some(Ok(p)) => {
            if p.0.len() == 0 {
                Some(Err(ParseError::EmptyExpression))
            } else {
                fold_from(p.0, p.1, p.0[0], 1)
            }
        },
    }
}

proof fn lemma_prefix_empty(tail: Option<Result<(Seq<i32>, Seq<Operator>), ParseError>>)
    ensures
        scan_with_prefix(Seq::empty(), Seq::empty(), tail) == tail,
{
    match tail {
        Some(Ok(p)) => {
            assert(Seq::<i32>::empty() + p.0 =~= p.0);
            assert(Seq::<Operator>::empty() + p.1 =~= p.1);
        },
        _ => {},
    }
}

proof fn lemma_prefix_assoc(
    n1: Seq<i32>,
    o1: Seq<Operator>,
    n2: Seq<i32>,
    o2: Seq<Operator>,
    tail: Option<Result<(Seq<i32>, Seq<Operator>), ParseError>>,
)
    ensures
        scan_with_prefix(n1, o1, scan_with_prefix(n2, o2, tail)) == scan_with_prefix(
            n1 + n2,
            o1 + o2,
            tail,
        ),
{
    match tail {
        Some(Ok(p)) => {
            assert(n1 + (n2 + p.0) =~= (n1 + n2) + p.0);
            assert(o1 + (o2 + p.1) =~= (o1 + o2) + p.1);
        },
        _ => {},
    }
}

/// Appending one more digit on the right multiplies the accumulated value
/// by ten and adds the digit, with wraparound.
proof fn lemma_digits_value_step(s: Seq<char>, i: int, j: int, acc: i32)
    requires
        0 <= i <= j < s.len(),
    ensures
        digits_value(s, i, j + 1, acc) == vstd::wrapping::i32_specs::wrapping_add(
            vstd::wrapping::i32_specs::wrapping_mul(digits_value(s, i, j, acc), 10),
            digit_value(s[j]) as i32,
        ),
    decreases j - i,
{
    if i < j {
        lemma_digits_value_step(
            s,
            i + 1,
            j,
            vstd::wrapping::i32_specs::wrapping_add(
                vstd::wrapping::i32_specs::wrapping_mul(acc, 10),
                digit_value(s[i]) as i32,
            ),
        );
    } else {
        let w = vstd::wrapping::i32_specs::wrapping_add(
            vstd::wrapping::i32_specs::wrapping_mul(acc, 10),
            digit_value(s[j]) as i32,
        );
        assert(digits_value(s, j, j, acc) == acc);
        assert(digits_value(s, j + 1, j + 1, w) == w);
        assert(digits_value(s, j, j + 1, acc) == digits_value(s, j + 1, j + 1, w));
    }
}

/// Decimal digits of the notation.
fn is_digit(c: char) -> (r: bool)
    ensures
        r == is_digit_char(c),
{
    '0' as u32 <= c as u32 && c as u32 <= '9' as u32
}

/// The numeric value of one digit character.
fn digit_of(c: char) -> (d: i32)
    requires
        is_digit_char(c),
    ensures
        d as int == digit_value(c),
{
    (c as u32 - '0' as u32) as i32
}

/// The evaluator proper, on the expression's characters. Returns exactly
/// what `eval_expr` states, including `None` for the shapes whose fold is
/// undefined.
fn eval_chars(s: &Vec<char>) -> (r: Option<Result<i32, ParseError>>)
    ensures
        r == eval_expr(s@),
    decreases s@.len(),
{
    let mut num_stack: Vec<i32> = Vec::new();
    let mut op_stack: Vec<Operator> = Vec::new();
    let mut i: usize = 0;

    proof {
        lemma_prefix_empty(scan(s@, 0));
    }

    while i < s.len()
        invariant
            i <= s@.len(),
            scan(s@, 0) == scan_with_prefix(num_stack@, op_stack@, scan(s@, i as int)),
        decreases s@.len() - i,
    {
        let ghost nums0 = num_stack@;
        let ghost ops0 = op_stack@;
        let ghost i0 = i as int;
        let c = s[i];
        if is_digit(c) {
            let mut num: i32 = 0;
            let mut j: usize = i;
            while j < s.len() && is_digit(s[j])
                invariant
                    0 <= i0 <= j <= s@.len(),
                    digit_run_end(s@, i0) == digit_run_end(s@, j as int),
                    num == digits_value(s@, i0, j as int, 0),
                decreases s@.len() - j,
            {
                let d = digit_of(s[j]);
                proof {
                    lemma_digits_value_step(s@, i0, j as int, 0);
                }
                num = num.wrapping_mul(10).wrapping_add(d);
                j = j + 1;
            }
            proof {
                assert(digit_run_end(s@, j as int) == j as int);
                assert(scan(s@, i0) == scan_with_prefix(
                    seq![num],
                    Seq::empty(),
                    scan(s@, j as int),
                ));
                lemma_prefix_assoc(nums0, ops0, seq![num], Seq::empty(), scan(s@, j as int));
                assert(nums0 + seq![num] =~= nums0.push(num));
                assert(ops0 + Seq::<Operator>::empty() =~= ops0);
            }
            num_stack.push(num);
            i = j;
        } else if c == 'a' || c == 'b' || c == 'c' || c == 'd' {
            let op = match parse_operator(c) {
                Ok(op) => op,
                Err(_) => {
                    proof {
                        assert(false);
                    }
                    Operator::Add
                },
            };
            proof {
                assert(scan(s@, i0) == scan_with_prefix(
                    Seq::empty(),
                    seq![op],
                    scan(s@, i0 + 1),
                ));
                lemma_prefix_assoc(nums0, ops0, Seq::empty(), seq![op], scan(s@, i0 + 1));
                assert(ops0 + seq![op] =~= ops0.push(op));
                assert(nums0 + Seq::<i32>::empty() =~= nums0);
            }
            op_stack.push(op);
            i = i + 1;
        } else if c == 'e' {
            let start = i + 1;
            let mut sub: Vec<char> = Vec::new();
            let mut depth: usize = 1;
            let mut k: usize = start;
            proof {
                assert(sub@ =~= s@.subrange(start as int, k as int));
            }
            while k < s.len() && !(s[k] == 'f' && depth == 1)
                invariant
                    0 <= i0,
                    i0 + 1 == start as int,
                    start <= k <= s@.len(),
                    1 <= depth,
                    depth <= k - i0,
                    sub@ == s@.subrange(start as int, k as int),
                    find_group_end(s@, start as int, 1) == find_group_end(
                        s@,
                        k as int,
                        depth as int,
                    ),
                decreases s@.len() - k,
            {
                let ch = s[k];
                if ch == 'f' {
                    depth = depth - 1;
                } else if ch == 'e' {
                    depth = depth + 1;
                }
                sub.push(ch);
                k = k + 1;
                proof {
                    assert(sub@ =~= s@.subrange(start as int, k as int));
                }
            }
            if k < s.len() {
                // The matching close was found at `k` and is consumed, not copied.
                proof {
                    assert(find_group_end(s@, start as int, 1) == Some(k as int));
                }
                let r = eval_chars(&sub);
                match r {
                    None => {
                        proof {
                            assert(scan(s@, i0) is None);
                            assert(eval_expr(s@) is None);
                        }
                        return None;
                    },
                    Some(Err(e)) => {
                        proof {
                            assert(scan(s@, i0) == Some(
                                Err::<(Seq<i32>, Seq<Operator>), ParseError>(e),
                            ));
                            assert(scan(s@, 0) == Some(
                                Err::<(Seq<i32>, Seq<Operator>), ParseError>(e),
                            ));
                        }
                        return Some(Err(e));
                    },
                    Some(Ok(v)) => {
                        proof {
                            assert(scan(s@, i0) == scan_with_prefix(
                                seq![v],
                                Seq::empty(),
                                scan(s@, k + 1),
                            ));
                            lemma_prefix_assoc(
                                nums0,
                                ops0,
                                seq![v],
                                Seq::empty(),
                                scan(s@, k + 1),
                            );
                            assert(nums0 + seq![v] =~= nums0.push(v));
                            assert(ops0 + Seq::<Operator>::empty() =~= ops0);
                        }
                        num_stack.push(v);
                        i = k + 1;
                    },
                }
            } else {
                // Input exhausted with the group still open.
                proof {
                    assert(find_group_end(s@, start as int, 1) is None);
                    assert(scan(s@, i0) == Some(
                        Err::<(Seq<i32>, Seq<Operator>), ParseError>(
                            ParseError::UnmatchedOpeningParenthesis,
                        ),
                    ));
                }
                return Some(Err(ParseError::UnmatchedOpeningParenthesis));
            }
        } else if c == 'f' {
            return Some(Err(ParseError::UnmatchedClosingParenthesis));
        } else {
            return Some(Err(ParseError::InvalidCharacter));
        }
    }

    proof {
        assert(num_stack@ + Seq::<i32>::empty() =~= num_stack@);
        assert(op_stack@ + Seq::<Operator>::empty() =~= op_stack@);
        assert(scan(s@, 0) == Some(Ok::<(Seq<i32>, Seq<Operator>), ParseError>((
            num_stack@,
            op_stack@,
        ))));
    }

    if num_stack.len() == 0 {
        return Some(Err(ParseError::EmptyExpression));
    }

    let mut acc: i32 = num_stack[0];
    let mut k: usize = 1;
    while k < num_stack.len()
        invariant
            1 <= k <= num_stack@.len(),
            scan(s@, 0) == Some(Ok::<(Seq<i32>, Seq<Operator>), ParseError>((
                num_stack@,
                op_stack@,
            ))),
            num_stack@.len() >= 1,
            fold_from(num_stack@, op_stack@, acc, k as int) == fold_from(
                num_stack@,
                op_stack@,
                num_stack@[0],
                1,
            ),
        decreases num_stack@.len() - k,
    {
        if op_stack.len() < k {
            return None;
        }
        let b = num_stack[k];
        match apply_operator(op_stack[k - 1], acc, b) {
            Ok(v) => {
                acc = v;
                k = k + 1;
            },
            Err(e) => {
                return Some(Err(e));
            },
        }
    }
    Some(Ok(acc))
}

/// Evaluates an expression, totally: `Some(Ok(v))` for a value,
/// `Some(Err(e))` for a rejected expression, and `None` exactly where the
/// final fold is undefined because an operand has no operator to join it
/// (as in a group standing directly after a number).
pub fn try_evaluate_expression(expr: &str) -> (r: Option<Result<i32, ParseError>>)
    ensures
        r == eval_expr(expr@),
{
    let n = expr.unicode_len();
    let mut chars: Vec<char> = Vec::new();
    let mut i: usize = 0;
    while i < n
        invariant
            n == expr@.len(),
            i <= n,
            chars@ == expr@.subrange(0, i as int),
        decreases n - i,
    {
        chars.push(expr.get_char(i));
        i = i + 1;
        proof {
            assert(chars@ =~= expr@.subrange(0, i as int));
        }
    }
    proof {
        assert(chars@ =~= expr@);
    }
    eval_chars(&chars)
}

/// Evaluates an expression whose fold is defined, yielding its value or
/// the first of the five rejections met during the scan and fold.
pub fn evaluate_expression(expr: &str) -> (r: Result<i32, ParseError>)
    requires
        eval_expr(expr@) is Some,
    ensures
        Some(r) == eval_expr(expr@),
{
    match try_evaluate_expression(expr) {
        Some(r) => r,
        None => {
            proof {
                assert(false);
            }
            Err(ParseError::EmptyExpression)
        },
    }
}

} // verus!

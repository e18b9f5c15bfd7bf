//! General laws of the evaluator, stated and proved over the spec-level
//! meaning `eval_expr`.

use vstd::prelude::*;

use crate::eval::digit_run_end;
use crate::eval::digit_value;
use crate::eval::find_group_end;
use crate::eval::lemma_digit_run_end_bounds;
use crate::eval::lemma_find_group_end_bounds;
use crate::eval::digits_value;
use crate::eval::eval_expr;
use crate::eval::fold_from;
use crate::eval::is_digit_char;
use crate::eval::scan;
use crate::eval::scan_with_prefix;
use crate::eval::valid_char;
use crate::ops::Operator;
use crate::ops::ParseError;
use crate::ops::apply_op;
use crate::ops::is_operator_char;
use vstd::math::abs;

verus! {

/// Evaluation has no state besides its input: the result is a function of
/// the expression's characters alone, so two evaluations of the same
/// string agree.
pub proof fn lemma_evaluation_repeatable(
    s: Seq<char>,
    r1: Option<Result<i32, ParseError>>,
    r2: Option<Result<i32, ParseError>>,
)
    requires
        r1 == eval_expr(s),
        r2 == eval_expr(s),
    ensures
        r1 == r2,
{
}

/// The empty string is rejected as an empty expression.
pub proof fn lemma_empty_rejected(s: Seq<char>)
    requires
        s.len() == 0,
    ensures
        eval_expr(s) == Some(Err::<i32, ParseError>(ParseError::EmptyExpression)),
{
    assert(scan(s, 0) == Some(Ok::<(Seq<i32>, Seq<Operator>), ParseError>((
        Seq::empty(),
        Seq::empty(),
    ))));
}

/// The plain decimal value of the digits `s[i..j)`, read left to right,
/// with no wraparound.
pub open spec fn decimal_value_range(s: Seq<char>, i: int, j: int) -> int
    recommends
        0 <= i <= j <= s.len(),
    decreases j - i,
{
    if i >= j {
        0
    } else {
        decimal_value_range(s, i, j - 1) * 10 + digit_value(s[j - 1])
    }
}

/// The plain decimal value of a digit string.
pub open spec fn decimal_value(s: Seq<char>) -> int {
    decimal_value_range(s, 0, s.len() as int)
}

proof fn lemma_decimal_nonneg(s: Seq<char>, i0: int, i: int)
    requires
        0 <= i0 <= i <= s.len(),
        forall|k: int| i0 <= k < i ==> is_digit_char(s[k]),
    ensures
        decimal_value_range(s, i0, i) >= 0,
    decreases i - i0,
{
    if i > i0 {
        lemma_decimal_nonneg(s, i0, i - 1);
    }
}

proof fn lemma_decimal_monotone(s: Seq<char>, i0: int, i: int, j: int)
    requires
        0 <= i0 <= i <= j <= s.len(),
        forall|k: int| i0 <= k < j ==> is_digit_char(s[k]),
    ensures
        decimal_value_range(s, i0, i) <= decimal_value_range(s, i0, j),
    decreases j - i,
{
    if j > i {
        lemma_decimal_monotone(s, i0, i, j - 1);
        lemma_decimal_nonneg(s, i0, j - 1);
    }
}

/// Wrapping multiplication and addition agree with the plain operations
/// while the plain result stays in range.
proof fn lemma_wrap_identity(x: int)
    requires
        i32::MIN <= x <= i32::MAX,
    ensures
        vstd::wrapping::i32_specs::signed_crop(x) == x as i32,
{
    if x >= 0 {
        vstd::arithmetic::div_mod::lemma_small_mod(x as nat, 0x1_0000_0000nat);
    } else {
        vstd::arithmetic::div_mod::lemma_small_mod((x + 0x1_0000_0000) as nat, 0x1_0000_0000nat);
        assert(x % 0x1_0000_0000 == (x + 0x1_0000_0000) % 0x1_0000_0000) by {
            vstd::arithmetic::div_mod::lemma_mod_add_multiples_vanish(x, 0x1_0000_0000);
        };
    }
}

/// While no step leaves the `i32` range, the wrapping accumulation of a
/// digit run computes its plain decimal value.
proof fn lemma_digits_value_plain(s: Seq<char>, i0: int, i: int, j: int)
    requires
        0 <= i0 <= i <= j <= s.len(),
        forall|k: int| i0 <= k < j ==> is_digit_char(s[k]),
        decimal_value_range(s, i0, j) <= i32::MAX as int,
    ensures
        digits_value(s, i, j, decimal_value_range(s, i0, i) as i32) == decimal_value_range(
            s,
            i0,
            j,
        ) as i32,
    decreases j - i,
{
    lemma_decimal_nonneg(s, i0, i);
    lemma_decimal_monotone(s, i0, i, j);
    if i < j {
        let acc = decimal_value_range(s, i0, i);
        let next = decimal_value_range(s, i0, i + 1);
        lemma_decimal_monotone(s, i0, i + 1, j);
        assert(next == acc * 10 + digit_value(s[i]));
        assert(0 <= digit_value(s[i]) <= 9);
        assert(acc * 10 <= next);
        assert(0 <= acc * 10);
        lemma_wrap_identity(acc * 10);
        assert(vstd::wrapping::i32_specs::wrapping_mul(acc as i32, 10) == (acc * 10) as i32);
        assert(vstd::wrapping::i32_specs::wrapping_add(
            (acc * 10) as i32,
            digit_value(s[i]) as i32,
        ) == next as i32);
        lemma_digits_value_plain(s, i0, i + 1, j);
    }
}

proof fn lemma_digit_run_end_all_digits(s: Seq<char>, i: int)
    requires
        0 <= i <= s.len(),
        forall|k: int| i <= k < s.len() ==> is_digit_char(s[k]),
    ensures
        digit_run_end(s, i) == s.len(),
    decreases s.len() - i,
{
    if i < s.len() {
        lemma_digit_run_end_all_digits(s, i + 1);
    }
}

/// A nonempty run of digits standing alone evaluates to the integer its
/// digits spell in decimal, read left to right, whenever that integer
/// fits in `i32`.
pub proof fn lemma_digit_run_value(s: Seq<char>)
    requires
        s.len() >= 1,
        forall|k: int| 0 <= k < s.len() ==> is_digit_char(s[k]),
        decimal_value(s) <= i32::MAX as int,
    ensures
        eval_expr(s) == Some(Ok::<i32, ParseError>(decimal_value(s) as i32)),
{
    let n = s.len() as int;
    lemma_digit_run_end_all_digits(s, 0);
    assert(decimal_value_range(s, 0, 0) == 0);
    lemma_digits_value_plain(s, 0, 0, n);
    let v = digits_value(s, 0, n, 0);
    assert(scan(s, n) == Some(Ok::<(Seq<i32>, Seq<Operator>), ParseError>((
        Seq::empty(),
        Seq::empty(),
    ))));
    assert(scan(s, 0) == scan_with_prefix(seq![v], Seq::empty(), scan(s, n)));
    assert(seq![v] + Seq::<i32>::empty() =~= seq![v]);
    assert(Seq::<Operator>::empty() + Seq::<Operator>::empty() =~= Seq::<Operator>::empty());
    assert(scan(s, 0) == Some(Ok::<(Seq<i32>, Seq<Operator>), ParseError>((
        seq![v],
        Seq::empty(),
    ))));
    assert(fold_from(seq![v], Seq::empty(), v, 1) == Some(Ok::<i32, ParseError>(v)));
}

proof fn lemma_digit_run_end_digits(s: Seq<char>, i: int)
    requires
        0 <= i <= s.len(),
    ensures
        forall|k: int| i <= k < digit_run_end(s, i) ==> is_digit_char(s[k]),
    decreases s.len() - i,
{
    if i < s.len() && is_digit_char(s[i]) {
        lemma_digit_run_end_digits(s, i + 1);
    }
}

/// A scan that collects its stacks without failing saw only characters of
/// the notation's alphabet from its start position on.
proof fn lemma_scan_ok_valid(s: Seq<char>, i: int)
    requires
        0 <= i <= s.len(),
    ensures
        (scan(s, i) matches Some(Ok(_))) ==> (forall|k: int|
            i <= k < s.len() ==> valid_char(s[k])),
    decreases s.len(), 1int, s.len() - i,
{
    if i < s.len() && (scan(s, i) matches Some(Ok(_))) {
        if is_digit_char(s[i]) {
            let j = digit_run_end(s, i);
            lemma_digit_run_end_bounds(s, i + 1);
            lemma_digit_run_end_digits(s, i);
            lemma_scan_ok_valid(s, j);
        } else if is_operator_char(s[i]) {
            lemma_scan_ok_valid(s, i + 1);
        } else if s[i] == 'e' {
            match find_group_end(s, i + 1, 1) {
                None => {},
                Some(j) => {
                    lemma_find_group_end_bounds(s, i + 1, 1);
                    let sub = s.subrange(i + 1, j);
                    lemma_eval_ok_valid(sub);
                    lemma_scan_ok_valid(s, j + 1);
                    assert forall|k: int| i <= k < s.len() implies valid_char(s[k]) by {
                        if i + 1 <= k < j {
                            assert(sub[k - (i + 1)] == s[k]);
                            assert(valid_char(sub[k - (i + 1)]));
                        }
                    };
                },
            }
        }
    }
}

/// An expression that evaluates to a value is written entirely in the
/// notation's alphabet.
pub proof fn lemma_eval_ok_valid(s: Seq<char>)
    ensures
        (eval_expr(s) matches Some(Ok(_))) ==> (forall|k: int|
            0 <= k < s.len() ==> valid_char(s[k])),
    decreases s.len(), 2int, 0int,
{
    lemma_scan_ok_valid(s, 0);
}

/// A character outside the notation's alphabet — anything but the digits,
/// `a` to `d`, `e` and `f` — bars the expression from evaluating to a
/// value: the result is one of the five rejections (which one depends on
/// what the scan meets first) or an undefined fold, never `Ok`.
pub proof fn lemma_invalid_character_bars_value(s: Seq<char>, i: int)
    requires
        0 <= i < s.len(),
        !valid_char(s[i]),
    ensures
        !(eval_expr(s) matches Some(Ok(_))),
{
    lemma_eval_ok_valid(s);
}

/// Division truncates toward zero: the quotient accounts for the dividend
/// to within the divisor, and never overshoots it — the quotient times the
/// divisor stays within the dividend's magnitude. The one dividend and
/// divisor whose exact quotient leaves `i32` (the smallest value divided
/// by minus one) is left out: there the policy wraps instead.
pub proof fn lemma_division_truncates(a: i32, b: i32)
    requires
        b != 0,
        !(a == i32::MIN && b == -1),
    ensures
        apply_op(Operator::Divide, a, b) is Ok,
        ({
            let q = apply_op(Operator::Divide, a, b)->Ok_0 as int;
            &&& abs(a - q * b) < abs(b as int)
            &&& abs(q * b) <= abs(a as int)
        }),
{
    let x = a as int;
    let d = b as int;
    if x == 0 {
    } else if x > 0 && d > 0 {
        let q = x / d;
        vstd::arithmetic::div_mod::lemma_fundamental_div_mod(x, d);
        vstd::arithmetic::div_mod::lemma_mod_bound(x, d);
        vstd::arithmetic::div_mod::lemma_div_pos_is_pos(x, d);
        vstd::arithmetic::div_mod::lemma_div_nonincreasing(x, d);
        assert(q * d == d * q) by (nonlinear_arith);
        assert(x - q * d == x % d);
        assert(0 <= q * d);
    } else if x < 0 && d < 0 {
        let xa = -x;
        let da = -d;
        let q = xa / da;
        vstd::arithmetic::div_mod::lemma_fundamental_div_mod(xa, da);
        vstd::arithmetic::div_mod::lemma_mod_bound(xa, da);
        vstd::arithmetic::div_mod::lemma_div_pos_is_pos(xa, da);
        vstd::arithmetic::div_mod::lemma_div_nonincreasing(xa, da);
        if da >= 2 {
            vstd::arithmetic::div_mod::lemma_div_is_ordered_by_denominator(xa, 2, da);
            vstd::arithmetic::div_mod::lemma_div_is_ordered(xa, 0x8000_0000, 2);
        }
        assert(q * d == -(da * q) && q * da == da * q) by (nonlinear_arith)
            requires
                d == -da,
        ;
        assert(x - q * d == -(xa - q * da));
        assert(xa - q * da == xa % da);
        assert(0 <= q * da);
    } else if x < 0 {
        let xa = -x;
        let q = xa / d;
        vstd::arithmetic::div_mod::lemma_fundamental_div_mod(xa, d);
        vstd::arithmetic::div_mod::lemma_mod_bound(xa, d);
        vstd::arithmetic::div_mod::lemma_div_pos_is_pos(xa, d);
        vstd::arithmetic::div_mod::lemma_div_nonincreasing(xa, d);
        assert((-q) * d == -(d * q) && q * d == d * q) by (nonlinear_arith);
        assert(x - (-q) * d == -(xa - q * d));
        assert(xa - q * d == xa % d);
        assert(0 <= q * d);
    } else {
        let da = -d;
        let q = x / da;
        vstd::arithmetic::div_mod::lemma_fundamental_div_mod(x, da);
        vstd::arithmetic::div_mod::lemma_mod_bound(x, da);
        vstd::arithmetic::div_mod::lemma_div_pos_is_pos(x, da);
        vstd::arithmetic::div_mod::lemma_div_nonincreasing(x, da);
        assert((-q) * d == da * q && q * da == da * q) by (nonlinear_arith)
            requires
                d == -da,
        ;
        assert(x - (-q) * d == x - q * da);
        assert(x - q * da == x % da);
        assert(0 <= q * da);
    }
}

} // verus!

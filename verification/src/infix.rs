//! Binary operators and what they compute from two values.

use vstd::prelude::*;
use crate::float::{
    ask_arithmetic, ask_compare, ask_integer, ask_round, is_zero, lemma_explains_prefix, zero,
    consistent, Answers, ArithmeticOp, ComparisonOp, FloatCall, FloatModel, FloatOps, POSITIVE_ZERO,
};
use crate::value::{Value, ValueView};

verus! {

/// The two logical operators.
#[derive(Debug, Clone, Copy, PartialEq, Eq, Structural)]
pub enum LogicOp {
    And,
    Or,
}

/// A binary operator.
#[derive(Debug, Clone, Copy, PartialEq, Eq, Structural)]
pub enum Op {
    Arithmetic(ArithmeticOp),
    Logic(LogicOp),
    Comparison(ComparisonOp),
}

/// The text of a binary operator.
pub open spec fn op_text(op: Op) -> Seq<char> {
    match op {
        Op::Arithmetic(ArithmeticOp::Add) => seq!['+'],
        Op::Arithmetic(ArithmeticOp::Sub) => seq!['-'],
        Op::Arithmetic(ArithmeticOp::Mul) => seq!['*'],
        Op::Arithmetic(ArithmeticOp::Div) => seq!['/'],
        Op::Logic(LogicOp::And) => seq!['&', '&'],
        Op::Logic(LogicOp::Or) => seq!['|', '|'],
        Op::Comparison(ComparisonOp::Eq) => seq!['=', '='],
        Op::Comparison(ComparisonOp::NotEq) => seq!['!', '='],
        Op::Comparison(ComparisonOp::Gt) => seq!['>'],
        Op::Comparison(ComparisonOp::Lt) => seq!['<'],
        Op::Comparison(ComparisonOp::GtOrEq) => seq!['>', '='],
        Op::Comparison(ComparisonOp::LtOrEq) => seq!['<', '='],
    }
}

impl Op {
    /// Appends the text of the operator to `f`.
    pub fn format(&self, f: &mut String)
        ensures
            final(f)@ == old(f)@ + op_text(*self),
    {
        match self {
            Op::Arithmetic(ArithmeticOp::Add) => {
                f.push('+');
            },
            Op::Arithmetic(ArithmeticOp::Sub) => {
                f.push('-');
            },
            Op::Arithmetic(ArithmeticOp::Mul) => {
                f.push('*');
            },
            Op::Arithmetic(ArithmeticOp::Div) => {
                f.push('/');
            },
            Op::Logic(LogicOp::And) => {
                f.push('&');
                f.push('&');
            },
            Op::Logic(LogicOp::Or) => {
                f.push('|');
                f.push('|');
            },
            Op::Comparison(ComparisonOp::Eq) => {
                f.push('=');
                f.push('=');
            },
            Op::Comparison(ComparisonOp::NotEq) => {
                f.push('!');
                f.push('=');
            },
            Op::Comparison(ComparisonOp::Gt) => {
                f.push('>');
            },
            Op::Comparison(ComparisonOp::Lt) => {
                f.push('<');
            },
            Op::Comparison(ComparisonOp::GtOrEq) => {
                f.push('>');
                f.push('=');
            },
            Op::Comparison(ComparisonOp::LtOrEq) => {
                f.push('<');
                f.push('=');
            },
        }
        assert(f@ =~= old(f)@ + op_text(*self));
    }
}

/// The magnitude of a 64-bit integer.
pub open spec fn magnitude(i: i64) -> int {
    if i < 0 {
        -(i as int)
    } else {
        i as int
    }
}

/// The quotient of two 64-bit integers, rounded towards zero.  A zero
/// divisor gives zero, and the one quotient that does not fit, that of the
/// least integer by -1, gives the least integer.
pub open spec fn int_quotient(lhs: i64, rhs: i64) -> i64 {
    if rhs == 0 {
        0
    } else {
        let q = magnitude(lhs) / magnitude(rhs);
        if (lhs < 0) != (rhs < 0) {
            (-q) as i64
        } else if q > i64::MAX {
            i64::MIN
        } else {
            q as i64
        }
    }
}

/// What an arithmetic operator gives of two 64-bit integers.  Sums,
/// differences and products wrap around.
pub open spec fn int_arithmetic(op: ArithmeticOp, lhs: i64, rhs: i64) -> i64 {
    match op {
        ArithmeticOp::Add => lhs.wrapping_add(rhs),
        ArithmeticOp::Sub => lhs.wrapping_sub(rhs),
        ArithmeticOp::Mul => lhs.wrapping_mul(rhs),
        ArithmeticOp::Div => int_quotient(lhs, rhs),
    }
}

fn magnitude_of(i: i64) -> (r: u64)
    ensures
        r == magnitude(i),
{
    if i == i64::MIN {
        9223372036854775808u64
    } else if i < 0 {
        (-i) as u64
    } else {
        i as u64
    }
}

/// Applies an arithmetic operator to two integers.
pub fn handle_math_ops(op: ArithmeticOp, lhs: i64, rhs: i64) -> (r: i64)
    ensures
        r == int_arithmetic(op, lhs, rhs),
{
    match op {
        ArithmeticOp::Add => lhs.wrapping_add(rhs),
        ArithmeticOp::Sub => lhs.wrapping_sub(rhs),
        ArithmeticOp::Mul => lhs.wrapping_mul(rhs),
        ArithmeticOp::Div => {
            if rhs == 0 {
                0
            } else {
                let q: u64 = magnitude_of(lhs) / magnitude_of(rhs);
                if (lhs < 0) != (rhs < 0) {
                    if q == 9223372036854775808u64 {
                        i64::MIN
                    } else {
                        -(q as i64)
                    }
                } else if q > 9223372036854775807u64 {
                    i64::MIN
                } else {
                    q as i64
                }
            }
        },
    }
}

/// What a logical operator gives of two booleans.
pub open spec fn logic_result(op: LogicOp, lhs: bool, rhs: bool) -> bool {
    match op {
        LogicOp::And => lhs && rhs,
        LogicOp::Or => lhs || rhs,
    }
}

/// Applies a logical operator to two booleans.
pub fn handle_logical_ops(op: LogicOp, lhs: bool, rhs: bool) -> (r: bool)
    ensures
        r == logic_result(op, lhs, rhs),
{
    match op {
        LogicOp::And => lhs && rhs,
        LogicOp::Or => lhs || rhs,
    }
}

/// Whether a comparison holds of two integers.
pub open spec fn int_comparison(op: ComparisonOp, lhs: i64, rhs: i64) -> bool {
    match op {
        ComparisonOp::Eq => lhs == rhs,
        ComparisonOp::NotEq => lhs != rhs,
        ComparisonOp::Gt => lhs > rhs,
        ComparisonOp::Lt => lhs < rhs,
        ComparisonOp::GtOrEq => lhs >= rhs,
        ComparisonOp::LtOrEq => lhs <= rhs,
    }
}

/// Tells whether a comparison holds of two integers.
pub fn handle_comparison_ops(op: ComparisonOp, lhs: i64, rhs: i64) -> (r: bool)
    ensures
        r == int_comparison(op, lhs, rhs),
{
    match op {
        ComparisonOp::Eq => lhs == rhs,
        ComparisonOp::NotEq => lhs != rhs,
        ComparisonOp::Gt => lhs > rhs,
        ComparisonOp::Lt => lhs < rhs,
        ComparisonOp::GtOrEq => lhs >= rhs,
        ComparisonOp::LtOrEq => lhs <= rhs,
    }
}

/// What an arithmetic operator gives of two floats: a quotient by zero is
/// positive zero, and everything else is as the model says.
pub open spec fn float_arithmetic(op: ArithmeticOp, lhs: u64, rhs: u64, fm: FloatModel) -> u64 {
    if op == ArithmeticOp::Div && is_zero(rhs) {
        POSITIVE_ZERO
    } else {
        (fm.arithmetic)(op, lhs, rhs)
    }
}

/// What a binary operator gives of two values.
///
/// With an integer on the left, a float on the right is rounded to an
/// integer first; with a float on the left, an integer on the right becomes
/// a float first.  Arithmetic and comparison want numbers, the logical
/// operators booleans; every other pairing gives null.
pub open spec fn infix_result(op: Op, lhs: ValueView, rhs: ValueView, fm: FloatModel) -> ValueView {
    match lhs {
        ValueView::Integer(l) => {
            match rhs {
                ValueView::Integer(r) => int_infix(op, l, r),
                ValueView::Float(bits) => if op is Logic {
                    ValueView::Null
                } else {
                    int_infix(op, l, (fm.round)(bits))
                },
                _ => ValueView::Null,
            }
        },
        ValueView::Float(l) => {
            match rhs {
                ValueView::Integer(r) => if op is Logic {
                    ValueView::Null
                } else {
                    float_infix(op, l, (fm.integer)(r), fm)
                },
                ValueView::Float(r) => float_infix(op, l, r, fm),
                _ => ValueView::Null,
            }
        },
        ValueView::Boolean(l) => {
            match (op, rhs) {
                (Op::Logic(logic), ValueView::Boolean(r)) => ValueView::Boolean(
                    logic_result(logic, l, r),
                ),
                _ => ValueView::Null,
            }
        },
        _ => ValueView::Null,
    }
}

/// What a binary operator gives of two integers.
pub open spec fn int_infix(op: Op, lhs: i64, rhs: i64) -> ValueView {
    match op {
        Op::Arithmetic(math) => ValueView::Integer(int_arithmetic(math, lhs, rhs)),
        Op::Comparison(comparison) => ValueView::Boolean(int_comparison(comparison, lhs, rhs)),
        Op::Logic(_) => ValueView::Null,
    }
}

/// What a binary operator gives of two floats.
pub open spec fn float_infix(op: Op, lhs: u64, rhs: u64, fm: FloatModel) -> ValueView {
    match op {
        Op::Arithmetic(math) => ValueView::Float(float_arithmetic(math, lhs, rhs, fm)),
        Op::Comparison(comparison) => ValueView::Boolean((fm.compare)(comparison, lhs, rhs)),
        Op::Logic(_) => ValueView::Null,
    }
}

fn compute_int(op: Op, lhs: i64, rhs: i64) -> (r: Value)
    ensures
        r@ == int_infix(op, lhs, rhs),
{
    match op {
        Op::Arithmetic(math) => Value::Integer(handle_math_ops(math, lhs, rhs)),
        Op::Comparison(comparison) => Value::Boolean(handle_comparison_ops(comparison, lhs, rhs)),
        Op::Logic(_) => Value::Null,
    }
}

fn compute_float<F: FloatOps>(
    op: Op,
    lhs: u64,
    rhs: u64,
    floats: &F,
    log: &mut Answers,
) -> (r: Value)
    ensures
        old(log)@.is_prefix_of(final(log)@),
        consistent(final(log)@),
        forall|fm: FloatModel|
            fm.explains(final(log)@) ==> r@ == #[trigger] float_infix(op, lhs, rhs, fm),
{
    proof {
        use_type_invariant(&*log);
    }
    match op {
        Op::Arithmetic(math) => {
            if math == ArithmeticOp::Div && zero(rhs) {
                Value::Float(POSITIVE_ZERO)
            } else {
                let bits = ask_arithmetic(floats, math, lhs, rhs, log);
                Value::Float(bits)
            }
        },
        Op::Comparison(comparison) => {
            let holds = ask_compare(floats, comparison, lhs, rhs, log);
            Value::Boolean(holds)
        },
        Op::Logic(_) => Value::Null,
    }
}

/// Applies a binary operator to two values, as [`infix_result`] says.
pub fn compute_infix<F: FloatOps>(
    op: Op,
    lhs: &Value,
    rhs: &Value,
    floats: &F,
    log: &mut Answers,
) -> (r: Value)
    ensures
        old(log)@.is_prefix_of(final(log)@),
        consistent(final(log)@),
        forall|fm: FloatModel|
            fm.explains(final(log)@) ==> r@ == #[trigger] infix_result(op, lhs@, rhs@, fm),
{
    proof {
        use_type_invariant(&*log);
    }
    match lhs {
        Value::Integer(l) => {
            match rhs {
                Value::Integer(r) => compute_int(op, *l, *r),
                Value::Float(bits) => {
                    match op {
                        Op::Logic(_) => Value::Null,
                        _ => {
                            let rounded = ask_round(floats, *bits, log);
                            compute_int(op, *l, rounded)
                        },
                    }
                },
                _ => Value::Null,
            }
        },
        Value::Float(l) => {
            match rhs {
                Value::Integer(r) => {
                    match op {
                        Op::Logic(_) => Value::Null,
                        _ => {
                            let bits = ask_integer(floats, *r, log);
                            let ghost mid = log@;
                            let result = compute_float(op, *l, bits, floats, log);
                            assert forall|fm: FloatModel| fm.explains(log@) implies result@
                                == #[trigger] infix_result(op, lhs@, rhs@, fm) by {
                                lemma_explains_prefix(fm, mid, log@);
                                assert(result@ == float_infix(op, *l, bits, fm));
                            }
                            result
                        },
                    }
                },
                Value::Float(r) => {
                    let result = compute_float(op, *l, *r, floats, log);
                    assert forall|fm: FloatModel| fm.explains(log@) implies result@
                        == #[trigger] infix_result(op, lhs@, rhs@, fm) by {
                        assert(result@ == float_infix(op, *l, *r, fm));
                    }
                    result
                },
                _ => Value::Null,
            }
        },
        Value::Boolean(l) => {
            match rhs {
                Value::Boolean(r) => {
                    match op {
                        Op::Logic(logic) => Value::Boolean(handle_logical_ops(logic, *l, *r)),
                        _ => Value::Null,
                    }
                },
                _ => Value::Null,
            }
        },
        _ => Value::Null,
    }
}

/// Whether `v` is what a binary operator gives of two values under every
/// float model that explains `log`, and there is such a model.
pub open spec fn is_infix_result(
    v: ValueView,
    op: Op,
    lhs: ValueView,
    rhs: ValueView,
    log: Seq<FloatCall>,
) -> bool {
    consistent(log) && forall|fm: FloatModel| #[trigger]
        fm.explains(log) ==> v == infix_result(op, lhs, rhs, fm)
}

/// Applies a binary operator to two values: the result is what
/// [`infix_result`] says under every float model that explains the answers
/// that `floats` has given.
pub fn apply_infix<F: FloatOps>(op: Op, lhs: &Value, rhs: &Value, floats: &F) -> (r: Value)
    ensures
        exists|log: Seq<FloatCall>| is_infix_result(r@, op, lhs@, rhs@, log),
{
    let mut log = Answers::new();
    let r = compute_infix(op, lhs, rhs, floats, &mut log);
    assert(is_infix_result(r@, op, lhs@, rhs@, log@));
    r
}

} // verus!

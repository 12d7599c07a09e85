//! Unary operators and what they compute from a value.

use vstd::prelude::*;
use crate::float::{negate, negated};
use crate::value::{Value, ValueView};

verus! {

/// A unary operator.
#[derive(Debug, Clone, Copy, PartialEq, Eq, Structural)]
pub enum Op {
    Negate,
    Not,
}

/// The text of a unary operator.
pub open spec fn op_text(op: Op) -> Seq<char> {
    match op {
        Op::Negate => seq!['-'],
        Op::Not => seq!['!'],
    }
}

impl Op {
    /// Appends the text of the operator to `f`.
    pub fn format(&self, f: &mut String)
        ensures
            final(f)@ == old(f)@ + op_text(*self),
    {
        match self {
            Op::Negate => {
                f.push('-');
            },
            Op::Not => {
                f.push('!');
            },
        }
        assert(f@ =~= old(f)@ + op_text(*self));
    }

    /// The operator that a character writes.
    pub fn from_char(op: char) -> (r: Option<Op>)
        ensures
            r == (if op == '!' {
                Some(Op::Not)
            } else if op == '-' {
                Some(Op::Negate)
            } else {
                None
            }),
    {
        if op == '!' {
            Some(Op::Not)
        } else if op == '-' {
            Some(Op::Negate)
        } else {
            None
        }
    }
}

/// The negative of a 64-bit integer; the least integer is its own negative.
pub open spec fn int_negated(i: i64) -> i64 {
    if i == i64::MIN {
        i64::MIN
    } else {
        (-i) as i64
    }
}

/// What a unary operator gives of a value: the negative of a number, the
/// opposite of a boolean, and null of everything else.
pub open spec fn prefix_result(op: Op, operand: ValueView) -> ValueView {
    match (op, operand) {
        (Op::Negate, ValueView::Integer(i)) => ValueView::Integer(int_negated(i)),
        (Op::Negate, ValueView::Float(bits)) => ValueView::Float(negated(bits)),
        (Op::Not, ValueView::Boolean(b)) => ValueView::Boolean(!b),
        _ => ValueView::Null,
    }
}

/// Applies a unary operator to a value, as [`prefix_result`] says.
pub fn compute_prefix(op: Op, operand: &Value) -> (r: Value)
    ensures
        r@ == prefix_result(op, operand@),
{
    match operand {
        Value::Integer(i) => {
            match op {
                Op::Negate => {
                    if *i == i64::MIN {
                        Value::Integer(i64::MIN)
                    } else {
                        Value::Integer(-*i)
                    }
                },
                Op::Not => Value::Null,
            }
        },
        Value::Float(bits) => {
            match op {
                Op::Negate => Value::Float(negate(*bits)),
                Op::Not => Value::Null,
            }
        },
        Value::Boolean(b) => {
            match op {
                Op::Not => Value::Boolean(!*b),
                Op::Negate => Value::Null,
            }
        },
        _ => Value::Null,
    }
}

} // verus!

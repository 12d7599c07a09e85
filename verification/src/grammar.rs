//! The grammar: what parsing means.
//!
//! Every rule is a function from the input, a position and a state to an
//! outcome and a state.  A rule that fails either lets its caller try
//! something else or, once it has seen enough to know what is being parsed,
//! ends the whole parse (`cut`).  On its way out a failure collects notes:
//! the constructs it was in and what would have been accepted.  Alternatives
//! are tried in order, each from where the choice started; where all fail,
//! the failure of the last one counts.
//!
//! Names are interned as they are read, and a rule that fails does not take
//! that back.  The three constructs that own a scope (blocks, iterations
//! and functions) reserve the next free index before they parse their
//! body, so that scopes inside the body get later indices and this scope
//! as their parent; they place their scope when the body has been parsed,
//! and give the index back when it has not.

use vstd::prelude::*;
use crate::binding::BindingView;
use crate::context::{bound_in_turn, ContextView};
use crate::error::{Context, Description, Expected, Label, Word};
use crate::expr::{ExprView, IndexView};
use crate::float::{ArithmeticOp, ComparisonOp};
use crate::infix::{LogicOp, Op};
use crate::interner::{first_index_of, with_text};
use crate::lex::{after_blanks, caseless_at, char_at, run_end, text_at, Class};
use crate::prefix;
use crate::state::placed;
use crate::value::with_entry;

verus! {

/// The state of a parse: the scopes placed so far, the names read so far,
/// the scope that new scopes get as their parent, and the next free index.
pub struct ParseView {
    pub contexts: Seq<ContextView>,
    pub names: Seq<Seq<char>>,
    pub active: usize,
    pub avail: usize,
}

/// A failure: whether it ends the parse, where the input was left, and the
/// notes collected so far, innermost first.
pub struct Failure {
    pub cut: bool,
    pub pos: int,
    pub trail: Seq<Context>,
}

/// The outcome of a rule: a value and the position after it, or a failure.
pub enum Parsed<T> {
    Done(T, int),
    Failed(Failure),
}

/// The failure that lets the caller try something else.
pub open spec fn miss<T>(pos: int) -> Parsed<T> {
    Parsed::Failed(Failure { cut: false, pos, trail: Seq::empty() })
}

/// The failure that ends the parse, with one note.
pub open spec fn stop<T>(pos: int, note: Context) -> Parsed<T> {
    Parsed::Failed(Failure { cut: true, pos, trail: seq![note] })
}

/// The note that a character was expected.
pub open spec fn want_char(c: char) -> Context {
    Context::Expected(Expected::Char(c))
}

/// The note that something described in words was expected.
pub open spec fn want(description: Description) -> Context {
    Context::Expected(Expected::Description(description))
}

impl<T> Parsed<T> {
    /// The outcome with one more note, where it is a failure.
    pub open spec fn noted(self, note: Context) -> Parsed<T> {
        match self {
            Parsed::Failed(f) => Parsed::Failed(Failure { trail: f.trail.push(note), ..f }),
            done => done,
        }
    }

    /// The outcome as one that ends the parse, where it is a failure.
    pub open spec fn committed(self) -> Parsed<T> {
        match self {
            Parsed::Failed(f) => Parsed::Failed(Failure { cut: true, ..f }),
            done => done,
        }
    }

    /// Whether the outcome is a failure that lets the caller go on.
    pub open spec fn missed(self) -> bool {
        self matches Parsed::Failed(f) && !f.cut
    }

    /// The failure of an outcome, as an outcome of another type.
    pub open spec fn failure<U>(self) -> Parsed<U> {
        match self {
            Parsed::Failed(f) => Parsed::Failed(f),
            Parsed::Done(_, pos) => miss(pos),
        }
    }
}

/// The position `pos`, held between `floor` and the end of the input.
/// Positions never move backwards and never leave the input; this makes it
/// plain where the grammar calls on itself.
pub open spec fn held(input: Seq<char>, pos: int, floor: int) -> int {
    if pos < floor {
        floor
    } else if pos > input.len() {
        input.len() as int
    } else {
        pos
    }
}

/// The position after the blanks that start at `pos`.
pub open spec fn skip(input: Seq<char>, pos: int) -> int {
    held(input, after_blanks(input, pos), pos)
}

/// Whether a run of plain characters is one of the words that are no names.
pub open spec fn is_reserved(text: Seq<char>) -> bool {
    text == seq!['t', 'r', 'u', 'e'] || text == seq!['f', 'a', 'l', 's', 'e'] || text == seq![
        'n',
        'u',
        'l',
        'l',
    ]
}

/// A name: a run of plain characters that is no reserved word.  The name is
/// interned.
pub open spec fn name(input: Seq<char>, pos: int, st: ParseView) -> (Parsed<u32>, ParseView) {
    let end = run_end(input, pos, Class::Plain);
    if pos < 0 || end <= pos || end > input.len() {
        (miss(pos), st)
    } else {
        let text = input.subrange(pos, end);
        if is_reserved(text) {
            (miss(pos), st)
        } else if st.names.len() >= u32::MAX {
            (stop(pos, want(Description::FewerNames)), st)
        } else {
            (
                Parsed::Done(first_index_of(st.names, text, 0) as u32, end),
                ParseView { names: with_text(st.names, text), ..st },
            )
        }
    }
}

/// The characters of a string from `pos` on, with every escape replaced by
/// the character it stands for, and the position after them.  None where a
/// `\` is followed by anything but `\`, `"` or a line end.
pub open spec fn string_body(input: Seq<char>, pos: int) -> Option<(Seq<char>, int)>
    decreases input.len() - pos,
{
    if pos < 0 || pos >= input.len() {
        Some((Seq::empty(), pos))
    } else if input[pos] == '\\' {
        if pos + 1 < input.len() && (input[pos + 1] == '\\' || input[pos + 1] == '"' || input[pos
            + 1] == '\n') {
            match string_body(input, pos + 2) {
                Some((rest, end)) => Some((seq![input[pos + 1]] + rest, end)),
                None => None,
            }
        } else {
            None
        }
    } else if input[pos] == '"' || input[pos] == '\n' {
        Some((Seq::empty(), pos))
    } else {
        match string_body(input, pos + 1) {
            Some((rest, end)) => Some((seq![input[pos]] + rest, end)),
            None => None,
        }
    }
}

/// A string: `"`, its characters, `"`.  Where an escape is not one of the
/// three, the string is taken to be empty.
pub open spec fn string_literal(input: Seq<char>, pos: int) -> Parsed<ExprView> {
    if !char_at(input, pos, '"') {
        miss::<ExprView>(pos).noted(Context::Label(Label::Text))
    } else {
        let (text, end) = match string_body(input, pos + 1) {
            Some(found) => found,
            None => (Seq::empty(), pos + 1),
        };
        if char_at(input, end, '"') {
            Parsed::Done(ExprView::Str(text), end + 1)
        } else {
            stop::<ExprView>(end, want_char('"')).noted(Context::Label(Label::Text))
        }
    }
}

/// The number that a run of digits writes.
pub open spec fn digits_value(digits: Seq<char>) -> nat
    decreases digits.len(),
{
    if digits.len() == 0 {
        0
    } else {
        digits_value(digits.drop_last()) * 10 + (digits.last() as u32 - '0' as u32) as nat
    }
}

/// A number: an optional `-`, digits, and optionally `.` and more digits.
/// Without the `.` it is an integer, which must fit in 64 bits; with it, a
/// float, kept as written.
pub open spec fn number(input: Seq<char>, pos: int) -> Parsed<ExprView> {
    let negative = char_at(input, pos, '-');
    let first = if negative {
        pos + 1
    } else {
        pos
    };
    let whole_end = run_end(input, first, Class::Digit);
    if pos < 0 || whole_end <= first {
        miss::<ExprView>(first).noted(Context::Label(Label::Decimal))
    } else if char_at(input, whole_end, '.') {
        let end = run_end(input, whole_end + 1, Class::Digit);
        if end <= whole_end + 1 {
            stop::<ExprView>(whole_end + 1, want(Description::FractionalPart)).noted(
                Context::Label(Label::Decimal),
            )
        } else {
            Parsed::Done(ExprView::Float(input.subrange(pos, end)), end)
        }
    } else {
        let magnitude = digits_value(input.subrange(first, whole_end));
        let value = if negative {
            -(magnitude as int)
        } else {
            magnitude as int
        };
        if i64::MIN <= value <= i64::MAX {
            Parsed::Done(ExprView::Int(value as i64), whole_end)
        } else {
            stop::<ExprView>(pos, want(Description::IntegerInRange)).noted(
                Context::Label(Label::Decimal),
            )
        }
    }
}

/// The word `true`.
pub open spec fn word_true() -> Seq<char> {
    seq!['t', 'r', 'u', 'e']
}

/// The word `false`.
pub open spec fn word_false() -> Seq<char> {
    seq!['f', 'a', 'l', 's', 'e']
}

/// The word `null`.
pub open spec fn word_null() -> Seq<char> {
    seq!['n', 'u', 'l', 'l']
}

/// A boolean: `true` or `false`.  Either word in another case ends the
/// parse.
pub open spec fn boolean(input: Seq<char>, pos: int) -> Parsed<ExprView> {
    if text_at(input, pos, word_true()) {
        Parsed::Done(ExprView::Bool(true), pos + 4)
    } else if caseless_at(input, pos, word_true()) {
        stop::<ExprView>(pos, Context::Expected(Expected::Literal(Word::True))).noted(
            Context::Label(Label::Boolean),
        )
    } else if text_at(input, pos, word_false()) {
        Parsed::Done(ExprView::Bool(false), pos + 5)
    } else if caseless_at(input, pos, word_false()) {
        stop::<ExprView>(pos, Context::Expected(Expected::Literal(Word::False))).noted(
            Context::Label(Label::Boolean),
        )
    } else {
        miss::<ExprView>(pos).noted(Context::Label(Label::Boolean))
    }
}

/// The null literal: `null`.  The word in another case ends the parse.
pub open spec fn null_literal(input: Seq<char>, pos: int) -> Parsed<ExprView> {
    if text_at(input, pos, word_null()) {
        Parsed::Done(ExprView::Null, pos + 4)
    } else if caseless_at(input, pos, word_null()) {
        stop(pos, want(Description::Null))
    } else {
        miss(pos)
    }
}

/// The binary operators in the order in which they are tried.
pub open spec fn operators() -> Seq<Op> {
    seq![
        Op::Arithmetic(ArithmeticOp::Add),
        Op::Arithmetic(ArithmeticOp::Sub),
        Op::Arithmetic(ArithmeticOp::Mul),
        Op::Arithmetic(ArithmeticOp::Div),
        Op::Logic(LogicOp::And),
        Op::Logic(LogicOp::Or),
        Op::Comparison(ComparisonOp::Eq),
        Op::Comparison(ComparisonOp::NotEq),
        Op::Comparison(ComparisonOp::GtOrEq),
        Op::Comparison(ComparisonOp::LtOrEq),
        Op::Comparison(ComparisonOp::Gt),
        Op::Comparison(ComparisonOp::Lt),
    ]
}

/// The first operator, from the `from`th on, whose text stands at `pos`.
pub open spec fn operator_from(input: Seq<char>, pos: int, from: int) -> Option<Op>
    decreases operators().len() - from,
{
    if from < 0 || from >= operators().len() {
        None
    } else if text_at(input, pos, crate::infix::op_text(operators()[from])) {
        Some(operators()[from])
    } else {
        operator_from(input, pos, from + 1)
    }
}

/// The notes of a failure to read an operator: every operator was expected.
pub open spec fn operator_notes() -> Seq<Context> {
    operators().map_values(|op: Op| Context::Expected(Expected::Literal(Word::Operator(op))))
}

/// A binary operator.
pub open spec fn operator(input: Seq<char>, pos: int) -> Parsed<Op> {
    match operator_from(input, pos, 0) {
        Some(op) => Parsed::Done(op, pos + crate::infix::op_text(op).len()),
        None => Parsed::Failed(Failure { cut: false, pos, trail: operator_notes() }),
    }
}

/// The state with a scope reserved: the next free index becomes the active
/// scope.
pub open spec fn reserve(st: ParseView) -> ParseView {
    ParseView { active: st.avail, avail: (st.avail + 1) as usize, ..st }
}

/// The state after a construct that owns scope `index` has failed: the
/// caller's scope is active again, and one index is given back.
pub open spec fn give_back(st: ParseView, caller: usize) -> ParseView {
    ParseView {
        active: caller,
        avail: if st.avail > 0 {
            (st.avail - 1) as usize
        } else {
            0
        },
        ..st
    }
}

/// The state after a construct that owns scope `index` has been parsed: its
/// scope is placed, with the caller's scope as parent, and the caller's
/// scope is active again.
pub open spec fn settle(
    st: ParseView,
    caller: usize,
    index: usize,
    pairs: Seq<(u32, BindingView)>,
) -> ParseView {
    ParseView {
        active: caller,
        contexts: placed(
            st.contexts,
            index as int,
            ContextView {
                parent: Some(caller),
                bindings: bound_in_turn(pairs, pairs.len()),
                in_progress: Set::empty(),
            },
        ),
        ..st
    }
}

/// The binding of a name that has nothing yet.
pub open spec fn unbound() -> BindingView {
    BindingView::Expr(ExprView::Null)
}

/// What closes a bracketed sequence at `pos`: the closing character, or a
/// comma, blanks around it, and the closing character.  Anything else ends
/// the parse.
pub open spec fn closing(input: Seq<char>, pos: int, close: char) -> Parsed<()> {
    let comma = skip(input, pos);
    if char_at(input, comma, ',') {
        let after = skip(input, comma + 1);
        if char_at(input, after, close) {
            Parsed::Done((), after + 1)
        } else {
            stop::<()>(after, want(Description::AnExpression)).noted(want_char(close))
        }
    } else if char_at(input, pos, close) {
        Parsed::Done((), pos + 1)
    } else {
        stop::<()>(pos, want_char(',')).noted(want_char(close))
    }
}

/// An expression: blanks, the first that fits of an iteration, an infix
/// expression or operand, `null`, a mapping, a list and a conditional, and
/// blanks.
pub closed spec fn expression(input: Seq<char>, pos: int, st: ParseView) -> (
    Parsed<ExprView>,
    ParseView,
)
    decreases input.len() - pos, 17nat,
{
    expression_rule(input, pos, st)
}

/// What [`expression`] is.
pub open spec fn expression_rule(input: Seq<char>, pos: int, st: ParseView) -> (
    Parsed<ExprView>,
    ParseView,
)
    decreases input.len() - pos, 16nat,
{
    if pos < 0 || pos > input.len() {
        (miss(pos), st)
    } else {
        let start = skip(input, pos);
        let (r1, st1) = for_each(input, start, st);
        let (r, st_end) = if !r1.missed() {
            (r1, st1)
        } else {
            let (r2, st2) = infix(input, start, st1);
            if !r2.missed() {
                (r2, st2)
            } else {
                let r3 = null_literal(input, start);
                if !r3.missed() {
                    (r3, st2)
                } else {
                    let (r4, st4) = mapping(input, start, st2);
                    if !r4.missed() {
                        (r4, st4)
                    } else {
                        let (r5, st5) = list(input, start, st4);
                        if !r5.missed() {
                            (r5, st5)
                        } else {
                            let (r6, st6) = if_else(input, start, st5);
                            if !r6.missed() {
                                (r6, st6)
                            } else {
                                (
                                    miss::<ExprView>(start).noted(
                                        Context::Label(Label::Expression),
                                    ).noted(want(Description::AValidExpression)),
                                    st6,
                                )
                            }
                        }
                    }
                }
            }
        };
        match r {
            Parsed::Done(e, end) => (Parsed::Done(e, skip(input, held(input, end, start))), st_end),
            failed => (failed, st_end),
        }
    }
}

/// [`expression`] is what [`expression_rule`] says.
pub proof fn lemma_expression(input: Seq<char>, pos: int, st: ParseView)
    ensures
        expression(input, pos, st) == expression_rule(input, pos, st),
{
}

/// An expression that must be there: its absence ends the parse.
pub closed spec fn required(input: Seq<char>, pos: int, st: ParseView) -> (
    Parsed<ExprView>,
    ParseView,
)
    decreases input.len() - pos, 19nat,
{
    required_rule(input, pos, st)
}

/// What [`required`] is.
pub open spec fn required_rule(input: Seq<char>, pos: int, st: ParseView) -> (
    Parsed<ExprView>,
    ParseView,
)
    decreases input.len() - pos, 18nat,
{
    let (r, st1) = expression(input, pos, st);
    if r.missed() {
        (stop(pos, want(Description::AnExpression)), st1)
    } else {
        (r, st1)
    }
}

/// [`required`] is what [`required_rule`] says.
pub proof fn lemma_required(input: Seq<char>, pos: int, st: ParseView)
    ensures
        required(input, pos, st) == required_rule(input, pos, st),
{
}

/// An iteration: `base > (index, item): body`.  After the `>` everything
/// is owed.
pub closed spec fn for_each(input: Seq<char>, pos: int, st: ParseView) -> (Parsed<ExprView>, ParseView)
    decreases input.len() - pos, 5nat,
{
    for_each_rule(input, pos, st)
}

/// What [`for_each`] is.
pub open spec fn for_each_rule(input: Seq<char>, pos: int, st: ParseView) -> (Parsed<ExprView>, ParseView)
    decreases input.len() - pos, 4nat,
{
    if pos < 0 || pos > input.len() {
        (miss(pos), st)
    } else if st.avail == usize::MAX {
        (miss(pos), st)
    } else {
        let caller = st.active;
        let index = st.avail;
        let (r, st1) = for_each_body(input, pos, reserve(st));
        match r {
            Parsed::Done((base, key, item, body), end) => (
                Parsed::Done(ExprView::ForEach { base, ctx_idx: index, body: Box::new(body) }, end),
                settle(st1, caller, index, seq![(key, unbound()), (item, unbound())]),
            ),
            Parsed::Failed(f) => (Parsed::Failed(f), give_back(st1, caller)),
        }
    }
}

/// [`for_each`] is what [`for_each_rule`] says.
pub proof fn lemma_for_each(input: Seq<char>, pos: int, st: ParseView)
    ensures
        for_each(input, pos, st) == for_each_rule(input, pos, st),
{
}

/// The parts of an iteration: the base, the two loop variables and the
/// body.
pub closed spec fn for_each_body(input: Seq<char>, pos: int, st: ParseView) -> (
    Parsed<(u32, u32, u32, ExprView)>,
    ParseView,
)
    decreases input.len() - pos, 3nat,
{
    for_each_body_rule(input, pos, st)
}

/// What [`for_each_body`] is.
pub open spec fn for_each_body_rule(input: Seq<char>, pos: int, st: ParseView) -> (
    Parsed<(u32, u32, u32, ExprView)>,
    ParseView,
)
    decreases input.len() - pos, 2nat,
{
    let (base, st1) = name(input, pos, st);
    match base {
        Parsed::Failed(f) => (Parsed::Failed(f), st1),
        Parsed::Done(base, p) => {
            let arrow = skip(input, p);
            if !char_at(input, arrow, '>') {
                (miss(arrow), st1)
            } else {
                let open = skip(input, arrow + 1);
                if !char_at(input, open, '(') {
                    (stop(open, want_char('(')), st1)
                } else {
                    let first = skip(input, open + 1);
                    let (key, st2) = name(input, first, st1);
                    match key {
                        Parsed::Failed(f) => (
                            Parsed::<(u32, u32, u32, ExprView)>::Failed(f).committed().noted(
                                want(Description::IndexIdentifier),
                            ),
                            st2,
                        ),
                        Parsed::Done(key, n2) => {
                            let comma = skip(input, n2);
                            if !char_at(input, comma, ',') {
                                (stop(comma, want_char(',')), st2)
                            } else {
                                let second = skip(input, comma + 1);
                                let (item, st3) = name(input, second, st2);
                                match item {
                                    Parsed::Failed(f) => (
                                        Parsed::<(u32, u32, u32, ExprView)>::Failed(
                                            f,
                                        ).committed().noted(want(Description::ItemIdentifier)),
                                        st3,
                                    ),
                                    Parsed::Done(item, n3) => {
                                        let close = skip(input, n3);
                                        if !char_at(input, close, ')') {
                                            (stop(close, want_char(')')), st3)
                                        } else {
                                            let colon = skip(input, close + 1);
                                            if !char_at(input, colon, ':') {
                                                (stop(colon, want_char(':')), st3)
                                            } else {
                                                let at = held(
                                                    input,
                                                    skip(input, colon + 1),
                                                    pos + 1,
                                                );
                                                let (body, st4) = required(input, at, st3);
                                                match body {
                                                    Parsed::Done(body, end) => (
                                                        Parsed::Done((base, key, item, body), end),
                                                        st4,
                                                    ),
                                                    Parsed::Failed(f) => (Parsed::Failed(f), st4),
                                                }
                                            }
                                        }
                                    },
                                }
                            }
                        },
                    }
                }
            }
        },
    }
}

/// [`for_each_body`] is what [`for_each_body_rule`] says.
pub proof fn lemma_for_each_body(input: Seq<char>, pos: int, st: ParseView)
    ensures
        for_each_body(input, pos, st) == for_each_body_rule(input, pos, st),
{
}

/// An infix expression: an operand, and optionally an operator and another
/// infix expression, which is then owed; or a parenthesized operation.
pub closed spec fn infix(input: Seq<char>, pos: int, st: ParseView) -> (Parsed<ExprView>, ParseView)
    decreases input.len() - pos, 15nat,
{
    infix_rule(input, pos, st)
}

/// What [`infix`] is.
pub open spec fn infix_rule(input: Seq<char>, pos: int, st: ParseView) -> (Parsed<ExprView>, ParseView)
    decreases input.len() - pos, 14nat,
{
    if pos < 0 || pos >= input.len() {
        operand(input, pos, st)
    } else {
        let (lhs, st1) = operand(input, pos, st);
        match lhs {
            Parsed::Done(lhs, p) => {
                let p = held(input, p, pos);
                match operator(input, skip(input, p)) {
                    Parsed::Done(op, q) => {
                        let at = skip(input, held(input, q, pos + 1));
                        let (rhs, st2) = infix(input, at, st1);
                        match rhs {
                            Parsed::Done(rhs, end) => (
                                Parsed::Done(
                                    ExprView::Infix {
                                        lhs: Box::new(lhs),
                                        op,
                                        rhs: Box::new(rhs),
                                        parenthesized: false,
                                    },
                                    end,
                                ),
                                st2,
                            ),
                            failed => (
                                failed.committed().noted(want(Description::Operand)).noted(
                                    Context::Label(Label::InfixExpression),
                                ),
                                st2,
                            ),
                        }
                    },
                    Parsed::Failed(_) => (Parsed::Done(lhs, p), st1),
                }
            },
            Parsed::Failed(f) => if f.cut {
                (Parsed::Failed(f), st1)
            } else {
                parenthesized(input, pos, st1)
            },
        }
    }
}

/// [`infix`] is what [`infix_rule`] says.
pub proof fn lemma_infix(input: Seq<char>, pos: int, st: ParseView)
    ensures
        infix(input, pos, st) == infix_rule(input, pos, st),
{
}

/// An operand: the first that fits of a string, a number, an index
/// expression, a call, a name, a boolean, a block, a prefix operation and a
/// parenthesized operation.
pub closed spec fn operand(input: Seq<char>, pos: int, st: ParseView) -> (Parsed<ExprView>, ParseView)
    decreases input.len() - pos, 13nat,
{
    operand_rule(input, pos, st)
}

/// What [`operand`] is.
pub open spec fn operand_rule(input: Seq<char>, pos: int, st: ParseView) -> (Parsed<ExprView>, ParseView)
    decreases input.len() - pos, 12nat,
{
    if pos < 0 || pos > input.len() {
        (miss(pos), st)
    } else {
        let r1 = string_literal(input, pos);
        if !r1.missed() {
            (r1, st)
        } else {
            let r2 = number(input, pos);
            if !r2.missed() {
                (r2, st)
            } else {
                named_operand(input, pos, st)
            }
        }
    }
}

/// [`operand`] is what [`operand_rule`] says.
pub proof fn lemma_operand(input: Seq<char>, pos: int, st: ParseView)
    ensures
        operand(input, pos, st) == operand_rule(input, pos, st),
{
}

/// An operand that starts with a name: the first that fits of an index
/// expression, a call and a name; or one of the operands that follow.
pub closed spec fn named_operand(input: Seq<char>, pos: int, st: ParseView) -> (
    Parsed<ExprView>,
    ParseView,
)
    decreases input.len() - pos, 11nat,
{
    named_operand_rule(input, pos, st)
}

/// What [`named_operand`] is.
pub open spec fn named_operand_rule(input: Seq<char>, pos: int, st: ParseView) -> (
    Parsed<ExprView>,
    ParseView,
)
    decreases input.len() - pos, 10nat,
{
    let (r3, st3) = index(input, pos, st);
    if !r3.missed() {
        (r3, st3)
    } else {
        let (r4, st4) = call(input, pos, st3);
        if !r4.missed() {
            (r4, st4)
        } else {
            let (r5, st5) = name(input, pos, st4);
            match r5 {
                Parsed::Done(symbol, end) => (Parsed::Done(ExprView::Ident(symbol), end), st5),
                Parsed::Failed(f) => if f.cut {
                    (Parsed::Failed(f), st5)
                } else {
                    other_operand(input, pos, st5)
                },
            }
        }
    }
}

/// [`named_operand`] is what [`named_operand_rule`] says.
pub proof fn lemma_named_operand(input: Seq<char>, pos: int, st: ParseView)
    ensures
        named_operand(input, pos, st) == named_operand_rule(input, pos, st),
{
}

/// The operands that are tried last: a boolean, a block, a prefix
/// operation and a parenthesized operation.
pub closed spec fn other_operand(input: Seq<char>, pos: int, st: ParseView) -> (
    Parsed<ExprView>,
    ParseView,
)
    decreases input.len() - pos, 9nat,
{
    other_operand_rule(input, pos, st)
}

/// What [`other_operand`] is.
pub open spec fn other_operand_rule(input: Seq<char>, pos: int, st: ParseView) -> (
    Parsed<ExprView>,
    ParseView,
)
    decreases input.len() - pos, 8nat,
{
    let r6 = boolean(input, pos);
    if !r6.missed() {
        (r6, st)
    } else {
        let (r7, st7) = block(input, pos, st);
        if !r7.missed() {
            (r7, st7)
        } else {
            let (r8, st8) = prefix_operation(input, pos, st7);
            if !r8.missed() {
                (r8, st8)
            } else {
                parenthesized(input, pos, st8)
            }
        }
    }
}

/// [`other_operand`] is what [`other_operand_rule`] says.
pub proof fn lemma_other_operand(input: Seq<char>, pos: int, st: ParseView)
    ensures
        other_operand(input, pos, st) == other_operand_rule(input, pos, st),
{
}

/// A parenthesized operation: `(`, an operand, an operator, an infix
/// expression, `)`.  After the `(` everything but the `)` is owed.
pub closed spec fn parenthesized(input: Seq<char>, pos: int, st: ParseView) -> (
    Parsed<ExprView>,
    ParseView,
)
    decreases input.len() - pos, 7nat,
{
    parenthesized_rule(input, pos, st)
}

/// What [`parenthesized`] is.
pub open spec fn parenthesized_rule(input: Seq<char>, pos: int, st: ParseView) -> (
    Parsed<ExprView>,
    ParseView,
)
    decreases input.len() - pos, 6nat,
{
    if pos < 0 || pos >= input.len() || input[pos] != '(' {
        (miss::<ExprView>(pos).noted(Context::Label(Label::InfixExpression)), st)
    } else {
        let (lhs, st1) = operand(input, pos + 1, st);
        match lhs {
            Parsed::Failed(f) => (
                Parsed::<ExprView>::Failed(f).committed().noted(want(Description::Operand)).noted(
                    Context::Label(Label::InfixExpression),
                ),
                st1,
            ),
            Parsed::Done(lhs, p) => {
                let p = held(input, p, pos + 1);
                match operator(input, skip(input, p)) {
                    Parsed::Failed(f) => (
                        Parsed::<ExprView>::Failed(f).committed().noted(
                            Context::Label(Label::InfixExpression),
                        ),
                        st1,
                    ),
                    Parsed::Done(op, q) => {
                        let at = skip(input, q);
                        let (rhs, st2) = infix(input, at, st1);
                        match rhs {
                            Parsed::Failed(f) => (
                                Parsed::<ExprView>::Failed(f).committed().noted(
                                    want(Description::Operand),
                                ).noted(Context::Label(Label::InfixExpression)),
                                st2,
                            ),
                            Parsed::Done(rhs, end) => if char_at(input, end, ')') {
                                (
                                    Parsed::Done(
                                        ExprView::Infix {
                                            lhs: Box::new(lhs),
                                            op,
                                            rhs: Box::new(rhs),
                                            parenthesized: true,
                                        },
                                        end + 1,
                                    ),
                                    st2,
                                )
                            } else {
                                (
                                    miss::<ExprView>(end).noted(
                                        Context::Label(Label::InfixExpression),
                                    ),
                                    st2,
                                )
                            },
                        }
                    },
                }
            },
        }
    }
}

/// [`parenthesized`] is what [`parenthesized_rule`] says.
pub proof fn lemma_parenthesized(input: Seq<char>, pos: int, st: ParseView)
    ensures
        parenthesized(input, pos, st) == parenthesized_rule(input, pos, st),
{
}

/// A prefix operation: blanks, `-` or `!`, blanks, and an expression, which
/// is owed.
pub closed spec fn prefix_operation(input: Seq<char>, pos: int, st: ParseView) -> (
    Parsed<ExprView>,
    ParseView,
)
    decreases input.len() - pos, 5nat,
{
    prefix_operation_rule(input, pos, st)
}

/// What [`prefix_operation`] is.
pub open spec fn prefix_operation_rule(input: Seq<char>, pos: int, st: ParseView) -> (
    Parsed<ExprView>,
    ParseView,
)
    decreases input.len() - pos, 4nat,
{
    let sign = skip(input, pos);
    if pos < 0 || pos > input.len() || !(char_at(input, sign, '-') || char_at(input, sign, '!')) {
        (miss::<ExprView>(sign).noted(Context::Label(Label::PrefixOperation)), st)
    } else {
        let unary = if input[sign] == '-' {
            prefix::Op::Negate
        } else {
            prefix::Op::Not
        };
        let at = skip(input, sign + 1);
        let (r, st1) = required(input, at, st);
        match r {
            Parsed::Done(e, end) => (
                Parsed::Done(ExprView::Prefix { unary, operand: Box::new(e) }, end),
                st1,
            ),
            failed => (failed.noted(Context::Label(Label::PrefixOperation)), st1),
        }
    }
}

/// [`prefix_operation`] is what [`prefix_operation_rule`] says.
pub proof fn lemma_prefix_operation(input: Seq<char>, pos: int, st: ParseView)
    ensures
        prefix_operation(input, pos, st) == prefix_operation_rule(input, pos, st),
{
}

/// A conditional: `?`, a condition, `:`, an expression, `|`, an expression.
/// After the `?` everything is owed.
pub closed spec fn if_else(input: Seq<char>, pos: int, st: ParseView) -> (Parsed<ExprView>, ParseView)
    decreases input.len() - pos, 5nat,
{
    if_else_rule(input, pos, st)
}

/// What [`if_else`] is.
pub open spec fn if_else_rule(input: Seq<char>, pos: int, st: ParseView) -> (Parsed<ExprView>, ParseView)
    decreases input.len() - pos, 4nat,
{
    let note = Context::Label(Label::ConditionalExpression);
    if pos < 0 || pos >= input.len() || input[pos] != '?' {
        (miss::<ExprView>(pos).noted(note), st)
    } else {
        let (condition, st1) = required(input, pos + 1, st);
        match condition {
            Parsed::Failed(f) => (Parsed::<ExprView>::Failed(f).noted(note), st1),
            Parsed::Done(condition, n1) => if !char_at(input, n1, ':') || n1 <= pos {
                (stop::<ExprView>(n1, want_char(':')).noted(note), st1)
            } else {
                let (then, st2) = required(input, n1 + 1, st1);
                match then {
                    Parsed::Failed(f) => (Parsed::<ExprView>::Failed(f).noted(note), st2),
                    Parsed::Done(then, n2) => if !char_at(input, n2, '|') || n2 <= pos {
                        (stop::<ExprView>(n2, want_char('|')).noted(note), st2)
                    } else {
                        let (otherwise, st3) = required(input, n2 + 1, st2);
                        match otherwise {
                            Parsed::Failed(f) => (Parsed::<ExprView>::Failed(f).noted(note), st3),
                            Parsed::Done(otherwise, end) => (
                                Parsed::Done(
                                    ExprView::IfElse {
                                        condition: Box::new(condition),
                                        then: Box::new(then),
                                        otherwise: Box::new(otherwise),
                                    },
                                    end,
                                ),
                                st3,
                            ),
                        }
                    },
                }
            },
        }
    }
}

/// [`if_else`] is what [`if_else_rule`] says.
pub proof fn lemma_if_else(input: Seq<char>, pos: int, st: ParseView)
    ensures
        if_else(input, pos, st) == if_else_rule(input, pos, st),
{
}

/// More items of a sequence of expressions separated by commas: as long as
/// a comma and an expression follow, the expression is taken.  Only a
/// failure that ends the parse is a failure here.
pub closed spec fn more_items(input: Seq<char>, pos: int, st: ParseView, items: Seq<ExprView>) -> (
    Parsed<Seq<ExprView>>,
    ParseView,
)
    decreases input.len() - pos, 21nat,
{
    more_items_rule(input, pos, st, items)
}

/// What [`more_items`] is.
pub open spec fn more_items_rule(input: Seq<char>, pos: int, st: ParseView, items: Seq<ExprView>) -> (
    Parsed<Seq<ExprView>>,
    ParseView,
)
    decreases input.len() - pos, 20nat,
{
    let comma = skip(input, pos);
    if pos < 0 || pos > input.len() || !char_at(input, comma, ',') {
        (Parsed::Done(items, pos), st)
    } else {
        let at = skip(input, comma + 1);
        let (r, st1) = expression(input, at, st);
        match r {
            Parsed::Done(e, end) => more_items(input, held(input, end, at), st1, items.push(e)),
            Parsed::Failed(f) => if f.cut {
                (Parsed::Failed(f), st1)
            } else {
                (Parsed::Done(items, pos), st1)
            },
        }
    }
}

/// [`more_items`] is what [`more_items_rule`] says.
pub proof fn lemma_more_items(input: Seq<char>, pos: int, st: ParseView, items: Seq<ExprView>)
    ensures
        more_items(input, pos, st, items) == more_items_rule(input, pos, st, items),
{
}

/// A list: `[`, expressions separated by commas, and what closes it.
pub closed spec fn list(input: Seq<char>, pos: int, st: ParseView) -> (Parsed<ExprView>, ParseView)
    decreases input.len() - pos, 5nat,
{
    list_rule(input, pos, st)
}

/// What [`list`] is.
pub open spec fn list_rule(input: Seq<char>, pos: int, st: ParseView) -> (Parsed<ExprView>, ParseView)
    decreases input.len() - pos, 4nat,
{
    let note = Context::Label(Label::List);
    if pos < 0 || pos >= input.len() || input[pos] != '[' {
        (miss::<ExprView>(pos).noted(note), st)
    } else {
        let first = skip(input, pos + 1);
        let (head, st1) = expression(input, first, st);
        let (items, st2) = match head {
            Parsed::Done(e, end) => more_items(input, held(input, end, first), st1, seq![e]),
            Parsed::Failed(f) => if f.cut {
                (Parsed::Failed(f), st1)
            } else {
                (Parsed::Done(Seq::empty(), first), st1)
            },
        };
        match items {
            Parsed::Failed(f) => (Parsed::<ExprView>::Failed(f).noted(note), st2),
            Parsed::Done(items, end) => match closing(input, skip(input, end), ']') {
                Parsed::Done(_, after) => (Parsed::Done(ExprView::List(items), after), st2),
                Parsed::Failed(f) => (Parsed::<ExprView>::Failed(f).noted(note), st2),
            },
        }
    }
}

/// [`list`] is what [`list_rule`] says.
pub proof fn lemma_list(input: Seq<char>, pos: int, st: ParseView)
    ensures
        list(input, pos, st) == list_rule(input, pos, st),
{
}

/// An entry of a mapping: a key of plain characters between quotes, `:`,
/// and an expression, which is owed.
pub closed spec fn entry(input: Seq<char>, pos: int, st: ParseView) -> (
    Parsed<(Seq<char>, ExprView)>,
    ParseView,
)
    decreases input.len() - pos, 23nat,
{
    entry_rule(input, pos, st)
}

/// What [`entry`] is.
pub open spec fn entry_rule(input: Seq<char>, pos: int, st: ParseView) -> (
    Parsed<(Seq<char>, ExprView)>,
    ParseView,
)
    decreases input.len() - pos, 22nat,
{
    let key_end = held(input, run_end(input, pos + 1, Class::Plain), pos + 1);
    if pos < 0 || pos >= input.len() || input[pos] != '"' {
        (miss(pos), st)
    } else if key_end <= pos + 1 {
        (miss(pos + 1), st)
    } else if !char_at(input, key_end, '"') {
        (miss(key_end), st)
    } else {
        let colon = skip(input, key_end + 1);
        if !char_at(input, colon, ':') {
            (miss(colon), st)
        } else {
            let at = skip(input, colon + 1);
            let (r, st1) = required(input, at, st);
            match r {
                Parsed::Done(e, end) => (
                    Parsed::Done((input.subrange(pos + 1, key_end), e), end),
                    st1,
                ),
                Parsed::Failed(f) => (Parsed::Failed(f), st1),
            }
        }
    }
}

/// [`entry`] is what [`entry_rule`] says.
pub proof fn lemma_entry(input: Seq<char>, pos: int, st: ParseView)
    ensures
        entry(input, pos, st) == entry_rule(input, pos, st),
{
}

/// More entries of a mapping, separated by commas.  A key that comes again
/// replaces the earlier entry.
pub closed spec fn more_entries(
    input: Seq<char>,
    pos: int,
    st: ParseView,
    entries: Seq<(Seq<char>, ExprView)>,
) -> (Parsed<Seq<(Seq<char>, ExprView)>>, ParseView)
    decreases input.len() - pos, 25nat,
{
    more_entries_rule(input, pos, st, entries)
}

/// What [`more_entries`] is.
pub open spec fn more_entries_rule(
    input: Seq<char>,
    pos: int,
    st: ParseView,
    entries: Seq<(Seq<char>, ExprView)>,
) -> (Parsed<Seq<(Seq<char>, ExprView)>>, ParseView)
    decreases input.len() - pos, 24nat,
{
    let comma = skip(input, pos);
    if pos < 0 || pos > input.len() || !char_at(input, comma, ',') {
        (Parsed::Done(entries, pos), st)
    } else {
        let at = skip(input, comma + 1);
        let (r, st1) = entry(input, at, st);
        match r {
            Parsed::Done((key, e), end) => more_entries(
                input,
                held(input, end, at),
                st1,
                with_entry(entries, key, e),
            ),
            Parsed::Failed(f) => if f.cut {
                (Parsed::Failed(f), st1)
            } else {
                (Parsed::Done(entries, pos), st1)
            },
        }
    }
}

/// [`more_entries`] is what [`more_entries_rule`] says.
pub proof fn lemma_more_entries(
    input: Seq<char>,
    pos: int,
    st: ParseView,
    entries: Seq<(Seq<char>, ExprView)>,
)
    ensures
        more_entries(input, pos, st, entries) == more_entries_rule(input, pos, st, entries),
{
}

/// A mapping: `[`, one or more entries separated by commas, and what closes
/// it.  The entries are kept in the order of their keys.
pub closed spec fn mapping(input: Seq<char>, pos: int, st: ParseView) -> (Parsed<ExprView>, ParseView)
    decreases input.len() - pos, 5nat,
{
    mapping_rule(input, pos, st)
}

/// What [`mapping`] is.
pub open spec fn mapping_rule(input: Seq<char>, pos: int, st: ParseView) -> (Parsed<ExprView>, ParseView)
    decreases input.len() - pos, 4nat,
{
    let note = Context::Label(Label::Mapping);
    if pos < 0 || pos >= input.len() || input[pos] != '[' {
        (miss::<ExprView>(pos).noted(note), st)
    } else {
        let first = skip(input, pos + 1);
        let (head, st1) = entry(input, first, st);
        match head {
            Parsed::Failed(f) => (Parsed::<ExprView>::Failed(f).noted(note), st1),
            Parsed::Done((key, e), end) => {
                let (entries, st2) = more_entries(
                    input,
                    held(input, end, first),
                    st1,
                    seq![(key, e)],
                );
                match entries {
                    Parsed::Failed(f) => (Parsed::<ExprView>::Failed(f).noted(note), st2),
                    Parsed::Done(entries, end) => match closing(input, skip(input, end), ']') {
                        Parsed::Done(_, after) => (
                            Parsed::Done(ExprView::Mapping(entries), after),
                            st2,
                        ),
                        Parsed::Failed(f) => (Parsed::<ExprView>::Failed(f).noted(note), st2),
                    },
                }
            },
        }
    }
}

/// [`mapping`] is what [`mapping_rule`] says.
pub proof fn lemma_mapping(input: Seq<char>, pos: int, st: ParseView)
    ensures
        mapping(input, pos, st) == mapping_rule(input, pos, st),
{
}

/// What follows the first expression of a bracket: `]` for one element, or
/// `:`, optionally an expression, and `]` for a range.
pub closed spec fn bracket_rest(input: Seq<char>, pos: int, st: ParseView, start: ExprView, floor: int) -> (
    Parsed<IndexView>,
    ParseView,
)
    decreases input.len() - floor, 3nat,
{
    bracket_rest_rule(input, pos, st, start, floor)
}

/// What [`bracket_rest`] is.
pub open spec fn bracket_rest_rule(input: Seq<char>, pos: int, st: ParseView, start: ExprView, floor: int) -> (
    Parsed<IndexView>,
    ParseView,
)
    decreases input.len() - floor, 2nat,
{
    if pos < floor || pos > input.len() {
        (miss(pos), st)
    } else if char_at(input, pos, ':') {
        let at = skip(input, pos + 1);
        let (end, st1) = expression(input, at, st);
        match end {
            Parsed::Failed(f) => if f.cut {
                (Parsed::Failed(f), st1)
            } else {
                let close = skip(input, at);
                if char_at(input, close, ']') {
                    (Parsed::Done(IndexView::From(start), close + 1), st1)
                } else {
                    (stop::<IndexView>(close, want(Description::AnExpression)).noted(want_char(']')), st1)
                }
            },
            Parsed::Done(end, p) => {
                let close = skip(input, held(input, p, at));
                if char_at(input, close, ']') {
                    (Parsed::Done(IndexView::FromTo(start, end), close + 1), st1)
                } else {
                    (stop::<IndexView>(close, want(Description::AnExpression)).noted(want_char(']')), st1)
                }
            },
        }
    } else if char_at(input, pos, ']') {
        (Parsed::Done(IndexView::Single(start), pos + 1), st)
    } else {
        (stop::<IndexView>(pos, want_char(':')).noted(want_char(']')), st)
    }
}

/// [`bracket_rest`] is what [`bracket_rest_rule`] says.
pub proof fn lemma_bracket_rest(input: Seq<char>, pos: int, st: ParseView, start: ExprView, floor: int)
    ensures
        bracket_rest(input, pos, st, start, floor) == bracket_rest_rule(input, pos, st, start, floor),
{
}

/// One bracket of an index expression, from after its `[`: an expression
/// and what follows it, or `:` and an expression.  Everything is owed.
pub closed spec fn bracket(input: Seq<char>, pos: int, st: ParseView) -> (Parsed<IndexView>, ParseView)
    decreases input.len() - pos, 27nat,
{
    bracket_rule(input, pos, st)
}

/// What [`bracket`] is.
pub open spec fn bracket_rule(input: Seq<char>, pos: int, st: ParseView) -> (Parsed<IndexView>, ParseView)
    decreases input.len() - pos, 26nat,
{
    if pos < 0 || pos > input.len() {
        (miss(pos), st)
    } else {
        let (start, st1) = expression(input, pos, st);
        match start {
            Parsed::Done(start, p) => bracket_rest(input, held(input, p, pos), st1, start, pos),
            Parsed::Failed(f) => if f.cut {
                (Parsed::Failed(f), st1)
            } else if char_at(input, pos, ':') {
                let (end, st2) = required(input, pos + 1, st1);
                match end {
                    Parsed::Failed(f) => (Parsed::Failed(f), st2),
                    Parsed::Done(end, p) => if char_at(input, p, ']') {
                        (Parsed::Done(IndexView::To(end), p + 1), st2)
                    } else {
                        (stop(p, want_char(']')), st2)
                    },
                }
            } else {
                (
                    stop::<IndexView>(pos, want(Description::SomeExpression)).noted(want_char(':')),
                    st1,
                )
            },
        }
    }
}

/// [`bracket`] is what [`bracket_rule`] says.
pub proof fn lemma_bracket(input: Seq<char>, pos: int, st: ParseView)
    ensures
        bracket(input, pos, st) == bracket_rule(input, pos, st),
{
}

/// More brackets of an index expression: as long as a `[` follows, a
/// bracket is owed.
pub closed spec fn more_brackets(
    input: Seq<char>,
    pos: int,
    st: ParseView,
    indices: Seq<IndexView>,
) -> (Parsed<Seq<IndexView>>, ParseView)
    decreases input.len() - pos, 29nat,
{
    more_brackets_rule(input, pos, st, indices)
}

/// What [`more_brackets`] is.
pub open spec fn more_brackets_rule(
    input: Seq<char>,
    pos: int,
    st: ParseView,
    indices: Seq<IndexView>,
) -> (Parsed<Seq<IndexView>>, ParseView)
    decreases input.len() - pos, 28nat,
{
    if pos < 0 || pos >= input.len() || input[pos] != '[' {
        (Parsed::Done(indices, pos), st)
    } else {
        let (r, st1) = bracket(input, pos + 1, st);
        match r {
            Parsed::Done(b, end) => more_brackets(
                input,
                held(input, end, pos + 1),
                st1,
                indices.push(b),
            ),
            Parsed::Failed(f) => (Parsed::Failed(f), st1),
        }
    }
}

/// [`more_brackets`] is what [`more_brackets_rule`] says.
pub proof fn lemma_more_brackets(
    input: Seq<char>,
    pos: int,
    st: ParseView,
    indices: Seq<IndexView>,
)
    ensures
        more_brackets(input, pos, st, indices) == more_brackets_rule(input, pos, st, indices),
{
}

/// An index expression: a name and one or more brackets.
pub closed spec fn index(input: Seq<char>, pos: int, st: ParseView) -> (Parsed<ExprView>, ParseView)
    decreases input.len() - pos, 5nat,
{
    index_rule(input, pos, st)
}

/// What [`index`] is.
pub open spec fn index_rule(input: Seq<char>, pos: int, st: ParseView) -> (Parsed<ExprView>, ParseView)
    decreases input.len() - pos, 4nat,
{
    let note = Context::Label(Label::IndexExpression);
    let (base, st1) = name(input, pos, st);
    match base {
        Parsed::Failed(f) => (Parsed::<ExprView>::Failed(f).noted(note), st1),
        Parsed::Done(base, p) => if p <= pos || !char_at(input, p, '[') {
            (miss::<ExprView>(p).noted(note), st1)
        } else {
            let (indices, st2) = more_brackets(input, p, st1, Seq::empty());
            match indices {
                Parsed::Done(indices, end) => (
                    Parsed::Done(ExprView::Index { base, indices }, end),
                    st2,
                ),
                Parsed::Failed(f) => (Parsed::<ExprView>::Failed(f).noted(note), st2),
            }
        },
    }
}

/// [`index`] is what [`index_rule`] says.
pub proof fn lemma_index(input: Seq<char>, pos: int, st: ParseView)
    ensures
        index(input, pos, st) == index_rule(input, pos, st),
{
}

/// A call: a name with blanks around it, `(`, one or more expressions
/// separated by commas, and what closes it.  After the `(` everything is
/// owed.
pub closed spec fn call(input: Seq<char>, pos: int, st: ParseView) -> (Parsed<ExprView>, ParseView)
    decreases input.len() - pos, 5nat,
{
    call_rule(input, pos, st)
}

/// What [`call`] is.
pub open spec fn call_rule(input: Seq<char>, pos: int, st: ParseView) -> (Parsed<ExprView>, ParseView)
    decreases input.len() - pos, 4nat,
{
    let note = Context::Label(Label::FunctionCall);
    let (callee, st1) = if pos < 0 || pos > input.len() {
        (miss(pos), st)
    } else {
        name(input, skip(input, pos), st)
    };
    match callee {
        Parsed::Failed(f) => (Parsed::<ExprView>::Failed(f).noted(note), st1),
        Parsed::Done(callee, p) => {
            let open = skip(input, p);
            if !char_at(input, open, '(') {
                (miss::<ExprView>(open).noted(note), st1)
            } else {
                let first = skip(input, open + 1);
                let (head, st2) = expression(input, first, st1);
                match head {
                    Parsed::Failed(f) => if f.cut {
                        (Parsed::<ExprView>::Failed(f).noted(note), st2)
                    } else {
                        (
                            stop::<ExprView>(open + 1, want(Description::OneOrMoreArguments)).noted(
                                note,
                            ),
                            st2,
                        )
                    },
                    Parsed::Done(e, end) => {
                        let (args, st3) = more_items(input, held(input, end, first), st2, seq![e]);
                        match args {
                            Parsed::Failed(f) => (Parsed::<ExprView>::Failed(f).noted(note), st3),
                            Parsed::Done(args, end) => match closing(
                                input,
                                skip(input, end),
                                ')',
                            ) {
                                Parsed::Done(_, after) => (
                                    Parsed::Done(ExprView::Call { name: callee, args }, after),
                                    st3,
                                ),
                                Parsed::Failed(f) => (
                                    Parsed::<ExprView>::Failed(f).noted(note),
                                    st3,
                                ),
                            },
                        }
                    },
                }
            }
        },
    }
}

/// [`call`] is what [`call_rule`] says.
pub proof fn lemma_call(input: Seq<char>, pos: int, st: ParseView)
    ensures
        call(input, pos, st) == call_rule(input, pos, st),
{
}

/// More names separated by commas, as parameters.
pub closed spec fn more_names(input: Seq<char>, pos: int, st: ParseView, names: Seq<u32>) -> (
    Parsed<Seq<u32>>,
    ParseView,
)
    decreases input.len() - pos, 1nat,
{
    more_names_rule(input, pos, st, names)
}

/// What [`more_names`] is.
pub open spec fn more_names_rule(input: Seq<char>, pos: int, st: ParseView, names: Seq<u32>) -> (
    Parsed<Seq<u32>>,
    ParseView,
)
    decreases input.len() - pos, 0nat,
{
    let comma = skip(input, pos);
    if pos < 0 || pos > input.len() || !char_at(input, comma, ',') {
        (Parsed::Done(names, pos), st)
    } else {
        let (r, st1) = name(input, skip(input, comma + 1), st);
        match r {
            Parsed::Done(symbol, end) => if end <= pos {
                (Parsed::Done(names, pos), st1)
            } else {
                more_names(input, end, st1, names.push(symbol))
            },
            Parsed::Failed(f) => if f.cut {
                (Parsed::Failed(f), st1)
            } else {
                (Parsed::Done(names, pos), st1)
            },
        }
    }
}

/// [`more_names`] is what [`more_names_rule`] says.
pub proof fn lemma_more_names(input: Seq<char>, pos: int, st: ParseView, names: Seq<u32>)
    ensures
        more_names(input, pos, st, names) == more_names_rule(input, pos, st, names),
{
}

/// The parameters as the pairs that their scope is made of.
pub open spec fn parameter_pairs(names: Seq<u32>) -> Seq<(u32, BindingView)> {
    Seq::new(names.len(), |i: int| (names[i], unbound()))
}

/// What closes the parameters at `pos`: `|`; a comma there owes a `]`.
pub open spec fn parameters_end(input: Seq<char>, pos: int) -> Parsed<()> {
    let comma = skip(input, pos);
    if char_at(input, comma, ',') {
        let after = skip(input, comma + 1);
        if char_at(input, after, ']') {
            Parsed::Done((), after + 1)
        } else {
            stop::<()>(after, want(Description::AnExpression)).noted(want_char(']'))
        }
    } else if char_at(input, pos, '|') {
        Parsed::Done((), pos + 1)
    } else {
        stop::<()>(pos, want_char(',')).noted(want_char('|'))
    }
}

/// The parts of a function: the parameters and the body.
pub closed spec fn function_body(input: Seq<char>, pos: int, st: ParseView) -> (
    Parsed<(Seq<u32>, ExprView)>,
    ParseView,
)
    decreases input.len() - pos, 3nat,
{
    function_body_rule(input, pos, st)
}

/// What [`function_body`] is.
pub open spec fn function_body_rule(input: Seq<char>, pos: int, st: ParseView) -> (
    Parsed<(Seq<u32>, ExprView)>,
    ParseView,
)
    decreases input.len() - pos, 2nat,
{
    let note = Context::Label(Label::FunctionDeclaration);
    if pos < 0 || pos >= input.len() || input[pos] != '|' {
        (miss::<(Seq<u32>, ExprView)>(pos).noted(note), st)
    } else {
        let (head, st1) = name(input, skip(input, pos + 1), st);
        match head {
            Parsed::Failed(f) => if f.cut {
                (Parsed::<(Seq<u32>, ExprView)>::Failed(f).noted(note), st1)
            } else {
                (
                    stop::<(Seq<u32>, ExprView)>(
                        pos + 1,
                        want(Description::OneOrMoreParameters),
                    ).noted(note),
                    st1,
                )
            },
            Parsed::Done(symbol, p) => {
                let (names, st2) = more_names(input, p, st1, seq![symbol]);
                match names {
                    Parsed::Failed(f) => (
                        Parsed::<(Seq<u32>, ExprView)>::Failed(f).noted(note),
                        st2,
                    ),
                    Parsed::Done(names, n2) => match parameters_end(
                        input,
                        skip(input, held(input, n2, pos + 1)),
                    ) {
                        Parsed::Failed(f) => (
                            Parsed::<(Seq<u32>, ExprView)>::Failed(f).noted(note),
                            st2,
                        ),
                        Parsed::Done(_, n3) => {
                            let (body, st3) = required(input, held(input, n3, pos + 1), st2);
                            match body {
                                Parsed::Done(body, end) => (Parsed::Done((names, body), end), st3),
                                Parsed::Failed(f) => (
                                    Parsed::<(Seq<u32>, ExprView)>::Failed(f).noted(note),
                                    st3,
                                ),
                            }
                        },
                    },
                }
            },
        }
    }
}

/// [`function_body`] is what [`function_body_rule`] says.
pub proof fn lemma_function_body(input: Seq<char>, pos: int, st: ParseView)
    ensures
        function_body(input, pos, st) == function_body_rule(input, pos, st),
{
}

/// A function: `|`, one or more parameters separated by commas, `|`, and a
/// body, which is owed.
pub closed spec fn function(input: Seq<char>, pos: int, st: ParseView) -> (Parsed<ExprView>, ParseView)
    decreases input.len() - pos, 5nat,
{
    function_rule(input, pos, st)
}

/// What [`function`] is.
pub open spec fn function_rule(input: Seq<char>, pos: int, st: ParseView) -> (Parsed<ExprView>, ParseView)
    decreases input.len() - pos, 4nat,
{
    if pos < 0 || pos > input.len() {
        (miss(pos), st)
    } else if st.avail == usize::MAX {
        (miss(pos), st)
    } else {
        let caller = st.active;
        let index = st.avail;
        let (r, st1) = function_body(input, pos, reserve(st));
        match r {
            Parsed::Done((names, body), end) => (
                Parsed::Done(ExprView::Defined { ctx_idx: index, body: Box::new(body) }, end),
                settle(st1, caller, index, parameter_pairs(names)),
            ),
            Parsed::Failed(f) => (Parsed::Failed(f), give_back(st1, caller)),
        }
    }
}

/// [`function`] is what [`function_rule`] says.
pub proof fn lemma_function(input: Seq<char>, pos: int, st: ParseView)
    ensures
        function(input, pos, st) == function_rule(input, pos, st),
{
}

/// One assignment of a block: a name, `=`, an expression or a function,
/// which is owed, and `;`, which is owed too.
pub closed spec fn assignment(input: Seq<char>, pos: int, st: ParseView) -> (
    Parsed<(u32, ExprView)>,
    ParseView,
)
    decreases input.len() - pos, 23nat,
{
    assignment_rule(input, pos, st)
}

/// What [`assignment`] is.
pub open spec fn assignment_rule(input: Seq<char>, pos: int, st: ParseView) -> (
    Parsed<(u32, ExprView)>,
    ParseView,
)
    decreases input.len() - pos, 22nat,
{
    let (target, st1) = if pos < 0 || pos > input.len() {
        (miss(pos), st)
    } else {
        name(input, skip(input, pos), st)
    };
    match target {
        Parsed::Failed(f) => (Parsed::Failed(f), st1),
        Parsed::Done(target, p) => {
            let equals = skip(input, p);
            if !char_at(input, equals, '=') {
                (miss(equals), st1)
            } else {
                let value_at = skip(input, equals + 1);
                let (first, st2) = expression(input, value_at, st1);
                let (value, st3) = if !first.missed() {
                    (first, st2)
                } else {
                    let (second, st3) = function(input, value_at, st2);
                    if !second.missed() {
                        (second, st3)
                    } else {
                        (stop(value_at, want(Description::AnExpression)), st3)
                    }
                };
                match value {
                    Parsed::Failed(f) => (Parsed::Failed(f), st3),
                    Parsed::Done(value, end) => if char_at(input, end, ';') {
                        (Parsed::Done((target, value), skip(input, end + 1)), st3)
                    } else {
                        (stop(end, want_char(';')), st3)
                    },
                }
            }
        },
    }
}

/// [`assignment`] is what [`assignment_rule`] says.
pub proof fn lemma_assignment(input: Seq<char>, pos: int, st: ParseView)
    ensures
        assignment(input, pos, st) == assignment_rule(input, pos, st),
{
}

/// More assignments of a block: they are taken as long as they fit.
pub closed spec fn more_assignments(
    input: Seq<char>,
    pos: int,
    st: ParseView,
    pairs: Seq<(u32, BindingView)>,
) -> (Parsed<Seq<(u32, BindingView)>>, ParseView)
    decreases input.len() - pos, 25nat,
{
    more_assignments_rule(input, pos, st, pairs)
}

/// What [`more_assignments`] is.
pub open spec fn more_assignments_rule(
    input: Seq<char>,
    pos: int,
    st: ParseView,
    pairs: Seq<(u32, BindingView)>,
) -> (Parsed<Seq<(u32, BindingView)>>, ParseView)
    decreases input.len() - pos, 24nat,
{
    if pos < 0 || pos > input.len() {
        (Parsed::Done(pairs, pos), st)
    } else {
        let (r, st1) = assignment(input, pos, st);
        match r {
            Parsed::Done((target, value), end) => if end <= pos || end > input.len() {
                (Parsed::Done(pairs, pos), st1)
            } else {
                more_assignments(input, end, st1, pairs.push((target, BindingView::Expr(value))))
            },
            Parsed::Failed(f) => if f.cut {
                (Parsed::Failed(f), st1)
            } else {
                (Parsed::Done(pairs, pos), st1)
            },
        }
    }
}

/// [`more_assignments`] is what [`more_assignments_rule`] says.
pub proof fn lemma_more_assignments(
    input: Seq<char>,
    pos: int,
    st: ParseView,
    pairs: Seq<(u32, BindingView)>,
)
    ensures
        more_assignments(input, pos, st, pairs) == more_assignments_rule(input, pos, st, pairs),
{
}

/// The parts of a block: the assignments and the final expression.
pub closed spec fn block_body(input: Seq<char>, pos: int, st: ParseView) -> (
    Parsed<(Seq<(u32, BindingView)>, ExprView)>,
    ParseView,
)
    decreases input.len() - pos, 3nat,
{
    block_body_rule(input, pos, st)
}

/// What [`block_body`] is.
pub open spec fn block_body_rule(input: Seq<char>, pos: int, st: ParseView) -> (
    Parsed<(Seq<(u32, BindingView)>, ExprView)>,
    ParseView,
)
    decreases input.len() - pos, 2nat,
{
    let note = Context::Label(Label::BlockExpression);
    if pos < 0 || pos >= input.len() || input[pos] != '{' {
        (miss::<(Seq<(u32, BindingView)>, ExprView)>(pos).noted(note), st)
    } else {
        let first = skip(input, pos + 1);
        let (head, st1) = assignment(input, first, st);
        match head {
            Parsed::Failed(f) => if f.cut {
                (Parsed::<(Seq<(u32, BindingView)>, ExprView)>::Failed(f).noted(note), st1)
            } else {
                (
                    stop::<(Seq<(u32, BindingView)>, ExprView)>(
                        first,
                        want(Description::AtLeastOneAssignment),
                    ).noted(note),
                    st1,
                )
            },
            Parsed::Done((target, value), p) => {
                let (pairs, st2) = more_assignments(
                    input,
                    held(input, p, pos + 1),
                    st1,
                    seq![(target, BindingView::Expr(value))],
                );
                match pairs {
                    Parsed::Failed(f) => (
                        Parsed::<(Seq<(u32, BindingView)>, ExprView)>::Failed(f).noted(note),
                        st2,
                    ),
                    Parsed::Done(pairs, n2) => {
                        let at = skip(input, held(input, n2, pos + 1));
                        let (last, st3) = required(input, at, st2);
                        match last {
                            Parsed::Failed(f) => (
                                Parsed::<(Seq<(u32, BindingView)>, ExprView)>::Failed(f).noted(
                                    note,
                                ),
                                st3,
                            ),
                            Parsed::Done(last, end) => if char_at(input, end, '}') {
                                (Parsed::Done((pairs, last), end + 1), st3)
                            } else {
                                (
                                    stop::<(Seq<(u32, BindingView)>, ExprView)>(
                                        end,
                                        want_char('}'),
                                    ).noted(note),
                                    st3,
                                )
                            },
                        }
                    },
                }
            },
        }
    }
}

/// [`block_body`] is what [`block_body_rule`] says.
pub proof fn lemma_block_body(input: Seq<char>, pos: int, st: ParseView)
    ensures
        block_body(input, pos, st) == block_body_rule(input, pos, st),
{
}

/// A block: `{`, one or more assignments, a final expression, `}`.  After
/// the `{` everything is owed.
pub closed spec fn block(input: Seq<char>, pos: int, st: ParseView) -> (Parsed<ExprView>, ParseView)
    decreases input.len() - pos, 5nat,
{
    block_rule(input, pos, st)
}

/// What [`block`] is.
pub open spec fn block_rule(input: Seq<char>, pos: int, st: ParseView) -> (Parsed<ExprView>, ParseView)
    decreases input.len() - pos, 4nat,
{
    if pos < 0 || pos > input.len() {
        (miss(pos), st)
    } else if st.avail == usize::MAX {
        (miss(pos), st)
    } else {
        let caller = st.active;
        let index = st.avail;
        let (r, st1) = block_body(input, pos, reserve(st));
        match r {
            Parsed::Done((pairs, last), end) => (
                Parsed::Done(ExprView::Block { ctx_idx: index, result: Box::new(last) }, end),
                settle(st1, caller, index, pairs),
            ),
            Parsed::Failed(f) => (Parsed::Failed(f), give_back(st1, caller)),
        }
    }
}

/// [`block`] is what [`block_rule`] says.
pub proof fn lemma_block(input: Seq<char>, pos: int, st: ParseView)
    ensures
        block(input, pos, st) == block_rule(input, pos, st),
{
}

/// A whole input: an expression, and nothing after it.
pub open spec fn whole(input: Seq<char>, st: ParseView) -> (Parsed<ExprView>, ParseView) {
    let (r, st1) = expression(input, 0, st);
    match r {
        Parsed::Done(e, end) => if end == input.len() {
            (Parsed::Done(e, end), st1)
        } else {
            (
                miss::<ExprView>(end).noted(Context::Label(Label::Expression)).noted(
                    want(Description::EndOfInput),
                ),
                st1,
            )
        },
        failed => (failed, st1),
    }
}

} // verus!

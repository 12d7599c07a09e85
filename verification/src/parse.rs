//! The parser: it computes what [`crate::grammar`] defines.

use vstd::prelude::*;
use crate::binding::Binding;
use crate::context::{pairs_view, Context as Scope};
use crate::error::{located, Context, Description, Expected, Label, ParseError, Word};
use crate::expr::{
    exprs_view, indices_view, keyed_view, lemma_call_view, lemma_index_view, lemma_list_view,
    lemma_mapping_view, Block, Defined, Expr, ExprView, Fn, FnCall, ForEach, IfElse, Index,
    IndexType, IndexView, InfixOp, PrefixOp, RangeBounds,
};
use crate::float::{ArithmeticOp, ComparisonOp};
use crate::grammar;
use crate::grammar::{Failure, ParseView, Parsed};
use crate::ident::Ident;
use crate::infix::{op_text, LogicOp, Op};
use crate::lex::{
    is_caseless_at, is_char_at, is_text_at, lemma_run_end, scan_run, skip_blanks, Class,
};
use crate::prefix;
use crate::state::{CtxState, ParseState};
use crate::text::{chars_equal, chars_less, chars_of, string_of};

verus! {

/// A failure of a rule of the grammar.
#[derive(Debug)]
pub struct ParseFailure {
    pub cut: bool,
    pub pos: usize,
    pub trail: Vec<Context>,
}

impl View for ParseFailure {
    type V = Failure;

    open spec fn view(&self) -> Failure {
        Failure { cut: self.cut, pos: self.pos as int, trail: self.trail@ }
    }
}

/// What a rule of the parser gives: a value and the position after it, or a
/// failure.
pub type Outcome<T> = Result<(T, usize), ParseFailure>;

/// The outcome of a rule as the grammar speaks of it.
pub open spec fn seen<T, V>(r: Outcome<T>, view: spec_fn(T) -> V) -> Parsed<V> {
    match r {
        Ok((value, pos)) => Parsed::Done(view(value), pos as int),
        Err(f) => Parsed::Failed(f@),
    }
}

/// The failure that lets the caller try something else.
pub fn miss<T>(pos: usize) -> (r: Outcome<T>)
    ensures
        r is Err,
        r->Err_0@ == (Failure { cut: false, pos: pos as int, trail: Seq::empty() }),
{
    Err(ParseFailure { cut: false, pos, trail: Vec::new() })
}

/// The failure that ends the parse, with one note.
pub fn stop<T>(pos: usize, note: Context) -> (r: Outcome<T>)
    ensures
        r is Err,
        r->Err_0@ == (Failure { cut: true, pos: pos as int, trail: seq![note] }),
{
    let mut trail: Vec<Context> = Vec::new();
    trail.push(note);
    Err(ParseFailure { cut: true, pos, trail })
}

/// A failure with one more note.
pub fn noted(failure: ParseFailure, note: Context) -> (r: ParseFailure)
    ensures
        r@ == (Failure { trail: failure@.trail.push(note), ..failure@ }),
{
    let mut failure = failure;
    failure.trail.push(note);
    failure
}

/// A failure as one that ends the parse.
pub fn committed(failure: ParseFailure) -> (r: ParseFailure)
    ensures
        r@ == (Failure { cut: true, ..failure@ }),
{
    ParseFailure { cut: true, pos: failure.pos, trail: failure.trail }
}

/// The note that a character was expected.
pub fn want_char(c: char) -> (r: Context)
    ensures
        r == grammar::want_char(c),
{
    Context::Expected(Expected::Char(c))
}

/// The note that something described in words was expected.
pub fn want(description: Description) -> (r: Context)
    ensures
        r == grammar::want(description),
{
    Context::Expected(Expected::Description(description))
}

/// Tells whether a run of plain characters is a reserved word.
fn reserved(input: &Vec<char>, from: usize, to: usize) -> (r: bool)
    requires
        from <= to <= input.len(),
    ensures
        r == grammar::is_reserved(input@.subrange(from as int, to as int)),
{
    let yes = word_true();
    let no = word_false();
    let nothing = word_null();
    assert(yes@.len() == 4 && nothing@.len() == 4 && no@.len() == 5);
    if to - from == 4 {
        is_text_at(input, from, &yes) || is_text_at(input, from, &nothing)
    } else if to - from == 5 {
        is_text_at(input, from, &no)
    } else {
        false
    }
}

impl Ident {
    /// Reads a name and interns it, as [`grammar::name`] says.
    pub fn parse_ident(input: &Vec<char>, pos: usize, state: &mut ParseState) -> (r: Outcome<Ident>)
        requires
            pos <= input.len(),
        ensures
            seen(r, |i: Ident| i.0) == grammar::name(input@, pos as int, old(state)@).0,
            final(state)@ == grammar::name(input@, pos as int, old(state)@).1,
            r matches Ok((_, end)) ==> pos < end <= input.len(),
            final(state).active_ctx_idx == old(state).active_ctx_idx,
            final(state).avail_ctx_idx == old(state).avail_ctx_idx,
    {
        let end = scan_run(input, pos, Class::Plain);
        if end == pos {
            return miss(pos);
        }
        if reserved(input, pos, end) {
            return miss(pos);
        }
        if state.ctx_state.names_len() >= 0xffff_ffff {
            return stop(pos, want(Description::FewerNames));
        }
        let text = string_of(input, pos, end);
        let symbol = state.ctx_state.intern(text.as_str());
        Ok((Ident(symbol), end))
    }
}

/// Reads the characters of a string from `pos` on, as
/// [`grammar::string_body`] says.
fn parse_string_body(input: &Vec<char>, pos: usize) -> (r: Option<(String, usize)>)
    requires
        pos <= input.len(),
    ensures
        match r {
            Some((text, end)) => grammar::string_body(input@, pos as int) == Some(
                (text@, end as int),
            ) && pos <= end <= input.len(),
            None => grammar::string_body(input@, pos as int) is None,
        },
{
    let mut out = String::new();
    let mut i: usize = pos;
    loop
        invariant
            pos <= i <= input.len(),
            grammar::string_body(input@, pos as int) == (match grammar::string_body(
                input@,
                i as int,
            ) {
                Some((rest, end)) => Some((out@ + rest, end)),
                None => None,
            }),
        decreases input.len() - i,
    {
        if i >= input.len() {
            assert(out@ + Seq::<char>::empty() =~= out@);
            return Some((out, i));
        }
        let c = input[i];
        if c == '\\' {
            if i + 1 < input.len() && (input[i + 1] == '\\' || input[i + 1] == '"' || input[i + 1]
                == '\n') {
                let ghost before = out@;
                out.push(input[i + 1]);
                proof {
                    match grammar::string_body(input@, i + 2) {
                        Some((rest, end)) => {
                            assert(before + (seq![input@[i + 1]] + rest) =~= out@ + rest);
                        },
                        None => {},
                    }
                }
                i += 2;
            } else {
                return None;
            }
        } else if c == '"' || c == '\n' {
            assert(out@ + Seq::<char>::empty() =~= out@);
            return Some((out, i));
        } else {
            let ghost before = out@;
            out.push(c);
            proof {
                match grammar::string_body(input@, i + 1) {
                    Some((rest, end)) => {
                        assert(before + (seq![input@[i as int]] + rest) =~= out@ + rest);
                    },
                    None => {},
                }
            }
            i += 1;
        }
    }
}

/// Reads a string, as [`grammar::string_literal`] says.
pub fn parse_string(input: &Vec<char>, pos: usize) -> (r: Outcome<Expr>)
    requires
        pos <= input.len(),
    ensures
        seen(r, |e: Expr| e@) == grammar::string_literal(input@, pos as int),
        r matches Ok((_, end)) ==> pos < end <= input.len(),
{
    if !is_char_at(input, pos, '"') {
        return Err(noted(ParseFailure { cut: false, pos, trail: Vec::new() }, Context::Label(Label::Text)));
    }
    let (text, end) = match parse_string_body(input, pos + 1) {
        Some(found) => found,
        None => (String::new(), pos + 1),
    };
    if is_char_at(input, end, '"') {
        Ok((Expr::Str(text), end + 1))
    } else {
        let mut trail: Vec<Context> = Vec::new();
        trail.push(want_char('"'));
        trail.push(Context::Label(Label::Text));
        Err(ParseFailure { cut: true, pos: end, trail })
    }
}

/// The greatest magnitude of a 64-bit integer: that of the least one.
pub const MAGNITUDE_LIMIT: u64 = 9223372036854775808;

/// Reads the number that the digits from `from` up to `to` write, as long
/// as it is no greater than the magnitude limit.
fn read_digits(input: &Vec<char>, from: usize, to: usize) -> (r: Option<u64>)
    requires
        from <= to <= input.len(),
        forall|i: int| from <= i < to ==> crate::lex::is_digit(#[trigger] input@[i]),
    ensures
        match r {
            Some(n) => n == grammar::digits_value(input@.subrange(from as int, to as int)) && n
                <= MAGNITUDE_LIMIT,
            None => grammar::digits_value(input@.subrange(from as int, to as int))
                > MAGNITUDE_LIMIT,
        },
{
    let mut value: u64 = 0;
    let mut over = false;
    let mut i: usize = from;
    assert(input@.subrange(from as int, from as int) =~= Seq::<char>::empty());
    while i < to
        invariant
            from <= i <= to <= input.len(),
            forall|k: int| from <= k < to ==> crate::lex::is_digit(#[trigger] input@[k]),
            !over ==> value == grammar::digits_value(input@.subrange(from as int, i as int))
                && value <= MAGNITUDE_LIMIT,
            over ==> grammar::digits_value(input@.subrange(from as int, i as int))
                > MAGNITUDE_LIMIT,
        decreases to - i,
    {
        let ghost before = input@.subrange(from as int, i as int);
        let ghost now = input@.subrange(from as int, i + 1);
        assert(now.drop_last() =~= before);
        assert(now.last() == input@[i as int]);
        assert(crate::lex::is_digit(input@[i as int]));
        let digit: u64 = (input[i] as u32 - '0' as u32) as u64;
        if !over {
            if value > 922337203685477580 {
                over = true;
            } else {
                let next = value * 10 + digit;
                if next > MAGNITUDE_LIMIT {
                    over = true;
                } else {
                    value = next;
                }
            }
        }
        i += 1;
    }
    if over {
        None
    } else {
        Some(value)
    }
}

/// Reads a number, as [`grammar::number`] says.
pub fn parse_number(input: &Vec<char>, pos: usize) -> (r: Outcome<Expr>)
    requires
        pos <= input.len(),
    ensures
        seen(r, |e: Expr| e@) == grammar::number(input@, pos as int),
        r matches Ok((_, end)) ==> pos < end <= input.len(),
{
    let negative = is_char_at(input, pos, '-');
    let first = if negative {
        pos + 1
    } else {
        pos
    };
    let whole_end = scan_run(input, first, Class::Digit);
    proof {
        lemma_run_end(input@, first as int, Class::Digit);
    }
    if whole_end == first {
        return Err(noted(ParseFailure { cut: false, pos: first, trail: Vec::new() }, Context::Label(Label::Decimal)));
    }
    if is_char_at(input, whole_end, '.') {
        let end = scan_run(input, whole_end + 1, Class::Digit);
        if end == whole_end + 1 {
            let mut trail: Vec<Context> = Vec::new();
            trail.push(want(Description::FractionalPart));
            trail.push(Context::Label(Label::Decimal));
            return Err(ParseFailure { cut: true, pos: whole_end + 1, trail });
        }
        return Ok((Expr::Float(string_of(input, pos, end)), end));
    }
    let value: Option<i64> = match read_digits(input, first, whole_end) {
        Some(magnitude) => {
            if negative {
                if magnitude == MAGNITUDE_LIMIT {
                    Some(i64::MIN)
                } else {
                    Some(-(magnitude as i64))
                }
            } else if magnitude == MAGNITUDE_LIMIT {
                None
            } else {
                Some(magnitude as i64)
            }
        },
        None => None,
    };
    match value {
        Some(value) => Ok((Expr::Int(value), whole_end)),
        None => {
            let mut trail: Vec<Context> = Vec::new();
            trail.push(want(Description::IntegerInRange));
            trail.push(Context::Label(Label::Decimal));
            Err(ParseFailure { cut: true, pos, trail })
        },
    }
}

fn word_true() -> (r: Vec<char>)
    ensures
        r@ == grammar::word_true(),
{
    let mut w: Vec<char> = Vec::new();
    w.push('t');
    w.push('r');
    w.push('u');
    w.push('e');
    assert(w@ =~= grammar::word_true());
    w
}

fn word_false() -> (r: Vec<char>)
    ensures
        r@ == grammar::word_false(),
{
    let mut w: Vec<char> = Vec::new();
    w.push('f');
    w.push('a');
    w.push('l');
    w.push('s');
    w.push('e');
    assert(w@ =~= grammar::word_false());
    w
}

fn word_null() -> (r: Vec<char>)
    ensures
        r@ == grammar::word_null(),
{
    let mut w: Vec<char> = Vec::new();
    w.push('n');
    w.push('u');
    w.push('l');
    w.push('l');
    assert(w@ =~= grammar::word_null());
    w
}

/// Reads a boolean, as [`grammar::boolean`] says.
pub fn parse_boolean(input: &Vec<char>, pos: usize) -> (r: Outcome<Expr>)
    requires
        pos <= input.len(),
    ensures
        seen(r, |e: Expr| e@) == grammar::boolean(input@, pos as int),
        r matches Ok((_, end)) ==> pos < end <= input.len(),
{
    let yes = word_true();
    let no = word_false();
    if is_text_at(input, pos, &yes) {
        Ok((Expr::Bool(true), pos + 4))
    } else if is_caseless_at(input, pos, &yes) {
        let mut trail: Vec<Context> = Vec::new();
        trail.push(Context::Expected(Expected::Literal(Word::True)));
        trail.push(Context::Label(Label::Boolean));
        Err(ParseFailure { cut: true, pos, trail })
    } else if is_text_at(input, pos, &no) {
        Ok((Expr::Bool(false), pos + 5))
    } else if is_caseless_at(input, pos, &no) {
        let mut trail: Vec<Context> = Vec::new();
        trail.push(Context::Expected(Expected::Literal(Word::False)));
        trail.push(Context::Label(Label::Boolean));
        Err(ParseFailure { cut: true, pos, trail })
    } else {
        Err(noted(ParseFailure { cut: false, pos, trail: Vec::new() }, Context::Label(Label::Boolean)))
    }
}

/// Reads the null literal, as [`grammar::null_literal`] says.
pub fn parse_null(input: &Vec<char>, pos: usize) -> (r: Outcome<Expr>)
    requires
        pos <= input.len(),
    ensures
        seen(r, |e: Expr| e@) == grammar::null_literal(input@, pos as int),
        r matches Ok((_, end)) ==> pos < end <= input.len(),
{
    let word = word_null();
    if is_text_at(input, pos, &word) {
        Ok((Expr::Null, pos + 4))
    } else if is_caseless_at(input, pos, &word) {
        stop(pos, want(Description::Null))
    } else {
        miss(pos)
    }
}

/// The binary operators in the order in which they are tried.
fn operators() -> (r: Vec<Op>)
    ensures
        r@ == grammar::operators(),
{
    let mut ops: Vec<Op> = Vec::new();
    ops.push(Op::Arithmetic(ArithmeticOp::Add));
    ops.push(Op::Arithmetic(ArithmeticOp::Sub));
    ops.push(Op::Arithmetic(ArithmeticOp::Mul));
    ops.push(Op::Arithmetic(ArithmeticOp::Div));
    ops.push(Op::Logic(LogicOp::And));
    ops.push(Op::Logic(LogicOp::Or));
    ops.push(Op::Comparison(ComparisonOp::Eq));
    ops.push(Op::Comparison(ComparisonOp::NotEq));
    ops.push(Op::Comparison(ComparisonOp::GtOrEq));
    ops.push(Op::Comparison(ComparisonOp::LtOrEq));
    ops.push(Op::Comparison(ComparisonOp::Gt));
    ops.push(Op::Comparison(ComparisonOp::Lt));
    assert(ops@ =~= grammar::operators());
    ops
}

/// The characters of an operator.
fn operator_chars(op: Op) -> (r: Vec<char>)
    ensures
        r@ == op_text(op),
        1 <= r.len() <= 2,
{
    let mut text = String::new();
    op.format(&mut text);
    assert(text@ =~= op_text(op));
    chars_of(text.as_str())
}

impl InfixOp {
    /// Reads a binary operator, as [`grammar::operator`] says.
    pub fn parse_operator(input: &Vec<char>, pos: usize) -> (r: Outcome<Op>)
        requires
            pos <= input.len(),
        ensures
            seen(r, |op: Op| op) == grammar::operator(input@, pos as int),
            r matches Ok((_, end)) ==> pos < end <= input.len(),
    {
        let ops = operators();
        let mut i: usize = 0;
        while i < ops.len()
            invariant
                i <= ops.len(),
                ops@ == grammar::operators(),
                pos <= input.len(),
                grammar::operator_from(input@, pos as int, 0) == grammar::operator_from(
                    input@,
                    pos as int,
                    i as int,
                ),
            decreases ops.len() - i,
        {
            let text = operator_chars(ops[i]);
            if is_text_at(input, pos, &text) {
                return Ok((ops[i], pos + text.len()));
            }
            i += 1;
        }
        let mut trail: Vec<Context> = Vec::new();
        let mut k: usize = 0;
        while k < ops.len()
            invariant
                k <= ops.len(),
                ops@ == grammar::operators(),
                trail@ == grammar::operator_notes().take(k as int),
            decreases ops.len() - k,
        {
            trail.push(Context::Expected(Expected::Literal(Word::Operator(ops[k]))));
            k += 1;
            assert(trail@ =~= grammar::operator_notes().take(k as int));
        }
        assert(trail@ =~= grammar::operator_notes());
        Err(ParseFailure { cut: false, pos, trail })
    }
}

/// Reads what closes a bracketed sequence, as [`grammar::closing`] says.
fn parse_closing(input: &Vec<char>, pos: usize, close: char) -> (r: Outcome<()>)
    requires
        pos <= input.len(),
    ensures
        seen(r, |u: ()| u) == grammar::closing(input@, pos as int, close),
        r matches Ok((_, end)) ==> pos < end <= input.len(),
{
    let comma = skip_blanks(input, pos);
    if is_char_at(input, comma, ',') {
        let after = skip_blanks(input, comma + 1);
        if is_char_at(input, after, close) {
            Ok(((), after + 1))
        } else {
            let mut trail: Vec<Context> = Vec::new();
            trail.push(want(Description::AnExpression));
            trail.push(want_char(close));
            Err(ParseFailure { cut: true, pos: after, trail })
        }
    } else if is_char_at(input, pos, close) {
        Ok(((), pos + 1))
    } else {
        let mut trail: Vec<Context> = Vec::new();
        trail.push(want_char(','));
        trail.push(want_char(close));
        Err(ParseFailure { cut: true, pos, trail })
    }
}

/// Reserves the next free index for a scope and makes it the active scope,
/// as [`grammar::reserve`] says.  Returns the caller's scope and the index.
fn reserve(state: &mut ParseState) -> (r: (usize, usize))
    requires
        old(state).avail_ctx_idx < usize::MAX,
    ensures
        final(state)@ == grammar::reserve(old(state)@),
        r.0 == old(state)@.active,
        r.1 == old(state)@.avail,
{
    let current_ctx_idx = state.active_ctx_idx();
    let ctx_idx = state.avail_ctx_idx();
    state.increment_avail_ctx_idx();
    state.set_active_ctx(ctx_idx);
    (current_ctx_idx, ctx_idx)
}

/// Gives an index back after a failure, as [`grammar::give_back`] says.
fn give_back(state: &mut ParseState, caller: usize)
    ensures
        final(state)@ == grammar::give_back(old(state)@, caller),
{
    state.set_active_ctx(caller);
    state.decrement_avail_ctx_idx();
}

/// Places the scope of a construct that has been read, as
/// [`grammar::settle`] says.
fn settle(state: &mut ParseState, caller: usize, index: usize, pairs: Vec<(Ident, Binding)>)
    ensures
        final(state)@ == grammar::settle(old(state)@, caller, index, pairs_view(pairs@)),
{
    state.set_active_ctx(caller);
    let ctx = Scope::from_iter(Some(caller), pairs);
    state.ctx_state.place_ctx(index, ctx);
}

/// Whether an outcome is a failure that lets the caller go on.
fn missed<T>(r: &Outcome<T>) -> (b: bool)
    ensures
        b == (r matches Err(f) && !f.cut),
{
    match r {
        Err(f) => !f.cut,
        Ok(_) => false,
    }
}

/// The view of an expression.
pub open spec fn expr_view() -> spec_fn(Expr) -> ExprView {
    |e: Expr| e@
}

/// An outcome with one more note, where it is a failure.
fn with_note<T>(r: Outcome<T>, note: Context) -> (out: Outcome<T>)
    ensures
        match (r, out) {
            (Ok(a), Ok(b)) => a == b,
            (Err(f), Err(g)) => g@ == (Failure { trail: f@.trail.push(note), ..f@ }),
            _ => false,
        },
{
    match r {
        Ok(done) => Ok(done),
        Err(f) => Err(noted(f, note)),
    }
}

impl Expr {
    /// Reads an expression, as [`grammar::expression`] says.
    pub fn parse(input: &Vec<char>, pos: usize, state: &mut ParseState) -> (r: Outcome<Expr>)
        requires
            pos <= input.len(),
        ensures
            seen(r, expr_view()) == grammar::expression(input@, pos as int, old(state)@).0,
            final(state)@ == grammar::expression(input@, pos as int, old(state)@).1,
            r matches Ok((_, end)) ==> pos <= end <= input.len(),
        decreases input.len() - pos, 8nat,
    {
        proof {
            grammar::lemma_expression(input@, pos as int, old(state)@);
        }
        let start = skip_blanks(input, pos);
        let r1 = ForEach::parse(input, start, state);
        if !missed(&r1) {
            return Self::finish(input, start, r1);
        }
        let r2 = InfixOp::parse(input, start, state);
        if !missed(&r2) {
            return Self::finish(input, start, r2);
        }
        let r3 = parse_null(input, start);
        if !missed(&r3) {
            return Self::finish(input, start, r3);
        }
        let r4 = parse_map(input, start, state);
        if !missed(&r4) {
            return Self::finish(input, start, r4);
        }
        let r5 = parse_list(input, start, state);
        if !missed(&r5) {
            return Self::finish(input, start, r5);
        }
        let r6 = IfElse::parse(input, start, state);
        if !missed(&r6) {
            return Self::finish(input, start, r6);
        }
        let mut trail: Vec<Context> = Vec::new();
        trail.push(Context::Label(Label::Expression));
        trail.push(want(Description::AValidExpression));
        Err(ParseFailure { cut: false, pos: start, trail })
    }

    /// Skips the blanks after an expression that has been read.
    fn finish(input: &Vec<char>, start: usize, r: Outcome<Expr>) -> (out: Outcome<Expr>)
        requires
            r matches Ok((_, end)) ==> start <= end <= input.len(),
        ensures
            seen(out, expr_view()) == (match seen(r, expr_view()) {
                Parsed::Done(e, end) => Parsed::Done(
                    e,
                    grammar::skip(input@, grammar::held(input@, end, start as int)),
                ),
                failed => failed,
            }),
            out matches Ok((_, end)) ==> start <= end <= input.len(),
    {
        match r {
            Ok((e, end)) => Ok((e, skip_blanks(input, end))),
            Err(f) => Err(f),
        }
    }

    /// Reads an expression that must be there, as [`grammar::required`]
    /// says.
    pub fn require_parse(input: &Vec<char>, pos: usize, state: &mut ParseState) -> (r: Outcome<Expr>)
        requires
            pos <= input.len(),
        ensures
            seen(r, expr_view()) == grammar::required(input@, pos as int, old(state)@).0,
            final(state)@ == grammar::required(input@, pos as int, old(state)@).1,
            r matches Ok((_, end)) ==> pos <= end <= input.len(),
        decreases input.len() - pos, 9nat,
    {
        proof {
            grammar::lemma_required(input@, pos as int, old(state)@);
        }
        let r = Self::parse(input, pos, state);
        if missed(&r) {
            stop(pos, want(Description::AnExpression))
        } else {
            r
        }
    }
}

impl ForEach {
    /// Reads the parts of an iteration, as [`grammar::for_each_body`] says.
    fn parse_parts(input: &Vec<char>, pos: usize, state: &mut ParseState) -> (r: Outcome<
        (Ident, Ident, Ident, Expr),
    >)
        requires
            pos <= input.len(),
        ensures
            seen(r, |t: (Ident, Ident, Ident, Expr)| (t.0.symbol(), t.1.symbol(), t.2.symbol(), t.3@))
                == grammar::for_each_body(input@, pos as int, old(state)@).0,
            final(state)@ == grammar::for_each_body(input@, pos as int, old(state)@).1,
            r matches Ok((_, end)) ==> pos < end <= input.len(),
        decreases input.len() - pos, 1nat,
    {
        proof {
            grammar::lemma_for_each_body(input@, pos as int, old(state)@);
        }
        let (base, p) = match Ident::parse_ident(input, pos, state) {
            Ok(found) => found,
            Err(f) => {
                return Err(f);
            },
        };
        let arrow = skip_blanks(input, p);
        if !is_char_at(input, arrow, '>') {
            return miss(arrow);
        }
        let open = skip_blanks(input, arrow + 1);
        if !is_char_at(input, open, '(') {
            return stop(open, want_char('('));
        }
        let first = skip_blanks(input, open + 1);
        let (key, n2) = match Ident::parse_ident(input, first, state) {
            Ok(found) => found,
            Err(f) => {
                return Err(noted(committed(f), want(Description::IndexIdentifier)));
            },
        };
        let comma = skip_blanks(input, n2);
        if !is_char_at(input, comma, ',') {
            return stop(comma, want_char(','));
        }
        let second = skip_blanks(input, comma + 1);
        let (item, n3) = match Ident::parse_ident(input, second, state) {
            Ok(found) => found,
            Err(f) => {
                return Err(noted(committed(f), want(Description::ItemIdentifier)));
            },
        };
        let close = skip_blanks(input, n3);
        if !is_char_at(input, close, ')') {
            return stop(close, want_char(')'));
        }
        let colon = skip_blanks(input, close + 1);
        if !is_char_at(input, colon, ':') {
            return stop(colon, want_char(':'));
        }
        let at = skip_blanks(input, colon + 1);
        match Expr::require_parse(input, at, state) {
            Ok((body, end)) => Ok(((base, key, item, body), end)),
            Err(f) => Err(f),
        }
    }

    /// Reads an iteration, as [`grammar::for_each`] says.
    pub fn parse(input: &Vec<char>, pos: usize, state: &mut ParseState) -> (r: Outcome<Expr>)
        requires
            pos <= input.len(),
        ensures
            seen(r, expr_view()) == grammar::for_each(input@, pos as int, old(state)@).0,
            final(state)@ == grammar::for_each(input@, pos as int, old(state)@).1,
            r matches Ok((_, end)) ==> pos < end <= input.len(),
        decreases input.len() - pos, 2nat,
    {
        proof {
            grammar::lemma_for_each(input@, pos as int, old(state)@);
        }
        if state.avail_ctx_idx() == usize::MAX {
            return miss(pos);
        }
        let (current_ctx_idx, ctx_idx) = reserve(state);
        match Self::parse_parts(input, pos, state) {
            Err(f) => {
                give_back(state, current_ctx_idx);
                Err(f)
            },
            Ok(((base, key_ident, value_ident, body), end)) => {
                let mut pairs: Vec<(Ident, Binding)> = Vec::new();
                pairs.push((key_ident, Binding::default()));
                pairs.push((value_ident, Binding::default()));
                assert(pairs_view(pairs@) =~= seq![
                    (key_ident.symbol(), grammar::unbound()),
                    (value_ident.symbol(), grammar::unbound()),
                ]);
                settle(state, current_ctx_idx, ctx_idx, pairs);
                Ok((Expr::ForEach(ForEach { base, ctx_idx, body: Box::new(body) }), end))
            },
        }
    }
}

impl InfixOp {
    /// Reads an infix expression, as [`grammar::infix`] says.
    pub fn parse(input: &Vec<char>, pos: usize, state: &mut ParseState) -> (r: Outcome<Expr>)
        requires
            pos <= input.len(),
        ensures
            seen(r, expr_view()) == grammar::infix(input@, pos as int, old(state)@).0,
            final(state)@ == grammar::infix(input@, pos as int, old(state)@).1,
            r matches Ok((_, end)) ==> pos < end <= input.len(),
        decreases input.len() - pos, 7nat,
    {
        proof {
            grammar::lemma_infix(input@, pos as int, old(state)@);
        }
        if pos >= input.len() {
            return Self::parse_operand(input, pos, state);
        }
        match Self::parse_operand(input, pos, state) {
            Ok((lhs, p)) => {
                let at_op = skip_blanks(input, p);
                match Self::parse_operator(input, at_op) {
                    Ok((op, q)) => {
                        let at = skip_blanks(input, q);
                        match Self::parse(input, at, state) {
                            Ok((rhs, end)) => Ok(
                                (
                                    Expr::InfixOp(
                                        InfixOp {
                                            lhs: Box::new(lhs),
                                            op,
                                            rhs: Box::new(rhs),
                                            parenthesized: false,
                                        },
                                    ),
                                    end,
                                ),
                            ),
                            Err(f) => Err(
                                noted(
                                    noted(committed(f), want(Description::Operand)),
                                    Context::Label(Label::InfixExpression),
                                ),
                            ),
                        }
                    },
                    Err(_) => Ok((lhs, p)),
                }
            },
            Err(f) => {
                if f.cut {
                    Err(f)
                } else {
                    Self::parse_parenthesized(input, pos, state)
                }
            },
        }
    }

    /// Reads an operand, as [`grammar::operand`] says.
    pub fn parse_operand(input: &Vec<char>, pos: usize, state: &mut ParseState) -> (r: Outcome<Expr>)
        requires
            pos <= input.len(),
        ensures
            seen(r, expr_view()) == grammar::operand(input@, pos as int, old(state)@).0,
            final(state)@ == grammar::operand(input@, pos as int, old(state)@).1,
            r matches Ok((_, end)) ==> pos < end <= input.len(),
        decreases input.len() - pos, 6nat,
    {
        proof {
            grammar::lemma_operand(input@, pos as int, old(state)@);
        }
        let r1 = parse_string(input, pos);
        if !missed(&r1) {
            return r1;
        }
        let r2 = parse_number(input, pos);
        if !missed(&r2) {
            return r2;
        }
        Self::parse_named_operand(input, pos, state)
    }

    /// Reads an operand that starts with a name, as
    /// [`grammar::named_operand`] says.
    fn parse_named_operand(input: &Vec<char>, pos: usize, state: &mut ParseState) -> (r: Outcome<Expr>)
        requires
            pos <= input.len(),
        ensures
            seen(r, expr_view()) == grammar::named_operand(input@, pos as int, old(state)@).0,
            final(state)@ == grammar::named_operand(input@, pos as int, old(state)@).1,
            r matches Ok((_, end)) ==> pos < end <= input.len(),
        decreases input.len() - pos, 5nat,
    {
        proof {
            grammar::lemma_named_operand(input@, pos as int, old(state)@);
        }
        let r3 = Index::parse(input, pos, state);
        if !missed(&r3) {
            return r3;
        }
        let r4 = FnCall::parse(input, pos, state);
        if !missed(&r4) {
            return r4;
        }
        match Ident::parse_ident(input, pos, state) {
            Ok((ident, end)) => Ok((Expr::Ident(ident), end)),
            Err(f) => {
                if f.cut {
                    Err(f)
                } else {
                    Self::parse_other_operand(input, pos, state)
                }
            },
        }
    }

    /// Reads one of the operands that are tried last, as
    /// [`grammar::other_operand`] says.
    fn parse_other_operand(input: &Vec<char>, pos: usize, state: &mut ParseState) -> (r: Outcome<Expr>)
        requires
            pos <= input.len(),
        ensures
            seen(r, expr_view()) == grammar::other_operand(input@, pos as int, old(state)@).0,
            final(state)@ == grammar::other_operand(input@, pos as int, old(state)@).1,
            r matches Ok((_, end)) ==> pos < end <= input.len(),
        decreases input.len() - pos, 4nat,
    {
        proof {
            grammar::lemma_other_operand(input@, pos as int, old(state)@);
        }
        let r6 = parse_boolean(input, pos);
        if !missed(&r6) {
            return r6;
        }
        let r7 = Block::parse(input, pos, state);
        if !missed(&r7) {
            return r7;
        }
        let r8 = PrefixOp::parse(input, pos, state);
        if !missed(&r8) {
            return r8;
        }
        Self::parse_parenthesized(input, pos, state)
    }

    /// Reads a parenthesized operation, as [`grammar::parenthesized`] says.
    pub fn parse_parenthesized(input: &Vec<char>, pos: usize, state: &mut ParseState) -> (r: Outcome<
        Expr,
    >)
        requires
            pos <= input.len(),
        ensures
            seen(r, expr_view()) == grammar::parenthesized(input@, pos as int, old(state)@).0,
            final(state)@ == grammar::parenthesized(input@, pos as int, old(state)@).1,
            r matches Ok((_, end)) ==> pos < end <= input.len(),
        decreases input.len() - pos, 3nat,
    {
        proof {
            grammar::lemma_parenthesized(input@, pos as int, old(state)@);
        }
        let label = Context::Label(Label::InfixExpression);
        if !is_char_at(input, pos, '(') {
            return with_note(miss(pos), label);
        }
        let (lhs, p) = match Self::parse_operand(input, pos + 1, state) {
            Ok(found) => found,
            Err(f) => {
                return Err(noted(noted(committed(f), want(Description::Operand)), label));
            },
        };
        let at_op = skip_blanks(input, p);
        let (op, q) = match Self::parse_operator(input, at_op) {
            Ok(found) => found,
            Err(f) => {
                return Err(noted(committed(f), label));
            },
        };
        let at = skip_blanks(input, q);
        let (rhs, end) = match Self::parse(input, at, state) {
            Ok(found) => found,
            Err(f) => {
                return Err(noted(noted(committed(f), want(Description::Operand)), label));
            },
        };
        if is_char_at(input, end, ')') {
            Ok(
                (
                    Expr::InfixOp(
                        InfixOp { lhs: Box::new(lhs), op, rhs: Box::new(rhs), parenthesized: true },
                    ),
                    end + 1,
                ),
            )
        } else {
            with_note(miss(end), label)
        }
    }
}

impl PrefixOp {
    /// Reads a prefix operation, as [`grammar::prefix_operation`] says.
    pub fn parse(input: &Vec<char>, pos: usize, state: &mut ParseState) -> (r: Outcome<Expr>)
        requires
            pos <= input.len(),
        ensures
            seen(r, expr_view()) == grammar::prefix_operation(input@, pos as int, old(state)@).0,
            final(state)@ == grammar::prefix_operation(input@, pos as int, old(state)@).1,
            r matches Ok((_, end)) ==> pos < end <= input.len(),
        decreases input.len() - pos, 2nat,
    {
        proof {
            grammar::lemma_prefix_operation(input@, pos as int, old(state)@);
        }
        let label = Context::Label(Label::PrefixOperation);
        let sign = skip_blanks(input, pos);
        let op = if is_char_at(input, sign, '-') {
            prefix::Op::Negate
        } else if is_char_at(input, sign, '!') {
            prefix::Op::Not
        } else {
            return with_note(miss(sign), label);
        };
        let at = skip_blanks(input, sign + 1);
        match Expr::require_parse(input, at, state) {
            Ok((operand, end)) => Ok((Expr::PrefixOp(PrefixOp { op, operand: Box::new(operand) }), end)),
            Err(f) => Err(noted(f, label)),
        }
    }
}

impl IfElse {
    /// Reads a conditional, as [`grammar::if_else`] says.
    pub fn parse(input: &Vec<char>, pos: usize, state: &mut ParseState) -> (r: Outcome<Expr>)
        requires
            pos <= input.len(),
        ensures
            seen(r, expr_view()) == grammar::if_else(input@, pos as int, old(state)@).0,
            final(state)@ == grammar::if_else(input@, pos as int, old(state)@).1,
            r matches Ok((_, end)) ==> pos < end <= input.len(),
        decreases input.len() - pos, 2nat,
    {
        proof {
            grammar::lemma_if_else(input@, pos as int, old(state)@);
        }
        let label = Context::Label(Label::ConditionalExpression);
        if !is_char_at(input, pos, '?') {
            return with_note(miss(pos), label);
        }
        let (if_expr, n1) = match Expr::require_parse(input, pos + 1, state) {
            Ok(found) => found,
            Err(f) => {
                return Err(noted(f, label));
            },
        };
        if !is_char_at(input, n1, ':') {
            return with_note(stop(n1, want_char(':')), label);
        }
        let (then_expr, n2) = match Expr::require_parse(input, n1 + 1, state) {
            Ok(found) => found,
            Err(f) => {
                return Err(noted(f, label));
            },
        };
        if !is_char_at(input, n2, '|') {
            return with_note(stop(n2, want_char('|')), label);
        }
        match Expr::require_parse(input, n2 + 1, state) {
            Ok((else_expr, end)) => Ok(
                (
                    Expr::IfElse(
                        IfElse {
                            if_expr: Box::new(if_expr),
                            then_expr: Box::new(then_expr),
                            else_expr: Box::new(else_expr),
                        },
                    ),
                    end,
                ),
            ),
            Err(f) => Err(noted(f, label)),
        }
    }
}

/// The views of a vector of expressions.
pub open spec fn exprs_of() -> spec_fn(Vec<Expr>) -> Seq<ExprView> {
    |v: Vec<Expr>| exprs_view(v@)
}

/// Reads more items of a sequence of expressions, as
/// [`grammar::more_items`] says.
fn parse_more_items(input: &Vec<char>, pos: usize, state: &mut ParseState, items: Vec<Expr>) -> (r:
    Outcome<Vec<Expr>>)
    requires
        pos <= input.len(),
    ensures
        seen(r, exprs_of()) == grammar::more_items(
            input@,
            pos as int,
            old(state)@,
            exprs_view(items@),
        ).0,
        final(state)@ == grammar::more_items(input@, pos as int, old(state)@, exprs_view(items@)).1,
        r matches Ok((_, end)) ==> pos <= end <= input.len(),
    decreases input.len() - pos, 10nat,
{
    proof {
        grammar::lemma_more_items(input@, pos as int, old(state)@, exprs_view(items@));
    }
    let comma = skip_blanks(input, pos);
    if !is_char_at(input, comma, ',') {
        return Ok((items, pos));
    }
    let at = skip_blanks(input, comma + 1);
    match Expr::parse(input, at, state) {
        Ok((e, end)) => {
            let mut items = items;
            let ghost before = items@;
            items.push(e);
            assert(exprs_view(items@) =~= exprs_view(before).push(e@));
            parse_more_items(input, end, state, items)
        },
        Err(f) => {
            if f.cut {
                Err(f)
            } else {
                Ok((items, pos))
            }
        },
    }
}

/// Reads a list, as [`grammar::list`] says.
pub fn parse_list(input: &Vec<char>, pos: usize, state: &mut ParseState) -> (r: Outcome<Expr>)
    requires
        pos <= input.len(),
    ensures
        seen(r, expr_view()) == grammar::list(input@, pos as int, old(state)@).0,
        final(state)@ == grammar::list(input@, pos as int, old(state)@).1,
        r matches Ok((_, end)) ==> pos < end <= input.len(),
    decreases input.len() - pos, 2nat,
{
    proof {
        grammar::lemma_list(input@, pos as int, old(state)@);
    }
    let label = Context::Label(Label::List);
    if !is_char_at(input, pos, '[') {
        return with_note(miss(pos), label);
    }
    let first = skip_blanks(input, pos + 1);
    let found = match Expr::parse(input, first, state) {
        Ok((e, end)) => {
            let mut items: Vec<Expr> = Vec::new();
            items.push(e);
            assert(exprs_view(items@) =~= seq![e@]);
            parse_more_items(input, end, state, items)
        },
        Err(f) => {
            if f.cut {
                Err(f)
            } else {
                let items: Vec<Expr> = Vec::new();
                assert(exprs_view(items@) =~= Seq::empty());
                Ok((items, first))
            }
        },
    };
    match found {
        Err(f) => Err(noted(f, label)),
        Ok((items, end)) => {
            let at = skip_blanks(input, end);
            match parse_closing(input, at, ']') {
                Ok((_, after)) => {
                    proof {
                        lemma_list_view(items);
                    }
                    Ok((Expr::List(items), after))
                },
                Err(f) => Err(noted(f, label)),
            }
        },
    }
}

/// Gives `key` the expression `value` in `entries`, as
/// [`crate::value::with_entry`] says.
fn keyed_insert(entries: &mut Vec<(String, Expr)>, key: String, value: Expr)
    ensures
        keyed_view(final(entries)@) == crate::value::with_entry(
            keyed_view(old(entries)@),
            key@,
            value@,
        ),
{
    let wanted = chars_of(key.as_str());
    let ghost view = keyed_view(entries@);
    let mut i: usize = 0;
    while i < entries.len()
        invariant
            i <= entries.len(),
            entries@ == old(entries)@,
            view == keyed_view(entries@),
            wanted@ == key@,
            crate::value::slot_of(view, key@, 0) == crate::value::slot_of(view, key@, i as int),
        decreases entries.len() - i,
    {
        let have = chars_of(entries[i].0.as_str());
        if !chars_less(&have, &wanted) {
            if chars_equal(&have, &wanted) {
                entries.set(i, (key, value));
                assert(keyed_view(entries@) =~= view.update(i as int, (key@, value@)));
            } else {
                entries.insert(i, (key, value));
                assert(keyed_view(entries@) =~= view.insert(i as int, (key@, value@)));
            }
            return ;
        }
        i += 1;
    }
    entries.push((key, value));
    assert(keyed_view(entries@) =~= view.insert(i as int, (key@, value@)));
}

/// Reads an entry of a mapping, as [`grammar::entry`] says.
fn parse_entry(input: &Vec<char>, pos: usize, state: &mut ParseState) -> (r: Outcome<(String, Expr)>)
    requires
        pos <= input.len(),
    ensures
        seen(r, |t: (String, Expr)| (t.0@, t.1@)) == grammar::entry(
            input@,
            pos as int,
            old(state)@,
        ).0,
        final(state)@ == grammar::entry(input@, pos as int, old(state)@).1,
        r matches Ok((_, end)) ==> pos < end <= input.len(),
    decreases input.len() - pos, 11nat,
{
    proof {
        grammar::lemma_entry(input@, pos as int, old(state)@);
    }
    if !is_char_at(input, pos, '"') {
        return miss(pos);
    }
    let key_end = scan_run(input, pos + 1, Class::Plain);
    if key_end == pos + 1 {
        return miss(pos + 1);
    }
    if !is_char_at(input, key_end, '"') {
        return miss(key_end);
    }
    let colon = skip_blanks(input, key_end + 1);
    if !is_char_at(input, colon, ':') {
        return miss(colon);
    }
    let at = skip_blanks(input, colon + 1);
    match Expr::require_parse(input, at, state) {
        Ok((e, end)) => Ok(((string_of(input, pos + 1, key_end), e), end)),
        Err(f) => Err(f),
    }
}

/// The views of a vector of keyed expressions.
pub open spec fn keyed_of() -> spec_fn(Vec<(String, Expr)>) -> Seq<(Seq<char>, ExprView)> {
    |v: Vec<(String, Expr)>| keyed_view(v@)
}

/// Reads more entries of a mapping, as [`grammar::more_entries`] says.
fn parse_more_entries(
    input: &Vec<char>,
    pos: usize,
    state: &mut ParseState,
    entries: Vec<(String, Expr)>,
) -> (r: Outcome<Vec<(String, Expr)>>)
    requires
        pos <= input.len(),
    ensures
        seen(r, keyed_of()) == grammar::more_entries(
            input@,
            pos as int,
            old(state)@,
            keyed_view(entries@),
        ).0,
        final(state)@ == grammar::more_entries(
            input@,
            pos as int,
            old(state)@,
            keyed_view(entries@),
        ).1,
        r matches Ok((_, end)) ==> pos <= end <= input.len(),
    decreases input.len() - pos, 12nat,
{
    proof {
        grammar::lemma_more_entries(input@, pos as int, old(state)@, keyed_view(entries@));
    }
    let comma = skip_blanks(input, pos);
    if !is_char_at(input, comma, ',') {
        return Ok((entries, pos));
    }
    let at = skip_blanks(input, comma + 1);
    match parse_entry(input, at, state) {
        Ok(((key, e), end)) => {
            let mut entries = entries;
            keyed_insert(&mut entries, key, e);
            parse_more_entries(input, end, state, entries)
        },
        Err(f) => {
            if f.cut {
                Err(f)
            } else {
                Ok((entries, pos))
            }
        },
    }
}

/// Reads a mapping, as [`grammar::mapping`] says.
pub fn parse_map(input: &Vec<char>, pos: usize, state: &mut ParseState) -> (r: Outcome<Expr>)
    requires
        pos <= input.len(),
    ensures
        seen(r, expr_view()) == grammar::mapping(input@, pos as int, old(state)@).0,
        final(state)@ == grammar::mapping(input@, pos as int, old(state)@).1,
        r matches Ok((_, end)) ==> pos < end <= input.len(),
    decreases input.len() - pos, 2nat,
{
    proof {
        grammar::lemma_mapping(input@, pos as int, old(state)@);
    }
    let label = Context::Label(Label::Mapping);
    if !is_char_at(input, pos, '[') {
        return with_note(miss(pos), label);
    }
    let first = skip_blanks(input, pos + 1);
    let ((key, e), end) = match parse_entry(input, first, state) {
        Ok(found) => found,
        Err(f) => {
            return Err(noted(f, label));
        },
    };
    let mut entries: Vec<(String, Expr)> = Vec::new();
    entries.push((key, e));
    assert(keyed_view(entries@) =~= seq![(key@, e@)]);
    match parse_more_entries(input, end, state, entries) {
        Err(f) => Err(noted(f, label)),
        Ok((entries, end)) => {
            let at = skip_blanks(input, end);
            match parse_closing(input, at, ']') {
                Ok((_, after)) => {
                    proof {
                        lemma_mapping_view(entries);
                    }
                    Ok((Expr::Mapping(entries), after))
                },
                Err(f) => Err(noted(f, label)),
            }
        },
    }
}

/// The view of a bracket.
pub open spec fn bracket_view() -> spec_fn(IndexType) -> IndexView {
    |b: IndexType| b@
}

/// The views of a vector of brackets.
pub open spec fn brackets_of() -> spec_fn(Vec<IndexType>) -> Seq<IndexView> {
    |v: Vec<IndexType>| indices_view(v@)
}

impl Index {
    /// Reads what follows the first expression of a bracket, as
    /// [`grammar::bracket_rest`] says.
    fn parse_bracket_rest(
        input: &Vec<char>,
        pos: usize,
        state: &mut ParseState,
        start: Expr,
        floor: usize,
    ) -> (r: Outcome<IndexType>)
        requires
            floor <= pos <= input.len(),
        ensures
            seen(r, bracket_view()) == grammar::bracket_rest(
                input@,
                pos as int,
                old(state)@,
                start@,
                floor as int,
            ).0,
            final(state)@ == grammar::bracket_rest(
                input@,
                pos as int,
                old(state)@,
                start@,
                floor as int,
            ).1,
            r matches Ok((_, end)) ==> pos < end <= input.len(),
        decreases input.len() - floor, 1nat,
    {
        proof {
            grammar::lemma_bracket_rest(input@, pos as int, old(state)@, start@, floor as int);
        }
        if is_char_at(input, pos, ':') {
            let at = skip_blanks(input, pos + 1);
            match Expr::parse(input, at, state) {
                Err(f) => {
                    if f.cut {
                        Err(f)
                    } else {
                        let close = skip_blanks(input, at);
                        if is_char_at(input, close, ']') {
                            Ok((IndexType::Range(RangeBounds::StartingFrom(start)), close + 1))
                        } else {
                            with_note(stop(close, want(Description::AnExpression)), want_char(']'))
                        }
                    }
                },
                Ok((end, p)) => {
                    let close = skip_blanks(input, p);
                    if is_char_at(input, close, ']') {
                        Ok((IndexType::Range(RangeBounds::FromTo(start, end)), close + 1))
                    } else {
                        with_note(stop(close, want(Description::AnExpression)), want_char(']'))
                    }
                },
            }
        } else if is_char_at(input, pos, ']') {
            Ok((IndexType::Single(start), pos + 1))
        } else {
            with_note(stop(pos, want_char(':')), want_char(']'))
        }
    }

    /// Reads one bracket from after its `[`, as [`grammar::bracket`] says.
    fn parse_bracket(input: &Vec<char>, pos: usize, state: &mut ParseState) -> (r: Outcome<IndexType>)
        requires
            pos <= input.len(),
        ensures
            seen(r, bracket_view()) == grammar::bracket(input@, pos as int, old(state)@).0,
            final(state)@ == grammar::bracket(input@, pos as int, old(state)@).1,
            r matches Ok((_, end)) ==> pos < end <= input.len(),
        decreases input.len() - pos, 13nat,
    {
        proof {
            grammar::lemma_bracket(input@, pos as int, old(state)@);
        }
        match Expr::parse(input, pos, state) {
            Ok((start, p)) => Self::parse_bracket_rest(input, p, state, start, pos),
            Err(f) => {
                if f.cut {
                    Err(f)
                } else if is_char_at(input, pos, ':') {
                    match Expr::require_parse(input, pos + 1, state) {
                        Err(f) => Err(f),
                        Ok((end, p)) => {
                            if is_char_at(input, p, ']') {
                                Ok((IndexType::Range(RangeBounds::EndingAt(end)), p + 1))
                            } else {
                                stop(p, want_char(']'))
                            }
                        },
                    }
                } else {
                    with_note(stop(pos, want(Description::SomeExpression)), want_char(':'))
                }
            },
        }
    }

    /// Reads more brackets, as [`grammar::more_brackets`] says.
    fn parse_more_brackets(
        input: &Vec<char>,
        pos: usize,
        state: &mut ParseState,
        indices: Vec<IndexType>,
    ) -> (r: Outcome<Vec<IndexType>>)
        requires
            pos <= input.len(),
        ensures
            seen(r, brackets_of()) == grammar::more_brackets(
                input@,
                pos as int,
                old(state)@,
                indices_view(indices@),
            ).0,
            final(state)@ == grammar::more_brackets(
                input@,
                pos as int,
                old(state)@,
                indices_view(indices@),
            ).1,
            r matches Ok((_, end)) ==> pos <= end <= input.len(),
        decreases input.len() - pos, 14nat,
    {
        proof {
            grammar::lemma_more_brackets(input@, pos as int, old(state)@, indices_view(indices@));
        }
        if !is_char_at(input, pos, '[') {
            return Ok((indices, pos));
        }
        match Self::parse_bracket(input, pos + 1, state) {
            Ok((b, end)) => {
                let mut indices = indices;
                let ghost before = indices@;
                indices.push(b);
                assert(indices_view(indices@) =~= indices_view(before).push(b@));
                Self::parse_more_brackets(input, end, state, indices)
            },
            Err(f) => Err(f),
        }
    }

    /// Reads an index expression, as [`grammar::index`] says.
    pub fn parse(input: &Vec<char>, pos: usize, state: &mut ParseState) -> (r: Outcome<Expr>)
        requires
            pos <= input.len(),
        ensures
            seen(r, expr_view()) == grammar::index(input@, pos as int, old(state)@).0,
            final(state)@ == grammar::index(input@, pos as int, old(state)@).1,
            r matches Ok((_, end)) ==> pos < end <= input.len(),
        decreases input.len() - pos, 2nat,
    {
        proof {
            grammar::lemma_index(input@, pos as int, old(state)@);
        }
        let label = Context::Label(Label::IndexExpression);
        let (base, p) = match Ident::parse_ident(input, pos, state) {
            Ok(found) => found,
            Err(f) => {
                return Err(noted(f, label));
            },
        };
        if !is_char_at(input, p, '[') {
            return with_note(miss(p), label);
        }
        let none: Vec<IndexType> = Vec::new();
        assert(indices_view(none@) =~= Seq::empty());
        match Self::parse_more_brackets(input, p, state, none) {
            Ok((indices, end)) => {
                let index = Index { base, indices };
                proof {
                    lemma_index_view(index);
                }
                Ok((Expr::Index(index), end))
            },
            Err(f) => Err(noted(f, label)),
        }
    }
}

impl FnCall {
    /// Reads a call, as [`grammar::call`] says.
    pub fn parse(input: &Vec<char>, pos: usize, state: &mut ParseState) -> (r: Outcome<Expr>)
        requires
            pos <= input.len(),
        ensures
            seen(r, expr_view()) == grammar::call(input@, pos as int, old(state)@).0,
            final(state)@ == grammar::call(input@, pos as int, old(state)@).1,
            r matches Ok((_, end)) ==> pos < end <= input.len(),
        decreases input.len() - pos, 2nat,
    {
        proof {
            grammar::lemma_call(input@, pos as int, old(state)@);
        }
        let label = Context::Label(Label::FunctionCall);
        let at_name = skip_blanks(input, pos);
        let (name, p) = match Ident::parse_ident(input, at_name, state) {
            Ok(found) => found,
            Err(f) => {
                return Err(noted(f, label));
            },
        };
        let open = skip_blanks(input, p);
        if !is_char_at(input, open, '(') {
            return with_note(miss(open), label);
        }
        let first = skip_blanks(input, open + 1);
        let (e, end) = match Expr::parse(input, first, state) {
            Ok(found) => found,
            Err(f) => {
                if f.cut {
                    return Err(noted(f, label));
                } else {
                    return with_note(stop(open + 1, want(Description::OneOrMoreArguments)), label);
                }
            },
        };
        let mut items: Vec<Expr> = Vec::new();
        items.push(e);
        assert(exprs_view(items@) =~= seq![e@]);
        match parse_more_items(input, end, state, items) {
            Err(f) => Err(noted(f, label)),
            Ok((args, end)) => {
                let at = skip_blanks(input, end);
                match parse_closing(input, at, ')') {
                    Ok((_, after)) => {
                        let call = FnCall { name, args };
                        proof {
                            lemma_call_view(call);
                        }
                        Ok((Expr::FnCall(call), after))
                    },
                    Err(f) => Err(noted(f, label)),
                }
            },
        }
    }
}

/// The symbols of a vector of names.
pub open spec fn symbols_view(names: Seq<Ident>) -> Seq<u32> {
    Seq::new(names.len(), |i: int| names[i].symbol())
}

/// Reads more parameters, as [`grammar::more_names`] says.
fn parse_more_names(input: &Vec<char>, pos: usize, state: &mut ParseState, names: Vec<Ident>) -> (r:
    Outcome<Vec<Ident>>)
    requires
        pos <= input.len(),
    ensures
        seen(r, |v: Vec<Ident>| symbols_view(v@)) == grammar::more_names(
            input@,
            pos as int,
            old(state)@,
            symbols_view(names@),
        ).0,
        final(state)@ == grammar::more_names(
            input@,
            pos as int,
            old(state)@,
            symbols_view(names@),
        ).1,
        r matches Ok((_, end)) ==> pos <= end <= input.len(),
        final(state).active_ctx_idx == old(state).active_ctx_idx,
        final(state).avail_ctx_idx == old(state).avail_ctx_idx,
    decreases input.len() - pos,
{
    proof {
        grammar::lemma_more_names(input@, pos as int, old(state)@, symbols_view(names@));
    }
    let comma = skip_blanks(input, pos);
    if !is_char_at(input, comma, ',') {
        return Ok((names, pos));
    }
    let at = skip_blanks(input, comma + 1);
    match Ident::parse_ident(input, at, state) {
        Ok((ident, end)) => {
            let mut names = names;
            let ghost before = names@;
            names.push(ident);
            assert(symbols_view(names@) =~= symbols_view(before).push(ident.symbol()));
            parse_more_names(input, end, state, names)
        },
        Err(f) => {
            if f.cut {
                Err(f)
            } else {
                Ok((names, pos))
            }
        },
    }
}

/// Reads what closes the parameters, as [`grammar::parameters_end`] says.
fn parse_parameters_end(input: &Vec<char>, pos: usize) -> (r: Outcome<()>)
    requires
        pos <= input.len(),
    ensures
        seen(r, |u: ()| u) == grammar::parameters_end(input@, pos as int),
        r matches Ok((_, end)) ==> pos < end <= input.len(),
{
    let comma = skip_blanks(input, pos);
    if is_char_at(input, comma, ',') {
        let after = skip_blanks(input, comma + 1);
        if is_char_at(input, after, ']') {
            Ok(((), after + 1))
        } else {
            with_note(stop(after, want(Description::AnExpression)), want_char(']'))
        }
    } else if is_char_at(input, pos, '|') {
        Ok(((), pos + 1))
    } else {
        with_note(stop(pos, want_char(',')), want_char('|'))
    }
}

/// The pairs that the scope of a function is made of: every parameter,
/// unbound.
fn parameter_pairs(params: &Vec<Ident>) -> (pairs: Vec<(Ident, Binding)>)
    ensures
        pairs_view(pairs@) == grammar::parameter_pairs(symbols_view(params@)),
{
    let mut pairs: Vec<(Ident, Binding)> = Vec::new();
    let mut i: usize = 0;
    while i < params.len()
        invariant
            i <= params.len(),
            pairs.len() == i,
            forall|j: int|
                0 <= j < i ==> (#[trigger] pairs@[j]).0 == params@[j] && pairs@[j].1@
                    == grammar::unbound(),
        decreases params.len() - i,
    {
        pairs.push((params[i], Binding::default()));
        i += 1;
    }
    assert(pairs_view(pairs@) =~= grammar::parameter_pairs(symbols_view(params@)));
    pairs
}

impl Defined {
    /// Reads the parts of a function, as [`grammar::function_body`] says.
    fn parse_parts(input: &Vec<char>, pos: usize, state: &mut ParseState) -> (r: Outcome<
        (Vec<Ident>, Expr),
    >)
        requires
            pos <= input.len(),
        ensures
            seen(r, |t: (Vec<Ident>, Expr)| (symbols_view(t.0@), t.1@)) == grammar::function_body(
                input@,
                pos as int,
                old(state)@,
            ).0,
            final(state)@ == grammar::function_body(input@, pos as int, old(state)@).1,
            r matches Ok((_, end)) ==> pos < end <= input.len(),
        decreases input.len() - pos, 1nat,
    {
        proof {
            grammar::lemma_function_body(input@, pos as int, old(state)@);
        }
        let label = Context::Label(Label::FunctionDeclaration);
        if !is_char_at(input, pos, '|') {
            return with_note(miss(pos), label);
        }
        let at_name = skip_blanks(input, pos + 1);
        let (symbol, p) = match Ident::parse_ident(input, at_name, state) {
            Ok(found) => found,
            Err(f) => {
                if f.cut {
                    return Err(noted(f, label));
                } else {
                    return with_note(stop(pos + 1, want(Description::OneOrMoreParameters)), label);
                }
            },
        };
        let mut names: Vec<Ident> = Vec::new();
        names.push(symbol);
        assert(symbols_view(names@) =~= seq![symbol.symbol()]);
        let (names, n2) = match parse_more_names(input, p, state, names) {
            Ok(found) => found,
            Err(f) => {
                return Err(noted(f, label));
            },
        };
        let at_end = skip_blanks(input, n2);
        let n3 = match parse_parameters_end(input, at_end) {
            Ok((_, n3)) => n3,
            Err(f) => {
                return Err(noted(f, label));
            },
        };
        match Expr::require_parse(input, n3, state) {
            Ok((body, end)) => Ok(((names, body), end)),
            Err(f) => Err(noted(f, label)),
        }
    }

    /// Reads a function, as [`grammar::function`] says.
    pub fn parse(input: &Vec<char>, pos: usize, state: &mut ParseState) -> (r: Outcome<Expr>)
        requires
            pos <= input.len(),
        ensures
            seen(r, expr_view()) == grammar::function(input@, pos as int, old(state)@).0,
            final(state)@ == grammar::function(input@, pos as int, old(state)@).1,
            r matches Ok((_, end)) ==> pos < end <= input.len(),
        decreases input.len() - pos, 2nat,
    {
        proof {
            grammar::lemma_function(input@, pos as int, old(state)@);
        }
        if state.avail_ctx_idx() == usize::MAX {
            return miss(pos);
        }
        let (current_ctx_idx, ctx_idx) = reserve(state);
        match Self::parse_parts(input, pos, state) {
            Err(f) => {
                give_back(state, current_ctx_idx);
                Err(f)
            },
            Ok(((params, body), end)) => {
                let pairs = parameter_pairs(&params);
                settle(state, current_ctx_idx, ctx_idx, pairs);
                Ok((Expr::Fn(Fn::Defined(Defined { ctx_idx, body: Box::new(body) })), end))
            },
        }
    }
}

impl Fn {
    /// Reads a function, as [`grammar::function`] says.
    pub fn parse(input: &Vec<char>, pos: usize, state: &mut ParseState) -> (r: Outcome<Expr>)
        requires
            pos <= input.len(),
        ensures
            seen(r, expr_view()) == grammar::function(input@, pos as int, old(state)@).0,
            final(state)@ == grammar::function(input@, pos as int, old(state)@).1,
            r matches Ok((_, end)) ==> pos < end <= input.len(),
        decreases input.len() - pos, 3nat,
    {
        proof {
            grammar::lemma_function(input@, pos as int, old(state)@);
        }
        Defined::parse(input, pos, state)
    }
}

/// The pairs that a vector of assignments stands for.
pub open spec fn assignments_of() -> spec_fn(Vec<(Ident, Binding)>) -> Seq<
    (u32, crate::binding::BindingView),
> {
    |v: Vec<(Ident, Binding)>| pairs_view(v@)
}

impl Block {
    /// Reads one assignment, as [`grammar::assignment`] says.
    fn parse_assignment(input: &Vec<char>, pos: usize, state: &mut ParseState) -> (r: Outcome<
        (Ident, Expr),
    >)
        requires
            pos <= input.len(),
        ensures
            seen(r, |t: (Ident, Expr)| (t.0.symbol(), t.1@)) == grammar::assignment(
                input@,
                pos as int,
                old(state)@,
            ).0,
            final(state)@ == grammar::assignment(input@, pos as int, old(state)@).1,
            r matches Ok((_, end)) ==> pos < end <= input.len(),
        decreases input.len() - pos, 11nat,
    {
        proof {
            grammar::lemma_assignment(input@, pos as int, old(state)@);
        }
        let at_name = skip_blanks(input, pos);
        let (target, p) = match Ident::parse_ident(input, at_name, state) {
            Ok(found) => found,
            Err(f) => {
                return Err(f);
            },
        };
        let equals = skip_blanks(input, p);
        if !is_char_at(input, equals, '=') {
            return miss(equals);
        }
        let value_at = skip_blanks(input, equals + 1);
        let first = Expr::parse(input, value_at, state);
        let value = if !missed(&first) {
            first
        } else {
            let second = Fn::parse(input, value_at, state);
            if !missed(&second) {
                second
            } else {
                stop(value_at, want(Description::AnExpression))
            }
        };
        match value {
            Err(f) => Err(f),
            Ok((value, end)) => {
                if is_char_at(input, end, ';') {
                    Ok(((target, value), skip_blanks(input, end + 1)))
                } else {
                    stop(end, want_char(';'))
                }
            },
        }
    }

    /// Reads more assignments, as [`grammar::more_assignments`] says.
    fn parse_more_assignments(
        input: &Vec<char>,
        pos: usize,
        state: &mut ParseState,
        pairs: Vec<(Ident, Binding)>,
    ) -> (r: Outcome<Vec<(Ident, Binding)>>)
        requires
            pos <= input.len(),
        ensures
            seen(r, assignments_of()) == grammar::more_assignments(
                input@,
                pos as int,
                old(state)@,
                pairs_view(pairs@),
            ).0,
            final(state)@ == grammar::more_assignments(
                input@,
                pos as int,
                old(state)@,
                pairs_view(pairs@),
            ).1,
            r matches Ok((_, end)) ==> pos <= end <= input.len(),
        decreases input.len() - pos, 12nat,
    {
        proof {
            grammar::lemma_more_assignments(input@, pos as int, old(state)@, pairs_view(pairs@));
        }
        match Self::parse_assignment(input, pos, state) {
            Ok(((target, value), end)) => {
                let mut pairs = pairs;
                let ghost before = pairs@;
                let binding = Binding::Expr(value);
                pairs.push((target, binding));
                assert(pairs_view(pairs@) =~= pairs_view(before).push(
                    (target.symbol(), binding@),
                ));
                Self::parse_more_assignments(input, end, state, pairs)
            },
            Err(f) => {
                if f.cut {
                    Err(f)
                } else {
                    Ok((pairs, pos))
                }
            },
        }
    }

    /// Reads the parts of a block, as [`grammar::block_body`] says.
    fn parse_parts(input: &Vec<char>, pos: usize, state: &mut ParseState) -> (r: Outcome<
        (Vec<(Ident, Binding)>, Expr),
    >)
        requires
            pos <= input.len(),
        ensures
            seen(r, |t: (Vec<(Ident, Binding)>, Expr)| (pairs_view(t.0@), t.1@))
                == grammar::block_body(input@, pos as int, old(state)@).0,
            final(state)@ == grammar::block_body(input@, pos as int, old(state)@).1,
            r matches Ok((_, end)) ==> pos < end <= input.len(),
        decreases input.len() - pos, 1nat,
    {
        proof {
            grammar::lemma_block_body(input@, pos as int, old(state)@);
        }
        let label = Context::Label(Label::BlockExpression);
        if !is_char_at(input, pos, '{') {
            return with_note(miss(pos), label);
        }
        let first = skip_blanks(input, pos + 1);
        let ((target, value), p) = match Self::parse_assignment(input, first, state) {
            Ok(found) => found,
            Err(f) => {
                if f.cut {
                    return Err(noted(f, label));
                } else {
                    return with_note(stop(first, want(Description::AtLeastOneAssignment)), label);
                }
            },
        };
        let mut pairs: Vec<(Ident, Binding)> = Vec::new();
        let binding = Binding::Expr(value);
        pairs.push((target, binding));
        assert(pairs_view(pairs@) =~= seq![(target.symbol(), binding@)]);
        let (pairs, n2) = match Self::parse_more_assignments(input, p, state, pairs) {
            Ok(found) => found,
            Err(f) => {
                return Err(noted(f, label));
            },
        };
        let at = skip_blanks(input, n2);
        let (last, end) = match Expr::require_parse(input, at, state) {
            Ok(found) => found,
            Err(f) => {
                return Err(noted(f, label));
            },
        };
        if is_char_at(input, end, '}') {
            Ok(((pairs, last), end + 1))
        } else {
            with_note(stop(end, want_char('}')), label)
        }
    }

    /// Reads a block, as [`grammar::block`] says.
    pub fn parse(input: &Vec<char>, pos: usize, state: &mut ParseState) -> (r: Outcome<Expr>)
        requires
            pos <= input.len(),
        ensures
            seen(r, expr_view()) == grammar::block(input@, pos as int, old(state)@).0,
            final(state)@ == grammar::block(input@, pos as int, old(state)@).1,
            r matches Ok((_, end)) ==> pos < end <= input.len(),
        decreases input.len() - pos, 2nat,
    {
        proof {
            grammar::lemma_block(input@, pos as int, old(state)@);
        }
        if state.avail_ctx_idx() == usize::MAX {
            return miss(pos);
        }
        let (current_ctx_idx, ctx_idx) = reserve(state);
        match Self::parse_parts(input, pos, state) {
            Err(f) => {
                give_back(state, current_ctx_idx);
                Err(f)
            },
            Ok(((assignments, return_expr), end)) => {
                settle(state, current_ctx_idx, ctx_idx, assignments);
                Ok((Expr::Block(Block { ctx_idx, return_expr: Box::new(return_expr) }), end))
            },
        }
    }
}

impl Expr {
    /// Reads a whole input, as [`grammar::whole`] says.
    pub fn parse_whole(input: &Vec<char>, state: &mut ParseState) -> (r: Outcome<Expr>)
        ensures
            seen(r, expr_view()) == grammar::whole(input@, old(state)@).0,
            final(state)@ == grammar::whole(input@, old(state)@).1,
    {
        match Self::parse(input, 0, state) {
            Ok((e, end)) => {
                if end == input.len() {
                    Ok((e, end))
                } else {
                    let mut trail: Vec<Context> = Vec::new();
                    trail.push(Context::Label(Label::Expression));
                    trail.push(want(Description::EndOfInput));
                    Err(ParseFailure { cut: false, pos: end, trail })
                }
            },
            Err(f) => Err(f),
        }
    }
}

/// The state in which the parse of a session with the scopes and names of
/// `session` starts.
pub open spec fn parse_start(session: crate::state::CtxStateView) -> ParseView {
    ParseView {
        contexts: session.contexts,
        names: session.names,
        active: (session.contexts.len() - 1) as usize,
        avail: session.contexts.len() as usize,
    }
}

impl Expr {
    /// Parses `input`, which must be one expression and nothing else, into
    /// the session `ctx_state`, and gives the session back.  A failure is
    /// described by a parse error at the place where the input was left.
    /// Where the bindings of the session are well-formed, they stay so, and
    /// the tree is well-formed.
    pub fn parse_all(input: &str, ctx_state: CtxState) -> (r: (Result<Expr, ParseError>, CtxState))
        requires
            ctx_state@.contexts.len() > 0,
        ensures
            ({
                let (outcome, st) = grammar::whole(input@, parse_start(ctx_state@));
                &&& r.1@.contexts == st.contexts
                &&& r.1@.names == st.names
                &&& match r.0 {
                    Ok(e) => outcome matches Parsed::Done(tree, _) && e@ == tree,
                    Err(error) => outcome matches Parsed::Failed(f) && error@ == located(
                        input@,
                        f.pos,
                        f.trail,
                    ),
                }
            }),
            crate::keys::scopes_keyed(ctx_state@.contexts) ==> crate::keys::scopes_keyed(
                r.1@.contexts,
            ) && (r.0 matches Ok(e) ==> e.wf()),
    {
        proof {
            if crate::keys::scopes_keyed(ctx_state@.contexts) {
                crate::keys::law_parsing_orders_keys(input@, parse_start(ctx_state@));
            }
        }
        let chars = chars_of(input);
        let mut state = ParseState::new(ctx_state);
        let outcome = Self::parse_whole(&chars, &mut state);
        let r = match outcome {
            Ok((e, _)) => Ok(e),
            Err(f) => Err(ParseError::from_failure(&chars, f.pos, &f.trail)),
        };
        (r, state.ctx_state)
    }
}

} // verus!

//! RESL, a small expression language for configuration: a parser, a lazy
//! evaluator over lexical scopes, and a formatter.

pub mod binding;
pub mod context;
pub mod error;
pub mod eval;
pub mod expr;
pub mod float;
pub mod fmt;
pub mod grammar;
pub mod ident;
pub mod infix;
pub mod keys;
pub mod laws;
pub mod layout;
pub mod interner;
pub mod lex;
pub mod order;
pub mod parse;
pub mod prefix;
pub mod readback;
pub mod semantics;
pub mod state;
pub mod text;
pub mod value;

pub use crate::binding::Binding;
pub use crate::context::Context;
pub use crate::error::ParseError;
pub use crate::expr::{Block, Defined, Expr, Fn, FnCall, ForEach, IfElse, Index, InfixOp, PrefixOp};
pub use crate::float::FloatOps;
pub use crate::ident::Ident;
pub use crate::state::{CtxState, EvalState, FmtState, ParseState};
pub use crate::value::Value;

use vstd::prelude::*;
use crate::error::located;
use crate::expr::ExprView;
use crate::float::{consistent, Answers, FloatCall, FloatModel};
use crate::grammar::{whole, ParseView, Parsed};
use crate::parse::parse_start;
use crate::semantics::{eval_expr, EvalView};
use crate::state::{fresh_contexts, CtxStateView};
use crate::context::builtin_names;
use crate::layout::{expr_text, Style};
use crate::value::{value_text, ValueView};

verus! {

/// How deep an evaluation may nest: deeper than any program that a machine
/// holds can ask for, unless it goes round in circles.
pub const MAX_DEPTH: usize = usize::MAX;

/// The outcome of parsing `input` in a fresh session, and the state that
/// the parse leaves behind.
pub open spec fn parsed(input: Seq<char>) -> (Parsed<ExprView>, ParseView) {
    whole(input, parse_start(CtxStateView { contexts: fresh_contexts(), names: builtin_names() }))
}

/// The error that describes the failure of parsing `input`, where it fails:
/// it is located where the input was left.
pub open spec fn failure_of(input: Seq<char>) -> crate::error::ParseErrorView {
    located(input, parsed(input).0->Failed_0.pos, parsed(input).0->Failed_0.trail)
}

/// The state in which the evaluation of a parsed input starts: the scopes
/// that the parse has placed, with the root scope active.
pub open spec fn eval_start(input: Seq<char>) -> EvalView {
    EvalView {
        contexts: parsed(input).1.contexts,
        names: parsed(input).1.names,
        active: 0,
        emitted: Seq::empty(),
    }
}

/// Whether `v` and `emitted` are the value of the tree `tree` of `input`
/// and the lines that its evaluation emits, under every float model that
/// explains `log`, and there is such a model.
pub open spec fn is_value_of(
    v: ValueView,
    emitted: Seq<Seq<char>>,
    input: Seq<char>,
    tree: ExprView,
    log: Seq<FloatCall>,
) -> bool {
    consistent(log) && forall|fm: FloatModel| #[trigger]
        fm.explains(log) ==> {
            let (value, st) = eval_expr(tree, eval_start(input), MAX_DEPTH as nat, fm);
            v == value && emitted == st.emitted
        }
}

/// Whether evaluating `input`, which parses, gives the value `v` and emits
/// the lines `emitted`: there are answers of the floating-point operations,
/// no two of them to one question, such that `v` and `emitted` are the value
/// and the lines under every float model that explains them.  So where the
/// value does not depend on the model, `v` is that value.
pub open spec fn gives(input: Seq<char>, v: ValueView, emitted: Seq<Seq<char>>) -> bool {
    exists|log: Seq<FloatCall>| is_value_of(v, emitted, input, parsed(input).0->Done_0, log)
}

/// Evaluates `input` in a fresh session and gives its value together with
/// the lines that `debug` has emitted.
///
/// The input is parsed as [`parsed`] says.  Where that fails, the error
/// describes the failure.  Otherwise the tree is evaluated from the root
/// scope, to the depth [`MAX_DEPTH`]; floats are computed by `floats`, and
/// the result is the value of the tree under every float model that
/// explains the answers given.
pub fn evaluate_with_output<F: FloatOps>(input: &str, floats: &F) -> (r: Result<
    (Value, Vec<String>),
    ParseError,
>)
    ensures
        match r {
            Ok((v, lines)) => parsed(input@).0 is Done && gives(
                input@,
                v@,
                crate::state::lines_view(lines@),
            ) && v.wf(),
            Err(error) => parsed(input@).0 is Failed && error@ == failure_of(input@),
        },
{
    let fresh = CtxState::new();
    assert(fresh@.contexts.len() == 1);
    let ghost start = fresh@;
    let (outcome, ctx_state) = Expr::parse_all(input, fresh);
    assert(start == (CtxStateView { contexts: fresh_contexts(), names: builtin_names() }));
    assert(whole(input@, parse_start(start)) == parsed(input@));
    match outcome {
        Err(error) => Err(error),
        Ok(expression) => {
            let mut state = EvalState::new(ctx_state, floats);
            let value = expression.evaluate(&mut state, MAX_DEPTH);
            proof {
                assert(is_value_of(
                    value@,
                    crate::state::lines_view(state.emitted@),
                    input@,
                    expression@,
                    state.float_log@,
                ));
                crate::keys::law_values_are_well_formed(
                    input@,
                    value@,
                    crate::state::lines_view(state.emitted@),
                );
            }
            Ok((value, state.emitted))
        },
    }
}

/// Evaluates `input` in a fresh session and gives its value, as
/// [`evaluate_with_output`] does.
pub fn evaluate<F: FloatOps>(input: &str, floats: &F) -> (r: Result<Value, ParseError>)
    ensures
        match r {
            Ok(v) => parsed(input@).0 is Done && v.wf() && exists|emitted: Seq<Seq<char>>|
                gives(input@, v@, emitted),
            Err(error) => parsed(input@).0 is Failed && error@ == failure_of(input@),
        },
{
    match evaluate_with_output(input, floats) {
        Ok((value, _)) => Ok(value),
        Err(error) => Err(error),
    }
}

/// Whether `text` is the text of the tree `tree` of `input` under every
/// float model that explains `log`, and there is such a model.
pub open spec fn is_layout_of(
    text: Seq<char>,
    input: Seq<char>,
    tree: ExprView,
    pretty: bool,
    log: Seq<FloatCall>,
) -> bool {
    consistent(log) && forall|fm: FloatModel| #[trigger]
        fm.explains(log) ==> text == expr_text(
            tree,
            Style {
                session: CtxStateView {
                    contexts: parsed(input).1.contexts,
                    names: parsed(input).1.names,
                },
                pretty,
                fm,
            },
            0,
            0,
        )
}

/// Whether formatting `input`, which parses, gives `text`.
pub open spec fn lays_out(input: Seq<char>, pretty: bool, text: Seq<char>) -> bool {
    exists|log: Seq<FloatCall>| is_layout_of(text, input, parsed(input).0->Done_0, pretty, log)
}

/// Parses `input` in a fresh session and writes the tree again, compact or
/// pretty.  Where the input does not parse, the error describes the
/// failure.
pub fn format<F: FloatOps>(input: &str, pretty: bool, floats: &F) -> (r: Result<String, ParseError>)
    ensures
        match r {
            Ok(text) => parsed(input@).0 is Done && lays_out(input@, pretty, text@),
            Err(error) => parsed(input@).0 is Failed && error@ == failure_of(input@),
        },
{
    let fresh = CtxState::new();
    assert(fresh@.contexts.len() == 1);
    let ghost start = fresh@;
    let (outcome, ctx_state) = Expr::parse_all(input, fresh);
    assert(start == (CtxStateView { contexts: fresh_contexts(), names: builtin_names() }));
    assert(whole(input@, parse_start(start)) == parsed(input@));
    match outcome {
        Err(error) => Err(error),
        Ok(expression) => {
            let mut writer = String::new();
            let mut log = Answers::new();
            let state = FmtState::new(pretty, &ctx_state);
            expression.format(&mut writer, state, floats, &mut log);
            proof {
                let session = CtxStateView {
                    contexts: parsed(input@).1.contexts,
                    names: parsed(input@).1.names,
                };
                assert(ctx_state@ == session);
                assert forall|fm: FloatModel| #[trigger] fm.explains(log@) implies writer@
                    == expr_text(expression@, Style { session, pretty, fm }, 0, 0) by {
                    assert(crate::fmt::style_of(state, fm) == (Style { session, pretty, fm }));
                    assert(writer@ =~= Seq::<char>::empty() + expr_text(
                        expression@,
                        Style { session, pretty, fm },
                        0,
                        0,
                    ));
                }
                assert(is_layout_of(writer@, input@, expression@, pretty, log@));
            }
            Ok(writer)
        },
    }
}

/// Whether `text` is the text of the value of the tree `tree` of `input`
/// under every float model that explains `log`, and there is such a model.
pub open spec fn is_text_of_value(
    text: Seq<char>,
    input: Seq<char>,
    tree: ExprView,
    pretty: bool,
    log: Seq<FloatCall>,
) -> bool {
    consistent(log) && forall|fm: FloatModel| #[trigger]
        fm.explains(log) ==> text == value_text(
            eval_expr(tree, eval_start(input), MAX_DEPTH as nat, fm).0,
            pretty,
            0,
            fm,
        )
}

/// Whether evaluating `input`, which parses, and writing its value gives
/// `text`.
pub open spec fn shows(input: Seq<char>, pretty: bool, text: Seq<char>) -> bool {
    exists|log: Seq<FloatCall>| is_text_of_value(text, input, parsed(input).0->Done_0, pretty, log)
}

/// Evaluates `input` in a fresh session and writes its value, compact or
/// pretty.  Where the input does not parse, the error describes the
/// failure.
pub fn evaluate_and_format<F: FloatOps>(input: &str, pretty: bool, floats: &F) -> (r: Result<
    String,
    ParseError,
>)
    ensures
        match r {
            Ok(text) => parsed(input@).0 is Done && shows(input@, pretty, text@),
            Err(error) => parsed(input@).0 is Failed && error@ == failure_of(input@),
        },
{
    let fresh = CtxState::new();
    assert(fresh@.contexts.len() == 1);
    let ghost start = fresh@;
    let (outcome, ctx_state) = Expr::parse_all(input, fresh);
    assert(start == (CtxStateView { contexts: fresh_contexts(), names: builtin_names() }));
    assert(whole(input@, parse_start(start)) == parsed(input@));
    match outcome {
        Err(error) => Err(error),
        Ok(expression) => {
            let mut state = EvalState::new(ctx_state, floats);
            let value = expression.evaluate(&mut state, MAX_DEPTH);
            let ghost log1 = state.float_log@;
            let mut writer = String::new();
            value.format(&mut writer, pretty, 0, floats, &mut state.float_log);
            proof {
                assert forall|fm: FloatModel| #[trigger] fm.explains(state.float_log@) implies writer@
                    == value_text(
                    eval_expr(expression@, eval_start(input@), MAX_DEPTH as nat, fm).0,
                    pretty,
                    0,
                    fm,
                ) by {
                    crate::float::lemma_explains_prefix(fm, log1, state.float_log@);
                    assert(writer@ =~= Seq::<char>::empty() + value_text(value@, pretty, 0, fm));
                }
                assert(is_text_of_value(writer@, input@, expression@, pretty, state.float_log@));
            }
            Ok(writer)
        },
    }
}

} // verus!

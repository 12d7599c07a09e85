//! The evaluator: it computes what [`crate::semantics`] defines.

use vstd::prelude::*;
use vstd::string::StrSliceExecFns;
use vstd::string::StringExecFns;
use crate::binding::{Binding, BindingView};
use crate::context::views_of;
use crate::expr::{
    exprs_view, indices_view, keyed_view, lemma_call_view, lemma_index_view, lemma_list_view,
    lemma_mapping_view, Block, BuiltIn, Defined, Expr, ExprView, Fn, FnCall, ForEach, IfElse, Index,
    IndexType, IndexView, InfixOp, PrefixOp, RangeBounds,
};
use crate::float::{
    ask_decimal, consistent, lemma_explains_prefix, lemma_prefix_chain, FloatModel, FloatOps,
};
use crate::ident::Ident;
use crate::infix::compute_infix;
use crate::prefix::compute_prefix;
use crate::semantics::{
    argument_bindings, assign_in, cacheable, count_value, eval_bracket, eval_brackets,
    eval_builtin, eval_call, eval_concat, eval_entries, eval_expr, eval_for_each, eval_ident,
    eval_index, eval_items, eval_bound, eval_keyed_rounds, eval_rounds, inserted, insertion_place,
    kind_name, reset_in, round_bindings, slice_between, EvalView,
};
use crate::state::{bindings_at, EvalState};
use crate::value;
use crate::value::{entries_view, list_view, mapping_get, mapping_insert, Value, ValueView};

verus! {

/// The view of a value that may be missing.
pub open spec fn found_view(v: Option<Value>) -> Option<ValueView> {
    match v {
        Some(v) => Some(v@),
        None => None,
    }
}

/// A count as a 64-bit integer.
fn count_of(n: usize) -> (r: i64)
    ensures
        r == count_value(n as nat),
{
    if (n as u64) <= 0x7fff_ffff_ffff_ffffu64 {
        n as i64
    } else {
        i64::MAX
    }
}

/// Evaluates the expressions of a list in order.
pub fn evaluate_list<F: FloatOps>(list: &Vec<Expr>, state: &mut EvalState<F>, depth: usize) -> (r:
    Vec<Value>)
    ensures
        old(state).float_log@.is_prefix_of(final(state).float_log@),
        consistent(final(state).float_log@),
        forall|fm: FloatModel| #[trigger]
            fm.explains(final(state).float_log@) ==> (list_view(r@), final(state)@) == eval_items(
                exprs_view(list@),
                list@.len(),
                old(state)@,
                depth as nat,
                fm,
            ),
    decreases depth, 2nat, 0nat,
{
    proof {
        use_type_invariant(&state.float_log);
    }
    let mut out: Vec<Value> = Vec::new();
    let mut i: usize = 0;
    assert(list_view(out@) =~= Seq::empty());
    while i < list.len()
        invariant
            i <= list.len(),
            old(state).float_log@.is_prefix_of(state.float_log@),
            consistent(state.float_log@),
            forall|fm: FloatModel| #[trigger]
                fm.explains(state.float_log@) ==> (list_view(out@), state@) == eval_items(
                    exprs_view(list@),
                    i as nat,
                    old(state)@,
                    depth as nat,
                    fm,
                ),
        decreases list.len() - i,
    {
        let ghost log_before = state.float_log@;
        let ghost out_before = out@;
        let v = list[i].evaluate(state, depth);
        out.push(v);
        i += 1;
        proof {
            lemma_prefix_chain(old(state).float_log@, log_before, state.float_log@);
            assert(list_view(out@) =~= list_view(out_before).push(v@));
            assert forall|fm: FloatModel| #[trigger] fm.explains(state.float_log@) implies (
                list_view(out@),
                state@,
            ) == eval_items(exprs_view(list@), i as nat, old(state)@, depth as nat, fm) by {
                lemma_explains_prefix(fm, log_before, state.float_log@);
                assert(exprs_view(list@)[i - 1] == list@[i - 1]@);
            }
        }
    }
    out
}

/// Evaluates the expressions of a mapping in order, each under its key.
pub fn evaluate_mapping<F: FloatOps>(
    entries: &Vec<(String, Expr)>,
    state: &mut EvalState<F>,
    depth: usize,
) -> (r: Vec<(String, Value)>)
    ensures
        old(state).float_log@.is_prefix_of(final(state).float_log@),
        consistent(final(state).float_log@),
        forall|fm: FloatModel| #[trigger]
            fm.explains(final(state).float_log@) ==> (entries_view(r@), final(state)@)
                == eval_entries(
                keyed_view(entries@),
                entries@.len(),
                old(state)@,
                depth as nat,
                fm,
            ),
    decreases depth, 2nat, 0nat,
{
    proof {
        use_type_invariant(&state.float_log);
    }
    let mut out: Vec<(String, Value)> = Vec::new();
    let mut i: usize = 0;
    assert(entries_view(out@) =~= Seq::empty());
    while i < entries.len()
        invariant
            i <= entries.len(),
            old(state).float_log@.is_prefix_of(state.float_log@),
            consistent(state.float_log@),
            forall|fm: FloatModel| #[trigger]
                fm.explains(state.float_log@) ==> (entries_view(out@), state@) == eval_entries(
                    keyed_view(entries@),
                    i as nat,
                    old(state)@,
                    depth as nat,
                    fm,
                ),
        decreases entries.len() - i,
    {
        let ghost log_before = state.float_log@;
        let ghost out_before = out@;
        let v = entries[i].1.evaluate(state, depth);
        let key = entries[i].0.clone();
        out.push((key, v));
        i += 1;
        proof {
            lemma_prefix_chain(old(state).float_log@, log_before, state.float_log@);
            assert(entries_view(out@) =~= entries_view(out_before).push((key@, v@)));
            assert forall|fm: FloatModel| #[trigger] fm.explains(state.float_log@) implies (
                entries_view(out@),
                state@,
            ) == eval_entries(keyed_view(entries@), i as nat, old(state)@, depth as nat, fm) by {
                lemma_explains_prefix(fm, log_before, state.float_log@);
                assert(keyed_view(entries@)[i - 1] == (entries@[i - 1].0@, entries@[i - 1].1@));
            }
        }
    }
    out
}

impl Expr {
    /// Evaluates the expression, as [`eval_expr`] says.
    pub fn evaluate<F: FloatOps>(&self, state: &mut EvalState<F>, depth: usize) -> (r: Value)
        ensures
            old(state).float_log@.is_prefix_of(final(state).float_log@),
            consistent(final(state).float_log@),
            forall|fm: FloatModel| #[trigger]
                fm.explains(final(state).float_log@) ==> (r@, final(state)@) == eval_expr(
                    self@,
                    old(state)@,
                    depth as nat,
                    fm,
                ),
        decreases depth, 0nat, 0nat,
    {
        proof {
            use_type_invariant(&state.float_log);
        }
        if depth == 0 {
            return Value::Null;
        }
        let inner = depth - 1;
        match self {
            Expr::Null => Value::Null,
            Expr::Str(s) => Value::String(s.clone()),
            Expr::Int(i) => Value::Integer(*i),
            Expr::Float(text) => {
                let bits = ask_decimal(state.floats, text.as_str(), &mut state.float_log);
                Value::Float(bits)
            },
            Expr::Bool(b) => Value::Boolean(*b),
            Expr::List(list) => {
                let values = evaluate_list(list, state, inner);
                proof {
                    lemma_list_view(*list);
                    value::lemma_list_view(values);
                }
                Value::List(values)
            },
            Expr::Mapping(entries) => {
                let values = evaluate_mapping(entries, state, inner);
                proof {
                    lemma_mapping_view(*entries);
                    value::lemma_mapping_view(values);
                }
                Value::Mapping(values)
            },
            Expr::Ident(ident) => {
                match ident.evaluate(state, inner) {
                    Some(v) => v,
                    None => Value::Null,
                }
            },
            Expr::Index(index) => {
                proof {
                    lemma_index_view(*index);
                }
                index.evaluate(state, inner)
            },
            Expr::InfixOp(infix_op) => infix_op.evaluate(state, inner),
            Expr::PrefixOp(prefix_op) => prefix_op.compute(state, inner),
            Expr::Block(block) => block.evaluate(state, inner),
            Expr::IfElse(if_else) => if_else.evaluate(state, inner),
            Expr::ForEach(for_each) => for_each.evaluate(state, inner),
            Expr::Fn(function) => function.evaluate(state),
            Expr::FnCall(fn_call) => {
                proof {
                    lemma_call_view(*fn_call);
                }
                fn_call.evaluate(state, inner)
            },
        }
    }
}

impl Fn {
    /// A function has no value of its own: null.
    pub fn evaluate<F: FloatOps>(&self, state: &mut EvalState<F>) -> (r: Value)
        ensures
            r@ == ValueView::Null,
            *final(state) == *old(state),
    {
        Value::Null
    }
}

impl InfixOp {
    /// Evaluates both operands, the left one first, and applies the
    /// operator.
    pub fn evaluate<F: FloatOps>(&self, state: &mut EvalState<F>, depth: usize) -> (r: Value)
        ensures
            old(state).float_log@.is_prefix_of(final(state).float_log@),
            consistent(final(state).float_log@),
            forall|fm: FloatModel| #[trigger]
                fm.explains(final(state).float_log@) ==> (r@, final(state)@) == eval_expr(
                    Expr::InfixOp(*self)@,
                    old(state)@,
                    (depth + 1) as nat,
                    fm,
                ),
        decreases depth, 3nat, 0nat,
    {
        proof {
            use_type_invariant(&state.float_log);
        }
        let ghost log0 = state.float_log@;
        let lhs_value = self.lhs.evaluate(state, depth);
        let ghost log1 = state.float_log@;
        let rhs_value = self.rhs.evaluate(state, depth);
        let ghost log2 = state.float_log@;
        let r = compute_infix(self.op, &lhs_value, &rhs_value, state.floats, &mut state.float_log);
        proof {
            lemma_prefix_chain(log0, log1, log2);
            lemma_prefix_chain(log0, log2, state.float_log@);
            lemma_prefix_chain(log1, log2, state.float_log@);
            assert forall|fm: FloatModel| #[trigger] fm.explains(state.float_log@) implies (
                r@,
                state@,
            ) == eval_expr(Expr::InfixOp(*self)@, old(state)@, (depth + 1) as nat, fm) by {
                lemma_explains_prefix(fm, log1, state.float_log@);
                lemma_explains_prefix(fm, log2, state.float_log@);
            }
        }
        r
    }
}

impl PrefixOp {
    /// Evaluates the operand and applies the operator.
    pub fn compute<F: FloatOps>(&self, state: &mut EvalState<F>, depth: usize) -> (r: Value)
        ensures
            old(state).float_log@.is_prefix_of(final(state).float_log@),
            consistent(final(state).float_log@),
            forall|fm: FloatModel| #[trigger]
                fm.explains(final(state).float_log@) ==> (r@, final(state)@) == eval_expr(
                    Expr::PrefixOp(*self)@,
                    old(state)@,
                    (depth + 1) as nat,
                    fm,
                ),
        decreases depth, 3nat, 0nat,
    {
        proof {
            use_type_invariant(&state.float_log);
        }
        let value = self.operand.evaluate(state, depth);
        compute_prefix(self.op, &value)
    }
}

impl Block {
    /// Evaluates the final expression in the scope of the block.
    pub fn evaluate<F: FloatOps>(&self, state: &mut EvalState<F>, depth: usize) -> (r: Value)
        ensures
            old(state).float_log@.is_prefix_of(final(state).float_log@),
            consistent(final(state).float_log@),
            forall|fm: FloatModel| #[trigger]
                fm.explains(final(state).float_log@) ==> (r@, final(state)@) == eval_expr(
                    Expr::Block(*self)@,
                    old(state)@,
                    (depth + 1) as nat,
                    fm,
                ),
        decreases depth, 3nat, 0nat,
    {
        proof {
            use_type_invariant(&state.float_log);
        }
        let current_ctx_idx = state.active_ctx_idx();
        state.set_active_ctx(self.ctx_idx);
        let value = self.return_expr.evaluate(state, depth);
        state.set_active_ctx(current_ctx_idx);
        value
    }
}

impl IfElse {
    /// Evaluates the condition, and then the branch that it chooses.
    pub fn evaluate<F: FloatOps>(&self, state: &mut EvalState<F>, depth: usize) -> (r: Value)
        ensures
            old(state).float_log@.is_prefix_of(final(state).float_log@),
            consistent(final(state).float_log@),
            forall|fm: FloatModel| #[trigger]
                fm.explains(final(state).float_log@) ==> (r@, final(state)@) == eval_expr(
                    Expr::IfElse(*self)@,
                    old(state)@,
                    (depth + 1) as nat,
                    fm,
                ),
        decreases depth, 3nat, 0nat,
    {
        proof {
            use_type_invariant(&state.float_log);
        }
        let ghost log0 = state.float_log@;
        let condition = self.if_expr.evaluate(state, depth);
        let ghost log1 = state.float_log@;
        match condition {
            Value::Boolean(chosen) => {
                let r = if chosen {
                    self.then_expr.evaluate(state, depth)
                } else {
                    self.else_expr.evaluate(state, depth)
                };
                proof {
                    lemma_prefix_chain(log0, log1, state.float_log@);
                    assert forall|fm: FloatModel| #[trigger] fm.explains(state.float_log@) implies (
                        r@,
                        state@,
                    ) == eval_expr(Expr::IfElse(*self)@, old(state)@, (depth + 1) as nat, fm) by {
                        lemma_explains_prefix(fm, log1, state.float_log@);
                    }
                }
                r
            },
            _ => Value::Null,
        }
    }
}

impl Ident {
    /// Finds out the value of the name, as [`eval_ident`] says.
    pub fn evaluate<F: FloatOps>(&self, state: &mut EvalState<F>, depth: usize) -> (r: Option<Value>)
        ensures
            old(state).float_log@.is_prefix_of(final(state).float_log@),
            consistent(final(state).float_log@),
            forall|fm: FloatModel| #[trigger]
                fm.explains(final(state).float_log@) ==> (found_view(r), final(state)@)
                    == eval_ident(self.0, old(state)@, depth as nat, fm),
        decreases depth, 1nat, 0nat,
    {
        proof {
            use_type_invariant(&state.float_log);
        }
        let current_ctx_idx = state.active_ctx_idx();
        let ctx_idx = match state.find_ctx_with_ident(self) {
            Some(ctx_idx) => ctx_idx,
            None => {
                return None;
            },
        };
        proof {
            crate::state::lemma_find_scope(state@.contexts, state@.active as int, self.0);
        }
        if !state.ctx_state.initiate_lookup(ctx_idx, self) {
            proof {
                let before = old(state)@.contexts;
                assert(before[ctx_idx as int].in_progress.insert(self.0)
                    =~= before[ctx_idx as int].in_progress);
                assert(state@.contexts =~= before);
            }
            return None;
        }
        state.set_active_ctx(ctx_idx);
        match state.ctx_state.binding(ctx_idx, self) {
            Some(Binding::Expr(expr)) => {
                let cacheable = expr.should_be_cached();
                let value = expr.evaluate(state, depth);
                if cacheable {
                    state.ctx_state.cache(ctx_idx, self, value);
                }
            },
            _ => {},
        }
        state.ctx_state.conclude_lookup(ctx_idx, self);
        state.set_active_ctx(current_ctx_idx);
        let r = match state.ctx_state.binding(ctx_idx, self) {
            Some(Binding::Cached(value)) => Some(value),
            _ => None,
        };
        r
    }
}

/// The view of a bound that may be missing.
pub open spec fn bound_view(bound: Option<i64>) -> Option<int> {
    match bound {
        Some(b) => Some(b as int),
        None => None,
    }
}

/// The bound that the value of an expression gives for a range.
fn expr_to_bound<F: FloatOps>(expr: &Expr, state: &mut EvalState<F>, depth: usize) -> (r: Option<
    i64,
>)
    ensures
        old(state).float_log@.is_prefix_of(final(state).float_log@),
        consistent(final(state).float_log@),
        forall|fm: FloatModel| #[trigger]
            fm.explains(final(state).float_log@) ==> (bound_view(r), final(state)@) == eval_bound(
                expr@,
                old(state)@,
                depth as nat,
                fm,
            ),
    decreases depth, 1nat, 0nat,
{
    proof {
        use_type_invariant(&state.float_log);
    }
    match expr.evaluate(state, depth) {
        Value::Integer(number) => {
            if number >= 0 {
                Some(number)
            } else {
                None
            }
        },
        _ => None,
    }
}

/// A copy of the items of `list` from `start` up to `end`.
fn copy_range(list: &Vec<Value>, start: usize, end: usize) -> (r: Value)
    requires
        start <= end <= list.len(),
    ensures
        r@ == ValueView::List(list_view(list@).subrange(start as int, end as int)),
{
    let mut out: Vec<Value> = Vec::new();
    let mut i: usize = start;
    while i < end
        invariant
            start <= i <= end <= list.len(),
            out.len() == i - start,
            forall|j: int| 0 <= j < out.len() ==> out@[j]@ == list@[start + j]@,
        decreases end - i,
    {
        out.push(list[i].duplicate());
        i += 1;
    }
    proof {
        value::lemma_list_view(out);
        assert(list_view(out@) =~= list_view(list@).subrange(start as int, end as int));
    }
    Value::List(out)
}

/// The part of `list` between the bounds, where they satisfy `0 <= start
/// <= end <= len`.
fn slice_of(list: &Vec<Value>, start: i64, end: u64) -> (r: Option<Value>)
    ensures
        found_view(r) == slice_between(list_view(list@), start as int, end as int),
{
    if 0 <= start && (start as u64) <= end && end <= (list.len() as u64) {
        Some(copy_range(list, start as usize, end as usize))
    } else {
        None
    }
}

/// Applies a bracket that holds one expression.
fn apply_single<F: FloatOps>(index_expr: &Expr, value: Value, state: &mut EvalState<F>, depth: usize) -> (r:
    Option<Value>)
    ensures
        old(state).float_log@.is_prefix_of(final(state).float_log@),
        consistent(final(state).float_log@),
        forall|fm: FloatModel| #[trigger]
            fm.explains(final(state).float_log@) ==> (found_view(r), final(state)@) == eval_bracket(
                value@,
                IndexView::Single(index_expr@),
                old(state)@,
                depth as nat,
                fm,
            ),
    decreases depth, 1nat, 0nat,
{
    proof {
        use_type_invariant(&state.float_log);
    }
    let index_value = index_expr.evaluate(state, depth);
    match index_value {
        Value::String(string) => {
            match &value {
                Value::Mapping(map) => {
                    proof {
                        value::lemma_mapping_view(*map);
                    }
                    Some(mapping_get(map, string.as_str()))
                },
                _ => None,
            }
        },
        Value::Integer(number) => {
            match &value {
                Value::List(list) => {
                    proof {
                        value::lemma_list_view(*list);
                    }
                    if number >= 0 {
                        if (number as u64) < (list.len() as u64) {
                            Some(list[number as usize].duplicate())
                        } else {
                            Some(Value::Null)
                        }
                    } else {
                        None
                    }
                },
                _ => None,
            }
        },
        _ => None,
    }
}

/// Applies a range that starts at the value of `index`.
fn apply_starting_from<F: FloatOps>(
    index: &Expr,
    value: Value,
    state: &mut EvalState<F>,
    depth: usize,
) -> (r: Option<Value>)
    ensures
        old(state).float_log@.is_prefix_of(final(state).float_log@),
        consistent(final(state).float_log@),
        forall|fm: FloatModel| #[trigger]
            fm.explains(final(state).float_log@) ==> (found_view(r), final(state)@) == eval_bracket(
                value@,
                IndexView::From(index@),
                old(state)@,
                depth as nat,
                fm,
            ),
    decreases depth, 2nat, 0nat,
{
    proof {
        use_type_invariant(&state.float_log);
    }
    match &value {
        Value::List(list) => {
            proof {
                value::lemma_list_view(*list);
            }
            match expr_to_bound(index, state, depth) {
                Some(start) => slice_of(list, start, list.len() as u64),
                None => None,
            }
        },
        _ => None,
    }
}

/// Applies a range that ends at the value of `end`.
fn apply_ending_at<F: FloatOps>(end: &Expr, value: Value, state: &mut EvalState<F>, depth: usize) -> (r:
    Option<Value>)
    ensures
        old(state).float_log@.is_prefix_of(final(state).float_log@),
        consistent(final(state).float_log@),
        forall|fm: FloatModel| #[trigger]
            fm.explains(final(state).float_log@) ==> (found_view(r), final(state)@) == eval_bracket(
                value@,
                IndexView::To(end@),
                old(state)@,
                depth as nat,
                fm,
            ),
    decreases depth, 2nat, 0nat,
{
    proof {
        use_type_invariant(&state.float_log);
    }
    match &value {
        Value::List(list) => {
            proof {
                value::lemma_list_view(*list);
            }
            match expr_to_bound(end, state, depth) {
                Some(end) => slice_of(list, 0, end as u64),
                None => None,
            }
        },
        _ => None,
    }
}

/// Applies a range with both bounds.
fn apply_from_to<F: FloatOps>(
    start: &Expr,
    end: &Expr,
    value: Value,
    state: &mut EvalState<F>,
    depth: usize,
) -> (r: Option<Value>)
    ensures
        old(state).float_log@.is_prefix_of(final(state).float_log@),
        consistent(final(state).float_log@),
        forall|fm: FloatModel| #[trigger]
            fm.explains(final(state).float_log@) ==> (found_view(r), final(state)@) == eval_bracket(
                value@,
                IndexView::FromTo(start@, end@),
                old(state)@,
                depth as nat,
                fm,
            ),
    decreases depth, 2nat, 0nat,
{
    proof {
        use_type_invariant(&state.float_log);
    }
    match &value {
        Value::List(list) => {
            proof {
                value::lemma_list_view(*list);
            }
            let ghost log0 = state.float_log@;
            match expr_to_bound(start, state, depth) {
                Some(low) => {
                    let ghost log1 = state.float_log@;
                    let found = expr_to_bound(end, state, depth);
                    let r = match found {
                        Some(high) => slice_of(list, low, high as u64),
                        None => None,
                    };
                    proof {
                        lemma_prefix_chain(log0, log1, state.float_log@);
                        assert forall|fm: FloatModel| #[trigger]
                            fm.explains(state.float_log@) implies (found_view(r), state@)
                            == eval_bracket(
                            value@,
                            IndexView::FromTo(start@, end@),
                            old(state)@,
                            depth as nat,
                            fm,
                        ) by {
                            lemma_explains_prefix(fm, log1, state.float_log@);
                        }
                    }
                    r
                },
                None => None,
            }
        },
        _ => None,
    }
}

impl IndexType {
    /// Applies one bracket to `value`, as [`eval_bracket`] says.
    pub fn apply<F: FloatOps>(&self, value: Value, state: &mut EvalState<F>, depth: usize) -> (r:
        Option<Value>)
        ensures
            old(state).float_log@.is_prefix_of(final(state).float_log@),
            consistent(final(state).float_log@),
            forall|fm: FloatModel| #[trigger]
                fm.explains(final(state).float_log@) ==> (found_view(r), final(state)@)
                    == eval_bracket(value@, self@, old(state)@, depth as nat, fm),
        decreases depth, 3nat, 0nat,
    {
        proof {
            use_type_invariant(&state.float_log);
        }
        match self {
            IndexType::Single(index_expr) => apply_single(index_expr, value, state, depth),
            IndexType::Range(RangeBounds::StartingFrom(index)) => apply_starting_from(
                index,
                value,
                state,
                depth,
            ),
            IndexType::Range(RangeBounds::EndingAt(end)) => apply_ending_at(end, value, state, depth),
            IndexType::Range(RangeBounds::FromTo(start, end)) => apply_from_to(
                start,
                end,
                value,
                state,
                depth,
            ),
        }
    }
}

impl Index {
    /// Applies the brackets from `from` on to `value`, as [`eval_brackets`]
    /// says.
    pub fn apply_from<F: FloatOps>(
        &self,
        value: Value,
        from: usize,
        state: &mut EvalState<F>,
        depth: usize,
    ) -> (r: Value)
        ensures
            old(state).float_log@.is_prefix_of(final(state).float_log@),
            consistent(final(state).float_log@),
            forall|fm: FloatModel| #[trigger]
                fm.explains(final(state).float_log@) ==> (r@, final(state)@) == eval_brackets(
                    value@,
                    indices_view(self.indices@),
                    from as nat,
                    old(state)@,
                    depth as nat,
                    fm,
                ),
        decreases depth, 4nat, self.indices.len() - from,
    {
        proof {
            use_type_invariant(&state.float_log);
        }
        if from >= self.indices.len() {
            return value;
        }
        let ghost log0 = state.float_log@;
        assert(indices_view(self.indices@)[from as int] == self.indices@[from as int]@);
        match self.indices[from].apply(value, state, depth) {
            Some(next) => {
                let ghost log1 = state.float_log@;
                let r = self.apply_from(next, from + 1, state, depth);
                proof {
                    lemma_prefix_chain(log0, log1, state.float_log@);
                    assert forall|fm: FloatModel| #[trigger] fm.explains(state.float_log@) implies (
                        r@,
                        state@,
                    ) == eval_brackets(
                        value@,
                        indices_view(self.indices@),
                        from as nat,
                        old(state)@,
                        depth as nat,
                        fm,
                    ) by {
                        lemma_explains_prefix(fm, log1, state.float_log@);
                    }
                }
                r
            },
            None => Value::Null,
        }
    }

    /// Applies the brackets in turn to the value of the base, as
    /// [`eval_index`] says.
    pub fn evaluate<F: FloatOps>(&self, state: &mut EvalState<F>, depth: usize) -> (r: Value)
        ensures
            old(state).float_log@.is_prefix_of(final(state).float_log@),
            consistent(final(state).float_log@),
            forall|fm: FloatModel| #[trigger]
                fm.explains(final(state).float_log@) ==> (r@, final(state)@) == eval_index(
                    self.base.0,
                    indices_view(self.indices@),
                    old(state)@,
                    depth as nat,
                    fm,
                ),
        decreases depth, 5nat, 0nat,
    {
        proof {
            use_type_invariant(&state.float_log);
        }
        let ghost log0 = state.float_log@;
        let found = self.base.evaluate(state, depth);
        let ghost log1 = state.float_log@;
        let base_value = match found {
            Some(Value::List(items)) => Value::List(items),
            Some(Value::Mapping(entries)) => Value::Mapping(entries),
            _ => {
                return Value::Null;
            },
        };
        let r = self.apply_from(base_value, 0, state, depth);
        proof {
            lemma_prefix_chain(log0, log1, state.float_log@);
            assert forall|fm: FloatModel| #[trigger] fm.explains(state.float_log@) implies (
                r@,
                state@,
            ) == eval_index(
                self.base.0,
                indices_view(self.indices@),
                old(state)@,
                depth as nat,
                fm,
            ) by {
                lemma_explains_prefix(fm, log1, state.float_log@);
            }
        }
        r
    }
}

impl ForEach {
    /// Evaluates the body once for each item or entry of the base, as
    /// [`eval_for_each`] says.
    pub fn evaluate<F: FloatOps>(&self, state: &mut EvalState<F>, depth: usize) -> (r: Value)
        ensures
            old(state).float_log@.is_prefix_of(final(state).float_log@),
            consistent(final(state).float_log@),
            forall|fm: FloatModel| #[trigger]
                fm.explains(final(state).float_log@) ==> (r@, final(state)@) == eval_for_each(
                    self.base.0,
                    self.ctx_idx,
                    self.body@,
                    old(state)@,
                    depth as nat,
                    fm,
                ),
        decreases depth, 3nat, 0nat,
    {
        proof {
            use_type_invariant(&state.float_log);
        }
        let ghost log0 = state.float_log@;
        let found = self.base.evaluate(state, depth);
        let ghost log1 = state.float_log@;
        let current_ctx_idx = state.active_ctx_idx();
        match found {
            Some(Value::List(list)) => {
                proof {
                    value::lemma_list_view(list);
                }
                state.set_active_ctx(self.ctx_idx);
                let ghost st2 = state@;
                let ghost items = list_view(list@);
                let mut value_list: Vec<Value> = Vec::new();
                let mut i: usize = 0;
                assert(list_view(value_list@) =~= Seq::empty());
                while i < list.len()
                    invariant
                        i <= list.len(),
                        items == list_view(list@),
                        log1.is_prefix_of(state.float_log@),
                        consistent(state.float_log@),
                        forall|fm: FloatModel| #[trigger]
                            fm.explains(state.float_log@) ==> (list_view(value_list@), state@)
                                == eval_rounds(
                                items,
                                i as nat,
                                self.ctx_idx,
                                self.body@,
                                st2,
                                depth as nat,
                                fm,
                            ),
                    decreases list.len() - i,
                {
                    let ghost log_in = state.float_log@;
                    let ghost out_in = value_list@;
                    let mut round: Vec<Binding> = Vec::new();
                    round.push(Binding::Cached(Value::Integer(count_of(i))));
                    round.push(Binding::Cached(list[i].duplicate()));
                    assert(views_of(round@) =~= round_bindings(
                        ValueView::Integer(count_value(i as nat)),
                        items[i as int],
                    ));
                    state.ctx_state.assign(self.ctx_idx, &round);
                    let value = self.body.evaluate(state, depth);
                    value_list.push(value);
                    i += 1;
                    proof {
                        lemma_prefix_chain(log1, log_in, state.float_log@);
                        assert(list_view(value_list@) =~= list_view(out_in).push(value@));
                        assert forall|fm: FloatModel| #[trigger]
                            fm.explains(state.float_log@) implies (list_view(value_list@), state@)
                            == eval_rounds(
                            items,
                            i as nat,
                            self.ctx_idx,
                            self.body@,
                            st2,
                            depth as nat,
                            fm,
                        ) by {
                            lemma_explains_prefix(fm, log_in, state.float_log@);
                        }
                    }
                }
                state.set_active_ctx(current_ctx_idx);
                state.ctx_state.reset(self.ctx_idx);
                proof {
                    value::lemma_list_view(value_list);
                    lemma_prefix_chain(log0, log1, state.float_log@);
                    assert forall|fm: FloatModel| #[trigger] fm.explains(state.float_log@) implies (
                        Value::List(value_list)@,
                        state@,
                    ) == eval_for_each(
                        self.base.0,
                        self.ctx_idx,
                        self.body@,
                        old(state)@,
                        depth as nat,
                        fm,
                    ) by {
                        lemma_explains_prefix(fm, log1, state.float_log@);
                    }
                }
                Value::List(value_list)
            },
            Some(Value::Mapping(map)) => {
                proof {
                    value::lemma_mapping_view(map);
                }
                state.set_active_ctx(self.ctx_idx);
                let ghost st2 = state@;
                let ghost entries = entries_view(map@);
                let mut value_map: Vec<(String, Value)> = Vec::new();
                let mut i: usize = 0;
                assert(entries_view(value_map@) =~= Seq::empty());
                while i < map.len()
                    invariant
                        i <= map.len(),
                        entries == entries_view(map@),
                        log1.is_prefix_of(state.float_log@),
                        consistent(state.float_log@),
                        forall|fm: FloatModel| #[trigger]
                            fm.explains(state.float_log@) ==> (entries_view(value_map@), state@)
                                == eval_keyed_rounds(
                                entries,
                                i as nat,
                                self.ctx_idx,
                                self.body@,
                                st2,
                                depth as nat,
                                fm,
                            ),
                    decreases map.len() - i,
                {
                    let ghost log_in = state.float_log@;
                    let mut round: Vec<Binding> = Vec::new();
                    round.push(Binding::Cached(Value::String(map[i].0.clone())));
                    round.push(Binding::Cached(map[i].1.duplicate()));
                    assert(views_of(round@) =~= round_bindings(
                        ValueView::String(entries[i as int].0),
                        entries[i as int].1,
                    ));
                    state.ctx_state.assign(self.ctx_idx, &round);
                    let value = self.body.evaluate(state, depth);
                    mapping_insert(&mut value_map, map[i].0.clone(), value);
                    i += 1;
                    proof {
                        lemma_prefix_chain(log1, log_in, state.float_log@);
                        assert forall|fm: FloatModel| #[trigger]
                            fm.explains(state.float_log@) implies (entries_view(value_map@), state@)
                            == eval_keyed_rounds(
                            entries,
                            i as nat,
                            self.ctx_idx,
                            self.body@,
                            st2,
                            depth as nat,
                            fm,
                        ) by {
                            lemma_explains_prefix(fm, log_in, state.float_log@);
                        }
                    }
                }
                state.set_active_ctx(current_ctx_idx);
                state.ctx_state.reset(self.ctx_idx);
                proof {
                    value::lemma_mapping_view(value_map);
                    lemma_prefix_chain(log0, log1, state.float_log@);
                    assert forall|fm: FloatModel| #[trigger] fm.explains(state.float_log@) implies (
                        Value::Mapping(value_map)@,
                        state@,
                    ) == eval_for_each(
                        self.base.0,
                        self.ctx_idx,
                        self.body@,
                        old(state)@,
                        depth as nat,
                        fm,
                    ) by {
                        lemma_explains_prefix(fm, log1, state.float_log@);
                    }
                }
                Value::Mapping(value_map)
            },
            _ => Value::Null,
        }
    }
}

impl Defined {
    /// Calls the function on `args`: binds them to the parameters
    /// unevaluated, evaluates the body in the scope of the parameters, and
    /// unbinds the parameters.  Null where the number of arguments is not
    /// that of the parameters.
    pub fn evaluate<F: FloatOps>(&self, state: &mut EvalState<F>, args: &Vec<Expr>, depth: usize) -> (r:
        Value)
        ensures
            old(state).float_log@.is_prefix_of(final(state).float_log@),
            consistent(final(state).float_log@),
            forall|fm: FloatModel| #[trigger]
                fm.explains(final(state).float_log@) ==> (r@, final(state)@) == call_defined(
                    self.ctx_idx,
                    self.body@,
                    exprs_view(args@),
                    old(state)@,
                    depth as nat,
                    fm,
                ),
        decreases depth, 1nat, 0nat,
    {
        proof {
            use_type_invariant(&state.float_log);
        }
        if args.len() != state.ctx_state.scope_len(self.ctx_idx) {
            return Value::Null;
        }
        let mut bound: Vec<Binding> = Vec::new();
        let mut i: usize = 0;
        while i < args.len()
            invariant
                i <= args.len(),
                bound.len() == i,
                forall|j: int| 0 <= j < i ==> bound@[j]@ == BindingView::Expr(args@[j]@),
            decreases args.len() - i,
        {
            bound.push(Binding::Expr(args[i].duplicate()));
            i += 1;
        }
        assert(views_of(bound@) =~= argument_bindings(exprs_view(args@)));
        state.ctx_state.assign(self.ctx_idx, &bound);
        let current_ctx_idx = state.active_ctx_idx();
        state.set_active_ctx(self.ctx_idx);
        let value = self.body.evaluate(state, depth);
        state.set_active_ctx(current_ctx_idx);
        state.ctx_state.reset(self.ctx_idx);
        value
    }
}

/// The value of a call of a function of the program.
pub open spec fn call_defined(
    ctx_idx: usize,
    body: ExprView,
    args: Seq<ExprView>,
    st: EvalView,
    depth: nat,
    fm: FloatModel,
) -> (ValueView, EvalView) {
    if args.len() != bindings_at(st.contexts, ctx_idx as int).len() {
        (ValueView::Null, st)
    } else {
        let st1 = st.activate(ctx_idx).with_contexts(
            assign_in(st.contexts, ctx_idx as int, argument_bindings(args)),
        );
        let (v, st2) = eval_expr(body, st1, depth, fm);
        (v, st2.activate(st.active).with_contexts(reset_in(st2.contexts, ctx_idx as int)))
    }
}

impl FnCall {
    /// Calls the function that the name is bound to, as [`eval_call`] says.
    pub fn evaluate<F: FloatOps>(&self, state: &mut EvalState<F>, depth: usize) -> (r: Value)
        ensures
            old(state).float_log@.is_prefix_of(final(state).float_log@),
            consistent(final(state).float_log@),
            forall|fm: FloatModel| #[trigger]
                fm.explains(final(state).float_log@) ==> (r@, final(state)@) == eval_call(
                    self.name.0,
                    exprs_view(self.args@),
                    old(state)@,
                    depth as nat,
                    fm,
                ),
        decreases depth, 4nat, 0nat,
    {
        proof {
            use_type_invariant(&state.float_log);
        }
        let ctx_idx = match state.find_ctx_with_ident(&self.name) {
            Some(ctx_idx) => ctx_idx,
            None => {
                return Value::Null;
            },
        };
        match state.ctx_state.binding(ctx_idx, &self.name) {
            Some(Binding::Expr(Expr::Fn(Fn::Defined(declared)))) => declared.evaluate(
                state,
                &self.args,
                depth,
            ),
            Some(Binding::Expr(Expr::Fn(Fn::BuiltIn(which)))) => call_builtin(
                which,
                state,
                &self.args,
                depth,
            ),
            _ => Value::Null,
        }
    }
}

/// Calls a built-in function on `args`, as [`eval_builtin`] says.
pub fn call_builtin<F: FloatOps>(
    which: BuiltIn,
    state: &mut EvalState<F>,
    args: &Vec<Expr>,
    depth: usize,
) -> (r: Value)
    ensures
        old(state).float_log@.is_prefix_of(final(state).float_log@),
        consistent(final(state).float_log@),
        forall|fm: FloatModel| #[trigger]
            fm.explains(final(state).float_log@) ==> (r@, final(state)@) == eval_builtin(
                which,
                exprs_view(args@),
                old(state)@,
                depth as nat,
                fm,
            ),
    decreases depth, 3nat, 0nat,
{
    proof {
        use_type_invariant(&state.float_log);
    }
    match which {
        BuiltIn::Debug => debug(state, args, depth),
        BuiltIn::TypeOf => type_of(state, args, depth),
        BuiltIn::Length => length(state, args, depth),
        BuiltIn::ToStr => to_str(state, args, depth),
        BuiltIn::Concat => concat(state, args, depth),
        BuiltIn::Push => push(state, args, depth),
        BuiltIn::Insert => insert(state, args, depth),
    }
}

/// The compact text of a value.
fn compact_text<F: FloatOps>(v: &Value, state: &mut EvalState<F>) -> (r: String)
    ensures
        old(state).float_log@.is_prefix_of(final(state).float_log@),
        consistent(final(state).float_log@),
        final(state)@ == old(state)@,
        forall|fm: FloatModel| #[trigger]
            fm.explains(final(state).float_log@) ==> r@ == value::value_text(v@, false, 0, fm),
{
    proof {
        use_type_invariant(&state.float_log);
    }
    let mut text = String::new();
    v.format(&mut text, false, 0, state.floats, &mut state.float_log);
    assert forall|fm: FloatModel| #[trigger] fm.explains(state.float_log@) implies text@
        == value::value_text(v@, false, 0, fm) by {
        assert(text@ =~= Seq::<char>::empty() + value::value_text(v@, false, 0, fm));
    }
    text
}

/// `debug(x)`: emits the text of `x` and gives `x` back.
pub fn debug<F: FloatOps>(state: &mut EvalState<F>, args: &Vec<Expr>, depth: usize) -> (r: Value)
    ensures
        old(state).float_log@.is_prefix_of(final(state).float_log@),
        consistent(final(state).float_log@),
        forall|fm: FloatModel| #[trigger]
            fm.explains(final(state).float_log@) ==> (r@, final(state)@) == eval_builtin(
                BuiltIn::Debug,
                exprs_view(args@),
                old(state)@,
                depth as nat,
                fm,
            ),
    decreases depth, 2nat, 0nat,
{
    proof {
        use_type_invariant(&state.float_log);
    }
    if args.len() != 1 {
        return Value::Null;
    }
    let ghost log0 = state.float_log@;
    let value = args[0].evaluate(state, depth);
    let ghost log1 = state.float_log@;
    let ghost st1 = state@;
    let line = compact_text(&value, state);
    state.emitted.push(line);
    proof {
        lemma_prefix_chain(log0, log1, state.float_log@);
        assert(state@.emitted =~= st1.emitted.push(line@));
        assert forall|fm: FloatModel| #[trigger] fm.explains(state.float_log@) implies (
            value@,
            state@,
        ) == eval_builtin(BuiltIn::Debug, exprs_view(args@), old(state)@, depth as nat, fm) by {
            lemma_explains_prefix(fm, log1, state.float_log@);
        }
    }
    value
}

/// `type_of(x)`: the name of the kind of `x`.
pub fn type_of<F: FloatOps>(state: &mut EvalState<F>, args: &Vec<Expr>, depth: usize) -> (r: Value)
    ensures
        old(state).float_log@.is_prefix_of(final(state).float_log@),
        consistent(final(state).float_log@),
        forall|fm: FloatModel| #[trigger]
            fm.explains(final(state).float_log@) ==> (r@, final(state)@) == eval_builtin(
                BuiltIn::TypeOf,
                exprs_view(args@),
                old(state)@,
                depth as nat,
                fm,
            ),
    decreases depth, 2nat, 0nat,
{
    proof {
        use_type_invariant(&state.float_log);
    }
    if args.len() != 1 {
        return Value::Null;
    }
    let arg = args[0].evaluate(state, depth);
    proof {
        reveal_strlit("null");
        reveal_strlit("boolean");
        reveal_strlit("integer");
        reveal_strlit("float");
        reveal_strlit("string");
        reveal_strlit("list");
        reveal_strlit("map");
    }
    let type_str = match arg {
        Value::Null => "null",
        Value::Boolean(_) => "boolean",
        Value::Integer(_) => "integer",
        Value::Float(_) => "float",
        Value::String(_) => "string",
        Value::List(_) => "list",
        Value::Mapping(_) => "map",
    };
    assert(type_str@ =~= kind_name(arg@));
    Value::String(String::from_str(type_str))
}

/// `length(x)`: the number of characters, items or entries of `x`.
pub fn length<F: FloatOps>(state: &mut EvalState<F>, args: &Vec<Expr>, depth: usize) -> (r: Value)
    ensures
        old(state).float_log@.is_prefix_of(final(state).float_log@),
        consistent(final(state).float_log@),
        forall|fm: FloatModel| #[trigger]
            fm.explains(final(state).float_log@) ==> (r@, final(state)@) == eval_builtin(
                BuiltIn::Length,
                exprs_view(args@),
                old(state)@,
                depth as nat,
                fm,
            ),
    decreases depth, 2nat, 0nat,
{
    proof {
        use_type_invariant(&state.float_log);
    }
    if args.len() != 1 {
        return Value::Null;
    }
    let arg = args[0].evaluate(state, depth);
    match &arg {
        Value::String(s) => Value::Integer(count_of(s.as_str().unicode_len())),
        Value::List(arr) => {
            proof {
                value::lemma_list_view(*arr);
            }
            Value::Integer(count_of(arr.len()))
        },
        Value::Mapping(map) => {
            proof {
                value::lemma_mapping_view(*map);
            }
            Value::Integer(count_of(map.len()))
        },
        _ => Value::Null,
    }
}

/// `to_str(x)`: the text of `x`.
pub fn to_str<F: FloatOps>(state: &mut EvalState<F>, args: &Vec<Expr>, depth: usize) -> (r: Value)
    ensures
        old(state).float_log@.is_prefix_of(final(state).float_log@),
        consistent(final(state).float_log@),
        forall|fm: FloatModel| #[trigger]
            fm.explains(final(state).float_log@) ==> (r@, final(state)@) == eval_builtin(
                BuiltIn::ToStr,
                exprs_view(args@),
                old(state)@,
                depth as nat,
                fm,
            ),
    decreases depth, 2nat, 0nat,
{
    proof {
        use_type_invariant(&state.float_log);
    }
    if args.len() != 1 {
        return Value::Null;
    }
    let ghost log0 = state.float_log@;
    let arg = args[0].evaluate(state, depth);
    let ghost log1 = state.float_log@;
    let text = compact_text(&arg, state);
    proof {
        lemma_prefix_chain(log0, log1, state.float_log@);
        assert forall|fm: FloatModel| #[trigger] fm.explains(state.float_log@) implies (
            Value::String(text)@,
            state@,
        ) == eval_builtin(BuiltIn::ToStr, exprs_view(args@), old(state)@, depth as nat, fm) by {
            lemma_explains_prefix(fm, log1, state.float_log@);
        }
    }
    Value::String(text)
}

/// `concat(a, b, ...)`: the strings among the arguments, joined; null where
/// that is empty.
pub fn concat<F: FloatOps>(state: &mut EvalState<F>, args: &Vec<Expr>, depth: usize) -> (r: Value)
    ensures
        old(state).float_log@.is_prefix_of(final(state).float_log@),
        consistent(final(state).float_log@),
        forall|fm: FloatModel| #[trigger]
            fm.explains(final(state).float_log@) ==> (r@, final(state)@) == eval_builtin(
                BuiltIn::Concat,
                exprs_view(args@),
                old(state)@,
                depth as nat,
                fm,
            ),
    decreases depth, 2nat, 0nat,
{
    proof {
        use_type_invariant(&state.float_log);
    }
    let mut string = String::new();
    let mut i: usize = 0;
    while i < args.len()
        invariant
            i <= args.len(),
            old(state).float_log@.is_prefix_of(state.float_log@),
            consistent(state.float_log@),
            forall|fm: FloatModel| #[trigger]
                fm.explains(state.float_log@) ==> (string@, state@) == eval_concat(
                    exprs_view(args@),
                    i as nat,
                    old(state)@,
                    depth as nat,
                    fm,
                ),
        decreases args.len() - i,
    {
        let ghost log_in = state.float_log@;
        let value = args[i].evaluate(state, depth);
        match &value {
            Value::String(s) => {
                string.append(s.as_str());
            },
            _ => {},
        }
        i += 1;
        proof {
            lemma_prefix_chain(old(state).float_log@, log_in, state.float_log@);
            assert forall|fm: FloatModel| #[trigger] fm.explains(state.float_log@) implies (
                string@,
                state@,
            ) == eval_concat(exprs_view(args@), i as nat, old(state)@, depth as nat, fm) by {
                lemma_explains_prefix(fm, log_in, state.float_log@);
                assert(exprs_view(args@)[i - 1] == args@[i - 1]@);
            }
        }
    }
    if string.as_str().unicode_len() == 0 {
        return Value::Null;
    }
    Value::String(string)
}

/// `push(list, v)`: the list with `v` at its end.
pub fn push<F: FloatOps>(state: &mut EvalState<F>, args: &Vec<Expr>, depth: usize) -> (r: Value)
    ensures
        old(state).float_log@.is_prefix_of(final(state).float_log@),
        consistent(final(state).float_log@),
        forall|fm: FloatModel| #[trigger]
            fm.explains(final(state).float_log@) ==> (r@, final(state)@) == eval_builtin(
                BuiltIn::Push,
                exprs_view(args@),
                old(state)@,
                depth as nat,
                fm,
            ),
    decreases depth, 2nat, 0nat,
{
    proof {
        use_type_invariant(&state.float_log);
    }
    if args.len() != 2 {
        return Value::Null;
    }
    let ghost log0 = state.float_log@;
    let collection = args[0].evaluate(state, depth);
    let ghost log1 = state.float_log@;
    let value = args[1].evaluate(state, depth);
    let r = match collection {
        Value::List(mut arr) => {
            proof {
                value::lemma_list_view(arr);
            }
            let ghost before = arr@;
            arr.push(value);
            proof {
                value::lemma_list_view(arr);
                assert(list_view(arr@) =~= list_view(before).push(value@));
            }
            Value::List(arr)
        },
        _ => Value::Null,
    };
    proof {
        lemma_prefix_chain(log0, log1, state.float_log@);
        assert forall|fm: FloatModel| #[trigger] fm.explains(state.float_log@) implies (r@, state@)
            == eval_builtin(BuiltIn::Push, exprs_view(args@), old(state)@, depth as nat, fm) by {
            lemma_explains_prefix(fm, log1, state.float_log@);
        }
    }
    r
}

/// The place in a list of `len` items that `index` means.
fn place_of(len: usize, index: i64) -> (r: Option<usize>)
    ensures
        match r {
            Some(place) => insertion_place(len as nat, index) == Some(place as int),
            None => insertion_place(len as nat, index) is None,
        },
{
    if index < 0 {
        let back: u64 = if index == i64::MIN {
            9223372036854775808u64
        } else {
            (-index) as u64
        };
        if back <= len as u64 {
            Some(len - (back as usize))
        } else {
            None
        }
    } else if (index as u64) <= (len as u64) {
        Some(index as usize)
    } else {
        None
    }
}

/// `insert(collection, key, v)`: the collection with `v` put in.
pub fn insert<F: FloatOps>(state: &mut EvalState<F>, args: &Vec<Expr>, depth: usize) -> (r: Value)
    ensures
        old(state).float_log@.is_prefix_of(final(state).float_log@),
        consistent(final(state).float_log@),
        forall|fm: FloatModel| #[trigger]
            fm.explains(final(state).float_log@) ==> (r@, final(state)@) == eval_builtin(
                BuiltIn::Insert,
                exprs_view(args@),
                old(state)@,
                depth as nat,
                fm,
            ),
    decreases depth, 2nat, 0nat,
{
    proof {
        use_type_invariant(&state.float_log);
    }
    if args.len() != 3 {
        return Value::Null;
    }
    let ghost log0 = state.float_log@;
    let collection = args[0].evaluate(state, depth);
    let ghost log1 = state.float_log@;
    let key = args[1].evaluate(state, depth);
    let ghost log2 = state.float_log@;
    let value = args[2].evaluate(state, depth);
    let ghost wanted = inserted(collection@, key@, value@);
    let r = match collection {
        Value::Mapping(mut map) => {
            proof {
                value::lemma_mapping_view(map);
            }
            match key {
                Value::String(key_str) => {
                    mapping_insert(&mut map, key_str, value);
                    proof {
                        value::lemma_mapping_view(map);
                    }
                    Value::Mapping(map)
                },
                _ => Value::Null,
            }
        },
        Value::List(mut arr) => {
            proof {
                value::lemma_list_view(arr);
            }
            match key {
                Value::Integer(index) => {
                    match place_of(arr.len(), index) {
                        Some(idx) => {
                            let ghost before = arr@;
                            arr.insert(idx, value);
                            proof {
                                value::lemma_list_view(arr);
                                assert(list_view(arr@) =~= list_view(before).insert(
                                    idx as int,
                                    value@,
                                ));
                            }
                            Value::List(arr)
                        },
                        None => Value::Null,
                    }
                },
                _ => Value::Null,
            }
        },
        _ => Value::Null,
    };
    assert(r@ == wanted);
    proof {
        lemma_prefix_chain(log0, log1, log2);
        lemma_prefix_chain(log0, log2, state.float_log@);
        lemma_prefix_chain(log1, log2, state.float_log@);
        assert forall|fm: FloatModel| #[trigger] fm.explains(state.float_log@) implies (r@, state@)
            == eval_builtin(BuiltIn::Insert, exprs_view(args@), old(state)@, depth as nat, fm) by {
            lemma_explains_prefix(fm, log1, state.float_log@);
            lemma_explains_prefix(fm, log2, state.float_log@);
        }
    }
    r
}

} // verus!

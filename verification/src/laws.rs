//! Laws: what holds of evaluation whatever the program.

use vstd::prelude::*;
use crate::expr::{ExprView, IndexView};
use crate::float::{is_zero, negated, ArithmeticOp, FloatModel, POSITIVE_ZERO};
use crate::infix::{infix_result, int_arithmetic, Op};
use crate::binding::BindingView;
use crate::context::{all_unevaluated, assigned, cached, lemma_key_index_bounds, ContextView};
use crate::expr::BuiltIn;
use crate::semantics::{assign_in, reset_in, round_bindings};
use crate::state::{bindings_at, with_bindings};
use crate::semantics::{
    eval_bound, eval_bracket, eval_brackets, eval_builtin, eval_call, eval_concat, eval_entries,
    eval_expr, eval_for_each, eval_ident, eval_index, eval_items, eval_keyed_rounds, eval_rounds,
    item_or_null, slice_between, EvalView,
};
use crate::text::text_less;
use crate::value::{keys_ascend, slot_of, with_entry, ValueView};

verus! {

/// An integer literal evaluates to its integer and leaves the state as it
/// is.
pub proof fn law_integer_literal(i: i64, st: EvalView, depth: nat, fm: FloatModel)
    requires
        depth > 0,
    ensures
        eval_expr(ExprView::Int(i), st, depth, fm) == (ValueView::Integer(i), st),
{
}

/// Indexing a list at a place that it does not have, past its end or before
/// its start, gives null.
pub proof fn law_index_out_of_range(
    items: Seq<ValueView>,
    i: i64,
    st: EvalView,
    depth: nat,
    fm: FloatModel,
)
    requires
        depth > 0,
        i < 0 || i >= items.len(),
    ensures
        eval_brackets(
            ValueView::List(items),
            seq![IndexView::Single(ExprView::Int(i))],
            0,
            st,
            depth,
            fm,
        ) == (ValueView::Null, st),
{
    let brackets = seq![IndexView::Single(ExprView::Int(i))];
    law_integer_literal(i, st, depth, fm);
    assert(eval_bracket(ValueView::List(items), brackets[0], st, depth, fm) == (
        if i >= 0 {
            Some(item_or_null(items, i))
        } else {
            None
        },
        st,
    ));
    if i >= 0 {
        assert(eval_brackets(ValueView::Null, brackets, 1, st, depth, fm) == (ValueView::Null, st));
    }
}

/// Indexing a list at a place that it has gives the item at that place.
pub proof fn law_index_in_range(
    items: Seq<ValueView>,
    i: i64,
    st: EvalView,
    depth: nat,
    fm: FloatModel,
)
    requires
        depth > 0,
        0 <= i < items.len(),
    ensures
        eval_brackets(
            ValueView::List(items),
            seq![IndexView::Single(ExprView::Int(i))],
            0,
            st,
            depth,
            fm,
        ) == (items[i as int], st),
{
    let brackets = seq![IndexView::Single(ExprView::Int(i))];
    law_integer_literal(i, st, depth, fm);
    assert(eval_bracket(ValueView::List(items), brackets[0], st, depth, fm) == (
        Some(items[i as int]),
        st,
    ));
    assert(eval_brackets(items[i as int], brackets, 1, st, depth, fm) == (items[i as int], st));
}

/// The range from 0 to 0 of any list, the empty one too, is the empty list.
pub proof fn law_empty_slice(items: Seq<ValueView>, st: EvalView, depth: nat, fm: FloatModel)
    requires
        depth > 0,
    ensures
        eval_brackets(
            ValueView::List(items),
            seq![IndexView::FromTo(ExprView::Int(0), ExprView::Int(0))],
            0,
            st,
            depth,
            fm,
        ) == (ValueView::List(Seq::empty()), st),
{
    let brackets = seq![IndexView::FromTo(ExprView::Int(0), ExprView::Int(0))];
    law_integer_literal(0, st, depth, fm);
    assert(eval_bound(ExprView::Int(0), st, depth, fm) == (Some(0int), st));
    assert(items.subrange(0, 0) =~= Seq::empty());
    assert(slice_between(items, 0, 0) == Some(ValueView::List(Seq::empty())));
    assert(eval_bracket(ValueView::List(items), brackets[0], st, depth, fm) == (
        Some(ValueView::List(Seq::empty())),
        st,
    ));
    assert(eval_brackets(ValueView::List(Seq::empty()), brackets, 1, st, depth, fm) == (
        ValueView::List(Seq::empty()),
        st,
    ));
}

/// A range within the bounds `0 <= start <= end <= len` of a list is the
/// items from `start` up to `end`; any other range is null.
pub proof fn law_slice(
    items: Seq<ValueView>,
    start: i64,
    end: i64,
    st: EvalView,
    depth: nat,
    fm: FloatModel,
)
    requires
        depth > 0,
    ensures
        eval_brackets(
            ValueView::List(items),
            seq![IndexView::FromTo(ExprView::Int(start), ExprView::Int(end))],
            0,
            st,
            depth,
            fm,
        ) == (
            if 0 <= start <= end <= items.len() {
                ValueView::List(items.subrange(start as int, end as int))
            } else {
                ValueView::Null
            },
            st,
        ),
{
    let brackets = seq![IndexView::FromTo(ExprView::Int(start), ExprView::Int(end))];
    law_integer_literal(start, st, depth, fm);
    law_integer_literal(end, st, depth, fm);
    assert(eval_bound(ExprView::Int(start), st, depth, fm).1 == st);
    assert(eval_bound(ExprView::Int(end), st, depth, fm).1 == st);
    let step = eval_bracket(ValueView::List(items), brackets[0], st, depth, fm);
    assert(step.1 == st);
    if 0 <= start <= end <= items.len() {
        let part = ValueView::List(items.subrange(start as int, end as int));
        assert(step.0 == Some(part));
        assert(eval_brackets(part, brackets, 1, st, depth, fm) == (part, st));
    } else {
        assert(step.0 is None);
    }
}

/// The keys of a sequence of entries.
pub open spec fn keys_of<V>(entries: Seq<(Seq<char>, V)>) -> Seq<Seq<char>> {
    Seq::new(entries.len(), |i: int| entries[i].0)
}

/// A key that comes after every key of `entries` gets the last place.
pub proof fn lemma_slot_at_end<V>(entries: Seq<(Seq<char>, V)>, key: Seq<char>, from: int)
    requires
        0 <= from <= entries.len(),
        forall|i: int| 0 <= i < entries.len() ==> text_less(#[trigger] entries[i].0, key),
    ensures
        slot_of(entries, key, from) == entries.len(),
    decreases entries.len() - from,
{
    if from < entries.len() {
        lemma_slot_at_end(entries, key, from + 1);
    }
}

/// Iterating over a mapping whose keys ascend gives a mapping with the
/// same keys in the same order: after `count` rounds, the keys of the
/// result are the first `count` keys of the mapping.
pub proof fn law_iteration_keeps_keys(
    entries: Seq<(Seq<char>, ValueView)>,
    count: nat,
    ctx_idx: usize,
    body: ExprView,
    st: EvalView,
    depth: nat,
    fm: FloatModel,
)
    requires
        keys_ascend(entries),
        count <= entries.len(),
    ensures
        keys_of(eval_keyed_rounds(entries, count, ctx_idx, body, st, depth, fm).0) == keys_of(
            entries,
        ).take(count as int),
    decreases count,
{
    if count == 0 {
        assert(keys_of(eval_keyed_rounds(entries, count, ctx_idx, body, st, depth, fm).0)
            =~= keys_of(entries).take(0));
    } else {
        law_iteration_keeps_keys(entries, (count - 1) as nat, ctx_idx, body, st, depth, fm);
        let before = eval_keyed_rounds(entries, (count - 1) as nat, ctx_idx, body, st, depth, fm).0;
        let key = entries[count - 1].0;
        assert(keys_of(before) == keys_of(entries).take(count - 1));
        assert(before.len() == count - 1);
        assert forall|i: int| 0 <= i < before.len() implies text_less(
            #[trigger] before[i].0,
            key,
        ) by {
            assert(keys_of(before)[i] == keys_of(entries).take(count - 1)[i]);
            assert(before[i].0 == entries[i].0);
        }
        lemma_slot_at_end(before, key, 0);
        let after = eval_keyed_rounds(entries, count, ctx_idx, body, st, depth, fm).0;
        assert(after.len() == count);
        assert forall|i: int| 0 <= i < count implies keys_of(after)[i] == keys_of(entries).take(
            count as int,
        )[i] by {
            if i < count - 1 {
                assert(keys_of(before)[i] == keys_of(entries).take(count - 1)[i]);
            }
        }
        assert(keys_of(after) =~= keys_of(entries).take(count as int));
    }
}

/// The state in which the body is evaluated in round `i` of an iteration
/// over a mapping: the state after the rounds before, with the loop
/// variables bound to the key, as a string, and the value of the round.
pub open spec fn round_state(
    entries: Seq<(Seq<char>, ValueView)>,
    i: nat,
    ctx_idx: usize,
    body: ExprView,
    st: EvalView,
    depth: nat,
    fm: FloatModel,
) -> EvalView {
    let before = eval_keyed_rounds(entries, i, ctx_idx, body, st, depth, fm).1;
    before.with_contexts(
        assign_in(
            before.contexts,
            ctx_idx as int,
            round_bindings(ValueView::String(entries[i as int].0), entries[i as int].1),
        ),
    )
}

/// The rounds of an iteration over a mapping whose keys ascend give one
/// entry for each entry of the mapping, in the same order: under the key of
/// the entry stands the value of the body in the state of its round.
pub proof fn law_iteration_rounds(
    entries: Seq<(Seq<char>, ValueView)>,
    count: nat,
    ctx_idx: usize,
    body: ExprView,
    st: EvalView,
    depth: nat,
    fm: FloatModel,
)
    requires
        keys_ascend(entries),
        count <= entries.len(),
    ensures
        eval_keyed_rounds(entries, count, ctx_idx, body, st, depth, fm).0.len() == count,
        forall|i: int|
            0 <= i < count ==> #[trigger] eval_keyed_rounds(
                entries,
                count,
                ctx_idx,
                body,
                st,
                depth,
                fm,
            ).0[i] == (
                entries[i].0,
                eval_expr(
                    body,
                    round_state(entries, i as nat, ctx_idx, body, st, depth, fm),
                    depth,
                    fm,
                ).0,
            ),
    decreases count,
{
    if count > 0 {
        law_iteration_rounds(entries, (count - 1) as nat, ctx_idx, body, st, depth, fm);
        let before = eval_keyed_rounds(entries, (count - 1) as nat, ctx_idx, body, st, depth, fm).0;
        let key = entries[count - 1].0;
        assert forall|i: int| 0 <= i < before.len() implies text_less(
            #[trigger] before[i].0,
            key,
        ) by {
            assert(before[i].0 == entries[i].0);
        }
        lemma_slot_at_end(before, key, 0);
        let v = eval_expr(
            body,
            round_state(entries, (count - 1) as nat, ctx_idx, body, st, depth, fm),
            depth,
            fm,
        ).0;
        let after = eval_keyed_rounds(entries, count, ctx_idx, body, st, depth, fm).0;
        assert(after =~= before.push((key, v)));
    }
}

/// An iteration over a mapping whose keys ascend gives a mapping with
/// exactly the keys of the mapping: under each key stands the value of the
/// body with the loop variables bound to the key, as a string, and to the
/// value under it.  Afterwards every name of the loop's scope is
/// unevaluated again, and the scope that was active is active.
pub proof fn law_iteration_over_mapping(
    base: u32,
    ctx_idx: usize,
    body: ExprView,
    st: EvalView,
    depth: nat,
    fm: FloatModel,
    entries: Seq<(Seq<char>, ValueView)>,
)
    requires
        eval_ident(base, st, depth, fm).0 == Some(ValueView::Mapping(entries)),
        keys_ascend(entries),
    ensures
        ({
            let start = eval_ident(base, st, depth, fm).1.activate(ctx_idx);
            let (value, end) = eval_for_each(base, ctx_idx, body, st, depth, fm);
            &&& value matches ValueView::Mapping(found)
            &&& found.len() == entries.len()
            &&& forall|i: int|
                0 <= i < entries.len() ==> #[trigger] found[i] == (
                    entries[i].0,
                    eval_expr(
                        body,
                        round_state(entries, i as nat, ctx_idx, body, start, depth, fm),
                        depth,
                        fm,
                    ).0,
                )
            &&& end.active == st.active
            &&& forall|j: int|
                0 <= j < bindings_at(end.contexts, ctx_idx as int).len() ==> (#[trigger] bindings_at(
                    end.contexts,
                    ctx_idx as int,
                )[j]).1 == BindingView::Expr(ExprView::Null)
        }),
{
    lemma_ident_settles(base, st, depth, fm);
    let start = eval_ident(base, st, depth, fm).1.activate(ctx_idx);
    law_iteration_rounds(entries, entries.len(), ctx_idx, body, start, depth, fm);
}

/// The names of a sequence of bindings, in their order.
pub open spec fn names_of(bindings: Seq<(u32, BindingView)>) -> Seq<u32> {
    Seq::new(bindings.len(), |i: int| bindings[i].0)
}

/// Whether two scopes differ at most in what their names are bound to.
pub open spec fn same_frame(a: ContextView, b: ContextView) -> bool {
    a.parent == b.parent && a.in_progress == b.in_progress && names_of(a.bindings) == names_of(
        b.bindings,
    )
}

/// Whether two arenas hold the same scopes but for what names are bound to.
pub open spec fn same_frames(a: Seq<ContextView>, b: Seq<ContextView>) -> bool {
    a.len() == b.len() && forall|i: int| 0 <= i < a.len() ==> same_frame(#[trigger] a[i], b[i])
}

/// Whether an evaluation that went from `before` to `after` has left the
/// scope in which names are looked up and the names of the session as they
/// were, and every scope as it was but for what its names are bound to: its
/// parent, its names and their order, and the names whose evaluation is
/// under way.
pub open spec fn settled(before: EvalView, after: EvalView) -> bool {
    after.active == before.active && after.names == before.names && same_frames(
        before.contexts,
        after.contexts,
    )
}

proof fn lemma_assigned_names(
    bindings: Seq<(u32, BindingView)>,
    values: Seq<BindingView>,
    count: nat,
)
    ensures
        names_of(assigned(bindings, values, count)) == names_of(bindings),
        assigned(bindings, values, count).len() == bindings.len(),
    decreases count,
{
    if count > 0 {
        lemma_assigned_names(bindings, values, (count - 1) as nat);
        assert(names_of(assigned(bindings, values, count)) =~= names_of(bindings));
    }
}

proof fn lemma_cached_names(bindings: Seq<(u32, BindingView)>, key: u32, value: ValueView)
    ensures
        names_of(cached(bindings, key, value)) == names_of(bindings),
{
    lemma_key_index_bounds(bindings, key, 0);
    assert(names_of(cached(bindings, key, value)) =~= names_of(bindings));
}

proof fn lemma_rebound(contexts: Seq<ContextView>, index: int, bindings: Seq<(u32, BindingView)>)
    requires
        names_of(bindings) == names_of(bindings_at(contexts, index)),
    ensures
        same_frames(contexts, with_bindings(contexts, index, bindings)),
{
}

proof fn lemma_assign_frames(contexts: Seq<ContextView>, index: int, values: Seq<BindingView>)
    ensures
        same_frames(contexts, assign_in(contexts, index, values)),
{
    let bindings = bindings_at(contexts, index);
    lemma_assigned_names(bindings, values, bindings.len());
    lemma_rebound(contexts, index, assigned(bindings, values, bindings.len()));
}

proof fn lemma_reset_frames(contexts: Seq<ContextView>, index: int)
    ensures
        same_frames(contexts, reset_in(contexts, index)),
{
    let bindings = bindings_at(contexts, index);
    assert(names_of(all_unevaluated(bindings)) =~= names_of(bindings));
    lemma_rebound(contexts, index, all_unevaluated(bindings));
}

proof fn lemma_frames_chain(a: Seq<ContextView>, b: Seq<ContextView>, c: Seq<ContextView>)
    requires
        same_frames(a, b),
        same_frames(b, c),
    ensures
        same_frames(a, c),
{
    assert forall|i: int| 0 <= i < a.len() implies same_frame(#[trigger] a[i], c[i]) by {
        assert(same_frame(a[i], b[i]));
        assert(same_frame(b[i], c[i]));
    }
}

/// Whatever is evaluated, the state is settled afterwards: the scope in
/// which names are looked up is the same as before, no scope is added or
/// lost, and every scope has its parent, its names and the names under way
/// as before.
pub proof fn law_evaluation_settles(e: ExprView, st: EvalView, depth: nat, fm: FloatModel)
    ensures
        settled(st, eval_expr(e, st, depth, fm).1),
    decreases depth, 0nat, 0nat,
{
    if depth > 0 {
        let inner = (depth - 1) as nat;
        match e {
            ExprView::List(items) => {
                lemma_items_settle(items, items.len(), st, inner, fm);
            },
            ExprView::Mapping(entries) => {
                lemma_entries_settle(entries, entries.len(), st, inner, fm);
            },
            ExprView::Ident(name) => {
                lemma_ident_settles(name, st, inner, fm);
            },
            ExprView::Index { base, indices } => {
                lemma_index_settles(base, indices, st, inner, fm);
            },
            ExprView::Infix { lhs, op, rhs, parenthesized } => {
                law_evaluation_settles(*lhs, st, inner, fm);
                let st1 = eval_expr(*lhs, st, inner, fm).1;
                law_evaluation_settles(*rhs, st1, inner, fm);
                lemma_frames_chain(
                    st.contexts,
                    st1.contexts,
                    eval_expr(*rhs, st1, inner, fm).1.contexts,
                );
            },
            ExprView::Prefix { unary, operand } => {
                law_evaluation_settles(*operand, st, inner, fm);
            },
            ExprView::Block { ctx_idx, result } => {
                law_evaluation_settles(*result, st.activate(ctx_idx), inner, fm);
            },
            ExprView::IfElse { condition, then, otherwise } => {
                law_evaluation_settles(*condition, st, inner, fm);
                let st1 = eval_expr(*condition, st, inner, fm).1;
                law_evaluation_settles(*then, st1, inner, fm);
                law_evaluation_settles(*otherwise, st1, inner, fm);
                lemma_frames_chain(
                    st.contexts,
                    st1.contexts,
                    eval_expr(*then, st1, inner, fm).1.contexts,
                );
                lemma_frames_chain(
                    st.contexts,
                    st1.contexts,
                    eval_expr(*otherwise, st1, inner, fm).1.contexts,
                );
            },
            ExprView::ForEach { base, ctx_idx, body } => {
                lemma_for_each_settles(base, ctx_idx, *body, st, inner, fm);
            },
            ExprView::Call { name, args } => {
                lemma_call_settles(name, args, st, inner, fm);
            },
            _ => {},
        }
    }
}

proof fn lemma_items_settle(
    items: Seq<ExprView>,
    count: nat,
    st: EvalView,
    depth: nat,
    fm: FloatModel,
)
    ensures
        settled(st, eval_items(items, count, st, depth, fm).1),
    decreases depth, 2nat, count,
{
    if !(count == 0 || count > items.len()) {
        lemma_items_settle(items, (count - 1) as nat, st, depth, fm);
        let st1 = eval_items(items, (count - 1) as nat, st, depth, fm).1;
        law_evaluation_settles(items[count - 1], st1, depth, fm);
        lemma_frames_chain(
            st.contexts,
            st1.contexts,
            eval_expr(items[count - 1], st1, depth, fm).1.contexts,
        );
    }
}

proof fn lemma_entries_settle(
    entries: Seq<(Seq<char>, ExprView)>,
    count: nat,
    st: EvalView,
    depth: nat,
    fm: FloatModel,
)
    ensures
        settled(st, eval_entries(entries, count, st, depth, fm).1),
    decreases depth, 2nat, count,
{
    if !(count == 0 || count > entries.len()) {
        lemma_entries_settle(entries, (count - 1) as nat, st, depth, fm);
        let st1 = eval_entries(entries, (count - 1) as nat, st, depth, fm).1;
        law_evaluation_settles(entries[count - 1].1, st1, depth, fm);
        lemma_frames_chain(
            st.contexts,
            st1.contexts,
            eval_expr(entries[count - 1].1, st1, depth, fm).1.contexts,
        );
    }
}

proof fn lemma_ident_settles(name: u32, st: EvalView, depth: nat, fm: FloatModel)
    ensures
        settled(st, eval_ident(name, st, depth, fm).1),
    decreases depth, 1nat, 0nat,
{
    match crate::state::find_scope(st.contexts, st.active as int, name) {
        None => {},
        Some(scope) => {
            if !crate::state::in_progress_at(st.contexts, scope as int).contains(name) {
                let st1 = st.activate(scope).with_contexts(
                    crate::state::with_in_progress(
                        st.contexts,
                        scope as int,
                        crate::state::in_progress_at(st.contexts, scope as int).insert(name),
                    ),
                );
                crate::state::lemma_find_scope(st.contexts, st.active as int, name);
                let marked = crate::state::in_progress_at(st.contexts, scope as int).insert(name);
                assert(marked.remove(name) =~= crate::state::in_progress_at(
                    st.contexts,
                    scope as int,
                ));
                match crate::state::binding_of(st1.contexts, scope as int, name) {
                    Some(crate::binding::BindingView::Expr(e)) => {
                        law_evaluation_settles(e, st1, depth, fm);
                        let (v, after) = eval_expr(e, st1, depth, fm);
                        lemma_cached_names(bindings_at(after.contexts, scope as int), name, v);
                        lemma_rebound(
                            after.contexts,
                            scope as int,
                            cached(bindings_at(after.contexts, scope as int), name, v),
                        );
                    },
                    _ => {},
                }
                let end = eval_ident(name, st, depth, fm).1;
                assert(end.contexts.len() == st.contexts.len());
                assert forall|i: int| 0 <= i < st.contexts.len() implies same_frame(
                    #[trigger] st.contexts[i],
                    end.contexts[i],
                ) by {
                    assert(same_frame(st1.contexts[i], st1.contexts[i]));
                }
            }
        },
    }
}

proof fn lemma_bound_settles(e: ExprView, st: EvalView, depth: nat, fm: FloatModel)
    ensures
        settled(st, eval_bound(e, st, depth, fm).1),
    decreases depth, 1nat, 0nat,
{
    law_evaluation_settles(e, st, depth, fm);
}

proof fn lemma_bracket_settles(
    value: ValueView,
    bracket: IndexView,
    st: EvalView,
    depth: nat,
    fm: FloatModel,
)
    ensures
        settled(st, eval_bracket(value, bracket, st, depth, fm).1),
    decreases depth, 2nat, 0nat,
{
    match bracket {
        IndexView::Single(e) => {
            law_evaluation_settles(e, st, depth, fm);
        },
        IndexView::From(e) => {
            lemma_bound_settles(e, st, depth, fm);
        },
        IndexView::To(e) => {
            lemma_bound_settles(e, st, depth, fm);
        },
        IndexView::FromTo(a, b) => {
            lemma_bound_settles(a, st, depth, fm);
            lemma_bound_settles(b, eval_bound(a, st, depth, fm).1, depth, fm);
        },
    }
}

proof fn lemma_brackets_settle(
    value: ValueView,
    indices: Seq<IndexView>,
    from: nat,
    st: EvalView,
    depth: nat,
    fm: FloatModel,
)
    ensures
        settled(st, eval_brackets(value, indices, from, st, depth, fm).1),
    decreases depth, 3nat, indices.len() - from,
{
    if from < indices.len() {
        lemma_bracket_settles(value, indices[from as int], st, depth, fm);
        let (next, st1) = eval_bracket(value, indices[from as int], st, depth, fm);
        match next {
            Some(v) => {
                lemma_brackets_settle(v, indices, from + 1, st1, depth, fm);
            },
            None => {},
        }
    }
}

proof fn lemma_index_settles(
    base: u32,
    indices: Seq<IndexView>,
    st: EvalView,
    depth: nat,
    fm: FloatModel,
)
    ensures
        settled(st, eval_index(base, indices, st, depth, fm).1),
    decreases depth, 4nat, 0nat,
{
    lemma_ident_settles(base, st, depth, fm);
    let (found, st1) = eval_ident(base, st, depth, fm);
    match found {
        Some(v) => {
            lemma_brackets_settle(v, indices, 0, st1, depth, fm);
        },
        None => {},
    }
}

proof fn lemma_rounds_settle(
    items: Seq<ValueView>,
    count: nat,
    ctx_idx: usize,
    body: ExprView,
    st: EvalView,
    depth: nat,
    fm: FloatModel,
)
    ensures
        settled(st, eval_rounds(items, count, ctx_idx, body, st, depth, fm).1),
    decreases depth, 2nat, count,
{
    if !(count == 0 || count > items.len()) {
        lemma_rounds_settle(items, (count - 1) as nat, ctx_idx, body, st, depth, fm);
        let st1 = eval_rounds(items, (count - 1) as nat, ctx_idx, body, st, depth, fm).1;
        let st2 = st1.with_contexts(
            crate::semantics::assign_in(
                st1.contexts,
                ctx_idx as int,
                crate::semantics::round_bindings(
                    ValueView::Integer(crate::semantics::count_value((count - 1) as nat)),
                    items[count - 1],
                ),
            ),
        );
        law_evaluation_settles(body, st2, depth, fm);
        lemma_assign_frames(
            st1.contexts,
            ctx_idx as int,
            crate::semantics::round_bindings(
                ValueView::Integer(crate::semantics::count_value((count - 1) as nat)),
                items[count - 1],
            ),
        );
        lemma_frames_chain(st.contexts, st1.contexts, st2.contexts);
        lemma_frames_chain(st.contexts, st2.contexts, eval_expr(body, st2, depth, fm).1.contexts);
    }
}

proof fn lemma_keyed_rounds_settle(
    entries: Seq<(Seq<char>, ValueView)>,
    count: nat,
    ctx_idx: usize,
    body: ExprView,
    st: EvalView,
    depth: nat,
    fm: FloatModel,
)
    ensures
        settled(st, eval_keyed_rounds(entries, count, ctx_idx, body, st, depth, fm).1),
    decreases depth, 2nat, count,
{
    if !(count == 0 || count > entries.len()) {
        lemma_keyed_rounds_settle(entries, (count - 1) as nat, ctx_idx, body, st, depth, fm);
        let st1 = eval_keyed_rounds(entries, (count - 1) as nat, ctx_idx, body, st, depth, fm).1;
        let st2 = st1.with_contexts(
            crate::semantics::assign_in(
                st1.contexts,
                ctx_idx as int,
                crate::semantics::round_bindings(
                    ValueView::String(entries[count - 1].0),
                    entries[count - 1].1,
                ),
            ),
        );
        law_evaluation_settles(body, st2, depth, fm);
        lemma_assign_frames(
            st1.contexts,
            ctx_idx as int,
            crate::semantics::round_bindings(
                ValueView::String(entries[count - 1].0),
                entries[count - 1].1,
            ),
        );
        lemma_frames_chain(st.contexts, st1.contexts, st2.contexts);
        lemma_frames_chain(st.contexts, st2.contexts, eval_expr(body, st2, depth, fm).1.contexts);
    }
}

proof fn lemma_for_each_settles(
    base: u32,
    ctx_idx: usize,
    body: ExprView,
    st: EvalView,
    depth: nat,
    fm: FloatModel,
)
    ensures
        settled(st, eval_for_each(base, ctx_idx, body, st, depth, fm).1),
    decreases depth, 4nat, 0nat,
{
    lemma_ident_settles(base, st, depth, fm);
    let (found, st1) = eval_ident(base, st, depth, fm);
    match found {
        Some(ValueView::List(items)) => {
            lemma_rounds_settle(items, items.len(), ctx_idx, body, st1.activate(ctx_idx), depth, fm);
            let st2 = eval_rounds(items, items.len(), ctx_idx, body, st1.activate(ctx_idx), depth, fm).1;
            lemma_reset_frames(st2.contexts, ctx_idx as int);
            lemma_frames_chain(st.contexts, st1.contexts, st2.contexts);
            lemma_frames_chain(st.contexts, st2.contexts, reset_in(st2.contexts, ctx_idx as int));
        },
        Some(ValueView::Mapping(entries)) => {
            lemma_keyed_rounds_settle(
                entries,
                entries.len(),
                ctx_idx,
                body,
                st1.activate(ctx_idx),
                depth,
                fm,
            );
            let st2 = eval_keyed_rounds(
                entries,
                entries.len(),
                ctx_idx,
                body,
                st1.activate(ctx_idx),
                depth,
                fm,
            ).1;
            lemma_reset_frames(st2.contexts, ctx_idx as int);
            lemma_frames_chain(st.contexts, st1.contexts, st2.contexts);
            lemma_frames_chain(st.contexts, st2.contexts, reset_in(st2.contexts, ctx_idx as int));
        },
        _ => {},
    }
}

proof fn lemma_concat_settles(
    args: Seq<ExprView>,
    count: nat,
    st: EvalView,
    depth: nat,
    fm: FloatModel,
)
    ensures
        settled(st, eval_concat(args, count, st, depth, fm).1),
    decreases depth, 2nat, count,
{
    if !(count == 0 || count > args.len()) {
        lemma_concat_settles(args, (count - 1) as nat, st, depth, fm);
        let st1 = eval_concat(args, (count - 1) as nat, st, depth, fm).1;
        law_evaluation_settles(args[count - 1], st1, depth, fm);
        lemma_frames_chain(
            st.contexts,
            st1.contexts,
            eval_expr(args[count - 1], st1, depth, fm).1.contexts,
        );
    }
}

proof fn lemma_builtin_settles(
    which: BuiltIn,
    args: Seq<ExprView>,
    st: EvalView,
    depth: nat,
    fm: FloatModel,
)
    ensures
        settled(st, eval_builtin(which, args, st, depth, fm).1),
    decreases depth, 3nat, 0nat,
{
    match which {
        BuiltIn::Concat => {
            lemma_concat_settles(args, args.len(), st, depth, fm);
        },
        BuiltIn::Push => {
            if args.len() == 2 {
                law_evaluation_settles(args[0], st, depth, fm);
                law_evaluation_settles(args[1], eval_expr(args[0], st, depth, fm).1, depth, fm);
            }
        },
        BuiltIn::Insert => {
            if args.len() == 3 {
                law_evaluation_settles(args[0], st, depth, fm);
                let st1 = eval_expr(args[0], st, depth, fm).1;
                law_evaluation_settles(args[1], st1, depth, fm);
                law_evaluation_settles(args[2], eval_expr(args[1], st1, depth, fm).1, depth, fm);
            }
        },
        _ => {
            if args.len() == 1 {
                law_evaluation_settles(args[0], st, depth, fm);
            }
        },
    }
}

proof fn lemma_call_settles(
    name: u32,
    args: Seq<ExprView>,
    st: EvalView,
    depth: nat,
    fm: FloatModel,
)
    ensures
        settled(st, eval_call(name, args, st, depth, fm).1),
    decreases depth, 4nat, 0nat,
{
    match crate::state::find_scope(st.contexts, st.active as int, name) {
        None => {},
        Some(scope) => match crate::state::binding_of(st.contexts, scope as int, name) {
            Some(crate::binding::BindingView::Expr(ExprView::Defined { ctx_idx, body })) => {
                if args.len() == crate::state::bindings_at(st.contexts, ctx_idx as int).len() {
                    let st1 = st.activate(ctx_idx).with_contexts(
                        crate::semantics::assign_in(
                            st.contexts,
                            ctx_idx as int,
                            crate::semantics::argument_bindings(args),
                        ),
                    );
                    law_evaluation_settles(*body, st1, depth, fm);
                    let st2 = eval_expr(*body, st1, depth, fm).1;
                    lemma_assign_frames(
                        st.contexts,
                        ctx_idx as int,
                        crate::semantics::argument_bindings(args),
                    );
                    lemma_reset_frames(st2.contexts, ctx_idx as int);
                    lemma_frames_chain(st.contexts, st1.contexts, st2.contexts);
                    lemma_frames_chain(
                        st.contexts,
                        st2.contexts,
                        reset_in(st2.contexts, ctx_idx as int),
                    );
                }
            },
            Some(crate::binding::BindingView::Expr(ExprView::BuiltIn(which))) => {
                lemma_builtin_settles(which, args, st, depth, fm);
            },
            _ => {},
        },
    }
}

/// Dividing an integer by zero gives zero.
pub proof fn law_integer_division_by_zero(lhs: i64, st: EvalView, depth: nat, fm: FloatModel)
    ensures
        int_arithmetic(ArithmeticOp::Div, lhs, 0) == 0,
        infix_result(
            Op::Arithmetic(ArithmeticOp::Div),
            ValueView::Integer(lhs),
            ValueView::Integer(0),
            fm,
        ) == ValueView::Integer(0),
{
}

/// Dividing a float by a zero of either sign gives positive zero, whatever
/// the float model.
pub proof fn law_float_division_by_zero(lhs: u64, rhs: u64, fm: FloatModel)
    requires
        is_zero(rhs),
    ensures
        infix_result(
            Op::Arithmetic(ArithmeticOp::Div),
            ValueView::Float(lhs),
            ValueView::Float(rhs),
            fm,
        ) == ValueView::Float(POSITIVE_ZERO),
{
}

/// Negating a float twice gives the float back.
pub proof fn law_negation_twice(bits: u64)
    ensures
        negated(negated(bits)) == bits,
{
    assert((bits ^ 0x8000_0000_0000_0000u64) ^ 0x8000_0000_0000_0000u64 == bits) by (bit_vector);
}

/// A name whose evaluation is under way in the scope that binds it has no
/// value, and asking for it changes nothing: a definition that depends on
/// itself comes to an end.
pub proof fn law_cycle_has_no_value(name: u32, st: EvalView, depth: nat, fm: FloatModel)
    requires
        crate::state::find_scope(st.contexts, st.active as int, name) matches Some(scope)
            && crate::state::in_progress_at(st.contexts, scope as int).contains(name),
    ensures
        eval_ident(name, st, depth, fm) == (None::<ValueView>, st),
{
}

/// Giving a key a value in entries whose keys ascend leaves the keys
/// ascending.
pub proof fn law_insertion_keeps_order<V>(entries: Seq<(Seq<char>, V)>, key: Seq<char>, value: V)
    requires
        keys_ascend(entries),
    ensures
        keys_ascend(with_entry(entries, key, value)),
{
    let i = slot_of(entries, key, 0);
    lemma_slot_bounds(entries, key, 0);
    let after = with_entry(entries, key, value);
    assert forall|a: int, b: int| 0 <= a < b < after.len() implies text_less(
        #[trigger] after[a].0,
        #[trigger] after[b].0,
    ) by {
        if i < entries.len() && entries[i].0 == key {
            assert(after[a].0 == entries[a].0);
            assert(after[b].0 == entries[b].0);
        } else {
            let ka = if a < i {
                a
            } else {
                a - 1
            };
            let kb = if b < i {
                b
            } else {
                b - 1
            };
            if a == i {
                assert(after[b].0 == entries[kb].0);
                lemma_not_less_means_after(entries[i].0, key);
                if kb > i {
                    lemma_text_less_chain(key, entries[i].0, entries[kb].0);
                }
            } else if b == i {
                assert(after[a].0 == entries[ka].0);
            } else {
                assert(after[a].0 == entries[ka].0);
                assert(after[b].0 == entries[kb].0);
            }
        }
    }
}

/// Where the slot of a key lies: every key before it comes before the key,
/// and the key at it, if there is one, does not.
pub proof fn lemma_slot_bounds<V>(entries: Seq<(Seq<char>, V)>, key: Seq<char>, from: int)
    requires
        0 <= from <= entries.len(),
    ensures
        from <= slot_of(entries, key, from) <= entries.len(),
        forall|i: int| from <= i < slot_of(entries, key, from) ==> text_less(
            #[trigger] entries[i].0,
            key,
        ),
        slot_of(entries, key, from) < entries.len() ==> !text_less(
            entries[slot_of(entries, key, from)].0,
            key,
        ),
    decreases entries.len() - from,
{
    if from < entries.len() && text_less(entries[from].0, key) {
        lemma_slot_bounds(entries, key, from + 1);
    }
}

/// Of two different texts one comes before the other.
proof fn lemma_not_less_means_after(a: Seq<char>, b: Seq<char>)
    requires
        !text_less(a, b),
        a != b,
    ensures
        text_less(b, a),
    decreases a.len(),
{
    if a.len() == 0 && b.len() == 0 {
        assert(a =~= b);
    } else if a.len() > 0 && b.len() > 0 {
        if a[0] == b[0] {
            if a.drop_first() == b.drop_first() {
                assert(a =~= seq![a[0]] + a.drop_first());
                assert(b =~= seq![b[0]] + b.drop_first());
            }
            lemma_not_less_means_after(a.drop_first(), b.drop_first());
        }
    }
}

/// The order of texts carries over.
proof fn lemma_text_less_chain(a: Seq<char>, b: Seq<char>, c: Seq<char>)
    requires
        text_less(a, b),
        text_less(b, c),
    ensures
        text_less(a, c),
    decreases a.len(),
{
    if a.len() > 0 && b.len() > 0 && c.len() > 0 && a[0] == b[0] && b[0] == c[0] {
        lemma_text_less_chain(a.drop_first(), b.drop_first(), c.drop_first());
    }
}

} // verus!

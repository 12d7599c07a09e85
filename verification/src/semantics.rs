//! What evaluation means: the value of an expression in a state, and the
//! state that evaluation leaves behind.
//!
//! Evaluation is lazy.  A name is bound to an expression until its value is
//! first asked for; the value then takes the expression's place.  While the
//! value of a name is being computed the name is marked, and asking for it
//! again gives no value: a definition that depends on itself is null.
//!
//! Evaluation goes only so deep: `depth` bounds the nesting of evaluations,
//! and where it is used up the value is null.

use vstd::prelude::*;
use crate::binding::BindingView;
use crate::context::{all_unevaluated, assigned, cached, ContextView};
use crate::expr::{BuiltIn, ExprView, IndexView};
use crate::float::FloatModel;
use crate::infix::infix_result;
use crate::prefix::prefix_result;
use crate::state::{
    binding_of, bindings_at, find_scope, in_progress_at, with_bindings, with_in_progress,
};
use crate::value::{entry_or_null, value_text, with_entry, ValueView};

verus! {

/// The state of an evaluation: the scopes, the names of the session, the
/// scope in which names are looked up, and the lines that `debug` has
/// emitted.
pub struct EvalView {
    pub contexts: Seq<ContextView>,
    pub names: Seq<Seq<char>>,
    pub active: usize,
    pub emitted: Seq<Seq<char>>,
}

impl EvalView {
    /// The state with another active scope.
    pub open spec fn activate(self, active: usize) -> EvalView {
        EvalView { active, ..self }
    }

    /// The state with other scopes.
    pub open spec fn with_contexts(self, contexts: Seq<ContextView>) -> EvalView {
        EvalView { contexts, ..self }
    }
}

/// The item at an index given as a 64-bit integer, or null where the index
/// is negative or past the end.
pub open spec fn item_or_null(items: Seq<ValueView>, index: i64) -> ValueView {
    if 0 <= index < items.len() {
        items[index as int]
    } else {
        ValueView::Null
    }
}

/// The bound that a value gives for a range: the value itself where it is
/// an integer that is not negative.
pub open spec fn range_bound(v: ValueView) -> Option<int> {
    match v {
        ValueView::Integer(i) => if i >= 0 {
            Some(i as int)
        } else {
            None
        },
        _ => None,
    }
}

/// The name of the kind of a value.
pub open spec fn kind_name(v: ValueView) -> Seq<char> {
    match v {
        ValueView::Null => seq!['n', 'u', 'l', 'l'],
        ValueView::Boolean(_) => seq!['b', 'o', 'o', 'l', 'e', 'a', 'n'],
        ValueView::Integer(_) => seq!['i', 'n', 't', 'e', 'g', 'e', 'r'],
        ValueView::Float(_) => seq!['f', 'l', 'o', 'a', 't'],
        ValueView::String(_) => seq!['s', 't', 'r', 'i', 'n', 'g'],
        ValueView::List(_) => seq!['l', 'i', 's', 't'],
        ValueView::Mapping(_) => seq!['m', 'a', 'p'],
    }
}

/// A count as a 64-bit integer: the greatest such integer where the count
/// is greater still.
pub open spec fn count_value(n: nat) -> i64 {
    if n <= i64::MAX {
        n as i64
    } else {
        i64::MAX
    }
}

/// The length of a value: the number of characters of a string, of items of
/// a list, of entries of a mapping; null of anything else.
pub open spec fn length_of(v: ValueView) -> ValueView {
    match v {
        ValueView::String(s) => ValueView::Integer(count_value(s.len())),
        ValueView::List(items) => ValueView::Integer(count_value(items.len())),
        ValueView::Mapping(entries) => ValueView::Integer(count_value(entries.len())),
        _ => ValueView::Null,
    }
}

/// A list with a value added at its end; null where the first value is no
/// list.
pub open spec fn pushed(collection: ValueView, value: ValueView) -> ValueView {
    match collection {
        ValueView::List(items) => ValueView::List(items.push(value)),
        _ => ValueView::Null,
    }
}

/// The place in a list of `len` items that an index means: a negative index
/// counts from the end.  None where that place is not within `0..=len`.
pub open spec fn insertion_place(len: nat, index: i64) -> Option<int> {
    let place = if index < 0 {
        len + index
    } else {
        index as int
    };
    if 0 <= place <= len {
        Some(place)
    } else {
        None
    }
}

/// A collection with a value put in: into a mapping under a string key,
/// into a list at the place that an integer means.  Null of anything else.
pub open spec fn inserted(collection: ValueView, key: ValueView, value: ValueView) -> ValueView {
    match (collection, key) {
        (ValueView::Mapping(entries), ValueView::String(k)) => ValueView::Mapping(
            with_entry(entries, k, value),
        ),
        (ValueView::List(items), ValueView::Integer(index)) => match insertion_place(
            items.len(),
            index,
        ) {
            Some(place) => ValueView::List(items.insert(place, value)),
            None => ValueView::Null,
        },
        _ => ValueView::Null,
    }
}

/// The two bindings that one round of an iteration gives the loop
/// variables.
pub open spec fn round_bindings(key: ValueView, value: ValueView) -> Seq<BindingView> {
    seq![BindingView::Cached(key), BindingView::Cached(value)]
}

/// The arguments of a call as bindings.
pub open spec fn argument_bindings(args: Seq<ExprView>) -> Seq<BindingView> {
    Seq::new(args.len(), |i: int| BindingView::Expr(args[i]))
}

/// The scopes after the bindings of scope `index` have been given `values`.
pub open spec fn assign_in(contexts: Seq<ContextView>, index: int, values: Seq<BindingView>) -> Seq<
    ContextView,
> {
    with_bindings(
        contexts,
        index,
        assigned(bindings_at(contexts, index), values, bindings_at(contexts, index).len()),
    )
}

/// The scopes after every name of scope `index` has been bound to the null
/// expression again.
pub open spec fn reset_in(contexts: Seq<ContextView>, index: int) -> Seq<ContextView> {
    with_bindings(contexts, index, all_unevaluated(bindings_at(contexts, index)))
}

/// Whether the value of an expression is kept in place of the expression:
/// true of everything but a function.
pub open spec fn cacheable(e: ExprView) -> bool {
    !(e is Defined || e is BuiltIn)
}

/// The value of an expression, and the state after its evaluation.
pub open spec fn eval_expr(e: ExprView, st: EvalView, depth: nat, fm: FloatModel) -> (
    ValueView,
    EvalView,
)
    decreases depth, 0nat, 0nat,
{
    if depth == 0 {
        (ValueView::Null, st)
    } else {
        let inner = (depth - 1) as nat;
        match e {
            ExprView::Null => (ValueView::Null, st),
            ExprView::Str(s) => (ValueView::String(s), st),
            ExprView::Int(i) => (ValueView::Integer(i), st),
            ExprView::Float(text) => (ValueView::Float((fm.decimal)(text)), st),
            ExprView::Bool(b) => (ValueView::Boolean(b), st),
            ExprView::List(items) => {
                let (values, st1) = eval_items(items, items.len(), st, inner, fm);
                (ValueView::List(values), st1)
            },
            ExprView::Mapping(entries) => {
                let (values, st1) = eval_entries(entries, entries.len(), st, inner, fm);
                (ValueView::Mapping(values), st1)
            },
            ExprView::Ident(name) => {
                let (found, st1) = eval_ident(name, st, inner, fm);
                (
                    match found {
                        Some(v) => v,
                        None => ValueView::Null,
                    },
                    st1,
                )
            },
            ExprView::Index { base, indices } => eval_index(base, indices, st, inner, fm),
            ExprView::Infix { lhs, op, rhs, parenthesized } => {
                let (l, st1) = eval_expr(*lhs, st, inner, fm);
                let (r, st2) = eval_expr(*rhs, st1, inner, fm);
                (infix_result(op, l, r, fm), st2)
            },
            ExprView::Prefix { unary, operand } => {
                let (v, st1) = eval_expr(*operand, st, inner, fm);
                (prefix_result(unary, v), st1)
            },
            ExprView::Block { ctx_idx, result } => {
                let (v, st1) = eval_expr(*result, st.activate(ctx_idx), inner, fm);
                (v, st1.activate(st.active))
            },
            ExprView::IfElse { condition, then, otherwise } => {
                let (c, st1) = eval_expr(*condition, st, inner, fm);
                match c {
                    ValueView::Boolean(true) => eval_expr(*then, st1, inner, fm),
                    ValueView::Boolean(false) => eval_expr(*otherwise, st1, inner, fm),
                    _ => (ValueView::Null, st1),
                }
            },
            ExprView::ForEach { base, ctx_idx, body } => eval_for_each(
                base,
                ctx_idx,
                *body,
                st,
                inner,
                fm,
            ),
            ExprView::Defined { .. } => (ValueView::Null, st),
            ExprView::BuiltIn(_) => (ValueView::Null, st),
            ExprView::Call { name, args } => eval_call(name, args, st, inner, fm),
        }
    }
}

/// The values of the first `count` expressions of a list, evaluated in
/// order.
pub open spec fn eval_items(
    items: Seq<ExprView>,
    count: nat,
    st: EvalView,
    depth: nat,
    fm: FloatModel,
) -> (Seq<ValueView>, EvalView)
    decreases depth, 2nat, count,
{
    if count == 0 || count > items.len() {
        (Seq::empty(), st)
    } else {
        let (values, st1) = eval_items(items, (count - 1) as nat, st, depth, fm);
        let (v, st2) = eval_expr(items[count - 1], st1, depth, fm);
        (values.push(v), st2)
    }
}

/// The values of the first `count` entries of a mapping, evaluated in
/// order, each under its key.
pub open spec fn eval_entries(
    entries: Seq<(Seq<char>, ExprView)>,
    count: nat,
    st: EvalView,
    depth: nat,
    fm: FloatModel,
) -> (Seq<(Seq<char>, ValueView)>, EvalView)
    decreases depth, 2nat, count,
{
    if count == 0 || count > entries.len() {
        (Seq::empty(), st)
    } else {
        let (values, st1) = eval_entries(entries, (count - 1) as nat, st, depth, fm);
        let (v, st2) = eval_expr(entries[count - 1].1, st1, depth, fm);
        (values.push((entries[count - 1].0, v)), st2)
    }
}

/// The value of a name, if it has one, and the state after it has been
/// found out.
///
/// The name is looked for from the active scope outwards.  Where its
/// evaluation is already under way it has no value.  Where it is bound to
/// an expression, the expression is evaluated in the scope of the name, and
/// its value is kept unless the expression is a function.  The name has a
/// value if its binding is a value in the end.
pub open spec fn eval_ident(name: u32, st: EvalView, depth: nat, fm: FloatModel) -> (
    Option<ValueView>,
    EvalView,
)
    decreases depth, 1nat, 0nat,
{
    match find_scope(st.contexts, st.active as int, name) {
        None => (None, st),
        Some(scope) => {
            if in_progress_at(st.contexts, scope as int).contains(name) {
                (None, st)
            } else {
                let st1 = st.activate(scope).with_contexts(
                    with_in_progress(
                        st.contexts,
                        scope as int,
                        in_progress_at(st.contexts, scope as int).insert(name),
                    ),
                );
                let st2 = match binding_of(st1.contexts, scope as int, name) {
                    Some(BindingView::Expr(e)) => {
                        let (v, st_after) = eval_expr(e, st1, depth, fm);
                        if cacheable(e) {
                            st_after.with_contexts(
                                with_bindings(
                                    st_after.contexts,
                                    scope as int,
                                    cached(bindings_at(st_after.contexts, scope as int), name, v),
                                ),
                            )
                        } else {
                            st_after
                        }
                    },
                    _ => st1,
                };
                let st3 = st2.activate(st.active).with_contexts(
                    with_in_progress(
                        st2.contexts,
                        scope as int,
                        in_progress_at(st2.contexts, scope as int).remove(name),
                    ),
                );
                (
                    match binding_of(st3.contexts, scope as int, name) {
                        Some(BindingView::Cached(v)) => Some(v),
                        _ => None,
                    },
                    st3,
                )
            }
        },
    }
}

/// The value of an index expression: the brackets are applied in turn to
/// the value of the base, which must be a list or a mapping.
pub open spec fn eval_index(
    base: u32,
    indices: Seq<IndexView>,
    st: EvalView,
    depth: nat,
    fm: FloatModel,
) -> (ValueView, EvalView)
    decreases depth, 3nat, 0nat,
{
    let (found, st1) = eval_ident(base, st, depth, fm);
    match found {
        Some(ValueView::List(items)) => eval_brackets(
            ValueView::List(items),
            indices,
            0,
            st1,
            depth,
            fm,
        ),
        Some(ValueView::Mapping(entries)) => eval_brackets(
            ValueView::Mapping(entries),
            indices,
            0,
            st1,
            depth,
            fm,
        ),
        _ => (ValueView::Null, st1),
    }
}

/// The bound that an expression gives for a range, and the state after its
/// evaluation.
pub open spec fn eval_bound(e: ExprView, st: EvalView, depth: nat, fm: FloatModel) -> (
    Option<int>,
    EvalView,
)
    decreases depth, 1nat, 0nat,
{
    let (v, st1) = eval_expr(e, st, depth, fm);
    (range_bound(v), st1)
}

/// The part of a list between two bounds, or none where the bounds do not
/// satisfy `start <= end <= len`.
pub open spec fn slice_between(items: Seq<ValueView>, start: int, end: int) -> Option<ValueView> {
    if 0 <= start <= end <= items.len() {
        Some(ValueView::List(items.subrange(start, end)))
    } else {
        None
    }
}

/// The value that one bracket gives of `value`, or none where the whole
/// index expression is null.
///
/// One bracket wants a string and a mapping, or an integer that is not
/// negative and a list; a key or place that is not there gives null, and
/// any other pairing ends with null.  A range wants a list and bounds with
/// `0 <= start <= end <= len`, where a missing bound is the end it stands
/// for; of anything but a list it ends with null, without evaluating its
/// bounds.
pub open spec fn eval_bracket(
    value: ValueView,
    bracket: IndexView,
    st: EvalView,
    depth: nat,
    fm: FloatModel,
) -> (Option<ValueView>, EvalView)
    decreases depth, 2nat, 0nat,
{
    match bracket {
        IndexView::Single(e) => {
            let (key, st1) = eval_expr(e, st, depth, fm);
            match (key, value) {
                (ValueView::String(k), ValueView::Mapping(entries)) => (
                    Some(entry_or_null(entries, k)),
                    st1,
                ),
                (ValueView::Integer(i), ValueView::List(items)) => if i >= 0 {
                    (Some(item_or_null(items, i)), st1)
                } else {
                    (None, st1)
                },
                _ => (None, st1),
            }
        },
        IndexView::From(e) => match value {
            ValueView::List(items) => {
                let (bound, st1) = eval_bound(e, st, depth, fm);
                match bound {
                    Some(start) => (slice_between(items, start, items.len() as int), st1),
                    None => (None, st1),
                }
            },
            _ => (None, st),
        },
        IndexView::To(e) => match value {
            ValueView::List(items) => {
                let (bound, st1) = eval_bound(e, st, depth, fm);
                match bound {
                    Some(end) => (slice_between(items, 0, end), st1),
                    None => (None, st1),
                }
            },
            _ => (None, st),
        },
        IndexView::FromTo(a, b) => match value {
            ValueView::List(items) => {
                let (low, st1) = eval_bound(a, st, depth, fm);
                match low {
                    Some(start) => {
                        let (high, st2) = eval_bound(b, st1, depth, fm);
                        match high {
                            Some(end) => (slice_between(items, start, end), st2),
                            None => (None, st2),
                        }
                    },
                    None => (None, st1),
                }
            },
            _ => (None, st),
        },
    }
}

/// The value that the brackets from `from` on give of `value`.
pub open spec fn eval_brackets(
    value: ValueView,
    indices: Seq<IndexView>,
    from: nat,
    st: EvalView,
    depth: nat,
    fm: FloatModel,
) -> (ValueView, EvalView)
    decreases depth, 2nat, indices.len() - from,
{
    if from >= indices.len() {
        (value, st)
    } else {
        let (next, st1) = eval_bracket(value, indices[from as int], st, depth, fm);
        match next {
            Some(v) => eval_brackets(v, indices, from + 1, st1, depth, fm),
            None => (ValueView::Null, st1),
        }
    }
}

/// The value of an iteration.  The body is evaluated once for each item of
/// the list, or entry of the mapping, that the base names, with the loop
/// variables bound to index and item, or key and value; the values make a
/// list, or a mapping under the same keys.  Afterwards the loop variables
/// are unbound again.
pub open spec fn eval_for_each(
    base: u32,
    ctx_idx: usize,
    body: ExprView,
    st: EvalView,
    depth: nat,
    fm: FloatModel,
) -> (ValueView, EvalView)
    decreases depth, 3nat, 0nat,
{
    let (found, st1) = eval_ident(base, st, depth, fm);
    match found {
        Some(ValueView::List(items)) => {
            let (values, st2) = eval_rounds(
                items,
                items.len(),
                ctx_idx,
                body,
                st1.activate(ctx_idx),
                depth,
                fm,
            );
            (
                ValueView::List(values),
                st2.activate(st1.active).with_contexts(reset_in(st2.contexts, ctx_idx as int)),
            )
        },
        Some(ValueView::Mapping(entries)) => {
            let (values, st2) = eval_keyed_rounds(
                entries,
                entries.len(),
                ctx_idx,
                body,
                st1.activate(ctx_idx),
                depth,
                fm,
            );
            (
                ValueView::Mapping(values),
                st2.activate(st1.active).with_contexts(reset_in(st2.contexts, ctx_idx as int)),
            )
        },
        _ => (ValueView::Null, st1),
    }
}

/// The values of the body in the first `count` rounds over a list.
pub open spec fn eval_rounds(
    items: Seq<ValueView>,
    count: nat,
    ctx_idx: usize,
    body: ExprView,
    st: EvalView,
    depth: nat,
    fm: FloatModel,
) -> (Seq<ValueView>, EvalView)
    decreases depth, 2nat, count,
{
    if count == 0 || count > items.len() {
        (Seq::empty(), st)
    } else {
        let (values, st1) = eval_rounds(items, (count - 1) as nat, ctx_idx, body, st, depth, fm);
        let st2 = st1.with_contexts(
            assign_in(
                st1.contexts,
                ctx_idx as int,
                round_bindings(ValueView::Integer(count_value((count - 1) as nat)), items[count - 1]),
            ),
        );
        let (v, st3) = eval_expr(body, st2, depth, fm);
        (values.push(v), st3)
    }
}

/// The values of the body in the first `count` rounds over a mapping, each
/// put under the key of its round.
pub open spec fn eval_keyed_rounds(
    entries: Seq<(Seq<char>, ValueView)>,
    count: nat,
    ctx_idx: usize,
    body: ExprView,
    st: EvalView,
    depth: nat,
    fm: FloatModel,
) -> (Seq<(Seq<char>, ValueView)>, EvalView)
    decreases depth, 2nat, count,
{
    if count == 0 || count > entries.len() {
        (Seq::empty(), st)
    } else {
        let (values, st1) = eval_keyed_rounds(
            entries,
            (count - 1) as nat,
            ctx_idx,
            body,
            st,
            depth,
            fm,
        );
        let st2 = st1.with_contexts(
            assign_in(
                st1.contexts,
                ctx_idx as int,
                round_bindings(ValueView::String(entries[count - 1].0), entries[count - 1].1),
            ),
        );
        let (v, st3) = eval_expr(body, st2, depth, fm);
        (with_entry(values, entries[count - 1].0, v), st3)
    }
}

/// The value of a call.  The name must be bound, as an expression, to a
/// function; anything else gives null.  A function of the program wants as
/// many arguments as it has parameters: they are bound to the parameters
/// unevaluated, the body is evaluated in the scope of the parameters, and
/// the parameters are unbound again.
pub open spec fn eval_call(
    name: u32,
    args: Seq<ExprView>,
    st: EvalView,
    depth: nat,
    fm: FloatModel,
) -> (ValueView, EvalView)
    decreases depth, 4nat, 0nat,
{
    match find_scope(st.contexts, st.active as int, name) {
        None => (ValueView::Null, st),
        Some(scope) => match binding_of(st.contexts, scope as int, name) {
            Some(BindingView::Expr(ExprView::Defined { ctx_idx, body })) => {
                if args.len() != bindings_at(st.contexts, ctx_idx as int).len() {
                    (ValueView::Null, st)
                } else {
                    let st1 = st.activate(ctx_idx).with_contexts(
                        assign_in(st.contexts, ctx_idx as int, argument_bindings(args)),
                    );
                    let (v, st2) = eval_expr(*body, st1, depth, fm);
                    (
                        v,
                        st2.activate(st.active).with_contexts(
                            reset_in(st2.contexts, ctx_idx as int),
                        ),
                    )
                }
            },
            Some(BindingView::Expr(ExprView::BuiltIn(which))) => eval_builtin(
                which,
                args,
                st,
                depth,
                fm,
            ),
            _ => (ValueView::Null, st),
        },
    }
}

/// The value of a call of a built-in function.
///
/// `debug` emits the text of its argument and gives the argument back.
/// `type_of`, `length` and `to_str` give the kind, the length and the text
/// of their argument.  `concat` joins those of its arguments that are
/// strings, and gives null where that is empty.  `push` and `insert` give a
/// collection with one value more.  A call with another number of arguments
/// than the function takes gives null, and evaluates nothing.
pub open spec fn eval_builtin(
    which: BuiltIn,
    args: Seq<ExprView>,
    st: EvalView,
    depth: nat,
    fm: FloatModel,
) -> (ValueView, EvalView)
    decreases depth, 3nat, 0nat,
{
    match which {
        BuiltIn::Debug => if args.len() != 1 {
            (ValueView::Null, st)
        } else {
            let (v, st1) = eval_expr(args[0], st, depth, fm);
            (v, EvalView { emitted: st1.emitted.push(value_text(v, false, 0, fm)), ..st1 })
        },
        BuiltIn::TypeOf => if args.len() != 1 {
            (ValueView::Null, st)
        } else {
            let (v, st1) = eval_expr(args[0], st, depth, fm);
            (ValueView::String(kind_name(v)), st1)
        },
        BuiltIn::Length => if args.len() != 1 {
            (ValueView::Null, st)
        } else {
            let (v, st1) = eval_expr(args[0], st, depth, fm);
            (length_of(v), st1)
        },
        BuiltIn::ToStr => if args.len() != 1 {
            (ValueView::Null, st)
        } else {
            let (v, st1) = eval_expr(args[0], st, depth, fm);
            (ValueView::String(value_text(v, false, 0, fm)), st1)
        },
        BuiltIn::Concat => {
            let (text, st1) = eval_concat(args, args.len(), st, depth, fm);
            (
                if text.len() == 0 {
                    ValueView::Null
                } else {
                    ValueView::String(text)
                },
                st1,
            )
        },
        BuiltIn::Push => if args.len() != 2 {
            (ValueView::Null, st)
        } else {
            let (collection, st1) = eval_expr(args[0], st, depth, fm);
            let (v, st2) = eval_expr(args[1], st1, depth, fm);
            (pushed(collection, v), st2)
        },
        BuiltIn::Insert => if args.len() != 3 {
            (ValueView::Null, st)
        } else {
            let (collection, st1) = eval_expr(args[0], st, depth, fm);
            let (key, st2) = eval_expr(args[1], st1, depth, fm);
            let (v, st3) = eval_expr(args[2], st2, depth, fm);
            (inserted(collection, key, v), st3)
        },
    }
}

/// The strings among the values of the first `count` arguments, joined.
pub open spec fn eval_concat(
    args: Seq<ExprView>,
    count: nat,
    st: EvalView,
    depth: nat,
    fm: FloatModel,
) -> (Seq<char>, EvalView)
    decreases depth, 2nat, count,
{
    if count == 0 || count > args.len() {
        (Seq::empty(), st)
    } else {
        let (text, st1) = eval_concat(args, (count - 1) as nat, st, depth, fm);
        let (v, st2) = eval_expr(args[count - 1], st1, depth, fm);
        (
            match v {
                ValueView::String(s) => text + s,
                _ => text,
            },
            st2,
        )
    }
}

} // verus!

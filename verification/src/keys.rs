//! The keys of mappings: parsing and evaluation give only mappings whose
//! keys stand in strictly ascending order, so that no key comes twice.

use vstd::prelude::*;
use crate::binding::BindingView;
use crate::float::FloatModel;
use crate::infix::infix_result;
use crate::prefix::prefix_result;
use crate::expr::BuiltIn;
use crate::semantics::{
    argument_bindings, assign_in, cacheable, count_value, eval_bracket, eval_brackets,
    eval_builtin, eval_call, eval_concat, eval_entries, eval_expr, eval_for_each, eval_ident,
    eval_index, eval_items, eval_keyed_rounds, eval_rounds, insertion_place, reset_in,
    round_bindings, EvalView,
};
use crate::text::text_less;
use crate::context::ContextView;
use crate::expr::{ExprView, IndexView};
use crate::grammar::{
    assignment, block, block_body, bracket, bracket_rest, call, entry, expression, for_each,
    for_each_body, function, function_body, give_back, held, if_else, index, infix,
    lemma_assignment, lemma_block, lemma_block_body, lemma_bracket, lemma_bracket_rest,
    lemma_call, lemma_entry, lemma_expression, lemma_for_each, lemma_for_each_body,
    lemma_function, lemma_function_body, lemma_if_else, lemma_index, lemma_infix, lemma_list,
    lemma_mapping, lemma_more_assignments, lemma_more_brackets, lemma_more_entries,
    lemma_more_items, lemma_more_names, lemma_named_operand, lemma_operand, lemma_other_operand,
    lemma_parenthesized, lemma_prefix_operation, lemma_required, list, mapping, more_assignments,
    more_brackets, more_entries, more_items, more_names, name, named_operand, null_literal,
    operand, operator, other_operand, parameters_end, parenthesized, prefix_operation, required,
    reserve, settle, skip, whole, ParseView, Parsed,
};
use crate::lex::char_at;
use crate::expr::{well_keyed_bracket, well_keyed_tree};
use crate::laws::law_insertion_keeps_order;
use crate::state::{
    binding_of, bindings_at, blank_context, find_scope, in_progress_at, placed, with_bindings,
    with_in_progress,
};
use crate::context::{all_unevaluated, assigned, bound_in_turn, cached, with_binding};
use crate::value::{keys_ascend, well_keyed, with_entry, ValueView};

verus! {

/// Whether every expression of a sequence is well-formed.
pub open spec fn all_keyed(items: Seq<ExprView>) -> bool {
    forall|i: int| 0 <= i < items.len() ==> well_keyed_tree(#[trigger] items[i])
}

/// Whether the entries of a mapping have ascending keys and well-formed
/// expressions.
pub open spec fn entries_keyed(entries: Seq<(Seq<char>, ExprView)>) -> bool {
    keys_ascend(entries) && forall|i: int|
        0 <= i < entries.len() ==> well_keyed_tree((#[trigger] entries[i]).1)
}

/// Whether every bracket of a sequence is well-formed.
pub open spec fn brackets_keyed(indices: Seq<IndexView>) -> bool {
    forall|i: int| 0 <= i < indices.len() ==> well_keyed_bracket(#[trigger] indices[i])
}

/// Whether what a name is bound to is well-formed, expression or value.
pub open spec fn binding_keyed(b: BindingView) -> bool {
    match b {
        BindingView::Expr(e) => well_keyed_tree(e),
        BindingView::Cached(v) => well_keyed(v),
    }
}

/// Whether every binding of a sequence is well-formed.
pub open spec fn pairs_keyed(pairs: Seq<(u32, BindingView)>) -> bool {
    forall|i: int| 0 <= i < pairs.len() ==> binding_keyed((#[trigger] pairs[i]).1)
}

/// Whether every binding of every scope is well-formed.
pub open spec fn scopes_keyed(contexts: Seq<ContextView>) -> bool {
    forall|i: int| 0 <= i < contexts.len() ==> pairs_keyed((#[trigger] contexts[i]).bindings)
}

/// Binding a name to something well-formed keeps the bindings well-formed.
pub proof fn lemma_binding_keyed(bindings: Seq<(u32, BindingView)>, key: u32, value: BindingView)
    requires
        pairs_keyed(bindings),
        binding_keyed(value),
    ensures
        pairs_keyed(with_binding(bindings, key, value)),
{
    let after = with_binding(bindings, key, value);
    let at = crate::context::key_index(bindings, key, 0);
    crate::context::lemma_key_index_bounds(bindings, key, 0);
    assert forall|i: int| 0 <= i < after.len() implies binding_keyed((#[trigger] after[i]).1) by {
        if i != at {
            assert(after[i] == bindings[i]);
        }
    }
}

/// Well-formed pairs bound in turn give well-formed bindings.
proof fn lemma_bound_keyed(pairs: Seq<(u32, BindingView)>, count: nat)
    requires
        pairs_keyed(pairs),
    ensures
        pairs_keyed(bound_in_turn(pairs, count)),
    decreases count,
{
    if !(count == 0 || count > pairs.len()) {
        lemma_bound_keyed(pairs, (count - 1) as nat);
        lemma_binding_keyed(
            bound_in_turn(pairs, (count - 1) as nat),
            pairs[count - 1].0,
            pairs[count - 1].1,
        );
    }
}

/// A scope that is placed with well-formed bindings keeps the scopes
/// well-formed.
proof fn lemma_settled_keyed(
    body: ParseView,
    caller: usize,
    index: usize,
    pairs: Seq<(u32, BindingView)>,
)
    requires
        scopes_keyed(body.contexts),
        pairs_keyed(pairs),
    ensures
        scopes_keyed(settle(body, caller, index, pairs).contexts),
        scopes_keyed(give_back(body, caller).contexts),
{
    lemma_bound_keyed(pairs, pairs.len());
    let after = settle(body, caller, index, pairs).contexts;
    assert forall|i: int| 0 <= i < after.len() implies pairs_keyed(
        (#[trigger] after[i]).bindings,
    ) by {
        if i < body.contexts.len() && i != index {
            assert(after[i] == body.contexts[i]);
        } else if i != index {
            assert(after[i] == blank_context());
        }
    }
}

/// Giving a key an expression keeps the entries of a mapping well-formed.
proof fn lemma_entry_added(entries: Seq<(Seq<char>, ExprView)>, key: Seq<char>, e: ExprView)
    requires
        entries_keyed(entries),
        well_keyed_tree(e),
    ensures
        entries_keyed(with_entry(entries, key, e)),
{
    law_insertion_keeps_order(entries, key, e);
    let after = with_entry(entries, key, e);
    let slot = crate::value::slot_of(entries, key, 0);
    crate::laws::lemma_slot_bounds(entries, key, 0);
    assert forall|i: int| 0 <= i < after.len() implies well_keyed_tree(
        (#[trigger] after[i]).1,
    ) by {
        if i < slot {
            assert(after[i] == entries[i]);
        } else if i > slot {
            if after.len() == entries.len() {
                assert(after[i] == entries[i]);
            } else {
                assert(after[i] == entries[i - 1]);
            }
        }
    }
}

proof fn lemma_names_keyed(input: Seq<char>, pos: int, st: ParseView, names: Seq<u32>)
    requires
        scopes_keyed(st.contexts),
    ensures
        scopes_keyed(more_names(input, pos, st, names).1.contexts),
    decreases input.len() - pos,
{
    lemma_more_names(input, pos, st, names);
    let comma = skip(input, pos);
    if !(pos < 0 || pos > input.len() || !char_at(input, comma, ',')) {
        let (r, st1) = name(input, skip(input, comma + 1), st);
        match r {
            Parsed::Done(symbol, end) => {
                if !(end <= pos) {
                    lemma_names_keyed(input, end, st1, names.push(symbol));
                }
            },
            _ => {},
        }
    }
}

proof fn lemma_expression_keyed(input: Seq<char>, pos: int, st: ParseView)
    requires
        scopes_keyed(st.contexts),
    ensures
        scopes_keyed(expression(input, pos, st).1.contexts),
        expression(input, pos, st).0 matches Parsed::Done(found, _) ==> well_keyed_tree(found),
    decreases input.len() - pos, 8nat,
{
    lemma_expression(input, pos, st);
    if !(pos < 0 || pos > input.len()) {
        let start = skip(input, pos);
        lemma_for_each_keyed(input, start, st);
        let (r1, st1) = for_each(input, start, st);
        if r1.missed() {
            lemma_infix_keyed(input, start, st1);
            let (r2, st2) = infix(input, start, st1);
            if r2.missed() && null_literal(input, start).missed() {
                lemma_mapping_keyed(input, start, st2);
                let (r4, st4) = mapping(input, start, st2);
                if r4.missed() {
                    lemma_list_keyed(input, start, st4);
                    let (r5, st5) = list(input, start, st4);
                    if r5.missed() {
                        lemma_if_else_keyed(input, start, st5);
                    }
                }
            }
        }
    }
}

proof fn lemma_required_keyed(input: Seq<char>, pos: int, st: ParseView)
    requires
        scopes_keyed(st.contexts),
    ensures
        scopes_keyed(required(input, pos, st).1.contexts),
        required(input, pos, st).0 matches Parsed::Done(found, _) ==> well_keyed_tree(found),
    decreases input.len() - pos, 9nat,
{
    lemma_required(input, pos, st);
    lemma_expression_keyed(input, pos, st);
}

proof fn lemma_for_each_keyed(input: Seq<char>, pos: int, st: ParseView)
    requires
        scopes_keyed(st.contexts),
    ensures
        scopes_keyed(for_each(input, pos, st).1.contexts),
        for_each(input, pos, st).0 matches Parsed::Done(found, _) ==> well_keyed_tree(found),
    decreases input.len() - pos, 2nat,
{
    lemma_for_each(input, pos, st);
    if !(pos < 0 || pos > input.len()) && st.avail != usize::MAX {
        lemma_for_each_body_keyed(input, pos, reserve(st));
        let (r, st1) = for_each_body(input, pos, reserve(st));
        match r {
            Parsed::Done((base, key, item, body), end) => {
                lemma_settled_keyed(
                    st1,
                    st.active,
                    st.avail,
                    seq![(key, crate::grammar::unbound()), (item, crate::grammar::unbound())],
                );
            },
            Parsed::Failed(f) => {
                lemma_settled_keyed(st1, st.active, st.avail, Seq::empty());
            },
        }
    }
}

proof fn lemma_for_each_body_keyed(input: Seq<char>, pos: int, st: ParseView)
    requires
        scopes_keyed(st.contexts),
    ensures
        scopes_keyed(for_each_body(input, pos, st).1.contexts),
        for_each_body(input, pos, st).0 matches Parsed::Done(found, _) ==> well_keyed_tree(found.3),
    decreases input.len() - pos, 1nat,
{
    lemma_for_each_body(input, pos, st);
    let (base, st1) = name(input, pos, st);
    match base {
        Parsed::Done(base, p) => {
            let arrow = skip(input, p);
            if char_at(input, arrow, '>') {
                let open = skip(input, arrow + 1);
                if char_at(input, open, '(') {
                    let first = skip(input, open + 1);
                    let (key, st2) = name(input, first, st1);
                    match key {
                        Parsed::Done(key, n2) => {
                            let comma = skip(input, n2);
                            if char_at(input, comma, ',') {
                                let second = skip(input, comma + 1);
                                let (item, st3) = name(input, second, st2);
                                match item {
                                    Parsed::Done(item, n3) => {
                                        let close = skip(input, n3);
                                        if char_at(input, close, ')') {
                                            let colon = skip(input, close + 1);
                                            if char_at(input, colon, ':') {
                                                let at = held(
                                                    input,
                                                    skip(input, colon + 1),
                                                    pos + 1,
                                                );
                                                lemma_required_keyed(input, at, st3);
                                            }
                                        }
                                    },
                                    _ => {},
                                }
                            }
                        },
                        _ => {},
                    }
                }
            }
        },
        _ => {},
    }
}

proof fn lemma_infix_keyed(input: Seq<char>, pos: int, st: ParseView)
    requires
        scopes_keyed(st.contexts),
    ensures
        scopes_keyed(infix(input, pos, st).1.contexts),
        infix(input, pos, st).0 matches Parsed::Done(found, _) ==> well_keyed_tree(found),
    decreases input.len() - pos, 7nat,
{
    lemma_infix(input, pos, st);
    lemma_operand_keyed(input, pos, st);
    if !(pos < 0 || pos >= input.len()) {
        let (lhs, st1) = operand(input, pos, st);
        match lhs {
            Parsed::Done(lhs, p) => {
                let p = held(input, p, pos);
                match operator(input, skip(input, p)) {
                    Parsed::Done(op, q) => {
                        let at = skip(input, held(input, q, pos + 1));
                        lemma_infix_keyed(input, at, st1);
                    },
                    _ => {},
                }
            },
            Parsed::Failed(f) => {
                if !f.cut {
                    lemma_parenthesized_keyed(input, pos, st1);
                }
            },
        }
    }
}

proof fn lemma_operand_keyed(input: Seq<char>, pos: int, st: ParseView)
    requires
        scopes_keyed(st.contexts),
    ensures
        scopes_keyed(operand(input, pos, st).1.contexts),
        operand(input, pos, st).0 matches Parsed::Done(found, _) ==> well_keyed_tree(found),
    decreases input.len() - pos, 6nat,
{
    lemma_operand(input, pos, st);
    lemma_named_operand_keyed(input, pos, st);
}

proof fn lemma_named_operand_keyed(input: Seq<char>, pos: int, st: ParseView)
    requires
        scopes_keyed(st.contexts),
    ensures
        scopes_keyed(named_operand(input, pos, st).1.contexts),
        named_operand(input, pos, st).0 matches Parsed::Done(found, _) ==> well_keyed_tree(found),
    decreases input.len() - pos, 5nat,
{
    lemma_named_operand(input, pos, st);
    lemma_index_keyed(input, pos, st);
    let (r3, st3) = index(input, pos, st);
    if r3.missed() {
        lemma_call_keyed(input, pos, st3);
        let (r4, st4) = call(input, pos, st3);
        if r4.missed() {
            let (r5, st5) = name(input, pos, st4);
            lemma_other_operand_keyed(input, pos, st5);
        }
    }
}

proof fn lemma_other_operand_keyed(input: Seq<char>, pos: int, st: ParseView)
    requires
        scopes_keyed(st.contexts),
    ensures
        scopes_keyed(other_operand(input, pos, st).1.contexts),
        other_operand(input, pos, st).0 matches Parsed::Done(found, _) ==> well_keyed_tree(found),
    decreases input.len() - pos, 4nat,
{
    lemma_other_operand(input, pos, st);
    lemma_block_keyed(input, pos, st);
    let (r7, st7) = block(input, pos, st);
    if r7.missed() {
        lemma_prefix_keyed(input, pos, st7);
        let (r8, st8) = prefix_operation(input, pos, st7);
        if r8.missed() {
            lemma_parenthesized_keyed(input, pos, st8);
        }
    }
}

proof fn lemma_parenthesized_keyed(input: Seq<char>, pos: int, st: ParseView)
    requires
        scopes_keyed(st.contexts),
    ensures
        scopes_keyed(parenthesized(input, pos, st).1.contexts),
        parenthesized(input, pos, st).0 matches Parsed::Done(found, _) ==> well_keyed_tree(found),
    decreases input.len() - pos, 3nat,
{
    lemma_parenthesized(input, pos, st);
    if !(pos < 0 || pos >= input.len() || input[pos] != '(') {
        lemma_operand_keyed(input, pos + 1, st);
        let (lhs, st1) = operand(input, pos + 1, st);
        match lhs {
            Parsed::Done(lhs, p) => {
                let p = held(input, p, pos + 1);
                match operator(input, skip(input, p)) {
                    Parsed::Done(op, q) => {
                        let at = skip(input, q);
                        lemma_infix_keyed(input, at, st1);
                    },
                    _ => {},
                }
            },
            _ => {},
        }
    }
}

proof fn lemma_prefix_keyed(input: Seq<char>, pos: int, st: ParseView)
    requires
        scopes_keyed(st.contexts),
    ensures
        scopes_keyed(prefix_operation(input, pos, st).1.contexts),
        prefix_operation(input, pos, st).0 matches Parsed::Done(found, _) ==> well_keyed_tree(
            found,
        ),
    decreases input.len() - pos, 2nat,
{
    lemma_prefix_operation(input, pos, st);
    let sign = skip(input, pos);
    if !(pos < 0 || pos > input.len() || !(char_at(input, sign, '-') || char_at(input, sign, '!'))) {
        lemma_required_keyed(input, skip(input, sign + 1), st);
    }
}

proof fn lemma_if_else_keyed(input: Seq<char>, pos: int, st: ParseView)
    requires
        scopes_keyed(st.contexts),
    ensures
        scopes_keyed(if_else(input, pos, st).1.contexts),
        if_else(input, pos, st).0 matches Parsed::Done(found, _) ==> well_keyed_tree(found),
    decreases input.len() - pos, 2nat,
{
    lemma_if_else(input, pos, st);
    if !(pos < 0 || pos >= input.len() || input[pos] != '?') {
        lemma_required_keyed(input, pos + 1, st);
        let (condition, st1) = required(input, pos + 1, st);
        match condition {
            Parsed::Done(condition, n1) => {
                if !(!char_at(input, n1, ':') || n1 <= pos) {
                    lemma_required_keyed(input, n1 + 1, st1);
                    let (then, st2) = required(input, n1 + 1, st1);
                    match then {
                        Parsed::Done(then, n2) => {
                            if !(!char_at(input, n2, '|') || n2 <= pos) {
                                lemma_required_keyed(input, n2 + 1, st2);
                            }
                        },
                        _ => {},
                    }
                }
            },
            _ => {},
        }
    }
}

proof fn lemma_more_items_keyed(input: Seq<char>, pos: int, st: ParseView, items: Seq<ExprView>)
    requires
        scopes_keyed(st.contexts),
        all_keyed(items),
    ensures
        scopes_keyed(more_items(input, pos, st, items).1.contexts),
        more_items(input, pos, st, items).0 matches Parsed::Done(found, _) ==> all_keyed(found),
    decreases input.len() - pos, 10nat,
{
    lemma_more_items(input, pos, st, items);
    let comma = skip(input, pos);
    if !(pos < 0 || pos > input.len() || !char_at(input, comma, ',')) {
        let at = skip(input, comma + 1);
        lemma_expression_keyed(input, at, st);
        let (r, st1) = expression(input, at, st);
        match r {
            Parsed::Done(e, end) => {
                lemma_more_items_keyed(input, held(input, end, at), st1, items.push(e));
            },
            _ => {},
        }
    }
}

proof fn lemma_list_keyed(input: Seq<char>, pos: int, st: ParseView)
    requires
        scopes_keyed(st.contexts),
    ensures
        scopes_keyed(list(input, pos, st).1.contexts),
        list(input, pos, st).0 matches Parsed::Done(found, _) ==> well_keyed_tree(found),
    decreases input.len() - pos, 2nat,
{
    lemma_list(input, pos, st);
    if !(pos < 0 || pos >= input.len() || input[pos] != '[') {
        let first = skip(input, pos + 1);
        lemma_expression_keyed(input, first, st);
        let (head, st1) = expression(input, first, st);
        match head {
            Parsed::Done(e, end) => {
                lemma_more_items_keyed(input, held(input, end, first), st1, seq![e]);
            },
            _ => {},
        }
    }
}

proof fn lemma_entry_keyed(input: Seq<char>, pos: int, st: ParseView)
    requires
        scopes_keyed(st.contexts),
    ensures
        scopes_keyed(entry(input, pos, st).1.contexts),
        entry(input, pos, st).0 matches Parsed::Done(found, _) ==> well_keyed_tree(found.1),
    decreases input.len() - pos, 11nat,
{
    lemma_entry(input, pos, st);
    let key_end = held(input, crate::lex::run_end(input, pos + 1, crate::lex::Class::Plain), pos + 1);
    if !(pos < 0 || pos >= input.len() || input[pos] != '"') && !(key_end <= pos + 1) && char_at(
        input,
        key_end,
        '"',
    ) {
        let colon = skip(input, key_end + 1);
        if char_at(input, colon, ':') {
            lemma_required_keyed(input, skip(input, colon + 1), st);
        }
    }
}

proof fn lemma_more_entries_keyed(
    input: Seq<char>,
    pos: int,
    st: ParseView,
    entries: Seq<(Seq<char>, ExprView)>,
)
    requires
        scopes_keyed(st.contexts),
        entries_keyed(entries),
    ensures
        scopes_keyed(more_entries(input, pos, st, entries).1.contexts),
        more_entries(input, pos, st, entries).0 matches Parsed::Done(found, _) ==> entries_keyed(
            found,
        ),
    decreases input.len() - pos, 12nat,
{
    lemma_more_entries(input, pos, st, entries);
    let comma = skip(input, pos);
    if !(pos < 0 || pos > input.len() || !char_at(input, comma, ',')) {
        let at = skip(input, comma + 1);
        lemma_entry_keyed(input, at, st);
        let (r, st1) = entry(input, at, st);
        match r {
            Parsed::Done((key, e), end) => {
                lemma_entry_added(entries, key, e);
                lemma_more_entries_keyed(
                    input,
                    held(input, end, at),
                    st1,
                    with_entry(entries, key, e),
                );
            },
            _ => {},
        }
    }
}

proof fn lemma_mapping_keyed(input: Seq<char>, pos: int, st: ParseView)
    requires
        scopes_keyed(st.contexts),
    ensures
        scopes_keyed(mapping(input, pos, st).1.contexts),
        mapping(input, pos, st).0 matches Parsed::Done(found, _) ==> well_keyed_tree(found),
    decreases input.len() - pos, 2nat,
{
    lemma_mapping(input, pos, st);
    if !(pos < 0 || pos >= input.len() || input[pos] != '[') {
        let first = skip(input, pos + 1);
        lemma_entry_keyed(input, first, st);
        let (head, st1) = entry(input, first, st);
        match head {
            Parsed::Done((key, e), end) => {
                lemma_more_entries_keyed(input, held(input, end, first), st1, seq![(key, e)]);
            },
            _ => {},
        }
    }
}

proof fn lemma_bracket_rest_keyed(
    input: Seq<char>,
    pos: int,
    st: ParseView,
    start: ExprView,
    floor: int,
)
    requires
        scopes_keyed(st.contexts),
        well_keyed_tree(start),
    ensures
        scopes_keyed(bracket_rest(input, pos, st, start, floor).1.contexts),
        bracket_rest(input, pos, st, start, floor).0 matches Parsed::Done(found, _) ==> well_keyed_bracket(
            found,
        ),
    decreases input.len() - floor, 1nat,
{
    lemma_bracket_rest(input, pos, st, start, floor);
    if !(pos < floor || pos > input.len()) && char_at(input, pos, ':') {
        lemma_expression_keyed(input, skip(input, pos + 1), st);
    }
}

proof fn lemma_bracket_keyed(input: Seq<char>, pos: int, st: ParseView)
    requires
        scopes_keyed(st.contexts),
    ensures
        scopes_keyed(bracket(input, pos, st).1.contexts),
        bracket(input, pos, st).0 matches Parsed::Done(found, _) ==> well_keyed_bracket(found),
    decreases input.len() - pos, 13nat,
{
    lemma_bracket(input, pos, st);
    if !(pos < 0 || pos > input.len()) {
        lemma_expression_keyed(input, pos, st);
        let (start, st1) = expression(input, pos, st);
        match start {
            Parsed::Done(start, p) => {
                lemma_bracket_rest_keyed(input, held(input, p, pos), st1, start, pos);
            },
            Parsed::Failed(f) => {
                if !f.cut && char_at(input, pos, ':') {
                    lemma_required_keyed(input, pos + 1, st1);
                }
            },
        }
    }
}

proof fn lemma_more_brackets_keyed(
    input: Seq<char>,
    pos: int,
    st: ParseView,
    indices: Seq<IndexView>,
)
    requires
        scopes_keyed(st.contexts),
        brackets_keyed(indices),
    ensures
        scopes_keyed(more_brackets(input, pos, st, indices).1.contexts),
        more_brackets(input, pos, st, indices).0 matches Parsed::Done(found, _) ==> brackets_keyed(
            found,
        ),
    decreases input.len() - pos, 14nat,
{
    lemma_more_brackets(input, pos, st, indices);
    if !(pos < 0 || pos >= input.len() || input[pos] != '[') {
        lemma_bracket_keyed(input, pos + 1, st);
        let (r, st1) = bracket(input, pos + 1, st);
        match r {
            Parsed::Done(b, end) => {
                lemma_more_brackets_keyed(input, held(input, end, pos + 1), st1, indices.push(b));
            },
            _ => {},
        }
    }
}

proof fn lemma_index_keyed(input: Seq<char>, pos: int, st: ParseView)
    requires
        scopes_keyed(st.contexts),
    ensures
        scopes_keyed(index(input, pos, st).1.contexts),
        index(input, pos, st).0 matches Parsed::Done(found, _) ==> well_keyed_tree(found),
    decreases input.len() - pos, 2nat,
{
    lemma_index(input, pos, st);
    let (base, st1) = name(input, pos, st);
    match base {
        Parsed::Done(base, p) => {
            if !(p <= pos || !char_at(input, p, '[')) {
                lemma_more_brackets_keyed(input, p, st1, Seq::empty());
            }
        },
        _ => {},
    }
}

proof fn lemma_call_keyed(input: Seq<char>, pos: int, st: ParseView)
    requires
        scopes_keyed(st.contexts),
    ensures
        scopes_keyed(call(input, pos, st).1.contexts),
        call(input, pos, st).0 matches Parsed::Done(found, _) ==> well_keyed_tree(found),
    decreases input.len() - pos, 2nat,
{
    lemma_call(input, pos, st);
    if !(pos < 0 || pos > input.len()) {
        let (callee, st1) = name(input, skip(input, pos), st);
        match callee {
            Parsed::Done(callee, p) => {
                let open = skip(input, p);
                if char_at(input, open, '(') {
                    let first = skip(input, open + 1);
                    lemma_expression_keyed(input, first, st1);
                    let (head, st2) = expression(input, first, st1);
                    match head {
                        Parsed::Done(e, end) => {
                            lemma_more_items_keyed(input, held(input, end, first), st2, seq![e]);
                        },
                        _ => {},
                    }
                }
            },
            _ => {},
        }
    }
}

proof fn lemma_function_body_keyed(input: Seq<char>, pos: int, st: ParseView)
    requires
        scopes_keyed(st.contexts),
    ensures
        scopes_keyed(function_body(input, pos, st).1.contexts),
        function_body(input, pos, st).0 matches Parsed::Done(found, _) ==> well_keyed_tree(found.1),
    decreases input.len() - pos, 1nat,
{
    lemma_function_body(input, pos, st);
    if !(pos < 0 || pos >= input.len() || input[pos] != '|') {
        let (head, st1) = name(input, skip(input, pos + 1), st);
        match head {
            Parsed::Done(symbol, p) => {
                lemma_names_keyed(input, p, st1, seq![symbol]);
                let (names, st2) = more_names(input, p, st1, seq![symbol]);
                match names {
                    Parsed::Done(names, n2) => {
                        match parameters_end(input, skip(input, held(input, n2, pos + 1))) {
                            Parsed::Done(_, n3) => {
                                lemma_required_keyed(input, held(input, n3, pos + 1), st2);
                            },
                            _ => {},
                        }
                    },
                    _ => {},
                }
            },
            _ => {},
        }
    }
}

proof fn lemma_function_keyed(input: Seq<char>, pos: int, st: ParseView)
    requires
        scopes_keyed(st.contexts),
    ensures
        scopes_keyed(function(input, pos, st).1.contexts),
        function(input, pos, st).0 matches Parsed::Done(found, _) ==> well_keyed_tree(found),
    decreases input.len() - pos, 2nat,
{
    lemma_function(input, pos, st);
    if !(pos < 0 || pos > input.len()) && st.avail != usize::MAX {
        lemma_function_body_keyed(input, pos, reserve(st));
        let (r, st1) = function_body(input, pos, reserve(st));
        match r {
            Parsed::Done((names, body), end) => {
                lemma_settled_keyed(
                    st1,
                    st.active,
                    st.avail,
                    crate::grammar::parameter_pairs(names),
                );
            },
            Parsed::Failed(f) => {
                lemma_settled_keyed(st1, st.active, st.avail, Seq::empty());
            },
        }
    }
}

proof fn lemma_assignment_keyed(input: Seq<char>, pos: int, st: ParseView)
    requires
        scopes_keyed(st.contexts),
    ensures
        scopes_keyed(assignment(input, pos, st).1.contexts),
        assignment(input, pos, st).0 matches Parsed::Done(found, _) ==> well_keyed_tree(found.1),
    decreases input.len() - pos, 11nat,
{
    lemma_assignment(input, pos, st);
    if !(pos < 0 || pos > input.len()) {
        let (target, st1) = name(input, skip(input, pos), st);
        match target {
            Parsed::Done(target, p) => {
                let equals = skip(input, p);
                if char_at(input, equals, '=') {
                    let value_at = skip(input, equals + 1);
                    lemma_expression_keyed(input, value_at, st1);
                    let (first, st2) = expression(input, value_at, st1);
                    if first.missed() {
                        lemma_function_keyed(input, value_at, st2);
                    }
                }
            },
            _ => {},
        }
    }
}

proof fn lemma_more_assignments_keyed(
    input: Seq<char>,
    pos: int,
    st: ParseView,
    pairs: Seq<(u32, BindingView)>,
)
    requires
        scopes_keyed(st.contexts),
        pairs_keyed(pairs),
    ensures
        scopes_keyed(more_assignments(input, pos, st, pairs).1.contexts),
        more_assignments(input, pos, st, pairs).0 matches Parsed::Done(found, _) ==> pairs_keyed(
            found,
        ),
    decreases input.len() - pos, 12nat,
{
    lemma_more_assignments(input, pos, st, pairs);
    if !(pos < 0 || pos > input.len()) {
        lemma_assignment_keyed(input, pos, st);
        let (r, st1) = assignment(input, pos, st);
        match r {
            Parsed::Done((target, value), end) => {
                if !(end <= pos || end > input.len()) {
                    lemma_more_assignments_keyed(
                        input,
                        end,
                        st1,
                        pairs.push((target, BindingView::Expr(value))),
                    );
                }
            },
            _ => {},
        }
    }
}

proof fn lemma_block_body_keyed(input: Seq<char>, pos: int, st: ParseView)
    requires
        scopes_keyed(st.contexts),
    ensures
        scopes_keyed(block_body(input, pos, st).1.contexts),
        block_body(input, pos, st).0 matches Parsed::Done(found, _) ==> pairs_keyed(found.0)
            && well_keyed_tree(found.1),
    decreases input.len() - pos, 1nat,
{
    lemma_block_body(input, pos, st);
    if !(pos < 0 || pos >= input.len() || input[pos] != '{') {
        let first = skip(input, pos + 1);
        lemma_assignment_keyed(input, first, st);
        let (head, st1) = assignment(input, first, st);
        match head {
            Parsed::Done((target, value), p) => {
                let start = seq![(target, BindingView::Expr(value))];
                lemma_more_assignments_keyed(input, held(input, p, pos + 1), st1, start);
                let (pairs, st2) = more_assignments(input, held(input, p, pos + 1), st1, start);
                match pairs {
                    Parsed::Done(pairs, n2) => {
                        lemma_required_keyed(input, skip(input, held(input, n2, pos + 1)), st2);
                    },
                    _ => {},
                }
            },
            _ => {},
        }
    }
}

proof fn lemma_block_keyed(input: Seq<char>, pos: int, st: ParseView)
    requires
        scopes_keyed(st.contexts),
    ensures
        scopes_keyed(block(input, pos, st).1.contexts),
        block(input, pos, st).0 matches Parsed::Done(found, _) ==> well_keyed_tree(found),
    decreases input.len() - pos, 2nat,
{
    lemma_block(input, pos, st);
    if !(pos < 0 || pos > input.len()) && st.avail != usize::MAX {
        lemma_block_body_keyed(input, pos, reserve(st));
        let (r, st1) = block_body(input, pos, reserve(st));
        match r {
            Parsed::Done((pairs, last), end) => {
                lemma_settled_keyed(st1, st.active, st.avail, pairs);
            },
            Parsed::Failed(f) => {
                lemma_settled_keyed(st1, st.active, st.avail, Seq::empty());
            },
        }
    }
}

/// Parsing gives only well-formed trees: whatever the input, the tree that
/// is read and every expression that is bound in a scope on the way have
/// the keys of each mapping in strictly ascending order.
pub proof fn law_parsing_orders_keys(input: Seq<char>, st: ParseView)
    requires
        scopes_keyed(st.contexts),
    ensures
        scopes_keyed(whole(input, st).1.contexts),
        whole(input, st).0 matches Parsed::Done(tree, _) ==> well_keyed_tree(tree),
{
    lemma_expression_keyed(input, 0, st);
}

/// The tree of every input parsed in a fresh session is well-formed, and so
/// is every binding of its scopes.
pub proof fn law_parsed_trees_are_well_formed(input: Seq<char>)
    ensures
        scopes_keyed(crate::parsed(input).1.contexts),
        crate::parsed(input).0 matches Parsed::Done(tree, _) ==> well_keyed_tree(tree),
{
    let start = crate::parse::parse_start(
        crate::state::CtxStateView {
            contexts: crate::state::fresh_contexts(),
            names: crate::context::builtin_names(),
        },
    );
    assert(pairs_keyed(crate::context::builtin_bindings()));
    assert(scopes_keyed(start.contexts));
    law_parsing_orders_keys(input, start);
}

/// Whether every value of a sequence is well-formed.
pub open spec fn values_keyed(items: Seq<ValueView>) -> bool {
    forall|i: int| 0 <= i < items.len() ==> well_keyed(#[trigger] items[i])
}

/// Whether the entries of a mapping have ascending keys and well-formed
/// values.
pub open spec fn mapping_keyed(entries: Seq<(Seq<char>, ValueView)>) -> bool {
    keys_ascend(entries) && forall|i: int|
        0 <= i < entries.len() ==> well_keyed((#[trigger] entries[i]).1)
}

/// Whether every binding of a sequence of bindings without names is
/// well-formed.
pub open spec fn bindings_keyed(values: Seq<BindingView>) -> bool {
    forall|i: int| 0 <= i < values.len() ==> binding_keyed(#[trigger] values[i])
}

/// Giving a key a value keeps the entries of a mapping well-formed.
proof fn lemma_value_added(entries: Seq<(Seq<char>, ValueView)>, key: Seq<char>, v: ValueView)
    requires
        mapping_keyed(entries),
        well_keyed(v),
    ensures
        mapping_keyed(with_entry(entries, key, v)),
{
    law_insertion_keeps_order(entries, key, v);
    let after = with_entry(entries, key, v);
    let slot = crate::value::slot_of(entries, key, 0);
    crate::laws::lemma_slot_bounds(entries, key, 0);
    assert forall|i: int| 0 <= i < after.len() implies well_keyed((#[trigger] after[i]).1) by {
        if i < slot {
            assert(after[i] == entries[i]);
        } else if i > slot {
            if after.len() == entries.len() {
                assert(after[i] == entries[i]);
            } else {
                assert(after[i] == entries[i - 1]);
            }
        }
    }
}

/// The value under a key of a well-formed mapping is well-formed.
proof fn lemma_entry_keyed_value(entries: Seq<(Seq<char>, ValueView)>, key: Seq<char>, from: int)
    requires
        mapping_keyed(entries),
        0 <= from,
    ensures
        from <= crate::value::position_of(entries, key, from) || entries.len() <= from,
        from == 0 ==> well_keyed(crate::value::entry_or_null(entries, key)),
    decreases entries.len() - from,
{
    if from < entries.len() && entries[from].0 != key {
        lemma_entry_keyed_value(entries, key, from + 1);
    }
    if from == 0 {
        if 0 < entries.len() && entries[0].0 != key {
            lemma_entry_keyed_value(entries, key, 1);
        }
        let i = crate::value::position_of(entries, key, 0);
        if i < entries.len() {
            assert(well_keyed(entries[i].1));
        }
    }
}

/// Replacing the bindings of a scope by well-formed ones keeps the scopes
/// well-formed.
proof fn lemma_rebound_keyed(
    contexts: Seq<ContextView>,
    index: int,
    bindings: Seq<(u32, BindingView)>,
)
    requires
        scopes_keyed(contexts),
        pairs_keyed(bindings),
    ensures
        scopes_keyed(with_bindings(contexts, index, bindings)),
{
    let after = with_bindings(contexts, index, bindings);
    assert forall|i: int| 0 <= i < after.len() implies pairs_keyed(
        (#[trigger] after[i]).bindings,
    ) by {
        if i != index {
            assert(after[i] == contexts[i]);
        }
    }
}

/// Marking a name as under way, or as no longer so, keeps the scopes
/// well-formed.
proof fn lemma_marked_keyed(contexts: Seq<ContextView>, index: int, names: Set<u32>)
    requires
        scopes_keyed(contexts),
    ensures
        scopes_keyed(with_in_progress(contexts, index, names)),
{
    let after = with_in_progress(contexts, index, names);
    assert forall|i: int| 0 <= i < after.len() implies pairs_keyed(
        (#[trigger] after[i]).bindings,
    ) by {
        assert(after[i].bindings == contexts[i].bindings);
    }
}

/// The bindings of a scope of well-formed scopes are well-formed, and so is
/// what a name is bound to in it.
proof fn lemma_scope_keyed(contexts: Seq<ContextView>, index: int, name: u32)
    requires
        scopes_keyed(contexts),
    ensures
        pairs_keyed(bindings_at(contexts, index)),
        binding_of(contexts, index, name) matches Some(b) ==> binding_keyed(b),
{
    if 0 <= index < contexts.len() {
        assert(pairs_keyed(contexts[index].bindings));
        crate::context::lemma_key_index_bounds(contexts[index].bindings, name, 0);
        let at = crate::context::key_index(contexts[index].bindings, name, 0);
        if at < contexts[index].bindings.len() {
            assert(binding_keyed(contexts[index].bindings[at].1));
        }
    }
}

/// Giving the names of a scope well-formed values keeps its bindings
/// well-formed.
proof fn lemma_assigned_keyed(
    bindings: Seq<(u32, BindingView)>,
    values: Seq<BindingView>,
    count: nat,
)
    requires
        pairs_keyed(bindings),
        bindings_keyed(values),
    ensures
        pairs_keyed(assigned(bindings, values, count)),
        assigned(bindings, values, count).len() == bindings.len(),
    decreases count,
{
    if count > 0 {
        lemma_assigned_keyed(bindings, values, (count - 1) as nat);
        let before = assigned(bindings, values, (count - 1) as nat);
        let after = assigned(bindings, values, count);
        assert forall|i: int| 0 <= i < after.len() implies binding_keyed(
            (#[trigger] after[i]).1,
        ) by {
            if count <= bindings.len() && count <= values.len() && i == count - 1 {
                assert(binding_keyed(values[count - 1]));
            } else {
                assert(after[i] == before[i]);
            }
        }
    }
}

/// Binding the names of a scope anew, or unbinding them, keeps the scopes
/// well-formed.
proof fn lemma_scope_renewed(contexts: Seq<ContextView>, index: int, values: Seq<BindingView>)
    requires
        scopes_keyed(contexts),
        bindings_keyed(values),
    ensures
        scopes_keyed(assign_in(contexts, index, values)),
        scopes_keyed(reset_in(contexts, index)),
{
    let bindings = bindings_at(contexts, index);
    lemma_scope_keyed(contexts, index, 0);
    lemma_assigned_keyed(bindings, values, bindings.len());
    lemma_rebound_keyed(contexts, index, assigned(bindings, values, bindings.len()));
    assert(pairs_keyed(all_unevaluated(bindings)));
    lemma_rebound_keyed(contexts, index, all_unevaluated(bindings));
}

/// What the operators give holds no mapping.
proof fn lemma_operators_give_no_mapping(
    op: crate::infix::Op,
    unary: crate::prefix::Op,
    lhs: ValueView,
    rhs: ValueView,
    fm: FloatModel,
)
    ensures
        well_keyed(infix_result(op, lhs, rhs, fm)),
        well_keyed(prefix_result(unary, lhs)),
{
    let r = infix_result(op, lhs, rhs, fm);
    assert(!(r is List) && !(r is Mapping));
    let p = prefix_result(unary, lhs);
    assert(!(p is List) && !(p is Mapping));
}

/// Evaluation gives only well-formed values: where the tree and every
/// binding of the scopes are well-formed, so are the value and every
/// binding of the scopes afterwards.
pub proof fn law_evaluation_orders_keys(e: ExprView, st: EvalView, depth: nat, fm: FloatModel)
    requires
        well_keyed_tree(e),
        scopes_keyed(st.contexts),
    ensures
        well_keyed(eval_expr(e, st, depth, fm).0),
        scopes_keyed(eval_expr(e, st, depth, fm).1.contexts),
    decreases depth, 0nat, 0nat,
{
    if depth > 0 {
        let inner = (depth - 1) as nat;
        match e {
            ExprView::List(items) => {
                lemma_items_keyed_values(items, items.len(), st, inner, fm);
            },
            ExprView::Mapping(entries) => {
                lemma_entries_keyed_values(entries, entries.len(), st, inner, fm);
                let values = eval_entries(entries, entries.len(), st, inner, fm).0;
                assert forall|i: int, j: int| 0 <= i < j < values.len() implies text_less(
                    #[trigger] values[i].0,
                    #[trigger] values[j].0,
                ) by {
                    assert(text_less(entries[i].0, entries[j].0));
                }
            },
            ExprView::Ident(name) => {
                lemma_ident_keyed(name, st, inner, fm);
            },
            ExprView::Index { base, indices } => {
                lemma_index_keyed_value(base, indices, st, inner, fm);
            },
            ExprView::Infix { lhs, op, rhs, parenthesized } => {
                law_evaluation_orders_keys(*lhs, st, inner, fm);
                let (l, st1) = eval_expr(*lhs, st, inner, fm);
                law_evaluation_orders_keys(*rhs, st1, inner, fm);
                let (r, st2) = eval_expr(*rhs, st1, inner, fm);
                lemma_operators_give_no_mapping(op, crate::prefix::Op::Not, l, r, fm);
            },
            ExprView::Prefix { unary, operand } => {
                law_evaluation_orders_keys(*operand, st, inner, fm);
                let (v, st1) = eval_expr(*operand, st, inner, fm);
                lemma_operators_give_no_mapping(
                    crate::infix::Op::Logic(crate::infix::LogicOp::And),
                    unary,
                    v,
                    v,
                    fm,
                );
            },
            ExprView::Block { ctx_idx, result } => {
                law_evaluation_orders_keys(*result, st.activate(ctx_idx), inner, fm);
            },
            ExprView::IfElse { condition, then, otherwise } => {
                law_evaluation_orders_keys(*condition, st, inner, fm);
                let st1 = eval_expr(*condition, st, inner, fm).1;
                law_evaluation_orders_keys(*then, st1, inner, fm);
                law_evaluation_orders_keys(*otherwise, st1, inner, fm);
            },
            ExprView::ForEach { base, ctx_idx, body } => {
                lemma_for_each_keyed_value(base, ctx_idx, *body, st, inner, fm);
            },
            ExprView::Call { name, args } => {
                lemma_call_keyed_value(name, args, st, inner, fm);
            },
            _ => {},
        }
    }
}

proof fn lemma_items_keyed_values(
    items: Seq<ExprView>,
    count: nat,
    st: EvalView,
    depth: nat,
    fm: FloatModel,
)
    requires
        all_keyed(items),
        scopes_keyed(st.contexts),
    ensures
        values_keyed(eval_items(items, count, st, depth, fm).0),
        scopes_keyed(eval_items(items, count, st, depth, fm).1.contexts),
    decreases depth, 2nat, count,
{
    if !(count == 0 || count > items.len()) {
        lemma_items_keyed_values(items, (count - 1) as nat, st, depth, fm);
        let (values, st1) = eval_items(items, (count - 1) as nat, st, depth, fm);
        law_evaluation_orders_keys(items[count - 1], st1, depth, fm);
        let v = eval_expr(items[count - 1], st1, depth, fm).0;
        let after = values.push(v);
        assert forall|i: int| 0 <= i < after.len() implies well_keyed(#[trigger] after[i]) by {
            if i < values.len() {
                assert(after[i] == values[i]);
            }
        }
    }
}

proof fn lemma_entries_keyed_values(
    entries: Seq<(Seq<char>, ExprView)>,
    count: nat,
    st: EvalView,
    depth: nat,
    fm: FloatModel,
)
    requires
        entries_keyed(entries),
        count <= entries.len(),
        scopes_keyed(st.contexts),
    ensures
        eval_entries(entries, count, st, depth, fm).0.len() == count,
        forall|i: int|
            0 <= i < count ==> (#[trigger] eval_entries(entries, count, st, depth, fm).0[i]).0
                == entries[i].0 && well_keyed(eval_entries(entries, count, st, depth, fm).0[i].1),
        scopes_keyed(eval_entries(entries, count, st, depth, fm).1.contexts),
    decreases depth, 2nat, count,
{
    if count > 0 {
        lemma_entries_keyed_values(entries, (count - 1) as nat, st, depth, fm);
        let (values, st1) = eval_entries(entries, (count - 1) as nat, st, depth, fm);
        law_evaluation_orders_keys(entries[count - 1].1, st1, depth, fm);
        let after = eval_entries(entries, count, st, depth, fm).0;
        assert forall|i: int| 0 <= i < count implies (#[trigger] after[i]).0 == entries[i].0
            && well_keyed(after[i].1) by {
            if i < count - 1 {
                assert(after[i] == values[i]);
            }
        }
    }
}

proof fn lemma_ident_keyed(name: u32, st: EvalView, depth: nat, fm: FloatModel)
    requires
        scopes_keyed(st.contexts),
    ensures
        eval_ident(name, st, depth, fm).0 matches Some(v) ==> well_keyed(v),
        scopes_keyed(eval_ident(name, st, depth, fm).1.contexts),
    decreases depth, 1nat, 0nat,
{
    match find_scope(st.contexts, st.active as int, name) {
        None => {},
        Some(scope) => {
            if !in_progress_at(st.contexts, scope as int).contains(name) {
                let marked = with_in_progress(
                    st.contexts,
                    scope as int,
                    in_progress_at(st.contexts, scope as int).insert(name),
                );
                lemma_marked_keyed(
                    st.contexts,
                    scope as int,
                    in_progress_at(st.contexts, scope as int).insert(name),
                );
                let st1 = st.activate(scope).with_contexts(marked);
                lemma_scope_keyed(st1.contexts, scope as int, name);
                let st2 = match binding_of(st1.contexts, scope as int, name) {
                    Some(BindingView::Expr(e)) => {
                        law_evaluation_orders_keys(e, st1, depth, fm);
                        let (v, after) = eval_expr(e, st1, depth, fm);
                        if cacheable(e) {
                            lemma_scope_keyed(after.contexts, scope as int, name);
                            if crate::context::has_key(
                                bindings_at(after.contexts, scope as int),
                                name,
                            ) {
                                lemma_binding_keyed(
                                    bindings_at(after.contexts, scope as int),
                                    name,
                                    BindingView::Cached(v),
                                );
                            }
                            lemma_rebound_keyed(
                                after.contexts,
                                scope as int,
                                cached(bindings_at(after.contexts, scope as int), name, v),
                            );
                            after.with_contexts(
                                with_bindings(
                                    after.contexts,
                                    scope as int,
                                    cached(bindings_at(after.contexts, scope as int), name, v),
                                ),
                            )
                        } else {
                            after
                        }
                    },
                    _ => st1,
                };
                lemma_marked_keyed(
                    st2.contexts,
                    scope as int,
                    in_progress_at(st2.contexts, scope as int).remove(name),
                );
                let st3 = eval_ident(name, st, depth, fm).1;
                lemma_scope_keyed(st3.contexts, scope as int, name);
            }
        },
    }
}

proof fn lemma_bracket_keyed_value(
    value: ValueView,
    bracket: IndexView,
    st: EvalView,
    depth: nat,
    fm: FloatModel,
)
    requires
        well_keyed(value),
        well_keyed_bracket(bracket),
        scopes_keyed(st.contexts),
    ensures
        eval_bracket(value, bracket, st, depth, fm).0 matches Some(v) ==> well_keyed(v),
        scopes_keyed(eval_bracket(value, bracket, st, depth, fm).1.contexts),
    decreases depth, 2nat, 0nat,
{
    match bracket {
        IndexView::Single(e) => {
            law_evaluation_orders_keys(e, st, depth, fm);
            match value {
                ValueView::Mapping(entries) => {
                    match eval_expr(e, st, depth, fm).0 {
                        ValueView::String(k) => {
                            lemma_entry_keyed_value(entries, k, 0);
                        },
                        _ => {},
                    }
                },
                _ => {},
            }
        },
        IndexView::From(e) => {
            law_evaluation_orders_keys(e, st, depth, fm);
        },
        IndexView::To(e) => {
            law_evaluation_orders_keys(e, st, depth, fm);
        },
        IndexView::FromTo(a, b) => {
            law_evaluation_orders_keys(a, st, depth, fm);
            law_evaluation_orders_keys(b, eval_expr(a, st, depth, fm).1, depth, fm);
        },
    }
}

proof fn lemma_brackets_keyed_value(
    value: ValueView,
    indices: Seq<IndexView>,
    from: nat,
    st: EvalView,
    depth: nat,
    fm: FloatModel,
)
    requires
        well_keyed(value),
        brackets_keyed(indices),
        scopes_keyed(st.contexts),
    ensures
        well_keyed(eval_brackets(value, indices, from, st, depth, fm).0),
        scopes_keyed(eval_brackets(value, indices, from, st, depth, fm).1.contexts),
    decreases depth, 2nat, indices.len() - from,
{
    if from < indices.len() {
        lemma_bracket_keyed_value(value, indices[from as int], st, depth, fm);
        let (next, st1) = eval_bracket(value, indices[from as int], st, depth, fm);
        match next {
            Some(v) => {
                lemma_brackets_keyed_value(v, indices, from + 1, st1, depth, fm);
            },
            None => {},
        }
    }
}

proof fn lemma_index_keyed_value(
    base: u32,
    indices: Seq<IndexView>,
    st: EvalView,
    depth: nat,
    fm: FloatModel,
)
    requires
        brackets_keyed(indices),
        scopes_keyed(st.contexts),
    ensures
        well_keyed(eval_index(base, indices, st, depth, fm).0),
        scopes_keyed(eval_index(base, indices, st, depth, fm).1.contexts),
    decreases depth, 3nat, 0nat,
{
    lemma_ident_keyed(base, st, depth, fm);
    let (found, st1) = eval_ident(base, st, depth, fm);
    match found {
        Some(v) => {
            lemma_brackets_keyed_value(v, indices, 0, st1, depth, fm);
        },
        None => {},
    }
}

proof fn lemma_for_each_keyed_value(
    base: u32,
    ctx_idx: usize,
    body: ExprView,
    st: EvalView,
    depth: nat,
    fm: FloatModel,
)
    requires
        well_keyed_tree(body),
        scopes_keyed(st.contexts),
    ensures
        well_keyed(eval_for_each(base, ctx_idx, body, st, depth, fm).0),
        scopes_keyed(eval_for_each(base, ctx_idx, body, st, depth, fm).1.contexts),
    decreases depth, 3nat, 0nat,
{
    lemma_ident_keyed(base, st, depth, fm);
    let (found, st1) = eval_ident(base, st, depth, fm);
    match found {
        Some(ValueView::List(items)) => {
            lemma_rounds_keyed(items, items.len(), ctx_idx, body, st1.activate(ctx_idx), depth, fm);
            let st2 = eval_rounds(
                items,
                items.len(),
                ctx_idx,
                body,
                st1.activate(ctx_idx),
                depth,
                fm,
            ).1;
            lemma_scope_renewed(st2.contexts, ctx_idx as int, Seq::empty());
        },
        Some(ValueView::Mapping(entries)) => {
            lemma_keyed_rounds_keyed(
                entries,
                entries.len(),
                ctx_idx,
                body,
                st1.activate(ctx_idx),
                depth,
                fm,
            );
            let st2 = eval_keyed_rounds(
                entries,
                entries.len(),
                ctx_idx,
                body,
                st1.activate(ctx_idx),
                depth,
                fm,
            ).1;
            lemma_scope_renewed(st2.contexts, ctx_idx as int, Seq::empty());
        },
        _ => {},
    }
}

proof fn lemma_rounds_keyed(
    items: Seq<ValueView>,
    count: nat,
    ctx_idx: usize,
    body: ExprView,
    st: EvalView,
    depth: nat,
    fm: FloatModel,
)
    requires
        values_keyed(items),
        well_keyed_tree(body),
        scopes_keyed(st.contexts),
    ensures
        values_keyed(eval_rounds(items, count, ctx_idx, body, st, depth, fm).0),
        scopes_keyed(eval_rounds(items, count, ctx_idx, body, st, depth, fm).1.contexts),
    decreases depth, 2nat, count,
{
    if !(count == 0 || count > items.len()) {
        lemma_rounds_keyed(items, (count - 1) as nat, ctx_idx, body, st, depth, fm);
        let (values, st1) = eval_rounds(items, (count - 1) as nat, ctx_idx, body, st, depth, fm);
        let round = round_bindings(
            ValueView::Integer(count_value((count - 1) as nat)),
            items[count - 1],
        );
        assert(well_keyed(items[count - 1]));
        assert(bindings_keyed(round));
        lemma_scope_renewed(st1.contexts, ctx_idx as int, round);
        let st2 = st1.with_contexts(assign_in(st1.contexts, ctx_idx as int, round));
        law_evaluation_orders_keys(body, st2, depth, fm);
        let v = eval_expr(body, st2, depth, fm).0;
        let after = values.push(v);
        assert forall|i: int| 0 <= i < after.len() implies well_keyed(#[trigger] after[i]) by {
            if i < values.len() {
                assert(after[i] == values[i]);
            }
        }
    }
}

proof fn lemma_keyed_rounds_keyed(
    entries: Seq<(Seq<char>, ValueView)>,
    count: nat,
    ctx_idx: usize,
    body: ExprView,
    st: EvalView,
    depth: nat,
    fm: FloatModel,
)
    requires
        mapping_keyed(entries),
        well_keyed_tree(body),
        scopes_keyed(st.contexts),
    ensures
        mapping_keyed(eval_keyed_rounds(entries, count, ctx_idx, body, st, depth, fm).0),
        scopes_keyed(eval_keyed_rounds(entries, count, ctx_idx, body, st, depth, fm).1.contexts),
    decreases depth, 2nat, count,
{
    if !(count == 0 || count > entries.len()) {
        lemma_keyed_rounds_keyed(entries, (count - 1) as nat, ctx_idx, body, st, depth, fm);
        let (values, st1) = eval_keyed_rounds(
            entries,
            (count - 1) as nat,
            ctx_idx,
            body,
            st,
            depth,
            fm,
        );
        let round = round_bindings(ValueView::String(entries[count - 1].0), entries[count - 1].1);
        assert(well_keyed(entries[count - 1].1));
        assert(bindings_keyed(round));
        lemma_scope_renewed(st1.contexts, ctx_idx as int, round);
        let st2 = st1.with_contexts(assign_in(st1.contexts, ctx_idx as int, round));
        law_evaluation_orders_keys(body, st2, depth, fm);
        let v = eval_expr(body, st2, depth, fm).0;
        lemma_value_added(values, entries[count - 1].0, v);
    }
}

proof fn lemma_call_keyed_value(
    name: u32,
    args: Seq<ExprView>,
    st: EvalView,
    depth: nat,
    fm: FloatModel,
)
    requires
        all_keyed(args),
        scopes_keyed(st.contexts),
    ensures
        well_keyed(eval_call(name, args, st, depth, fm).0),
        scopes_keyed(eval_call(name, args, st, depth, fm).1.contexts),
    decreases depth, 4nat, 0nat,
{
    match find_scope(st.contexts, st.active as int, name) {
        None => {},
        Some(scope) => {
            lemma_scope_keyed(st.contexts, scope as int, name);
            match binding_of(st.contexts, scope as int, name) {
                Some(BindingView::Expr(ExprView::Defined { ctx_idx, body })) => {
                    if args.len() == bindings_at(st.contexts, ctx_idx as int).len() {
                        let given = argument_bindings(args);
                        assert(bindings_keyed(given));
                        lemma_scope_renewed(st.contexts, ctx_idx as int, given);
                        let st1 = st.activate(ctx_idx).with_contexts(
                            assign_in(st.contexts, ctx_idx as int, given),
                        );
                        law_evaluation_orders_keys(*body, st1, depth, fm);
                        let st2 = eval_expr(*body, st1, depth, fm).1;
                        lemma_scope_renewed(st2.contexts, ctx_idx as int, Seq::empty());
                    }
                },
                Some(BindingView::Expr(ExprView::BuiltIn(which))) => {
                    lemma_builtin_keyed_value(which, args, st, depth, fm);
                },
                _ => {},
            }
        },
    }
}

proof fn lemma_builtin_keyed_value(
    which: BuiltIn,
    args: Seq<ExprView>,
    st: EvalView,
    depth: nat,
    fm: FloatModel,
)
    requires
        all_keyed(args),
        scopes_keyed(st.contexts),
    ensures
        well_keyed(eval_builtin(which, args, st, depth, fm).0),
        scopes_keyed(eval_builtin(which, args, st, depth, fm).1.contexts),
    decreases depth, 3nat, 0nat,
{
    match which {
        BuiltIn::Concat => {
            lemma_concat_keyed(args, args.len(), st, depth, fm);
        },
        BuiltIn::Push => {
            if args.len() == 2 {
                law_evaluation_orders_keys(args[0], st, depth, fm);
                let (collection, st1) = eval_expr(args[0], st, depth, fm);
                law_evaluation_orders_keys(args[1], st1, depth, fm);
                let v = eval_expr(args[1], st1, depth, fm).0;
                match collection {
                    ValueView::List(items) => {
                        let after = items.push(v);
                        assert forall|i: int| 0 <= i < after.len() implies well_keyed(
                            #[trigger] after[i],
                        ) by {
                            if i < items.len() {
                                assert(after[i] == items[i]);
                            }
                        }
                    },
                    _ => {},
                }
            }
        },
        BuiltIn::Insert => {
            if args.len() == 3 {
                law_evaluation_orders_keys(args[0], st, depth, fm);
                let (collection, st1) = eval_expr(args[0], st, depth, fm);
                law_evaluation_orders_keys(args[1], st1, depth, fm);
                let (key, st2) = eval_expr(args[1], st1, depth, fm);
                law_evaluation_orders_keys(args[2], st2, depth, fm);
                let v = eval_expr(args[2], st2, depth, fm).0;
                match (collection, key) {
                    (ValueView::Mapping(entries), ValueView::String(k)) => {
                        lemma_value_added(entries, k, v);
                    },
                    (ValueView::List(items), ValueView::Integer(index)) => {
                        match insertion_place(items.len(), index) {
                            Some(place) => {
                                let after = items.insert(place, v);
                                assert forall|i: int| 0 <= i < after.len() implies well_keyed(
                                    #[trigger] after[i],
                                ) by {
                                    if i < place {
                                        assert(after[i] == items[i]);
                                    } else if i > place {
                                        assert(after[i] == items[i - 1]);
                                    }
                                }
                            },
                            None => {},
                        }
                    },
                    _ => {},
                }
            }
        },
        _ => {
            if args.len() == 1 {
                law_evaluation_orders_keys(args[0], st, depth, fm);
            }
        },
    }
}

proof fn lemma_concat_keyed(
    args: Seq<ExprView>,
    count: nat,
    st: EvalView,
    depth: nat,
    fm: FloatModel,
)
    requires
        all_keyed(args),
        scopes_keyed(st.contexts),
    ensures
        scopes_keyed(eval_concat(args, count, st, depth, fm).1.contexts),
    decreases depth, 2nat, count,
{
    if !(count == 0 || count > args.len()) {
        lemma_concat_keyed(args, (count - 1) as nat, st, depth, fm);
        let st1 = eval_concat(args, (count - 1) as nat, st, depth, fm).1;
        law_evaluation_orders_keys(args[count - 1], st1, depth, fm);
    }
}

/// The value of every input is well-formed: whatever [`crate::evaluate`]
/// may give for an input that parses has the keys of each of its mappings
/// in strictly ascending order.
pub proof fn law_values_are_well_formed(
    input: Seq<char>,
    found: ValueView,
    emitted: Seq<Seq<char>>,
)
    requires
        crate::parsed(input).0 is Done,
        crate::gives(input, found, emitted),
    ensures
        well_keyed(found),
{
    law_parsed_trees_are_well_formed(input);
    let tree = crate::parsed(input).0->Done_0;
    let log = choose|log: Seq<crate::float::FloatCall>|
        crate::is_value_of(found, emitted, input, tree, log);
    let fm = choose|fm: FloatModel| fm.explains(log);
    law_evaluation_orders_keys(tree, crate::eval_start(input), crate::MAX_DEPTH as nat, fm);
}

} // verus!

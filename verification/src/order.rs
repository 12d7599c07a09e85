//! The order of scopes: parsing places every scope after its parent.
//!
//! A scope gets the index that was free when its construct began, and the
//! scope that was active then as its parent.  The active scope always has
//! an index below the next free one, so every parent comes before its
//! children, and the way from a scope outwards comes to an end.

use vstd::prelude::*;
use crate::binding::BindingView;
use crate::context::ContextView;
use crate::expr::{ExprView, IndexView};
use crate::grammar::{
    assignment, block, block_body, bracket, bracket_rest, call, entry, expression, for_each,
    for_each_body, function, function_body, give_back, held, if_else, index, infix,
    lemma_assignment, lemma_block, lemma_block_body, lemma_bracket, lemma_bracket_rest,
    lemma_call, lemma_entry, lemma_expression, lemma_for_each, lemma_for_each_body,
    lemma_function, lemma_function_body, lemma_if_else, lemma_index, lemma_infix, lemma_list,
    lemma_mapping, lemma_more_assignments, lemma_more_brackets, lemma_more_entries,
    lemma_more_items, lemma_more_names, lemma_named_operand, lemma_operand, lemma_other_operand,
    lemma_parenthesized, lemma_prefix_operation, lemma_required, list, mapping, more_assignments,
    more_brackets, more_entries, more_items, more_names, name, named_operand, null_literal,
    operand, operator, other_operand, parameters_end, parenthesized, prefix_operation, required,
    reserve, settle, skip, whole, ParseView, Parsed,
};
use crate::lex::char_at;
use crate::value::with_entry;

verus! {

/// Whether every scope that has a parent comes after it.
pub open spec fn ordered(contexts: Seq<ContextView>) -> bool {
    forall|i: int|
        0 <= i < contexts.len() ==> ((#[trigger] contexts[i]).parent matches Some(p) ==> p < i)
}

/// Whether a state of the parser is sound: the active scope has an index
/// below the next free one, and the scopes are ordered.
pub open spec fn sound(st: ParseView) -> bool {
    st.active < st.avail && ordered(st.contexts)
}

/// Whether a rule that went from `before` to `after` has kept the state
/// sound, left the active scope as it was, and given no index back that it
/// had not taken.
pub open spec fn kept(before: ParseView, after: ParseView) -> bool {
    sound(after) && after.active == before.active && after.avail >= before.avail
}

/// A construct that owns a scope keeps the state, whether its body is read
/// or not.
proof fn lemma_owned(st: ParseView, body: ParseView, pairs: Seq<(u32, BindingView)>)
    requires
        sound(st),
        st.avail < usize::MAX,
        kept(reserve(st), body),
    ensures
        kept(st, settle(body, st.active, st.avail, pairs)),
        kept(st, give_back(body, st.active)),
{
    let after = settle(body, st.active, st.avail, pairs);
    assert forall|i: int| 0 <= i < after.contexts.len() implies ((
        #[trigger] after.contexts[i]).parent matches Some(p) ==> p < i) by {
        if i < body.contexts.len() && i != st.avail {
            assert(after.contexts[i] == body.contexts[i]);
        }
    }
}

proof fn lemma_names_kept(input: Seq<char>, pos: int, st: ParseView, names: Seq<u32>)
    requires
        sound(st),
    ensures
        kept(st, more_names(input, pos, st, names).1),
    decreases input.len() - pos,
{
    lemma_more_names(input, pos, st, names);
    let comma = skip(input, pos);
    if !(pos < 0 || pos > input.len() || !char_at(input, comma, ',')) {
        let (r, st1) = name(input, skip(input, comma + 1), st);
        match r {
            Parsed::Done(symbol, end) => {
                if !(end <= pos) {
                    lemma_names_kept(input, end, st1, names.push(symbol));
                }
            },
            _ => {},
        }
    }
}

proof fn lemma_expression_kept(input: Seq<char>, pos: int, st: ParseView)
    requires
        sound(st),
    ensures
        kept(st, expression(input, pos, st).1),
    decreases input.len() - pos, 8nat,
{
    lemma_expression(input, pos, st);
    if !(pos < 0 || pos > input.len()) {
        let start = skip(input, pos);
        lemma_for_each_kept(input, start, st);
        let (r1, st1) = for_each(input, start, st);
        if r1.missed() {
            lemma_infix_kept(input, start, st1);
            let (r2, st2) = infix(input, start, st1);
            if r2.missed() && null_literal(input, start).missed() {
                lemma_mapping_kept(input, start, st2);
                let (r4, st4) = mapping(input, start, st2);
                if r4.missed() {
                    lemma_list_kept(input, start, st4);
                    let (r5, st5) = list(input, start, st4);
                    if r5.missed() {
                        lemma_if_else_kept(input, start, st5);
                    }
                }
            }
        }
    }
}

proof fn lemma_required_kept(input: Seq<char>, pos: int, st: ParseView)
    requires
        sound(st),
    ensures
        kept(st, required(input, pos, st).1),
    decreases input.len() - pos, 9nat,
{
    lemma_required(input, pos, st);
    lemma_expression_kept(input, pos, st);
}

proof fn lemma_for_each_kept(input: Seq<char>, pos: int, st: ParseView)
    requires
        sound(st),
    ensures
        kept(st, for_each(input, pos, st).1),
    decreases input.len() - pos, 2nat,
{
    lemma_for_each(input, pos, st);
    if !(pos < 0 || pos > input.len()) && st.avail != usize::MAX {
        lemma_for_each_body_kept(input, pos, reserve(st));
        let (r, st1) = for_each_body(input, pos, reserve(st));
        match r {
            Parsed::Done((base, key, item, body), end) => {
                lemma_owned(
                    st,
                    st1,
                    seq![(key, crate::grammar::unbound()), (item, crate::grammar::unbound())],
                );
            },
            Parsed::Failed(f) => {
                lemma_owned(st, st1, Seq::empty());
            },
        }
    }
}

proof fn lemma_for_each_body_kept(input: Seq<char>, pos: int, st: ParseView)
    requires
        sound(st),
    ensures
        kept(st, for_each_body(input, pos, st).1),
    decreases input.len() - pos, 1nat,
{
    lemma_for_each_body(input, pos, st);
    let (base, st1) = name(input, pos, st);
    match base {
        Parsed::Done(base, p) => {
            let arrow = skip(input, p);
            if char_at(input, arrow, '>') {
                let open = skip(input, arrow + 1);
                if char_at(input, open, '(') {
                    let first = skip(input, open + 1);
                    let (key, st2) = name(input, first, st1);
                    match key {
                        Parsed::Done(key, n2) => {
                            let comma = skip(input, n2);
                            if char_at(input, comma, ',') {
                                let second = skip(input, comma + 1);
                                let (item, st3) = name(input, second, st2);
                                match item {
                                    Parsed::Done(item, n3) => {
                                        let close = skip(input, n3);
                                        if char_at(input, close, ')') {
                                            let colon = skip(input, close + 1);
                                            if char_at(input, colon, ':') {
                                                let at = held(
                                                    input,
                                                    skip(input, colon + 1),
                                                    pos + 1,
                                                );
                                                lemma_required_kept(input, at, st3);
                                            }
                                        }
                                    },
                                    _ => {},
                                }
                            }
                        },
                        _ => {},
                    }
                }
            }
        },
        _ => {},
    }
}

proof fn lemma_infix_kept(input: Seq<char>, pos: int, st: ParseView)
    requires
        sound(st),
    ensures
        kept(st, infix(input, pos, st).1),
    decreases input.len() - pos, 7nat,
{
    lemma_infix(input, pos, st);
    lemma_operand_kept(input, pos, st);
    if !(pos < 0 || pos >= input.len()) {
        let (lhs, st1) = operand(input, pos, st);
        match lhs {
            Parsed::Done(lhs, p) => {
                let p = held(input, p, pos);
                match operator(input, skip(input, p)) {
                    Parsed::Done(op, q) => {
                        let at = skip(input, held(input, q, pos + 1));
                        lemma_infix_kept(input, at, st1);
                    },
                    _ => {},
                }
            },
            Parsed::Failed(f) => {
                if !f.cut {
                    lemma_parenthesized_kept(input, pos, st1);
                }
            },
        }
    }
}

proof fn lemma_operand_kept(input: Seq<char>, pos: int, st: ParseView)
    requires
        sound(st),
    ensures
        kept(st, operand(input, pos, st).1),
    decreases input.len() - pos, 6nat,
{
    lemma_operand(input, pos, st);
    lemma_named_operand_kept(input, pos, st);
}

proof fn lemma_named_operand_kept(input: Seq<char>, pos: int, st: ParseView)
    requires
        sound(st),
    ensures
        kept(st, named_operand(input, pos, st).1),
    decreases input.len() - pos, 5nat,
{
    lemma_named_operand(input, pos, st);
    lemma_index_kept(input, pos, st);
    let (r3, st3) = index(input, pos, st);
    if r3.missed() {
        lemma_call_kept(input, pos, st3);
        let (r4, st4) = call(input, pos, st3);
        if r4.missed() {
            let (r5, st5) = name(input, pos, st4);
            lemma_other_operand_kept(input, pos, st5);
        }
    }
}

proof fn lemma_other_operand_kept(input: Seq<char>, pos: int, st: ParseView)
    requires
        sound(st),
    ensures
        kept(st, other_operand(input, pos, st).1),
    decreases input.len() - pos, 4nat,
{
    lemma_other_operand(input, pos, st);
    lemma_block_kept(input, pos, st);
    let (r7, st7) = block(input, pos, st);
    if r7.missed() {
        lemma_prefix_kept(input, pos, st7);
        let (r8, st8) = prefix_operation(input, pos, st7);
        if r8.missed() {
            lemma_parenthesized_kept(input, pos, st8);
        }
    }
}

proof fn lemma_parenthesized_kept(input: Seq<char>, pos: int, st: ParseView)
    requires
        sound(st),
    ensures
        kept(st, parenthesized(input, pos, st).1),
    decreases input.len() - pos, 3nat,
{
    lemma_parenthesized(input, pos, st);
    if !(pos < 0 || pos >= input.len() || input[pos] != '(') {
        lemma_operand_kept(input, pos + 1, st);
        let (lhs, st1) = operand(input, pos + 1, st);
        match lhs {
            Parsed::Done(lhs, p) => {
                let p = held(input, p, pos + 1);
                match operator(input, skip(input, p)) {
                    Parsed::Done(op, q) => {
                        let at = skip(input, q);
                        lemma_infix_kept(input, at, st1);
                    },
                    _ => {},
                }
            },
            _ => {},
        }
    }
}

proof fn lemma_prefix_kept(input: Seq<char>, pos: int, st: ParseView)
    requires
        sound(st),
    ensures
        kept(st, prefix_operation(input, pos, st).1),
    decreases input.len() - pos, 2nat,
{
    lemma_prefix_operation(input, pos, st);
    let sign = skip(input, pos);
    if !(pos < 0 || pos > input.len() || !(char_at(input, sign, '-') || char_at(input, sign, '!'))) {
        lemma_required_kept(input, skip(input, sign + 1), st);
    }
}

proof fn lemma_if_else_kept(input: Seq<char>, pos: int, st: ParseView)
    requires
        sound(st),
    ensures
        kept(st, if_else(input, pos, st).1),
    decreases input.len() - pos, 2nat,
{
    lemma_if_else(input, pos, st);
    if !(pos < 0 || pos >= input.len() || input[pos] != '?') {
        lemma_required_kept(input, pos + 1, st);
        let (condition, st1) = required(input, pos + 1, st);
        match condition {
            Parsed::Done(condition, n1) => {
                if !(!char_at(input, n1, ':') || n1 <= pos) {
                    lemma_required_kept(input, n1 + 1, st1);
                    let (then, st2) = required(input, n1 + 1, st1);
                    match then {
                        Parsed::Done(then, n2) => {
                            if !(!char_at(input, n2, '|') || n2 <= pos) {
                                lemma_required_kept(input, n2 + 1, st2);
                            }
                        },
                        _ => {},
                    }
                }
            },
            _ => {},
        }
    }
}

proof fn lemma_more_items_kept(input: Seq<char>, pos: int, st: ParseView, items: Seq<ExprView>)
    requires
        sound(st),
    ensures
        kept(st, more_items(input, pos, st, items).1),
    decreases input.len() - pos, 10nat,
{
    lemma_more_items(input, pos, st, items);
    let comma = skip(input, pos);
    if !(pos < 0 || pos > input.len() || !char_at(input, comma, ',')) {
        let at = skip(input, comma + 1);
        lemma_expression_kept(input, at, st);
        let (r, st1) = expression(input, at, st);
        match r {
            Parsed::Done(e, end) => {
                lemma_more_items_kept(input, held(input, end, at), st1, items.push(e));
            },
            _ => {},
        }
    }
}

proof fn lemma_list_kept(input: Seq<char>, pos: int, st: ParseView)
    requires
        sound(st),
    ensures
        kept(st, list(input, pos, st).1),
    decreases input.len() - pos, 2nat,
{
    lemma_list(input, pos, st);
    if !(pos < 0 || pos >= input.len() || input[pos] != '[') {
        let first = skip(input, pos + 1);
        lemma_expression_kept(input, first, st);
        let (head, st1) = expression(input, first, st);
        match head {
            Parsed::Done(e, end) => {
                lemma_more_items_kept(input, held(input, end, first), st1, seq![e]);
            },
            _ => {},
        }
    }
}

proof fn lemma_entry_kept(input: Seq<char>, pos: int, st: ParseView)
    requires
        sound(st),
    ensures
        kept(st, entry(input, pos, st).1),
    decreases input.len() - pos, 11nat,
{
    lemma_entry(input, pos, st);
    let key_end = held(input, crate::lex::run_end(input, pos + 1, crate::lex::Class::Plain), pos + 1);
    if !(pos < 0 || pos >= input.len() || input[pos] != '"') && !(key_end <= pos + 1) && char_at(
        input,
        key_end,
        '"',
    ) {
        let colon = skip(input, key_end + 1);
        if char_at(input, colon, ':') {
            lemma_required_kept(input, skip(input, colon + 1), st);
        }
    }
}

proof fn lemma_more_entries_kept(
    input: Seq<char>,
    pos: int,
    st: ParseView,
    entries: Seq<(Seq<char>, ExprView)>,
)
    requires
        sound(st),
    ensures
        kept(st, more_entries(input, pos, st, entries).1),
    decreases input.len() - pos, 12nat,
{
    lemma_more_entries(input, pos, st, entries);
    let comma = skip(input, pos);
    if !(pos < 0 || pos > input.len() || !char_at(input, comma, ',')) {
        let at = skip(input, comma + 1);
        lemma_entry_kept(input, at, st);
        let (r, st1) = entry(input, at, st);
        match r {
            Parsed::Done((key, e), end) => {
                lemma_more_entries_kept(
                    input,
                    held(input, end, at),
                    st1,
                    with_entry(entries, key, e),
                );
            },
            _ => {},
        }
    }
}

proof fn lemma_mapping_kept(input: Seq<char>, pos: int, st: ParseView)
    requires
        sound(st),
    ensures
        kept(st, mapping(input, pos, st).1),
    decreases input.len() - pos, 2nat,
{
    lemma_mapping(input, pos, st);
    if !(pos < 0 || pos >= input.len() || input[pos] != '[') {
        let first = skip(input, pos + 1);
        lemma_entry_kept(input, first, st);
        let (head, st1) = entry(input, first, st);
        match head {
            Parsed::Done((key, e), end) => {
                lemma_more_entries_kept(input, held(input, end, first), st1, seq![(key, e)]);
            },
            _ => {},
        }
    }
}

proof fn lemma_bracket_rest_kept(
    input: Seq<char>,
    pos: int,
    st: ParseView,
    start: ExprView,
    floor: int,
)
    requires
        sound(st),
    ensures
        kept(st, bracket_rest(input, pos, st, start, floor).1),
    decreases input.len() - floor, 1nat,
{
    lemma_bracket_rest(input, pos, st, start, floor);
    if !(pos < floor || pos > input.len()) && char_at(input, pos, ':') {
        lemma_expression_kept(input, skip(input, pos + 1), st);
    }
}

proof fn lemma_bracket_kept(input: Seq<char>, pos: int, st: ParseView)
    requires
        sound(st),
    ensures
        kept(st, bracket(input, pos, st).1),
    decreases input.len() - pos, 13nat,
{
    lemma_bracket(input, pos, st);
    if !(pos < 0 || pos > input.len()) {
        lemma_expression_kept(input, pos, st);
        let (start, st1) = expression(input, pos, st);
        match start {
            Parsed::Done(start, p) => {
                lemma_bracket_rest_kept(input, held(input, p, pos), st1, start, pos);
            },
            Parsed::Failed(f) => {
                if !f.cut && char_at(input, pos, ':') {
                    lemma_required_kept(input, pos + 1, st1);
                }
            },
        }
    }
}

proof fn lemma_more_brackets_kept(
    input: Seq<char>,
    pos: int,
    st: ParseView,
    indices: Seq<IndexView>,
)
    requires
        sound(st),
    ensures
        kept(st, more_brackets(input, pos, st, indices).1),
    decreases input.len() - pos, 14nat,
{
    lemma_more_brackets(input, pos, st, indices);
    if !(pos < 0 || pos >= input.len() || input[pos] != '[') {
        lemma_bracket_kept(input, pos + 1, st);
        let (r, st1) = bracket(input, pos + 1, st);
        match r {
            Parsed::Done(b, end) => {
                lemma_more_brackets_kept(input, held(input, end, pos + 1), st1, indices.push(b));
            },
            _ => {},
        }
    }
}

proof fn lemma_index_kept(input: Seq<char>, pos: int, st: ParseView)
    requires
        sound(st),
    ensures
        kept(st, index(input, pos, st).1),
    decreases input.len() - pos, 2nat,
{
    lemma_index(input, pos, st);
    let (base, st1) = name(input, pos, st);
    match base {
        Parsed::Done(base, p) => {
            if !(p <= pos || !char_at(input, p, '[')) {
                lemma_more_brackets_kept(input, p, st1, Seq::empty());
            }
        },
        _ => {},
    }
}

proof fn lemma_call_kept(input: Seq<char>, pos: int, st: ParseView)
    requires
        sound(st),
    ensures
        kept(st, call(input, pos, st).1),
    decreases input.len() - pos, 2nat,
{
    lemma_call(input, pos, st);
    if !(pos < 0 || pos > input.len()) {
        let (callee, st1) = name(input, skip(input, pos), st);
        match callee {
            Parsed::Done(callee, p) => {
                let open = skip(input, p);
                if char_at(input, open, '(') {
                    let first = skip(input, open + 1);
                    lemma_expression_kept(input, first, st1);
                    let (head, st2) = expression(input, first, st1);
                    match head {
                        Parsed::Done(e, end) => {
                            lemma_more_items_kept(input, held(input, end, first), st2, seq![e]);
                        },
                        _ => {},
                    }
                }
            },
            _ => {},
        }
    }
}

proof fn lemma_function_body_kept(input: Seq<char>, pos: int, st: ParseView)
    requires
        sound(st),
    ensures
        kept(st, function_body(input, pos, st).1),
    decreases input.len() - pos, 1nat,
{
    lemma_function_body(input, pos, st);
    if !(pos < 0 || pos >= input.len() || input[pos] != '|') {
        let (head, st1) = name(input, skip(input, pos + 1), st);
        match head {
            Parsed::Done(symbol, p) => {
                lemma_names_kept(input, p, st1, seq![symbol]);
                let (names, st2) = more_names(input, p, st1, seq![symbol]);
                match names {
                    Parsed::Done(names, n2) => {
                        match parameters_end(input, skip(input, held(input, n2, pos + 1))) {
                            Parsed::Done(_, n3) => {
                                lemma_required_kept(input, held(input, n3, pos + 1), st2);
                            },
                            _ => {},
                        }
                    },
                    _ => {},
                }
            },
            _ => {},
        }
    }
}

proof fn lemma_function_kept(input: Seq<char>, pos: int, st: ParseView)
    requires
        sound(st),
    ensures
        kept(st, function(input, pos, st).1),
    decreases input.len() - pos, 2nat,
{
    lemma_function(input, pos, st);
    if !(pos < 0 || pos > input.len()) && st.avail != usize::MAX {
        lemma_function_body_kept(input, pos, reserve(st));
        let (r, st1) = function_body(input, pos, reserve(st));
        match r {
            Parsed::Done((names, body), end) => {
                lemma_owned(st, st1, crate::grammar::parameter_pairs(names));
            },
            Parsed::Failed(f) => {
                lemma_owned(st, st1, Seq::empty());
            },
        }
    }
}

proof fn lemma_assignment_kept(input: Seq<char>, pos: int, st: ParseView)
    requires
        sound(st),
    ensures
        kept(st, assignment(input, pos, st).1),
    decreases input.len() - pos, 11nat,
{
    lemma_assignment(input, pos, st);
    if !(pos < 0 || pos > input.len()) {
        let (target, st1) = name(input, skip(input, pos), st);
        match target {
            Parsed::Done(target, p) => {
                let equals = skip(input, p);
                if char_at(input, equals, '=') {
                    let value_at = skip(input, equals + 1);
                    lemma_expression_kept(input, value_at, st1);
                    let (first, st2) = expression(input, value_at, st1);
                    if first.missed() {
                        lemma_function_kept(input, value_at, st2);
                    }
                }
            },
            _ => {},
        }
    }
}

proof fn lemma_more_assignments_kept(
    input: Seq<char>,
    pos: int,
    st: ParseView,
    pairs: Seq<(u32, BindingView)>,
)
    requires
        sound(st),
    ensures
        kept(st, more_assignments(input, pos, st, pairs).1),
    decreases input.len() - pos, 12nat,
{
    lemma_more_assignments(input, pos, st, pairs);
    if !(pos < 0 || pos > input.len()) {
        lemma_assignment_kept(input, pos, st);
        let (r, st1) = assignment(input, pos, st);
        match r {
            Parsed::Done((target, value), end) => {
                if !(end <= pos || end > input.len()) {
                    lemma_more_assignments_kept(
                        input,
                        end,
                        st1,
                        pairs.push((target, BindingView::Expr(value))),
                    );
                }
            },
            _ => {},
        }
    }
}

proof fn lemma_block_body_kept(input: Seq<char>, pos: int, st: ParseView)
    requires
        sound(st),
    ensures
        kept(st, block_body(input, pos, st).1),
    decreases input.len() - pos, 1nat,
{
    lemma_block_body(input, pos, st);
    if !(pos < 0 || pos >= input.len() || input[pos] != '{') {
        let first = skip(input, pos + 1);
        lemma_assignment_kept(input, first, st);
        let (head, st1) = assignment(input, first, st);
        match head {
            Parsed::Done((target, value), p) => {
                let start = seq![(target, BindingView::Expr(value))];
                lemma_more_assignments_kept(input, held(input, p, pos + 1), st1, start);
                let (pairs, st2) = more_assignments(input, held(input, p, pos + 1), st1, start);
                match pairs {
                    Parsed::Done(pairs, n2) => {
                        lemma_required_kept(input, skip(input, held(input, n2, pos + 1)), st2);
                    },
                    _ => {},
                }
            },
            _ => {},
        }
    }
}

proof fn lemma_block_kept(input: Seq<char>, pos: int, st: ParseView)
    requires
        sound(st),
    ensures
        kept(st, block(input, pos, st).1),
    decreases input.len() - pos, 2nat,
{
    lemma_block(input, pos, st);
    if !(pos < 0 || pos > input.len()) && st.avail != usize::MAX {
        lemma_block_body_kept(input, pos, reserve(st));
        let (r, st1) = block_body(input, pos, reserve(st));
        match r {
            Parsed::Done((pairs, last), end) => {
                lemma_owned(st, st1, pairs);
            },
            Parsed::Failed(f) => {
                lemma_owned(st, st1, Seq::empty());
            },
        }
    }
}

/// Parsing keeps a sound state sound: whatever the input, every scope that
/// has been placed comes after its parent, the active scope is the one
/// that was active before, and its index is below the next free one.
pub proof fn law_parsing_keeps_order(input: Seq<char>, st: ParseView)
    requires
        sound(st),
    ensures
        kept(st, whole(input, st).1),
{
    lemma_expression_kept(input, 0, st);
}

/// The scopes of every input parsed in a fresh session are ordered.
pub proof fn law_parsed_scopes_are_ordered(input: Seq<char>)
    ensures
        ordered(crate::parsed(input).1.contexts),
{
    let start = crate::parse::parse_start(
        crate::state::CtxStateView {
            contexts: crate::state::fresh_contexts(),
            names: crate::context::builtin_names(),
        },
    );
    assert(sound(start));
    law_parsing_keeps_order(input, start);
}

} // verus!

//! The text of a syntax tree: what formatting means.
//!
//! A tree is written as it was read: an infix operation keeps its
//! parentheses, and the names of a scope are written from the scope.  A
//! block writes the bindings of its scope; to be sure to come to an end, it
//! does so only where the scope was placed after the scope of the block
//! that it stands in, which holds of every tree that parsing gives.

use vstd::prelude::*;
use crate::binding::BindingView;
use crate::expr::{ExprView, IndexView};
use crate::float::FloatModel;
use crate::infix;
use crate::prefix;
use crate::state::{bindings_at, CtxStateView};
use crate::text::{indent_text, int_text, quoted};
use crate::value::{deeper, group_open, group_separator, value_text};

verus! {

/// One blank in the pretty form, nothing in the compact one.
pub open spec fn gap(pretty: bool) -> Seq<char> {
    if pretty {
        seq![' ']
    } else {
        Seq::empty()
    }
}

/// A line end in the pretty form, nothing in the compact one.
pub open spec fn line_break(pretty: bool) -> Seq<char> {
    if pretty {
        seq!['\n']
    } else {
        Seq::empty()
    }
}

/// The indentation of `level` in the pretty form, nothing in the compact
/// one.
pub open spec fn margin(pretty: bool, level: usize) -> Seq<char> {
    if pretty {
        indent_text(level as nat)
    } else {
        Seq::empty()
    }
}

/// The text of a name; nothing for a symbol that the session does not know.
pub open spec fn name_text(session: CtxStateView, symbol: u32) -> Seq<char> {
    if symbol < session.names.len() {
        session.names[symbol as int]
    } else {
        Seq::empty()
    }
}

/// The names of the first `count` bindings, separated by commas.
pub open spec fn keys_text(
    session: CtxStateView,
    bindings: Seq<(u32, BindingView)>,
    count: nat,
    pretty: bool,
) -> Seq<char>
    decreases count,
{
    if count == 0 || count > bindings.len() {
        Seq::empty()
    } else {
        keys_text(session, bindings, (count - 1) as nat, pretty) + (if count > 1 {
            seq![','] + gap(pretty)
        } else {
            Seq::empty()
        }) + name_text(session, bindings[count - 1].0)
    }
}

/// What is written for a built-in function.
pub open spec fn builtin_text() -> Seq<char> {
    "<built-in function>"@
}

/// The arguments of formatting that stay the same all the way down: the
/// session, the form, and the float model.
pub struct Style {
    pub session: CtxStateView,
    pub pretty: bool,
    pub fm: FloatModel,
}

/// How many scopes of a session may still be entered from `floor`.
pub open spec fn scopes_left(session: CtxStateView, floor: usize) -> nat {
    if floor <= session.contexts.len() {
        (session.contexts.len() - floor) as nat
    } else {
        0
    }
}

/// How many scopes may still be entered from `floor`.
pub open spec fn room(style: Style, floor: usize) -> nat {
    scopes_left(style.session, floor)
}

/// The text of an expression at indentation `level`, where blocks write the
/// bindings of scopes from `floor` on.
pub open spec fn expr_text(e: ExprView, style: Style, level: usize, floor: usize) -> Seq<char>
    decreases 2 * room(style, floor), e, 1nat,
{
    match e {
        ExprView::Null => seq!['n', 'u', 'l', 'l'],
        ExprView::Str(s) => quoted(s),
        ExprView::Int(i) => int_text(i as int),
        ExprView::Float(text) => (style.fm.text)((style.fm.decimal)(text)),
        ExprView::Bool(b) => if b {
            seq!['t', 'r', 'u', 'e']
        } else {
            seq!['f', 'a', 'l', 's', 'e']
        },
        ExprView::List(_) => list_text(e, style, level, floor),
        ExprView::Mapping(_) => mapping_text(e, style, level, floor),
        ExprView::Ident(symbol) => name_text(style.session, symbol),
        ExprView::Index { .. } => index_text(e, style, level, floor),
        ExprView::Infix { .. } => infix_text(e, style, level, floor),
        ExprView::Prefix { .. } => prefix_text(e, style, level, floor),
        ExprView::Block { .. } => block_text(e, style, level, floor),
        ExprView::IfElse { .. } => if_else_text(e, style, level, floor),
        ExprView::ForEach { .. } => for_each_text(e, style, level, floor),
        ExprView::Defined { .. } => defined_text(e, style, level, floor),
        ExprView::BuiltIn(_) => builtin_text(),
        ExprView::Call { .. } => call_text(e, style, level, floor),
    }
}

/// The text of the first `count` expressions of a sequence at `level`,
/// separated by `separator`.
pub open spec fn items_text(
    items: Seq<ExprView>,
    count: nat,
    separator: Seq<char>,
    style: Style,
    level: usize,
    floor: usize,
) -> Seq<char>
    decreases 2 * room(style, floor), items, count,
{
    if count == 0 || count > items.len() {
        Seq::empty()
    } else {
        items_text(items, (count - 1) as nat, separator, style, level, floor) + (if count > 1 {
            separator
        } else {
            Seq::empty()
        }) + expr_text(items[count - 1], style, level, floor)
    }
}

/// The text of a list: its items between brackets, each on a line of its
/// own in the pretty form.
pub open spec fn list_text(e: ExprView, style: Style, level: usize, floor: usize) -> Seq<char>
    decreases 2 * room(style, floor), e, 0nat,
{
    match e {
        ExprView::List(items) => if items.len() == 0 {
            seq!['[', ']']
        } else {
            seq!['['] + group_open(style.pretty, deeper(level)) + items_text(
                items,
                items.len(),
                group_separator(style.pretty, deeper(level)),
                style,
                deeper(level),
                floor,
            ) + group_open(style.pretty, level) + seq![']']
        },
        _ => Seq::empty(),
    }
}

/// The text of one entry of a mapping: the key in quotes, a colon, a blank
/// and the expression.
pub open spec fn entry_text(entry: (Seq<char>, ExprView), style: Style, level: usize, floor: usize) -> Seq<
    char,
>
    decreases 2 * room(style, floor), entry, 0nat,
{
    seq!['"'] + entry.0 + seq!['"', ':', ' '] + expr_text(entry.1, style, level, floor)
}

/// The text of the first `count` entries of a mapping at `level`.
pub open spec fn entries_text(
    entries: Seq<(Seq<char>, ExprView)>,
    count: nat,
    style: Style,
    level: usize,
    floor: usize,
) -> Seq<char>
    decreases 2 * room(style, floor), entries, count,
{
    if count == 0 || count > entries.len() {
        Seq::empty()
    } else {
        entries_text(entries, (count - 1) as nat, style, level, floor) + (if count > 1 {
            group_separator(style.pretty, level)
        } else {
            Seq::empty()
        }) + entry_text(entries[count - 1], style, level, floor)
    }
}

/// The text of a mapping: its entries between brackets, each a key in
/// quotes, a colon, a blank and an expression.
pub open spec fn mapping_text(e: ExprView, style: Style, level: usize, floor: usize) -> Seq<char>
    decreases 2 * room(style, floor), e, 0nat,
{
    match e {
        ExprView::Mapping(entries) => if entries.len() == 0 {
            seq!['[', ']']
        } else {
            seq!['['] + group_open(style.pretty, deeper(level)) + entries_text(
                entries,
                entries.len(),
                style,
                deeper(level),
                floor,
            ) + group_open(style.pretty, level) + seq![']']
        },
        _ => Seq::empty(),
    }
}

/// The text of one bracket of an index expression.
pub open spec fn bracket_text(b: IndexView, style: Style, level: usize, floor: usize) -> Seq<char>
    decreases 2 * room(style, floor), b, 0nat,
{
    match b {
        IndexView::Single(e) => seq!['['] + expr_text(e, style, level, floor) + seq![']'],
        IndexView::From(e) => seq!['['] + expr_text(e, style, level, floor) + seq![':', ']'],
        IndexView::To(e) => seq!['[', ':'] + expr_text(e, style, level, floor) + seq![']'],
        IndexView::FromTo(a, b) => seq!['['] + expr_text(a, style, level, floor) + seq![':']
            + expr_text(b, style, level, floor) + seq![']'],
    }
}

/// The text of the first `count` brackets of an index expression.
pub open spec fn brackets_text(
    indices: Seq<IndexView>,
    count: nat,
    style: Style,
    level: usize,
    floor: usize,
) -> Seq<char>
    decreases 2 * room(style, floor), indices, count,
{
    if count == 0 || count > indices.len() {
        Seq::empty()
    } else {
        brackets_text(indices, (count - 1) as nat, style, level, floor) + bracket_text(
            indices[count - 1],
            style,
            level,
            floor,
        )
    }
}

/// The text of an index expression: the name and the brackets.
pub open spec fn index_text(e: ExprView, style: Style, level: usize, floor: usize) -> Seq<char>
    decreases 2 * room(style, floor), e, 0nat,
{
    match e {
        ExprView::Index { base, indices } => name_text(style.session, base) + brackets_text(
            indices,
            indices.len(),
            style,
            level,
            floor,
        ),
        _ => Seq::empty(),
    }
}

/// The text of an infix operation: the operands around the operator, in
/// parentheses where it was written so.
pub open spec fn infix_text(e: ExprView, style: Style, level: usize, floor: usize) -> Seq<char>
    decreases 2 * room(style, floor), e, 0nat,
{
    match e {
        ExprView::Infix { lhs, op, rhs, parenthesized } => (if parenthesized {
            seq!['(']
        } else {
            Seq::empty()
        }) + expr_text(*lhs, style, level, floor) + gap(style.pretty) + infix::op_text(op) + gap(
            style.pretty,
        ) + expr_text(*rhs, style, level, floor) + (if parenthesized {
            seq![')']
        } else {
            Seq::empty()
        }),
        _ => Seq::empty(),
    }
}

/// The text of a prefix operation: the operator and the operand.
pub open spec fn prefix_text(e: ExprView, style: Style, level: usize, floor: usize) -> Seq<char>
    decreases 2 * room(style, floor), e, 0nat,
{
    match e {
        ExprView::Prefix { unary, operand } => prefix::op_text(unary) + gap(style.pretty)
            + expr_text(*operand, style, level, floor),
        _ => Seq::empty(),
    }
}

/// The text of a conditional.
pub open spec fn if_else_text(e: ExprView, style: Style, level: usize, floor: usize) -> Seq<char>
    decreases 2 * room(style, floor), e, 0nat,
{
    match e {
        ExprView::IfElse { condition, then, otherwise } => seq!['?'] + gap(style.pretty)
            + expr_text(*condition, style, level, floor) + seq![':'] + gap(style.pretty)
            + expr_text(*then, style, level, floor) + seq!['|'] + gap(style.pretty) + expr_text(
            *otherwise,
            style,
            level,
            floor,
        ),
        _ => Seq::empty(),
    }
}

/// The text of an iteration: the base, the loop variables from the scope,
/// and the body.
pub open spec fn for_each_text(e: ExprView, style: Style, level: usize, floor: usize) -> Seq<char>
    decreases 2 * room(style, floor), e, 0nat,
{
    match e {
        ExprView::ForEach { base, ctx_idx, body } => {
            let names = bindings_at(style.session.contexts, ctx_idx as int);
            name_text(style.session, base) + gap(style.pretty) + seq!['>'] + gap(style.pretty)
                + seq!['('] + keys_text(style.session, names, names.len(), style.pretty) + seq![')']
                + gap(style.pretty) + seq![':'] + gap(style.pretty) + expr_text(
                *body,
                style,
                level,
                floor,
            )
        },
        _ => Seq::empty(),
    }
}

/// The text of a function of the program: the parameters from the scope,
/// and the body.
pub open spec fn defined_text(e: ExprView, style: Style, level: usize, floor: usize) -> Seq<char>
    decreases 2 * room(style, floor), e, 0nat,
{
    match e {
        ExprView::Defined { ctx_idx, body } => {
            let names = bindings_at(style.session.contexts, ctx_idx as int);
            seq!['|'] + keys_text(style.session, names, names.len(), style.pretty) + seq!['|']
                + gap(style.pretty) + expr_text(*body, style, level, floor)
        },
        _ => Seq::empty(),
    }
}

/// The text of a call: the name and the arguments, which stand one level
/// deeper.
pub open spec fn call_text(e: ExprView, style: Style, level: usize, floor: usize) -> Seq<char>
    decreases 2 * room(style, floor), e, 0nat,
{
    match e {
        ExprView::Call { name, args } => name_text(style.session, name) + seq!['('] + items_text(
            args,
            args.len(),
            seq![','] + gap(style.pretty),
            style,
            deeper(level),
            floor,
        ) + seq![')'],
        _ => Seq::empty(),
    }
}

/// The text of what a name is bound to.
pub open spec fn binding_text(b: BindingView, style: Style, level: usize, floor: usize) -> Seq<char>
    decreases 2 * room(style, floor) + 1, b, 2nat,
{
    match b {
        BindingView::Expr(e) => expr_text(e, style, level, floor),
        BindingView::Cached(v) => value_text(v, style.pretty, level, style.fm),
    }
}

/// The line of one binding of a scope at `level`: the name, `=`, what the
/// name is bound to, and `;`, on a line of its own in the pretty form.
pub open spec fn binding_line(pair: (u32, BindingView), style: Style, level: usize, floor: usize) -> Seq<
    char,
>
    decreases 2 * room(style, floor) + 1, pair, 3nat,
{
    margin(style.pretty, level) + name_text(style.session, pair.0) + gap(style.pretty) + seq!['=']
        + gap(style.pretty) + binding_text(pair.1, style, level, floor) + seq![';'] + line_break(
        style.pretty,
    )
}

/// The lines of the first `count` bindings of a scope at `level`.
pub open spec fn bindings_text(
    bindings: Seq<(u32, BindingView)>,
    count: nat,
    style: Style,
    level: usize,
    floor: usize,
) -> Seq<char>
    decreases 2 * room(style, floor) + 1, bindings, count,
{
    if count == 0 || count > bindings.len() {
        Seq::empty()
    } else {
        bindings_text(bindings, (count - 1) as nat, style, level, floor) + binding_line(
            bindings[count - 1],
            style,
            level,
            floor,
        )
    }
}

/// Whether a block at `floor` writes the bindings of scope `ctx_idx`.
pub open spec fn enters(style: Style, floor: usize, ctx_idx: usize) -> bool {
    floor <= ctx_idx < style.session.contexts.len() && ctx_idx < usize::MAX
}

/// The text of a block: the bindings of its scope and the final
/// expression, one level deeper, between braces.
pub open spec fn block_text(e: ExprView, style: Style, level: usize, floor: usize) -> Seq<char>
    decreases 2 * room(style, floor), e, 0nat,
{
    match e {
        ExprView::Block { ctx_idx, result } => {
            let names = bindings_at(style.session.contexts, ctx_idx as int);
            seq!['{'] + line_break(style.pretty) + (if enters(style, floor, ctx_idx) {
                bindings_text(names, names.len(), style, deeper(level), (ctx_idx + 1) as usize)
            } else {
                Seq::empty()
            }) + margin(style.pretty, deeper(level)) + expr_text(
                *result,
                style,
                deeper(level),
                floor,
            ) + line_break(style.pretty) + margin(style.pretty, level) + seq!['}']
        },
        _ => Seq::empty(),
    }
}

} // verus!

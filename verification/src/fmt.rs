//! The formatter of syntax trees: it writes what [`crate::layout`] defines.

use vstd::prelude::*;
use vstd::string::StringExecFns;
use crate::binding::Binding;
use crate::context::Context;
use crate::expr::{
    exprs_view, indices_view, keyed_view, lemma_call_view, lemma_index_view, lemma_list_view,
    lemma_mapping_view, Block, Defined, Expr, ExprView, Fn, FnCall, ForEach, IfElse, Index,
    IndexType, InfixOp, PrefixOp, RangeBounds,
};
use crate::float::{
    ask_decimal, ask_text, consistent, lemma_explains_prefix, lemma_prefix_chain, Answers,
    FloatCall, FloatModel, FloatOps,
};
use crate::ident::Ident;
use crate::layout::{
    binding_line, binding_text, bindings_text, block_text, bracket_text, brackets_text, call_text,
    defined_text, enters, entries_text, entry_text, expr_text, for_each_text, gap, if_else_text,
    index_text, infix_text, items_text, keys_text, line_break, list_text, mapping_text, margin,
    name_text, prefix_text, scopes_left, Style,
};
use crate::state::{bindings_at, FmtState};
use crate::text::{push_int, write_indent, write_quoted};
use crate::value::{deeper, group_open, group_separator, write_group_open, write_group_separator};

verus! {

/// The style in which a state formats under a float model.
pub open spec fn style_of(state: FmtState, fm: FloatModel) -> Style {
    Style { session: state.ctx_state@, pretty: state.pretty, fm }
}

/// Writes a blank in the pretty form.
fn write_gap(writer: &mut String, pretty: bool)
    ensures
        final(writer)@ == old(writer)@ + gap(pretty),
{
    if pretty {
        writer.push(' ');
    }
    assert(writer@ =~= old(writer)@ + gap(pretty));
}

/// Writes a line end in the pretty form.
fn write_line_break(writer: &mut String, pretty: bool)
    ensures
        final(writer)@ == old(writer)@ + line_break(pretty),
{
    if pretty {
        writer.push('\n');
    }
    assert(writer@ =~= old(writer)@ + line_break(pretty));
}

/// Writes the indentation of `level` in the pretty form.
fn write_margin(writer: &mut String, pretty: bool, level: usize)
    ensures
        final(writer)@ == old(writer)@ + margin(pretty, level),
{
    if pretty {
        write_indent(writer, level);
    }
    assert(writer@ =~= old(writer)@ + margin(pretty, level));
}

impl Ident {
    /// Writes the text of the name.
    pub fn format(&self, writer: &mut String, state: FmtState)
        ensures
            final(writer)@ == old(writer)@ + name_text(state.ctx_state@, self.0),
    {
        match state.resolve_ident(self) {
            Some(name) => {
                writer.append(name.as_str());
            },
            None => {
                assert(writer@ =~= old(writer)@ + name_text(state.ctx_state@, self.0));
            },
        }
    }
}

/// Writes the names of a scope, separated by commas.
fn write_keys(writer: &mut String, state: FmtState, ctx_idx: usize)
    ensures
        final(writer)@ == old(writer)@ + keys_text(
            state.ctx_state@,
            bindings_at(state.ctx_state@.contexts, ctx_idx as int),
            bindings_at(state.ctx_state@.contexts, ctx_idx as int).len(),
            state.pretty,
        ),
{
    let ghost names = bindings_at(state.ctx_state@.contexts, ctx_idx as int);
    if ctx_idx >= state.ctx_state.len() {
        assert(writer@ =~= old(writer)@ + keys_text(state.ctx_state@, names, 0, state.pretty));
        return ;
    }
    let ctx = state.ctx_state.ctx(ctx_idx);
    let n = ctx.len();
    let mut i: usize = 0;
    assert(writer@ =~= old(writer)@ + keys_text(state.ctx_state@, names, 0, state.pretty));
    while i < n
        invariant
            i <= n,
            n == names.len(),
            ctx@.bindings == names,
            writer@ == old(writer)@ + keys_text(state.ctx_state@, names, i as nat, state.pretty),
        decreases n - i,
    {
        let ghost before = writer@;
        if i > 0 {
            writer.push(',');
            write_gap(writer, state.pretty);
        }
        match ctx.key_at(i) {
            Some(key) => {
                key.format(writer, state);
            },
            None => {},
        }
        i += 1;
        assert(writer@ =~= old(writer)@ + keys_text(state.ctx_state@, names, i as nat, state.pretty))
            by {
            let prior = keys_text(state.ctx_state@, names, (i - 1) as nat, state.pretty);
            assert(before == old(writer)@ + prior);
            assert(writer@ =~= before + (if i > 1 {
                seq![','] + gap(state.pretty)
            } else {
                Seq::empty()
            }) + name_text(state.ctx_state@, names[i - 1].0));
        }
    }
}

/// Writes the expressions of a sequence at the level of `state`, separated
/// by a comma and `after_comma`.
fn write_items<F: FloatOps>(
    items: &Vec<Expr>,
    writer: &mut String,
    state: FmtState,
    lines: bool,
    floats: &F,
    log: &mut Answers,
)
    ensures
        old(log)@.is_prefix_of(final(log)@),
        consistent(final(log)@),
        forall|fm: FloatModel| #[trigger]
            fm.explains(final(log)@) ==> final(writer)@ == old(writer)@ + items_text(
                exprs_view(items@),
                items@.len(),
                separator(lines, state),
                style_of(state, fm),
                state.indent_level,
                state.floor,
            ),
    decreases 3 * scopes_left(state.ctx_state@, state.floor), items, 0nat,
{
    proof {
        use_type_invariant(&*log);
    }
    let ghost views = exprs_view(items@);
    let ghost start = writer@;
    let mut i: usize = 0;
    assert(writer@ =~= start + Seq::<char>::empty());
    while i < items.len()
        invariant
            i <= items.len(),
            views == exprs_view(items@),
            start == old(writer)@,
            old(log)@.is_prefix_of(log@),
            consistent(log@),
            forall|fm: FloatModel| #[trigger]
                fm.explains(log@) ==> writer@ == start + items_text(
                    views,
                    i as nat,
                    separator(lines, state),
                    style_of(state, fm),
                    state.indent_level,
                    state.floor,
                ),
        decreases items.len() - i,
    {
        let ghost before = writer@;
        let ghost log_before = log@;
        if i > 0 {
            if lines {
                write_group_separator(writer, state.pretty, state.indent_level);
            } else {
                writer.push(',');
                write_gap(writer, state.pretty);
            }
        }
        let ghost middle = writer@;
        assert(decreases_to!(items => items[i as int]));
        items[i].format(writer, state, floats, log);
        i += 1;
        proof {
            lemma_prefix_chain(old(log)@, log_before, log@);
            assert forall|fm: FloatModel| #[trigger] fm.explains(log@) implies writer@ == start
                + items_text(
                views,
                i as nat,
                separator(lines, state),
                style_of(state, fm),
                state.indent_level,
                state.floor,
            ) by {
                lemma_explains_prefix(fm, log_before, log@);
                let style = style_of(state, fm);
                let prior = items_text(
                    views,
                    (i - 1) as nat,
                    separator(lines, state),
                    style,
                    state.indent_level,
                    state.floor,
                );
                let item = expr_text(views[i - 1], style, state.indent_level, state.floor);
                assert(views[i - 1] == items@[i - 1]@);
                assert(before == start + prior);
                assert(writer@ == middle + item);
                assert(middle =~= before + (if i > 1 {
                    separator(lines, state)
                } else {
                    Seq::empty()
                }));
                assert(writer@ =~= start + (prior + (if i > 1 {
                    separator(lines, state)
                } else {
                    Seq::empty()
                }) + item));
            }
        }
    }
}

/// What separates the items of a sequence: in a list a comma and a line
/// break or blank, in a call a comma and a blank in the pretty form.
pub open spec fn separator(lines: bool, state: FmtState) -> Seq<char> {
    if lines {
        group_separator(state.pretty, state.indent_level)
    } else {
        seq![','] + gap(state.pretty)
    }
}

/// Writes a list, as [`list_text`] says.
pub fn format_list<F: FloatOps>(
    list: &Vec<Expr>,
    writer: &mut String,
    state: FmtState,
    floats: &F,
    log: &mut Answers,
)
    ensures
        old(log)@.is_prefix_of(final(log)@),
        consistent(final(log)@),
        forall|fm: FloatModel| #[trigger]
            fm.explains(final(log)@) ==> final(writer)@ == old(writer)@ + list_text(
                ExprView::List(exprs_view(list@)),
                style_of(state, fm),
                state.indent_level,
                state.floor,
            ),
    decreases 3 * scopes_left(state.ctx_state@, state.floor), list, 1nat,
{
    proof {
        use_type_invariant(&*log);
    }
    writer.push('[');
    if list.len() == 0 {
        writer.push(']');
        assert(writer@ =~= old(writer)@ + seq!['[', ']']);
        assert(exprs_view(list@).len() == 0);
        return ;
    }
    let inner = state.indented();
    write_group_open(writer, state.pretty, inner.indent_level);
    let ghost start = writer@;
    write_items(list, writer, inner, true, floats, log);
    let ghost body_end = writer@;
    write_group_open(writer, state.pretty, state.indent_level);
    writer.push(']');
    proof {
        assert forall|fm: FloatModel| #[trigger] fm.explains(log@) implies writer@ == old(writer)@
            + list_text(
            ExprView::List(exprs_view(list@)),
            style_of(state, fm),
            state.indent_level,
            state.floor,
        ) by {
            let style = style_of(state, fm);
            assert(style_of(inner, fm) == style);
            let body = items_text(
                exprs_view(list@),
                list@.len(),
                group_separator(state.pretty, deeper(state.indent_level)),
                style,
                deeper(state.indent_level),
                state.floor,
            );
            assert(body_end == start + body);
            assert(writer@ =~= old(writer)@ + (seq!['['] + group_open(
                state.pretty,
                deeper(state.indent_level),
            ) + body + group_open(state.pretty, state.indent_level) + seq![']']));
        }
    }
}

/// Writes one entry of a mapping, as [`entry_text`] says.
fn write_entry<F: FloatOps>(
    key: &String,
    value: &Expr,
    writer: &mut String,
    state: FmtState,
    floats: &F,
    log: &mut Answers,
)
    ensures
        old(log)@.is_prefix_of(final(log)@),
        consistent(final(log)@),
        forall|fm: FloatModel| #[trigger]
            fm.explains(final(log)@) ==> final(writer)@ == old(writer)@ + entry_text(
                (key@, value@),
                style_of(state, fm),
                state.indent_level,
                state.floor,
            ),
    decreases 3 * scopes_left(state.ctx_state@, state.floor), value, 3nat,
{
    proof {
        use_type_invariant(&*log);
    }
    writer.push('"');
    writer.append(key.as_str());
    writer.push('"');
    writer.push(':');
    writer.push(' ');
    let ghost middle = writer@;
    assert(middle =~= old(writer)@ + (seq!['"'] + key@ + seq!['"', ':', ' ']));
    value.format(writer, state, floats, log);
    proof {
        assert forall|fm: FloatModel| #[trigger] fm.explains(log@) implies writer@ == old(writer)@
            + entry_text((key@, value@), style_of(state, fm), state.indent_level, state.floor) by {
            let item = expr_text(value@, style_of(state, fm), state.indent_level, state.floor);
            assert(writer@ == middle + item);
            assert(writer@ =~= old(writer)@ + (seq!['"'] + key@ + seq!['"', ':', ' '] + item));
        }
    }
}

/// Writes the entries of a mapping at the level of `state`.
fn write_entries<F: FloatOps>(
    map: &Vec<(String, Expr)>,
    writer: &mut String,
    state: FmtState,
    floats: &F,
    log: &mut Answers,
)
    ensures
        old(log)@.is_prefix_of(final(log)@),
        consistent(final(log)@),
        forall|fm: FloatModel| #[trigger]
            fm.explains(final(log)@) ==> final(writer)@ == old(writer)@ + entries_text(
                keyed_view(map@),
                map@.len(),
                style_of(state, fm),
                state.indent_level,
                state.floor,
            ),
    decreases 3 * scopes_left(state.ctx_state@, state.floor), map, 0nat,
{
    proof {
        use_type_invariant(&*log);
    }
    let ghost views = keyed_view(map@);
    let ghost start = writer@;
    let mut i: usize = 0;
    assert(writer@ =~= start + Seq::<char>::empty());
    while i < map.len()
        invariant
            i <= map.len(),
            views == keyed_view(map@),
            start == old(writer)@,
            old(log)@.is_prefix_of(log@),
            consistent(log@),
            forall|fm: FloatModel| #[trigger]
                fm.explains(log@) ==> writer@ == start + entries_text(
                    views,
                    i as nat,
                    style_of(state, fm),
                    state.indent_level,
                    state.floor,
                ),
        decreases map.len() - i,
    {
        let ghost before = writer@;
        let ghost log_before = log@;
        if i > 0 {
            write_group_separator(writer, state.pretty, state.indent_level);
        }
        let ghost middle = writer@;
        assert(decreases_to!(map => map[i as int].1));
        write_entry(&map[i].0, &map[i].1, writer, state, floats, log);
        i += 1;
        proof {
            lemma_prefix_chain(old(log)@, log_before, log@);
            assert forall|fm: FloatModel| #[trigger] fm.explains(log@) implies writer@ == start
                + entries_text(
                views,
                i as nat,
                style_of(state, fm),
                state.indent_level,
                state.floor,
            ) by {
                lemma_explains_prefix(fm, log_before, log@);
                let style = style_of(state, fm);
                let prior = entries_text(
                    views,
                    (i - 1) as nat,
                    style,
                    state.indent_level,
                    state.floor,
                );
                let item = entry_text(views[i - 1], style, state.indent_level, state.floor);
                assert(views[i - 1] == (map@[i - 1].0@, map@[i - 1].1@));
                assert(before == start + prior);
                assert(writer@ == middle + item);
                assert(middle =~= before + (if i > 1 {
                    group_separator(state.pretty, state.indent_level)
                } else {
                    Seq::empty()
                }));
                assert(writer@ =~= start + (prior + (if i > 1 {
                    group_separator(state.pretty, state.indent_level)
                } else {
                    Seq::empty()
                }) + item));
            }
        }
    }
}

/// Writes a mapping, as [`mapping_text`] says.
pub fn format_map<F: FloatOps>(
    map: &Vec<(String, Expr)>,
    writer: &mut String,
    state: FmtState,
    floats: &F,
    log: &mut Answers,
)
    ensures
        old(log)@.is_prefix_of(final(log)@),
        consistent(final(log)@),
        forall|fm: FloatModel| #[trigger]
            fm.explains(final(log)@) ==> final(writer)@ == old(writer)@ + mapping_text(
                ExprView::Mapping(keyed_view(map@)),
                style_of(state, fm),
                state.indent_level,
                state.floor,
            ),
    decreases 3 * scopes_left(state.ctx_state@, state.floor), map, 1nat,
{
    proof {
        use_type_invariant(&*log);
    }
    writer.push('[');
    if map.len() == 0 {
        writer.push(']');
        assert(writer@ =~= old(writer)@ + seq!['[', ']']);
        assert(keyed_view(map@).len() == 0);
        return ;
    }
    let inner = state.indented();
    write_group_open(writer, state.pretty, inner.indent_level);
    let ghost start = writer@;
    write_entries(map, writer, inner, floats, log);
    let ghost body_end = writer@;
    write_group_open(writer, state.pretty, state.indent_level);
    writer.push(']');
    proof {
        assert forall|fm: FloatModel| #[trigger] fm.explains(log@) implies writer@ == old(writer)@
            + mapping_text(
            ExprView::Mapping(keyed_view(map@)),
            style_of(state, fm),
            state.indent_level,
            state.floor,
        ) by {
            let style = style_of(state, fm);
            assert(style_of(inner, fm) == style);
            let body = entries_text(
                keyed_view(map@),
                map@.len(),
                style,
                deeper(state.indent_level),
                state.floor,
            );
            assert(body_end == start + body);
            assert(writer@ =~= old(writer)@ + (seq!['['] + group_open(
                state.pretty,
                deeper(state.indent_level),
            ) + body + group_open(state.pretty, state.indent_level) + seq![']']));
        }
    }
}

impl Expr {
    /// Writes the expression, as [`expr_text`] says.  The text of each
    /// float is asked of `floats`, and the answers are added to `log`.
    #[verifier::rlimit(30)]
    pub fn format<F: FloatOps>(
        &self,
        writer: &mut String,
        state: FmtState,
        floats: &F,
        log: &mut Answers,
    )
        ensures
            old(log)@.is_prefix_of(final(log)@),
            consistent(final(log)@),
            forall|fm: FloatModel| #[trigger]
                fm.explains(final(log)@) ==> final(writer)@ == old(writer)@ + expr_text(
                    self@,
                    style_of(state, fm),
                    state.indent_level,
                    state.floor,
                ),
        decreases 3 * scopes_left(state.ctx_state@, state.floor), self, 2nat,
    {
        proof {
            use_type_invariant(&*log);
        }
        match self {
            Expr::Null => {
                writer.append("null");
                proof {
                    reveal_strlit("null");
                    assert(writer@ =~= old(writer)@ + seq!['n', 'u', 'l', 'l']);
                }
            },
            Expr::Str(s) => {
                write_quoted(writer, s.as_str());
            },
            Expr::Int(i) => {
                push_int(writer, *i);
            },
            Expr::Float(text) => {
                let bits = ask_decimal(floats, text.as_str(), log);
                let ghost mid = log@;
                let shown = ask_text(floats, bits, log);
                writer.append(shown.as_str());
                assert forall|fm: FloatModel| #[trigger] fm.explains(log@) implies writer@ == old(
                    writer,
                )@ + expr_text(self@, style_of(state, fm), state.indent_level, state.floor) by {
                    lemma_explains_prefix(fm, mid, log@);
                }
            },
            Expr::Bool(b) => {
                if *b {
                    writer.append("true");
                    proof {
                        reveal_strlit("true");
                        assert(writer@ =~= old(writer)@ + seq!['t', 'r', 'u', 'e']);
                    }
                } else {
                    writer.append("false");
                    proof {
                        reveal_strlit("false");
                        assert(writer@ =~= old(writer)@ + seq!['f', 'a', 'l', 's', 'e']);
                    }
                }
            },
            Expr::List(list) => {
                proof {
                    lemma_list_view(*list);
                }
                format_list(list, writer, state, floats, log);
            },
            Expr::Mapping(map) => {
                proof {
                    lemma_mapping_view(*map);
                }
                format_map(map, writer, state, floats, log);
            },
            Expr::Ident(ident) => {
                ident.format(writer, state);
            },
            Expr::Index(index) => {
                index.format(writer, state, floats, log);
            },
            Expr::InfixOp(infix_op) => {
                infix_op.format(writer, state, floats, log);
            },
            Expr::PrefixOp(prefix_op) => {
                prefix_op.format(writer, state, floats, log);
            },
            Expr::Block(block) => {
                block.format(writer, state, floats, log);
            },
            Expr::IfElse(if_else) => {
                if_else.format(writer, state, floats, log);
            },
            Expr::ForEach(for_each) => {
                for_each.format(writer, state, floats, log);
            },
            Expr::Fn(func) => {
                func.format(writer, state, floats, log);
            },
            Expr::FnCall(fn_call) => {
                fn_call.format(writer, state, floats, log);
            },
        }
    }
}

impl InfixOp {
    /// Writes the operation, as [`infix_text`] says.
    #[verifier::rlimit(30)]
    pub fn format<F: FloatOps>(
        &self,
        writer: &mut String,
        state: FmtState,
        floats: &F,
        log: &mut Answers,
    )
        ensures
            old(log)@.is_prefix_of(final(log)@),
            consistent(final(log)@),
            forall|fm: FloatModel| #[trigger]
                fm.explains(final(log)@) ==> final(writer)@ == old(writer)@ + infix_text(
                    Expr::InfixOp(*self)@,
                    style_of(state, fm),
                    state.indent_level,
                    state.floor,
                ),
        decreases 3 * scopes_left(state.ctx_state@, state.floor), self, 0nat,
    {
        proof {
            use_type_invariant(&*log);
        }
        let ghost log0 = log@;
        if self.parenthesized {
            writer.push('(');
        }
        let ghost w1 = writer@;
        self.lhs.format(writer, state, floats, log);
        let ghost w2 = writer@;
        let ghost log1 = log@;
        write_gap(writer, state.pretty);
        self.op.format(writer);
        write_gap(writer, state.pretty);
        let ghost w3 = writer@;
        self.rhs.format(writer, state, floats, log);
        let ghost w4 = writer@;
        if self.parenthesized {
            writer.push(')');
        }
        proof {
            lemma_prefix_chain(log0, log1, log@);
            assert forall|fm: FloatModel| #[trigger] fm.explains(log@) implies writer@ == old(
                writer,
            )@ + infix_text(
                Expr::InfixOp(*self)@,
                style_of(state, fm),
                state.indent_level,
                state.floor,
            ) by {
                lemma_explains_prefix(fm, log1, log@);
                let style = style_of(state, fm);
                let l = expr_text(self.lhs@, style, state.indent_level, state.floor);
                let r = expr_text(self.rhs@, style, state.indent_level, state.floor);
                assert(w2 == w1 + l);
                assert(w4 == w3 + r);
                assert(writer@ =~= old(writer)@ + ((if self.parenthesized {
                    seq!['(']
                } else {
                    Seq::empty()
                }) + l + gap(state.pretty) + crate::infix::op_text(self.op) + gap(state.pretty) + r
                    + (if self.parenthesized {
                    seq![')']
                } else {
                    Seq::empty()
                })));
            }
        }
    }
}

impl PrefixOp {
    /// Writes the operation, as [`prefix_text`] says.
    #[verifier::rlimit(30)]
    pub fn format<F: FloatOps>(
        &self,
        writer: &mut String,
        state: FmtState,
        floats: &F,
        log: &mut Answers,
    )
        ensures
            old(log)@.is_prefix_of(final(log)@),
            consistent(final(log)@),
            forall|fm: FloatModel| #[trigger]
                fm.explains(final(log)@) ==> final(writer)@ == old(writer)@ + prefix_text(
                    Expr::PrefixOp(*self)@,
                    style_of(state, fm),
                    state.indent_level,
                    state.floor,
                ),
        decreases 3 * scopes_left(state.ctx_state@, state.floor), self, 0nat,
    {
        proof {
            use_type_invariant(&*log);
        }
        self.op.format(writer);
        write_gap(writer, state.pretty);
        let ghost w1 = writer@;
        self.operand.format(writer, state, floats, log);
        proof {
            assert forall|fm: FloatModel| #[trigger] fm.explains(log@) implies writer@ == old(
                writer,
            )@ + prefix_text(
                Expr::PrefixOp(*self)@,
                style_of(state, fm),
                state.indent_level,
                state.floor,
            ) by {
                let style = style_of(state, fm);
                let inner = expr_text(self.operand@, style, state.indent_level, state.floor);
                assert(writer@ == w1 + inner);
                assert(writer@ =~= old(writer)@ + (crate::prefix::op_text(self.op) + gap(
                    state.pretty,
                ) + inner));
            }
        }
    }
}

impl IfElse {
    /// Writes the conditional, as [`if_else_text`] says.
    #[verifier::rlimit(30)]
    pub fn format<F: FloatOps>(
        &self,
        writer: &mut String,
        state: FmtState,
        floats: &F,
        log: &mut Answers,
    )
        ensures
            old(log)@.is_prefix_of(final(log)@),
            consistent(final(log)@),
            forall|fm: FloatModel| #[trigger]
                fm.explains(final(log)@) ==> final(writer)@ == old(writer)@ + if_else_text(
                    Expr::IfElse(*self)@,
                    style_of(state, fm),
                    state.indent_level,
                    state.floor,
                ),
        decreases 3 * scopes_left(state.ctx_state@, state.floor), self, 0nat,
    {
        proof {
            use_type_invariant(&*log);
        }
        let ghost log0 = log@;
        writer.push('?');
        write_gap(writer, state.pretty);
        let ghost w1 = writer@;
        self.if_expr.format(writer, state, floats, log);
        let ghost w2 = writer@;
        let ghost log1 = log@;
        writer.push(':');
        write_gap(writer, state.pretty);
        let ghost w3 = writer@;
        self.then_expr.format(writer, state, floats, log);
        let ghost w4 = writer@;
        let ghost log2 = log@;
        writer.push('|');
        write_gap(writer, state.pretty);
        let ghost w5 = writer@;
        self.else_expr.format(writer, state, floats, log);
        proof {
            lemma_prefix_chain(log0, log1, log2);
            lemma_prefix_chain(log0, log2, log@);
            lemma_prefix_chain(log1, log2, log@);
            assert forall|fm: FloatModel| #[trigger] fm.explains(log@) implies writer@ == old(
                writer,
            )@ + if_else_text(
                Expr::IfElse(*self)@,
                style_of(state, fm),
                state.indent_level,
                state.floor,
            ) by {
                lemma_explains_prefix(fm, log1, log@);
                lemma_explains_prefix(fm, log2, log@);
                let style = style_of(state, fm);
                let c = expr_text(self.if_expr@, style, state.indent_level, state.floor);
                let t = expr_text(self.then_expr@, style, state.indent_level, state.floor);
                let e = expr_text(self.else_expr@, style, state.indent_level, state.floor);
                assert(w2 == w1 + c);
                assert(w4 == w3 + t);
                assert(writer@ == w5 + e);
                assert(writer@ =~= old(writer)@ + (seq!['?'] + gap(state.pretty) + c + seq![':']
                    + gap(state.pretty) + t + seq!['|'] + gap(state.pretty) + e));
            }
        }
    }
}

impl IndexType {
    /// Writes the bracket, as [`bracket_text`] says.
    #[verifier::rlimit(30)]
    pub fn format<F: FloatOps>(
        &self,
        writer: &mut String,
        state: FmtState,
        floats: &F,
        log: &mut Answers,
    )
        ensures
            old(log)@.is_prefix_of(final(log)@),
            consistent(final(log)@),
            forall|fm: FloatModel| #[trigger]
                fm.explains(final(log)@) ==> final(writer)@ == old(writer)@ + bracket_text(
                    self@,
                    style_of(state, fm),
                    state.indent_level,
                    state.floor,
                ),
        decreases 3 * scopes_left(state.ctx_state@, state.floor), self, 3nat,
    {
        proof {
            use_type_invariant(&*log);
        }
        let ghost log0 = log@;
        writer.push('[');
        match self {
            IndexType::Single(index) => {
                let ghost w1 = writer@;
                index.format(writer, state, floats, log);
                let ghost w2 = writer@;
                writer.push(']');
                proof {
                    assert forall|fm: FloatModel| #[trigger] fm.explains(log@) implies writer@
                        == old(writer)@ + bracket_text(
                        self@,
                        style_of(state, fm),
                        state.indent_level,
                        state.floor,
                    ) by {
                        let a = expr_text(
                            index@,
                            style_of(state, fm),
                            state.indent_level,
                            state.floor,
                        );
                        assert(w2 == w1 + a);
                        assert(writer@ =~= old(writer)@ + (seq!['['] + a + seq![']']));
                    }
                }
            },
            IndexType::Range(RangeBounds::StartingFrom(start)) => {
                let ghost w1 = writer@;
                start.format(writer, state, floats, log);
                let ghost w2 = writer@;
                writer.push(':');
                writer.push(']');
                proof {
                    assert forall|fm: FloatModel| #[trigger] fm.explains(log@) implies writer@
                        == old(writer)@ + bracket_text(
                        self@,
                        style_of(state, fm),
                        state.indent_level,
                        state.floor,
                    ) by {
                        let a = expr_text(
                            start@,
                            style_of(state, fm),
                            state.indent_level,
                            state.floor,
                        );
                        assert(w2 == w1 + a);
                        assert(writer@ =~= old(writer)@ + (seq!['['] + a + seq![':', ']']));
                    }
                }
            },
            IndexType::Range(RangeBounds::EndingAt(end)) => {
                writer.push(':');
                let ghost w1 = writer@;
                end.format(writer, state, floats, log);
                let ghost w2 = writer@;
                writer.push(']');
                proof {
                    assert forall|fm: FloatModel| #[trigger] fm.explains(log@) implies writer@
                        == old(writer)@ + bracket_text(
                        self@,
                        style_of(state, fm),
                        state.indent_level,
                        state.floor,
                    ) by {
                        let a = expr_text(
                            end@,
                            style_of(state, fm),
                            state.indent_level,
                            state.floor,
                        );
                        assert(w2 == w1 + a);
                        assert(writer@ =~= old(writer)@ + (seq!['[', ':'] + a + seq![']']));
                    }
                }
            },
            IndexType::Range(RangeBounds::FromTo(start, end)) => {
                let ghost w1 = writer@;
                start.format(writer, state, floats, log);
                let ghost w2 = writer@;
                let ghost log1 = log@;
                writer.push(':');
                let ghost w3 = writer@;
                end.format(writer, state, floats, log);
                let ghost w4 = writer@;
                writer.push(']');
                proof {
                    lemma_prefix_chain(log0, log1, log@);
                    assert forall|fm: FloatModel| #[trigger] fm.explains(log@) implies writer@
                        == old(writer)@ + bracket_text(
                        self@,
                        style_of(state, fm),
                        state.indent_level,
                        state.floor,
                    ) by {
                        lemma_explains_prefix(fm, log1, log@);
                        let a = expr_text(
                            start@,
                            style_of(state, fm),
                            state.indent_level,
                            state.floor,
                        );
                        let b = expr_text(
                            end@,
                            style_of(state, fm),
                            state.indent_level,
                            state.floor,
                        );
                        assert(w2 == w1 + a);
                        assert(w4 == w3 + b);
                        assert(writer@ =~= old(writer)@ + (seq!['['] + a + seq![':'] + b + seq![
                            ']',
                        ]));
                    }
                }
            },
        }
    }
}

impl Index {
    /// Writes the index expression, as [`index_text`] says.
    #[verifier::rlimit(30)]
    pub fn format<F: FloatOps>(
        &self,
        writer: &mut String,
        state: FmtState,
        floats: &F,
        log: &mut Answers,
    )
        ensures
            old(log)@.is_prefix_of(final(log)@),
            consistent(final(log)@),
            forall|fm: FloatModel| #[trigger]
                fm.explains(final(log)@) ==> final(writer)@ == old(writer)@ + index_text(
                    Expr::Index(*self)@,
                    style_of(state, fm),
                    state.indent_level,
                    state.floor,
                ),
        decreases 3 * scopes_left(state.ctx_state@, state.floor), self, 0nat,
    {
        proof {
            use_type_invariant(&*log);
        }
        proof {
            lemma_index_view(*self);
        }
        self.base.format(writer, state);
        let ghost views = indices_view(self.indices@);
        let ghost start = writer@;
        let mut i: usize = 0;
        assert(writer@ =~= start + Seq::<char>::empty());
        while i < self.indices.len()
            invariant
                i <= self.indices.len(),
                views == indices_view(self.indices@),
                old(log)@.is_prefix_of(log@),
                consistent(log@),
                forall|fm: FloatModel| #[trigger]
                    fm.explains(log@) ==> writer@ == start + brackets_text(
                        views,
                        i as nat,
                        style_of(state, fm),
                        state.indent_level,
                        state.floor,
                    ),
            decreases self.indices.len() - i,
        {
            let ghost before = writer@;
            let ghost log_before = log@;
            assert(decreases_to!(self => self.indices[i as int]));
            self.indices[i].format(writer, state, floats, log);
            i += 1;
            proof {
                lemma_prefix_chain(old(log)@, log_before, log@);
                assert forall|fm: FloatModel| #[trigger] fm.explains(log@) implies writer@
                    == start + brackets_text(
                    views,
                    i as nat,
                    style_of(state, fm),
                    state.indent_level,
                    state.floor,
                ) by {
                    lemma_explains_prefix(fm, log_before, log@);
                    let style = style_of(state, fm);
                    let prior = brackets_text(
                        views,
                        (i - 1) as nat,
                        style,
                        state.indent_level,
                        state.floor,
                    );
                    let item = bracket_text(views[i - 1], style, state.indent_level, state.floor);
                    assert(views[i - 1] == self.indices@[i - 1]@);
                    assert(before == start + prior);
                    assert(writer@ == before + item);
                    assert(writer@ =~= start + (prior + item));
                }
            }
        }
        proof {
            assert forall|fm: FloatModel| #[trigger] fm.explains(log@) implies writer@ == old(
                writer,
            )@ + index_text(
                Expr::Index(*self)@,
                style_of(state, fm),
                state.indent_level,
                state.floor,
            ) by {
                let style = style_of(state, fm);
                let body = brackets_text(views, views.len(), style, state.indent_level, state.floor);
                assert(writer@ == start + body);
                assert(writer@ =~= old(writer)@ + (name_text(state.ctx_state@, self.base.0)
                    + body));
            }
        }
    }
}

impl FnCall {
    /// Writes the call, as [`call_text`] says.
    #[verifier::rlimit(30)]
    pub fn format<F: FloatOps>(
        &self,
        writer: &mut String,
        state: FmtState,
        floats: &F,
        log: &mut Answers,
    )
        ensures
            old(log)@.is_prefix_of(final(log)@),
            consistent(final(log)@),
            forall|fm: FloatModel| #[trigger]
                fm.explains(final(log)@) ==> final(writer)@ == old(writer)@ + call_text(
                    Expr::FnCall(*self)@,
                    style_of(state, fm),
                    state.indent_level,
                    state.floor,
                ),
        decreases 3 * scopes_left(state.ctx_state@, state.floor), self, 0nat,
    {
        proof {
            use_type_invariant(&*log);
        }
        proof {
            lemma_call_view(*self);
        }
        self.name.format(writer, state);
        writer.push('(');
        let ghost start = writer@;
        let inner = state.indented();
        write_items(&self.args, writer, inner, false, floats, log);
        let ghost body_end = writer@;
        writer.push(')');
        proof {
            assert forall|fm: FloatModel| #[trigger] fm.explains(log@) implies writer@ == old(
                writer,
            )@ + call_text(
                Expr::FnCall(*self)@,
                style_of(state, fm),
                state.indent_level,
                state.floor,
            ) by {
                let style = style_of(state, fm);
                assert(style_of(inner, fm) == style);
                let body = items_text(
                    exprs_view(self.args@),
                    self.args@.len(),
                    seq![','] + gap(state.pretty),
                    style,
                    deeper(state.indent_level),
                    state.floor,
                );
                assert(body_end == start + body);
                assert(writer@ =~= old(writer)@ + (name_text(state.ctx_state@, self.name.0) + seq![
                    '(',
                ] + body + seq![')']));
            }
        }
    }
}

impl ForEach {
    /// Writes the iteration, as [`for_each_text`] says.
    #[verifier::rlimit(30)]
    pub fn format<F: FloatOps>(
        &self,
        writer: &mut String,
        state: FmtState,
        floats: &F,
        log: &mut Answers,
    )
        ensures
            old(log)@.is_prefix_of(final(log)@),
            consistent(final(log)@),
            forall|fm: FloatModel| #[trigger]
                fm.explains(final(log)@) ==> final(writer)@ == old(writer)@ + for_each_text(
                    Expr::ForEach(*self)@,
                    style_of(state, fm),
                    state.indent_level,
                    state.floor,
                ),
        decreases 3 * scopes_left(state.ctx_state@, state.floor), self, 0nat,
    {
        proof {
            use_type_invariant(&*log);
        }
        self.base.format(writer, state);
        write_gap(writer, state.pretty);
        writer.push('>');
        write_gap(writer, state.pretty);
        writer.push('(');
        write_keys(writer, state, self.ctx_idx);
        writer.push(')');
        write_gap(writer, state.pretty);
        writer.push(':');
        write_gap(writer, state.pretty);
        let ghost w1 = writer@;
        self.body.format(writer, state, floats, log);
        proof {
            assert forall|fm: FloatModel| #[trigger] fm.explains(log@) implies writer@ == old(
                writer,
            )@ + for_each_text(
                Expr::ForEach(*self)@,
                style_of(state, fm),
                state.indent_level,
                state.floor,
            ) by {
                let style = style_of(state, fm);
                let names = bindings_at(state.ctx_state@.contexts, self.ctx_idx as int);
                let body = expr_text(self.body@, style, state.indent_level, state.floor);
                assert(writer@ == w1 + body);
                assert(writer@ =~= old(writer)@ + (name_text(state.ctx_state@, self.base.0) + gap(
                    state.pretty,
                ) + seq!['>'] + gap(state.pretty) + seq!['('] + keys_text(
                    state.ctx_state@,
                    names,
                    names.len(),
                    state.pretty,
                ) + seq![')'] + gap(state.pretty) + seq![':'] + gap(state.pretty) + body));
            }
        }
    }
}

impl Defined {
    /// Writes the function, as [`defined_text`] says.
    #[verifier::rlimit(30)]
    pub fn format<F: FloatOps>(
        &self,
        writer: &mut String,
        state: FmtState,
        floats: &F,
        log: &mut Answers,
    )
        ensures
            old(log)@.is_prefix_of(final(log)@),
            consistent(final(log)@),
            forall|fm: FloatModel| #[trigger]
                fm.explains(final(log)@) ==> final(writer)@ == old(writer)@ + defined_text(
                    Expr::Fn(Fn::Defined(*self))@,
                    style_of(state, fm),
                    state.indent_level,
                    state.floor,
                ),
        decreases 3 * scopes_left(state.ctx_state@, state.floor), self, 0nat,
    {
        proof {
            use_type_invariant(&*log);
        }
        writer.push('|');
        write_keys(writer, state, self.ctx_idx);
        writer.push('|');
        write_gap(writer, state.pretty);
        let ghost w1 = writer@;
        self.body.format(writer, state, floats, log);
        proof {
            assert forall|fm: FloatModel| #[trigger] fm.explains(log@) implies writer@ == old(
                writer,
            )@ + defined_text(
                Expr::Fn(Fn::Defined(*self))@,
                style_of(state, fm),
                state.indent_level,
                state.floor,
            ) by {
                let style = style_of(state, fm);
                let names = bindings_at(state.ctx_state@.contexts, self.ctx_idx as int);
                let body = expr_text(self.body@, style, state.indent_level, state.floor);
                assert(writer@ == w1 + body);
                assert(writer@ =~= old(writer)@ + (seq!['|'] + keys_text(
                    state.ctx_state@,
                    names,
                    names.len(),
                    state.pretty,
                ) + seq!['|'] + gap(state.pretty) + body));
            }
        }
    }
}

impl Fn {
    /// Writes the function: a function of the program as [`defined_text`]
    /// says, a built-in one as a fixed text.
    #[verifier::rlimit(30)]
    pub fn format<F: FloatOps>(
        &self,
        writer: &mut String,
        state: FmtState,
        floats: &F,
        log: &mut Answers,
    )
        ensures
            old(log)@.is_prefix_of(final(log)@),
            consistent(final(log)@),
            forall|fm: FloatModel| #[trigger]
                fm.explains(final(log)@) ==> final(writer)@ == old(writer)@ + expr_text(
                    Expr::Fn(*self)@,
                    style_of(state, fm),
                    state.indent_level,
                    state.floor,
                ),
        decreases 3 * scopes_left(state.ctx_state@, state.floor), self, 1nat,
    {
        proof {
            use_type_invariant(&*log);
        }
        match self {
            Fn::Defined(declaration) => {
                declaration.format(writer, state, floats, log);
            },
            Fn::BuiltIn(_) => {
                writer.append("<built-in function>");
            },
        }
    }
}

impl Binding {
    /// Writes what a name is bound to, as [`binding_text`] says.
    #[verifier::rlimit(30)]
    pub fn format<F: FloatOps>(
        &self,
        writer: &mut String,
        state: FmtState,
        floats: &F,
        log: &mut Answers,
    )
        ensures
            old(log)@.is_prefix_of(final(log)@),
            consistent(final(log)@),
            forall|fm: FloatModel| #[trigger]
                fm.explains(final(log)@) ==> final(writer)@ == old(writer)@ + binding_text(
                    self@,
                    style_of(state, fm),
                    state.indent_level,
                    state.floor,
                ),
        decreases 3 * scopes_left(state.ctx_state@, state.floor) + 1, self, 0nat,
    {
        proof {
            use_type_invariant(&*log);
        }
        match self {
            Binding::Expr(expr) => {
                expr.format(writer, state, floats, log);
            },
            Binding::Cached(value) => {
                value.format(writer, state.pretty, state.indent_level, floats, log);
            },
        }
    }
}

impl Context {
    /// Writes the line of the binding at `index`, as [`binding_line`] says.
    fn format_line<F: FloatOps>(
        &self,
        index: usize,
        writer: &mut String,
        state: FmtState,
        floats: &F,
        log: &mut Answers,
    )
        requires
            index < self@.bindings.len(),
        ensures
            old(log)@.is_prefix_of(final(log)@),
            consistent(final(log)@),
            forall|fm: FloatModel| #[trigger]
                fm.explains(final(log)@) ==> final(writer)@ == old(writer)@ + binding_line(
                    self@.bindings[index as int],
                    style_of(state, fm),
                    state.indent_level,
                    state.floor,
                ),
        decreases 3 * scopes_left(state.ctx_state@, state.floor) + 2, self, 0nat,
    {
        proof {
            use_type_invariant(&*log);
        }
        write_margin(writer, state.pretty, state.indent_level);
        match self.key_at(index) {
            Some(name) => {
                name.format(writer, state);
            },
            None => {},
        }
        write_gap(writer, state.pretty);
        writer.push('=');
        write_gap(writer, state.pretty);
        let ghost middle = writer@;
        assert(middle =~= old(writer)@ + (margin(state.pretty, state.indent_level) + name_text(
            state.ctx_state@,
            self@.bindings[index as int].0,
        ) + gap(state.pretty) + seq!['='] + gap(state.pretty)));
        match self.binding_at(index) {
            Some(binding) => {
                binding.format(writer, state, floats, log);
            },
            None => {},
        }
        let ghost after = writer@;
        writer.push(';');
        write_line_break(writer, state.pretty);
        proof {
            assert forall|fm: FloatModel| #[trigger] fm.explains(log@) implies writer@ == old(
                writer,
            )@ + binding_line(
                self@.bindings[index as int],
                style_of(state, fm),
                state.indent_level,
                state.floor,
            ) by {
                let style = style_of(state, fm);
                let item = binding_text(
                    self@.bindings[index as int].1,
                    style,
                    state.indent_level,
                    state.floor,
                );
                assert(after == middle + item);
                assert(writer@ =~= old(writer)@ + (margin(state.pretty, state.indent_level)
                    + name_text(state.ctx_state@, self@.bindings[index as int].0) + gap(
                    state.pretty,
                ) + seq!['='] + gap(state.pretty) + item + seq![';'] + line_break(state.pretty)));
            }
        }
    }

    /// Writes the bindings of the scope, as [`bindings_text`] says.
    #[verifier::rlimit(30)]
    pub fn format<F: FloatOps>(
        &self,
        writer: &mut String,
        state: FmtState,
        floats: &F,
        log: &mut Answers,
    )
        ensures
            old(log)@.is_prefix_of(final(log)@),
            consistent(final(log)@),
            forall|fm: FloatModel| #[trigger]
                fm.explains(final(log)@) ==> final(writer)@ == old(writer)@ + bindings_text(
                    self@.bindings,
                    self@.bindings.len(),
                    style_of(state, fm),
                    state.indent_level,
                    state.floor,
                ),
        decreases 3 * scopes_left(state.ctx_state@, state.floor) + 2, self, 1nat,
    {
        proof {
            use_type_invariant(&*log);
        }
        let ghost names = self@.bindings;
        let ghost start = writer@;
        let n = self.len();
        let mut i: usize = 0;
        assert(writer@ =~= start + Seq::<char>::empty());
        while i < n
            invariant
                i <= n,
                n == names.len(),
                names == self@.bindings,
                start == old(writer)@,
                old(log)@.is_prefix_of(log@),
                consistent(log@),
                forall|fm: FloatModel| #[trigger]
                    fm.explains(log@) ==> writer@ == start + bindings_text(
                        names,
                        i as nat,
                        style_of(state, fm),
                        state.indent_level,
                        state.floor,
                    ),
            decreases n - i,
        {
            let ghost before = writer@;
            let ghost log_before = log@;
            self.format_line(i, writer, state, floats, log);
            i += 1;
            proof {
                lemma_prefix_chain(old(log)@, log_before, log@);
                assert forall|fm: FloatModel| #[trigger] fm.explains(log@) implies writer@
                    == start + bindings_text(
                    names,
                    i as nat,
                    style_of(state, fm),
                    state.indent_level,
                    state.floor,
                ) by {
                    lemma_explains_prefix(fm, log_before, log@);
                    let style = style_of(state, fm);
                    let prior = bindings_text(
                        names,
                        (i - 1) as nat,
                        style,
                        state.indent_level,
                        state.floor,
                    );
                    let item = binding_line(names[i - 1], style, state.indent_level, state.floor);
                    assert(before == start + prior);
                    assert(writer@ == before + item);
                    assert(writer@ =~= start + (prior + item));
                }
            }
        }
    }
}

impl Block {
    /// Writes the block, as [`block_text`] says.
    #[verifier::rlimit(30)]
    pub fn format<F: FloatOps>(
        &self,
        writer: &mut String,
        state: FmtState,
        floats: &F,
        log: &mut Answers,
    )
        ensures
            old(log)@.is_prefix_of(final(log)@),
            consistent(final(log)@),
            forall|fm: FloatModel| #[trigger]
                fm.explains(final(log)@) ==> final(writer)@ == old(writer)@ + block_text(
                    Expr::Block(*self)@,
                    style_of(state, fm),
                    state.indent_level,
                    state.floor,
                ),
        decreases 3 * scopes_left(state.ctx_state@, state.floor), self, 0nat,
    {
        proof {
            use_type_invariant(&*log);
        }
        let ghost log0 = log@;
        let pretty = state.pretty();
        writer.push('{');
        write_line_break(writer, pretty);
        let ghost w1 = writer@;
        let inner = state.indented();
        let entered = state.floor <= self.ctx_idx && self.ctx_idx < state.ctx_state.len()
            && self.ctx_idx < usize::MAX;
        if entered {
            let ctx = state.ctx_state.ctx(self.ctx_idx);
            let within = FmtState {
                pretty,
                indent_level: inner.indent_level,
                floor: self.ctx_idx + 1,
                ctx_state: state.ctx_state,
            };
            ctx.format(writer, within, floats, log);
            proof {
                assert forall|fm: FloatModel| #[trigger] fm.explains(log@) implies style_of(
                    within,
                    fm,
                ) == style_of(state, fm) by {}
            }
        }
        let ghost w2 = writer@;
        let ghost log1 = log@;
        write_margin(writer, pretty, inner.indent_level);
        let ghost w3 = writer@;
        self.return_expr.format(writer, inner, floats, log);
        let ghost w4 = writer@;
        write_line_break(writer, pretty);
        write_margin(writer, pretty, state.indent_level);
        writer.push('}');
        proof {
            lemma_prefix_chain(log0, log1, log@);
            assert forall|fm: FloatModel| #[trigger] fm.explains(log@) implies writer@ == old(
                writer,
            )@ + block_text(
                Expr::Block(*self)@,
                style_of(state, fm),
                state.indent_level,
                state.floor,
            ) by {
                lemma_explains_prefix(fm, log1, log@);
                let style = style_of(state, fm);
                assert(style_of(inner, fm) == style);
                let names = bindings_at(state.ctx_state@.contexts, self.ctx_idx as int);
                let scope = if enters(style, state.floor, self.ctx_idx) {
                    bindings_text(
                        names,
                        names.len(),
                        style,
                        deeper(state.indent_level),
                        (self.ctx_idx + 1) as usize,
                    )
                } else {
                    Seq::empty()
                };
                let last = expr_text(
                    self.return_expr@,
                    style,
                    deeper(state.indent_level),
                    state.floor,
                );
                assert(w2 =~= w1 + scope);
                assert(w4 == w3 + last);
                assert(writer@ =~= old(writer)@ + (seq!['{'] + line_break(pretty) + scope + margin(
                    pretty,
                    deeper(state.indent_level),
                ) + last + line_break(pretty) + margin(pretty, state.indent_level) + seq!['}']));
            }
        }
    }
}

/// Whether `text` is the text of a tree in a session under every float
/// model that explains `log`, and there is such a model.
pub open spec fn is_tree_text(
    text: Seq<char>,
    tree: ExprView,
    session: crate::state::CtxStateView,
    pretty: bool,
    log: Seq<FloatCall>,
) -> bool {
    consistent(log) && forall|fm: FloatModel| #[trigger]
        fm.explains(log) ==> text == expr_text(tree, Style { session, pretty, fm }, 0, 0)
}

impl Expr {
    /// The text of this tree, compact or pretty, with the names and scopes
    /// of `session`: the result is what [`expr_text`] says under every
    /// float model that explains the answers that `floats` has given.
    pub fn write_formatted<F: FloatOps>(
        &self,
        pretty: bool,
        session: &crate::state::CtxState,
        floats: &F,
    ) -> (r: String)
        ensures
            exists|log: Seq<FloatCall>| is_tree_text(r@, self@, session@, pretty, log),
    {
        let mut writer = String::new();
        let mut log = Answers::new();
        let state = FmtState::new(pretty, session);
        self.format(&mut writer, state, floats, &mut log);
        proof {
            assert forall|fm: FloatModel| #[trigger] fm.explains(log@) implies writer@ == expr_text(
                self@,
                Style { session: session@, pretty, fm },
                0,
                0,
            ) by {
                assert(style_of(state, fm) == (Style { session: session@, pretty, fm }));
                assert(writer@ =~= Seq::<char>::empty() + expr_text(
                    self@,
                    Style { session: session@, pretty, fm },
                    0,
                    0,
                ));
            }
            assert(is_tree_text(writer@, self@, session@, pretty, log@));
        }
        writer
    }
}

} // verus!

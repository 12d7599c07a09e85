//! The state of a session: the arena of scopes and the table of names, and
//! the cursors that parsing, evaluation and formatting move over them.

use vstd::prelude::*;
use crate::binding::{Binding, BindingView};
use crate::context::{
    all_unevaluated, assigned, builtin_bindings, builtin_names, cached, has_key, views_of, Context,
    ContextView,
};
use crate::float::{consistent, Answers, FloatCall, FloatOps};
use crate::grammar::ParseView;
use crate::semantics::EvalView;
use crate::ident::Ident;
use crate::interner::{first_index_of, with_text, Interner};
use crate::value::Value;

verus! {

/// All scopes of a session, each at its index, and the names of the
/// session.  Scope 0 is the root scope.
pub struct CtxState {
    contexts: Vec<Context>,
    interner: Interner,
}

/// The mathematical form of a [`CtxState`].
pub struct CtxStateView {
    pub contexts: Seq<ContextView>,
    pub names: Seq<Seq<char>>,
}

/// A scope without bindings or parent.
pub open spec fn blank_context() -> ContextView {
    ContextView { parent: None, bindings: Seq::empty(), in_progress: Set::empty() }
}

/// The arena after `ctx` has been placed at `index`: the arena grows by
/// blank scopes as far as it must.
pub open spec fn placed(contexts: Seq<ContextView>, index: int, ctx: ContextView) -> Seq<ContextView> {
    if index < contexts.len() {
        contexts.update(index, ctx)
    } else {
        contexts + Seq::new((index - contexts.len()) as nat, |i: int| blank_context()) + seq![ctx]
    }
}

/// The nearest scope that binds `name`, going from scope `from` outwards.
/// A link that does not lead to a scope placed earlier ends the way.
pub open spec fn find_scope(contexts: Seq<ContextView>, from: int, name: u32) -> Option<usize>
    decreases from,
{
    if from < 0 || from >= contexts.len() {
        None
    } else if has_key(contexts[from].bindings, name) {
        Some(from as usize)
    } else {
        match contexts[from].parent {
            Some(parent) => if parent < from {
                find_scope(contexts, parent as int, name)
            } else {
                None
            },
            None => None,
        }
    }
}

/// The arena of a fresh session: the root scope alone.
pub open spec fn fresh_contexts() -> Seq<ContextView> {
    seq![ContextView { parent: None, bindings: builtin_bindings(), in_progress: Set::empty() }]
}

impl View for CtxState {
    type V = CtxStateView;

    closed spec fn view(&self) -> CtxStateView {
        CtxStateView {
            contexts: Seq::new(self.contexts@.len(), |i: int| self.contexts@[i]@),
            names: self.interner@,
        }
    }
}

impl CtxState {
    /// The state of a fresh session: the root scope, which binds the
    /// built-in functions, and their names.
    pub fn new() -> (r: CtxState)
        ensures
            r@ == (CtxStateView { contexts: fresh_contexts(), names: builtin_names() }),
    {
        let mut interner = Interner::new();
        let root = Context::root(&mut interner);
        let mut contexts: Vec<Context> = Vec::new();
        contexts.push(root);
        let r = CtxState { contexts, interner };
        assert(r@.contexts =~= fresh_contexts());
        r
    }

    /// The number of scopes.
    pub fn len(&self) -> (r: usize)
        ensures
            r == self@.contexts.len(),
    {
        self.contexts.len()
    }

    /// The scope at `ctx_idx`.
    pub fn ctx(&self, ctx_idx: usize) -> (r: &Context)
        requires
            ctx_idx < self@.contexts.len(),
        ensures
            r@ == self@.contexts[ctx_idx as int],
    {
        &self.contexts[ctx_idx]
    }

    /// Places `ctx` at `ctx_idx`, growing the arena by blank scopes as far
    /// as it must.
    pub fn place_ctx(&mut self, ctx_idx: usize, ctx: Context)
        ensures
            final(self)@ == (CtxStateView {
                contexts: placed(old(self)@.contexts, ctx_idx as int, ctx@),
                ..old(self)@
            }),
    {
        if ctx_idx < self.contexts.len() {
            self.contexts.set(ctx_idx, ctx);
            assert(self@.contexts =~= placed(old(self)@.contexts, ctx_idx as int, ctx@));
        } else {
            let ghost start = self@.contexts;
            while self.contexts.len() < ctx_idx
                invariant
                    start == old(self)@.contexts,
                    start.len() <= self.contexts.len() <= ctx_idx,
                    self.interner == old(self).interner,
                    self@.contexts.len() == self.contexts.len(),
                    forall|j: int| 0 <= j < start.len() ==> self@.contexts[j] == start[j],
                    forall|j: int|
                        start.len() <= j < self.contexts.len() ==> self@.contexts[j]
                            == blank_context(),
                decreases ctx_idx - self.contexts.len(),
            {
                let blank = Context::empty(None);
                assert(blank@ == blank_context());
                let ghost prior = self@.contexts;
                let ghost before = self.contexts@;
                self.contexts.push(blank);
                assert forall|j: int| 0 <= j < self.contexts.len() implies self@.contexts[j] == (
                if j < before.len() {
                    prior[j]
                } else {
                    blank_context()
                }) by {
                    if j < before.len() {
                        assert(self.contexts@[j] == before[j]);
                        assert(prior[j] == before[j]@);
                    } else {
                        assert(self.contexts@[j] == blank);
                    }
                }
            }
            let ghost grown = self@.contexts;
            let ghost before = self.contexts@;
            self.contexts.push(ctx);
            let ghost target = placed(old(self)@.contexts, ctx_idx as int, ctx@);
            assert(self@.contexts.len() == target.len());
            assert forall|j: int| 0 <= j < self.contexts.len() implies self@.contexts[j]
                == target[j] by {
                if j < before.len() {
                    assert(self.contexts@[j] == before[j]);
                    assert(grown[j] == before[j]@);
                } else {
                    assert(self.contexts@[j] == ctx);
                }
            }
            assert(self@.contexts =~= target);
        }
    }

    /// The nearest scope that binds `ident`, going from `current_ctx_idx`
    /// outwards.
    pub fn find_ctx_with_ident(&self, current_ctx_idx: usize, ident: &Ident) -> (r: Option<usize>)
        ensures
            r == find_scope(self@.contexts, current_ctx_idx as int, ident.0),
    {
        let mut ctx_idx = current_ctx_idx;
        loop
            invariant
                find_scope(self@.contexts, current_ctx_idx as int, ident.0) == find_scope(
                    self@.contexts,
                    ctx_idx as int,
                    ident.0,
                ),
            decreases ctx_idx,
        {
            if ctx_idx >= self.contexts.len() {
                return None;
            }
            let ctx = &self.contexts[ctx_idx];
            if ctx.contains_key(ident) {
                return Some(ctx_idx);
            }
            match ctx.parent_ctx_idx() {
                Some(parent) => {
                    if parent < ctx_idx {
                        ctx_idx = parent;
                    } else {
                        return None;
                    }
                },
                None => {
                    return None;
                },
            }
        }
    }

    /// Keeps `value` as the value of `ident` in scope `ctx_idx`, where that
    /// scope binds it.
    pub fn cache(&mut self, ctx_idx: usize, ident: &Ident, value: Value)
        ensures
            final(self)@ == (CtxStateView {
                contexts: with_bindings(
                    old(self)@.contexts,
                    ctx_idx as int,
                    cached(bindings_at(old(self)@.contexts, ctx_idx as int), ident.0, value@),
                ),
                ..old(self)@
            }),
    {
        if ctx_idx < self.contexts.len() {
            let ghost before = self.contexts@;
            let ghost prior = self@.contexts;
            self.contexts[ctx_idx].cache(ident, value);
            proof {
                let target = with_bindings(
                    prior,
                    ctx_idx as int,
                    cached(bindings_at(prior, ctx_idx as int), ident.0, value@),
                );
                assert forall|j: int| 0 <= j < self.contexts.len() implies self@.contexts[j]
                    == target[j] by {
                    assert(prior[j] == before[j]@);
                }
                assert(self@.contexts =~= target);
            }
        }
    }

    /// Marks the evaluation of `ident` in scope `ctx_idx` as under way.
    /// Returns false, and changes nothing, where it already was or where
    /// there is no such scope.
    pub fn initiate_lookup(&mut self, ctx_idx: usize, ident: &Ident) -> (r: bool)
        ensures
            r == (ctx_idx < old(self)@.contexts.len() && !old(self)@.contexts[ctx_idx as int].in_progress.contains(
                ident.0,
            )),
            final(self)@ == (CtxStateView {
                contexts: with_in_progress(
                    old(self)@.contexts,
                    ctx_idx as int,
                    in_progress_at(old(self)@.contexts, ctx_idx as int).insert(ident.0),
                ),
                ..old(self)@
            }),
    {
        if ctx_idx < self.contexts.len() {
            let ghost before = self.contexts@;
            let ghost prior = self@.contexts;
            let r = self.contexts[ctx_idx].initiate_lookup(ident);
            proof {
                let target = with_in_progress(
                    prior,
                    ctx_idx as int,
                    in_progress_at(prior, ctx_idx as int).insert(ident.0),
                );
                assert forall|j: int| 0 <= j < self.contexts.len() implies self@.contexts[j]
                    == target[j] by {
                    assert(prior[j] == before[j]@);
                }
                assert(self@.contexts =~= target);
            }
            r
        } else {
            false
        }
    }

    /// Marks the evaluation of `ident` in scope `ctx_idx` as over.
    pub fn conclude_lookup(&mut self, ctx_idx: usize, ident: &Ident)
        ensures
            final(self)@ == (CtxStateView {
                contexts: with_in_progress(
                    old(self)@.contexts,
                    ctx_idx as int,
                    in_progress_at(old(self)@.contexts, ctx_idx as int).remove(ident.0),
                ),
                ..old(self)@
            }),
    {
        if ctx_idx < self.contexts.len() {
            let ghost before = self.contexts@;
            let ghost prior = self@.contexts;
            self.contexts[ctx_idx].conclude_lookup(ident);
            proof {
                let target = with_in_progress(
                    prior,
                    ctx_idx as int,
                    in_progress_at(prior, ctx_idx as int).remove(ident.0),
                );
                assert forall|j: int| 0 <= j < self.contexts.len() implies self@.contexts[j]
                    == target[j] by {
                    assert(prior[j] == before[j]@);
                }
                assert(self@.contexts =~= target);
            }
        }
    }

    /// Gives the bindings of scope `ctx_idx`, in their order, the values of
    /// `values`, as far as those go.
    pub fn assign(&mut self, ctx_idx: usize, values: &Vec<Binding>)
        ensures
            final(self)@ == (CtxStateView {
                contexts: with_bindings(
                    old(self)@.contexts,
                    ctx_idx as int,
                    assigned(
                        bindings_at(old(self)@.contexts, ctx_idx as int),
                        views_of(values@),
                        bindings_at(old(self)@.contexts, ctx_idx as int).len(),
                    ),
                ),
                ..old(self)@
            }),
    {
        if ctx_idx < self.contexts.len() {
            let ghost before = self.contexts@;
            let ghost prior = self@.contexts;
            self.contexts[ctx_idx].assign_from_iter(values);
            proof {
                let target = with_bindings(
                    prior,
                    ctx_idx as int,
                    assigned(
                        bindings_at(prior, ctx_idx as int),
                        views_of(values@),
                        bindings_at(prior, ctx_idx as int).len(),
                    ),
                );
                assert forall|j: int| 0 <= j < self.contexts.len() implies self@.contexts[j]
                    == target[j] by {
                    assert(prior[j] == before[j]@);
                }
                assert(self@.contexts =~= target);
            }
        }
    }

    /// Binds every name of scope `ctx_idx` to the null expression.
    pub fn reset(&mut self, ctx_idx: usize)
        ensures
            final(self)@ == (CtxStateView {
                contexts: with_bindings(
                    old(self)@.contexts,
                    ctx_idx as int,
                    all_unevaluated(bindings_at(old(self)@.contexts, ctx_idx as int)),
                ),
                ..old(self)@
            }),
    {
        if ctx_idx < self.contexts.len() {
            let ghost before = self.contexts@;
            let ghost prior = self@.contexts;
            self.contexts[ctx_idx].reassign_default_expr();
            proof {
                let target = with_bindings(
                    prior,
                    ctx_idx as int,
                    all_unevaluated(bindings_at(prior, ctx_idx as int)),
                );
                assert forall|j: int| 0 <= j < self.contexts.len() implies self@.contexts[j]
                    == target[j] by {
                    assert(prior[j] == before[j]@);
                }
                assert(self@.contexts =~= target);
            }
        }
    }

    /// A copy of the binding of `ident` in scope `ctx_idx`, if there is one.
    pub fn binding(&self, ctx_idx: usize, ident: &Ident) -> (r: Option<Binding>)
        ensures
            match r {
                Some(b) => Some(b@) == binding_of(self@.contexts, ctx_idx as int, ident.0),
                None => binding_of(self@.contexts, ctx_idx as int, ident.0) is None,
            },
    {
        if ctx_idx < self.contexts.len() {
            match self.contexts[ctx_idx].get(ident) {
                Some(b) => Some(b.duplicate()),
                None => None,
            }
        } else {
            None
        }
    }

    /// The number of bindings of scope `ctx_idx`; zero where there is no
    /// such scope.
    pub fn scope_len(&self, ctx_idx: usize) -> (r: usize)
        ensures
            r == bindings_at(self@.contexts, ctx_idx as int).len(),
    {
        if ctx_idx < self.contexts.len() {
            self.contexts[ctx_idx].len()
        } else {
            0
        }
    }

    /// The number of names of the session.
    pub fn names_len(&self) -> (r: usize)
        ensures
            r == self@.names.len(),
    {
        self.interner.len()
    }

    /// The symbol of a name: the one it has, or a new one.
    pub fn intern(&mut self, text: &str) -> (r: u32)
        requires
            old(self)@.names.len() < u32::MAX,
        ensures
            r == first_index_of(old(self)@.names, text@, 0),
            final(self)@ == (CtxStateView { names: with_text(old(self)@.names, text@), ..old(self)@ }),
    {
        let r = self.interner.get_or_intern(text);
        assert(self@.contexts =~= old(self)@.contexts);
        r
    }

    /// The text of a symbol of the session.
    pub fn resolve(&self, symbol: u32) -> (r: Option<String>)
        ensures
            r is Some <==> symbol < self@.names.len(),
            r is Some ==> r->0@ == self@.names[symbol as int],
    {
        self.interner.resolve(symbol)
    }
}

/// The bindings of scope `index`; none where there is no such scope.
pub open spec fn bindings_at(contexts: Seq<ContextView>, index: int) -> Seq<(u32, BindingView)> {
    if 0 <= index < contexts.len() {
        contexts[index].bindings
    } else {
        Seq::empty()
    }
}

/// The names of scope `index` whose evaluation is under way.
pub open spec fn in_progress_at(contexts: Seq<ContextView>, index: int) -> Set<u32> {
    if 0 <= index < contexts.len() {
        contexts[index].in_progress
    } else {
        Set::empty()
    }
}

/// The arena with the bindings of scope `index` replaced; unchanged where
/// there is no such scope.
pub open spec fn with_bindings(
    contexts: Seq<ContextView>,
    index: int,
    bindings: Seq<(u32, BindingView)>,
) -> Seq<ContextView> {
    if 0 <= index < contexts.len() {
        contexts.update(index, ContextView { bindings, ..contexts[index] })
    } else {
        contexts
    }
}

/// The arena with the names under way of scope `index` replaced; unchanged
/// where there is no such scope.
pub open spec fn with_in_progress(
    contexts: Seq<ContextView>,
    index: int,
    in_progress: Set<u32>,
) -> Seq<ContextView> {
    if 0 <= index < contexts.len() {
        contexts.update(index, ContextView { in_progress, ..contexts[index] })
    } else {
        contexts
    }
}

/// The binding of `name` in scope `index`, if there is one.
pub open spec fn binding_of(contexts: Seq<ContextView>, index: int, name: u32) -> Option<BindingView> {
    if 0 <= index < contexts.len() && has_key(contexts[index].bindings, name) {
        Some(contexts[index].bindings[crate::context::key_index(contexts[index].bindings, name, 0)].1)
    } else {
        None
    }
}

/// The scope that a search finds is a scope of the arena, and binds the
/// name.
pub proof fn lemma_find_scope(contexts: Seq<ContextView>, from: int, name: u32)
    requires
        from <= usize::MAX,
    ensures
        find_scope(contexts, from, name) matches Some(scope) ==> scope < contexts.len() && scope
            <= from && has_key(contexts[scope as int].bindings, name),
    decreases from,
{
    if 0 <= from < contexts.len() && !has_key(contexts[from].bindings, name) {
        match contexts[from].parent {
            Some(parent) => {
                if parent < from {
                    lemma_find_scope(contexts, parent as int, name);
                }
            },
            None => {},
        }
    }
}

/// The texts of a sequence of strings.
pub open spec fn lines_view(lines: Seq<String>) -> Seq<Seq<char>> {
    Seq::new(lines.len(), |i: int| lines[i]@)
}

/// The state of an evaluation: the scopes, the scope in which names are
/// looked up, the lines that `debug` has emitted, the floating-point
/// operations to call on, and the answers that they have given.
pub struct EvalState<'f, F: FloatOps> {
    pub active_ctx_idx: usize,
    pub ctx_state: CtxState,
    pub emitted: Vec<String>,
    pub floats: &'f F,
    pub float_log: Answers,
}

/// The view holds what the semantics speaks of: the scopes, the names, the
/// active scope and the emitted lines.  The answers of the floating-point
/// operations are no part of it; contracts speak of them by their field.
impl<'f, F: FloatOps> View for EvalState<'f, F> {
    type V = EvalView;

    open spec fn view(&self) -> EvalView {
        EvalView {
            contexts: self.ctx_state@.contexts,
            names: self.ctx_state@.names,
            active: self.active_ctx_idx,
            emitted: lines_view(self.emitted@),
        }
    }
}

impl<'f, F: FloatOps> EvalState<'f, F> {
    /// The state at the start of an evaluation: the root scope is active,
    /// nothing has been emitted, no float has been asked for.
    pub fn new(ctx_state: CtxState, floats: &'f F) -> (r: Self)
        ensures
            r@ == (EvalView {
                contexts: ctx_state@.contexts,
                names: ctx_state@.names,
                active: 0,
                emitted: Seq::empty(),
            }),
            r.ctx_state == ctx_state,
            r.float_log@ == Seq::<FloatCall>::empty(),
            consistent(r.float_log@),
    {
        let r = EvalState {
            active_ctx_idx: 0,
            ctx_state,
            emitted: Vec::new(),
            floats,
            float_log: Answers::new(),
        };
        assert(r@.emitted =~= Seq::empty());
        r
    }

    /// The active scope.
    pub fn active_ctx_idx(&self) -> (r: usize)
        ensures
            r == self@.active,
    {
        self.active_ctx_idx
    }

    /// Makes `ctx_idx` the active scope.
    pub fn set_active_ctx(&mut self, ctx_idx: usize)
        ensures
            final(self)@ == old(self)@.activate(ctx_idx),
            final(self).float_log == old(self).float_log,
            final(self).floats == old(self).floats,
    {
        self.active_ctx_idx = ctx_idx;
    }

    /// The nearest scope that binds `ident`, going from the active scope
    /// outwards.
    pub fn find_ctx_with_ident(&self, ident: &Ident) -> (r: Option<usize>)
        ensures
            r == find_scope(self@.contexts, self@.active as int, ident.0),
    {
        self.ctx_state.find_ctx_with_ident(self.active_ctx_idx, ident)
    }
}

/// The state of a parse: the session, the scope that new scopes get as
/// their parent, and the next free index.
pub struct ParseState {
    pub active_ctx_idx: usize,
    pub avail_ctx_idx: usize,
    pub ctx_state: CtxState,
}

impl View for ParseState {
    type V = ParseView;

    open spec fn view(&self) -> ParseView {
        ParseView {
            contexts: self.ctx_state@.contexts,
            names: self.ctx_state@.names,
            active: self.active_ctx_idx,
            avail: self.avail_ctx_idx,
        }
    }
}

impl ParseState {
    /// The state at the start of a parse: the last scope of the session is
    /// active, and the next index is free.
    pub fn new(ctx_state: CtxState) -> (r: ParseState)
        requires
            ctx_state@.contexts.len() > 0,
        ensures
            r.ctx_state == ctx_state,
            r.active_ctx_idx == ctx_state@.contexts.len() - 1,
            r.avail_ctx_idx == ctx_state@.contexts.len(),
    {
        let ctx_state_len = ctx_state.len();
        ParseState { active_ctx_idx: ctx_state_len - 1, avail_ctx_idx: ctx_state_len, ctx_state }
    }

    /// The active scope.
    pub fn active_ctx_idx(&self) -> (r: usize)
        ensures
            r == self.active_ctx_idx,
    {
        self.active_ctx_idx
    }

    /// Makes `ctx_idx` the active scope.
    pub fn set_active_ctx(&mut self, ctx_idx: usize)
        ensures
            *final(self) == (ParseState { active_ctx_idx: ctx_idx, ..*old(self) }),
    {
        self.active_ctx_idx = ctx_idx;
    }

    /// The next free index.
    pub fn avail_ctx_idx(&self) -> (r: usize)
        ensures
            r == self.avail_ctx_idx,
    {
        self.avail_ctx_idx
    }

    /// Takes the next free index.
    pub fn increment_avail_ctx_idx(&mut self)
        requires
            old(self).avail_ctx_idx < usize::MAX,
        ensures
            *final(self) == (ParseState {
                avail_ctx_idx: (old(self).avail_ctx_idx + 1) as usize,
                ..*old(self)
            }),
    {
        self.avail_ctx_idx += 1;
    }

    /// Gives the last index back; nothing where none was taken.
    pub fn decrement_avail_ctx_idx(&mut self)
        ensures
            *final(self) == (ParseState {
                avail_ctx_idx: if old(self).avail_ctx_idx > 0 {
                    (old(self).avail_ctx_idx - 1) as usize
                } else {
                    0
                },
                ..*old(self)
            }),
    {
        if self.avail_ctx_idx > 0 {
            self.avail_ctx_idx -= 1;
        }
    }
}

/// How a tree is being formatted: the form, the indentation, the session
/// whose names and scopes are written, and the index from which on blocks
/// write the bindings of scopes.
#[derive(Clone, Copy)]
pub struct FmtState<'ctx> {
    pub pretty: bool,
    pub indent_level: usize,
    pub floor: usize,
    pub ctx_state: &'ctx CtxState,
}

impl<'ctx> FmtState<'ctx> {
    /// The state for formatting a whole tree.
    pub fn new(pretty: bool, ctx_state: &'ctx CtxState) -> (r: Self)
        ensures
            r.pretty == pretty,
            r.indent_level == 0,
            r.floor == 0,
            r.ctx_state == ctx_state,
    {
        FmtState { pretty, indent_level: 0, floor: 0, ctx_state }
    }

    /// The state one level deeper.
    pub fn indented(&self) -> (r: Self)
        ensures
            r == (FmtState { indent_level: crate::value::deeper(self.indent_level), ..*self }),
    {
        FmtState {
            pretty: self.pretty,
            indent_level: crate::value::next_level(self.indent_level),
            floor: self.floor,
            ctx_state: self.ctx_state,
        }
    }

    /// Whether the pretty form is written.
    pub fn pretty(&self) -> (r: bool)
        ensures
            r == self.pretty,
    {
        self.pretty
    }

    /// The indentation.
    pub fn indent_level(&self) -> (r: usize)
        ensures
            r == self.indent_level,
    {
        self.indent_level
    }

    /// The text of a name; none for a symbol that the session does not
    /// know.
    pub fn resolve_ident(&self, ident: &Ident) -> (r: Option<String>)
        ensures
            r is Some <==> ident.0 < self.ctx_state@.names.len(),
            r is Some ==> r->0@ == self.ctx_state@.names[ident.0 as int],
    {
        self.ctx_state.resolve(ident.0)
    }
}

} // verus!

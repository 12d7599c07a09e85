//! Scopes: the bindings of the names that one construct introduces, in the
//! order in which they were written, with a link to the enclosing scope.

use vstd::prelude::*;
use std::collections::hash_map::RandomState;
use std::collections::HashSet;
use indexmap::IndexMap;
use crate::binding::{Binding, BindingView};
use crate::expr::{BuiltIn, Expr, ExprView, Fn};
use crate::ident::Ident;
use crate::interner::{first_index_of, Interner};
use crate::value::Value;

verus! {

broadcast use vstd::std_specs::hash::group_hash_axioms;

/// `indexmap::IndexMap`: a hash map that keeps its entries in the order in
/// which their keys were first inserted.
#[verifier::external_type_specification]
#[verifier::external_body]
#[verifier::reject_recursive_types(K)]
#[verifier::reject_recursive_types(V)]
#[verifier::reject_recursive_types(S)]
pub struct ExIndexMap<K, V, S>(IndexMap<K, V, S>);

/// The entries of an `IndexMap`, in its order.
pub uninterp spec fn entries_of(map: IndexMap<u32, Binding, RandomState>) -> Seq<(u32, Binding)>;

/// The index of the first entry at or after `from` whose key is `key`, or
/// the number of entries where there is none.
pub open spec fn key_index<V>(entries: Seq<(u32, V)>, key: u32, from: int) -> int
    decreases entries.len() - from,
{
    if from < 0 || from >= entries.len() {
        entries.len() as int
    } else if entries[from].0 == key {
        from
    } else {
        key_index(entries, key, from + 1)
    }
}

/// Whether `entries` holds an entry for `key`.
pub open spec fn has_key<V>(entries: Seq<(u32, V)>, key: u32) -> bool {
    key_index(entries, key, 0) < entries.len()
}

/// The entries after `key` has been given `value`: the entry of `key` keeps
/// its place and gets the value, and a new key goes to the end.
pub open spec fn with_binding<V>(entries: Seq<(u32, V)>, key: u32, value: V) -> Seq<(u32, V)> {
    let i = key_index(entries, key, 0);
    if i < entries.len() {
        entries.update(i, (key, value))
    } else {
        entries.push((key, value))
    }
}

/// `IndexMap::new` makes an empty map.
#[verifier::external_body]
fn map_new() -> (r: IndexMap<u32, Binding, RandomState>)
    ensures
        entries_of(r) == Seq::<(u32, Binding)>::empty(),
{
    IndexMap::new()
}

/// `IndexMap::len` counts the entries.
#[verifier::external_body]
fn map_len(map: &IndexMap<u32, Binding, RandomState>) -> (r: usize)
    ensures
        r == entries_of(*map).len(),
{
    map.len()
}

/// `IndexMap::insert` gives a key a value: a key of the map keeps its place,
/// a new one goes last.
#[verifier::external_body]
fn map_insert(map: &mut IndexMap<u32, Binding, RandomState>, key: u32, value: Binding)
    ensures
        entries_of(*final(map)) == with_binding(entries_of(*old(map)), key, value),
{
    map.insert(key, value);
}

/// `IndexMap::get` gives the value of a key of the map, and nothing for any
/// other key.
#[verifier::external_body]
fn map_get(map: &IndexMap<u32, Binding, RandomState>, key: u32) -> (r: Option<&Binding>)
    ensures
        r is Some <==> has_key(entries_of(*map), key),
        r is Some ==> *r->0 == entries_of(*map)[key_index(entries_of(*map), key, 0)].1,
{
    map.get(&key)
}

/// `IndexMap::get_index` gives the entry at a place below the length, and
/// nothing for any other place.
#[verifier::external_body]
fn map_get_index(map: &IndexMap<u32, Binding, RandomState>, index: usize) -> (r: Option<
    (u32, &Binding),
>)
    ensures
        r is Some <==> index < entries_of(*map).len(),
        r is Some ==> r.unwrap().0 == entries_of(*map)[index as int].0 && *r.unwrap().1 == entries_of(
            *map,
        )[index as int].1,
{
    match map.get_index(index) {
        Some((key, value)) => Some((*key, value)),
        None => None,
    }
}

/// `IndexMap::get_index_mut` gives access to the value at a place below the
/// length, which is then replaced; at any other place nothing changes.
#[verifier::external_body]
fn map_set_index(map: &mut IndexMap<u32, Binding, RandomState>, index: usize, value: Binding)
    ensures
        entries_of(*final(map)) == (if index < entries_of(*old(map)).len() {
            entries_of(*old(map)).update(
                index as int,
                (entries_of(*old(map))[index as int].0, value),
            )
        } else {
            entries_of(*old(map))
        }),
{
    match map.get_index_mut(index) {
        Some((_, slot)) => {
            *slot = value;
        },
        None => {},
    }
}

/// A scope.
pub struct Context {
    parent_ctx_idx: Option<usize>,
    bindings: IndexMap<u32, Binding, RandomState>,
    lookup_stack: HashSet<u32>,
}

/// The mathematical form of a [`Context`]: the enclosing scope, the bindings
/// in their order, and the names whose evaluation is under way.
pub struct ContextView {
    pub parent: Option<usize>,
    pub bindings: Seq<(u32, BindingView)>,
    pub in_progress: Set<u32>,
}

/// The views of a sequence of bindings.
pub open spec fn bindings_view(entries: Seq<(u32, Binding)>) -> Seq<(u32, BindingView)> {
    Seq::new(entries.len(), |i: int| (entries[i].0, entries[i].1@))
}

/// The bindings that a sequence of pairs gives when each pair is bound in
/// turn.
pub open spec fn bound_in_turn(pairs: Seq<(u32, BindingView)>, count: nat) -> Seq<(u32, BindingView)>
    decreases count,
{
    if count == 0 || count > pairs.len() {
        Seq::empty()
    } else {
        with_binding(bound_in_turn(pairs, (count - 1) as nat), pairs[count - 1].0, pairs[count - 1].1)
    }
}

/// The bindings after the first `count` of them have been given the values
/// of `values`, as far as those go.
pub open spec fn assigned(
    bindings: Seq<(u32, BindingView)>,
    values: Seq<BindingView>,
    count: nat,
) -> Seq<(u32, BindingView)>
    decreases count,
{
    if count == 0 {
        bindings
    } else {
        let before = assigned(bindings, values, (count - 1) as nat);
        if count <= bindings.len() && count <= values.len() {
            before.update(count - 1, (bindings[count - 1].0, values[count - 1]))
        } else {
            before
        }
    }
}

/// The bindings with every name bound to the null expression.
pub open spec fn all_unevaluated(bindings: Seq<(u32, BindingView)>) -> Seq<(u32, BindingView)> {
    Seq::new(bindings.len(), |i: int| (bindings[i].0, BindingView::Expr(ExprView::Null)))
}

/// The names of the functions that every program can call, in the order of
/// their symbols.
pub open spec fn builtin_names() -> Seq<Seq<char>> {
    seq![
        seq!['d', 'e', 'b', 'u', 'g'],
        seq!['t', 'y', 'p', 'e', '_', 'o', 'f'],
        seq!['l', 'e', 'n', 'g', 't', 'h'],
        seq!['t', 'o', '_', 's', 't', 'r'],
        seq!['c', 'o', 'n', 'c', 'a', 't'],
        seq!['p', 'u', 's', 'h'],
        seq!['i', 'n', 's', 'e', 'r', 't'],
    ]
}

/// The bindings of the root scope of a fresh session.
pub open spec fn builtin_bindings() -> Seq<(u32, BindingView)> {
    seq![
        (0u32, BindingView::Expr(ExprView::BuiltIn(BuiltIn::Debug))),
        (1u32, BindingView::Expr(ExprView::BuiltIn(BuiltIn::TypeOf))),
        (2u32, BindingView::Expr(ExprView::BuiltIn(BuiltIn::Length))),
        (3u32, BindingView::Expr(ExprView::BuiltIn(BuiltIn::ToStr))),
        (4u32, BindingView::Expr(ExprView::BuiltIn(BuiltIn::Concat))),
        (5u32, BindingView::Expr(ExprView::BuiltIn(BuiltIn::Push))),
        (6u32, BindingView::Expr(ExprView::BuiltIn(BuiltIn::Insert))),
    ]
}

impl View for Context {
    type V = ContextView;

    closed spec fn view(&self) -> ContextView {
        ContextView {
            parent: self.parent_ctx_idx,
            bindings: bindings_view(entries_of(self.bindings)),
            in_progress: self.lookup_stack@,
        }
    }
}

proof fn lemma_key_index_view(entries: Seq<(u32, Binding)>, key: u32, from: int)
    ensures
        key_index(bindings_view(entries), key, from) == key_index(entries, key, from),
    decreases entries.len() - from,
{
    if 0 <= from < entries.len() && entries[from].0 != key {
        lemma_key_index_view(entries, key, from + 1);
    }
}

pub proof fn lemma_key_index_bounds<V>(entries: Seq<(u32, V)>, key: u32, from: int)
    requires
        0 <= from,
    ensures
        from <= key_index(entries, key, from) || entries.len() <= from,
        key_index(entries, key, from) <= entries.len(),
        key_index(entries, key, from) < entries.len() ==> entries[key_index(
            entries,
            key,
            from,
        )].0 == key,
    decreases entries.len() - from,
{
    if from < entries.len() && entries[from].0 != key {
        lemma_key_index_bounds(entries, key, from + 1);
    }
}

impl Context {
    /// A scope without bindings.
    pub fn empty(parent_ctx_idx: Option<usize>) -> (r: Context)
        ensures
            r@ == (ContextView { parent: parent_ctx_idx, bindings: Seq::empty(), in_progress: Set::empty() }),
    {
        let r = Context { parent_ctx_idx, bindings: map_new(), lookup_stack: HashSet::new() };
        assert(r@.bindings =~= Seq::empty());
        r
    }

    /// The enclosing scope.
    pub fn parent_ctx_idx(&self) -> (r: Option<usize>)
        ensures
            r == self@.parent,
    {
        self.parent_ctx_idx
    }

    /// The number of bindings.
    pub fn len(&self) -> (r: usize)
        ensures
            r == self@.bindings.len(),
    {
        map_len(&self.bindings)
    }

    /// Whether the scope binds `ident`.
    pub fn contains_key(&self, ident: &Ident) -> (r: bool)
        ensures
            r == has_key(self@.bindings, ident.0),
    {
        proof {
            lemma_key_index_view(entries_of(self.bindings), ident.0, 0);
        }
        map_get(&self.bindings, ident.0).is_some()
    }

    /// The binding of `ident`, if the scope binds it.
    pub fn get(&self, ident: &Ident) -> (r: Option<&Binding>)
        ensures
            r is Some <==> has_key(self@.bindings, ident.0),
            r is Some ==> r->0@ == self@.bindings[key_index(self@.bindings, ident.0, 0)].1,
    {
        proof {
            lemma_key_index_view(entries_of(self.bindings), ident.0, 0);
            lemma_key_index_bounds(entries_of(self.bindings), ident.0, 0);
        }
        map_get(&self.bindings, ident.0)
    }

    /// The name at a place of the scope, if there is one.
    pub fn key_at(&self, index: usize) -> (r: Option<Ident>)
        ensures
            r is Some <==> index < self@.bindings.len(),
            r is Some ==> r.unwrap().to_symbol() == self@.bindings[index as int].0,
    {
        match map_get_index(&self.bindings, index) {
            Some((key, _)) => Some(Ident(key)),
            None => None,
        }
    }

    /// The binding at a place of the scope, if there is one.
    pub fn binding_at(&self, index: usize) -> (r: Option<&Binding>)
        ensures
            r is Some <==> index < self@.bindings.len(),
            r is Some ==> r->0@ == self@.bindings[index as int].1,
    {
        match map_get_index(&self.bindings, index) {
            Some((_, binding)) => Some(binding),
            None => None,
        }
    }

    /// Binds `ident` to `binding`: a name of the scope keeps its place, a new
    /// one goes last.
    pub fn bind(&mut self, ident: Ident, binding: Binding)
        ensures
            final(self)@ == (ContextView {
                bindings: with_binding(old(self)@.bindings, ident.0, binding@),
                ..old(self)@
            }),
    {
        proof {
            lemma_key_index_view(entries_of(self.bindings), ident.0, 0);
            lemma_key_index_bounds(entries_of(self.bindings), ident.0, 0);
        }
        map_insert(&mut self.bindings, ident.0, binding);
        assert(self@.bindings =~= with_binding(old(self)@.bindings, ident.0, binding@));
    }

    /// A scope that binds each pair in turn.
    pub fn from_iter(parent_ctx_idx: Option<usize>, iter: Vec<(Ident, Binding)>) -> (r: Context)
        ensures
            r@ == (ContextView {
                parent: parent_ctx_idx,
                bindings: bound_in_turn(pairs_view(iter@), iter@.len()),
                in_progress: Set::empty(),
            }),
    {
        let mut ctx = Context::empty(parent_ctx_idx);
        let mut i: usize = 0;
        while i < iter.len()
            invariant
                i <= iter.len(),
                ctx@ == (ContextView {
                    parent: parent_ctx_idx,
                    bindings: bound_in_turn(pairs_view(iter@), i as nat),
                    in_progress: Set::empty(),
                }),
            decreases iter.len() - i,
        {
            let binding = iter[i].1.duplicate();
            ctx.bind(iter[i].0, binding);
            i += 1;
        }
        ctx
    }

    /// Gives the bindings, in their order, the values of `iter`, as far as
    /// those go.
    pub fn assign_from_iter(&mut self, iter: &Vec<Binding>)
        ensures
            final(self)@ == (ContextView {
                bindings: assigned(
                    old(self)@.bindings,
                    views_of(iter@),
                    old(self)@.bindings.len(),
                ),
                ..old(self)@
            }),
    {
        let n = map_len(&self.bindings);
        let ghost start = self@.bindings;
        let mut i: usize = 0;
        while i < n
            invariant
                i <= n,
                n == start.len(),
                start == old(self)@.bindings,
                self@.bindings.len() == n,
                forall|j: int| 0 <= j < n ==> (#[trigger] self@.bindings[j]).0 == start[j].0,
                self@ == (ContextView {
                    bindings: assigned(start, views_of(iter@), i as nat),
                    ..old(self)@
                }),
            decreases n - i,
        {
            if i < iter.len() {
                let value = iter[i].duplicate();
                let ghost before = self@.bindings;
                assert(before[i as int].0 == start[i as int].0);
                assert(entries_of(self.bindings)[i as int].0 == before[i as int].0);
                map_set_index(&mut self.bindings, i, value);
                assert(self@.bindings =~= before.update(i as int, (start[i as int].0, value@)));
            }
            i += 1;
        }
    }

    /// Binds every name of the scope to the null expression.
    pub fn reassign_default_expr(&mut self)
        ensures
            final(self)@ == (ContextView {
                bindings: all_unevaluated(old(self)@.bindings),
                ..old(self)@
            }),
    {
        let n = map_len(&self.bindings);
        let ghost start = self@.bindings;
        let mut i: usize = 0;
        while i < n
            invariant
                i <= n,
                n == start.len(),
                start == old(self)@.bindings,
                self@.parent == old(self)@.parent,
                self@.in_progress == old(self)@.in_progress,
                self@.bindings.len() == n,
                forall|j: int| 0 <= j < i ==> self@.bindings[j] == all_unevaluated(start)[j],
                forall|j: int| i <= j < n ==> self@.bindings[j] == start[j],
            decreases n - i,
        {
            let ghost before = self@.bindings;
            map_set_index(&mut self.bindings, i, Binding::default());
            assert(self@.bindings =~= before.update(
                i as int,
                (start[i as int].0, BindingView::Expr(ExprView::Null)),
            ));
            i += 1;
        }
        assert(self@.bindings =~= all_unevaluated(start));
    }

    /// Marks the evaluation of `ident` as under way.  Returns false, and
    /// changes nothing, where it already was.
    pub fn initiate_lookup(&mut self, ident: &Ident) -> (r: bool)
        ensures
            r == !old(self)@.in_progress.contains(ident.0),
            final(self)@ == (ContextView {
                in_progress: old(self)@.in_progress.insert(ident.0),
                ..old(self)@
            }),
    {
        let r = self.lookup_stack.insert(ident.0);
        proof {
            if !r {
                assert(old(self)@.in_progress.insert(ident.0) =~= old(self)@.in_progress);
            }
        }
        r
    }

    /// Marks the evaluation of `ident` as over.
    pub fn conclude_lookup(&mut self, ident: &Ident)
        ensures
            final(self)@ == (ContextView {
                in_progress: old(self)@.in_progress.remove(ident.0),
                ..old(self)@
            }),
    {
        let key = ident.0;
        self.lookup_stack.remove(&key);
        assert(self@.in_progress =~= old(self)@.in_progress.remove(ident.0));
    }

    /// Keeps `value` as the value of `ident`, where the scope binds it.
    pub fn cache(&mut self, ident: &Ident, value: Value)
        ensures
            final(self)@ == (ContextView {
                bindings: cached(old(self)@.bindings, ident.0, value@),
                ..old(self)@
            }),
    {
        if self.contains_key(ident) {
            self.bind(*ident, Binding::Cached(value));
        }
    }

    /// The root scope: it binds the name of each built-in function, interned
    /// in `interner`, to that function.
    pub fn root(interner: &mut Interner) -> (r: Context)
        requires
            old(interner)@.len() == 0,
        ensures
            final(interner)@ == builtin_names(),
            r@ == (ContextView { parent: None, bindings: builtin_bindings(), in_progress: Set::empty() }),
    {
        let mut ctx = Context::empty(None);
        proof {
            reveal_strlit("debug");
            reveal_strlit("type_of");
            reveal_strlit("length");
            reveal_strlit("to_str");
            reveal_strlit("concat");
            reveal_strlit("push");
            reveal_strlit("insert");
        }
        let s0 = interner.get_or_intern("debug");
        proof {
            reveal_with_fuel(first_index_of, 8);
            reveal_with_fuel(key_index, 8);
        }
        assert("debug"@ =~= seq!['d', 'e', 'b', 'u', 'g']);
        assert(interner@ =~= seq![seq!['d', 'e', 'b', 'u', 'g']]);
        ctx.bind(Ident(s0), Binding::Expr(Expr::Fn(Fn::BuiltIn(BuiltIn::Debug))));
        let s1 = interner.get_or_intern("type_of");
        assert("type_of"@ =~= seq!['t', 'y', 'p', 'e', '_', 'o', 'f']);
        assert(interner@ =~= builtin_names().take(2));
        ctx.bind(Ident(s1), Binding::Expr(Expr::Fn(Fn::BuiltIn(BuiltIn::TypeOf))));
        let s2 = interner.get_or_intern("length");
        assert("length"@ =~= seq!['l', 'e', 'n', 'g', 't', 'h']);
        assert(interner@ =~= builtin_names().take(3));
        ctx.bind(Ident(s2), Binding::Expr(Expr::Fn(Fn::BuiltIn(BuiltIn::Length))));
        let s3 = interner.get_or_intern("to_str");
        assert("to_str"@ =~= seq!['t', 'o', '_', 's', 't', 'r']);
        assert(interner@ =~= builtin_names().take(4));
        ctx.bind(Ident(s3), Binding::Expr(Expr::Fn(Fn::BuiltIn(BuiltIn::ToStr))));
        let s4 = interner.get_or_intern("concat");
        assert("concat"@ =~= seq!['c', 'o', 'n', 'c', 'a', 't']);
        assert(interner@ =~= builtin_names().take(5));
        ctx.bind(Ident(s4), Binding::Expr(Expr::Fn(Fn::BuiltIn(BuiltIn::Concat))));
        let s5 = interner.get_or_intern("push");
        assert("push"@ =~= seq!['p', 'u', 's', 'h']);
        assert(interner@ =~= builtin_names().take(6));
        ctx.bind(Ident(s5), Binding::Expr(Expr::Fn(Fn::BuiltIn(BuiltIn::Push))));
        let s6 = interner.get_or_intern("insert");
        assert("insert"@ =~= seq!['i', 'n', 's', 'e', 'r', 't']);
        assert(interner@ =~= builtin_names());
        ctx.bind(Ident(s6), Binding::Expr(Expr::Fn(Fn::BuiltIn(BuiltIn::Insert))));
        assert(ctx@.bindings =~= builtin_bindings());
        ctx
    }
}

/// The bindings after `value` has been kept for `key`: unchanged where no
/// binding has that key.
pub open spec fn cached(
    bindings: Seq<(u32, BindingView)>,
    key: u32,
    value: crate::value::ValueView,
) -> Seq<(u32, BindingView)> {
    if has_key(bindings, key) {
        with_binding(bindings, key, BindingView::Cached(value))
    } else {
        bindings
    }
}

/// The mathematical forms of a sequence of named bindings.
pub open spec fn pairs_view(pairs: Seq<(Ident, Binding)>) -> Seq<(u32, BindingView)> {
    Seq::new(pairs.len(), |i: int| (pairs[i].0.to_symbol(), pairs[i].1@))
}

/// The mathematical forms of a sequence of bindings.
pub open spec fn views_of(bindings: Seq<Binding>) -> Seq<BindingView> {
    Seq::new(bindings.len(), |i: int| bindings[i]@)
}

} // verus!

//! The syntax tree.

use vstd::prelude::*;
use crate::ident::Ident;
use crate::infix;
use crate::prefix;

verus! {

/// The functions that every program can call.
#[derive(Debug, Clone, Copy, PartialEq, Eq, Structural)]
pub enum BuiltIn {
    Debug,
    TypeOf,
    Length,
    ToStr,
    Concat,
    Push,
    Insert,
}

/// An expression.  A float holds its literal as written; a mapping holds its
/// entries in the strictly ascending order of their keys, so that no key
/// comes twice: [`Expr::wf`] says so of a tree and of every tree in it, and
/// it holds of every tree that is parsed.
#[derive(Debug)]
pub enum Expr {
    Null,
    Str(String),
    Int(i64),
    Float(String),
    Bool(bool),
    List(Vec<Expr>),
    Mapping(Vec<(String, Expr)>),
    Ident(Ident),
    Index(Index),
    InfixOp(InfixOp),
    PrefixOp(PrefixOp),
    Block(Block),
    IfElse(IfElse),
    ForEach(ForEach),
    Fn(Fn),
    FnCall(FnCall),
}

/// Access to an element or a range of a named collection.
#[derive(Debug)]
pub struct Index {
    pub base: Ident,
    pub indices: Vec<IndexType>,
}

/// One bracket of an index expression.
#[derive(Debug)]
pub enum IndexType {
    Single(Expr),
    Range(RangeBounds),
}

/// The bounds of a range.
#[derive(Debug)]
pub enum RangeBounds {
    StartingFrom(Expr),
    EndingAt(Expr),
    FromTo(Expr, Expr),
}

/// A binary operation; `parenthesized` records how it was written.
#[derive(Debug)]
pub struct InfixOp {
    pub lhs: Box<Expr>,
    pub op: infix::Op,
    pub rhs: Box<Expr>,
    pub parenthesized: bool,
}

/// A unary operation.
#[derive(Debug)]
pub struct PrefixOp {
    pub op: prefix::Op,
    pub operand: Box<Expr>,
}

/// A block: the scope of its assignments, and its final expression.
#[derive(Debug)]
pub struct Block {
    pub ctx_idx: usize,
    pub return_expr: Box<Expr>,
}

/// A conditional.
#[derive(Debug)]
pub struct IfElse {
    pub if_expr: Box<Expr>,
    pub then_expr: Box<Expr>,
    pub else_expr: Box<Expr>,
}

/// An iteration over a named list or mapping; its scope holds the two loop
/// variables.
#[derive(Debug)]
pub struct ForEach {
    pub base: Ident,
    pub ctx_idx: usize,
    pub body: Box<Expr>,
}

/// A function.
#[derive(Debug)]
pub enum Fn {
    Defined(Defined),
    BuiltIn(BuiltIn),
}

/// A function written in the program; its scope holds the parameters.
#[derive(Debug)]
pub struct Defined {
    pub ctx_idx: usize,
    pub body: Box<Expr>,
}

/// A call of a named function.
#[derive(Debug)]
pub struct FnCall {
    pub name: Ident,
    pub args: Vec<Expr>,
}

/// The mathematical tree that an [`Expr`] stands for.
pub enum ExprView {
    Null,
    Str(Seq<char>),
    Int(i64),
    Float(Seq<char>),
    Bool(bool),
    List(Seq<ExprView>),
    Mapping(Seq<(Seq<char>, ExprView)>),
    Ident(u32),
    Index { base: u32, indices: Seq<IndexView> },
    Infix { lhs: Box<ExprView>, op: infix::Op, rhs: Box<ExprView>, parenthesized: bool },
    Prefix { unary: prefix::Op, operand: Box<ExprView> },
    Block { ctx_idx: usize, result: Box<ExprView> },
    IfElse { condition: Box<ExprView>, then: Box<ExprView>, otherwise: Box<ExprView> },
    ForEach { base: u32, ctx_idx: usize, body: Box<ExprView> },
    Defined { ctx_idx: usize, body: Box<ExprView> },
    BuiltIn(BuiltIn),
    Call { name: u32, args: Seq<ExprView> },
}

/// The mathematical form of one bracket of an index expression.
pub enum IndexView {
    Single(ExprView),
    From(ExprView),
    To(ExprView),
    FromTo(ExprView, ExprView),
}

impl IndexType {
    /// The bracket that this bracket stands for.
    pub open spec fn model(self) -> IndexView
        decreases self,
    {
        match self {
            IndexType::Single(e) => IndexView::Single(e.model()),
            IndexType::Range(RangeBounds::StartingFrom(e)) => IndexView::From(e.model()),
            IndexType::Range(RangeBounds::EndingAt(e)) => IndexView::To(e.model()),
            IndexType::Range(RangeBounds::FromTo(a, b)) => IndexView::FromTo(a.model(), b.model()),
        }
    }
}

impl View for IndexType {
    type V = IndexView;

    open spec fn view(&self) -> IndexView {
        self.model()
    }
}

impl Expr {
    /// The tree that this expression stands for.
    pub open spec fn model(self) -> ExprView
        decreases self,
    {
        match self {
            Expr::Null => ExprView::Null,
            Expr::Str(s) => ExprView::Str(s@),
            Expr::Int(i) => ExprView::Int(i),
            Expr::Float(text) => ExprView::Float(text@),
            Expr::Bool(b) => ExprView::Bool(b),
            Expr::List(v) => ExprView::List(
                Seq::new(
                    v@.len(),
                    |i: int|
                        if 0 <= i < v@.len() {
                            v@[i].model()
                        } else {
                            ExprView::Null
                        },
                ),
            ),
            Expr::Mapping(m) => ExprView::Mapping(
                Seq::new(
                    m@.len(),
                    |i: int|
                        if 0 <= i < m@.len() {
                            (m@[i].0@, m@[i].1.model())
                        } else {
                            (Seq::empty(), ExprView::Null)
                        },
                ),
            ),
            Expr::Ident(ident) => ExprView::Ident(ident.0),
            Expr::Index(index) => ExprView::Index {
                base: index.base.0,
                indices: Seq::new(
                    index.indices@.len(),
                    |i: int|
                        if 0 <= i < index.indices@.len() {
                            index.indices@[i].model()
                        } else {
                            IndexView::Single(ExprView::Null)
                        },
                ),
            },
            Expr::InfixOp(infix) => ExprView::Infix {
                lhs: Box::new(infix.lhs.model()),
                op: infix.op,
                rhs: Box::new(infix.rhs.model()),
                parenthesized: infix.parenthesized,
            },
            Expr::PrefixOp(prefix) => ExprView::Prefix {
                unary: prefix.op,
                operand: Box::new(prefix.operand.model()),
            },
            Expr::Block(block) => ExprView::Block {
                ctx_idx: block.ctx_idx,
                result: Box::new(block.return_expr.model()),
            },
            Expr::IfElse(if_else) => ExprView::IfElse {
                condition: Box::new(if_else.if_expr.model()),
                then: Box::new(if_else.then_expr.model()),
                otherwise: Box::new(if_else.else_expr.model()),
            },
            Expr::ForEach(for_each) => ExprView::ForEach {
                base: for_each.base.0,
                ctx_idx: for_each.ctx_idx,
                body: Box::new(for_each.body.model()),
            },
            Expr::Fn(Fn::Defined(defined)) => ExprView::Defined {
                ctx_idx: defined.ctx_idx,
                body: Box::new(defined.body.model()),
            },
            Expr::Fn(Fn::BuiltIn(which)) => ExprView::BuiltIn(which),
            Expr::FnCall(call) => ExprView::Call {
                name: call.name.0,
                args: Seq::new(
                    call.args@.len(),
                    |i: int|
                        if 0 <= i < call.args@.len() {
                            call.args@[i].model()
                        } else {
                            ExprView::Null
                        },
                ),
            },
        }
    }
}

impl View for Expr {
    type V = ExprView;

    open spec fn view(&self) -> ExprView {
        self.model()
    }
}

/// The trees that a sequence of expressions stands for.
pub open spec fn exprs_view(items: Seq<Expr>) -> Seq<ExprView> {
    Seq::new(items.len(), |i: int| items[i]@)
}

/// The entries that a sequence of keyed expressions stands for.
pub open spec fn keyed_view(entries: Seq<(String, Expr)>) -> Seq<(Seq<char>, ExprView)> {
    Seq::new(entries.len(), |i: int| (entries[i].0@, entries[i].1@))
}

/// The brackets that a sequence of brackets stands for.
pub open spec fn indices_view(indices: Seq<IndexType>) -> Seq<IndexView> {
    Seq::new(indices.len(), |i: int| indices[i]@)
}

/// The view of a list is the list of the views of its items.
pub proof fn lemma_list_view(items: Vec<Expr>)
    ensures
        Expr::List(items)@ == ExprView::List(exprs_view(items@)),
{
    assert(Expr::List(items)@->List_0 =~= exprs_view(items@));
}

/// The view of a mapping is the sequence of the views of its entries.
pub proof fn lemma_mapping_view(entries: Vec<(String, Expr)>)
    ensures
        Expr::Mapping(entries)@ == ExprView::Mapping(keyed_view(entries@)),
{
    assert(Expr::Mapping(entries)@->Mapping_0 =~= keyed_view(entries@));
}

/// The view of an index expression holds the views of its brackets.
pub proof fn lemma_index_view(index: Index)
    ensures
        Expr::Index(index)@ == (ExprView::Index {
            base: index.base.0,
            indices: indices_view(index.indices@),
        }),
{
    assert(Expr::Index(index)@->Index_indices =~= indices_view(index.indices@));
}

/// The view of a call holds the views of its arguments.
pub proof fn lemma_call_view(call: FnCall)
    ensures
        Expr::FnCall(call)@ == (ExprView::Call { name: call.name.0, args: exprs_view(call.args@) }),
{
    assert(Expr::FnCall(call)@->Call_args =~= exprs_view(call.args@));
}

/// A copy of a list of expressions.
pub fn duplicate_exprs(items: &Vec<Expr>) -> (r: Vec<Expr>)
    ensures
        exprs_view(r@) == exprs_view(items@),
    decreases items,
{
    let mut out: Vec<Expr> = Vec::new();
    let mut i: usize = 0;
    while i < items.len()
        invariant
            i <= items.len(),
            out.len() == i,
            forall|j: int| 0 <= j < i ==> out@[j]@ == items@[j]@,
        decreases items.len() - i,
    {
        assert(decreases_to!(items => items[i as int]));
        let item = items[i].duplicate();
        out.push(item);
        i += 1;
    }
    assert(exprs_view(out@) =~= exprs_view(items@));
    out
}

impl IndexType {
    /// A copy of this bracket.
    pub fn duplicate(&self) -> (r: Self)
        ensures
            r@ == self@,
        decreases self,
    {
        match self {
            IndexType::Single(e) => IndexType::Single(e.duplicate()),
            IndexType::Range(RangeBounds::StartingFrom(e)) => IndexType::Range(
                RangeBounds::StartingFrom(e.duplicate()),
            ),
            IndexType::Range(RangeBounds::EndingAt(e)) => IndexType::Range(
                RangeBounds::EndingAt(e.duplicate()),
            ),
            IndexType::Range(RangeBounds::FromTo(a, b)) => IndexType::Range(
                RangeBounds::FromTo(a.duplicate(), b.duplicate()),
            ),
        }
    }
}

/// Whether a tree is well-formed: every mapping in it has its keys in
/// strictly ascending order, so that no key comes twice.
pub open spec fn well_keyed_tree(e: ExprView) -> bool
    decreases e,
{
    match e {
        ExprView::List(items) => forall|i: int|
            0 <= i < items.len() ==> well_keyed_tree(#[trigger] items[i]),
        ExprView::Mapping(entries) => crate::value::keys_ascend(entries) && forall|i: int|
            0 <= i < entries.len() ==> well_keyed_tree((#[trigger] entries[i]).1),
        ExprView::Index { base, indices } => forall|i: int|
            0 <= i < indices.len() ==> well_keyed_bracket(#[trigger] indices[i]),
        ExprView::Infix { lhs, op, rhs, parenthesized } => well_keyed_tree(*lhs)
            && well_keyed_tree(*rhs),
        ExprView::Prefix { unary, operand } => well_keyed_tree(*operand),
        ExprView::Block { ctx_idx, result } => well_keyed_tree(*result),
        ExprView::IfElse { condition, then, otherwise } => well_keyed_tree(*condition)
            && well_keyed_tree(*then) && well_keyed_tree(*otherwise),
        ExprView::ForEach { base, ctx_idx, body } => well_keyed_tree(*body),
        ExprView::Defined { ctx_idx, body } => well_keyed_tree(*body),
        ExprView::Call { name, args } => forall|i: int|
            0 <= i < args.len() ==> well_keyed_tree(#[trigger] args[i]),
        _ => true,
    }
}

/// Whether the expressions of a bracket are well-formed.
pub open spec fn well_keyed_bracket(b: IndexView) -> bool
    decreases b,
{
    match b {
        IndexView::Single(e) => well_keyed_tree(e),
        IndexView::From(e) => well_keyed_tree(e),
        IndexView::To(e) => well_keyed_tree(e),
        IndexView::FromTo(a, b) => well_keyed_tree(a) && well_keyed_tree(b),
    }
}

impl Expr {
    /// Whether this expression is well-formed, as [`well_keyed_tree`] says.
    pub open spec fn wf(&self) -> bool {
        well_keyed_tree(self@)
    }
}

impl Expr {
    /// A copy of this expression.
    pub fn duplicate(&self) -> (r: Self)
        ensures
            r@ == self@,
        decreases self,
    {
        match self {
            Expr::Null => Expr::Null,
            Expr::Str(s) => Expr::Str(s.clone()),
            Expr::Int(i) => Expr::Int(*i),
            Expr::Float(text) => Expr::Float(text.clone()),
            Expr::Bool(b) => Expr::Bool(*b),
            Expr::List(v) => {
                let out = duplicate_exprs(v);
                proof {
                    lemma_list_view(out);
                    lemma_list_view(*v);
                }
                Expr::List(out)
            },
            Expr::Mapping(m) => {
                let mut out: Vec<(String, Expr)> = Vec::new();
                let mut i: usize = 0;
                while i < m.len()
                    invariant
                        *self == Expr::Mapping(*m),
                        i <= m.len(),
                        out.len() == i,
                        forall|j: int|
                            0 <= j < i ==> out@[j].0@ == m@[j].0@ && out@[j].1@ == m@[j].1@,
                    decreases m.len() - i,
                {
                    let key = m[i].0.clone();
                    assert(decreases_to!(self => self->Mapping_0[i as int].1));
                    let item = m[i].1.duplicate();
                    out.push((key, item));
                    i += 1;
                }
                proof {
                    lemma_mapping_view(out);
                    lemma_mapping_view(*m);
                    assert(keyed_view(out@) =~= keyed_view(m@));
                }
                Expr::Mapping(out)
            },
            Expr::Ident(ident) => Expr::Ident(*ident),
            Expr::Index(index) => {
                let mut out: Vec<IndexType> = Vec::new();
                let mut i: usize = 0;
                while i < index.indices.len()
                    invariant
                        *self == Expr::Index(*index),
                        i <= index.indices.len(),
                        out.len() == i,
                        forall|j: int| 0 <= j < i ==> out@[j]@ == index.indices@[j]@,
                    decreases index.indices.len() - i,
                {
                    assert(decreases_to!(self => self->Index_0.indices[i as int]));
                    let item = index.indices[i].duplicate();
                    out.push(item);
                    i += 1;
                }
                let copy = Index { base: index.base, indices: out };
                proof {
                    lemma_index_view(copy);
                    lemma_index_view(*index);
                    assert(indices_view(out@) =~= indices_view(index.indices@));
                }
                Expr::Index(copy)
            },
            Expr::InfixOp(infix) => Expr::InfixOp(
                InfixOp {
                    lhs: Box::new(infix.lhs.duplicate()),
                    op: infix.op,
                    rhs: Box::new(infix.rhs.duplicate()),
                    parenthesized: infix.parenthesized,
                },
            ),
            Expr::PrefixOp(prefix) => Expr::PrefixOp(
                PrefixOp { op: prefix.op, operand: Box::new(prefix.operand.duplicate()) },
            ),
            Expr::Block(block) => Expr::Block(
                Block { ctx_idx: block.ctx_idx, return_expr: Box::new(block.return_expr.duplicate()) },
            ),
            Expr::IfElse(if_else) => Expr::IfElse(
                IfElse {
                    if_expr: Box::new(if_else.if_expr.duplicate()),
                    then_expr: Box::new(if_else.then_expr.duplicate()),
                    else_expr: Box::new(if_else.else_expr.duplicate()),
                },
            ),
            Expr::ForEach(for_each) => Expr::ForEach(
                ForEach {
                    base: for_each.base,
                    ctx_idx: for_each.ctx_idx,
                    body: Box::new(for_each.body.duplicate()),
                },
            ),
            Expr::Fn(Fn::Defined(defined)) => Expr::Fn(
                Fn::Defined(
                    Defined { ctx_idx: defined.ctx_idx, body: Box::new(defined.body.duplicate()) },
                ),
            ),
            Expr::Fn(Fn::BuiltIn(which)) => Expr::Fn(Fn::BuiltIn(*which)),
            Expr::FnCall(call) => {
                let out = duplicate_exprs(&call.args);
                let copy = FnCall { name: call.name, args: out };
                proof {
                    lemma_call_view(copy);
                    lemma_call_view(*call);
                }
                Expr::FnCall(copy)
            },
        }
    }

    /// Whether the value of this expression may be kept in place of it:
    /// true of everything but a function.
    pub fn should_be_cached(&self) -> (r: bool)
        ensures
            r == !(self@ is Defined || self@ is BuiltIn),
    {
        match self {
            Expr::Fn(Fn::Defined(_)) => false,
            Expr::Fn(Fn::BuiltIn(_)) => false,
            _ => true,
        }
    }
}

impl Clone for Expr {
    fn clone(&self) -> (r: Self)
        ensures
            r@ == self@,
    {
        self.duplicate()
    }
}

} // verus!

//! What a name is bound to.

use vstd::prelude::*;
use crate::expr::{Expr, ExprView};
use crate::value::{Value, ValueView};

verus! {

/// The state of one name in one scope: an expression that has not been
/// evaluated yet, or the value that it gave.
#[derive(Debug)]
pub enum Binding {
    Expr(Expr),
    Cached(Value),
}

/// The mathematical form of a [`Binding`].
pub enum BindingView {
    Expr(ExprView),
    Cached(ValueView),
}

impl View for Binding {
    type V = BindingView;

    open spec fn view(&self) -> BindingView {
        match self {
            Binding::Expr(e) => BindingView::Expr(e@),
            Binding::Cached(v) => BindingView::Cached(v@),
        }
    }
}

impl Binding {
    /// The binding of a name that has nothing yet: the null expression.
    pub fn default() -> (r: Binding)
        ensures
            r@ == BindingView::Expr(ExprView::Null),
    {
        Binding::Expr(Expr::Null)
    }

    /// A copy of this binding.
    pub fn duplicate(&self) -> (r: Binding)
        ensures
            r@ == self@,
    {
        match self {
            Binding::Expr(e) => Binding::Expr(e.duplicate()),
            Binding::Cached(v) => Binding::Cached(v.duplicate()),
        }
    }
}

impl Clone for Binding {
    fn clone(&self) -> (r: Self)
        ensures
            r@ == self@,
    {
        self.duplicate()
    }
}

} // verus!

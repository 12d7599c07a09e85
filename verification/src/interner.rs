//! The table of names: every distinct name is kept once and known by the
//! index at which it was first met.

use vstd::prelude::*;
use string_interner::backend::StringBackend;
use string_interner::symbol::SymbolU32;
use string_interner::StringInterner;
use string_interner::Symbol;

verus! {

/// A table of names, kept by a `StringInterner` over a `StringBackend`.
#[verifier::external_body]
pub struct Interner {
    table: StringInterner<StringBackend<SymbolU32>>,
}

/// The strings that the table holds, each at the index of its symbol.
pub uninterp spec fn interned(table: Interner) -> Seq<Seq<char>>;

/// The first index at or after `from` at which `strings` holds `text`, or
/// the length of `strings` where there is none.
pub open spec fn first_index_of(strings: Seq<Seq<char>>, text: Seq<char>, from: int) -> int
    decreases strings.len() - from,
{
    if from < 0 || from >= strings.len() {
        strings.len() as int
    } else if strings[from] == text {
        from
    } else {
        first_index_of(strings, text, from + 1)
    }
}

/// The strings of a table after `text` has been interned: unchanged where
/// the table held it, and with `text` at the end otherwise.
pub open spec fn with_text(strings: Seq<Seq<char>>, text: Seq<char>) -> Seq<Seq<char>> {
    if first_index_of(strings, text, 0) < strings.len() {
        strings
    } else {
        strings.push(text)
    }
}

impl View for Interner {
    type V = Seq<Seq<char>>;

    open spec fn view(&self) -> Seq<Seq<char>> {
        interned(*self)
    }
}

impl Interner {
    /// `StringInterner::new` makes a table that holds no string.
    #[verifier::external_body]
    pub(crate) fn new() -> (r: Interner)
        ensures
            interned(r) == Seq::<Seq<char>>::empty(),
    {
        Interner { table: StringInterner::new() }
    }

    /// `StringInterner::len` counts the strings of the table.
    #[verifier::external_body]
    pub(crate) fn len(&self) -> (r: usize)
        ensures
            r == interned(*self).len(),
    {
        self.table.len()
    }

    /// `StringInterner::get_or_intern` gives the symbol of a string that the
    /// table holds, and otherwise adds the string at the end and gives the
    /// symbol of that place; `Symbol::to_usize` is the index of a symbol.
    /// The call panics where the table has as many strings as there are
    /// symbols, which `requires` leaves out.
    #[verifier::external_body]
    pub(crate) fn get_or_intern(&mut self, text: &str) -> (r: u32)
        requires
            interned(*old(self)).len() < u32::MAX,
        ensures
            r == first_index_of(interned(*old(self)), text@, 0),
            interned(*final(self)) == with_text(interned(*old(self)), text@),
    {
        self.table.get_or_intern(text).to_usize() as u32
    }

    /// `StringInterner::resolve` gives the string of a symbol of the table,
    /// and nothing for any other symbol; `Symbol::try_from_usize` is the
    /// symbol of an index.
    #[verifier::external_body]
    pub(crate) fn resolve(&self, symbol: u32) -> (r: Option<String>)
        ensures
            r is Some <==> symbol < interned(*self).len(),
            r is Some ==> r->0@ == interned(*self)[symbol as int],
    {
        match SymbolU32::try_from_usize(symbol as usize) {
            Some(s) => match self.table.resolve(s) {
                Some(text) => Some(text.to_string()),
                None => None,
            },
            None => None,
        }
    }
}

} // verus!

//! Floating-point numbers.
//!
//! A float is carried as the bit pattern of an IEEE 754 binary64 number.
//! What can be decided on the bits alone (the sign, whether the number is
//! zero) is decided here.  Whatever rounds or orders is asked of a
//! [`FloatOps`] that the caller supplies.  Nothing is taken for granted of
//! it, not even that it answers one question the same way twice: the
//! answers are remembered in [`Answers`], a question that was asked before
//! gets the answer it got before, and so some [`FloatModel`] always explains
//! what was answered.  Contracts speak of the models that do.

use vstd::prelude::*;
use crate::text::{chars_equal, chars_of, string_of};

verus! {

/// The four arithmetic operators.
#[derive(Debug, Clone, Copy, PartialEq, Eq, Structural)]
pub enum ArithmeticOp {
    Add,
    Sub,
    Mul,
    Div,
}

/// The six comparison operators.
#[derive(Debug, Clone, Copy, PartialEq, Eq, Structural)]
pub enum ComparisonOp {
    Eq,
    NotEq,
    Gt,
    Lt,
    GtOrEq,
    LtOrEq,
}

/// The floating-point operations that the library asks of its caller.
/// Floats go in and come out as bit patterns.
pub trait FloatOps {
    /// The float nearest to a decimal literal: an optional `-`, digits, a
    /// `.`, digits.
    fn from_decimal(&self, text: &str) -> u64;

    /// The float nearest to an integer.
    fn from_integer(&self, value: i64) -> u64;

    /// The integer nearest to a float, halves away from zero.
    fn round_to_integer(&self, bits: u64) -> i64;

    /// The sum, difference, product or quotient of two floats.
    fn arithmetic(&self, op: ArithmeticOp, lhs: u64, rhs: u64) -> u64;

    /// Whether a comparison holds of two floats.
    fn compare(&self, op: ComparisonOp, lhs: u64, rhs: u64) -> bool;

    /// The text of a float; an integral one is written with one decimal
    /// digit.
    fn to_text(&self, bits: u64) -> String;
}

/// One answer of a [`FloatOps`]: what was asked, and what came back.
pub enum FloatCall {
    Decimal(Seq<char>, u64),
    Integer(i64, u64),
    Round(u64, i64),
    Arithmetic(ArithmeticOp, u64, u64, u64),
    Compare(ComparisonOp, u64, u64, bool),
    Text(u64, Seq<char>),
}

/// What a [`FloatCall`] asked.
pub enum Asked {
    Decimal(Seq<char>),
    Integer(i64),
    Round(u64),
    Arithmetic(ArithmeticOp, u64, u64),
    Compare(ComparisonOp, u64, u64),
    Text(u64),
}

impl FloatCall {
    /// The question of the call, without its answer.
    pub open spec fn asked(self) -> Asked {
        match self {
            FloatCall::Decimal(text, _) => Asked::Decimal(text),
            FloatCall::Integer(i, _) => Asked::Integer(i),
            FloatCall::Round(bits, _) => Asked::Round(bits),
            FloatCall::Arithmetic(op, a, b, _) => Asked::Arithmetic(op, a, b),
            FloatCall::Compare(op, a, b, _) => Asked::Compare(op, a, b),
            FloatCall::Text(bits, _) => Asked::Text(bits),
        }
    }
}

/// A mathematical account of floating-point arithmetic: one function for
/// each operation of [`FloatOps`].
pub struct FloatModel {
    pub decimal: spec_fn(Seq<char>) -> u64,
    pub integer: spec_fn(i64) -> u64,
    pub round: spec_fn(u64) -> i64,
    pub arithmetic: spec_fn(ArithmeticOp, u64, u64) -> u64,
    pub compare: spec_fn(ComparisonOp, u64, u64) -> bool,
    pub text: spec_fn(u64) -> Seq<char>,
}

impl FloatModel {
    /// Whether the model gives the answer that `call` records.
    pub open spec fn fits(self, call: FloatCall) -> bool {
        match call {
            FloatCall::Decimal(text, r) => (self.decimal)(text) == r,
            FloatCall::Integer(i, r) => (self.integer)(i) == r,
            FloatCall::Round(bits, r) => (self.round)(bits) == r,
            FloatCall::Arithmetic(op, a, b, r) => (self.arithmetic)(op, a, b) == r,
            FloatCall::Compare(op, a, b, r) => (self.compare)(op, a, b) == r,
            FloatCall::Text(bits, r) => (self.text)(bits) == r,
        }
    }

    /// Whether the model gives every answer in `log`.
    pub open spec fn explains(self, log: Seq<FloatCall>) -> bool {
        forall|i: int| 0 <= i < log.len() ==> self.fits(#[trigger] log[i])
    }

    /// The model that answers the question of `call` as `call` records, and
    /// every other question as `self` does.
    pub open spec fn with_answer(self, call: FloatCall) -> FloatModel {
        match call {
            FloatCall::Decimal(text, r) => FloatModel {
                decimal: |t: Seq<char>| if t == text { r } else { (self.decimal)(t) },
                integer: self.integer,
                round: self.round,
                arithmetic: self.arithmetic,
                compare: self.compare,
                text: self.text,
            },
            FloatCall::Integer(i, r) => FloatModel {
                decimal: self.decimal,
                integer: |j: i64| if j == i { r } else { (self.integer)(j) },
                round: self.round,
                arithmetic: self.arithmetic,
                compare: self.compare,
                text: self.text,
            },
            FloatCall::Round(bits, r) => FloatModel {
                decimal: self.decimal,
                integer: self.integer,
                round: |b: u64| if b == bits { r } else { (self.round)(b) },
                arithmetic: self.arithmetic,
                compare: self.compare,
                text: self.text,
            },
            FloatCall::Arithmetic(op, a, b, r) => FloatModel {
                decimal: self.decimal,
                integer: self.integer,
                round: self.round,
                arithmetic: |o: ArithmeticOp, x: u64, y: u64|
                    if o == op && x == a && y == b { r } else { (self.arithmetic)(o, x, y) },
                compare: self.compare,
                text: self.text,
            },
            FloatCall::Compare(op, a, b, r) => FloatModel {
                decimal: self.decimal,
                integer: self.integer,
                round: self.round,
                arithmetic: self.arithmetic,
                compare: |o: ComparisonOp, x: u64, y: u64|
                    if o == op && x == a && y == b { r } else { (self.compare)(o, x, y) },
                text: self.text,
            },
            FloatCall::Text(bits, r) => FloatModel {
                decimal: self.decimal,
                integer: self.integer,
                round: self.round,
                arithmetic: self.arithmetic,
                compare: self.compare,
                text: |b: u64| if b == bits { r } else { (self.text)(b) },
            },
        }
    }
}

/// Whether the answers in `log` can all be true of one model: no question
/// has two answers.
pub open spec fn consistent(log: Seq<FloatCall>) -> bool {
    exists|fm: FloatModel| fm.explains(log)
}

/// A model that explains a log explains each of its prefixes.
pub proof fn lemma_explains_prefix(fm: FloatModel, prefix: Seq<FloatCall>, log: Seq<FloatCall>)
    requires
        prefix.is_prefix_of(log),
        fm.explains(log),
    ensures
        fm.explains(prefix),
{
    assert forall|i: int| 0 <= i < prefix.len() implies fm.fits(#[trigger] prefix[i]) by {
        assert(prefix[i] == log[i]);
    }
}

/// Being a prefix carries over.
pub proof fn lemma_prefix_chain<T>(a: Seq<T>, b: Seq<T>, c: Seq<T>)
    requires
        a.is_prefix_of(b),
        b.is_prefix_of(c),
    ensures
        a.is_prefix_of(c),
{
    assert(a =~= c.subrange(0, a.len() as int));
}

/// No answers are consistent.
pub proof fn lemma_nothing_is_consistent()
    ensures
        consistent(Seq::<FloatCall>::empty()),
{
    let fm = FloatModel {
        decimal: |t: Seq<char>| 0u64,
        integer: |i: i64| 0u64,
        round: |b: u64| 0i64,
        arithmetic: |o: ArithmeticOp, x: u64, y: u64| 0u64,
        compare: |o: ComparisonOp, x: u64, y: u64| false,
        text: |b: u64| Seq::<char>::empty(),
    };
    assert(fm.explains(Seq::<FloatCall>::empty()));
}

/// The answer to a question that was not asked before leaves consistent
/// answers consistent.
pub proof fn lemma_new_answer(log: Seq<FloatCall>, call: FloatCall)
    requires
        consistent(log),
        forall|j: int| 0 <= j < log.len() ==> (#[trigger] log[j]).asked() != call.asked(),
    ensures
        consistent(log.push(call)),
{
    let fm = choose|fm: FloatModel| fm.explains(log);
    let next = fm.with_answer(call);
    let longer = log.push(call);
    assert forall|j: int| 0 <= j < longer.len() implies next.fits(#[trigger] longer[j]) by {
        if j < log.len() {
            assert(longer[j] == log[j]);
            assert(fm.fits(log[j]));
            assert(log[j].asked() != call.asked());
        }
    }
    assert(next.explains(longer));
}

/// The bit that holds the sign of a float.
pub const SIGN_BIT: u64 = 0x8000_0000_0000_0000;

/// The bits of positive zero.
pub const POSITIVE_ZERO: u64 = 0;

/// The bits of the float with the opposite sign.
pub open spec fn negated(bits: u64) -> u64 {
    bits ^ SIGN_BIT
}

/// Whether the bits are those of positive or negative zero.
pub open spec fn is_zero(bits: u64) -> bool {
    bits == POSITIVE_ZERO || bits == SIGN_BIT
}

/// Flips the sign of a float.
pub fn negate(bits: u64) -> (r: u64)
    ensures
        r == negated(bits),
{
    bits ^ SIGN_BIT
}

/// Tells whether a float is zero, of either sign.
pub fn zero(bits: u64) -> (r: bool)
    ensures
        r == is_zero(bits),
{
    bits == POSITIVE_ZERO || bits == SIGN_BIT
}

/// One remembered answer, as the program holds it.
pub enum Answer {
    Decimal(Vec<char>, u64),
    Integer(i64, u64),
    Round(u64, i64),
    Arithmetic(ArithmeticOp, u64, u64, u64),
    Compare(ComparisonOp, u64, u64, bool),
    Text(u64, Vec<char>),
}

impl View for Answer {
    type V = FloatCall;

    open spec fn view(&self) -> FloatCall {
        match *self {
            Answer::Decimal(text, r) => FloatCall::Decimal(text@, r),
            Answer::Integer(i, r) => FloatCall::Integer(i, r),
            Answer::Round(bits, r) => FloatCall::Round(bits, r),
            Answer::Arithmetic(op, a, b, r) => FloatCall::Arithmetic(op, a, b, r),
            Answer::Compare(op, a, b, r) => FloatCall::Compare(op, a, b, r),
            Answer::Text(bits, r) => FloatCall::Text(bits, r@),
        }
    }
}

/// What a sequence of remembered answers records.
pub open spec fn calls_of(known: Seq<Answer>) -> Seq<FloatCall> {
    Seq::new(known.len(), |i: int| known[i]@)
}

/// The answers that a [`FloatOps`] has given, in the order in which they
/// came.  They are consistent at all times.
pub struct Answers {
    known: Vec<Answer>,
}

impl View for Answers {
    type V = Seq<FloatCall>;

    closed spec fn view(&self) -> Seq<FloatCall> {
        calls_of(self.known@)
    }
}

impl Answers {
    /// What holds of the answers at all times: they are consistent.
    #[verifier::type_invariant]
    pub open spec fn agree(self) -> bool {
        consistent(self@)
    }

    /// No answers yet.
    pub fn new() -> (r: Self)
        ensures
            r@ == Seq::<FloatCall>::empty(),
            consistent(r@),
    {
        proof {
            assert(calls_of(Seq::<Answer>::empty()) =~= Seq::<FloatCall>::empty());
            lemma_nothing_is_consistent();
        }
        Answers { known: Vec::new() }
    }

    /// Remembers an answer to a question that was not asked before.
    fn remember(&mut self, answer: Answer)
        requires
            forall|j: int|
                0 <= j < old(self)@.len() ==> (#[trigger] old(self)@[j]).asked() != answer@.asked(),
        ensures
            final(self)@ == old(self)@.push(answer@),
            consistent(final(self)@),
    {
        proof {
            use_type_invariant(&*self);
            lemma_new_answer(self@, answer@);
        }
        let mut taken = Answers::new();
        std::mem::swap(self, &mut taken);
        let mut known = taken.known;
        known.push(answer);
        proof {
            assert(calls_of(known@) =~= old(self)@.push(answer@));
        }
        *self = Answers { known };
    }
}

/// The float of a decimal literal: the answer that `log` remembers, or else
/// what `floats` now answers, which `log` then remembers.
pub fn ask_decimal<F: FloatOps>(floats: &F, text: &str, log: &mut Answers) -> (r: u64)
    ensures
        old(log)@.is_prefix_of(final(log)@),
        consistent(final(log)@),
        forall|fm: FloatModel| #[trigger] fm.explains(final(log)@) ==> (fm.decimal)(text@) == r,
{
    proof {
        use_type_invariant(&*log);
    }
    let question = chars_of(text);
    let mut i: usize = 0;
    while i < log.known.len()
        invariant
            i <= log.known.len(),
            *log == *old(log),
            consistent(log@),
            question@ == text@,
            forall|j: int| 0 <= j < i ==> (#[trigger] log@[j]).asked() != Asked::Decimal(text@),
        decreases log.known.len() - i,
    {
        match &log.known[i] {
            Answer::Decimal(asked, answer) => {
                if chars_equal(asked, &question) {
                    assert forall|fm: FloatModel| #[trigger] fm.explains(log@) implies (fm.decimal)(
                        text@,
                    ) == *answer by {
                        assert(fm.fits(log@[i as int]));
                    }
                    return *answer;
                }
            },
            _ => {},
        }
        i += 1;
    }
    let r = floats.from_decimal(text);
    log.remember(Answer::Decimal(question, r));
    assert forall|fm: FloatModel| #[trigger] fm.explains(log@) implies (fm.decimal)(text@) == r by {
        assert(fm.fits(log@[log@.len() - 1]));
    }
    r
}

/// The float of an integer: the answer that `log` remembers, or else what
/// `floats` now answers, which `log` then remembers.
pub fn ask_integer<F: FloatOps>(floats: &F, value: i64, log: &mut Answers) -> (r: u64)
    ensures
        old(log)@.is_prefix_of(final(log)@),
        consistent(final(log)@),
        forall|fm: FloatModel| #[trigger] fm.explains(final(log)@) ==> (fm.integer)(value) == r,
{
    proof {
        use_type_invariant(&*log);
    }
    let mut i: usize = 0;
    while i < log.known.len()
        invariant
            i <= log.known.len(),
            *log == *old(log),
            consistent(log@),
            forall|j: int| 0 <= j < i ==> (#[trigger] log@[j]).asked() != Asked::Integer(value),
        decreases log.known.len() - i,
    {
        match &log.known[i] {
            Answer::Integer(asked, answer) => {
                if *asked == value {
                    assert forall|fm: FloatModel| #[trigger] fm.explains(log@) implies (fm.integer)(
                        value,
                    ) == *answer by {
                        assert(fm.fits(log@[i as int]));
                    }
                    return *answer;
                }
            },
            _ => {},
        }
        i += 1;
    }
    let r = floats.from_integer(value);
    log.remember(Answer::Integer(value, r));
    assert forall|fm: FloatModel| #[trigger] fm.explains(log@) implies (fm.integer)(value) == r by {
        assert(fm.fits(log@[log@.len() - 1]));
    }
    r
}

/// The integer nearest to a float: the answer that `log` remembers, or else
/// what `floats` now answers, which `log` then remembers.
pub fn ask_round<F: FloatOps>(floats: &F, bits: u64, log: &mut Answers) -> (r: i64)
    ensures
        old(log)@.is_prefix_of(final(log)@),
        consistent(final(log)@),
        forall|fm: FloatModel| #[trigger] fm.explains(final(log)@) ==> (fm.round)(bits) == r,
{
    proof {
        use_type_invariant(&*log);
    }
    let mut i: usize = 0;
    while i < log.known.len()
        invariant
            i <= log.known.len(),
            *log == *old(log),
            consistent(log@),
            forall|j: int| 0 <= j < i ==> (#[trigger] log@[j]).asked() != Asked::Round(bits),
        decreases log.known.len() - i,
    {
        match &log.known[i] {
            Answer::Round(asked, answer) => {
                if *asked == bits {
                    assert forall|fm: FloatModel| #[trigger] fm.explains(log@) implies (fm.round)(
                        bits,
                    ) == *answer by {
                        assert(fm.fits(log@[i as int]));
                    }
                    return *answer;
                }
            },
            _ => {},
        }
        i += 1;
    }
    let r = floats.round_to_integer(bits);
    log.remember(Answer::Round(bits, r));
    assert forall|fm: FloatModel| #[trigger] fm.explains(log@) implies (fm.round)(bits) == r by {
        assert(fm.fits(log@[log@.len() - 1]));
    }
    r
}

/// The result of an arithmetic operation: the answer that `log` remembers,
/// or else what `floats` now answers, which `log` then remembers.
pub fn ask_arithmetic<F: FloatOps>(
    floats: &F,
    op: ArithmeticOp,
    lhs: u64,
    rhs: u64,
    log: &mut Answers,
) -> (r: u64)
    ensures
        old(log)@.is_prefix_of(final(log)@),
        consistent(final(log)@),
        forall|fm: FloatModel| #[trigger]
            fm.explains(final(log)@) ==> (fm.arithmetic)(op, lhs, rhs) == r,
{
    proof {
        use_type_invariant(&*log);
    }
    let mut i: usize = 0;
    while i < log.known.len()
        invariant
            i <= log.known.len(),
            *log == *old(log),
            consistent(log@),
            forall|j: int|
                0 <= j < i ==> (#[trigger] log@[j]).asked() != Asked::Arithmetic(op, lhs, rhs),
        decreases log.known.len() - i,
    {
        match &log.known[i] {
            Answer::Arithmetic(asked, a, b, answer) => {
                if *asked == op && *a == lhs && *b == rhs {
                    assert forall|fm: FloatModel| #[trigger]
                        fm.explains(log@) implies (fm.arithmetic)(op, lhs, rhs) == *answer by {
                        assert(fm.fits(log@[i as int]));
                    }
                    return *answer;
                }
            },
            _ => {},
        }
        i += 1;
    }
    let r = floats.arithmetic(op, lhs, rhs);
    log.remember(Answer::Arithmetic(op, lhs, rhs, r));
    assert forall|fm: FloatModel| #[trigger] fm.explains(log@) implies (fm.arithmetic)(
        op,
        lhs,
        rhs,
    ) == r by {
        assert(fm.fits(log@[log@.len() - 1]));
    }
    r
}

/// Whether a comparison holds: the answer that `log` remembers, or else
/// what `floats` now answers, which `log` then remembers.
pub fn ask_compare<F: FloatOps>(
    floats: &F,
    op: ComparisonOp,
    lhs: u64,
    rhs: u64,
    log: &mut Answers,
) -> (r: bool)
    ensures
        old(log)@.is_prefix_of(final(log)@),
        consistent(final(log)@),
        forall|fm: FloatModel| #[trigger]
            fm.explains(final(log)@) ==> (fm.compare)(op, lhs, rhs) == r,
{
    proof {
        use_type_invariant(&*log);
    }
    let mut i: usize = 0;
    while i < log.known.len()
        invariant
            i <= log.known.len(),
            *log == *old(log),
            consistent(log@),
            forall|j: int|
                0 <= j < i ==> (#[trigger] log@[j]).asked() != Asked::Compare(op, lhs, rhs),
        decreases log.known.len() - i,
    {
        match &log.known[i] {
            Answer::Compare(asked, a, b, answer) => {
                if *asked == op && *a == lhs && *b == rhs {
                    assert forall|fm: FloatModel| #[trigger]
                        fm.explains(log@) implies (fm.compare)(op, lhs, rhs) == *answer by {
                        assert(fm.fits(log@[i as int]));
                    }
                    return *answer;
                }
            },
            _ => {},
        }
        i += 1;
    }
    let r = floats.compare(op, lhs, rhs);
    log.remember(Answer::Compare(op, lhs, rhs, r));
    assert forall|fm: FloatModel| #[trigger] fm.explains(log@) implies (fm.compare)(op, lhs, rhs)
        == r by {
        assert(fm.fits(log@[log@.len() - 1]));
    }
    r
}

/// The text of a float: the answer that `log` remembers, or else what
/// `floats` now answers, which `log` then remembers.
pub fn ask_text<F: FloatOps>(floats: &F, bits: u64, log: &mut Answers) -> (r: String)
    ensures
        old(log)@.is_prefix_of(final(log)@),
        consistent(final(log)@),
        forall|fm: FloatModel| #[trigger] fm.explains(final(log)@) ==> (fm.text)(bits) == r@,
{
    proof {
        use_type_invariant(&*log);
    }
    let mut i: usize = 0;
    while i < log.known.len()
        invariant
            i <= log.known.len(),
            *log == *old(log),
            consistent(log@),
            forall|j: int| 0 <= j < i ==> (#[trigger] log@[j]).asked() != Asked::Text(bits),
        decreases log.known.len() - i,
    {
        match &log.known[i] {
            Answer::Text(asked, answer) => {
                if *asked == bits {
                    let r = string_of(answer, 0, answer.len());
                    assert(r@ =~= answer@);
                    assert forall|fm: FloatModel| #[trigger] fm.explains(log@) implies (fm.text)(
                        bits,
                    ) == r@ by {
                        assert(fm.fits(log@[i as int]));
                    }
                    return r;
                }
            },
            _ => {},
        }
        i += 1;
    }
    let r = floats.to_text(bits);
    let shown = chars_of(r.as_str());
    log.remember(Answer::Text(bits, shown));
    assert forall|fm: FloatModel| #[trigger] fm.explains(log@) implies (fm.text)(bits) == r@ by {
        assert(fm.fits(log@[log@.len() - 1]));
    }
    r
}

} // verus!

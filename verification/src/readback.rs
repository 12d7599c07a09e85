//! Reading back what was written: the compact text of a literal is an
//! input whose tree is the literal.

use vstd::prelude::*;
use crate::expr::ExprView;
use crate::context::builtin_names;
use crate::float::{FloatCall, FloatModel};
use crate::grammar::{
    block, boolean, closing, digits_value, entry, expression, for_each, list, mapping,
    more_entries, more_items, infix, is_reserved, lemma_block, lemma_block_body, lemma_call,
    lemma_entry, lemma_expression, lemma_if_else, lemma_list, lemma_mapping, lemma_more_entries,
    lemma_more_items, lemma_required, lemma_for_each, lemma_for_each_body, lemma_index,
    lemma_infix, lemma_named_operand, lemma_operand, lemma_other_operand, lemma_parenthesized,
    lemma_prefix_operation, miss, name, null_literal, number, operator, operator_from, operators,
    prefix_operation, reserve, skip, string_body, string_literal, whole, word_false, word_null,
    word_true, ParseView, Parsed,
};
use crate::infix::{op_text, Op};
use crate::laws::lemma_slot_at_end;
use crate::semantics::{eval_entries, eval_expr, eval_items, EvalView};
use crate::parse::parse_start;
use crate::state::{fresh_contexts, CtxStateView};
use crate::{eval_start, gives, is_layout_of, is_value_of, lays_out, parsed, MAX_DEPTH};
use crate::layout::{entries_text, entry_text, expr_text, items_text, Style};
use crate::lex::{
    char_at, in_class, is_ascii, is_blank, is_digit, is_ordinary, is_plain, lemma_run_end, lowered,
    run_end, text_at, Class,
};
use crate::text::{digit_char, escape_of, escaped, int_text, nat_text, quoted, text_less};
use crate::value::{deeper, group_separator, keys_ascend, value_text, with_entry, ValueView};

verus! {

/// The digits of a number are digits, and write the number.
proof fn lemma_nat_text(n: nat)
    ensures
        nat_text(n).len() > 0,
        forall|i: int| 0 <= i < nat_text(n).len() ==> is_digit(#[trigger] nat_text(n)[i]),
        digits_value(nat_text(n)) == n,
    decreases n,
{
    if n < 10 {
        let text = nat_text(n);
        assert(text.drop_last() =~= Seq::<char>::empty());
        assert(digits_value(text.drop_last()) == 0);
        assert(text.last() == digit_char(n as int));
    } else {
        lemma_nat_text(n / 10);
        let text = nat_text(n);
        assert(text.drop_last() =~= nat_text(n / 10));
        assert(text.last() == digit_char((n % 10) as int));
    }
}

/// A run of digits that reaches the end of the input ends there.
proof fn lemma_digits_run(input: Seq<char>, pos: int)
    requires
        0 <= pos <= input.len(),
        forall|i: int| pos <= i < input.len() ==> is_digit(#[trigger] input[i]),
    ensures
        run_end(input, pos, Class::Digit) == input.len(),
    decreases input.len() - pos,
{
    if pos < input.len() {
        assert(is_digit(input[pos]));
        lemma_digits_run(input, pos + 1);
    }
}

/// The text of any 64-bit integer is read back as that integer, to its
/// end.
pub proof fn law_integer_text_reads_back(i: i64)
    ensures
        number(int_text(i as int), 0) == Parsed::Done(
            ExprView::Int(i),
            int_text(i as int).len() as int,
        ),
{
    let text = int_text(i as int);
    if i < 0 {
        let digits = nat_text((-i) as nat);
        lemma_nat_text((-i) as nat);
        assert(text[0] == '-');
        assert forall|k: int| 1 <= k < text.len() implies is_digit(#[trigger] text[k]) by {
            assert(text[k] == digits[k - 1]);
        }
        lemma_digits_run(text, 1);
        assert(text.subrange(1, text.len() as int) =~= digits);
    } else {
        let digits = nat_text(i as nat);
        lemma_nat_text(i as nat);
        assert(is_digit(text[0]));
        lemma_digits_run(text, 0);
        assert(text.subrange(0, text.len() as int) =~= digits);
    }
}

/// The text of an integer holds nothing but a minus sign and digits.
proof fn lemma_int_text_chars(i: i64)
    ensures
        int_text(i as int).len() > 0,
        forall|k: int|
            0 <= k < int_text(i as int).len() ==> is_digit(#[trigger] int_text(i as int)[k]) || (k
                == 0 && int_text(i as int)[k] == '-'),
{
    let text = int_text(i as int);
    if i < 0 {
        lemma_nat_text((-i) as nat);
        assert forall|k: int| 0 <= k < text.len() implies is_digit(#[trigger] text[k]) || (k == 0
            && text[k] == '-') by {
            if k > 0 {
                assert(text[k] == nat_text((-i) as nat)[k - 1]);
            }
        }
    } else {
        lemma_nat_text(i as nat);
    }
}

/// Writing an integer literal and reading it again gives the literal back:
/// the text of the expression is a whole input, and its tree is the
/// expression.  (The session must have room for one more name.)
pub proof fn law_integer_literal_reads_back(
    i: i64,
    style: Style,
    level: usize,
    floor: usize,
    st: ParseView,
)
    requires
        st.names.len() < u32::MAX,
    ensures
        whole(expr_text(ExprView::Int(i), style, level, floor), st).0 == Parsed::Done(
            ExprView::Int(i),
            int_text(i as int).len() as int,
        ),
{
    let text = int_text(i as int);
    assert(expr_text(ExprView::Int(i), style, level, floor) == text);
    assert(text.subrange(0, text.len() as int) =~= text);
    lemma_integer_in_place(i, text, 0, st);
}

/// The escaped characters of a string start with those of its first
/// character.
proof fn lemma_escaped_front(s: Seq<char>)
    requires
        s.len() > 0,
    ensures
        escaped(s) == escape_of(s[0]) + escaped(s.drop_first()),
    decreases s.len(),
{
    if s.len() == 1 {
        assert(s.drop_last() =~= Seq::<char>::empty());
        assert(s.drop_first() =~= Seq::<char>::empty());
        assert(escaped(s) =~= escape_of(s[0]) + escaped(s.drop_first()));
    } else {
        let front = s.drop_last();
        lemma_escaped_front(front);
        assert(front.drop_first() =~= s.drop_first().drop_last());
        assert(front[0] == s[0]);
        assert(s.drop_first().last() == s.last());
        assert(escaped(s) =~= escape_of(s[0]) + escaped(s.drop_first()));
    }
}

/// Where the escaped characters of `s` stand at `pos` with a `"` after
/// them, the characters of the string that are read from `pos` are `s`.
proof fn lemma_escaped_reads_back(input: Seq<char>, pos: int, s: Seq<char>)
    requires
        0 <= pos,
        pos + escaped(s).len() < input.len(),
        input.subrange(pos, pos + escaped(s).len()) == escaped(s),
        input[pos + escaped(s).len()] == '"',
    ensures
        string_body(input, pos) == Some((s, pos + escaped(s).len())),
    decreases s.len(),
{
    if s.len() == 0 {
        assert(s =~= Seq::<char>::empty());
    } else {
        lemma_escaped_front(s);
        let c = s[0];
        let rest = s.drop_first();
        let piece = escape_of(c);
        let len = escaped(s).len() as int;
        let written = input.subrange(pos, pos + len);
        assert(written[0] == input[pos]);
        assert(written[0] == piece[0]);
        if piece.len() == 2 {
            assert(written[1] == input[pos + 1]);
            assert(written[1] == piece[1]);
        }
        let next = pos + piece.len();
        assert(input.subrange(next, next + escaped(rest).len()) =~= escaped(rest)) by {
            assert forall|k: int| 0 <= k < escaped(rest).len() implies input[next + k] == escaped(
                rest,
            )[k] by {
                assert(written[piece.len() + k] == input[next + k]);
            }
        }
        lemma_escaped_reads_back(input, next, rest);
        assert(seq![c] + rest =~= s);
    }
}

/// Writing a string literal and reading it again gives the literal back,
/// whatever characters the string holds: the text of the expression is a
/// whole input, and its tree is the expression.
pub proof fn law_string_literal_reads_back(
    s: Seq<char>,
    style: Style,
    level: usize,
    floor: usize,
    st: ParseView,
)
    ensures
        whole(expr_text(ExprView::Str(s), style, level, floor), st).0 == Parsed::Done(
            ExprView::Str(s),
            quoted(s).len() as int,
        ),
{
    let text = quoted(s);
    assert(expr_text(ExprView::Str(s), style, level, floor) == text);
    assert(text.subrange(0, text.len() as int) =~= text);
    lemma_string_in_place(s, text, 0, st);
}

/// Writing a boolean literal and reading it again gives the literal back:
/// the text of the expression is a whole input, and its tree is the
/// expression.
pub proof fn law_boolean_literal_reads_back(
    b: bool,
    style: Style,
    level: usize,
    floor: usize,
    st: ParseView,
)
    ensures
        whole(expr_text(ExprView::Bool(b), style, level, floor), st).0 == Parsed::Done(
            ExprView::Bool(b),
            expr_text(ExprView::Bool(b), style, level, floor).len() as int,
        ),
{
    let text = expr_text(ExprView::Bool(b), style, level, floor);
    assert(text.subrange(0, text.len() as int) =~= text);
    lemma_boolean_in_place(b, text, 0, st);
}

/// Writing the null literal and reading it again gives the literal back:
/// the text of the expression is a whole input, and its tree is the
/// expression.
pub proof fn law_null_literal_reads_back(style: Style, level: usize, floor: usize, st: ParseView)
    ensures
        whole(expr_text(ExprView::Null, style, level, floor), st).0 == Parsed::Done(
            ExprView::Null,
            4,
        ),
{
    let text = expr_text(ExprView::Null, style, level, floor);
    assert(text.subrange(0, text.len() as int) =~= text);
    lemma_null_in_place(text, 0, st);
}

/// Whether what may follow a literal stands at `pos`: the end of the input,
/// a `,` or a `]`.
pub open spec fn closes(input: Seq<char>, pos: int) -> bool {
    pos == input.len() || (0 <= pos < input.len() && (input[pos] == ',' || input[pos] == ']'))
}

/// Whether a parse that went from `before` to `after` has done no more than
/// intern names, at most `by` of them.
pub open spec fn grown(before: ParseView, after: ParseView, by: int) -> bool {
    after.contexts == before.contexts && after.active == before.active && after.avail
        == before.avail && before.names.len() <= after.names.len() <= before.names.len() + by
}

/// Characters of one class up to a character of another are one run.
proof fn lemma_run_to(input: Seq<char>, from: int, to: int, class: Class)
    requires
        0 <= from <= to <= input.len(),
        forall|j: int| from <= j < to ==> in_class(class, #[trigger] input[j]),
        to == input.len() || !in_class(class, input[to]),
    ensures
        run_end(input, from, class) == to,
    decreases to - from,
{
    if from < to {
        assert(in_class(class, input[from]));
        lemma_run_to(input, from + 1, to, class);
    }
}

/// Where a text stands in the input, its characters are the input's.
proof fn lemma_text_at(input: Seq<char>, pos: int, text: Seq<char>)
    requires
        text_at(input, pos, text),
    ensures
        forall|k: int| 0 <= k < text.len() ==> #[trigger] input[pos + k] == text[k],
{
    assert forall|k: int| 0 <= k < text.len() implies #[trigger] input[pos + k] == text[k] by {
        assert(input.subrange(pos, pos + text.len())[k] == input[pos + k]);
    }
}

/// No operator starts with a `,` or a `]`.
proof fn lemma_operator_start(op: Op)
    ensures
        op_text(op).len() > 0,
        op_text(op)[0] != ',',
        op_text(op)[0] != ']',
{
}

/// No operator stands where a literal may end.
proof fn lemma_no_operator(input: Seq<char>, pos: int, from: int)
    requires
        closes(input, pos),
        0 <= from <= operators().len(),
    ensures
        operator_from(input, pos, from) is None,
    decreases operators().len() - from,
{
    if from < operators().len() {
        let text = op_text(operators()[from]);
        lemma_operator_start(operators()[from]);
        if text_at(input, pos, text) {
            lemma_text_at(input, pos, text);
            assert(input[pos + 0] == text[0]);
        }
        lemma_no_operator(input, pos, from + 1);
    }
}

/// An integer literal that stands in the input before the end, a `,` or a
/// `]` is read as that literal, and at most one name is interned on the
/// way.
proof fn lemma_integer_in_place(i: i64, input: Seq<char>, pos: int, st: ParseView)
    requires
        text_at(input, pos, int_text(i as int)),
        closes(input, pos + int_text(i as int).len()),
        st.names.len() < u32::MAX,
    ensures
        expression(input, pos, st).0 == Parsed::Done(
            ExprView::Int(i),
            pos + int_text(i as int).len(),
        ),
        grown(st, expression(input, pos, st).1, 1),
{
    let text = int_text(i as int);
    let end = pos + text.len();
    lemma_int_text_chars(i);
    lemma_text_at(input, pos, text);
    assert(input[pos + 0] == text[0]);
    assert(!is_blank(input[pos]));
    assert(skip(input, pos) == pos);
    assert(run_end(input, end, Class::Blank) == end);
    assert(skip(input, end) == end);
    assert forall|j: int| pos <= j < end implies is_plain(#[trigger] input[j]) by {
        assert(input[pos + (j - pos)] == text[j - pos]);
        assert(is_ascii(text[j - pos]));
    }
    lemma_run_to(input, pos, end, Class::Plain);
    assert(!is_reserved(input.subrange(pos, end))) by {
        assert(input.subrange(pos, end)[0] == text[0]);
    }
    lemma_expression(input, pos, st);
    lemma_for_each(input, pos, st);
    lemma_for_each_body(input, pos, reserve(st));
    let (first, st1) = for_each(input, pos, st);
    assert(first.missed());
    assert(grown(st, st1, 1));
    // The number.
    let start = if i < 0 {
        pos + 1
    } else {
        pos
    };
    let digits = if i < 0 {
        nat_text((-i) as nat)
    } else {
        nat_text(i as nat)
    };
    if i < 0 {
        lemma_nat_text((-i) as nat);
        assert(text[0] == '-');
        assert forall|j: int| start <= j < end implies is_digit(#[trigger] input[j]) by {
            assert(input[pos + (j - pos)] == text[j - pos]);
            assert(text[j - pos] == digits[j - pos - 1]);
        }
    } else {
        lemma_nat_text(i as nat);
        assert(is_digit(text[0]));
        assert forall|j: int| start <= j < end implies is_digit(#[trigger] input[j]) by {
            assert(input[pos + (j - pos)] == text[j - pos]);
        }
    }
    lemma_run_to(input, start, end, Class::Digit);
    assert(input.subrange(start, end) =~= digits) by {
        assert forall|k: int| 0 <= k < digits.len() implies input[start + k] == digits[k] by {
            assert(input[pos + (start + k - pos)] == text[start + k - pos]);
        }
    }
    assert(number(input, pos) == Parsed::Done(ExprView::Int(i), end));
    lemma_infix(input, pos, st1);
    lemma_operand(input, pos, st1);
    assert(string_literal(input, pos).missed());
    lemma_no_operator(input, end, 0);
    assert(operator(input, end) is Failed);
    assert(infix(input, pos, st1) == (Parsed::Done(ExprView::Int(i), end), st1));
}

/// A string literal that stands in the input before the end, a `,` or a
/// `]` is read as that literal.
proof fn lemma_string_in_place(s: Seq<char>, input: Seq<char>, pos: int, st: ParseView)
    requires
        text_at(input, pos, quoted(s)),
        closes(input, pos + quoted(s).len()),
    ensures
        expression(input, pos, st) == (Parsed::Done(ExprView::Str(s), pos + quoted(s).len()), st),
{
    let text = quoted(s);
    let end = pos + text.len();
    lemma_text_at(input, pos, text);
    assert(input[pos + 0] == text[0]);
    assert(input[pos + (text.len() - 1)] == text[text.len() - 1]);
    assert(input.subrange(pos + 1, pos + 1 + escaped(s).len() as int) =~= escaped(s)) by {
        assert forall|k: int| 0 <= k < escaped(s).len() implies input[pos + 1 + k] == escaped(
            s,
        )[k] by {
            assert(input[pos + (1 + k)] == text[1 + k]);
        }
    }
    lemma_escaped_reads_back(input, pos + 1, s);
    assert(string_literal(input, pos) == Parsed::Done(ExprView::Str(s), end));
    assert(!is_blank(input[pos]));
    assert(skip(input, pos) == pos);
    assert(run_end(input, end, Class::Blank) == end);
    assert(skip(input, end) == end);
    lemma_expression(input, pos, st);
    lemma_for_each(input, pos, st);
    lemma_for_each_body(input, pos, reserve(st));
    assert(run_end(input, pos, Class::Plain) == pos);
    assert(name(input, pos, reserve(st)).0.missed());
    let (first, st1) = for_each(input, pos, st);
    assert(first.missed());
    assert(st1 == st);
    lemma_infix(input, pos, st);
    lemma_operand(input, pos, st);
    lemma_no_operator(input, end, 0);
    assert(operator(input, end) is Failed);
    assert(infix(input, pos, st) == (Parsed::Done(ExprView::Str(s), end), st));
}

/// A reserved word that stands in the input before the end, a `,` or a `]`
/// is no name.
proof fn lemma_word_in_place(word: Seq<char>, input: Seq<char>, pos: int, st: ParseView)
    requires
        word == word_true() || word == word_false() || word == word_null(),
        text_at(input, pos, word),
        closes(input, pos + word.len()),
    ensures
        name(input, pos, st) == (miss::<u32>(pos), st),
        skip(input, pos) == pos,
        skip(input, pos + word.len()) == pos + word.len(),
        string_literal(input, pos).missed(),
        number(input, pos).missed(),
{
    let end = pos + word.len();
    lemma_text_at(input, pos, word);
    assert forall|j: int| pos <= j < end implies is_plain(#[trigger] input[j]) by {
        assert(input[pos + (j - pos)] == word[j - pos]);
        assert(is_ascii(word[j - pos]));
    }
    lemma_run_to(input, pos, end, Class::Plain);
    assert(is_reserved(input.subrange(pos, end)));
    assert(input[pos + 0] == word[0]);
    assert(!is_blank(input[pos]));
    assert(run_end(input, end, Class::Blank) == end);
    assert(!is_digit(input[pos]));
    assert(run_end(input, pos, Class::Digit) == pos);
}

/// A boolean literal that stands in the input before the end, a `,` or a
/// `]` is read as that literal.
proof fn lemma_boolean_in_place(b: bool, input: Seq<char>, pos: int, st: ParseView)
    requires
        text_at(input, pos, if b {
            word_true()
        } else {
            word_false()
        }),
        closes(input, pos + (if b {
            4int
        } else {
            5int
        })),
    ensures
        expression(input, pos, st) == (
            Parsed::Done(ExprView::Bool(b), pos + (if b {
                4int
            } else {
                5int
            })),
            st,
        ),
{
    let word = if b {
        word_true()
    } else {
        word_false()
    };
    let end = pos + word.len();
    lemma_word_in_place(word, input, pos, st);
    lemma_word_in_place(word, input, pos, reserve(st));
    lemma_text_at(input, pos, word);
    lemma_expression(input, pos, st);
    lemma_for_each(input, pos, st);
    lemma_for_each_body(input, pos, reserve(st));
    let (first, st1) = for_each(input, pos, st);
    assert(first.missed());
    assert(st1 == st);
    lemma_infix(input, pos, st);
    lemma_operand(input, pos, st);
    lemma_named_operand(input, pos, st);
    lemma_index(input, pos, st);
    lemma_call(input, pos, st);
    lemma_other_operand(input, pos, st);
    assert(lowered(input[pos + 0]) != lowered(word_true()[0]) || b);
    assert(boolean(input, pos) == Parsed::Done(ExprView::Bool(b), end));
    lemma_no_operator(input, end, 0);
    assert(operator(input, end) is Failed);
    assert(infix(input, pos, st) == (Parsed::Done(ExprView::Bool(b), end), st));
}

/// The null literal that stands in the input before the end, a `,` or a
/// `]` is read as that literal.
proof fn lemma_null_in_place(input: Seq<char>, pos: int, st: ParseView)
    requires
        text_at(input, pos, word_null()),
        closes(input, pos + 4),
    ensures
        expression(input, pos, st) == (Parsed::Done(ExprView::Null, pos + 4), st),
{
    let word = word_null();
    let end = pos + 4;
    lemma_word_in_place(word, input, pos, st);
    lemma_word_in_place(word, input, pos, reserve(st));
    lemma_text_at(input, pos, word);
    lemma_expression(input, pos, st);
    lemma_for_each(input, pos, st);
    lemma_for_each_body(input, pos, reserve(st));
    let (first, st1) = for_each(input, pos, st);
    assert(first.missed());
    assert(st1 == st);
    lemma_infix(input, pos, st);
    lemma_operand(input, pos, st);
    lemma_named_operand(input, pos, st);
    lemma_index(input, pos, st);
    lemma_call(input, pos, st);
    lemma_other_operand(input, pos, st);
    assert(lowered(input[pos + 0]) != lowered(word_true()[0]));
    assert(boolean(input, pos).missed());
    lemma_block(input, pos, st);
    lemma_block_body(input, pos, reserve(st));
    assert(block(input, pos, st).0.missed());
    assert(block(input, pos, st).1 == st);
    lemma_prefix_operation(input, pos, st);
    assert(prefix_operation(input, pos, st).0.missed());
    lemma_parenthesized(input, pos, st);
    assert(infix(input, pos, st).0.missed());
    assert(infix(input, pos, st).1 == st);
    assert(null_literal(input, pos) == Parsed::Done(ExprView::Null, end));
}

/// Whether a key may stand in a mapping that was read: it is not empty and
/// holds plain characters only.
pub open spec fn is_key(key: Seq<char>) -> bool {
    key.len() > 0 && forall|j: int| 0 <= j < key.len() ==> is_plain(#[trigger] key[j])
}

/// Whether a tree is made of literals alone: null, booleans, integers,
/// strings, lists of literals, and mappings of literals that are not empty
/// and whose keys ascend.
pub open spec fn is_literal(e: ExprView) -> bool
    decreases e, 1nat,
{
    match e {
        ExprView::Null => true,
        ExprView::Bool(_) => true,
        ExprView::Int(_) => true,
        ExprView::Str(_) => true,
        ExprView::List(items) => literal_items(items, items.len()),
        ExprView::Mapping(entries) => entries.len() > 0 && keys_ascend(entries) && literal_entries(
            entries,
            entries.len(),
        ),
        _ => false,
    }
}

/// Whether the first `count` expressions of a sequence are literals.
pub open spec fn literal_items(items: Seq<ExprView>, count: nat) -> bool
    decreases items, count,
{
    if count == 0 {
        true
    } else if count > items.len() {
        false
    } else {
        literal_items(items, (count - 1) as nat) && is_literal(items[count - 1])
    }
}

/// Whether the first `count` entries of a sequence have keys that may stand
/// in a mapping and literals under them.
pub open spec fn literal_entries(entries: Seq<(Seq<char>, ExprView)>, count: nat) -> bool
    decreases entries, count,
{
    if count == 0 {
        true
    } else if count > entries.len() {
        false
    } else {
        literal_entries(entries, (count - 1) as nat) && is_key(entries[count - 1].0) && is_literal(
            entries[count - 1].1,
        )
    }
}

proof fn lemma_literal_item(items: Seq<ExprView>, count: nat, k: int)
    requires
        literal_items(items, count),
        0 <= k < count,
    ensures
        k < items.len(),
        is_literal(items[k]),
    decreases count,
{
    if k < count - 1 {
        lemma_literal_item(items, (count - 1) as nat, k);
    }
}

proof fn lemma_literal_entry(entries: Seq<(Seq<char>, ExprView)>, count: nat, k: int)
    requires
        literal_entries(entries, count),
        0 <= k < count,
    ensures
        k < entries.len(),
        is_key(entries[k].0),
        is_literal(entries[k].1),
    decreases count,
{
    if k < count - 1 {
        lemma_literal_entry(entries, (count - 1) as nat, k);
    }
}

/// Where two texts stand one after the other, each of them stands.
proof fn lemma_text_split(input: Seq<char>, pos: int, a: Seq<char>, b: Seq<char>)
    requires
        text_at(input, pos, a + b),
    ensures
        text_at(input, pos, a),
        text_at(input, pos + a.len(), b),
{
    lemma_text_at(input, pos, a + b);
    assert(input.subrange(pos, pos + a.len()) =~= a) by {
        assert forall|k: int| 0 <= k < a.len() implies input[pos + k] == a[k] by {
            assert((a + b)[k] == a[k]);
        }
    }
    assert(input.subrange(pos + a.len(), pos + a.len() + b.len()) =~= b) by {
        assert forall|k: int| 0 <= k < b.len() implies input[pos + a.len() + k] == b[k] by {
            assert(input[pos + (a.len() + k)] == (a + b)[a.len() + k]);
        }
    }
}

/// A `"` among the escaped characters of a string stands after a `\`.
proof fn lemma_escaped_quote(s: Seq<char>, j: int)
    requires
        0 <= j < escaped(s).len(),
        escaped(s)[j] == '"',
    ensures
        j > 0,
        escaped(s)[j - 1] == '\\',
    decreases s.len(),
{
    let front = escaped(s.drop_last());
    if j < front.len() {
        lemma_escaped_quote(s.drop_last(), j);
    }
}

/// The text of a literal is not empty and starts with no blank.
proof fn lemma_literal_start(e: ExprView, style: Style, level: usize, floor: usize)
    requires
        is_literal(e),
    ensures
        expr_text(e, style, level, floor).len() > 0,
        !is_blank(expr_text(e, style, level, floor)[0]),
        !is_plain(expr_text(e, style, level, floor)[0]) ==> expr_text(e, style, level, floor)[0]
            == '"' || expr_text(e, style, level, floor)[0] == '[',
{
    match e {
        ExprView::Int(i) => {
            lemma_int_text_chars(i);
        },
        _ => {},
    }
}

/// Nothing but a mapping or a list starts with a bracket, and nothing at
/// all with a closing one.
proof fn lemma_bracket_starts_nothing(input: Seq<char>, pos: int, st: ParseView)
    requires
        0 <= pos < input.len(),
        input[pos] == '[' || input[pos] == ']',
    ensures
        skip(input, pos) == pos,
        for_each(input, pos, st).0.missed(),
        for_each(input, pos, st).1 == st,
        infix(input, pos, st).0.missed(),
        infix(input, pos, st).1 == st,
        null_literal(input, pos).missed(),
{
    assert(!is_blank(input[pos]));
    assert(is_ascii(input[pos]));
    assert(!is_plain(input[pos]));
    assert(run_end(input, pos, Class::Plain) == pos);
    assert(!is_digit(input[pos]));
    assert(run_end(input, pos, Class::Digit) == pos);
    lemma_for_each(input, pos, st);
    lemma_for_each_body(input, pos, reserve(st));
    lemma_infix(input, pos, st);
    lemma_operand(input, pos, st);
    assert(string_literal(input, pos).missed());
    assert(number(input, pos).missed());
    lemma_named_operand(input, pos, st);
    lemma_index(input, pos, st);
    lemma_call(input, pos, st);
    lemma_other_operand(input, pos, st);
    if text_at(input, pos, word_true()) {
        lemma_text_at(input, pos, word_true());
        assert(input[pos + 0] == word_true()[0]);
    }
    if text_at(input, pos, word_false()) {
        lemma_text_at(input, pos, word_false());
        assert(input[pos + 0] == word_false()[0]);
    }
    if text_at(input, pos, word_null()) {
        lemma_text_at(input, pos, word_null());
        assert(input[pos + 0] == word_null()[0]);
    }
    assert(lowered(input[pos + 0]) != lowered(word_true()[0]));
    assert(lowered(input[pos + 0]) != lowered(word_false()[0]));
    assert(lowered(input[pos + 0]) != lowered(word_null()[0]));
    assert(boolean(input, pos).missed());
    lemma_block(input, pos, st);
    lemma_block_body(input, pos, reserve(st));
    assert(block(input, pos, st).0.missed());
    assert(block(input, pos, st).1 == st);
    lemma_prefix_operation(input, pos, st);
    assert(prefix_operation(input, pos, st).0.missed());
    lemma_parenthesized(input, pos, st);
}

/// No expression starts with a `]`.
proof fn lemma_nothing_at_close(input: Seq<char>, pos: int, st: ParseView)
    requires
        0 <= pos < input.len(),
        input[pos] == ']',
    ensures
        expression(input, pos, st).0.missed(),
        expression(input, pos, st).1 == st,
{
    lemma_bracket_starts_nothing(input, pos, st);
    lemma_expression(input, pos, st);
    lemma_mapping(input, pos, st);
    lemma_list(input, pos, st);
    lemma_if_else(input, pos, st);
}

/// The text of the first `count` expressions of a list at `level`.
pub open spec fn listed(
    items: Seq<ExprView>,
    count: nat,
    style: Style,
    level: usize,
    floor: usize,
) -> Seq<char> {
    items_text(items, count, group_separator(style.pretty, level), style, level, floor)
}

/// Where the text of a sequence of expressions stands, the text of its
/// first `k` stands.
proof fn lemma_items_text_at(
    items: Seq<ExprView>,
    k: nat,
    style: Style,
    level: usize,
    floor: usize,
    input: Seq<char>,
    base: int,
)
    requires
        k <= items.len(),
        text_at(input, base, listed(items, items.len(), style, level, floor)),
    ensures
        text_at(input, base, listed(items, k, style, level, floor)),
        listed(items, k, style, level, floor).len()
            <= listed(items, items.len(), style, level, floor).len(),
    decreases items.len() - k,
{
    if k < items.len() {
        lemma_items_text_at(items, k + 1, style, level, floor, input, base);
        let separator = group_separator(style.pretty, level);
        let shorter = items_text(items, k, separator, style, level, floor);
        let rest = (if k + 1 > 1 {
            separator
        } else {
            Seq::empty()
        }) + expr_text(items[k as int], style, level, floor);
        assert(items_text(items, k + 1, separator, style, level, floor) =~= shorter + rest);
        lemma_text_split(input, base, shorter, rest);
    }
}

/// Where the text of a sequence of entries stands, the text of its first
/// `k` stands.
proof fn lemma_entries_text_at(
    entries: Seq<(Seq<char>, ExprView)>,
    k: nat,
    style: Style,
    level: usize,
    floor: usize,
    input: Seq<char>,
    base: int,
)
    requires
        k <= entries.len(),
        text_at(input, base, entries_text(entries, entries.len(), style, level, floor)),
    ensures
        text_at(input, base, entries_text(entries, k, style, level, floor)),
        entries_text(entries, k, style, level, floor).len() <= entries_text(
            entries,
            entries.len(),
            style,
            level,
            floor,
        ).len(),
    decreases entries.len() - k,
{
    if k < entries.len() {
        lemma_entries_text_at(entries, k + 1, style, level, floor, input, base);
        let separator = group_separator(style.pretty, level);
        let shorter = entries_text(entries, k, style, level, floor);
        let rest = (if k + 1 > 1 {
            separator
        } else {
            Seq::empty()
        }) + entry_text(entries[k as int], style, level, floor);
        assert(entries_text(entries, k + 1, style, level, floor) =~= shorter + rest);
        lemma_text_split(input, base, shorter, rest);
    }
}

/// A string literal before the end, a `,` or a `]` is no entry of a
/// mapping.
proof fn lemma_string_is_no_entry(s: Seq<char>, input: Seq<char>, at: int, st: ParseView)
    requires
        text_at(input, at, quoted(s)),
        closes(input, at + quoted(s).len()),
    ensures
        entry(input, at, st).0.missed(),
        entry(input, at, st).1 == st,
{
    let text = quoted(s);
    let m = escaped(s).len() as int;
    lemma_text_at(input, at, text);
    lemma_entry(input, at, st);
    lemma_run_end(input, at + 1, Class::Plain);
    let run = run_end(input, at + 1, Class::Plain);
    assert(input[at + (1 + m)] == text[1 + m]);
    assert(input[at + 1 + m] == '"');
    assert(is_ascii('"'));
    assert(!is_plain('"'));
    if run > at + 1 + m {
        assert(in_class(Class::Plain, input[at + 1 + m]));
    }
    if at + 1 < run < at + 1 + m && input[run] == '"' {
        let j = run - (at + 1);
        assert(input[at + (1 + j)] == text[1 + j]);
        assert(escaped(s)[j] == '"');
        lemma_escaped_quote(s, j);
        assert(input[at + j] == text[j]);
        assert(input[run - 1] == '\\');
        assert(in_class(Class::Plain, input[run - 1]));
        assert(is_ascii('\\'));
        assert(!is_plain('\\'));
    }
    if run == at + 1 + m {
        let after = run + 1;
        assert(after == at + text.len());
        assert(run_end(input, after, Class::Blank) == after);
        assert(skip(input, after) == after);
    }
}

/// What follows the `k`th expression of a sequence whose text stands before
/// a `]`: a `,` or the `]`.
proof fn lemma_after_item(
    items: Seq<ExprView>,
    k: nat,
    style: Style,
    level: usize,
    floor: usize,
    input: Seq<char>,
    base: int,
)
    requires
        !style.pretty,
        k < items.len(),
        text_at(input, base, listed(items, items.len(), style, level, floor)),
        char_at(input, base + listed(items, items.len(), style, level, floor).len(), ']'),
    ensures
        closes(input, base + listed(items, k + 1, style, level, floor).len()),
        listed(items, k + 1, style, level, floor).len()
            <= listed(items, items.len(), style, level, floor).len(),
        k + 1 < items.len() ==> char_at(
            input,
            base + listed(items, k + 1, style, level, floor).len(),
            ',',
        ) && char_at(
            input,
            base + listed(items, k + 1, style, level, floor).len() + 1,
            ' ',
        ) && text_at(
            input,
            base + listed(items, k + 1, style, level, floor).len() + 2,
            expr_text(items[k as int + 1], style, level, floor),
        ),
{
    let separator = group_separator(style.pretty, level);
    lemma_items_text_at(items, k + 1, style, level, floor, input, base);
    if k + 1 < items.len() {
        lemma_items_text_at(items, k + 2, style, level, floor, input, base);
        let shorter = items_text(items, k + 1, separator, style, level, floor);
        let next = expr_text(items[k as int + 1], style, level, floor);
        assert(items_text(items, k + 2, separator, style, level, floor) =~= shorter + (separator
            + next));
        lemma_text_split(input, base, shorter, separator + next);
        lemma_text_split(input, base + shorter.len(), separator, next);
        lemma_text_at(input, base + shorter.len(), separator);
        assert(input[base + shorter.len() + 0] == separator[0]);
        assert(input[base + shorter.len() + 1] == separator[1]);
    }
}

/// What follows the `k`th entry of a sequence whose text stands before a
/// `]`: a `,` or the `]`.
proof fn lemma_after_entry(
    entries: Seq<(Seq<char>, ExprView)>,
    k: nat,
    style: Style,
    level: usize,
    floor: usize,
    input: Seq<char>,
    base: int,
)
    requires
        !style.pretty,
        k < entries.len(),
        text_at(input, base, entries_text(entries, entries.len(), style, level, floor)),
        char_at(input, base + entries_text(entries, entries.len(), style, level, floor).len(), ']'),
    ensures
        closes(input, base + entries_text(entries, k + 1, style, level, floor).len()),
        entries_text(entries, k + 1, style, level, floor).len() <= entries_text(
            entries,
            entries.len(),
            style,
            level,
            floor,
        ).len(),
        k + 1 < entries.len() ==> char_at(
            input,
            base + entries_text(entries, k + 1, style, level, floor).len(),
            ',',
        ) && char_at(input, base + entries_text(entries, k + 1, style, level, floor).len() + 1, ' ')
            && text_at(
            input,
            base + entries_text(entries, k + 1, style, level, floor).len() + 2,
            entry_text(entries[k as int + 1], style, level, floor),
        ),
{
    let separator = group_separator(style.pretty, level);
    lemma_entries_text_at(entries, k + 1, style, level, floor, input, base);
    if k + 1 < entries.len() {
        lemma_entries_text_at(entries, k + 2, style, level, floor, input, base);
        let shorter = entries_text(entries, k + 1, style, level, floor);
        let next = entry_text(entries[k as int + 1], style, level, floor);
        assert(entries_text(entries, k + 2, style, level, floor) =~= shorter + (separator + next));
        lemma_text_split(input, base, shorter, separator + next);
        lemma_text_split(input, base + shorter.len(), separator, next);
        lemma_text_at(input, base + shorter.len(), separator);
        assert(input[base + shorter.len() + 0] == separator[0]);
        assert(input[base + shorter.len() + 1] == separator[1]);
    }
}

/// The next entry of a mapping whose keys ascend goes to the end of those
/// before it.
proof fn lemma_next_entry(entries: Seq<(Seq<char>, ExprView)>, k: int)
    requires
        keys_ascend(entries),
        0 <= k < entries.len(),
    ensures
        with_entry(entries.take(k), entries[k].0, entries[k].1) == entries.take(k + 1),
{
    let before = entries.take(k);
    assert forall|i: int| 0 <= i < before.len() implies text_less(
        #[trigger] before[i].0,
        entries[k].0,
    ) by {
        assert(before[i] == entries[i]);
    }
    lemma_slot_at_end(before, entries[k].0, 0);
    assert(before.insert(k, entries[k]) =~= entries.take(k + 1));
}

/// A literal whose compact text stands in the input before the end, a `,`
/// or a `]` is read as that literal, and nothing happens to the state but
/// that names are interned, no more than the text has characters.
#[verifier::rlimit(50)]
proof fn lemma_literal_in_place(
    e: ExprView,
    style: Style,
    level: usize,
    floor: usize,
    input: Seq<char>,
    pos: int,
    st: ParseView,
)
    requires
        is_literal(e),
        !style.pretty,
        text_at(input, pos, expr_text(e, style, level, floor)),
        closes(input, pos + expr_text(e, style, level, floor).len()),
        st.names.len() + expr_text(e, style, level, floor).len() < u32::MAX,
    ensures
        expression(input, pos, st).0 == Parsed::Done(
            e,
            pos + expr_text(e, style, level, floor).len(),
        ),
        grown(st, expression(input, pos, st).1, expr_text(e, style, level, floor).len() as int),
    decreases e, 1nat,
{
    let text = expr_text(e, style, level, floor);
    let end = pos + text.len();
    let lv = deeper(level);
    match e {
        ExprView::Null => {
            lemma_null_in_place(input, pos, st);
        },
        ExprView::Bool(b) => {
            lemma_boolean_in_place(b, input, pos, st);
        },
        ExprView::Int(i) => {
            lemma_int_text_chars(i);
            lemma_integer_in_place(i, input, pos, st);
        },
        ExprView::Str(s) => {
            lemma_string_in_place(s, input, pos, st);
        },
        ExprView::List(items) => {
            lemma_text_at(input, pos, text);
            assert(input[pos + 0] == text[0]);
            lemma_bracket_starts_nothing(input, pos, st);
            lemma_expression(input, pos, st);
            lemma_mapping(input, pos, st);
            lemma_list(input, pos, st);
            assert(run_end(input, end, Class::Blank) == end);
            assert(skip(input, end) == end);
            if items.len() == 0 {
                assert(input[pos + 1] == text[1]);
                lemma_nothing_at_close(input, pos + 1, st);
                lemma_bracket_starts_nothing(input, pos + 1, st);
                lemma_entry(input, pos + 1, st);
                assert(mapping(input, pos, st).0.missed());
                assert(items =~= Seq::<ExprView>::empty());
                assert(list(input, pos, st) == (Parsed::Done(e, end), st));
            } else {
                let separator = group_separator(style.pretty, lv);
                let full = items_text(items, items.len(), separator, style, lv, floor);
                assert(text =~= seq!['['] + (full + seq![']']));
                lemma_text_split(input, pos, seq!['['], full + seq![']']);
                lemma_text_split(input, pos + 1, full, seq![']']);
                lemma_text_at(input, pos + 1 + full.len(), seq![']']);
                assert(input[pos + 1 + full.len() + 0] == ']');
                let head = expr_text(items[0], style, lv, floor);
                assert(items_text(items, 0, separator, style, lv, floor) =~= Seq::<char>::empty());
                assert(items_text(items, 1, separator, style, lv, floor) =~= head);
                lemma_items_text_at(items, 1, style, lv, floor, input, pos + 1);
                lemma_after_item(items, 0, style, lv, floor, input, pos + 1);
                lemma_literal_item(items, items.len(), 0);
                lemma_literal_start(items[0], style, lv, floor);
                lemma_text_at(input, pos + 1, head);
                assert(input[pos + 1 + 0] == head[0]);
                assert(run_end(input, pos + 1, Class::Blank) == pos + 1);
                assert(skip(input, pos + 1) == pos + 1);
                // The first item is no entry of a mapping.
                lemma_entry(input, pos + 1, st);
                match items[0] {
                    ExprView::Str(s) => {
                        lemma_string_is_no_entry(s, input, pos + 1, st);
                    },
                    ExprView::Int(i) => {
                        lemma_int_text_chars(i);
                    },
                    _ => {},
                }
                assert(entry(input, pos + 1, st).0.missed());
                assert(entry(input, pos + 1, st).1 == st);
                assert(mapping(input, pos, st).0.missed());
                assert(mapping(input, pos, st).1 == st);
                // The items.
                lemma_literal_in_place(items[0], style, lv, floor, input, pos + 1, st);
                let st1 = expression(input, pos + 1, st).1;
                assert(items.take(1) =~= seq![items[0]]);
                lemma_items_in_place(items, 1, style, lv, floor, input, pos + 1, st1);
                let st2 = more_items(input, pos + 1 + head.len(), st1, items.take(1)).1;
                assert(grown(st, st2, text.len() as int));
                assert(closing(input, pos + 1 + full.len(), ']') == Parsed::Done(
                    (),
                    pos + 1 + full.len() + 1,
                ));
                assert(list(input, pos, st) == (Parsed::Done(e, end), st2));
            }
        },
        ExprView::Mapping(entries) => {
            let full = entries_text(entries, entries.len(), style, lv, floor);
            lemma_text_at(input, pos, text);
            assert(input[pos + 0] == text[0]);
            lemma_bracket_starts_nothing(input, pos, st);
            lemma_expression(input, pos, st);
            lemma_mapping(input, pos, st);
            assert(run_end(input, end, Class::Blank) == end);
            assert(skip(input, end) == end);
            assert(text =~= seq!['['] + (full + seq![']']));
            lemma_text_split(input, pos, seq!['['], full + seq![']']);
            lemma_text_split(input, pos + 1, full, seq![']']);
            lemma_text_at(input, pos + 1 + full.len(), seq![']']);
            assert(input[pos + 1 + full.len() + 0] == ']');
            let head = entry_text(entries[0], style, lv, floor);
            assert(entries_text(entries, 0, style, lv, floor) =~= Seq::<char>::empty());
            assert(entries_text(entries, 1, style, lv, floor) =~= head);
            lemma_entries_text_at(entries, 1, style, lv, floor, input, pos + 1);
            lemma_after_entry(entries, 0, style, lv, floor, input, pos + 1);
            lemma_literal_entry(entries, entries.len(), 0);
            lemma_text_at(input, pos + 1, head);
            assert(input[pos + 1 + 0] == head[0]);
            assert(run_end(input, pos + 1, Class::Blank) == pos + 1);
            assert(skip(input, pos + 1) == pos + 1);
            lemma_entry_in_place(entries[0], style, lv, floor, input, pos + 1, st);
            let st1 = entry(input, pos + 1, st).1;
            assert(entries.take(1) =~= seq![entries[0]]);
            lemma_entries_in_place(entries, 1, style, lv, floor, input, pos + 1, st1);
            let st2 = more_entries(input, pos + 1 + head.len(), st1, entries.take(1)).1;
            assert(grown(st, st2, text.len() as int));
            assert(closing(input, pos + 1 + full.len(), ']') == Parsed::Done(
                (),
                pos + 1 + full.len() + 1,
            ));
            assert(mapping(input, pos, st) == (Parsed::Done(e, end), st2));
        },
        _ => {},
    }
}

/// The expressions of a list from the `k`th on, where the text of the list
/// stands before a `]`.
proof fn lemma_items_in_place(
    items: Seq<ExprView>,
    k: nat,
    style: Style,
    level: usize,
    floor: usize,
    input: Seq<char>,
    base: int,
    st: ParseView,
)
    requires
        !style.pretty,
        literal_items(items, items.len()),
        1 <= k <= items.len(),
        text_at(input, base, listed(items, items.len(), style, level, floor)),
        char_at(input, base + listed(items, items.len(), style, level, floor).len(), ']'),
        listed(items, k, style, level, floor).len()
            <= listed(items, items.len(), style, level, floor).len(),
        k < items.len() ==> char_at(
            input,
            base + listed(items, k, style, level, floor).len(),
            ',',
        ) && char_at(
            input,
            base + listed(items, k, style, level, floor).len() + 1,
            ' ',
        ) && text_at(
            input,
            base + listed(items, k, style, level, floor).len() + 2,
            expr_text(items[k as int], style, level, floor),
        ),
        st.names.len() + (listed(items, items.len(), style, level, floor).len() - listed(
            items,
            k,
            style,
            level,
            floor,
        ).len()) < u32::MAX,
    ensures
        more_items(
            input,
            base + listed(items, k, style, level, floor).len(),
            st,
            items.take(k as int),
        ).0 == Parsed::Done(items, base + listed(items, items.len(), style, level, floor).len()),
        grown(
            st,
            more_items(
                input,
                base + listed(items, k, style, level, floor).len(),
                st,
                items.take(k as int),
            ).1,
            listed(items, items.len(), style, level, floor).len() - listed(
                items,
                k,
                style,
                level,
                floor,
            ).len(),
        ),
    decreases items, items.len() - k,
{
    let separator = group_separator(style.pretty, level);
    let full = items_text(items, items.len(), separator, style, level, floor);
    let here = base + items_text(items, k, separator, style, level, floor).len();
    lemma_more_items(input, here, st, items.take(k as int));
    if k == items.len() {
        assert(run_end(input, here, Class::Blank) == here);
        assert(skip(input, here) == here);
        assert(items.take(k as int) =~= items);
    } else {
        let next = expr_text(items[k as int], style, level, floor);
        let at = here + 2;
        assert(run_end(input, here, Class::Blank) == here);
        assert(skip(input, here) == here);
        lemma_literal_item(items, items.len(), k as int);
        lemma_literal_start(items[k as int], style, level, floor);
        lemma_text_at(input, at, next);
        assert(input[at + 0] == next[0]);
        assert(is_blank(input[here + 1]));
        lemma_run_to(input, here + 1, at, Class::Blank);
        assert(skip(input, here + 1) == at);
        assert(items_text(items, k + 1, separator, style, level, floor) =~= items_text(
            items,
            k,
            separator,
            style,
            level,
            floor,
        ) + separator + next);
        lemma_after_item(items, k, style, level, floor, input, base);
        lemma_literal_in_place(items[k as int], style, level, floor, input, at, st);
        let st1 = expression(input, at, st).1;
        assert(items.take(k as int).push(items[k as int]) =~= items.take(k as int + 1));
        lemma_items_in_place(items, k + 1, style, level, floor, input, base, st1);
    }
}

/// An entry of a mapping whose text stands in the input before a `,` or a
/// `]`.
proof fn lemma_entry_in_place(
    entry_read: (Seq<char>, ExprView),
    style: Style,
    level: usize,
    floor: usize,
    input: Seq<char>,
    at: int,
    st: ParseView,
)
    requires
        !style.pretty,
        is_key(entry_read.0),
        is_literal(entry_read.1),
        text_at(input, at, entry_text(entry_read, style, level, floor)),
        closes(input, at + entry_text(entry_read, style, level, floor).len()),
        st.names.len() + entry_text(entry_read, style, level, floor).len() < u32::MAX,
    ensures
        entry(input, at, st).0 == Parsed::Done(
            entry_read,
            at + entry_text(entry_read, style, level, floor).len(),
        ),
        grown(st, entry(input, at, st).1, entry_text(entry_read, style, level, floor).len() as int),
    decreases entry_read, 0nat,
{
    let key = entry_read.0;
    let value = expr_text(entry_read.1, style, level, floor);
    let text = entry_text(entry_read, style, level, floor);
    let front = seq!['"'] + key + seq!['"', ':', ' '];
    assert(text =~= front + value);
    lemma_text_split(input, at, front, value);
    lemma_text_at(input, at, front);
    let key_end = at + 1 + key.len();
    assert(input[at + 0] == front[0]);
    assert forall|j: int| at + 1 <= j < key_end implies is_plain(#[trigger] input[j]) by {
        assert(input[at + (j - at)] == front[j - at]);
        assert(front[j - at] == key[j - at - 1]);
    }
    assert(input[at + (1 + key.len())] == front[1 + key.len() as int]);
    assert(input[at + (2 + key.len())] == front[2 + key.len() as int]);
    assert(input[at + (3 + key.len())] == front[3 + key.len() as int]);
    assert(is_ascii('"'));
    assert(!is_plain(input[key_end]));
    lemma_run_to(input, at + 1, key_end, Class::Plain);
    assert(run_end(input, key_end + 1, Class::Blank) == key_end + 1);
    assert(skip(input, key_end + 1) == key_end + 1);
    let start = at + front.len();
    lemma_literal_start(entry_read.1, style, level, floor);
    lemma_text_at(input, start, value);
    assert(input[start + 0] == value[0]);
    lemma_run_to(input, key_end + 2, start, Class::Blank);
    assert(skip(input, key_end + 2) == start);
    lemma_entry(input, at, st);
    lemma_required(input, start, st);
    lemma_literal_in_place(entry_read.1, style, level, floor, input, start, st);
    assert(input.subrange(at + 1, key_end) =~= key) by {
        assert forall|k: int| 0 <= k < key.len() implies input[at + 1 + k] == key[k] by {
            assert(input[at + (1 + k)] == front[1 + k]);
        }
    }
}

/// The entries of a mapping from the `k`th on, where the text of the
/// mapping stands before a `]`.
proof fn lemma_entries_in_place(
    entries: Seq<(Seq<char>, ExprView)>,
    k: nat,
    style: Style,
    level: usize,
    floor: usize,
    input: Seq<char>,
    base: int,
    st: ParseView,
)
    requires
        !style.pretty,
        keys_ascend(entries),
        literal_entries(entries, entries.len()),
        1 <= k <= entries.len(),
        text_at(input, base, entries_text(entries, entries.len(), style, level, floor)),
        char_at(input, base + entries_text(entries, entries.len(), style, level, floor).len(), ']'),
        entries_text(entries, k, style, level, floor).len() <= entries_text(
            entries,
            entries.len(),
            style,
            level,
            floor,
        ).len(),
        k < entries.len() ==> char_at(
            input,
            base + entries_text(entries, k, style, level, floor).len(),
            ',',
        ) && char_at(input, base + entries_text(entries, k, style, level, floor).len() + 1, ' ')
            && text_at(
            input,
            base + entries_text(entries, k, style, level, floor).len() + 2,
            entry_text(entries[k as int], style, level, floor),
        ),
        st.names.len() + (entries_text(entries, entries.len(), style, level, floor).len()
            - entries_text(entries, k, style, level, floor).len()) < u32::MAX,
    ensures
        more_entries(
            input,
            base + entries_text(entries, k, style, level, floor).len(),
            st,
            entries.take(k as int),
        ).0 == Parsed::Done(
            entries,
            base + entries_text(entries, entries.len(), style, level, floor).len(),
        ),
        grown(
            st,
            more_entries(
                input,
                base + entries_text(entries, k, style, level, floor).len(),
                st,
                entries.take(k as int),
            ).1,
            entries_text(entries, entries.len(), style, level, floor).len() - entries_text(
                entries,
                k,
                style,
                level,
                floor,
            ).len(),
        ),
    decreases entries, entries.len() - k,
{
    let separator = group_separator(style.pretty, level);
    let here = base + entries_text(entries, k, style, level, floor).len();
    lemma_more_entries(input, here, st, entries.take(k as int));
    if k == entries.len() {
        assert(run_end(input, here, Class::Blank) == here);
        assert(skip(input, here) == here);
        assert(entries.take(k as int) =~= entries);
    } else {
        let next = entry_text(entries[k as int], style, level, floor);
        let at = here + 2;
        assert(run_end(input, here, Class::Blank) == here);
        assert(skip(input, here) == here);
        lemma_literal_entry(entries, entries.len(), k as int);
        lemma_text_at(input, at, next);
        assert(input[at + 0] == next[0]);
        assert(is_blank(input[here + 1]));
        lemma_run_to(input, here + 1, at, Class::Blank);
        assert(skip(input, here + 1) == at);
        assert(entries_text(entries, k + 1, style, level, floor) =~= entries_text(
            entries,
            k,
            style,
            level,
            floor,
        ) + separator + next);
        lemma_after_entry(entries, k, style, level, floor, input, base);
        lemma_entry_in_place(entries[k as int], style, level, floor, input, at, st);
        let st1 = entry(input, at, st).1;
        lemma_next_entry(entries, k as int);
        lemma_entries_in_place(entries, k + 1, style, level, floor, input, base, st1);
    }
}

/// Writing a literal in the compact form and reading it again gives the
/// literal back: the text of the expression is a whole input, and its tree
/// is the expression.  (The session must have room for the names that the
/// integers of the text are taken for on the way.)
pub proof fn law_literal_reads_back(
    e: ExprView,
    style: Style,
    level: usize,
    floor: usize,
    st: ParseView,
)
    requires
        is_literal(e),
        !style.pretty,
        st.names.len() + expr_text(e, style, level, floor).len() < u32::MAX,
    ensures
        whole(expr_text(e, style, level, floor), st).0 == Parsed::Done(
            e,
            expr_text(e, style, level, floor).len() as int,
        ),
{
    let text = expr_text(e, style, level, floor);
    assert(text.subrange(0, text.len() as int) =~= text);
    lemma_literal_in_place(e, style, level, floor, text, 0, st);
}

/// The literal that writes a value.  A float is written as the text that
/// `fm` has for it.
pub open spec fn literal_of(v: ValueView, fm: FloatModel) -> ExprView
    decreases v,
{
    match v {
        ValueView::Null => ExprView::Null,
        ValueView::String(s) => ExprView::Str(s),
        ValueView::Integer(i) => ExprView::Int(i),
        ValueView::Float(bits) => ExprView::Float((fm.text)(bits)),
        ValueView::Boolean(b) => ExprView::Bool(b),
        ValueView::List(items) => ExprView::List(
            Seq::new(
                items.len(),
                |i: int|
                    if 0 <= i < items.len() {
                        literal_of(items[i], fm)
                    } else {
                        ExprView::Null
                    },
            ),
        ),
        ValueView::Mapping(entries) => ExprView::Mapping(
            Seq::new(
                entries.len(),
                |i: int|
                    if 0 <= i < entries.len() {
                        (entries[i].0, literal_of(entries[i].1, fm))
                    } else {
                        (Seq::empty(), ExprView::Null)
                    },
            ),
        ),
    }
}

/// Whether every character of a string may stand unescaped in a string
/// literal.
pub open spec fn is_ordinary_text(s: Seq<char>) -> bool {
    forall|j: int| 0 <= j < s.len() ==> is_ordinary(#[trigger] s[j])
}

/// Whether a value is written as it is read: it holds no float, its
/// strings hold ordinary characters only, and its mappings are not empty
/// and have keys of plain characters in ascending order.
pub open spec fn is_plain_value(v: ValueView) -> bool
    decreases v, 1nat,
{
    match v {
        ValueView::Null => true,
        ValueView::String(s) => is_ordinary_text(s),
        ValueView::Integer(_) => true,
        ValueView::Float(_) => false,
        ValueView::Boolean(_) => true,
        ValueView::List(items) => plain_items(items, items.len()),
        ValueView::Mapping(entries) => entries.len() > 0 && keys_ascend(entries) && plain_entries(
            entries,
            entries.len(),
        ),
    }
}

/// Whether the first `count` values of a sequence are written as they are
/// read.
pub open spec fn plain_items(items: Seq<ValueView>, count: nat) -> bool
    decreases items, count,
{
    if count == 0 {
        true
    } else if count > items.len() {
        false
    } else {
        plain_items(items, (count - 1) as nat) && is_plain_value(items[count - 1])
    }
}

/// Whether the first `count` entries of a sequence are written as they are
/// read.
pub open spec fn plain_entries(entries: Seq<(Seq<char>, ValueView)>, count: nat) -> bool
    decreases entries, count,
{
    if count == 0 {
        true
    } else if count > entries.len() {
        false
    } else {
        plain_entries(entries, (count - 1) as nat) && is_key(entries[count - 1].0)
            && is_plain_value(entries[count - 1].1)
    }
}

/// Whether a value nests less deep than `depth`.
pub open spec fn is_within(v: ValueView, depth: nat) -> bool
    decreases v, 1nat,
{
    depth > 0 && match v {
        ValueView::List(items) => items_within(items, items.len(), (depth - 1) as nat),
        ValueView::Mapping(entries) => entries_within(entries, entries.len(), (depth - 1) as nat),
        _ => true,
    }
}

/// Whether the first `count` values of a sequence nest less deep than
/// `depth`.
pub open spec fn items_within(items: Seq<ValueView>, count: nat, depth: nat) -> bool
    decreases items, count,
{
    if count == 0 {
        true
    } else if count > items.len() {
        false
    } else {
        items_within(items, (count - 1) as nat, depth) && is_within(items[count - 1], depth)
    }
}

/// Whether the values of the first `count` entries of a sequence nest less
/// deep than `depth`.
pub open spec fn entries_within(
    entries: Seq<(Seq<char>, ValueView)>,
    count: nat,
    depth: nat,
) -> bool
    decreases entries, count,
{
    if count == 0 {
        true
    } else if count > entries.len() {
        false
    } else {
        entries_within(entries, (count - 1) as nat, depth) && is_within(
            entries[count - 1].1,
            depth,
        )
    }
}

/// A string of ordinary characters stands in a string literal as it is.
proof fn lemma_ordinary_text(s: Seq<char>)
    requires
        is_ordinary_text(s),
    ensures
        escaped(s) == s,
    decreases s.len(),
{
    if s.len() > 0 {
        assert(is_ordinary(s[s.len() - 1]));
        assert forall|j: int| 0 <= j < s.drop_last().len() implies is_ordinary(
            #[trigger] s.drop_last()[j],
        ) by {
            assert(s.drop_last()[j] == s[j]);
        }
        lemma_ordinary_text(s.drop_last());
        assert(escaped(s) =~= s);
    } else {
        assert(escaped(s) =~= s);
    }
}

/// The literal of a value that is written as it is read is a literal, has
/// the text of the value, and has the value as its value.
proof fn lemma_plain_value(
    v: ValueView,
    style: Style,
    level: usize,
    floor: usize,
    st: EvalView,
    depth: nat,
)
    requires
        is_plain_value(v),
    ensures
        is_literal(literal_of(v, style.fm)),
        expr_text(literal_of(v, style.fm), style, level, floor) == value_text(
            v,
            style.pretty,
            level,
            style.fm,
        ),
        is_within(v, depth) ==> eval_expr(literal_of(v, style.fm), st, depth, style.fm) == (v, st),
    decreases v, 1nat,
{
    let fm = style.fm;
    match v {
        ValueView::String(s) => {
            lemma_ordinary_text(s);
        },
        ValueView::List(items) => {
            let literals = literal_of(v, fm)->List_0;
            lemma_plain_items(items, items.len(), style, deeper(level), floor, st, depth);
            if is_within(v, depth) {
                assert(items.take(items.len() as int) =~= items);
            }
        },
        ValueView::Mapping(entries) => {
            let literals = literal_of(v, fm)->Mapping_0;
            lemma_plain_entries(entries, entries.len(), style, deeper(level), floor, st, depth);
            assert forall|i: int, j: int| 0 <= i < j < literals.len() implies text_less(
                #[trigger] literals[i].0,
                #[trigger] literals[j].0,
            ) by {
                assert(text_less(entries[i].0, entries[j].0));
            }
            if is_within(v, depth) {
                assert(entries.take(entries.len() as int) =~= entries);
            }
        },
        _ => {},
    }
}

/// What [`lemma_plain_value`] says, of the first `count` values of a list.
proof fn lemma_plain_items(
    items: Seq<ValueView>,
    count: nat,
    style: Style,
    level: usize,
    floor: usize,
    st: EvalView,
    depth: nat,
)
    requires
        plain_items(items, count),
        count <= items.len(),
    ensures
        literal_items(literal_of(ValueView::List(items), style.fm)->List_0, count),
        items_text(
            literal_of(ValueView::List(items), style.fm)->List_0,
            count,
            group_separator(style.pretty, level),
            style,
            level,
            floor,
        ) == crate::value::items_text(items, count, style.pretty, level, style.fm),
        depth > 0 && items_within(items, count, (depth - 1) as nat) ==> eval_items(
            literal_of(ValueView::List(items), style.fm)->List_0,
            count,
            st,
            (depth - 1) as nat,
            style.fm,
        ) == (items.take(count as int), st),
    decreases items, count,
{
    let literals = literal_of(ValueView::List(items), style.fm)->List_0;
    if count > 0 {
        lemma_plain_items(items, (count - 1) as nat, style, level, floor, st, depth);
        lemma_plain_value(items[count - 1], style, level, floor, st, (depth - 1) as nat);
        assert(literals[count - 1] == literal_of(items[count - 1], style.fm));
        if depth > 0 && items_within(items, count, (depth - 1) as nat) {
            assert(items.take(count - 1).push(items[count - 1]) =~= items.take(count as int));
        }
    } else {
        assert(items.take(0) =~= Seq::<ValueView>::empty());
    }
}

/// What [`lemma_plain_value`] says, of the first `count` entries of a
/// mapping.
proof fn lemma_plain_entries(
    entries: Seq<(Seq<char>, ValueView)>,
    count: nat,
    style: Style,
    level: usize,
    floor: usize,
    st: EvalView,
    depth: nat,
)
    requires
        plain_entries(entries, count),
        count <= entries.len(),
    ensures
        literal_entries(literal_of(ValueView::Mapping(entries), style.fm)->Mapping_0, count),
        entries_text(
            literal_of(ValueView::Mapping(entries), style.fm)->Mapping_0,
            count,
            style,
            level,
            floor,
        ) == crate::value::entries_text(entries, count, style.pretty, level, style.fm),
        depth > 0 && entries_within(entries, count, (depth - 1) as nat) ==> eval_entries(
            literal_of(ValueView::Mapping(entries), style.fm)->Mapping_0,
            count,
            st,
            (depth - 1) as nat,
            style.fm,
        ) == (entries.take(count as int), st),
    decreases entries, count,
{
    let literals = literal_of(ValueView::Mapping(entries), style.fm)->Mapping_0;
    if count > 0 {
        lemma_plain_entries(entries, (count - 1) as nat, style, level, floor, st, depth);
        lemma_plain_value(entries[count - 1].1, style, level, floor, st, (depth - 1) as nat);
        assert(literals[count - 1] == (
            entries[count - 1].0,
            literal_of(entries[count - 1].1, style.fm),
        ));
        assert(entry_text(literals[count - 1], style, level, floor) == crate::value::keyed_text(
            entries[count - 1],
            style.pretty,
            level,
            style.fm,
        ));
        if depth > 0 && entries_within(entries, count, (depth - 1) as nat) {
            assert(entries.take(count - 1).push(entries[count - 1]) =~= entries.take(
                count as int,
            ));
        }
    } else {
        assert(entries.take(0) =~= Seq::<(Seq<char>, ValueView)>::empty());
    }
}

/// A value nests less deep than half the length of its text.
proof fn lemma_text_bounds_nesting(
    v: ValueView,
    pretty: bool,
    level: usize,
    fm: FloatModel,
    depth: nat,
)
    requires
        value_text(v, pretty, level, fm).len() < 2 * depth,
    ensures
        is_within(v, depth),
    decreases v, 1nat,
{
    match v {
        ValueView::List(items) => {
            if items.len() > 0 {
                lemma_items_bound_nesting(items, items.len(), pretty, deeper(level), fm, depth);
            }
        },
        ValueView::Mapping(entries) => {
            if entries.len() > 0 {
                lemma_entries_bound_nesting(
                    entries,
                    entries.len(),
                    pretty,
                    deeper(level),
                    fm,
                    depth,
                );
            }
        },
        _ => {},
    }
}

/// What [`lemma_text_bounds_nesting`] says, of the first `count` values of
/// a list whose text stands between brackets.
proof fn lemma_items_bound_nesting(
    items: Seq<ValueView>,
    count: nat,
    pretty: bool,
    level: usize,
    fm: FloatModel,
    depth: nat,
)
    requires
        count <= items.len(),
        crate::value::items_text(items, count, pretty, level, fm).len() + 2 < 2 * depth,
    ensures
        items_within(items, count, (depth - 1) as nat),
    decreases items, count,
{
    if count > 0 {
        lemma_items_bound_nesting(items, (count - 1) as nat, pretty, level, fm, depth);
        lemma_text_bounds_nesting(items[count - 1], pretty, level, fm, (depth - 1) as nat);
    }
}

/// What [`lemma_text_bounds_nesting`] says, of the first `count` entries of
/// a mapping whose text stands between brackets.
proof fn lemma_entries_bound_nesting(
    entries: Seq<(Seq<char>, ValueView)>,
    count: nat,
    pretty: bool,
    level: usize,
    fm: FloatModel,
    depth: nat,
)
    requires
        count <= entries.len(),
        crate::value::entries_text(entries, count, pretty, level, fm).len() + 2 < 2 * depth,
    ensures
        entries_within(entries, count, (depth - 1) as nat),
    decreases entries, count,
{
    if count > 0 {
        lemma_entries_bound_nesting(entries, (count - 1) as nat, pretty, level, fm, depth);
        assert(crate::value::keyed_text(entries[count - 1], pretty, level, fm).len()
            >= value_text(entries[count - 1].1, pretty, level, fm).len());
        lemma_text_bounds_nesting(entries[count - 1].1, pretty, level, fm, (depth - 1) as nat);
    }
}

/// Writing a value in the compact form, reading the text and evaluating
/// what was read gives the value back, for every value that is written as
/// it is read.  (The session must have room for the names that the
/// integers of the text are taken for on the way.)
pub proof fn law_value_reads_back(v: ValueView, fm: FloatModel, st: ParseView, state: EvalView)
    requires
        is_plain_value(v),
        st.names.len() + value_text(v, false, 0, fm).len() < u32::MAX,
    ensures
        whole(value_text(v, false, 0, fm), st).0 == Parsed::Done(
            literal_of(v, fm),
            value_text(v, false, 0, fm).len() as int,
        ),
        eval_expr(literal_of(v, fm), state, MAX_DEPTH as nat, fm) == (v, state),
{
    let style = Style {
        session: CtxStateView { contexts: st.contexts, names: st.names },
        pretty: false,
        fm,
    };
    lemma_text_bounds_nesting(v, false, 0, fm, MAX_DEPTH as nat);
    lemma_plain_value(v, style, 0, 0, state, MAX_DEPTH as nat);
    law_literal_reads_back(literal_of(v, fm), style, 0, 0, st);
}

/// The compact text of a literal is the same in every session and at every
/// level.
proof fn lemma_literal_text_is_fixed(
    e: ExprView,
    style: Style,
    level: usize,
    floor: usize,
    other: Style,
    other_level: usize,
    other_floor: usize,
)
    requires
        is_literal(e),
        !style.pretty,
        !other.pretty,
    ensures
        expr_text(e, style, level, floor) == expr_text(e, other, other_level, other_floor),
    decreases e, 1nat,
{
    match e {
        ExprView::List(items) => {
            lemma_literal_items_text_is_fixed(
                items,
                items.len(),
                style,
                deeper(level),
                floor,
                other,
                deeper(other_level),
                other_floor,
            );
        },
        ExprView::Mapping(entries) => {
            lemma_literal_entries_text_is_fixed(
                entries,
                entries.len(),
                style,
                deeper(level),
                floor,
                other,
                deeper(other_level),
                other_floor,
            );
        },
        _ => {},
    }
}

/// What [`lemma_literal_text_is_fixed`] says, of the first `count`
/// expressions of a list.
proof fn lemma_literal_items_text_is_fixed(
    items: Seq<ExprView>,
    count: nat,
    style: Style,
    level: usize,
    floor: usize,
    other: Style,
    other_level: usize,
    other_floor: usize,
)
    requires
        literal_items(items, count),
        !style.pretty,
        !other.pretty,
    ensures
        listed(items, count, style, level, floor) == listed(
            items,
            count,
            other,
            other_level,
            other_floor,
        ),
    decreases items, count,
{
    if count > 0 {
        lemma_literal_items_text_is_fixed(
            items,
            (count - 1) as nat,
            style,
            level,
            floor,
            other,
            other_level,
            other_floor,
        );
        lemma_literal_text_is_fixed(
            items[count - 1],
            style,
            level,
            floor,
            other,
            other_level,
            other_floor,
        );
    }
}

/// What [`lemma_literal_text_is_fixed`] says, of the first `count` entries
/// of a mapping.
proof fn lemma_literal_entries_text_is_fixed(
    entries: Seq<(Seq<char>, ExprView)>,
    count: nat,
    style: Style,
    level: usize,
    floor: usize,
    other: Style,
    other_level: usize,
    other_floor: usize,
)
    requires
        literal_entries(entries, count),
        !style.pretty,
        !other.pretty,
    ensures
        entries_text(entries, count, style, level, floor) == entries_text(
            entries,
            count,
            other,
            other_level,
            other_floor,
        ),
    decreases entries, count,
{
    if count > 0 {
        lemma_literal_entries_text_is_fixed(
            entries,
            (count - 1) as nat,
            style,
            level,
            floor,
            other,
            other_level,
            other_floor,
        );
        lemma_literal_text_is_fixed(
            entries[count - 1].1,
            style,
            level,
            floor,
            other,
            other_level,
            other_floor,
        );
        assert(entry_text(entries[count - 1], style, level, floor) == entry_text(
            entries[count - 1],
            other,
            other_level,
            other_floor,
        ));
    }
}

/// The literal of a value that is written as it is read is the same under
/// every float model.
proof fn lemma_plain_literal_is_fixed(v: ValueView, fm: FloatModel, other: FloatModel)
    requires
        is_plain_value(v),
    ensures
        literal_of(v, fm) == literal_of(v, other),
    decreases v, 1nat,
{
    match v {
        ValueView::List(items) => {
            let a = literal_of(v, fm)->List_0;
            let b = literal_of(v, other)->List_0;
            assert forall|i: int| 0 <= i < items.len() implies a[i] == b[i] by {
                lemma_plain_item(items, items.len(), i);
                lemma_plain_literal_is_fixed(items[i], fm, other);
            }
            assert(a =~= b);
        },
        ValueView::Mapping(entries) => {
            let a = literal_of(v, fm)->Mapping_0;
            let b = literal_of(v, other)->Mapping_0;
            assert forall|i: int| 0 <= i < entries.len() implies a[i] == b[i] by {
                lemma_plain_entry(entries, entries.len(), i);
                lemma_plain_literal_is_fixed(entries[i].1, fm, other);
            }
            assert(a =~= b);
        },
        _ => {},
    }
}

proof fn lemma_plain_item(items: Seq<ValueView>, count: nat, k: int)
    requires
        plain_items(items, count),
        0 <= k < count,
    ensures
        k < items.len(),
        is_plain_value(items[k]),
    decreases count,
{
    if k < count - 1 {
        lemma_plain_item(items, (count - 1) as nat, k);
    }
}

proof fn lemma_plain_entry(entries: Seq<(Seq<char>, ValueView)>, count: nat, k: int)
    requires
        plain_entries(entries, count),
        0 <= k < count,
    ensures
        k < entries.len(),
        is_plain_value(entries[k].1),
    decreases count,
{
    if k < count - 1 {
        lemma_plain_entry(entries, (count - 1) as nat, k);
    }
}

/// Formatting the compact text of a literal gives that text again: the text
/// parses in a fresh session, its tree is the literal, and whatever
/// [`crate::format`] may give for it in the compact form is the text
/// itself.
pub proof fn law_format_keeps_literals(
    e: ExprView,
    style: Style,
    level: usize,
    floor: usize,
    again: Seq<char>,
)
    requires
        is_literal(e),
        !style.pretty,
        expr_text(e, style, level, floor).len() + 7 < u32::MAX,
        lays_out(expr_text(e, style, level, floor), false, again),
    ensures
        parsed(expr_text(e, style, level, floor)).0 == Parsed::Done(
            e,
            expr_text(e, style, level, floor).len() as int,
        ),
        again == expr_text(e, style, level, floor),
{
    let text = expr_text(e, style, level, floor);
    let start = parse_start(CtxStateView { contexts: fresh_contexts(), names: builtin_names() });
    assert(builtin_names().len() == 7);
    law_literal_reads_back(e, style, level, floor, start);
    let log = choose|log: Seq<FloatCall>| is_layout_of(again, text, e, false, log);
    let fm = choose|fm: FloatModel| fm.explains(log);
    let session = CtxStateView { contexts: parsed(text).1.contexts, names: parsed(text).1.names };
    lemma_literal_text_is_fixed(e, style, level, floor, Style { session, pretty: false, fm }, 0, 0);
}

/// Evaluating the compact text of a value gives the value back, for every
/// value that is written as it is read: the text parses in a fresh session,
/// and whatever [`crate::evaluate`] may give for it is the value.
pub proof fn law_evaluation_reads_values(
    v: ValueView,
    fm: FloatModel,
    found: ValueView,
    emitted: Seq<Seq<char>>,
)
    requires
        is_plain_value(v),
        value_text(v, false, 0, fm).len() + 7 < u32::MAX,
        gives(value_text(v, false, 0, fm), found, emitted),
    ensures
        parsed(value_text(v, false, 0, fm)).0 is Done,
        found == v,
        emitted == Seq::<Seq<char>>::empty(),
{
    let text = value_text(v, false, 0, fm);
    let start = parse_start(CtxStateView { contexts: fresh_contexts(), names: builtin_names() });
    assert(builtin_names().len() == 7);
    law_value_reads_back(v, fm, start, eval_start(text));
    lemma_text_bounds_nesting(v, false, 0, fm, MAX_DEPTH as nat);
    let log = choose|log: Seq<FloatCall>| is_value_of(found, emitted, text, literal_of(v, fm), log);
    let other = choose|other: FloatModel| other.explains(log);
    lemma_plain_literal_is_fixed(v, fm, other);
    let style = Style {
        session: CtxStateView { contexts: start.contexts, names: start.names },
        pretty: false,
        fm: other,
    };
    lemma_plain_value(v, style, 0, 0, eval_start(text), MAX_DEPTH as nat);
}

} // verus!

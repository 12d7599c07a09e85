//! Parse errors: where parsing failed, in what, and what would have been
//! accepted there.

use vstd::prelude::*;
use vstd::string::StringExecFns;
use crate::infix;
use crate::infix::op_text;
use crate::text::{chars_of, nat_text, push_nat, string_of};

verus! {

/// The constructs that a failure can be in.
#[derive(Debug, Clone, Copy, PartialEq, Eq, Structural)]
pub enum Label {
    Expression,
    Text,
    Decimal,
    Boolean,
    List,
    Mapping,
    IndexExpression,
    InfixExpression,
    PrefixOperation,
    FunctionCall,
    FunctionDeclaration,
    BlockExpression,
    ConditionalExpression,
}

/// What a failure can say, in words, that it expected.
#[derive(Debug, Clone, Copy, PartialEq, Eq, Structural)]
pub enum Description {
    AValidExpression,
    AnExpression,
    SomeExpression,
    EndOfInput,
    FractionalPart,
    Null,
    Operand,
    OneOrMoreArguments,
    OneOrMoreParameters,
    AtLeastOneAssignment,
    IndexIdentifier,
    ItemIdentifier,
    IntegerInRange,
    FewerNames,
    FewerScopes,
}

/// The words that a failure can say it expected.
#[derive(Debug, Clone, Copy, PartialEq, Eq, Structural)]
pub enum Word {
    True,
    False,
    Operator(infix::Op),
}

/// What a failure expected.
#[derive(Debug, Clone, Copy, PartialEq, Eq, Structural)]
pub enum Expected {
    Char(char),
    Literal(Word),
    Description(Description),
}

/// One note that a failure collects on its way out of the grammar.
#[derive(Debug, Clone, Copy, PartialEq, Eq, Structural)]
pub enum Context {
    Label(Label),
    Expected(Expected),
}

/// The name of a construct.
pub open spec fn label_text(label: Label) -> Seq<char> {
    match label {
        Label::Expression => "expression"@,
        Label::Text => "string"@,
        Label::Decimal => "decimal"@,
        Label::Boolean => "boolean"@,
        Label::List => "list"@,
        Label::Mapping => "map"@,
        Label::IndexExpression => "index expression"@,
        Label::InfixExpression => "infix expression"@,
        Label::PrefixOperation => "prefix operation"@,
        Label::FunctionCall => "function call"@,
        Label::FunctionDeclaration => "function declaration"@,
        Label::BlockExpression => "block expression"@,
        Label::ConditionalExpression => "conditional expression"@,
    }
}

/// The words of a description.
pub open spec fn description_text(description: Description) -> Seq<char> {
    match description {
        Description::AValidExpression => "a valid expression"@,
        Description::AnExpression => "an expression"@,
        Description::SomeExpression => "An expression"@,
        Description::EndOfInput => "end of input"@,
        Description::FractionalPart => "fractional part"@,
        Description::Null => "null"@,
        Description::Operand => "operand"@,
        Description::OneOrMoreArguments => "one or more arguments"@,
        Description::OneOrMoreParameters => "one or more parameters"@,
        Description::AtLeastOneAssignment => "at least one assignment"@,
        Description::IndexIdentifier => "index identifier"@,
        Description::ItemIdentifier => "item identifier"@,
        Description::IntegerInRange => "an integer of 64 bits"@,
        Description::FewerNames => "fewer names"@,
        Description::FewerScopes => "fewer scopes"@,
    }
}

/// The characters of a word.
pub open spec fn word_text(word: Word) -> Seq<char> {
    match word {
        Word::True => "true"@,
        Word::False => "false"@,
        Word::Operator(op) => op_text(op),
    }
}

/// How an expectation is shown: a character between backticks, a word
/// between quotes, a description as it is.
pub open spec fn expected_text(expected: Expected) -> Seq<char> {
    match expected {
        Expected::Char(c) => seq!['`', c, '`'],
        Expected::Literal(word) => seq!['"'] + word_text(word) + seq!['"'],
        Expected::Description(description) => description_text(description),
    }
}

/// The name of a construct.
pub fn label_string(label: Label) -> (r: String)
    ensures
        r@ == label_text(label),
{
    match label {
        Label::Expression => String::from_str("expression"),
        Label::Text => String::from_str("string"),
        Label::Decimal => String::from_str("decimal"),
        Label::Boolean => String::from_str("boolean"),
        Label::List => String::from_str("list"),
        Label::Mapping => String::from_str("map"),
        Label::IndexExpression => String::from_str("index expression"),
        Label::InfixExpression => String::from_str("infix expression"),
        Label::PrefixOperation => String::from_str("prefix operation"),
        Label::FunctionCall => String::from_str("function call"),
        Label::FunctionDeclaration => String::from_str("function declaration"),
        Label::BlockExpression => String::from_str("block expression"),
        Label::ConditionalExpression => String::from_str("conditional expression"),
    }
}

/// The words of a description.
pub fn description_string(description: Description) -> (r: String)
    ensures
        r@ == description_text(description),
{
    match description {
        Description::AValidExpression => String::from_str("a valid expression"),
        Description::AnExpression => String::from_str("an expression"),
        Description::SomeExpression => String::from_str("An expression"),
        Description::EndOfInput => String::from_str("end of input"),
        Description::FractionalPart => String::from_str("fractional part"),
        Description::Null => String::from_str("null"),
        Description::Operand => String::from_str("operand"),
        Description::OneOrMoreArguments => String::from_str("one or more arguments"),
        Description::OneOrMoreParameters => String::from_str("one or more parameters"),
        Description::AtLeastOneAssignment => String::from_str("at least one assignment"),
        Description::IndexIdentifier => String::from_str("index identifier"),
        Description::ItemIdentifier => String::from_str("item identifier"),
        Description::IntegerInRange => String::from_str("an integer of 64 bits"),
        Description::FewerNames => String::from_str("fewer names"),
        Description::FewerScopes => String::from_str("fewer scopes"),
    }
}

/// How an expectation is shown.
pub fn expected_string(expected: Expected) -> (r: String)
    ensures
        r@ == expected_text(expected),
{
    match expected {
        Expected::Char(c) => {
            let mut out = String::new();
            out.push('`');
            out.push(c);
            out.push('`');
            assert(out@ =~= seq!['`', c, '`']);
            out
        },
        Expected::Literal(word) => {
            let mut out = String::new();
            out.push('"');
            match word {
                Word::True => {
                    out.append("true");
                },
                Word::False => {
                    out.append("false");
                },
                Word::Operator(op) => {
                    op.format(&mut out);
                },
            }
            out.push('"');
            assert(out@ =~= seq!['"'] + word_text(word) + seq!['"']);
            out
        },
        Expected::Description(description) => description_string(description),
    }
}

/// A parse error: the line and column of the failure, both counted from 1,
/// the line itself, the construct that the failure was in, and what would
/// have been accepted.
#[derive(Debug, Clone, PartialEq)]
pub struct ParseError {
    pub line_number: usize,
    pub column: usize,
    pub line_content: String,
    pub label: Option<String>,
    pub expected: Vec<String>,
}

/// The mathematical form of a [`ParseError`].
pub struct ParseErrorView {
    pub line_number: usize,
    pub column: usize,
    pub line_content: Seq<char>,
    pub label: Option<Seq<char>>,
    pub expected: Seq<Seq<char>>,
}

impl View for ParseError {
    type V = ParseErrorView;

    open spec fn view(&self) -> ParseErrorView {
        ParseErrorView {
            line_number: self.line_number,
            column: self.column,
            line_content: self.line_content@,
            label: match self.label {
                Some(l) => Some(l@),
                None => None,
            },
            expected: Seq::new(self.expected@.len(), |i: int| self.expected@[i]@),
        }
    }
}

/// The number of line ends among the first `upto` characters.
pub open spec fn line_ends_before(input: Seq<char>, upto: int) -> nat
    decreases upto,
{
    if upto <= 0 || upto > input.len() {
        0
    } else {
        line_ends_before(input, upto - 1) + (if input[upto - 1] == '\n' {
            1nat
        } else {
            0nat
        })
    }
}

/// Where the line that holds position `upto` starts: after the last line
/// end before `upto`, or at the start of the input.
pub open spec fn line_start(input: Seq<char>, upto: int) -> int
    decreases upto,
{
    if upto <= 0 || upto > input.len() {
        0
    } else if input[upto - 1] == '\n' {
        upto
    } else {
        line_start(input, upto - 1)
    }
}

/// Where the line that holds position `from` ends: at the first line end
/// at or after `from`, or at the end of the input.
pub open spec fn line_end(input: Seq<char>, from: int) -> int
    decreases input.len() - from,
{
    if from < 0 || from >= input.len() {
        input.len() as int
    } else if input[from] == '\n' {
        from
    } else {
        line_end(input, from + 1)
    }
}

/// The first label of a trail, if it has one.
pub open spec fn first_label(trail: Seq<Context>, from: int) -> Option<Label>
    decreases trail.len() - from,
{
    if from < 0 || from >= trail.len() {
        None
    } else {
        match trail[from] {
            Context::Label(label) => Some(label),
            _ => first_label(trail, from + 1),
        }
    }
}

/// Whether `texts` holds `text`.
pub open spec fn holds(texts: Seq<Seq<char>>, text: Seq<char>) -> bool {
    exists|i: int| 0 <= i < texts.len() && texts[i] == text
}

/// The expectations among the first `count` notes of a trail, as they are
/// shown, each once, in the order in which they were first met.
pub open spec fn expectations(trail: Seq<Context>, count: nat) -> Seq<Seq<char>>
    decreases count,
{
    if count == 0 || count > trail.len() {
        Seq::empty()
    } else {
        let before = expectations(trail, (count - 1) as nat);
        match trail[count - 1] {
            Context::Expected(expected) => if holds(before, expected_text(expected)) {
                before
            } else {
                before.push(expected_text(expected))
            },
            _ => before,
        }
    }
}

/// The position at which a failure is shown: its own, but no later than the
/// end of the input.
pub open spec fn shown_offset(input: Seq<char>, offset: int) -> int {
    if offset < 0 {
        0
    } else if offset <= input.len() {
        offset
    } else {
        input.len() as int
    }
}

/// A count as a number that counts from 1; the greatest number where the
/// count is too great.
pub open spec fn counted_from_one(count: int) -> usize {
    if 0 <= count < usize::MAX {
        (count + 1) as usize
    } else {
        usize::MAX
    }
}

/// The error that describes a failure at `offset` with the notes of
/// `trail`.
pub open spec fn located(input: Seq<char>, offset: int, trail: Seq<Context>) -> ParseErrorView {
    let at = shown_offset(input, offset);
    ParseErrorView {
        line_number: counted_from_one(line_ends_before(input, at) as int),
        column: counted_from_one(at - line_start(input, at)),
        line_content: input.subrange(line_start(input, at), line_end(input, at)),
        label: match first_label(trail, 0) {
            Some(label) => Some(label_text(label)),
            None => None,
        },
        expected: expectations(trail, trail.len()),
    }
}

proof fn lemma_line_start(input: Seq<char>, upto: int)
    requires
        0 <= upto <= input.len(),
    ensures
        0 <= line_start(input, upto) <= upto,
        line_ends_before(input, upto) <= upto,
    decreases upto,
{
    if upto > 0 {
        lemma_line_start(input, upto - 1);
    }
}

proof fn lemma_line_end(input: Seq<char>, from: int)
    requires
        0 <= from <= input.len(),
    ensures
        from <= line_end(input, from) <= input.len(),
    decreases input.len() - from,
{
    if from < input.len() && input[from] != '\n' {
        lemma_line_end(input, from + 1);
    }
}

fn holds_string(texts: &Vec<String>, text: &String) -> (r: bool)
    ensures
        r == holds(Seq::new(texts@.len(), |i: int| texts@[i]@), text@),
{
    let ghost views = Seq::new(texts@.len(), |i: int| texts@[i]@);
    let mut i: usize = 0;
    while i < texts.len()
        invariant
            i <= texts.len(),
            views == Seq::new(texts@.len(), |i: int| texts@[i]@),
            forall|j: int| 0 <= j < i ==> views[j] != text@,
        decreases texts.len() - i,
    {
        if texts[i] == *text {
            assert(views[i as int] == text@);
            return true;
        }
        i += 1;
    }
    false
}

impl ParseError {
    /// Describes a failure at `offset` in `input` with the notes of `trail`:
    /// the line and the column are counted in characters, the label is the
    /// first of the trail, and every expectation is listed once.
    pub fn from_failure(input: &Vec<char>, offset: usize, trail: &Vec<Context>) -> (r: ParseError)
        ensures
            r@ == located(input@, offset as int, trail@),
    {
        let at = if offset <= input.len() {
            offset
        } else {
            input.len()
        };
        let mut line_start_at: usize = 0;
        let mut line_ends: usize = 0;
        let mut index: usize = 0;
        while index < at
            invariant
                index <= at <= input.len(),
                line_start_at == line_start(input@, index as int),
                line_ends == line_ends_before(input@, index as int),
                line_start_at <= index,
                line_ends <= index,
            decreases at - index,
        {
            if input[index] == '\n' {
                line_start_at = index + 1;
                line_ends += 1;
            }
            index += 1;
        }
        let line_number = if line_ends < usize::MAX {
            line_ends + 1
        } else {
            usize::MAX
        };
        let column = if at - line_start_at < usize::MAX {
            at - line_start_at + 1
        } else {
            usize::MAX
        };
        let mut line_end_at: usize = at;
        while line_end_at < input.len() && input[line_end_at] != '\n'
            invariant
                at <= line_end_at <= input.len(),
                line_end(input@, at as int) == line_end(input@, line_end_at as int),
            decreases input.len() - line_end_at,
        {
            line_end_at += 1;
        }
        let line_content = string_of(input, line_start_at, line_end_at);
        let mut label: Option<String> = None;
        let mut i: usize = 0;
        while i < trail.len() && label.is_none()
            invariant
                i <= trail.len(),
                label is None ==> first_label(trail@, 0) == first_label(trail@, i as int),
                label matches Some(l) ==> first_label(trail@, 0) matches Some(first) && l@
                    == label_text(first),
            decreases trail.len() - i,
        {
            match trail[i] {
                Context::Label(l) => {
                    label = Some(label_string(l));
                },
                _ => {},
            }
            i += 1;
        }
        let mut expected: Vec<String> = Vec::new();
        let mut k: usize = 0;
        while k < trail.len()
            invariant
                k <= trail.len(),
                Seq::new(expected@.len(), |i: int| expected@[i]@) == expectations(trail@, k as nat),
            decreases trail.len() - k,
        {
            let ghost before = Seq::new(expected@.len(), |i: int| expected@[i]@);
            match trail[k] {
                Context::Expected(e) => {
                    let text = expected_string(e);
                    if !holds_string(&expected, &text) {
                        expected.push(text);
                        assert(Seq::new(expected@.len(), |i: int| expected@[i]@) =~= before.push(
                            text@,
                        ));
                    }
                },
                _ => {},
            }
            k += 1;
        }
        let r = ParseError { line_number, column, line_content, label, expected };
        r
    }
}

/// The words of what would have been accepted: the expectations separated by
/// commas, but the last one joined by "or".
pub open spec fn expected_phrase(expected: Seq<Seq<char>>, count: nat) -> Seq<char>
    decreases count,
{
    if count == 0 || count > expected.len() {
        Seq::empty()
    } else if count == 1 {
        expected[0]
    } else if count == expected.len() {
        expected_phrase(expected, (count - 1) as nat) + " or "@ + expected[count - 1]
    } else {
        expected_phrase(expected, (count - 1) as nat) + ", "@ + expected[count - 1]
    }
}

/// `count` blanks.
pub open spec fn blanks(count: nat) -> Seq<char> {
    Seq::new(count, |i: int| ' ')
}

/// The text of a parse error: a headline, the place, the line of the
/// failure with a mark under the column, and what would have been accepted.
pub open spec fn error_text(e: ParseErrorView) -> Seq<char> {
    let number = nat_text(e.line_number as nat);
    let gutter = blanks(number.len());
    "Error: Invalid "@ + (match e.label {
        Some(l) => l,
        None => "token"@,
    }) + "\n --> line "@ + number + ", column "@ + nat_text(e.column as nat) + "\n"@ + gutter
        + " |\n"@ + number + " | "@ + e.line_content + "\n"@ + gutter + " | "@ + blanks(
        if e.column > 0 {
            (e.column - 1) as nat
        } else {
            0
        },
    ) + "^\n"@ + gutter + " = Expected "@ + expected_phrase(e.expected, e.expected.len())
}

fn push_blanks(out: &mut String, count: usize)
    ensures
        final(out)@ == old(out)@ + blanks(count as nat),
{
    let mut i: usize = 0;
    while i < count
        invariant
            i <= count,
            out@ =~= old(out)@ + blanks(i as nat),
        decreases count - i,
    {
        out.push(' ');
        i += 1;
    }
}

impl ParseError {
    /// The text of the error, as [`error_text`] says.
    pub fn to_text(&self) -> (r: String)
        ensures
            r@ == error_text(self@),
    {
        let mut number = String::new();
        push_nat(&mut number, self.line_number as u64);
        assert(number@ =~= nat_text(self.line_number as nat));
        let width = chars_of(number.as_str()).len();
        let mut out = String::new();
        out.append("Error: Invalid ");
        match &self.label {
            Some(l) => {
                out.append(l.as_str());
            },
            None => {
                out.append("token");
            },
        }
        out.append("\n --> line ");
        out.append(number.as_str());
        out.append(", column ");
        push_nat(&mut out, self.column as u64);
        out.append("\n");
        push_blanks(&mut out, width);
        out.append(" |\n");
        out.append(number.as_str());
        out.append(" | ");
        out.append(self.line_content.as_str());
        out.append("\n");
        push_blanks(&mut out, width);
        out.append(" | ");
        push_blanks(&mut out, if self.column > 0 {
            self.column - 1
        } else {
            0
        });
        out.append("^\n");
        push_blanks(&mut out, width);
        out.append(" = Expected ");
        let ghost head = out@;
        let ghost expected = self@.expected;
        let mut i: usize = 0;
        while i < self.expected.len()
            invariant
                i <= self.expected.len(),
                expected == self@.expected,
                expected.len() == self.expected.len(),
                out@ == head + expected_phrase(expected, i as nat),
            decreases self.expected.len() - i,
        {
            if i > 0 {
                if i + 1 == self.expected.len() {
                    out.append(" or ");
                } else {
                    out.append(", ");
                }
            }
            out.append(self.expected[i].as_str());
            i += 1;
            assert(out@ =~= head + expected_phrase(expected, i as nat));
        }
        assert(out@ =~= error_text(self@));
        out
    }
}

} // verus!

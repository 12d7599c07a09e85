use resl::error::{Context, Description, Expected, Label, Word};
use resl::float::{negate, zero, ArithmeticOp, ComparisonOp};
use resl::infix::{
    apply_infix, handle_comparison_ops, handle_logical_ops, handle_math_ops, LogicOp, Op,
};
use resl::prefix;
use resl::text::{chars_less, chars_of, push_int, string_of, write_indent};
use resl::value::{mapping_get, mapping_insert};
use resl::{CtxState, EvalState, Expr, FloatOps, FmtState, Ident, ParseError, Value};

struct Native;

impl FloatOps for Native {
    fn from_decimal(&self, text: &str) -> u64 {
        text.parse::<f64>().unwrap().to_bits()
    }

    fn from_integer(&self, value: i64) -> u64 {
        (value as f64).to_bits()
    }

    fn round_to_integer(&self, bits: u64) -> i64 {
        f64::from_bits(bits).round() as i64
    }

    fn arithmetic(&self, op: ArithmeticOp, lhs: u64, rhs: u64) -> u64 {
        let (a, b) = (f64::from_bits(lhs), f64::from_bits(rhs));
        let r = match op {
            ArithmeticOp::Add => a + b,
            ArithmeticOp::Sub => a - b,
            ArithmeticOp::Mul => a * b,
            ArithmeticOp::Div => a / b,
        };
        r.to_bits()
    }

    fn compare(&self, op: ComparisonOp, lhs: u64, rhs: u64) -> bool {
        let (a, b) = (f64::from_bits(lhs), f64::from_bits(rhs));
        match op {
            ComparisonOp::Eq => a == b,
            ComparisonOp::NotEq => a != b,
            ComparisonOp::Gt => a > b,
            ComparisonOp::Lt => a < b,
            ComparisonOp::GtOrEq => a >= b,
            ComparisonOp::LtOrEq => a <= b,
        }
    }

    fn to_text(&self, bits: u64) -> String {
        let f = f64::from_bits(bits);
        if f.fract() == 0.0 {
            format!("{:.1}", f)
        } else {
            format!("{}", f)
        }
    }
}

fn parse(input: &str) -> (Expr, CtxState) {
    let (outcome, session) = Expr::parse_all(input, CtxState::new());
    (outcome.unwrap(), session)
}

#[test]
fn integer_arithmetic_wraps() {
    assert_eq!(handle_math_ops(ArithmeticOp::Add, 2, 3), 5);
    assert_eq!(handle_math_ops(ArithmeticOp::Add, i64::MAX, 1), i64::MIN);
    assert_eq!(handle_math_ops(ArithmeticOp::Sub, i64::MIN, 1), i64::MAX);
    assert_eq!(handle_math_ops(ArithmeticOp::Mul, i64::MAX, 2), -2);
    assert_eq!(handle_math_ops(ArithmeticOp::Div, 7, 2), 3);
    assert_eq!(handle_math_ops(ArithmeticOp::Div, -7, 2), -3);
    assert_eq!(handle_math_ops(ArithmeticOp::Div, 7, -2), -3);
    assert_eq!(handle_math_ops(ArithmeticOp::Div, -7, -2), 3);
    assert_eq!(handle_math_ops(ArithmeticOp::Div, 7, 0), 0);
    assert_eq!(handle_math_ops(ArithmeticOp::Div, i64::MIN, -1), i64::MIN);
    assert_eq!(handle_math_ops(ArithmeticOp::Div, i64::MIN, 1), i64::MIN);
    assert_eq!(handle_math_ops(ArithmeticOp::Div, i64::MIN, i64::MIN), 1);
}

#[test]
fn logic_and_comparison_of_plain_values() {
    assert!(handle_logical_ops(LogicOp::And, true, true));
    assert!(!handle_logical_ops(LogicOp::And, true, false));
    assert!(handle_logical_ops(LogicOp::Or, false, true));
    assert!(!handle_logical_ops(LogicOp::Or, false, false));
    assert!(handle_comparison_ops(ComparisonOp::Eq, 1, 1));
    assert!(handle_comparison_ops(ComparisonOp::NotEq, 1, 2));
    assert!(handle_comparison_ops(ComparisonOp::Gt, 2, 1));
    assert!(handle_comparison_ops(ComparisonOp::Lt, 1, 2));
    assert!(handle_comparison_ops(ComparisonOp::GtOrEq, 2, 2));
    assert!(!handle_comparison_ops(ComparisonOp::LtOrEq, 3, 2));
}

#[test]
fn floats_are_handled_as_bits() {
    assert!(zero(0.0f64.to_bits()));
    assert!(zero((-0.0f64).to_bits()));
    assert!(!zero(1.0f64.to_bits()));
    assert_eq!(negate(1.5f64.to_bits()), (-1.5f64).to_bits());
    assert_eq!(negate(negate(2.25f64.to_bits())), 2.25f64.to_bits());
}

#[test]
fn float_division_by_zero_is_positive_zero() {
    let divide = Op::Arithmetic(ArithmeticOp::Div);
    let one = Value::Float(1.0f64.to_bits());
    assert_eq!(
        apply_infix(divide, &one, &Value::Float((-0.0f64).to_bits()), &Native),
        Value::Float(0)
    );
    assert_eq!(
        apply_infix(divide, &one, &Value::Integer(0), &Native),
        Value::Float(0)
    );
    assert_eq!(
        apply_infix(divide, &one, &Value::Float(4.0f64.to_bits()), &Native),
        Value::Float(0.25f64.to_bits())
    );
    assert_eq!(
        apply_infix(divide, &Value::Integer(7), &Value::Float(0.4f64.to_bits()), &Native),
        Value::Integer(0)
    );
}

#[test]
fn prefix_operator_of_a_character() {
    assert_eq!(prefix::Op::from_char('!'), Some(prefix::Op::Not));
    assert_eq!(prefix::Op::from_char('-'), Some(prefix::Op::Negate));
    assert_eq!(prefix::Op::from_char('+'), None);
}

#[test]
fn integers_are_written_in_decimal() {
    let write = |i: i64| {
        let mut out = String::from("x");
        push_int(&mut out, i);
        out
    };
    assert_eq!(write(0), "x0");
    assert_eq!(write(7), "x7");
    assert_eq!(write(10), "x10");
    assert_eq!(write(-1), "x-1");
    assert_eq!(write(1234567890), "x1234567890");
    assert_eq!(write(i64::MAX), "x9223372036854775807");
    assert_eq!(write(i64::MIN), "x-9223372036854775808");
}

#[test]
fn written_integers_read_back() {
    for i in [0, 1, -1, 9, 10, -10, 42, i64::MAX, i64::MIN] {
        let written = resl::format(&i.to_string(), false, &Native).unwrap();
        assert_eq!(written, i.to_string());
        assert_eq!(resl::evaluate(&written, &Native).unwrap(), Value::Integer(i));
    }
}

#[test]
fn indentation_is_four_blanks_a_level() {
    let mut out = String::new();
    write_indent(&mut out, 0);
    assert_eq!(out, "");
    write_indent(&mut out, 2);
    assert_eq!(out, "        ");
}

#[test]
fn texts_are_ordered_by_characters() {
    let less = |a: &str, b: &str| chars_less(&chars_of(a), &chars_of(b));
    assert!(less("a", "b"));
    assert!(less("a", "ab"));
    assert!(less("", "a"));
    assert!(!less("a", "a"));
    assert!(!less("b", "a"));
    assert!(!less("", ""));
    assert!(less("Z", "a"));
    assert!(less("z", "é"));
    assert_eq!(string_of(&chars_of("hello"), 1, 3), "el");
}

#[test]
fn mappings_keep_their_keys_in_order() {
    let mut entries: Vec<(String, Value)> = Vec::new();
    mapping_insert(&mut entries, "m".to_string(), Value::Integer(1));
    mapping_insert(&mut entries, "a".to_string(), Value::Integer(2));
    mapping_insert(&mut entries, "z".to_string(), Value::Integer(3));
    mapping_insert(&mut entries, "m".to_string(), Value::Integer(4));
    assert_eq!(
        entries,
        vec![
            ("a".to_string(), Value::Integer(2)),
            ("m".to_string(), Value::Integer(4)),
            ("z".to_string(), Value::Integer(3)),
        ]
    );
    assert_eq!(mapping_get(&entries, "m"), Value::Integer(4));
    assert_eq!(mapping_get(&entries, "q"), Value::Null);
}

#[test]
fn kinds_of_values() {
    assert!(Value::String(String::new()).is_string());
    assert!(Value::Integer(1).is_integer());
    assert!(Value::Float(0).is_float());
    assert!(Value::Boolean(true).is_boolean());
    assert!(Value::List(vec![]).is_list());
    assert!(Value::Mapping(vec![]).is_map());
    assert!(!Value::Null.is_string());
    assert!(!Value::Integer(1).is_float());
    assert!(!Value::List(vec![]).is_map());
    assert_eq!(Value::Integer(3).clone(), Value::Integer(3));
    let nested = Value::List(vec![Value::Mapping(vec![("k".to_string(), Value::Null)])]);
    assert_eq!(nested.clone(), nested);
}

#[test]
fn fresh_session_holds_the_built_in_functions() {
    let session = CtxState::new();
    assert_eq!(session.len(), 1);
    assert_eq!(session.names_len(), 7);
    assert_eq!(session.resolve(0), Some("debug".to_string()));
    assert_eq!(session.resolve(4), Some("concat".to_string()));
    assert_eq!(session.resolve(6), Some("insert".to_string()));
    assert_eq!(session.resolve(7), None);
    assert_eq!(session.scope_len(0), 7);
    assert_eq!(session.find_ctx_with_ident(0, &Ident(3)), Some(0));
    assert_eq!(session.find_ctx_with_ident(0, &Ident(9)), None);
    assert_eq!(session.find_ctx_with_ident(5, &Ident(3)), None);
}

#[test]
fn names_are_interned_once() {
    let mut session = CtxState::new();
    assert_eq!(session.intern("alpha"), 7);
    assert_eq!(session.intern("beta"), 8);
    assert_eq!(session.intern("alpha"), 7);
    assert_eq!(session.intern("push"), 5);
    assert_eq!(session.names_len(), 9);
    assert_eq!(session.resolve(8), Some("beta".to_string()));
}

#[test]
fn scopes_get_the_indices_in_which_they_open() {
    let (_, session) = parse("{a = {b = 1; b}; f = |x| {c = x; c}; g = xs > (i, v): {d = v; d}; a}");
    assert_eq!(session.len(), 7);
    let parents: Vec<Option<usize>> = (0..7).map(|i| session.ctx(i).parent_ctx_idx()).collect();
    assert_eq!(
        parents,
        vec![None, Some(0), Some(1), Some(1), Some(3), Some(1), Some(5)]
    );
    assert_eq!(session.scope_len(1), 3);
    assert_eq!(session.scope_len(3), 1);
    assert_eq!(session.scope_len(5), 2);
}

#[test]
fn failed_alternatives_give_their_index_back() {
    let (_, session) = parse("[x + 1, {a = 1; a}]");
    assert_eq!(session.len(), 2);
    assert_eq!(session.ctx(1).parent_ctx_idx(), Some(0));
}

#[test]
fn evaluation_leaves_the_state_settled() {
    let (expr, session) = parse("{f = |a| a + 1; l = [1, 2]; m = l > (i, v): v + 1; [m, x, f(2)]}");
    let scopes = session.len();
    let mut state = EvalState::new(session, &Native);
    let first = expr.evaluate(&mut state, 400);
    assert_eq!(state.active_ctx_idx(), 0);
    assert_eq!(state.ctx_state.len(), scopes);
    let second = expr.evaluate(&mut state, 400);
    assert_eq!(state.active_ctx_idx(), 0);
    assert_eq!(first, second);
    assert_eq!(
        first,
        Value::List(vec![
            Value::List(vec![Value::Integer(2), Value::Integer(3)]),
            Value::Null,
            Value::Integer(3),
        ])
    );
}

#[test]
fn arguments_are_looked_up_from_the_function() {
    assert_eq!(
        resl::evaluate("{f = |a| a + 1; l = [1, 2]; l > (i, v): f(v)}", &Native).unwrap(),
        Value::List(vec![Value::Null, Value::Null])
    );
    assert_eq!(
        resl::evaluate("{n = 4; f = |a| a + n; f(n)}", &Native).unwrap(),
        Value::Integer(8)
    );
    assert_eq!(
        resl::evaluate("{f = |a| a; f(1, 2)}", &Native).unwrap(),
        Value::Null
    );
}

#[test]
fn depth_bounds_evaluation() {
    let (expr, session) = parse("[[1]]");
    let mut state = EvalState::new(session, &Native);
    assert_eq!(expr.evaluate(&mut state, 0), Value::Null);
    assert_eq!(expr.evaluate(&mut state, 1), Value::List(vec![Value::Null]));
    assert_eq!(
        expr.evaluate(&mut state, 2),
        Value::List(vec![Value::List(vec![Value::Null])])
    );
    assert_eq!(
        expr.evaluate(&mut state, 3),
        Value::List(vec![Value::List(vec![Value::Integer(1)])])
    );
}

#[test]
fn names_of_letters_of_any_script() {
    assert_eq!(
        resl::evaluate("{é = 1; λx = 2; é + λx}", &Native).unwrap(),
        Value::Integer(3)
    );
    assert_eq!(resl::format("a_b-c$d", false, &Native).unwrap(), "a_b-c$d");
    assert!(resl::format("a#b", false, &Native).is_err());
}

#[test]
fn trees_are_written_from_their_session() {
    let (expr, session) = parse("{x = 1; x}");
    assert_eq!(expr.write_formatted(true, &session, &Native), "{\n    x = 1;\n    x\n}");
    assert_eq!(expr.write_formatted(false, &session, &Native), "{x=1;x}");
    let state = FmtState::new(true, &session);
    assert!(state.pretty());
    assert_eq!(state.indent_level(), 0);
    assert_eq!(state.indented().indented().indent_level(), 2);
    assert_eq!(state.resolve_ident(&Ident(7)), Some("x".to_string()));
    assert_eq!(state.resolve_ident(&Ident(8)), Some("1".to_string()));
    assert_eq!(state.resolve_ident(&Ident(9)), None);
}

#[test]
fn failures_are_described() {
    let input = chars_of("ab\ncd\nef");
    let trail = vec![
        Context::Expected(Expected::Char(')')),
        Context::Label(Label::FunctionCall),
        Context::Expected(Expected::Description(Description::AnExpression)),
        Context::Expected(Expected::Char(')')),
        Context::Label(Label::List),
        Context::Expected(Expected::Literal(Word::True)),
        Context::Expected(Expected::Literal(Word::Operator(Op::Logic(LogicOp::And)))),
    ];
    let error = ParseError::from_failure(&input, 4, &trail);
    assert_eq!(
        error,
        ParseError {
            line_number: 2,
            column: 2,
            line_content: "cd".to_string(),
            label: Some("function call".to_string()),
            expected: vec![
                "`)`".to_string(),
                "an expression".to_string(),
                "\"true\"".to_string(),
                "\"&&\"".to_string(),
            ],
        }
    );
    let at_line_end = ParseError::from_failure(&input, 2, &vec![]);
    assert_eq!(at_line_end.line_number, 1);
    assert_eq!(at_line_end.column, 3);
    assert_eq!(at_line_end.line_content, "ab");
    assert_eq!(at_line_end.label, None);
    let after_line_end = ParseError::from_failure(&input, 3, &vec![]);
    assert_eq!(after_line_end.line_number, 2);
    assert_eq!(after_line_end.column, 1);
    assert_eq!(after_line_end.line_content, "cd");
    let past_the_end = ParseError::from_failure(&input, 99, &vec![]);
    assert_eq!(past_the_end.line_number, 3);
    assert_eq!(past_the_end.column, 3);
    assert_eq!(past_the_end.line_content, "ef");
    assert_eq!(
        past_the_end.to_text(),
        "Error: Invalid token\n --> line 3, column 3\n  |\n3 | ef\n  |   ^\n  = Expected "
    );
}

#[test]
fn columns_count_characters() {
    let error = resl::format("\"é\" 1", false, &Native).unwrap_err();
    assert_eq!(error.column, 5);
    assert_eq!(error.line_content, "\"é\" 1");
}

use resl::float::{ArithmeticOp, ComparisonOp};
use resl::{evaluate, evaluate_and_format, FloatOps, ParseError};

struct Native;

impl FloatOps for Native {
    fn from_decimal(&self, text: &str) -> u64 {
        text.parse::<f64>().unwrap().to_bits()
    }

    fn from_integer(&self, value: i64) -> u64 {
        (value as f64).to_bits()
    }

    fn round_to_integer(&self, bits: u64) -> i64 {
        f64::from_bits(bits).round() as i64
    }

    fn arithmetic(&self, op: ArithmeticOp, lhs: u64, rhs: u64) -> u64 {
        let (a, b) = (f64::from_bits(lhs), f64::from_bits(rhs));
        let r = match op {
            ArithmeticOp::Add => a + b,
            ArithmeticOp::Sub => a - b,
            ArithmeticOp::Mul => a * b,
            ArithmeticOp::Div => a / b,
        };
        r.to_bits()
    }

    fn compare(&self, op: ComparisonOp, lhs: u64, rhs: u64) -> bool {
        let (a, b) = (f64::from_bits(lhs), f64::from_bits(rhs));
        match op {
            ComparisonOp::Eq => a == b,
            ComparisonOp::NotEq => a != b,
            ComparisonOp::Gt => a > b,
            ComparisonOp::Lt => a < b,
            ComparisonOp::GtOrEq => a >= b,
            ComparisonOp::LtOrEq => a <= b,
        }
    }

    fn to_text(&self, bits: u64) -> String {
        let f = f64::from_bits(bits);
        if f.fract() == 0.0 {
            format!("{:.1}", f)
        } else {
            format!("{}", f)
        }
    }
}

fn compact(input: &str) -> String {
    resl::format(input, false, &Native).unwrap()
}

fn pretty(input: &str) -> String {
    resl::format(input, true, &Native).unwrap()
}

fn failure(input: &str) -> ParseError {
    resl::format(input, false, &Native).unwrap_err()
}

#[test]
fn literals_are_written_as_read() {
    assert_eq!(compact("null"), "null");
    assert_eq!(compact(" 42 "), "42");
    assert_eq!(compact("-17"), "-17");
    assert_eq!(compact("true"), "true");
    assert_eq!(compact("false"), "false");
    assert_eq!(compact("\"hello\""), "\"hello\"");
    assert_eq!(compact("1.50"), "1.5");
    assert_eq!(compact("2.0"), "2.0");
    assert_eq!(compact("-0.25"), "-0.25");
}

#[test]
fn infix_keeps_its_parentheses() {
    assert_eq!(compact("1 + 2"), "1+2");
    assert_eq!(pretty("1+2"), "1 + 2");
    assert_eq!(compact("(1 + 2)"), "(1+2)");
    assert_eq!(pretty("(1+2)*3"), "(1 + 2) * 3");
    assert_eq!(pretty("1+(2*3)"), "1 + (2 * 3)");
    assert_eq!(compact("a && b || c"), "a&&b||c");
    assert_eq!(pretty("(1>=2)"), "(1 >= 2)");
    assert_eq!(pretty("0 + 1>=2"), "0 + 1 >= 2");
    assert_eq!(pretty("1!=2"), "1 != 2");
}

#[test]
fn lists_and_maps_are_laid_out() {
    assert_eq!(compact("[1,2,3]"), "[1, 2, 3]");
    assert_eq!(compact("[1, 2, 3,]"), "[1, 2, 3]");
    assert_eq!(compact("[ ]"), "[]");
    assert_eq!(pretty("[1,2]"), "[\n    1,\n    2\n]");
    assert_eq!(pretty("[[1]]"), "[\n    [\n        1\n    ]\n]");
    assert_eq!(compact("[\"b\": 2, \"a\": 1]"), "[\"a\": 1, \"b\": 2]");
    assert_eq!(compact("[\"a\": 1, \"a\": 2]"), "[\"a\": 2]");
    assert_eq!(pretty("[\"a\": 1]"), "[\n    \"a\": 1\n]");
}

#[test]
fn blocks_are_laid_out() {
    assert_eq!(compact("{x=5;x*2}"), "{x=5;x*2}");
    assert_eq!(pretty("{x=5;x*2}"), "{\n    x = 5;\n    x * 2\n}");
    assert_eq!(
        pretty("{x={y=1;y};x}"),
        "{\n    x = {\n        y = 1;\n        y\n    };\n    x\n}"
    );
    assert_eq!(compact("{ x = 1 ; x = 2 ; x }"), "{x=2;x}");
}

#[test]
fn functions_and_calls_are_laid_out() {
    assert_eq!(compact("{add = |a, b| a + b; add(15, 27)}"), "{add=|a,b|a+b;add(15,27)}");
    assert_eq!(
        pretty("{add = |a, b| a + b; add(15, 27)}"),
        "{\n    add = |a, b| a + b;\n    add(15, 27)\n}"
    );
    assert_eq!(compact("concat(\"a\", \"b\",)"), "concat(\"a\",\"b\")");
    assert_eq!(pretty("[1 + 2, concat(\"Hello\", \" \", \"World!\"), true]"),
        "[\n    1 + 2,\n    concat(\"Hello\", \" \", \"World!\"),\n    true\n]");
}

#[test]
fn conditionals_iterations_and_indices_are_laid_out() {
    assert_eq!(compact("? true : 1 | 2"), "?true:1|2");
    assert_eq!(pretty("?true:1|2"), "? true: 1| 2");
    assert_eq!(compact("xs > (i, v): v * 2"), "xs>(i,v):v*2");
    assert_eq!(pretty("xs>(i,v):v*2"), "xs > (i, v) : v * 2");
    assert_eq!(compact("x[0]"), "x[0]");
    assert_eq!(compact("x[1:]"), "x[1:]");
    assert_eq!(compact("x[:2]"), "x[:2]");
    assert_eq!(compact("x[1 : 2][\"k\"]"), "x[1:2][\"k\"]");
    assert_eq!(compact("!x"), "!x");
    assert_eq!(pretty("!x"), "! x");
}

#[test]
fn formatting_twice_changes_nothing() {
    for input in [
        "[1, 2, [3, \"four\"], [\"k\": null, \"j\": true]]",
        "(1 + 2) * (3 - 4)",
        "? (1 < 2) : [1] | [\"a\": 2]",
        "!(true && false)",
        "1 + 2 + 3",
    ] {
        let once = compact(input);
        assert_eq!(compact(&once), once);
        let once = pretty(input);
        assert_eq!(pretty(&once), once);
    }
}

#[test]
fn evaluated_values_are_written() {
    assert_eq!(evaluate_and_format("{x=5;x*2}", true, &Native).unwrap(), "10");
    assert_eq!(
        evaluate_and_format("[1 + 2, concat(\"Hello\", \" \", \"World!\"), true]", true, &Native).unwrap(),
        "[\n    3,\n    \"Hello World!\",\n    true\n]"
    );
    assert_eq!(evaluate_and_format("1.5 + 2.5", false, &Native).unwrap(), "4.0");
    assert_eq!(evaluate_and_format("[]", true, &Native).unwrap(), "[]");
    assert_eq!(evaluate_and_format("[\"a\": [1]]", false, &Native).unwrap(), "[\"a\": [1]]");
}

#[test]
fn trailing_input_is_an_error() {
    let error = failure("1 2");
    assert_eq!(error.line_number, 1);
    assert_eq!(error.column, 3);
    assert_eq!(error.line_content, "1 2");
    assert_eq!(error.label, Some("expression".to_string()));
    assert_eq!(error.expected, vec!["end of input".to_string()]);
}

#[test]
fn missing_operand_is_an_error() {
    let error = failure("5 +");
    assert_eq!(error.line_number, 1);
    assert_eq!(error.column, 4);
    assert_eq!(error.label, Some("infix expression".to_string()));
    assert_eq!(error.expected, vec!["operand".to_string()]);
    let error = failure("(5 +)");
    assert_eq!(error.column, 5);
    assert_eq!(error.label, Some("infix expression".to_string()));
    assert_eq!(error.expected, vec!["operand".to_string()]);
}

#[test]
fn unterminated_string_is_an_error() {
    let error = failure("\"abc");
    assert_eq!(error.column, 5);
    assert_eq!(error.label, Some("string".to_string()));
    assert_eq!(error.expected, vec!["`\"`".to_string()]);
}

#[test]
fn errors_are_located_by_line() {
    let error = failure("{\n  x = 1;\n  y = ;\n  x\n}");
    assert_eq!(error.line_number, 3);
    assert_eq!(error.column, 7);
    assert_eq!(error.line_content, "  y = ;");
    assert_eq!(error.label, Some("block expression".to_string()));
    assert_eq!(error.expected, vec!["an expression".to_string()]);
}

#[test]
fn block_errors() {
    let error = failure("{ 5 }");
    assert_eq!(error.column, 3);
    assert_eq!(error.label, Some("block expression".to_string()));
    assert_eq!(error.expected, vec!["at least one assignment".to_string()]);
    let error = failure("{x = 1 x}");
    assert_eq!(error.column, 8);
    assert_eq!(error.expected, vec!["`;`".to_string()]);
    let error = failure("{x = 1; x");
    assert_eq!(error.column, 10);
    assert_eq!(error.expected, vec!["`}`".to_string()]);
}

#[test]
fn list_and_call_errors() {
    let error = failure("[1, 2");
    assert_eq!(error.column, 6);
    assert_eq!(error.label, Some("list".to_string()));
    assert_eq!(error.expected, vec!["`,`".to_string(), "`]`".to_string()]);
    let error = failure("f()");
    assert_eq!(error.column, 3);
    assert_eq!(error.label, Some("function call".to_string()));
    assert_eq!(error.expected, vec!["one or more arguments".to_string()]);
    let error = failure("f(1, 2");
    assert_eq!(error.label, Some("function call".to_string()));
    assert_eq!(error.expected, vec!["`,`".to_string(), "`)`".to_string()]);
}

#[test]
fn number_errors() {
    let error = failure("1.");
    assert_eq!(error.column, 3);
    assert_eq!(error.label, Some("decimal".to_string()));
    assert_eq!(error.expected, vec!["fractional part".to_string()]);
    let error = failure("99999999999999999999");
    assert_eq!(error.column, 1);
    assert_eq!(error.label, Some("decimal".to_string()));
    assert!(evaluate("9223372036854775807", &Native).is_ok());
    assert!(evaluate("-9223372036854775808", &Native).is_ok());
    assert!(evaluate("9223372036854775808", &Native).is_err());
}

#[test]
fn conditional_and_iteration_errors() {
    let error = failure("? true 1");
    assert_eq!(error.label, Some("conditional expression".to_string()));
    assert_eq!(error.expected, vec!["`:`".to_string()]);
    let error = failure("x > 3");
    assert_eq!(error.column, 5);
    assert_eq!(error.label, None);
    assert_eq!(error.expected, vec!["`(`".to_string()]);
    let error = failure("x > (i v): 1");
    assert_eq!(error.expected, vec!["`,`".to_string()]);
}

#[test]
fn empty_input_is_an_error() {
    let error = failure("");
    assert_eq!(error.line_number, 1);
    assert_eq!(error.column, 1);
    assert_eq!(error.line_content, "");
    assert_eq!(error.label, Some("expression".to_string()));
    assert_eq!(error.expected, vec!["a valid expression".to_string()]);
}

#[test]
fn errors_are_shown() {
    let error = failure("(5 +)");
    assert_eq!(
        error.to_text(),
        "Error: Invalid infix expression\n --> line 1, column 5\n  |\n1 | (5 +)\n  |     ^\n  = Expected operand"
    );
    let error = failure("[1, 2");
    assert_eq!(
        error.to_text(),
        "Error: Invalid list\n --> line 1, column 6\n  |\n1 | [1, 2\n  |      ^\n  = Expected `,` or `]`"
    );
    let error = ParseError {
        line_number: 12,
        column: 1,
        line_content: "x".to_string(),
        label: None,
        expected: vec!["a".to_string(), "b".to_string(), "c".to_string()],
    };
    assert_eq!(
        error.to_text(),
        "Error: Invalid token\n --> line 12, column 1\n   |\n12 | x\n   | ^\n   = Expected a, b or c"
    );
}

#[test]
fn index_errors() {
    let error = failure("x[]");
    assert_eq!(error.column, 3);
    assert_eq!(error.label, Some("index expression".to_string()));
    assert_eq!(error.expected, vec!["An expression".to_string(), "`:`".to_string()]);
    let error = failure("x[1");
    assert_eq!(error.column, 4);
    assert_eq!(error.label, Some("index expression".to_string()));
    assert_eq!(error.expected, vec!["`:`".to_string(), "`]`".to_string()]);
    let error = failure("x[1:2");
    assert_eq!(error.column, 6);
    assert_eq!(error.expected, vec!["an expression".to_string(), "`]`".to_string()]);
    let error = failure("x[:]");
    assert_eq!(error.column, 4);
    assert_eq!(error.expected, vec!["an expression".to_string()]);
    let error = failure("x[:1");
    assert_eq!(error.expected, vec!["`]`".to_string()]);
}

#[test]
fn map_errors() {
    let error = failure("[\"a\": ]");
    assert_eq!(error.column, 7);
    assert_eq!(error.label, Some("map".to_string()));
    assert_eq!(error.expected, vec!["an expression".to_string()]);
    let error = failure("[\"a\": 1, \"b\": 2");
    assert_eq!(error.label, Some("map".to_string()));
    assert_eq!(error.expected, vec!["`,`".to_string(), "`]`".to_string()]);
    let error = failure("[1, 2, }");
    assert_eq!(error.column, 8);
    assert_eq!(error.label, Some("list".to_string()));
    assert_eq!(error.expected, vec!["an expression".to_string(), "`]`".to_string()]);
}

#[test]
fn function_errors() {
    let error = failure("{f = || 1; f}");
    assert_eq!(error.column, 7);
    assert_eq!(error.label, Some("function declaration".to_string()));
    assert_eq!(error.expected, vec!["one or more parameters".to_string()]);
    let error = failure("{f = |a 1; f}");
    assert_eq!(error.column, 9);
    assert_eq!(error.label, Some("function declaration".to_string()));
    assert_eq!(error.expected, vec!["`,`".to_string(), "`|`".to_string()]);
    let error = failure("{f = |a, | 1; f}");
    assert_eq!(error.column, 10);
    assert_eq!(error.expected, vec!["an expression".to_string(), "`]`".to_string()]);
    let error = failure("{f = |a| ; f}");
    assert_eq!(error.label, Some("function declaration".to_string()));
    assert_eq!(error.expected, vec!["an expression".to_string()]);
}

#[test]
fn iteration_errors() {
    let error = failure("xs > (, v): 1");
    assert_eq!(error.column, 7);
    assert_eq!(error.label, None);
    assert_eq!(error.expected, vec!["index identifier".to_string()]);
    let error = failure("xs > (i, ): 1");
    assert_eq!(error.column, 10);
    assert_eq!(error.expected, vec!["item identifier".to_string()]);
    let error = failure("xs > (i, v 1");
    assert_eq!(error.expected, vec!["`)`".to_string()]);
    let error = failure("xs > (i, v) 1");
    assert_eq!(error.expected, vec!["`:`".to_string()]);
    let error = failure("xs > (i, v):");
    assert_eq!(error.expected, vec!["an expression".to_string()]);
}

#[test]
fn prefix_and_parenthesis_errors() {
    let error = failure("!");
    assert_eq!(error.column, 2);
    assert_eq!(error.label, Some("prefix operation".to_string()));
    assert_eq!(error.expected, vec!["an expression".to_string()]);
    let error = failure("(1 2)");
    assert_eq!(error.column, 4);
    assert_eq!(error.label, Some("infix expression".to_string()));
    assert_eq!(
        error.expected,
        vec![
            "\"+\"", "\"-\"", "\"*\"", "\"/\"", "\"&&\"", "\"||\"", "\"==\"", "\"!=\"", "\">=\"",
            "\"<=\"", "\">\"", "\"<\"",
        ]
    );
    let error = failure("( 1 + 2)");
    assert_eq!(error.column, 2);
    assert_eq!(error.expected, vec!["operand".to_string()]);
    let error = failure("(1 + 2");
    assert_eq!(error.column, 1);
    assert_eq!(error.label, Some("expression".to_string()));
    assert_eq!(error.expected, vec!["a valid expression".to_string()]);
    let error = failure("? 1 : 2 3");
    assert_eq!(error.label, Some("conditional expression".to_string()));
    assert_eq!(error.expected, vec!["`|`".to_string()]);
}

#[test]
fn escapes_that_are_not_known_empty_the_string() {
    let error = failure("\"ab\\x\"");
    assert_eq!(error.column, 2);
    assert_eq!(error.label, Some("string".to_string()));
    assert_eq!(error.expected, vec!["`\"`".to_string()]);
    assert_eq!(compact("\"a\\\nb\""), "\"a\\\nb\"");
}

#[test]
fn strings_are_written_with_their_escapes() {
    assert_eq!(compact(r#""a\"b""#), r#""a\"b""#);
    assert_eq!(compact(r#""a\\b""#), r#""a\\b""#);
    assert_eq!(compact("\"line\\\nnext\""), "\"line\\\nnext\"");
    assert_eq!(compact(r#"["k": "v\\w"]"#), r#"["k": "v\\w"]"#);
    assert_eq!(compact(r#"["a\"b", "c"]"#), r#"["a\"b", "c"]"#);
    assert_eq!(pretty(r#"{s = "a\"b"; s}"#), "{\n    s = \"a\\\"b\";\n    s\n}");
}

#[test]
fn written_strings_read_back() {
    for source in [r#""""#, r#""plain""#, r#""a\"b""#, r#""\\""#, "\"two\\\nlines\"", r#""\\\"""#] {
        let once = compact(source);
        assert_eq!(once, source);
        assert_eq!(compact(&once), once);
        assert_eq!(evaluate(&once, &Native).unwrap(), evaluate(source, &Native).unwrap());
    }
}

#[test]
fn written_literals_read_back() {
    for source in [
        "null",
        "true",
        "false",
        "0",
        "-9223372036854775808",
        "9223372036854775807",
        "[]",
        "[[]]",
        "[1, 2, 3]",
        "[\"a\", \"b\"]",
        "[\"a\\\"b\", [true, null], -7]",
        "[\"k\": 1]",
        "[\"a\": [1, 2], \"b\": [\"c\": \"d\\\\e\"], \"c-1\": null]",
        "[[\"k\": []], \"k\"]",
    ] {
        let once = compact(source);
        assert_eq!(once, source);
        assert_eq!(compact(&once), once);
        assert_eq!(evaluate(&once, &Native).unwrap(), evaluate(source, &Native).unwrap());
    }
}

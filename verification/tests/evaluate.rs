use resl::float::{ArithmeticOp, ComparisonOp};
use resl::prefix;
use resl::prefix::compute_prefix;
use resl::{evaluate, evaluate_with_output, FloatOps, Value};

struct Native;

impl FloatOps for Native {
    fn from_decimal(&self, text: &str) -> u64 {
        text.parse::<f64>().unwrap().to_bits()
    }

    fn from_integer(&self, value: i64) -> u64 {
        (value as f64).to_bits()
    }

    fn round_to_integer(&self, bits: u64) -> i64 {
        f64::from_bits(bits).round() as i64
    }

    fn arithmetic(&self, op: ArithmeticOp, lhs: u64, rhs: u64) -> u64 {
        let (a, b) = (f64::from_bits(lhs), f64::from_bits(rhs));
        let r = match op {
            ArithmeticOp::Add => a + b,
            ArithmeticOp::Sub => a - b,
            ArithmeticOp::Mul => a * b,
            ArithmeticOp::Div => a / b,
        };
        r.to_bits()
    }

    fn compare(&self, op: ComparisonOp, lhs: u64, rhs: u64) -> bool {
        let (a, b) = (f64::from_bits(lhs), f64::from_bits(rhs));
        match op {
            ComparisonOp::Eq => a == b,
            ComparisonOp::NotEq => a != b,
            ComparisonOp::Gt => a > b,
            ComparisonOp::Lt => a < b,
            ComparisonOp::GtOrEq => a >= b,
            ComparisonOp::LtOrEq => a <= b,
        }
    }

    fn to_text(&self, bits: u64) -> String {
        let f = f64::from_bits(bits);
        if f.fract() == 0.0 {
            format!("{:.1}", f)
        } else {
            format!("{}", f)
        }
    }
}

fn float(f: f64) -> Value {
    Value::Float(f.to_bits())
}

fn text(s: &str) -> Value {
    Value::String(s.to_string())
}

fn eval(input: &str) -> Value {
    evaluate(input, &Native).unwrap()
}

#[test]
fn test_document() {
    let input = r#"
{
    null_val = null;
    app_name = "TradeSync";
    version = 1.0;
    users_count = 42;
    debug = true;

    config = {
        retries = 3;
        timeout = 30;
        timeout
    };

    servers = [
        ["host": "localhost", "port": 8080],
        ["host": "backup.server", "port": 9090]
    ];

    first_server_host = servers[0]["host"];

    math_test = (users_count + 8) * 2;
    flag_test = !false;

    active_host = ? debug : "debug.local" | "prod.local";

    all_ports = servers > (k, v): v["port"];

    add = |a, b| (a + b);
    sum_test = add(5, 10);

    [
        null_val,
        app_name,
        version,
        users_count,
        debug,
        config,
        servers,
        first_server_host,
        math_test,
        flag_test,
        active_host,
        all_ports,
        sum_test
    ]
}
    "#;

    let output = evaluate(input, &Native);
    assert!(output.is_ok());
    let output = output.unwrap();

    match output {
        Value::List(list) => {
            assert!(matches!(list[0], Value::Null));
            assert_eq!(list[1], Value::String("TradeSync".into()));
            assert_eq!(list[2], float(1.0));
            assert_eq!(list[3], Value::Integer(42));
            assert_eq!(list[4], Value::Boolean(true));
            assert_eq!(list[5], Value::Integer(30));
            match &list[6] {
                Value::List(servers) => {
                    assert_eq!(servers.len(), 2);
                    match &servers[0] {
                        Value::Mapping(map) => {
                            assert_eq!(
                                map.iter().find(|(k, _)| k == "host").map(|(_, v)| v),
                                Some(&Value::String("localhost".into()))
                            );
                            assert_eq!(
                                map.iter().find(|(k, _)| k == "port").map(|(_, v)| v),
                                Some(&Value::Integer(8080))
                            );
                        }
                        _ => panic!("Expected server[0] to be map"),
                    }
                    match &servers[1] {
                        Value::Mapping(map) => {
                            assert_eq!(
                                map.iter().find(|(k, _)| k == "host").map(|(_, v)| v),
                                Some(&Value::String("backup.server".into()))
                            );
                            assert_eq!(
                                map.iter().find(|(k, _)| k == "port").map(|(_, v)| v),
                                Some(&Value::Integer(9090))
                            );
                        }
                        _ => panic!("Expected server[1] to be map"),
                    }
                }
                _ => panic!("Expected servers to be list"),
            }
            assert_eq!(list[7], Value::String("localhost".into()));
            assert_eq!(list[8], Value::Integer((42 + 8) * 2));
            assert_eq!(list[9], Value::Boolean(true));
            assert_eq!(list[10], Value::String("debug.local".into()));
            match &list[11] {
                Value::List(ports) => {
                    assert_eq!(ports, &vec![Value::Integer(8080), Value::Integer(9090)]);
                }
                _ => panic!("Expected all_ports to be list"),
            }
            assert_eq!(list[12], Value::Integer(15));
        }
        _ => panic!("Expected final output to be list"),
    }
}

#[test]
fn addition_of_integers() {
    assert_eq!(eval("5 + 3"), Value::Integer(8));
}

#[test]
fn block_binds_names() {
    assert_eq!(eval("{x = 5; x * 2}"), Value::Integer(10));
}

#[test]
fn function_is_called() {
    assert_eq!(eval("{add = |a, b| a + b; add(15, 27)}"), Value::Integer(42));
}

#[test]
fn conditional_chooses_branch() {
    assert_eq!(eval("? true : \"success\" | \"failure\""), text("success"));
    assert_eq!(eval("? false : \"success\" | \"failure\""), text("failure"));
    assert_eq!(eval("? 1 : \"success\" | \"failure\""), Value::Null);
}

#[test]
fn self_reference_is_null() {
    assert_eq!(eval("{x = x; x}"), Value::Null);
}

#[test]
fn index_out_of_range_is_null() {
    assert_eq!(eval("{l = [1, 2, 3]; l[3]}"), Value::Null);
    assert_eq!(eval("{l = [1, 2, 3]; l[-1]}"), Value::Null);
    assert_eq!(eval("{l = [1, 2, 3]; l[2]}"), Value::Integer(3));
    assert_eq!(eval("{l = [1, 2, 3]; l[0:0]}"), Value::List(vec![]));
    assert_eq!(eval("{l = []; l[0:0]}"), Value::List(vec![]));
    assert_eq!(eval("{l = []; l[0]}"), Value::Null);
}

#[test]
fn division_by_zero_is_zero() {
    assert_eq!(eval("5 / 0"), Value::Integer(0));
    assert_eq!(eval("5.0 / 0.0"), float(0.0));
    assert_eq!(eval("7 / 2"), Value::Integer(3));
    assert_eq!(eval("-7 / 2"), Value::Integer(-3));
}

#[test]
fn iteration_over_list_and_map() {
    assert_eq!(
        eval("{l = [1, 2, 3]; l > (i, v): v * 2}"),
        Value::List(vec![Value::Integer(2), Value::Integer(4), Value::Integer(6)])
    );
    assert_eq!(
        eval("{l = [5, 6]; l > (i, v): i}"),
        Value::List(vec![Value::Integer(0), Value::Integer(1)])
    );
    assert_eq!(
        eval("{m = [\"b\": 2, \"a\": 1]; m > (k, v): v * 10}"),
        Value::Mapping(vec![
            ("a".to_string(), Value::Integer(10)),
            ("b".to_string(), Value::Integer(20)),
        ])
    );
    assert_eq!(eval("{n = 5; n > (k, v): v}"), Value::Null);
}

#[test]
fn function_scope_is_reset_between_calls() {
    assert_eq!(
        eval("{add = |a, b| a + b; first = add(1, 2); second = add(3, 4); [first, second]}"),
        Value::List(vec![Value::Integer(3), Value::Integer(7)])
    );
}

#[test]
fn literal_iteration_base_is_a_parse_error() {
    let error = evaluate("[1, 2, 3] > (i, v): v * 2", &Native).unwrap_err();
    assert_eq!(error.line_number, 1);
    assert_eq!(error.column, 11);
    assert_eq!(error.label, Some("expression".to_string()));
    assert_eq!(error.expected, vec!["end of input".to_string()]);
}

#[test]
fn arithmetic_mixes_integers_and_floats() {
    assert_eq!(eval("1 + 2.6"), Value::Integer(4));
    assert_eq!(eval("1.5 + 2"), float(3.5));
    assert_eq!(eval("(3.14 * 2.0)"), float(6.28));
    assert_eq!(eval("1 + true"), Value::Null);
    assert_eq!(eval("\"a\" + \"b\""), Value::Null);
    assert_eq!(eval("2 * 3 + 4"), Value::Integer(14));
    assert_eq!(eval("(2 * 3) + 4"), Value::Integer(10));
}

#[test]
fn comparison_and_logic() {
    assert_eq!(eval("(5 > 3)"), Value::Boolean(true));
    assert_eq!(eval("10 == 10"), Value::Boolean(true));
    assert_eq!(eval("1.5 < 2"), Value::Boolean(true));
    assert_eq!(eval("2 <= 1.6"), Value::Boolean(true));
    assert_eq!(eval("true && false"), Value::Boolean(false));
    assert_eq!(eval("true || false"), Value::Boolean(true));
    assert_eq!(eval("true && 1"), Value::Null);
    assert_eq!(eval("1 && 1"), Value::Null);
}

#[test]
fn prefix_operations() {
    assert_eq!(eval("!false"), Value::Boolean(true));
    assert_eq!(eval("! true"), Value::Boolean(false));
    assert_eq!(eval("!1"), Value::Null);
    assert_eq!(eval("-42"), Value::Integer(-42));
    assert_eq!(eval("-3.5"), float(-3.5));
    assert_eq!(
        compute_prefix(prefix::Op::Negate, &Value::Integer(42)),
        Value::Integer(-42)
    );
    assert_eq!(
        compute_prefix(prefix::Op::Negate, &Value::Integer(i64::MIN)),
        Value::Integer(i64::MIN)
    );
    assert_eq!(compute_prefix(prefix::Op::Negate, &float(3.5)), float(-3.5));
    assert_eq!(compute_prefix(prefix::Op::Negate, &float(0.0)), float(-0.0));
    assert_eq!(compute_prefix(prefix::Op::Negate, &Value::Boolean(true)), Value::Null);
    assert_eq!(compute_prefix(prefix::Op::Not, &Value::Integer(1)), Value::Null);
}

#[test]
fn minus_alone_is_a_name() {
    let error = evaluate("- 42", &Native).unwrap_err();
    assert_eq!(error.line_number, 1);
    assert_eq!(error.column, 3);
    assert_eq!(error.expected, vec!["end of input".to_string()]);
    assert_eq!(eval("-x"), Value::Null);
    assert_eq!(eval("{-x = 4; -x}"), Value::Integer(4));
}

#[test]
fn slices_of_lists() {
    let list = |items: &[i64]| Value::List(items.iter().map(|i| Value::Integer(*i)).collect());
    assert_eq!(eval("{l = [1, 2, 3, 4]; l[1:3]}"), list(&[2, 3]));
    assert_eq!(eval("{l = [1, 2, 3, 4]; l[2:]}"), list(&[3, 4]));
    assert_eq!(eval("{l = [1, 2, 3, 4]; l[:2]}"), list(&[1, 2]));
    assert_eq!(eval("{l = [1, 2, 3, 4]; l[4:]}"), list(&[]));
    assert_eq!(eval("{l = [1, 2, 3, 4]; l[3:2]}"), Value::Null);
    assert_eq!(eval("{l = [1, 2, 3, 4]; l[0:5]}"), Value::Null);
    assert_eq!(eval("{l = [[1, 2], [3, 4]]; l[1][0]}"), Value::Integer(3));
    assert_eq!(eval("{m = [\"a\": 1]; m[\"b\"]}"), Value::Null);
    assert_eq!(eval("{m = [\"a\": 1]; m[0]}"), Value::Null);
    assert_eq!(eval("{n = 1; n[0]}"), Value::Null);
}

#[test]
fn built_in_functions() {
    assert_eq!(eval("type_of(1)"), text("integer"));
    assert_eq!(eval("type_of(1.5)"), text("float"));
    assert_eq!(eval("type_of(null)"), text("null"));
    assert_eq!(eval("type_of(\"a\")"), text("string"));
    assert_eq!(eval("type_of(true)"), text("boolean"));
    assert_eq!(eval("type_of([1])"), text("list"));
    assert_eq!(eval("type_of([\"a\": 1])"), text("map"));
    assert_eq!(eval("length(\"hello\")"), Value::Integer(5));
    assert_eq!(eval("length([1, 2])"), Value::Integer(2));
    assert_eq!(eval("length(1)"), Value::Null);
    assert_eq!(eval("to_str([1, 2.0, \"a\"])"), text("[1, 2.0, \"a\"]"));
    assert_eq!(eval("concat(\"Hello\", \" \", \"World!\")"), text("Hello World!"));
    assert_eq!(eval("concat(\"a\", 1, \"b\")"), text("ab"));
    assert_eq!(eval("concat(1, 2)"), Value::Null);
    assert_eq!(
        eval("push([1], 2)"),
        Value::List(vec![Value::Integer(1), Value::Integer(2)])
    );
    assert_eq!(eval("push(1, 2)"), Value::Null);
    assert_eq!(
        eval("insert([1, 3], 1, 2)"),
        Value::List(vec![Value::Integer(1), Value::Integer(2), Value::Integer(3)])
    );
    assert_eq!(
        eval("insert([1, 2], -1, 9)"),
        Value::List(vec![Value::Integer(1), Value::Integer(9), Value::Integer(2)])
    );
    assert_eq!(eval("insert([1, 2], 3, 9)"), Value::Null);
    assert_eq!(
        eval("insert([\"b\": 1], \"a\", 2)"),
        Value::Mapping(vec![
            ("a".to_string(), Value::Integer(2)),
            ("b".to_string(), Value::Integer(1)),
        ])
    );
    assert_eq!(eval("length(1, 2)"), Value::Null);
    assert_eq!(eval("missing(1)"), Value::Null);
}

#[test]
fn debug_emits_and_returns() {
    let (value, lines) = evaluate_with_output("debug([1, \"a\"])", &Native).unwrap();
    assert_eq!(value, Value::List(vec![Value::Integer(1), text("a")]));
    assert_eq!(lines, vec!["[1, \"a\"]".to_string()]);
}

#[test]
fn unknown_name_is_null() {
    assert_eq!(eval("nothing"), Value::Null);
}

#[test]
fn strings_with_escapes() {
    assert_eq!(eval("\"a\\\"b\""), text("a\"b"));
    assert_eq!(eval("\"a\\\\b\""), text("a\\b"));
    assert_eq!(eval("\"\""), text(""));
}

#[test]
fn deep_nesting_is_evaluated() {
    let mut input = String::new();
    for _ in 0..399 {
        input.push('!');
    }
    input.push_str("true");
    assert_eq!(eval(&input), Value::Boolean(false));
    let mut input = String::new();
    for _ in 0..450 {
        input.push('!');
    }
    input.push_str("true");
    assert_eq!(eval(&input), Value::Boolean(true));
    let mut sum = String::from("1");
    for _ in 0..450 {
        sum.push_str(" + 1");
    }
    assert_eq!(eval(&sum), Value::Integer(451));
    let mut program = String::from("{x0 = 1; ");
    for i in 1..450 {
        program.push_str(&format!("x{} = x{} + 1; ", i, i - 1));
    }
    program.push_str("x449}");
    assert_eq!(eval(&program), Value::Integer(450));
}

#[test]
fn deeply_nested_values_read_back() {
    let mut value = Value::Integer(1);
    for _ in 0..450 {
        value = Value::List(vec![value]);
    }
    let written = value.write_formatted(false, &Native);
    assert_eq!(written.len(), 901);
    assert_eq!(eval(&written), value);
}

#[test]
fn values_are_formatted() {
    let value = eval("[1, [\"k\": [true, null]], \"s\", 2.5]");
    assert_eq!(
        value.write_formatted(false, &Native),
        "[1, [\"k\": [true, null]], \"s\", 2.5]"
    );
    assert_eq!(
        value.write_formatted(true, &Native),
        "[\n    1,\n    [\n        \"k\": [\n            true,\n            null\n        ]\n    ],\n    \"s\",\n    2.5\n]"
    );
    assert_eq!(eval("[]").write_formatted(true, &Native), "[]");
    assert_eq!(Value::Integer(-42).write_formatted(false, &Native), "-42");
    assert_eq!(Value::Integer(i64::MIN).write_formatted(false, &Native), "-9223372036854775808");
    assert_eq!(float(1.0).write_formatted(false, &Native), "1.0");
}

#[test]
fn ranges_want_lists() {
    assert_eq!(eval("{m = [\"a\": 1]; m[0:1]}"), Value::Null);
    assert_eq!(eval("{m = [\"a\": 1]; m[0:]}"), Value::Null);
    assert_eq!(eval("{m = [\"a\": 1]; m[:1]}"), Value::Null);
    assert_eq!(eval("{s = \"abc\"; s[0:1]}"), Value::Null);
    assert_eq!(eval("{n = 7; n[:0]}"), Value::Null);
    assert_eq!(eval("{l = [[1, 2], 3]; l[0][1:]}"), Value::List(vec![Value::Integer(2)]));
    assert_eq!(eval("{l = [[1, 2], 3]; l[1][0:]}"), Value::Null);
}

struct Fickle {
    asked: std::cell::Cell<u64>,
}

impl FloatOps for Fickle {
    fn from_decimal(&self, _text: &str) -> u64 {
        self.asked.set(self.asked.get() + 1);
        (self.asked.get() as f64).to_bits()
    }

    fn from_integer(&self, _value: i64) -> u64 {
        self.asked.set(self.asked.get() + 1);
        (self.asked.get() as f64).to_bits()
    }

    fn round_to_integer(&self, _bits: u64) -> i64 {
        self.asked.set(self.asked.get() + 1);
        self.asked.get() as i64
    }

    fn arithmetic(&self, _op: ArithmeticOp, _lhs: u64, _rhs: u64) -> u64 {
        self.asked.set(self.asked.get() + 1);
        (self.asked.get() as f64).to_bits()
    }

    fn compare(&self, _op: ComparisonOp, _lhs: u64, _rhs: u64) -> bool {
        self.asked.set(self.asked.get() + 1);
        self.asked.get() % 2 == 0
    }

    fn to_text(&self, _bits: u64) -> String {
        self.asked.set(self.asked.get() + 1);
        format!("#{}", self.asked.get())
    }
}

#[test]
fn one_question_has_one_answer() {
    let fickle = Fickle { asked: std::cell::Cell::new(0) };
    let value = evaluate("[2.5, 2.5, 2.5 + 2.5, 2.5 + 2.5, 1 + 2.5, 1 + 2.5]", &fickle).unwrap();
    match value {
        Value::List(items) => {
            assert_eq!(items.len(), 6);
            assert_eq!(items[0], items[1]);
            assert_eq!(items[2], items[3]);
            assert_eq!(items[4], items[5]);
            assert_eq!(items[0], float(1.0));
            assert_eq!(items[2], float(2.0));
            assert_eq!(items[4], Value::Integer(4));
        },
        other => panic!("no list: {:?}", other),
    }
    assert_eq!(fickle.asked.get(), 3);
    let fickle = Fickle { asked: std::cell::Cell::new(0) };
    let shown = resl::evaluate_and_format("[0.5, 0.5, 0.5 < 0.5, 0.5 < 0.5]", false, &fickle).unwrap();
    assert_eq!(shown, "[#3, #3, true, true]");
}

#[test]
fn written_values_read_back() {
    let values = vec![
        Value::Null,
        Value::Boolean(false),
        Value::Integer(i64::MIN),
        text("plain text, with blanks"),
        Value::List(vec![]),
        Value::List(vec![Value::Integer(1), text("a"), Value::List(vec![Value::Null])]),
        Value::Mapping(vec![
            ("a".to_string(), Value::List(vec![Value::Boolean(true)])),
            ("b-1".to_string(), Value::Mapping(vec![("$k".to_string(), text(""))])),
        ]),
    ];
    for value in values {
        let written = value.write_formatted(false, &Native);
        assert_eq!(eval(&written), value);
    }
}

#[test]
fn mappings_come_out_in_key_order() {
    let pair = |k: &str, v: i64| (k.to_string(), Value::Integer(v));
    assert_eq!(
        eval("[\"b\": 1, \"c\": 2, \"a\": 3]"),
        Value::Mapping(vec![pair("a", 3), pair("b", 1), pair("c", 2)])
    );
    assert_eq!(eval("[\"a\": 1, \"b\": 2, \"a\": 3]"), Value::Mapping(vec![pair("a", 3), pair("b", 2)]));
    assert_eq!(
        eval("{m = [\"b\": 1, \"a\": 2]; m > (k, v): v * 10}"),
        Value::Mapping(vec![pair("a", 20), pair("b", 10)])
    );
    assert_eq!(
        eval("{m = [\"b\": 1, \"d\": 2]; insert(insert(m, \"c\", 3), \"a\", 4)}"),
        Value::Mapping(vec![pair("a", 4), pair("b", 1), pair("c", 3), pair("d", 2)])
    );
    assert_eq!(
        eval("{m = [\"z\": [\"y\": 1, \"x\": 2]]; m[\"z\"]}"),
        Value::Mapping(vec![pair("x", 2), pair("y", 1)])
    );
}

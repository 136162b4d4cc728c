use tiny_script::interpreter::run;
use tiny_script::interpreter::value::Value;
use tiny_script::parser::parse;

fn number(expression: &str) -> f64 {
    let program = parse(&format!("a = {}", expression)).unwrap();
    let state = run(&program).unwrap();
    match state.get("a").unwrap() {
        Value::Number(number) => f64::from_bits(number.bits),
        other => panic!("not a number: {:?}", other),
    }
}

fn truth(expression: &str) -> bool {
    let program = parse(&format!("a = {}", expression)).unwrap();
    let state = run(&program).unwrap();
    match state.get("a").unwrap() {
        Value::Bool(value) => *value,
        other => panic!("not a boolean: {:?}", other),
    }
}

#[test]
fn literals_are_the_nearest_doubles() {
    assert_eq!(number("0"), 0.0);
    assert_eq!(number("007"), 7.0);
    assert_eq!(number("42").to_bits(), 42f64.to_bits());
    assert_eq!(number("9007199254740993"), 9007199254740992.0);
    assert_eq!(number("9007199254740995"), 9007199254740996.0);
    assert_eq!(
        number("123456789012345678901234567890").to_bits(),
        123456789012345678901234567890f64.to_bits()
    );
}

#[test]
fn literals_agree_with_the_host() {
    let mut cases = vec![
        String::from("1"),
        String::from("10"),
        String::from("4503599627370497"),
        String::from("18014398509481985"),
        String::from("18446744073709551615"),
        String::from("18446744073709551616"),
        String::from("340282366920938463463374607431768211456"),
        String::from("99999999999999999999999999999999999999999999"),
    ];
    for leading in ["17976931348623157", "17976931348623158", "17976931348623159"] {
        let mut digits = String::from(leading);
        for _ in 0..292 {
            digits.push('0');
        }
        cases.push(digits);
    }
    for digits in cases {
        let expected: f64 = digits.parse().unwrap();
        assert_eq!(number(&digits).to_bits(), expected.to_bits());
    }
}

#[test]
fn huge_literal_is_infinite() {
    let mut digits = String::from("1");
    for _ in 0..400 {
        digits.push('0');
    }
    assert_eq!(number(&digits), f64::INFINITY);
}

#[test]
fn sums() {
    assert_eq!(number("2 + 2"), 4.0);
    assert_eq!(number("1 + 2").to_bits(), 3f64.to_bits());
    assert_eq!(number("9007199254740992 + 1"), 9007199254740992.0);
    assert_eq!(number("9007199254740992 + 3"), 9007199254740996.0);
}

#[test]
fn differences() {
    assert_eq!(number("13 - 8"), 5.0);
    assert_eq!(number("0 - 1"), -1.0);
    assert_eq!(number("8 - 13").to_bits(), (-5f64).to_bits());
}

#[test]
fn products() {
    assert_eq!(number("2 * 3"), 6.0);
    assert_eq!(number("0 * 7"), 0.0);
    assert_eq!(number("94906267 * 94906267"), 94906267f64 * 94906267f64);
}

#[test]
fn quotients() {
    assert_eq!(number("6 / 2"), 3.0);
    assert_eq!(number("1 / 2"), 0.5);
    assert_eq!(number("1 / 3").to_bits(), (1f64 / 3f64).to_bits());
    assert_eq!(number("2 / 3").to_bits(), (2f64 / 3f64).to_bits());
}

#[test]
fn division_by_zero_is_not_an_error() {
    assert_eq!(number("1 / 0"), f64::INFINITY);
    assert!(number("0 / 0").is_nan());
}

#[test]
fn addition_binds_tighter_than_multiplication() {
    assert_eq!(number("1 + 2 * 3"), 9.0);
    assert_eq!(number("2 * 3 + 1"), 8.0);
    assert_eq!(number("1 + 2 * 3 + 4"), 21.0);
}

#[test]
fn comparison_binds_looser_than_arithmetic() {
    assert!(truth("1 + 2 == 3"));
    assert!(truth("2 * 3 == 1 + 5"));
    assert!(truth("1 == 1 and 2 != 3"));
    assert!(truth("1 == 2 or 2 == 2"));
}

#[test]
fn equality_is_that_of_doubles() {
    assert!(truth("1 == 1"));
    assert!(!truth("1 == 2"));
    assert!(!truth("0 / 0 == 0 / 0"));
    assert!(truth("0 / 0 != 0 / 0"));
    assert!(truth("0 * 0 - 1 == 0"));
    assert!(truth("1 / 0 == 2 / 0"));
    assert!(truth("9007199254740993 == 9007199254740992"));
}

#[test]
fn lengths() {
    assert_eq!(number("\"hello\".length"), 5.0);
    assert_eq!(number("\"\".length"), 0.0);
    assert_eq!(number("\"h\u{e9}llo\".length"), 6.0);
    assert_eq!(number("[].length"), 0.0);
    assert_eq!(number("[1, [2, 3], \"x\"].length").to_bits(), 3f64.to_bits());
}

#[test]
fn index_is_cut_to_its_integer_part() {
    assert_eq!(number("[7, 8][0]"), 7.0);
    assert_eq!(number("[7, 8][1]"), 8.0);
    assert_eq!(number("[7, 8][1 / 2]"), 7.0);
    assert_eq!(number("[7, 8][3 / 2]"), 8.0);
    assert_eq!(number("[7, 8][7 / 4]"), 8.0);
}

#[test]
fn index_between_minus_one_and_zero_is_the_first() {
    assert_eq!(number("[7, 8][0 - 1 / 2]"), 7.0);
    assert_eq!(number("[7, 8][0 - 3 / 4]"), 7.0);
    assert_eq!(number("[7, 8][0 * 0 - 1]"), 7.0);
    assert_eq!(number("[7, 8][0 - 0]"), 7.0);
}

#[test]
fn comparing_with_an_integer() {
    let program = parse("a = 42\nb = 1 / 2\nc = 0 - 3\nd = \"42\"\ne = 0 / 0").unwrap();
    let state = run(&program).unwrap();
    assert!(state.get("a").unwrap().eq_number(42));
    assert!(!state.get("a").unwrap().eq_number(41));
    assert!(!state.get("b").unwrap().eq_number(0));
    assert!(state.get("c").unwrap().eq_number(-3));
    assert!(!state.get("d").unwrap().eq_number(42));
    assert!(!state.get("e").unwrap().eq_number(0));
}

use tiny_script::ast::{BinaryOperator, Expression, Literal, Statement};
use tiny_script::interpreter::run;
use tiny_script::parser::parse;

fn assigned(code: &str) -> Expression {
    let mut program = parse(code).unwrap();
    assert_eq!(program.statements.len(), 1);
    match program.statements.remove(0) {
        Statement::Assign(name, value) => {
            assert_eq!(name.as_slice(), b"a");
            value
        }
        other => panic!("not an assignment: {:?}", other),
    }
}

fn is_number(expression: &Expression, expected: f64) -> bool {
    match expression {
        Expression::Literal(Literal::Number(number)) => f64::from_bits(number.bits) == expected,
        _ => false,
    }
}

fn is_variable(expression: &Expression, expected: &str) -> bool {
    match expression {
        Expression::Variable(name) => name.as_slice() == expected.as_bytes(),
        _ => false,
    }
}

#[test]
fn literals() {
    assert!(matches!(assigned("a = true"), Expression::Literal(Literal::Bool(true))));
    assert!(matches!(assigned("a = false"), Expression::Literal(Literal::Bool(false))));
    assert!(is_number(&assigned("a = 42"), 42.0));
    match assigned("a = \"Hello, world!\"") {
        Expression::Literal(Literal::Text(text)) => assert_eq!(text.as_slice(), b"Hello, world!"),
        other => panic!("not a text: {:?}", other),
    }
}

#[test]
fn text_has_no_escapes() {
    match assigned("a = \"a\\\"") {
        Expression::Literal(Literal::Text(text)) => assert_eq!(text.as_slice(), b"a\\"),
        other => panic!("not a text: {:?}", other),
    }
    match assigned("a = \"\"") {
        Expression::Literal(Literal::Text(text)) => assert_eq!(text.len(), 0),
        other => panic!("not a text: {:?}", other),
    }
    match assigned("a = \"x\ny\"") {
        Expression::Literal(Literal::Text(text)) => assert_eq!(text.as_slice(), b"x\ny"),
        other => panic!("not a text: {:?}", other),
    }
}

#[test]
fn variables() {
    assert!(is_variable(&assigned("a = b"), "b"));
    assert!(is_variable(&assigned("a = some_name"), "some_name"));
    assert!(is_variable(&assigned("a = tru"), "tru"));
    assert!(is_variable(&assigned("a = _"), "_"));
}

#[test]
fn arrays() {
    match assigned("a = []") {
        Expression::Array(items) => assert_eq!(items.len(), 0),
        other => panic!("not an array: {:?}", other),
    }
    match assigned("a = [1, b, [2]]") {
        Expression::Array(items) => {
            assert_eq!(items.len(), 3);
            assert!(is_number(&items[0], 1.0));
            assert!(is_variable(&items[1], "b"));
            assert!(matches!(&items[2], Expression::Array(inner) if inner.len() == 1));
        }
        other => panic!("not an array: {:?}", other),
    }
}

#[test]
fn binary_operators() {
    let cases = [
        ("a = 1 + 2", BinaryOperator::Add),
        ("a = 1 - 2", BinaryOperator::Subtract),
        ("a = 1 * 2", BinaryOperator::Multiply),
        ("a = 1 / 2", BinaryOperator::Divide),
        ("a = 1 == 2", BinaryOperator::Equal),
        ("a = 1 != 2", BinaryOperator::NotEqual),
        ("a = 1 and 2", BinaryOperator::And),
        ("a = 1 or 2", BinaryOperator::Or),
    ];
    for (code, expected) in cases {
        match assigned(code) {
            Expression::BinaryOperator(lhs, op, rhs) => {
                assert_eq!(op, expected);
                assert!(is_number(&lhs, 1.0));
                assert!(is_number(&rhs, 2.0));
            }
            other => panic!("not an operator: {:?}", other),
        }
    }
}

#[test]
fn tiers_nest() {
    match assigned("a = 1 + 2 * 3 - 4") {
        Expression::BinaryOperator(lhs, BinaryOperator::Multiply, rhs) => {
            assert!(matches!(*lhs, Expression::BinaryOperator(_, BinaryOperator::Add, _)));
            assert!(matches!(*rhs, Expression::BinaryOperator(_, BinaryOperator::Subtract, _)));
        }
        other => panic!("not a product: {:?}", other),
    }
    match assigned("a = 1 == 2 and 3 != 4") {
        Expression::BinaryOperator(lhs, BinaryOperator::And, rhs) => {
            assert!(matches!(*lhs, Expression::BinaryOperator(_, BinaryOperator::Equal, _)));
            assert!(matches!(*rhs, Expression::BinaryOperator(_, BinaryOperator::NotEqual, _)));
        }
        other => panic!("not a conjunction: {:?}", other),
    }
}

#[test]
fn postfix_forms() {
    match assigned("a = b.length") {
        Expression::Member(object, member) => {
            assert!(is_variable(&object, "b"));
            assert_eq!(member.as_slice(), b"length");
        }
        other => panic!("not a member: {:?}", other),
    }
    match assigned("a = b.starts_with(c, 1)") {
        Expression::MethodCall(object, method, arguments) => {
            assert!(is_variable(&object, "b"));
            assert_eq!(method.as_slice(), b"starts_with");
            assert_eq!(arguments.len(), 2);
            assert!(is_variable(&arguments[0], "c"));
            assert!(is_number(&arguments[1], 1.0));
        }
        other => panic!("not a method call: {:?}", other),
    }
    match assigned("a = b[1 + 2]") {
        Expression::Index(object, position) => {
            assert!(is_variable(&object, "b"));
            assert!(matches!(*position, Expression::BinaryOperator(_, BinaryOperator::Add, _)));
        }
        other => panic!("not an index: {:?}", other),
    }
    match assigned("a = f(1, g())") {
        Expression::Call(function, arguments) => {
            assert_eq!(function.as_slice(), b"f");
            assert_eq!(arguments.len(), 2);
            assert!(matches!(&arguments[1], Expression::Call(_, inner) if inner.is_empty()));
        }
        other => panic!("not a call: {:?}", other),
    }
}

#[test]
fn a_literal_name_can_be_called() {
    match assigned("a = true(1)") {
        Expression::Call(function, arguments) => {
            assert_eq!(function.as_slice(), b"true");
            assert_eq!(arguments.len(), 1);
        }
        other => panic!("not a call: {:?}", other),
    }
}

#[test]
fn postfix_on_literals() {
    assert!(matches!(assigned("a = [1, 2][0]"), Expression::Index(_, _)));
    assert!(matches!(assigned("a = \"x\".length"), Expression::Member(_, _)));
    assert!(matches!(assigned("a = 1.length"), Expression::Member(_, _)));
}

#[test]
fn keywords_are_not_reserved() {
    let program = parse("func = 3\nwhile = func\nif = while\nreturn = if").unwrap();
    assert_eq!(program.statements.len(), 4);
    let state = run(&program).unwrap();
    assert!(state.get("return").unwrap().eq_number(3));
}

#[test]
fn statements() {
    let code = "func add(x, y)\n    z = x + y\n    return z\nwhile a\n    a = false\nif b\nc = add(1, 2)";
    let program = parse(code).unwrap();
    assert_eq!(program.statements.len(), 4);
    match &program.statements[0] {
        Statement::Function(name, function) => {
            assert_eq!(name.as_slice(), b"add");
            assert_eq!(function.arguments.len(), 2);
            assert_eq!(function.arguments[0].as_slice(), b"x");
            assert_eq!(function.arguments[1].as_slice(), b"y");
            assert_eq!(function.statements.len(), 2);
            assert!(matches!(&function.statements[0], Statement::Assign(_, _)));
            assert!(matches!(&function.statements[1], Statement::Return(_)));
        }
        other => panic!("not a function: {:?}", other),
    }
    assert!(matches!(&program.statements[1], Statement::While(_, body) if body.len() == 1));
    assert!(matches!(&program.statements[2], Statement::If(_, body) if body.is_empty()));
    assert!(matches!(&program.statements[3], Statement::Assign(_, Expression::Call(_, _))));
}

#[test]
fn function_with_parameters() {
    let program = parse("func add(x, y)\n    return x + y\na = add(2, 3)").unwrap();
    let state = run(&program).unwrap();
    assert!(state.get("a").unwrap().eq_number(5));
    assert!(state.get("x").is_none());
}

#[test]
fn later_parameter_of_the_same_name_wins() {
    let program = parse("func f(x, x)\n    return x\na = f(1, 2)").unwrap();
    let state = run(&program).unwrap();
    assert!(state.get("a").unwrap().eq_number(2));
}

#[test]
fn later_definition_wins() {
    let program = parse("func f()\n    return 1\nfunc f()\n    return 2\na = f()").unwrap();
    let state = run(&program).unwrap();
    assert!(state.get("a").unwrap().eq_number(2));
}

#[test]
fn statements_after_a_return_do_not_run() {
    let program = parse("func f()\n    return 1\n    return b\na = f()").unwrap();
    let state = run(&program).unwrap();
    assert!(state.get("a").unwrap().eq_number(1));
}

#[test]
fn loop_that_never_turns() {
    let program = parse("i = 7\nwhile false\n    i = 0").unwrap();
    let state = run(&program).unwrap();
    assert!(state.get("i").unwrap().eq_number(7));
}

#[test]
fn text_operations() {
    let program =
        parse("a = \"ab\" + \"\"\nb = a.starts_with(\"\")\nc = a.starts_with(\"abc\")\nd = a.starts_with(a)")
            .unwrap();
    let state = run(&program).unwrap();
    assert!(state.get("a").unwrap().eq_text("ab"));
    assert!(!state.get("a").unwrap().eq_text("a"));
    assert!(!state.get("a").unwrap().eq_bool(true));
    assert!(state.get("b").unwrap().eq_bool(true));
    assert!(state.get("c").unwrap().eq_bool(false));
    assert!(state.get("d").unwrap().eq_bool(true));
}

use tiny_script::interpreter::value::RunError;
use tiny_script::interpreter::{run, run_with_fuel};
use tiny_script::parser::grammar::ParseError;
use tiny_script::parser::parse;

fn failure(code: &str) -> Option<RunError> {
    let program = parse(code).unwrap();
    run(&program).err()
}

#[test]
fn empty_text_has_no_statement() {
    assert_eq!(parse("").err(), Some(ParseError::Statement { position: 0 }));
}

#[test]
fn newline_at_the_end_wants_a_statement() {
    assert_eq!(parse("a = 1\n").err(), Some(ParseError::Statement { position: 6 }));
}

#[test]
fn empty_line_is_no_statement() {
    assert_eq!(parse("a = 1\n\nb = 2").err(), Some(ParseError::Statement { position: 6 }));
}

#[test]
fn garbage_is_no_statement() {
    assert_eq!(parse("a = 1\n= 2").err(), Some(ParseError::Statement { position: 6 }));
    assert_eq!(parse("A = 1").err(), Some(ParseError::Statement { position: 0 }));
    assert_eq!(parse("a=1").err(), Some(ParseError::Statement { position: 0 }));
}

#[test]
fn unterminated_text_is_no_statement() {
    assert_eq!(parse("a = \"abc").err(), Some(ParseError::Statement { position: 0 }));
}

#[test]
fn second_operator_is_trailing() {
    assert_eq!(parse("a = 1 + 2 + 3").err(), Some(ParseError::Trailing { position: 9 }));
    assert_eq!(parse("a = 1 == 2 == 3").err(), Some(ParseError::Trailing { position: 10 }));
}

#[test]
fn text_after_a_literal_is_trailing() {
    assert_eq!(parse("a = truex").err(), Some(ParseError::Trailing { position: 8 }));
    assert_eq!(parse("a = 1 ").err(), Some(ParseError::Trailing { position: 5 }));
    assert_eq!(parse("a = f(1)[0]").err(), Some(ParseError::Trailing { position: 8 }));
}

#[test]
fn nested_block_is_not_read() {
    assert_eq!(
        parse("if a\n    if b\n        c = 1").err(),
        Some(ParseError::Statement { position: 5 })
    );
}

#[test]
fn deeper_indentation_is_trailing() {
    assert_eq!(
        parse("if a\n    b = 1\n        c = 1").err(),
        Some(ParseError::Statement { position: 15 })
    );
}

#[test]
fn separator_without_element_closes_nothing() {
    assert_eq!(parse("a = [1, ]").err(), Some(ParseError::Statement { position: 0 }));
    assert_eq!(parse("a = [1,2]").err(), Some(ParseError::Statement { position: 0 }));
}

#[test]
fn type_errors() {
    assert_eq!(failure("a = 1 + true"), Some(RunError::Type));
    assert_eq!(failure("a = \"a\" + 1"), Some(RunError::Type));
    assert_eq!(failure("a = \"a\" - \"b\""), Some(RunError::Type));
    assert_eq!(failure("a = true == true"), Some(RunError::Type));
    assert_eq!(failure("a = 1 and 2"), Some(RunError::Type));
    assert_eq!(failure("a = [1] + [2]"), Some(RunError::Type));
    assert_eq!(failure("a = true.length"), Some(RunError::Type));
    assert_eq!(failure("a = 1.length"), Some(RunError::Type));
    assert_eq!(failure("a = \"x\".size"), Some(RunError::Type));
    assert_eq!(failure("a = [1][true]"), Some(RunError::Type));
    assert_eq!(failure("a = 1[0]"), Some(RunError::Type));
    assert_eq!(failure("a = \"abc\"[0]"), Some(RunError::Type));
    assert_eq!(failure("if 1\n    a = 2"), Some(RunError::Type));
    assert_eq!(failure("while \"x\"\n    a = 2"), Some(RunError::Type));
}

#[test]
fn method_errors() {
    assert_eq!(failure("a = \"x\".ends_with(\"x\")"), Some(RunError::Type));
    assert_eq!(failure("a = \"x\".starts_with()"), Some(RunError::Arity));
    assert_eq!(failure("a = \"x\".starts_with(\"x\", \"y\")"), Some(RunError::Arity));
    assert_eq!(failure("a = \"x\".starts_with(1, 2)"), Some(RunError::Arity));
    assert_eq!(failure("a = \"x\".ends_with()"), Some(RunError::Type));
    assert_eq!(failure("a = [1].starts_with()"), Some(RunError::Type));
    assert_eq!(failure("a = 1.starts_with(1, 2)"), Some(RunError::Type));
    assert_eq!(failure("a = \"x\".starts_with(1)"), Some(RunError::Type));
    assert_eq!(failure("a = [1].starts_with(\"x\")"), Some(RunError::Type));
    assert_eq!(failure("a = 1.starts_with(\"x\")"), Some(RunError::Type));
}

#[test]
fn arity_errors() {
    assert_eq!(failure("func f(x)\n    return x\na = f()"), Some(RunError::Arity));
    assert_eq!(failure("func f()\n    return 1\na = f(1)"), Some(RunError::Arity));
    assert_eq!(failure("func f(x, y)\n    return x\na = f(1)"), Some(RunError::Arity));
}

#[test]
fn name_errors() {
    assert_eq!(failure("a = b"), Some(RunError::Name));
    assert_eq!(failure("a = f()"), Some(RunError::Name));
    assert_eq!(failure("a = a"), Some(RunError::Name));
    assert_eq!(failure("func f()\n    return 1\na = f"), Some(RunError::Name));
    assert_eq!(failure("f = 1\na = f()"), Some(RunError::Name));
}

#[test]
fn bounds_errors() {
    assert_eq!(failure("a = [1, 2][2]"), Some(RunError::Bounds));
    assert_eq!(failure("a = [][0]"), Some(RunError::Bounds));
    assert_eq!(failure("a = [1, 2]\nb = a[a.length]"), Some(RunError::Bounds));
    assert_eq!(failure("a = [1, 2][1 / 0]"), Some(RunError::Bounds));
}

#[test]
fn negative_index_is_out_of_bounds() {
    assert_eq!(failure("a = [2, \"test\"]\nb = a[0 - 1]"), Some(RunError::Bounds));
    assert_eq!(failure("a = [7, 8][0 - 1]"), Some(RunError::Bounds));
    assert_eq!(failure("a = [7, 8][0 - 2]"), Some(RunError::Bounds));
    assert_eq!(failure("a = [7, 8][0 - 3 / 2]"), Some(RunError::Bounds));
    assert_eq!(failure("a = [7, 8][0 - 1 / 0]"), Some(RunError::Bounds));
    assert_eq!(failure("a = [][0 - 1]"), Some(RunError::Bounds));
}

#[test]
fn index_without_integer_part_is_out_of_bounds() {
    assert_eq!(failure("a = [7, 8][0 / 0]"), Some(RunError::Bounds));
    assert_eq!(failure("a = [7, 8][1 / 0]"), Some(RunError::Bounds));
    assert_eq!(failure("i = 1 / 0\nn = i - i\na = [7, 8][n]"), Some(RunError::Bounds));
}

#[test]
fn structure_errors() {
    assert_eq!(failure("return 1"), Some(RunError::Structure));
    assert_eq!(failure("a = 1\nreturn a"), Some(RunError::Structure));
    assert_eq!(failure("if true\n    return 1"), Some(RunError::Structure));
    assert_eq!(failure("while true\n    return 1"), Some(RunError::Structure));
    assert_eq!(failure("func f()\n    a = 1\nb = f()"), Some(RunError::Structure));
    assert_eq!(failure("func f()\nb = f()"), Some(RunError::Structure));
}

#[test]
fn return_at_top_level_is_not_evaluated() {
    assert_eq!(failure("return b"), Some(RunError::Structure));
    assert_eq!(failure("if false\n    return 1\na = 1"), None);
}

#[test]
fn limit_errors() {
    let spin = parse("i = 0\nwhile true\n    i = i + 1").unwrap();
    assert_eq!(run_with_fuel(&spin, 10).err(), Some(RunError::Limit));
    assert_eq!(run_with_fuel(&spin, 0).err(), Some(RunError::Limit));
    let call = parse("func f()\n    return 1\na = f()").unwrap();
    assert_eq!(run_with_fuel(&call, 0).err(), Some(RunError::Limit));
    assert!(run_with_fuel(&call, 1).is_ok());
}

#[test]
fn fuel_counts_the_turns_of_a_loop() {
    let count = parse("i = 0\nwhile i != 5\n    i = i + 1").unwrap();
    assert_eq!(run_with_fuel(&count, 4).err(), Some(RunError::Limit));
    let state = run_with_fuel(&count, 5).unwrap();
    assert!(state.get("i").unwrap().eq_number(5));
}

#[test]
fn a_call_gives_its_fuel_back() {
    let calls = parse("func f()\n    return 1\na = f()\nb = f()\nc = [f(), f(), f()]").unwrap();
    let state = run_with_fuel(&calls, 1).unwrap();
    assert!(state.get("c").unwrap().element(2).unwrap().eq_number(1));
}

#[test]
fn first_error_wins() {
    assert_eq!(failure("a = [b, 1 + true]"), Some(RunError::Name));
    assert_eq!(failure("a = [1 + true, b]"), Some(RunError::Type));
    assert_eq!(failure("a = b + [1][1]"), Some(RunError::Name));
    assert_eq!(failure("a = [1][1] + b"), Some(RunError::Bounds));
    assert_eq!(failure("a = b[1 + true]"), Some(RunError::Name));
    assert_eq!(failure("a = b.starts_with(1 + true)"), Some(RunError::Name));
    assert_eq!(failure("a = \"x\".starts_with(b, 1 + true)"), Some(RunError::Name));
    assert_eq!(failure("a = 1\nb = c\nd = 1 + true"), Some(RunError::Name));
}

#[test]
fn missing_function_comes_before_its_arguments() {
    assert_eq!(failure("a = f(1 + true)"), Some(RunError::Name));
    assert_eq!(failure("func f()\n    return 1\na = f(1 + true)"), Some(RunError::Arity));
    assert_eq!(failure("func f(x)\n    return 1\na = f(1 + true)"), Some(RunError::Type));
}

#[test]
fn both_operands_are_evaluated() {
    assert_eq!(failure("a = false and b"), Some(RunError::Name));
    assert_eq!(failure("a = true or b"), Some(RunError::Name));
    assert_eq!(failure("a = true or 1"), Some(RunError::Type));
}

#[test]
fn a_function_body_sees_no_function() {
    let code = "func g()\n    return 1\nfunc f()\n    return g()\na = f()";
    assert_eq!(failure(code), Some(RunError::Name));
}

#[test]
fn a_function_body_sees_no_outer_variable() {
    assert_eq!(failure("b = 1\nfunc f()\n    return b\na = f()"), Some(RunError::Name));
}

#[test]
fn element_past_the_end() {
    let program = parse("a = [1, 2]\nb = 3").unwrap();
    let state = run(&program).unwrap();
    let array = state.get("a").unwrap();
    assert!(array.element(1).is_ok());
    assert_eq!(array.element(2).err(), Some(RunError::Bounds));
    assert_eq!(array.element(usize::MAX).err(), Some(RunError::Bounds));
    assert_eq!(state.get("b").unwrap().element(0).err(), Some(RunError::Type));
}

use tiny_script::interpreter::run;
use tiny_script::parser::parse;

#[test]
fn literal_bool() {
    let ast = parse("a = true\nb = false").unwrap();
    let state = run(&ast).unwrap();
    assert!(state.get("a").unwrap().eq_bool(true));
    assert!(state.get("b").unwrap().eq_bool(false));
}

#[test]
fn literal_number() {
    let ast = parse("a = 42").unwrap();
    let state = run(&ast).unwrap();
    assert!(state.get("a").unwrap().eq_number(42));
}

#[test]
fn literal_text() {
    let ast = parse("a = \"Hello, world!\"").unwrap();
    let state = run(&ast).unwrap();
    assert!(state.get("a").unwrap().eq_text("Hello, world!"));
}

#[test]
fn expression_variable() {
    let ast = parse("a = 42\nb = a").unwrap();
    let state = run(&ast).unwrap();
    assert!(state.get("b").unwrap().eq_number(42));
}

#[test]
fn text_length() {
    let ast = parse("a = \"hello\".length").unwrap();
    let state = run(&ast).unwrap();
    assert!(state.get("a").unwrap().eq_number(5));
}

#[test]
fn add_number() {
    let ast = parse("a = 2 + 2").unwrap();
    let state = run(&ast).unwrap();
    assert!(state.get("a").unwrap().eq_number(4));
}

#[test]
fn add_text() {
    let ast = parse("a = \"a\" + \"b\"").unwrap();
    let state = run(&ast).unwrap();
    assert!(state.get("a").unwrap().eq_text("ab"));
}

#[test]
fn sub_number() {
    let ast = parse("a = 13 - 8").unwrap();
    let state = run(&ast).unwrap();
    assert!(state.get("a").unwrap().eq_number(5));
}

#[test]
fn mul_number() {
    let ast = parse("a = 2 * 3").unwrap();
    let state = run(&ast).unwrap();
    assert!(state.get("a").unwrap().eq_number(6));
}

#[test]
fn div_number() {
    let ast = parse("a = 6 / 2").unwrap();
    let state = run(&ast).unwrap();
    assert!(state.get("a").unwrap().eq_number(3));
}

#[test]
fn equal_number() {
    let ast = parse("a = 2 == 2\nb = 2 == 3\nc = 2 != 2\nd = 2 != 3").unwrap();
    let state = run(&ast).unwrap();
    assert!(state.get("a").unwrap().eq_bool(true));
    assert!(state.get("b").unwrap().eq_bool(false));
    assert!(state.get("c").unwrap().eq_bool(false));
    assert!(state.get("d").unwrap().eq_bool(true));
}

#[test]
fn equal_text() {
    let ast =
        parse("a = \"a\" == \"a\"\nb = \"a\" == \"b\"\nc = \"a\" != \"a\"\nd = \"a\" != \"b\"")
            .unwrap();
    let state = run(&ast).unwrap();
    assert!(state.get("a").unwrap().eq_bool(true));
    assert!(state.get("b").unwrap().eq_bool(false));
    assert!(state.get("c").unwrap().eq_bool(false));
    assert!(state.get("d").unwrap().eq_bool(true));
}

#[test]
fn and() {
    let ast =
        parse("a = false and false\nb = false and true\nc = true and false\nd = true and true")
            .unwrap();
    let state = run(&ast).unwrap();
    assert!(state.get("a").unwrap().eq_bool(false));
    assert!(state.get("b").unwrap().eq_bool(false));
    assert!(state.get("c").unwrap().eq_bool(false));
    assert!(state.get("d").unwrap().eq_bool(true));
}

#[test]
fn or() {
    let ast = parse("a = false or false\nb = false or true\nc = true or false\nd = true or true")
        .unwrap();
    let state = run(&ast).unwrap();
    assert!(state.get("a").unwrap().eq_bool(false));
    assert!(state.get("b").unwrap().eq_bool(true));
    assert!(state.get("c").unwrap().eq_bool(true));
    assert!(state.get("d").unwrap().eq_bool(true));
}

#[test]
fn array() {
    let ast = parse("a = [2, \"test\"]").unwrap();
    let state = run(&ast).unwrap();
    assert!(state.get("a").unwrap().element(0).unwrap().eq_number(2));
    assert!(state.get("a").unwrap().element(1).unwrap().eq_text("test"));
}

#[test]
fn array_length() {
    let ast = parse("a = [2, \"test\"].length").unwrap();
    let state = run(&ast).unwrap();
    assert!(state.get("a").unwrap().eq_number(2));
}

#[test]
fn array_index() {
    let ast = parse("a = [2, \"test\"]\nb = a[0]\nc = a[1]").unwrap();
    let state = run(&ast).unwrap();
    assert!(state.get("b").unwrap().eq_number(2));
    assert!(state.get("c").unwrap().eq_text("test"));
}

#[test]
fn func_return() {
    let ast = parse("func f()\n    return 2\na = f()").unwrap();
    let state = run(&ast).unwrap();
    assert!(state.get("a").unwrap().eq_number(2));
}

#[test]
fn while_simple() {
    let ast = parse("i = 0\nwhile i != 5\n    i = i + 1").unwrap();
    let state = run(&ast).unwrap();
    assert!(state.get("i").unwrap().eq_number(5));
}

#[test]
fn if_simple() {
    let ast = parse("i = 0\nif i == 0\n    i = 1\nif i == 0\n    i = 2").unwrap();
    let state = run(&ast).unwrap();
    assert!(state.get("i").unwrap().eq_number(1));
}

#[test]
fn text_starts_with() {
    let ast = parse("a = \"hello\"\nb = a.starts_with(\"he\")\nc = a.starts_with(\"ha\")").unwrap();
    let state = run(&ast).unwrap();
    assert!(state.get("b").unwrap().eq_bool(true));
    assert!(state.get("c").unwrap().eq_bool(false));
}

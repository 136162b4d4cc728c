use tiny_script::interpreter::run;
use tiny_script::parser::parse;

#[test]
fn as_many_variables_as_names_assigned() {
    let program = parse("a = 1\nb = a\na = \"x\"\nc = true\nb = c").unwrap();
    let state = run(&program).unwrap();
    assert_eq!(state.len(), 3);
    assert_eq!(state.entry(0).0, b"a");
    assert_eq!(state.entry(1).0, b"b");
    assert_eq!(state.entry(2).0, b"c");
    assert!(state.entry(0).1.eq_text("x"));
    assert!(state.get("b").unwrap().eq_bool(true));
    assert!(state.get("d").is_none());
}

#[test]
fn one_variable_assigned_many_times() {
    let program = parse("a = 1\na = 2\na = 3").unwrap();
    let state = run(&program).unwrap();
    assert_eq!(state.len(), 1);
    assert!(state.get("a").unwrap().eq_number(3));
}

#[test]
fn functions_are_no_variables() {
    let program = parse("func f()\n    return 1\na = f()").unwrap();
    let state = run(&program).unwrap();
    assert_eq!(state.len(), 1);
    assert!(state.get("f").is_none());
}

#[test]
fn two_runs_end_alike() {
    let code = "a = [1, \"two\", true]\ni = 0\nwhile i != 3\n    i = i + 1\nb = a[i - 1]\nc = 1 / 3";
    let program = parse(code).unwrap();
    let first = run(&program).unwrap();
    let second = run(&program).unwrap();
    assert_eq!(first.len(), 4);
    assert_eq!(first.len(), second.len());
    for position in 0..first.len() {
        let (name, value) = first.entry(position);
        let (other_name, other_value) = second.entry(position);
        assert_eq!(name, other_name);
        assert_eq!(format!("{:?}", value), format!("{:?}", other_value));
    }
    let again = run(&parse(code).unwrap()).unwrap();
    assert_eq!(format!("{:?}", first.get("c")), format!("{:?}", again.get("c")));
}

#[test]
fn values_are_copied_not_shared() {
    let program = parse("a = [1]\nb = a\na = [2]").unwrap();
    let state = run(&program).unwrap();
    assert!(state.get("b").unwrap().element(0).unwrap().eq_number(1));
    assert!(state.get("a").unwrap().element(0).unwrap().eq_number(2));
}

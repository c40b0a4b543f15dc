//! Tests for expression evaluation and context resolution.
use manus::exprs::{evaluate_all_expressions, evaluate_expression, run_eval};
use manus::render::fill_data;
use manus::value::{find_expressions, lookup, replace_value_in_data, Value};

fn b(s: &str) -> Vec<u8> {
    s.as_bytes().to_vec()
}

fn lines(texts: &[&str]) -> Vec<Vec<u8>> {
    texts.iter().map(|t| b(t)).collect()
}

fn num(s: &str) -> Value {
    Value::Number(b(s))
}

fn text(s: &str) -> Value {
    Value::Text(b(s))
}

fn obj(entries: Vec<(&str, Value)>) -> Value {
    Value::Object(entries.into_iter().map(|(k, v)| (b(k), v)).collect())
}

fn has(haystack: &[u8], needle: &str) -> bool {
    let n = needle.as_bytes();
    haystack.windows(n.len()).any(|w| w == n)
}

fn get<'a>(v: &'a Value, path: &[&str]) -> &'a Value {
    let segs: Vec<Vec<u8>> = path.iter().map(|s| b(s)).collect();
    lookup(v, &segs, 0).unwrap()
}

#[test]
fn test_expressions() {
    let doc = lines(&[
        "The percentage of {{small}} out of {{large}} is {{round percentage}}",
        "Adding one percentage point, it becomes: {{round added_percentage}}",
    ]);

    let data = obj(vec![
        ("large", num("10000")),
        ("small", num("200")),
        ("percentage", text("expr: 100 * small / large")),
        ("added_percentage", text("expr: percentage + 1")),
        ("three", text("expr: 1 + 2")),
        ("nested_expressions", obj(vec![("value_sum", text("expr: large + small"))])),
    ]);

    assert_eq!(run_eval(&b("100 * 3"), &data), Ok(num("300")));
    assert_eq!(run_eval(&b("round(1.23, 1)"), &data), Ok(num("1.2")));
    assert_eq!(run_eval(&b("round(1.23)"), &data), Ok(num("1")));
    // Check that the second argument has an integer-check
    match run_eval(&b("round(1.23, 1.2)"), &data) {
        Ok(v) => panic!("This should have failed!: {:?}", v),
        Err(e) => assert!(has(&e, "must be an integer")),
    }

    // This will fail because of a misspelled key.
    match run_eval(&b("largee + small"), &data) {
        Ok(v) => panic!("This should have failed!: {:?}", v),
        Err(e) => assert!(has(&e, "Perhaps a key is misspelled?")),
    }

    let located = find_expressions(&data, None);
    assert_eq!(located.len(), 4);

    let parsed_data = evaluate_all_expressions(&data).unwrap();
    let new_lines = fill_data(&doc, &parsed_data).unwrap().lines;

    assert_eq!(get(&parsed_data, &["three"]), &num("3"));
    assert_eq!(get(&parsed_data, &["percentage"]), &num("2.0"));
    assert_eq!(get(&parsed_data, &["nested_expressions", "value_sum"]), &num("10200"));

    assert_eq!(new_lines[0], b("The percentage of 200 out of 10000 is 2"));
    assert_eq!(new_lines[1], b("Adding one percentage point, it becomes: 3"));

    // Make some expressions with circular dependencies (should raise a recursion error).
    let data = obj(vec![
        ("ex1", text("expr: ex2 + 1")),
        ("ex2", text("expr: ex1 + 1")),
        ("ex3", text("expr: ex3 + 1")),
    ]);

    assert!(matches!(data, Value::Object(_)));

    match evaluate_expression(&b("ex1 + ex2"), &data, 0) {
        Ok(v) => panic!("This should have failed!: {:?}", v),
        Err(s) => assert!(has(&s, "recursion"), "{}", String::from_utf8_lossy(&s)),
    }
}

#[test]
fn test_engine_arithmetic() {
    let data = obj(vec![("eighth", num("8")), ("big", num("1e30"))]);

    // Division always yields a fractional value; whole-number sums and
    // products stay whole.
    assert_eq!(run_eval(&b("100 / 8"), &data), Ok(num("12.5")));
    assert_eq!(run_eval(&b("10 / 4"), &data), Ok(num("2.5")));
    assert_eq!(run_eval(&b("2 * (3 + 4)"), &data), Ok(num("14")));
    assert_eq!(run_eval(&b("1 / eighth"), &data), Ok(num("0.125")));
    assert_eq!(run_eval(&b("big + 1"), &data), Ok(num("1000000000000000000000000000001.0")));

    match run_eval(&b("1 / 0"), &data) {
        Ok(v) => panic!("This should have failed!: {:?}", v),
        Err(e) => assert!(has(&e, "Division by zero"), "{}", String::from_utf8_lossy(&e)),
    }
    match run_eval(&b("big * big"), &data) {
        Ok(v) => panic!("This should have failed!: {:?}", v),
        Err(e) => assert!(has(&e, "range"), "{}", String::from_utf8_lossy(&e)),
    }
    // An empty parenthesis group is a parse error, never an abort.
    match run_eval(&b("2 + ()"), &data) {
        Ok(v) => panic!("This should have failed!: {:?}", v),
        Err(e) => assert!(has(&e, "Unexpected character"), "{}", String::from_utf8_lossy(&e)),
    }
}

#[test]
fn test_resolution_replaces_every_expression() {
    // Expressions buried under maps and lists all disappear.
    let data = obj(vec![
        ("a", num("2")),
        ("twice", text("expr: a * 2")),
        ("deep", obj(vec![("sum", text("expr: a + a"))])),
        ("items", Value::List(vec![num("1"), num("2")])),
    ]);

    let resolved = evaluate_all_expressions(&data).unwrap();

    assert_eq!(get(&resolved, &["twice"]), &num("4"));
    assert_eq!(get(&resolved, &["deep", "sum"]), &num("4"));
    assert_eq!(find_expressions(&resolved, None).len(), 0);
    // The input tree is untouched.
    assert_eq!(get(&data, &["twice"]), &text("expr: a * 2"));
}

#[test]
fn test_self_referential_expression_fails() {
    let data = obj(vec![("ex3", text("expr: ex3 + 1"))]);
    match evaluate_all_expressions(&data) {
        Ok(v) => panic!("This should have failed!: {:?}", v),
        Err(e) => assert!(has(&e, "recursion"), "{}", String::from_utf8_lossy(&e)),
    }
}

#[test]
fn test_write_to_missing_key_is_reported() {
    let data = obj(vec![("a", num("1"))]);
    let keys = vec![b("nowhere")];
    match replace_value_in_data(&data, &keys, num("2")) {
        Ok(v) => panic!("This should have failed!: {:?}", v),
        Err(e) => assert_eq!(e, b("Key not found")),
    }
}

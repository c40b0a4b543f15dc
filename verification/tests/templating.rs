//! Tests for the template renderer and its formatting helpers.
use manus::numeric::{add_separators, dec_to_bytes, parse_dec, round_value};
use manus::render::fill_data;
use manus::value::Value;

fn b(s: &str) -> Vec<u8> {
    s.as_bytes().to_vec()
}

fn lines(texts: &[&str]) -> Vec<Vec<u8>> {
    texts.iter().map(|t| b(t)).collect()
}

fn num(s: &str) -> Value {
    Value::Number(b(s))
}

fn text(s: &str) -> Value {
    Value::Text(b(s))
}

fn obj(entries: Vec<(&str, Value)>) -> Value {
    Value::Object(entries.into_iter().map(|(k, v)| (b(k), v)).collect())
}

/// Rounds the decimal text `v` to `k` places and writes it back.
fn round_text(v: &str, k: i32) -> Vec<u8> {
    let d = parse_dec(&b(v)).unwrap();
    dec_to_bytes(&round_value(&d, k))
}

#[test]
fn test_fill_data() {
    let doc = lines(&["Hello", "I am {{years}} years old.", "Goodbye."]);

    let data = obj(vec![("years", num("24"))]);

    let new_lines = fill_data(&doc, &data).unwrap().lines;

    assert_eq!(new_lines[1], b("I am 24 years old."));
}

#[test]
fn test_round_helpers() {
    let doc = lines(&[
        "Hello",
        "{{large_value}} rounded to the nearest 1000 is {{roundup 3 large_value}}",
        "{{decimal_value}} rounded to one decimal is {{round 1 decimal_value}}",
    ]);

    // Try the large value as an integer and decimal_value as a string.
    let data = obj(vec![("large_value", num("8699")), ("decimal_value", text("1.234"))]);

    let new_lines = fill_data(&doc, &data).unwrap().lines;

    assert_eq!(round_text("1.234", 1), b("1.2"));
    assert_eq!(round_text("8699", -3), b("9000"));

    assert_eq!(new_lines[0], b("Hello"));
    assert_eq!(new_lines[1], b("8699 rounded to the nearest 1000 is 9000"));
    assert_eq!(new_lines[2], b("1.234 rounded to one decimal is 1.2"));
}

#[test]
fn test_rounding_values() {
    assert_eq!(round_text("1.25", 1), b("1.3"));
    assert_eq!(round_text("-1.25", 1), b("-1.3"));
    assert_eq!(round_text("1.97", 1), b("2"));
    assert_eq!(round_text("0.046", 2), b("0.05"));
    assert_eq!(round_text("449", -2), b("400"));
    assert_eq!(round_text("450", -2), b("500"));
    assert_eq!(round_text("99.95", 1), b("100"));
    assert_eq!(round_text("123.456", 0), b("123"));
    assert_eq!(round_text("123.456", 7), b("123.456"));
    assert_eq!(round_text("-0.2", 0), b("0"));
}

#[test]
fn test_pm_helper() {
    let doc = lines(&[
        "The value is {{pm data.value}}",
        "The value is {{pm 1 data.value}}",
        "The other value is {{pm value2}}",
    ]);

    let data = obj(vec![
        ("data", obj(vec![("value", num("1.2345")), ("value_pm", num("0.2345"))])),
        ("value2", num("2")),
        ("value2_pm", num("0.1")),
    ]);

    let new_lines = fill_data(&doc, &data).unwrap().lines;

    assert_eq!(new_lines[0], b("The value is 1.2345$\\pm$0.2345"));
    assert_eq!(new_lines[1], b("The value is 1.2$\\pm$0.2"));
    assert_eq!(new_lines[2], b("The other value is 2$\\pm$0.1"));
}

#[test]
fn test_sep_helper() {
    let doc = lines(&[
        "10000 is a large number.",
        "{{sep 10000}} looks better.",
        "{{sep str_with_numerics}}",
        "{{sep (pm value)}}",
    ]);

    assert_eq!(add_separators(&parse_dec(&b("10000")).unwrap(), &b(",")), b("10,000"));
    assert_eq!(
        add_separators(&parse_dec(&b("123456.78901")).unwrap(), &b(",")),
        b("123,456.78901")
    );
    assert_eq!(add_separators(&parse_dec(&b("123456")).unwrap(), &b("\\,")), b("123\\,456"));

    let data = obj(vec![
        ("separator", text(",")),
        ("str_with_numerics", text("Data are 12345 years old with a mean of 1.4858")),
        ("value", num("-123456789")),
        ("value_pm", num("12456")),
    ]);

    let new_lines = fill_data(&doc, &data).unwrap().lines;

    assert_eq!(new_lines[0], b("10000 is a large number."));
    assert_eq!(new_lines[1], b("10,000 looks better."));
    assert_eq!(new_lines[2], b("Data are 12,345 years old with a mean of 1.4858"));
    assert_eq!(new_lines[3], b("-123,456,789$\\pm$12,456"));
}

#[test]
fn test_exponent_number_texts() {
    // Large values arrive from data sources in exponent notation; the
    // helpers read them exactly.
    assert_eq!(round_text("1.5e2", 0), b("150"));
    assert_eq!(round_text("25e-1", 1), b("2.5"));
    assert_eq!(round_text("-2E3", 0), b("-2000"));

    let doc = lines(&["{{round 0 big}} and {{sep big}}"]);
    let data = obj(vec![("separator", text(",")), ("big", num("1e6"))]);
    let out = fill_data(&doc, &data).unwrap();
    assert_eq!(out.lines[0], b("1000000 and 1e6"));

    let doc2 = lines(&["{{roundup 3 big}}"]);
    let data2 = obj(vec![("big", num("1e30"))]);
    let out2 = fill_data(&doc2, &data2).unwrap();
    assert_eq!(out2.lines[0], b("1000000000000000000000000000000"));
}

#[test]
fn test_case_helpers() {
    let doc = lines(&["{{upper name}} and {{lower shout}}"]);
    let data = obj(vec![("name", text("quiet")), ("shout", text("LOUD"))]);

    let new_lines = fill_data(&doc, &data).unwrap().lines;

    assert_eq!(new_lines[0], b("QUIET and loud"));
}

#[test]
fn test_render_failure_is_line_local() {
    let doc = lines(&[
        "First: {{known}}",
        "Second: {{unknown.path}}",
        "Third: {{known}} again",
    ]);
    let data = obj(vec![("known", num("7"))]);

    let out = fill_data(&doc, &data).unwrap();

    // The failing line is kept as written; its neighbours render.
    assert_eq!(out.lines.len(), 3);
    assert_eq!(out.lines[0], b("First: 7"));
    assert_eq!(out.lines[1], b("Second: {{unknown.path}}"));
    assert_eq!(out.lines[2], b("Third: 7 again"));

    // Exactly one warning, naming the failing line's one-based number.
    assert_eq!(out.warnings.len(), 1);
    let warning = String::from_utf8_lossy(&out.warnings[0]).into_owned();
    assert!(warning.starts_with("WARNING L2C"), "{}", warning);
}

#[test]
fn test_missing_separator_fails_line() {
    let doc = lines(&["{{sep big}}"]);
    let data = obj(vec![("big", num("10000"))]);

    let out = fill_data(&doc, &data).unwrap();
    assert_eq!(out.lines[0], b("{{sep big}}"));
    assert_eq!(out.warnings.len(), 1);
    let warning = String::from_utf8_lossy(&out.warnings[0]).into_owned();
    assert!(warning.contains("separator"), "{}", warning);
}

#[test]
fn test_missing_pm_sibling_fails_line() {
    let doc = lines(&["{{pm lonely}}"]);
    let data = obj(vec![("lonely", num("5"))]);

    let out = fill_data(&doc, &data).unwrap();
    assert_eq!(out.lines[0], b("{{pm lonely}}"));
    assert_eq!(out.warnings.len(), 1);
    let warning = String::from_utf8_lossy(&out.warnings[0]).into_owned();
    assert!(warning.contains("lonely_pm key not found"), "{}", warning);
}

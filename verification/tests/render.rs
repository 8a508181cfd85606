use ipc_broker::json::{JsonNumber, JsonValue};
use ipc_broker::render::{decimal_text, print_value};

fn s(t: &str) -> String {
    t.to_string()
}

#[test]
fn map_result_lines() {
    let v = JsonValue::Object(vec![(s("sum"), JsonValue::Number(JsonNumber::PosInt(42)))]);
    assert_eq!(print_value(&v, 0, None), vec![s("Map:"), s("  sum :: 42")]);
}

#[test]
fn scalar_lines() {
    assert_eq!(print_value(&JsonValue::Null, 0, None), vec![s("Null")]);
    assert_eq!(print_value(&JsonValue::Bool(true), 2, None), vec![s("  true")]);
    assert_eq!(print_value(&JsonValue::String(s("25.6°C")), 0, None), vec![s("\"25.6°C\"")]);
    assert_eq!(print_value(&JsonValue::Number(JsonNumber::NegInt(-5)), 0, Some("k")), vec![s("k :: -5")]);
    assert_eq!(print_value(&JsonValue::Number(JsonNumber::Float(s("2.5"))), 0, None), vec![s("2.5")]);
    assert_eq!(print_value(&JsonValue::Null, 1, Some("key")), vec![s(" key :: Null")]);
}

#[test]
fn nested_lines() {
    let v = JsonValue::Object(vec![
        (s("message"), JsonValue::String(s("Rebooting in 5 minutes"))),
        (
            s("list"),
            JsonValue::Array(vec![JsonValue::Bool(false), JsonValue::Array(vec![]), JsonValue::Object(vec![])]),
        ),
    ]);
    assert_eq!(
        print_value(&v, 0, None),
        vec![
            s("Map:"),
            s("  message :: \"Rebooting in 5 minutes\""),
            s("  list :: List:"),
            s("    0 :: false"),
            s("    1 :: List:"),
            s("    2 :: Map:"),
        ]
    );
}

#[test]
fn decimal_texts() {
    assert_eq!(decimal_text(0), s("0"));
    assert_eq!(decimal_text(10), s("10"));
    assert_eq!(decimal_text(u64::MAX), u64::MAX.to_string());
    assert_eq!(print_value(&JsonValue::Number(JsonNumber::NegInt(i64::MIN)), 0, None), vec![i64::MIN.to_string()]);
}

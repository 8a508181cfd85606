use ipc_broker::calculator::{Calculator, MathCalculator};
use ipc_broker::json::{JsonNumber, JsonValue};

fn integer(n: i64) -> JsonValue {
    JsonValue::from_i64(n)
}

#[test]
fn calculator_add_and_mul() {
    let args = JsonValue::Array(vec![integer(5), integer(7)]);
    assert_eq!(Calculator.call("add", &args), JsonValue::Number(JsonNumber::PosInt(12)));
    assert_eq!(Calculator.call("mul", &args), JsonValue::Number(JsonNumber::PosInt(35)));
    let neg = JsonValue::Array(vec![integer(-5), integer(2)]);
    assert_eq!(Calculator.call("mul", &neg), JsonValue::Number(JsonNumber::NegInt(-10)));
}

#[test]
fn calculator_missing_or_bad_operands_count_as_zero() {
    assert_eq!(Calculator.call("add", &JsonValue::Null), integer(0));
    let args = JsonValue::Array(vec![JsonValue::String("x".to_string()), integer(3)]);
    assert_eq!(Calculator.call("add", &args), integer(3));
    let big = JsonValue::Array(vec![JsonValue::Number(JsonNumber::PosInt(u64::MAX)), integer(1)]);
    assert_eq!(Calculator.call("add", &big), integer(1));
}

#[test]
fn calculator_unknown_method() {
    assert_eq!(Calculator.call("div", &JsonValue::Null), JsonValue::String("Unknown method".to_string()));
}

fn object(key: &str, value: JsonValue) -> JsonValue {
    JsonValue::Object(vec![(key.to_string(), value)])
}

#[test]
fn math_adds_and_multiplies_named_operands() {
    assert_eq!(MathCalculator.call("add", Ok((10, 32))), object("sum", integer(42)));
    assert_eq!(MathCalculator.call("mul", Ok((6, 7))), object("product", integer(42)));
    assert_eq!(MathCalculator.call("mul", Ok((-3, 4))), object("product", integer(-12)));
}

#[test]
fn math_reports_unreadable_arguments_and_unknown_methods() {
    let reason = "missing field `b`".to_string();
    assert_eq!(
        MathCalculator.call("add", Err(reason)),
        JsonValue::String("Invalid args: missing field `b`".to_string())
    );
    assert_eq!(MathCalculator.call("div", Ok((1, 2))), JsonValue::String("Unknown method".to_string()));
    assert_eq!(
        MathCalculator.call("div", Err("bad".to_string())),
        JsonValue::String("Invalid args: bad".to_string())
    );
}

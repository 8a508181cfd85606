use ipc_broker::json::{JsonNumber, JsonValue};
use ipc_broker::signature::{parse_i64, parse_signature};

fn words(ws: &[&str]) -> Vec<String> {
    ws.iter().map(|w| w.to_string()).collect()
}

fn integer(n: i64) -> JsonValue {
    if n < 0 {
        JsonValue::Number(JsonNumber::NegInt(n))
    } else {
        JsonValue::Number(JsonNumber::PosInt(n as u64))
    }
}

#[test]
fn map_of_integers() {
    let v = parse_signature("{ii}", &words(&["a", "10", "b", "32"])).unwrap().0;
    assert_eq!(v, JsonValue::Object(vec![("a".to_string(), integer(10)), ("b".to_string(), integer(32))]));
}

#[test]
fn list_of_string_and_integer() {
    let v = parse_signature("(si)", &words(&["hello", "42"])).unwrap().0;
    assert_eq!(v, JsonValue::Array(vec![JsonValue::String("hello".to_string()), integer(42)]));
}

#[test]
fn string_null_and_negative() {
    assert_eq!(parse_signature("s", &words(&["Rebooting in 5 minutes"])).unwrap().0, JsonValue::String("Rebooting in 5 minutes".to_string()));
    assert_eq!(parse_signature("n", &words(&[])).unwrap().0, JsonValue::Null);
    assert_eq!(parse_signature("i", &words(&["-7"])).unwrap().0, integer(-7));
}

#[test]
fn map_with_string_and_integer_values() {
    let v = parse_signature("{is}", &words(&["key", "123", "value", "text"])).unwrap().0;
    assert_eq!(
        v,
        JsonValue::Object(vec![("key".to_string(), integer(123)), ("value".to_string(), JsonValue::String("text".to_string()))])
    );
}

#[test]
fn nested_list_in_map() {
    let v = parse_signature("{(si)}", &words(&["profile", "hello", "42"])).unwrap().0;
    assert_eq!(
        v,
        JsonValue::Object(vec![(
            "profile".to_string(),
            JsonValue::Array(vec![JsonValue::String("hello".to_string()), integer(42)])
        )])
    );
}

#[test]
fn repeated_key_keeps_last_value() {
    let v = parse_signature("{ii}", &words(&["a", "1", "a", "2"])).unwrap().0;
    assert_eq!(v, JsonValue::Object(vec![("a".to_string(), integer(2))]));
}

#[test]
fn unterminated_containers_end_with_signature() {
    assert_eq!(parse_signature("(s", &words(&["x"])).unwrap().0, JsonValue::Array(vec![JsonValue::String("x".to_string())]));
    assert_eq!(parse_signature("{", &words(&[])).unwrap().0, JsonValue::Object(vec![]));
}

#[test]
fn signature_errors() {
    assert_eq!(parse_signature("", &words(&[])), Err("unexpected end of signature".to_string()));
    assert_eq!(parse_signature("x", &words(&[])), Err("unexpected char in signature: x".to_string()));
    assert_eq!(parse_signature("s", &words(&[])), Err("expected string argument".to_string()));
    assert_eq!(parse_signature("i", &words(&[])), Err("expected integer argument".to_string()));
    assert_eq!(parse_signature("i", &words(&["abc"])), Err("invalid integer: abc".to_string()));
    assert_eq!(parse_signature("{i}", &words(&[])), Err("expected map key".to_string()));
    assert_eq!(parse_signature("(s)", &words(&[])), Err("expected string argument".to_string()));
}

#[test]
fn integer_words() {
    assert_eq!(parse_i64("42"), Some(42));
    assert_eq!(parse_i64("+42"), Some(42));
    assert_eq!(parse_i64("-9223372036854775808"), Some(i64::MIN));
    assert_eq!(parse_i64("9223372036854775807"), Some(i64::MAX));
    assert_eq!(parse_i64("9223372036854775808"), None);
    assert_eq!(parse_i64("99999999999999999999999"), None);
    assert_eq!(parse_i64("-"), None);
    assert_eq!(parse_i64(""), None);
    assert_eq!(parse_i64("4 2"), None);
    for w in ["0", "17", "-17", "+0", "-0", "123456789012"] {
        assert_eq!(parse_i64(w), w.parse::<i64>().ok());
    }
}

#[test]
fn documented_nested_signature() {
    let (v, used) = parse_signature("{s(i)}", &words(&["profile", "hello", "42"])).unwrap();
    assert_eq!(
        v,
        JsonValue::Object(vec![(
            "profile".to_string(),
            JsonValue::Array(vec![JsonValue::String("hello".to_string()), integer(42)])
        )])
    );
    assert_eq!(used, 3);
    let (v, _) = parse_signature("{s(i)(s)}", &words(&["k", "a", "1", "b"])).unwrap();
    assert_eq!(
        v,
        JsonValue::Object(vec![(
            "k".to_string(),
            JsonValue::Array(vec![JsonValue::String("a".to_string()), integer(1), JsonValue::String("b".to_string())])
        )])
    );
}

#[test]
fn words_consumed() {
    assert_eq!(parse_signature("{ii}", &words(&["a", "10", "b", "32"])).unwrap().1, 4);
    assert_eq!(parse_signature("(sss)", &words(&["one", "two", "three"])).unwrap().1, 3);
    assert_eq!(parse_signature("{is}", &words(&["key", "123", "value", "text"])).unwrap().1, 4);
    assert_eq!(parse_signature("n", &words(&["x"])).unwrap(), (JsonValue::Null, 0));
    assert_eq!(parse_signature("s", &words(&["x", "y"])).unwrap().1, 1);
}

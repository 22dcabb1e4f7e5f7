use crystalrake::json::{JsonNumber, JsonValue};

#[test]
fn render_array_minimal() {
    let v = r#" [ 12345, true, null, "a b" ] "#.parse::<JsonValue>().unwrap();
    assert_eq!(v.to_text(), r#"[12345,true,null,"a b"]"#);
}

#[test]
fn render_object_minimal() {
    let v = r#"{ "a" : 1 , "b" : [] }"#.parse::<JsonValue>().unwrap();
    assert_eq!(v.to_text(), r#"{"a":1,"b":[]}"#);
}

#[test]
fn render_escapes_string() {
    let v = JsonValue::String("a\"b\\c\nd\te\rf".to_string());
    assert_eq!(v.to_text(), "\"a\\\"b\\\\c\\nd\\te\\rf\"");
}

#[test]
fn render_escapes_control_character() {
    let v = JsonValue::String("x\u{1}y".to_string());
    assert_eq!(v.to_text(), "\"x\\u0001y\"");
}

#[test]
fn render_full_number() {
    let v = JsonValue::Number(JsonNumber {
        is_minus: true,
        integer: "12".to_string(),
        frac: "25".to_string(),
        exp: "+3".to_string(),
    });
    assert_eq!(v.to_text(), "-12.25E+3");
}

#[test]
fn render_parses_back() {
    let text = r#"{"empty":[],"n":-1.5E2,"s":"he said \"hi\"","t":true}"#;
    let v = text.parse::<JsonValue>().unwrap();
    let rendered = v.to_text();
    let w = rendered.parse::<JsonValue>().unwrap();
    assert_eq!(v, w);
    assert_eq!(rendered, text);
}

#[test]
fn booleans_and_null_render_as_keywords() {
    assert_eq!(JsonValue::Boolean(true).to_text(), "true");
    assert_eq!(JsonValue::Boolean(false).to_text(), "false");
    assert_eq!(JsonValue::Null.to_text(), "null");
}

use petri_monitor::netdef::parse_initial_token;
use petri_monitor::{ArcTokenDef, ArcTokenPattern, JsonValue, Token};

fn s(x: &str) -> JsonValue {
    JsonValue::Str(x.to_string())
}

#[test]
fn initial_token_from_array() {
    let v = JsonValue::Array(vec![s("Lock"), JsonValue::Number(Some(1))]);
    assert_eq!(parse_initial_token(&v), Token::Lock(1));
    let v = JsonValue::Array(vec![s("Tid"), JsonValue::Number(Some(4294967297))]);
    assert_eq!(parse_initial_token(&v), Token::Tid(1));
    let v = JsonValue::Array(vec![s("Loc")]);
    assert_eq!(parse_initial_token(&v), Token::Unit);
    let v = JsonValue::Array(vec![s("Region"), JsonValue::Number(None)]);
    assert_eq!(parse_initial_token(&v), Token::Region(0));
}

#[test]
fn initial_token_from_object() {
    let v = JsonValue::Object(vec![
        ("value".to_string(), JsonValue::Number(Some(8))),
        ("kind".to_string(), s("Loc")),
    ]);
    assert_eq!(parse_initial_token(&v), Token::Loc(8));
    let v = JsonValue::Object(vec![("kind".to_string(), s("Region"))]);
    assert_eq!(parse_initial_token(&v), Token::Region(0));
    let v = JsonValue::Object(vec![("kind".to_string(), s("Bogus")), ("value".to_string(), JsonValue::Number(Some(2)))]);
    assert_eq!(parse_initial_token(&v), Token::Unit);
    assert_eq!(parse_initial_token(&JsonValue::Null), Token::Unit);
    assert_eq!(parse_initial_token(&JsonValue::Bool(true)), Token::Unit);
}

#[test]
fn arc_definitions_become_patterns() {
    let a = ArcTokenDef::Variable { variable: "L".to_string() }.to_arc_spec("free");
    assert_eq!(a.place, "free");
    assert!(matches!(a.token, ArcTokenPattern::Variable(ref v) if v == "L"));
    let a = ArcTokenDef::Concrete { kind: "Lock".to_string(), value: 3 }.to_arc_spec("p");
    assert!(matches!(a.token, ArcTokenPattern::Concrete(Token::Lock(3))));
    let a = ArcTokenDef::Concrete { kind: "Other".to_string(), value: 3 }.to_arc_spec("p");
    assert!(matches!(a.token, ArcTokenPattern::Concrete(Token::Unit)));
    let a = ArcTokenDef::Unit {}.to_arc_spec("q");
    assert!(matches!(a.token, ArcTokenPattern::Concrete(Token::Unit)));
}

use clap_layers::env::read_env_value;
use clap_layers::{Env, TomlValue};

#[test]
fn env_holds_its_variables() {
    let mut env = Env::empty();
    assert!(env.get("A").is_none());
    env.set("A", "1");
    env.set("B", "2");
    env.set("A", "3");
    assert_eq!(env.get("A").unwrap(), "3");
    assert_eq!(env.get("B").unwrap(), "2");
}

#[test]
fn later_pairs_win() {
    let env = Env::from_pairs(vec![
        ("X".to_string(), "1".to_string()),
        ("Y".to_string(), "2".to_string()),
        ("X".to_string(), "3".to_string()),
    ]);
    assert_eq!(env.get("X").unwrap(), "3");
    assert_eq!(env.get("Y").unwrap(), "2");
    assert!(env.get("Z").is_none());
}

#[test]
fn environment_values_are_read_as_toml_or_else_as_text() {
    match read_env_value("[\"a\", \"b\"]") {
        TomlValue::Array(items) => assert_eq!(items.len(), 2),
        other => panic!("expected an array, got {other:?}"),
    }
    match read_env_value("\"quoted\"") {
        TomlValue::Str(s) => assert_eq!(s, "quoted"),
        other => panic!("expected a string, got {other:?}"),
    }
    for raw in ["localhost", "hello world", "127.0.0.1", "  padded  ", "[not-an-array", "a,b"] {
        match read_env_value(raw) {
            TomlValue::Str(s) => assert_eq!(s, raw),
            other => panic!("expected the text of {raw:?}, got {other:?}"),
        }
    }
    assert!(matches!(read_env_value("8080"), TomlValue::Int(8080)));
    assert!(matches!(read_env_value(" true "), TomlValue::Bool(true)));
    match read_env_value("{ host = \"env\", port = 2 }") {
        TomlValue::Table(items) => assert_eq!(items.len(), 2),
        other => panic!("expected a table, got {other:?}"),
    }
}

#[test]
fn an_environment_value_is_tried_as_toml_then_as_text() {
    let readings = clap_layers::env::env_readings("8080");
    assert_eq!(readings.len(), 2);
    assert!(matches!(readings[0], TomlValue::Int(8080)));
    assert!(matches!(&readings[1], TomlValue::Str(s) if s == "8080"));
    let readings = clap_layers::env::env_readings("  padded  ");
    assert!(matches!(&readings[0], TomlValue::Str(s) if s == "  padded  "));
    assert!(matches!(&readings[1], TomlValue::Str(s) if s == "  padded  "));
}

use pipeline_dsl::api;
use pipeline_dsl::json::{from_str, object_get, Value};

fn get_field<'a>(value: &'a Value, key: &str) -> &'a Value {
    match value {
        Value::Object(fields) => object_get(fields, key).expect("field should exist"),
        _ => panic!("expected object"),
    }
}

#[test]
fn compile_returns_diagnostics_on_parse_error() {
    let out = api::compile("x :=".to_string());
    let text = out
        .as_string()
        .expect("compile should return string JsValue");
    let body: Value = from_str(&text).expect("valid json object");

    assert_eq!(get_field(&body, "ok"), &Value::Bool(false));
    let diagnostics = match get_field(&body, "diagnostics") {
        Value::String(v) => v,
        _ => panic!("diagnostics should be string"),
    };
    assert!(!diagnostics.is_empty());
}

#[test]
fn run_returns_output_json_strings() {
    let program = r#"
xs := input.json("xs") |> json;
xs |> map(_ + 1) |> ui.table("out");
"#;

    let out = api::run(program.to_string(), "{\"xs\": [1, 2]}".to_string());
    let text = out.as_string().expect("run should return string JsValue");
    let body: Value = from_str(&text).expect("valid json object");

    let tables_text = match get_field(&body, "tables_json") {
        Value::String(v) => v,
        _ => panic!("tables_json should be string"),
    };
    let tables: Value = from_str(tables_text).expect("tables_json should be valid json");
    assert_eq!(get_field(&tables, "out"), &from_str("[2, 3]").unwrap());
    match get_field(&body, "logs_json") {
        Value::String(_) => {}
        _ => panic!("logs_json should be string"),
    }
    match get_field(&body, "explain") {
        Value::String(_) => {}
        _ => panic!("explain should be string"),
    }
}

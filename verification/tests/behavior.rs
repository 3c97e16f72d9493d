use pipeline_dsl::base64::{base64_decode, base64_encode, B64Err};
use pipeline_dsl::json;
use pipeline_dsl::runtime::run;
use pipeline_dsl::text::{fmt_i64, parse_i64_chars};

fn jval(s: &str) -> json::Value {
    json::from_str(s).unwrap()
}

fn rows(s: &str) -> Vec<json::Value> {
    match json::from_str(s).unwrap() {
        json::Value::Array(v) => v,
        _ => panic!("expected array"),
    }
}

#[test]
fn base64_encodes_known_vectors() {
    assert_eq!(base64_encode(&vec![]), "");
    assert_eq!(base64_encode(&vec![b'h', b'i']), "aGk=");
    assert_eq!(base64_encode(&vec![b'x']), "eA==");
    assert_eq!(base64_encode(&vec![b'a', b'b', b'c']), "YWJj");
    assert_eq!(base64_encode(&vec![251, 239, 190]), "++++");
}

#[test]
fn base64_decodes_and_round_trips() {
    assert_eq!(base64_decode("aGk=").unwrap(), vec![b'h', b'i']);
    assert_eq!(base64_decode("YWJj").unwrap(), vec![b'a', b'b', b'c']);
    let data: Vec<u8> = (0u8..=255).collect();
    assert_eq!(base64_decode(&base64_encode(&data)).unwrap(), data);
}

#[test]
fn base64_rejects_bad_length_and_alphabet() {
    assert_eq!(base64_decode("abc").unwrap_err(), B64Err::Length);
    assert_eq!(base64_decode("a?c=").unwrap_err(), B64Err::Alphabet);
    assert_eq!(base64_decode("=bcd").unwrap_err(), B64Err::Alphabet);
}

#[test]
fn base64_rejects_padding_outside_the_final_group() {
    assert_eq!(base64_decode("AA==AAAA").unwrap_err(), B64Err::Alphabet);
    assert_eq!(base64_decode("eA==YWJj").unwrap_err(), B64Err::Alphabet);
    assert_eq!(base64_decode("A=Bz").unwrap_err(), B64Err::Alphabet);
    assert_eq!(base64_decode("AAAAeA==").unwrap().len(), 4);
}

#[test]
fn decimal_formatting_and_parsing_agree() {
    assert_eq!(fmt_i64(0), "0");
    assert_eq!(fmt_i64(-7), "-7");
    assert_eq!(fmt_i64(9223372036854775807), "9223372036854775807");
    assert_eq!(fmt_i64(-9223372036854775808), "-9223372036854775808");
    let digits: Vec<char> = "-9223372036854775808".chars().collect();
    assert_eq!(parse_i64_chars(&digits), Some(i64::MIN));
    let too_big: Vec<char> = "9223372036854775808".chars().collect();
    assert_eq!(parse_i64_chars(&too_big), None);
    let plus: Vec<char> = "+41".chars().collect();
    assert_eq!(parse_i64_chars(&plus), Some(41));
}

#[test]
fn json_round_trips_ascii_values() {
    let text = r#"{"a":[1,true,null,"x"],"b":{"c":-2}}"#;
    let v = json::from_str(text).unwrap();
    assert_eq!(json::to_string(&v).unwrap(), text);
}

#[test]
fn json_sorts_object_keys() {
    let v = json::from_str(r#"{"b":1,"a":2}"#).unwrap();
    assert_eq!(json::to_string(&v).unwrap(), r#"{"a":2,"b":1}"#);
}

#[test]
fn json_rejects_trailing_text_and_bad_values() {
    assert_eq!(json::from_str("1 2").unwrap_err().message(), "trailing json");
    assert_eq!(json::from_str("").unwrap_err().message(), "eof");
    assert_eq!(json::from_str("nil").unwrap_err().message(), "bad token");
    assert_eq!(json::from_str("\"x").unwrap_err().message(), "unterminated string");
}

#[test]
fn inverting_a_pure_stage_is_rejected() {
    let program = r#"
input.json("xs") |> json |> ~map(_ + 1) |> ui.table("out");
"#;
    let err = run(program, jval(r#"{"xs": [1]}"#)).expect_err("program should fail");
    assert!(err.contains("stage is not reversible"));
}

#[test]
fn auto_direction_fails_when_neither_side_accepts() {
    let program = r#"
input.json("xs") |> json |> base64 |> ui.table("out");
"#;
    let err = run(program, jval(r#"{"xs": [1]}"#)).expect_err("program should fail");
    assert!(err.contains("no matching direction for stage"));
}

#[test]
fn missing_fixture_is_reported() {
    let program = r#"
input.json("nope") |> ui.table("out");
"#;
    let err = run(program, jval(r#"{"xs": [1]}"#)).expect_err("program should fail");
    assert!(err.contains("missing fixture: nope"));
}

#[test]
fn filter_requires_a_boolean() {
    let program = r#"
input.json("xs") |> json |> filter(_ + 1) |> ui.table("out");
"#;
    let err = run(program, jval(r#"{"xs": [1]}"#)).expect_err("program should fail");
    assert!(err.contains("filter expression must evaluate to bool"));
}

#[test]
fn flat_map_requires_an_array() {
    let program = r#"
input.json("xs") |> json |> flat_map(_ + 1) |> ui.table("out");
"#;
    let err = run(program, jval(r#"{"xs": [1]}"#)).expect_err("program should fail");
    assert!(err.contains("flat_map expression must return Array"));
}

#[test]
fn unknown_names_are_reported() {
    let err = run("mystery |> ui.table(\"t\");", jval("{}")).expect_err("should fail");
    assert!(err.contains("unknown ident mystery"));
    let err2 = run("input.json(\"xs\") |> frobnicate(1);", jval(r#"{"xs": []}"#))
        .expect_err("should fail");
    assert!(err2.contains("unsupported call: frobnicate"));
}

#[test]
fn negative_parameters_are_rejected() {
    let fixtures = r#"{"xs": [1]}"#;
    let e1 = run(
        "input.json(\"xs\") |> json |> rank.topk(k=-1, by=_, order=\"asc\");",
        jval(fixtures),
    )
    .expect_err("should fail");
    assert!(e1.contains("rank.topk k must be >= 0"));
    let e2 = run(
        "input.json(\"xs\") |> json |> group.collect_all(by_key=_, within_ms=-1, limit=0);",
        jval(fixtures),
    )
    .expect_err("should fail");
    assert!(e2.contains("group.collect_all within_ms must be >= 0"));
    let e3 = run(
        "input.json(\"xs\") |> json |> group.topn_items(by_key=_, n=-2, order_by=_, order=\"asc\");",
        jval(fixtures),
    )
    .expect_err("should fail");
    assert!(e3.contains("group.topn_items n must be >= 0"));
    let e4 = run(
        "input.json(\"xs\") |> json |> rank.topk(k=1, by=_, order=\"sideways\");",
        jval(fixtures),
    )
    .expect_err("should fail");
    assert!(e4.contains("order must be \"asc\" or \"desc\""));
}

#[test]
fn kv_load_validates_its_rows() {
    let e1 = run(
        "input.json(\"rows\") |> json |> kv.load(store=\"s\");",
        jval(r#"{"rows": [1]}"#),
    )
    .expect_err("should fail");
    assert!(e1.contains("kv.load input must be Record"));
    let e2 = run(
        "input.json(\"rows\") |> json |> kv.load(store=\"s\");",
        jval(r#"{"rows": [{"key": 1, "value": 2}]}"#),
    )
    .expect_err("should fail");
    assert!(e2.contains("kv.load input.key must be String"));
    let e3 = run(
        "input.json(\"rows\") |> json |> kv.load(store=\"s\");",
        jval(r#"{"rows": [{"key": "k"}]}"#),
    )
    .expect_err("should fail");
    assert!(e3.contains("kv.load input must contain field 'value'"));
}

#[test]
fn rbac_validates_every_fixture_row() {
    let program = r#"
input.json("requests")
  |> json
  |> rbac.evaluate(
    principal_bindings="pb",
    role_perms="rp",
    resource_ancestors="ra"
  )
  |> ui.table("out");
"#;
    let fixtures = jval(
        r#"{
        "pb": [{"principal": "alice", "role": "reader"}],
        "rp": [{"role": "ghost", "action": "read"}],
        "ra": [],
        "requests": [{"principal": "alice", "action": "read", "resource": "doc"}]
    }"#,
    );
    let err = run(program, fixtures).expect_err("a permission row without a resource fails");
    assert!(err.contains("expected string field 'resource'"));
}

#[test]
fn lookup_key_must_be_a_string() {
    let err = run(
        "input.json(\"xs\") |> json |> lookup.kv(store=\"s\", key=_);",
        jval(r#"{"xs": [1]}"#),
    )
    .expect_err("should fail");
    assert!(err.contains("lookup.kv key must evaluate to String"));
}

#[test]
fn fixtures_must_be_an_object_of_arrays() {
    let e1 = run("input.json(\"a\") |> ui.table(\"t\");", jval("[1]")).expect_err("should fail");
    assert!(e1.contains("fixtures must be an object"));
    let e2 = run("input.json(\"a\") |> ui.table(\"t\");", jval(r#"{"a": 1}"#))
        .expect_err("should fail");
    assert!(e2.contains("fixture values must be arrays"));
}

#[test]
fn ui_log_serializes_each_row() {
    let program = r#"
input.json("xs") |> json |> ui.log("lines");
"#;
    let out = run(program, jval(r#"{"xs": [{"b": 2, "a": 1}, "hi"]}"#)).expect("should run");
    let lines = out.logs.get("lines").expect("log should exist");
    assert_eq!(lines.len(), 2);
    assert_eq!(lines[0], r#"{"a":1,"b":2}"#);
    assert_eq!(lines[1], r#""hi""#);
}

#[test]
fn explain_traces_statements_and_stages() {
    let program = r#"
xs := input.json("xs") |> json;
xs |> map(_ + 1) |> ui.table("out");
"#;
    let out = run(program, jval(r#"{"xs": [1]}"#)).expect("should run");
    let expected = vec![
        "binding xs".to_string(),
        "  [source] input.json(xs)".to_string(),
        "  [reversible] json".to_string(),
        "pipeline".to_string(),
        "  [pure] map".to_string(),
        "  [sink] ui.table(out)".to_string(),
    ];
    assert_eq!(out.explain, expected);
}

#[test]
fn empty_fixture_array_yields_empty_table() {
    let program = r#"
input.json("xs") |> json |> ui.table("out");
"#;
    let out = run(program, jval(r#"{"xs": []}"#)).expect("should run");
    assert_eq!(out.tables.get("out"), Some(&rows("[]")));
}

#[test]
fn raw_operators_compare_and_concatenate() {
    let program = r#"
input.json("ss") |> json |> map(_ + "!") |> ui.table("out");
"#;
    let out = run(program, jval(r#"{"ss": ["a", "b"]}"#)).expect("should run");
    assert_eq!(out.tables.get("out"), Some(&rows(r#"["a!","b!"]"#)));
}

#[test]
fn rank_topk_orders_mixed_keys_with_integers_first() {
    let program = r#"
input.json("xs") |> json |> rank.topk(k=4, by=_, order="asc") |> ui.table("out");
"#;
    let out = run(program, jval(r#"{"xs": ["b", 2, "a", 1]}"#)).expect("should run");
    assert_eq!(out.tables.get("out"), Some(&rows(r#"[1,2,"a","b"]"#)));
}

#[test]
fn group_limit_keeps_earliest_items() {
    let program = r#"
input.json("xs") |> json |> group.collect_all(by_key=1, within_ms=0, limit=0) |> ui.table("out");
"#;
    let out = run(program, jval(r#"{"xs": [5, 6]}"#)).expect("should run");
    assert_eq!(out.tables.get("out"), Some(&rows(r#"[{"items":[],"key":1}]"#)));
}

#[test]
fn bound_stages_compose_and_invert() {
    let program = r#"
enc := utf8;
dec := ~utf8;
pair := enc >> dec;
input.json("ss") |> json |> pair |> ui.table("rt");
"#;
    let out = run(program, jval(r#"{"ss": ["ok"]}"#)).expect("should run");
    assert_eq!(out.tables.get("rt"), Some(&rows(r#"["ok"]"#)));
}

#[test]
fn inverting_a_composite_reverses_and_inverts_each_part() {
    let left = r#"
chain := utf8 >> base64;
input.json("ss") |> json |> chain |> ~chain |> ui.table("t");
"#;
    let out = run(left, jval(r#"{"ss": ["hi"]}"#)).expect("should run");
    assert_eq!(out.tables.get("t"), Some(&rows(r#"["hi"]"#)));
}

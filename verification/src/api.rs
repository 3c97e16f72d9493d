//! The stable string-based surface: programs and fixtures come in as JSON
//! strings, outputs go out as one JSON string.  These are thin bindings over
//! the runtime; the runtime's own contracts carry the semantics.

use vstd::prelude::*;
use crate::json;
use crate::runtime;
use crate::text::string_of;

verus! {

/// A string value crossing the embedding boundary.
#[derive(Debug)]
pub struct JsValue(pub String);

impl View for JsValue {
    type V = Seq<char>;

    open spec fn view(&self) -> Seq<char> {
        self.0@
    }
}

impl JsValue {
    /// Wraps an already serialized JSON string.
    pub fn from_json_string(value: String) -> (r: Self)
        ensures
            r@ == value@,
    {
        JsValue(value)
    }

    /// The carried string.
    pub fn as_string(&self) -> (r: Option<String>)
        ensures
            r matches Some(s) && s@ == self@,
    {
        Some(self.0.clone())
    }
}

/// One JSON object serialized to text, built from the given fields.
fn json_object_string(fields: Vec<(String, json::Value)>) -> (r: String)
    ensures
        r@ == json::json_text(
            json::JsonModel::Object(
                crate::json::insert_all(Seq::empty(), json::json_views_of_fields(fields@)),
            ),
        ),
{
    broadcast use json::lemma_json_views_of_fields;
    let ghost all = json::json_views_of_fields(fields@);
    let mut out: Vec<(String, json::Value)> = Vec::new();
    let ghost parsed: Seq<(Seq<char>, json::JsonModel)> = Seq::empty();
    let mut rest = fields;
    let mut i: usize = 0;
    let n = rest.len();
    proof {
        assert(json::json_views_of_fields(out@) =~= Seq::<(Seq<char>, json::JsonModel)>::empty());
    }
    while i < n
        invariant
            i <= n,
            rest@.len() == n - i,
            all.len() == n,
            forall|j: int|
                0 <= j < rest@.len() ==> ((#[trigger] rest@[j]).0@, rest@[j].1@) == all[j + i],
            parsed == all.subrange(0, i as int),
            json::json_views_of_fields(out@) == crate::json::insert_all(Seq::empty(), parsed),
        decreases n - i,
    {
        let ghost rp = rest@;
        let (k, v) = rest.remove(0);
        proof {
            assert forall|j: int| 0 <= j < rest@.len() implies ((#[trigger] rest@[j]).0@,
                rest@[j].1@) == all[j + i + 1] by {
                assert(rest@[j] == rp[j + 1]);
            }
            assert((k@, v@) == all[i as int]);
            crate::json::lemma_insert_all_snoc(Seq::empty(), parsed, (k@, v@));
            assert(all.subrange(0, i as int + 1) =~= all.subrange(0, i as int).push(
                all[i as int],
            ));
        }
        json::object_insert(&mut out, k, v);
        proof {
            parsed = parsed.push(all[i as int]);
        }
        i = i + 1;
    }
    proof {
        assert(all.subrange(0, n as int) =~= all);
    }
    let obj = json::Value::Object(out);
    match json::to_string(&obj) {
        Ok(s) => s,
        Err(e) => e.message(),
    }
}

/// The explain lines joined with newlines.
fn join_lines(lines: &Vec<String>) -> (r: String)
    ensures
        true,
{
    let mut acc = String::new();
    let mut i: usize = 0;
    while i < lines.len()
        invariant
            i <= lines@.len(),
        decreases lines@.len() - i,
    {
        if i > 0 {
            acc = acc.concat("\n");
        }
        acc = acc.concat(lines[i].as_str());
        i = i + 1;
    }
    acc
}

/// Compiles a program and reports `{ ok, diagnostics }` as a JSON string:
/// the serialized object holds a boolean `ok` and a string `diagnostics`,
/// empty on success.
pub fn compile(program: String) -> (r: JsValue)
    ensures
        exists|ok: bool, d: Seq<char>|
            {
                &&& r@ == json::json_text(
                    json::JsonModel::Object(
                        crate::json::insert_all(
                            Seq::empty(),
                            seq![
                                ("ok"@, json::JsonModel::Bool(ok)),
                                ("diagnostics"@, json::JsonModel::String(d)),
                            ],
                        ),
                    ),
                )
                &&& (ok ==> d == Seq::<char>::empty())
            },
{
    let (ok, diagnostics): (bool, String) = match runtime::compile(program.as_str()) {
        Ok(_) => (true, String::new()),
        Err(e) => (false, e),
    };
    let ghost okm = ok;
    let ghost dm = diagnostics@;
    let mut fields: Vec<(String, json::Value)> = Vec::new();
    fields.push((String::from_str("ok"), json::Value::Bool(ok)));
    fields.push((String::from_str("diagnostics"), json::Value::String(diagnostics)));
    proof {
        crate::json::lemma_json_views_of_fields(fields@);
        assert(json::json_views_of_fields(fields@) =~= seq![
            ("ok"@, json::JsonModel::Bool(okm)),
            ("diagnostics"@, json::JsonModel::String(dm)),
        ]);
    }
    JsValue(json_object_string(fields))
}

/// Whether a string is the serialized run response: one JSON object holding
/// string fields `tables_json`, `logs_json` and `explain`.
pub open spec fn run_response_shape(r: Seq<char>) -> bool {
    exists|t: Seq<char>, l: Seq<char>, e: Seq<char>|
        r == json::json_text(
            json::JsonModel::Object(
                crate::json::insert_all(
                    Seq::empty(),
                    seq![
                        ("tables_json"@, json::JsonModel::String(t)),
                        ("logs_json"@, json::JsonModel::String(l)),
                        ("explain"@, json::JsonModel::String(e)),
                    ],
                ),
            ),
        )
}

/// Runs a program over a fixtures JSON string and reports
/// `{ tables_json, logs_json, explain }` as a JSON string; each field holds
/// serialized text, `explain` starting with `error: ` when the run failed.
pub fn run(program: String, fixtures_json: String) -> (r: JsValue)
    ensures
        run_response_shape(r@),
{
    let fixtures = match json::from_str(fixtures_json.as_str()) {
        Ok(v) => v,
        Err(e) => {
            let mut fields: Vec<(String, json::Value)> = Vec::new();
            fields.push((String::from_str("tables_json"), json::Value::String(
                String::from_str("{}"),
            )));
            fields.push((String::from_str("logs_json"), json::Value::String(
                String::from_str("{}"),
            )));
            fields.push((String::from_str("explain"), json::Value::String(
                String::from_str("error: invalid fixtures_json: ").concat(
                    e.message().as_str(),
                ),
            )));
            proof {
                crate::json::lemma_json_views_of_fields(fields@);
                assert(json::json_views_of_fields(fields@) =~= seq![
                    ("tables_json"@, json::JsonModel::String(fields@[0].1@->String_0)),
                    ("logs_json"@, json::JsonModel::String(fields@[1].1@->String_0)),
                    ("explain"@, json::JsonModel::String(fields@[2].1@->String_0)),
                ]);
            }
            return JsValue(json_object_string(fields));
        },
    };
    match runtime::run(program.as_str(), fixtures) {
        Ok(out) => {
            let mut table_fields: Vec<(String, json::Value)> = Vec::new();
            let mut i: usize = 0;
            let tentries = out.tables.entries;
            while i < tentries.len()
                invariant
                    i <= tentries@.len(),
                decreases tentries@.len() - i,
            {
                let name = tentries[i].0.clone();
                let mut rows: Vec<json::Value> = Vec::new();
                let mut k: usize = 0;
                let inner = &tentries[i].1;
                while k < inner.len()
                    invariant
                        k <= inner@.len(),
                    decreases inner@.len() - k,
                {
                    rows.push(inner[k].clone());
                    k = k + 1;
                }
                table_fields.push((name, json::Value::Array(rows)));
                i = i + 1;
            }
            let tables_json = json_object_string(table_fields);
            let mut log_fields: Vec<(String, json::Value)> = Vec::new();
            let mut i2: usize = 0;
            let lentries = out.logs.entries;
            while i2 < lentries.len()
                invariant
                    i2 <= lentries@.len(),
                decreases lentries@.len() - i2,
            {
                let name = lentries[i2].0.clone();
                let mut rows: Vec<json::Value> = Vec::new();
                let mut k: usize = 0;
                let inner = &lentries[i2].1;
                while k < inner.len()
                    invariant
                        k <= inner@.len(),
                    decreases inner@.len() - k,
                {
                    rows.push(json::Value::String(inner[k].clone()));
                    k = k + 1;
                }
                log_fields.push((name, json::Value::Array(rows)));
                i2 = i2 + 1;
            }
            let logs_json = json_object_string(log_fields);
            let mut fields: Vec<(String, json::Value)> = Vec::new();
            fields.push((String::from_str("tables_json"), json::Value::String(tables_json)));
            fields.push((String::from_str("logs_json"), json::Value::String(logs_json)));
            fields.push((String::from_str("explain"), json::Value::String(join_lines(
                &out.explain,
            ))));
            proof {
                crate::json::lemma_json_views_of_fields(fields@);
                assert(json::json_views_of_fields(fields@) =~= seq![
                    ("tables_json"@, json::JsonModel::String(fields@[0].1@->String_0)),
                    ("logs_json"@, json::JsonModel::String(fields@[1].1@->String_0)),
                    ("explain"@, json::JsonModel::String(fields@[2].1@->String_0)),
                ]);
            }
            JsValue(json_object_string(fields))
        },
        Err(e) => {
            let mut fields: Vec<(String, json::Value)> = Vec::new();
            fields.push((String::from_str("tables_json"), json::Value::String(
                String::from_str("{}"),
            )));
            fields.push((String::from_str("logs_json"), json::Value::String(
                String::from_str("{}"),
            )));
            fields.push((String::from_str("explain"), json::Value::String(
                String::from_str("error: ").concat(e.as_str()),
            )));
            proof {
                crate::json::lemma_json_views_of_fields(fields@);
                assert(json::json_views_of_fields(fields@) =~= seq![
                    ("tables_json"@, json::JsonModel::String(fields@[0].1@->String_0)),
                    ("logs_json"@, json::JsonModel::String(fields@[1].1@->String_0)),
                    ("explain"@, json::JsonModel::String(fields@[2].1@->String_0)),
                ]);
            }
            JsValue(json_object_string(fields))
        },
    }
}

} // verus!

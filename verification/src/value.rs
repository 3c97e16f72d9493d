//! The tagged value universe flowing through streams, and its mathematical
//! model.  Records map field names to values and are kept sorted by key, so
//! that iteration order is deterministic and observable at sinks.

use vstd::prelude::*;
use crate::json::{self, lemma_json_views_of_fields, lemma_json_views_of_seq, JsonModel, Number};
use crate::text::{fields_sorted, lex_cmp, lemma_lex_cmp_antisym, lemma_lex_cmp_eq,
    lemma_lex_lt_trans, str_cmp, str_eq, Ord3};

verus! {

/// A tagged value flowing through a stream.
#[derive(Debug)]
pub enum Value {
    Null,
    Bool(bool),
    I64(i64),
    String(String),
    Bytes(Vec<u8>),
    Array(Vec<Value>),
    Record(Vec<(String, Value)>),
    Unit,
}

/// The mathematical model of a `Value`: strings become character sequences
/// and vectors become sequences.
pub enum ValueModel {
    Null,
    Bool(bool),
    I64(i64),
    String(Seq<char>),
    Bytes(Seq<u8>),
    Array(Seq<ValueModel>),
    Record(Seq<(Seq<char>, ValueModel)>),
    Unit,
}

impl View for Value {
    type V = ValueModel;

    open spec fn view(&self) -> ValueModel
        decreases self,
    {
        match self {
            Value::Null => ValueModel::Null,
            Value::Bool(b) => ValueModel::Bool(*b),
            Value::I64(n) => ValueModel::I64(*n),
            Value::String(s) => ValueModel::String(s@),
            Value::Bytes(b) => ValueModel::Bytes(b@),
            Value::Array(items) => ValueModel::Array(views_of_seq(items@)),
            Value::Record(fields) => ValueModel::Record(views_of_fields(fields@)),
            Value::Unit => ValueModel::Unit,
        }
    }
}

/// The views of a sequence of values, element by element.
pub open spec fn views_of_seq(s: Seq<Value>) -> Seq<ValueModel>
    decreases s,
{
    if s.len() == 0 {
        Seq::empty()
    } else {
        views_of_seq(s.drop_last()).push(s.last()@)
    }
}

/// The views of a sequence of record fields, field by field.
pub open spec fn views_of_fields(s: Seq<(String, Value)>) -> Seq<(Seq<char>, ValueModel)>
    decreases s,
{
    if s.len() == 0 {
        Seq::empty()
    } else {
        views_of_fields(s.drop_last()).push((s.last().0@, s.last().1@))
    }
}

pub broadcast proof fn lemma_views_of_seq(s: Seq<Value>)
    ensures
        (#[trigger] views_of_seq(s)).len() == s.len(),
        forall|i: int| 0 <= i < s.len() ==> views_of_seq(s)[i] == s[i]@,
    decreases s.len(),
{
    if s.len() > 0 {
        lemma_views_of_seq(s.drop_last());
        assert(views_of_seq(s) == views_of_seq(s.drop_last()).push(s.last()@));
        assert forall|i: int| 0 <= i < s.len() implies views_of_seq(s)[i] == s[i]@ by {
            if i < s.len() - 1 {
                assert(views_of_seq(s)[i] == views_of_seq(s.drop_last())[i]);
                assert(s.drop_last()[i] == s[i]);
            } else {
                assert(views_of_seq(s)[i] == s.last()@);
            }
        }
    }
}

pub broadcast proof fn lemma_views_of_fields(s: Seq<(String, Value)>)
    ensures
        (#[trigger] views_of_fields(s)).len() == s.len(),
        forall|i: int|
            0 <= i < s.len() ==> views_of_fields(s)[i] == (s[i].0@, s[i].1@),
    decreases s.len(),
{
    if s.len() > 0 {
        lemma_views_of_fields(s.drop_last());
        assert(views_of_fields(s) == views_of_fields(s.drop_last()).push(
            (s.last().0@, s.last().1@),
        ));
        assert forall|i: int|
            0 <= i < s.len() implies views_of_fields(s)[i] == (s[i].0@, s[i].1@) by {
            if i < s.len() - 1 {
                assert(views_of_fields(s)[i] == views_of_fields(s.drop_last())[i]);
                assert(s.drop_last()[i] == s[i]);
            } else {
                assert(views_of_fields(s)[i] == (s.last().0@, s.last().1@));
            }
        }
    }
}

impl Clone for Value {
    /// A clone denotes the same model value.
    #[verifier::loop_isolation(false)]
    fn clone(&self) -> (res: Self)
        ensures
            res@ == self@,
        decreases self,
    {
        broadcast use lemma_views_of_seq, lemma_views_of_fields;
        match self {
            Value::Null => Value::Null,
            Value::Bool(b) => Value::Bool(*b),
            Value::I64(n) => Value::I64(*n),
            Value::String(s) => Value::String(s.clone()),
            Value::Bytes(b) => {
                let mut out: Vec<u8> = Vec::new();
                let mut i: usize = 0;
                while i < b.len()
                    invariant
                        i <= b@.len(),
                        out@ == b@.subrange(0, i as int),
                    decreases b@.len() - i,
                {
                    out.push(b[i]);
                    i = i + 1;
                    proof {
                        assert(out@ =~= b@.subrange(0, i as int));
                    }
                }
                proof {
                    assert(b@.subrange(0, b@.len() as int) =~= b@);
                }
                Value::Bytes(out)
            },
            Value::Array(items) => {
                let mut out: Vec<Value> = Vec::new();
                let mut i: usize = 0;
                while i < items.len()
                    invariant
                        i <= items@.len(),
                        out@.len() == i,
                        forall|j: int| 0 <= j < i ==> out@[j]@ == items@[j]@,
                    decreases items@.len() - i,
                {
                    out.push(items[i].clone());
                    i = i + 1;
                }
                proof {
                    assert(views_of_seq(out@) =~= views_of_seq(items@));
                }
                Value::Array(out)
            },
            Value::Record(fields) => {
                let mut out: Vec<(String, Value)> = Vec::new();
                let mut i: usize = 0;
                while i < fields.len()
                    invariant
                        i <= fields@.len(),
                        out@.len() == i,
                        forall|j: int|
                            0 <= j < i ==> (#[trigger] out@[j]).0@ == fields@[j].0@
                                && out@[j].1@ == fields@[j].1@,
                    decreases fields@.len() - i,
                {
                    let pair = (fields[i].0.clone(), fields[i].1.clone());
                    out.push(pair);
                    i = i + 1;
                }
                proof {
                    assert(views_of_fields(out@) =~= views_of_fields(fields@));
                }
                Value::Record(out)
            },
            Value::Unit => Value::Unit,
        }
    }
}

/// Structural equality of two values, which is equality of their models.
#[verifier::loop_isolation(false)]
pub fn value_eq(a: &Value, b: &Value) -> (r: bool)
    ensures
        r == (a@ == b@),
    decreases a,
{
    broadcast use lemma_views_of_seq, lemma_views_of_fields;
    match (a, b) {
        (Value::Null, Value::Null) => true,
        (Value::Bool(x), Value::Bool(y)) => x == y,
        (Value::I64(x), Value::I64(y)) => x == y,
        (Value::String(x), Value::String(y)) => str_eq(x.as_str(), y.as_str()),
        (Value::Bytes(x), Value::Bytes(y)) => {
            if x.len() != y.len() {
                return false;
            }
            let mut i: usize = 0;
            while i < x.len()
                invariant
                    x@.len() == y@.len(),
                    i <= x@.len(),
                    forall|j: int| 0 <= j < i ==> x@[j] == y@[j],
                decreases x@.len() - i,
            {
                if x[i] != y[i] {
                    return false;
                }
                i = i + 1;
            }
            proof {
                assert(x@ =~= y@);
            }
            true
        },
        (Value::Array(x), Value::Array(y)) => {
            if x.len() != y.len() {
                proof {
                    assert(views_of_seq(x@).len() != views_of_seq(y@).len());
                }
                return false;
            }
            let mut i: usize = 0;
            while i < x.len()
                invariant
                    x@.len() == y@.len(),
                    i <= x@.len(),
                    forall|j: int| 0 <= j < i ==> x@[j]@ == y@[j]@,
                decreases x@.len() - i,
            {
                if !value_eq(&x[i], &y[i]) {
                    proof {
                        assert(views_of_seq(x@)[i as int] != views_of_seq(y@)[i as int]);
                    }
                    return false;
                }
                i = i + 1;
            }
            proof {
                assert(views_of_seq(x@) =~= views_of_seq(y@));
            }
            true
        },
        (Value::Record(x), Value::Record(y)) => {
            if x.len() != y.len() {
                proof {
                    assert(views_of_fields(x@).len() != views_of_fields(y@).len());
                }
                return false;
            }
            let mut i: usize = 0;
            while i < x.len()
                invariant
                    x@.len() == y@.len(),
                    i <= x@.len(),
                    forall|j: int|
                        0 <= j < i ==> x@[j].0@ == y@[j].0@ && x@[j].1@ == y@[j].1@,
                decreases x@.len() - i,
            {
                if !str_eq(x[i].0.as_str(), y[i].0.as_str()) {
                    proof {
                        assert(views_of_fields(x@)[i as int] != views_of_fields(y@)[i as int]);
                    }
                    return false;
                }
                if !value_eq(&x[i].1, &y[i].1) {
                    proof {
                        assert(views_of_fields(x@)[i as int] != views_of_fields(y@)[i as int]);
                    }
                    return false;
                }
                i = i + 1;
            }
            proof {
                assert(views_of_fields(x@) =~= views_of_fields(y@));
            }
            true
        },
        (Value::Unit, Value::Unit) => true,
        _ => false,
    }
}

impl PartialEq for Value {
    fn eq(&self, other: &Self) -> (r: bool) {
        value_eq(self, other)
    }
}

impl vstd::std_specs::cmp::PartialEqSpecImpl for Value {
    open spec fn obeys_eq_spec() -> bool {
        true
    }

    open spec fn eq_spec(&self, other: &Self) -> bool {
        self@ == other@
    }
}

/// What a record field lookup yields: the value at the first field whose key
/// matches, scanning left to right.
pub open spec fn record_get_model(
    fields: Seq<(Seq<char>, ValueModel)>,
    key: Seq<char>,
) -> Option<ValueModel>
    decreases fields.len(),
{
    if fields.len() == 0 {
        None
    } else if fields[0].0 == key {
        Some(fields[0].1)
    } else {
        record_get_model(fields.drop_first(), key)
    }
}

/// Looks a key up in a record's fields.
pub fn record_get<'a>(fields: &'a Vec<(String, Value)>, key: &str) -> (r: Option<&'a Value>)
    ensures
        match r {
            Some(v) => record_get_model(views_of_fields(fields@), key@) == Some(v@),
            None => record_get_model(views_of_fields(fields@), key@) is None,
        },
{
    broadcast use lemma_views_of_fields;
    let ghost m = views_of_fields(fields@);
    let mut i: usize = 0;
    proof {
        assert(m.skip(0) =~= m);
    }
    while i < fields.len()
        invariant
            m == views_of_fields(fields@),
            i <= fields@.len(),
            record_get_model(m, key@) == record_get_model(m.skip(i as int), key@),
        decreases fields@.len() - i,
    {
        proof {
            lemma_views_of_fields(fields@);
            assert(m.len() == fields@.len());
            assert(m.skip(i as int)[0] == m[i as int]);
            assert(m.skip(i as int).drop_first() =~= m.skip(i as int + 1));
        }
        if str_eq(fields[i].0.as_str(), key) {
            return Some(&fields[i].1);
        }
        i = i + 1;
    }
    proof {
        assert(m.skip(i as int).len() == 0);
    }
    None
}

/// What inserting a field into a sorted record yields: the field is placed at
/// its key's position, replacing an equal key.
pub open spec fn record_insert_model(
    fields: Seq<(Seq<char>, ValueModel)>,
    key: Seq<char>,
    val: ValueModel,
) -> Seq<(Seq<char>, ValueModel)>
    decreases fields.len(),
{
    if fields.len() == 0 {
        seq![(key, val)]
    } else {
        match lex_cmp(key, fields[0].0) {
            Ord3::Lt => seq![(key, val)] + fields,
            Ord3::Eq => seq![(key, val)] + fields.drop_first(),
            Ord3::Gt => seq![fields[0]] + record_insert_model(fields.drop_first(), key, val),
        }
    }
}

/// Inserts a field into a record, keeping fields sorted by key and replacing
/// an existing field with the same key: sorted fields stay sorted.
pub fn record_insert(fields: &mut Vec<(String, Value)>, key: String, val: Value)
    ensures
        views_of_fields(final(fields)@)
            == record_insert_model(views_of_fields(old(fields)@), key@, val@),
        fields_sorted(views_of_fields(old(fields)@)) ==> fields_sorted(
            views_of_fields(final(fields)@),
        ),
{
    broadcast use lemma_views_of_fields;
    proof {
        if fields_sorted(views_of_fields(fields@)) {
            lemma_record_insert_sorted(views_of_fields(fields@), key@, val@);
        }
    }
    let ghost orig = views_of_fields(old(fields)@);
    let mut i: usize = 0;
    proof {
        assert(orig.skip(0) =~= orig);
        assert(orig.subrange(0, 0) + record_insert_model(orig.skip(0), key@, val@)
            =~= record_insert_model(orig, key@, val@));
    }
    while i < fields.len()
        invariant
            fields@ == old(fields)@,
            orig == views_of_fields(fields@),
            fields_sorted(orig) ==> fields_sorted(record_insert_model(orig, key@, val@)),
            i <= fields@.len(),
            record_insert_model(orig, key@, val@)
                == orig.subrange(0, i as int) + record_insert_model(orig.skip(i as int), key@, val@),
            forall|j: int| 0 <= j < i ==> lex_cmp(key@, orig[j].0) == Ord3::Gt,
        decreases fields@.len() - i,
    {
        proof {
            lemma_views_of_fields(fields@);
            assert(orig.len() == fields@.len());
            assert(orig.skip(i as int)[0] == orig[i as int]);
            assert(orig.skip(i as int).drop_first() =~= orig.skip(i as int + 1));
        }
        let o = str_cmp(key.as_str(), fields[i].0.as_str());
        let ghost pre = fields@;
        match o {
            Ord3::Lt => {
                let ghost kv = (key@, val@);
                fields.insert(i, (key, val));
                proof {
                    lemma_views_of_fields(fields@);
                    let m = views_of_fields(fields@);
                    assert(fields@ == pre.insert(i as int, fields@[i as int]));
                    assert(m =~= orig.subrange(0, i as int) + (seq![kv]
                        + orig.skip(i as int))) by {
                        assert forall|j: int| 0 <= j < m.len() implies m[j]
                            == (orig.subrange(0, i as int) + (seq![kv]
                                + orig.skip(i as int)))[j] by {
                            assert(m[j] == (fields@[j].0@, fields@[j].1@));
                            if j < i {
                                assert(fields@[j] == pre[j]);
                            } else if j > i {
                                assert(fields@[j] == pre[j - 1]);
                            }
                        }
                    }
                    assert(m == record_insert_model(orig, key@, val@));
                }
                return;
            },
            Ord3::Eq => {
                let ghost kv = (key@, val@);
                fields.set(i, (key, val));
                proof {
                    lemma_views_of_fields(fields@);
                    let m = views_of_fields(fields@);
                    assert(m =~= orig.subrange(0, i as int) + (seq![kv]
                        + orig.skip(i as int).drop_first())) by {
                        assert forall|j: int| 0 <= j < m.len() implies m[j]
                            == (orig.subrange(0, i as int) + (seq![kv]
                                + orig.skip(i as int).drop_first()))[j] by {
                            assert(m[j] == (fields@[j].0@, fields@[j].1@));
                            if j != i {
                                assert(fields@[j] == pre[j]);
                            }
                        }
                    }
                    assert(record_insert_model(orig.skip(i as int), key@, val@)
                        == seq![kv] + orig.skip(i as int).drop_first());
                    assert(m == record_insert_model(orig, key@, val@));
                }
                return;
            },
            Ord3::Gt => {
                proof {
                    assert(orig.subrange(0, i as int + 1)
                        =~= orig.subrange(0, i as int) + seq![orig[i as int]]);
                    assert(orig.subrange(0, i as int) + (seq![orig[i as int]]
                        + record_insert_model(orig.skip(i as int + 1), key@, val@))
                        =~= orig.subrange(0, i as int + 1)
                            + record_insert_model(orig.skip(i as int + 1), key@, val@));
                }
                i = i + 1;
            },
        }
    }
    proof {
        assert(orig.skip(i as int).len() == 0);
    }
    fields.push((key, val));
    proof {
        assert(views_of_fields(fields@)
            =~= orig.subrange(0, i as int) + record_insert_model(orig.skip(i as int), key@, val@));
    }
}

/// How a value appears as JSON: integers become numbers, bytes become arrays
/// of numbers, records become objects, and the unit value becomes null.
pub open spec fn v2j(v: ValueModel) -> JsonModel
    decreases v,
{
    match v {
        ValueModel::Null => JsonModel::Null,
        ValueModel::Bool(b) => JsonModel::Bool(b),
        ValueModel::I64(n) => JsonModel::Number(n),
        ValueModel::String(s) => JsonModel::String(s),
        ValueModel::Bytes(b) => JsonModel::Array(
            Seq::new(b.len(), |i: int| JsonModel::Number(b[i] as i64)),
        ),
        ValueModel::Array(items) => JsonModel::Array(v2j_seq(items)),
        ValueModel::Record(fields) => JsonModel::Object(v2j_fields(fields)),
        ValueModel::Unit => JsonModel::Null,
    }
}

/// The JSON views of a sequence of values.
pub open spec fn v2j_seq(s: Seq<ValueModel>) -> Seq<JsonModel>
    decreases s,
{
    if s.len() == 0 {
        Seq::empty()
    } else {
        v2j_seq(s.drop_last()).push(v2j(s.last()))
    }
}

/// The JSON views of a record's fields.
pub open spec fn v2j_fields(s: Seq<(Seq<char>, ValueModel)>) -> Seq<(Seq<char>, JsonModel)>
    decreases s,
{
    if s.len() == 0 {
        Seq::empty()
    } else {
        v2j_fields(s.drop_last()).push((s.last().0, v2j(s.last().1)))
    }
}

pub broadcast proof fn lemma_v2j_seq(s: Seq<ValueModel>)
    ensures
        (#[trigger] v2j_seq(s)).len() == s.len(),
        forall|i: int| 0 <= i < s.len() ==> v2j_seq(s)[i] == v2j(s[i]),
    decreases s.len(),
{
    if s.len() > 0 {
        lemma_v2j_seq(s.drop_last());
        assert(v2j_seq(s) == v2j_seq(s.drop_last()).push(v2j(s.last())));
        assert forall|i: int| 0 <= i < s.len() implies v2j_seq(s)[i] == v2j(s[i]) by {
            if i < s.len() - 1 {
                assert(v2j_seq(s)[i] == v2j_seq(s.drop_last())[i]);
                assert(s.drop_last()[i] == s[i]);
            } else {
                assert(v2j_seq(s)[i] == v2j(s.last()));
            }
        }
    }
}

pub broadcast proof fn lemma_v2j_fields(s: Seq<(Seq<char>, ValueModel)>)
    ensures
        (#[trigger] v2j_fields(s)).len() == s.len(),
        forall|i: int| 0 <= i < s.len() ==> v2j_fields(s)[i] == (s[i].0, v2j(s[i].1)),
    decreases s.len(),
{
    if s.len() > 0 {
        lemma_v2j_fields(s.drop_last());
        assert(v2j_fields(s) == v2j_fields(s.drop_last()).push(
            (s.last().0, v2j(s.last().1)),
        ));
        assert forall|i: int|
            0 <= i < s.len() implies v2j_fields(s)[i] == (s[i].0, v2j(s[i].1)) by {
            if i < s.len() - 1 {
                assert(v2j_fields(s)[i] == v2j_fields(s.drop_last())[i]);
                assert(s.drop_last()[i] == s[i]);
            } else {
                assert(v2j_fields(s)[i] == (s.last().0, v2j(s.last().1)));
            }
        }
    }
}

/// Converts a value to JSON, as `v2j` describes; a well-formed value yields
/// well-formed JSON, so its objects serialize with sorted keys.
#[verifier::loop_isolation(false)]
pub fn value_to_json(value: &Value) -> (r: json::Value)
    ensures
        r@ == v2j(value@),
        value_wf(value@) ==> crate::json::json_wf(r@),
    decreases value,
{
    proof {
        if value_wf(value@) {
            lemma_v2j_wf(value@);
        }
    }
    broadcast use lemma_views_of_seq, lemma_views_of_fields, lemma_json_views_of_seq,
        lemma_json_views_of_fields, lemma_v2j_seq, lemma_v2j_fields;
    match value {
        Value::Null => json::Value::Null,
        Value::Bool(b) => json::Value::Bool(*b),
        Value::I64(n) => json::Value::Number(Number(*n)),
        Value::String(s) => json::Value::String(s.clone()),
        Value::Bytes(b) => {
            let ghost bm = b@;
            let mut out: Vec<json::Value> = Vec::new();
            let mut i: usize = 0;
            while i < b.len()
                invariant
                    i <= b@.len(),
                    out@.len() == i,
                    forall|j: int|
                        0 <= j < i ==> out@[j]@ == JsonModel::Number(b@[j] as i64),
                decreases b@.len() - i,
            {
                out.push(json::Value::Number(Number(b[i] as i64)));
                i = i + 1;
            }
            proof {
                assert(json_views_of_seq_alias(out@) =~= Seq::new(
                    bm.len(),
                    |j: int| JsonModel::Number(bm[j] as i64),
                ));
            }
            json::Value::Array(out)
        },
        Value::Array(items) => {
            let ghost vm = views_of_seq(items@);
            let mut out: Vec<json::Value> = Vec::new();
            let mut i: usize = 0;
            while i < items.len()
                invariant
                    i <= items@.len(),
                    vm == views_of_seq(items@),
                    out@.len() == i,
                    forall|j: int| 0 <= j < i ==> out@[j]@ == v2j(vm[j]),
                decreases items@.len() - i,
            {
                out.push(value_to_json(&items[i]));
                i = i + 1;
            }
            proof {
                assert(json_views_of_seq_alias(out@) =~= v2j_seq(vm));
            }
            json::Value::Array(out)
        },
        Value::Record(fields) => {
            let ghost vm = views_of_fields(fields@);
            let mut out: Vec<(String, json::Value)> = Vec::new();
            let mut i: usize = 0;
            while i < fields.len()
                invariant
                    i <= fields@.len(),
                    vm == views_of_fields(fields@),
                    out@.len() == i,
                    forall|j: int|
                        0 <= j < i ==> (#[trigger] out@[j]).0@ == vm[j].0 && out@[j].1@ == v2j(
                            vm[j].1,
                        ),
                decreases fields@.len() - i,
            {
                let k = fields[i].0.clone();
                let jv = value_to_json(&fields[i].1);
                out.push((k, jv));
                i = i + 1;
            }
            proof {
                assert(json_views_of_fields_alias(out@) =~= v2j_fields(vm));
            }
            json::Value::Object(out)
        },
        Value::Unit => json::Value::Null,
    }
}

/// The JSON views of a vector of JSON values, under their own view function.
pub open spec fn json_views_of_seq_alias(s: Seq<json::Value>) -> Seq<JsonModel> {
    crate::json::json_views_of_seq(s)
}

/// The JSON views of a vector of JSON object fields.
pub open spec fn json_views_of_fields_alias(s: Seq<(String, json::Value)>) -> Seq<
    (Seq<char>, JsonModel),
> {
    crate::json::json_views_of_fields(s)
}

/// How a JSON value reads back as a value: numbers become integers, objects
/// become records with their field order kept.
pub open spec fn j2v(j: JsonModel) -> ValueModel
    decreases j,
{
    match j {
        JsonModel::Null => ValueModel::Null,
        JsonModel::Bool(b) => ValueModel::Bool(b),
        JsonModel::Number(n) => ValueModel::I64(n),
        JsonModel::String(s) => ValueModel::String(s),
        JsonModel::Array(items) => ValueModel::Array(j2v_seq(items)),
        JsonModel::Object(fields) => ValueModel::Record(j2v_fields(fields)),
    }
}

/// The values of a sequence of JSON values.
pub open spec fn j2v_seq(s: Seq<JsonModel>) -> Seq<ValueModel>
    decreases s,
{
    if s.len() == 0 {
        Seq::empty()
    } else {
        j2v_seq(s.drop_last()).push(j2v(s.last()))
    }
}

/// The record fields of a JSON object's fields.
pub open spec fn j2v_fields(s: Seq<(Seq<char>, JsonModel)>) -> Seq<(Seq<char>, ValueModel)>
    decreases s,
{
    if s.len() == 0 {
        Seq::empty()
    } else {
        j2v_fields(s.drop_last()).push((s.last().0, j2v(s.last().1)))
    }
}

pub broadcast proof fn lemma_j2v_seq(s: Seq<JsonModel>)
    ensures
        (#[trigger] j2v_seq(s)).len() == s.len(),
        forall|i: int| 0 <= i < s.len() ==> j2v_seq(s)[i] == j2v(s[i]),
    decreases s.len(),
{
    if s.len() > 0 {
        lemma_j2v_seq(s.drop_last());
        assert(j2v_seq(s) == j2v_seq(s.drop_last()).push(j2v(s.last())));
        assert forall|i: int| 0 <= i < s.len() implies j2v_seq(s)[i] == j2v(s[i]) by {
            if i < s.len() - 1 {
                assert(j2v_seq(s)[i] == j2v_seq(s.drop_last())[i]);
                assert(s.drop_last()[i] == s[i]);
            } else {
                assert(j2v_seq(s)[i] == j2v(s.last()));
            }
        }
    }
}

pub broadcast proof fn lemma_j2v_fields(s: Seq<(Seq<char>, JsonModel)>)
    ensures
        (#[trigger] j2v_fields(s)).len() == s.len(),
        forall|i: int| 0 <= i < s.len() ==> j2v_fields(s)[i] == (s[i].0, j2v(s[i].1)),
    decreases s.len(),
{
    if s.len() > 0 {
        lemma_j2v_fields(s.drop_last());
        assert(j2v_fields(s) == j2v_fields(s.drop_last()).push(
            (s.last().0, j2v(s.last().1)),
        ));
        assert forall|i: int|
            0 <= i < s.len() implies j2v_fields(s)[i] == (s[i].0, j2v(s[i].1)) by {
            if i < s.len() - 1 {
                assert(j2v_fields(s)[i] == j2v_fields(s.drop_last())[i]);
                assert(s.drop_last()[i] == s[i]);
            } else {
                assert(j2v_fields(s)[i] == (s.last().0, j2v(s.last().1)));
            }
        }
    }
}

/// Converts JSON to a value, as `j2v` describes; well-formed JSON yields a
/// well-formed value, its records sorted at every depth.
#[verifier::loop_isolation(false)]
pub fn json_to_value(j: &json::Value) -> (r: Value)
    ensures
        r@ == j2v(j@),
        crate::json::json_wf(j@) ==> value_wf(r@),
    decreases j,
{
    proof {
        if crate::json::json_wf(j@) {
            lemma_j2v_wf(j@);
        }
    }
    broadcast use lemma_views_of_seq, lemma_views_of_fields, lemma_json_views_of_seq,
        lemma_json_views_of_fields, lemma_j2v_seq, lemma_j2v_fields;
    match j {
        json::Value::Null => Value::Null,
        json::Value::Bool(b) => Value::Bool(*b),
        json::Value::Number(n) => Value::I64(n.0),
        json::Value::String(s) => Value::String(s.clone()),
        json::Value::Array(items) => {
            let ghost jm = json_views_of_seq_alias(items@);
            let mut out: Vec<Value> = Vec::new();
            let mut i: usize = 0;
            while i < items.len()
                invariant
                    i <= items@.len(),
                    jm == json_views_of_seq_alias(items@),
                    out@.len() == i,
                    forall|j2: int| 0 <= j2 < i ==> out@[j2]@ == j2v(jm[j2]),
                decreases items@.len() - i,
            {
                out.push(json_to_value(&items[i]));
                i = i + 1;
            }
            proof {
                assert(views_of_seq(out@) =~= j2v_seq(jm));
            }
            Value::Array(out)
        },
        json::Value::Object(fields) => {
            let ghost jm = json_views_of_fields_alias(fields@);
            let mut out: Vec<(String, Value)> = Vec::new();
            let mut i: usize = 0;
            while i < fields.len()
                invariant
                    i <= fields@.len(),
                    jm == json_views_of_fields_alias(fields@),
                    out@.len() == i,
                    forall|j2: int|
                        0 <= j2 < i ==> (#[trigger] out@[j2]).0@ == jm[j2].0 && out@[j2].1@
                            == j2v(jm[j2].1),
                decreases fields@.len() - i,
            {
                let k = fields[i].0.clone();
                let vv = json_to_value(&fields[i].1);
                out.push((k, vv));
                i = i + 1;
            }
            proof {
                assert(views_of_fields(out@) =~= j2v_fields(jm));
            }
            Value::Record(out)
        },
    }
}

/// Reading JSON into a value and writing it back as JSON loses nothing: the
/// conversions are inverse on the JSON side.
pub proof fn lemma_j2v_v2j(j: JsonModel)
    ensures
        v2j(j2v(j)) == j,
    decreases j,
{
    broadcast use lemma_v2j_seq, lemma_v2j_fields, lemma_j2v_seq, lemma_j2v_fields;
    match j {
        JsonModel::Array(items) => {
            assert forall|i: int| 0 <= i < items.len() implies v2j(j2v(#[trigger] items[i]))
                == items[i] by {
                lemma_j2v_v2j(items[i]);
            }
            assert(v2j_seq(j2v_seq(items)) =~= items);
            assert(v2j(j2v(j)) == JsonModel::Array(v2j_seq(j2v_seq(items))));
        },
        JsonModel::Object(fields) => {
            assert forall|i: int| 0 <= i < fields.len() implies v2j(j2v(
                #[trigger] fields[i].1,
            )) == fields[i].1 by {
                lemma_j2v_v2j(fields[i].1);
            }
            assert(v2j_fields(j2v_fields(fields)) =~= fields);
            assert(v2j(j2v(j)) == JsonModel::Object(v2j_fields(j2v_fields(fields))));
        },
        _ => {},
    }
}

/// The value model invariant: every record, at every depth, keeps its
/// fields strictly sorted by key, so iteration order is deterministic and
/// observable at sinks.
pub open spec fn value_wf(v: ValueModel) -> bool
    decreases v,
{
    match v {
        ValueModel::Array(items) => forall|i: int|
            0 <= i < items.len() ==> value_wf(#[trigger] items[i]),
        ValueModel::Record(fields) => fields_sorted(fields) && forall|i: int|
            0 <= i < fields.len() ==> value_wf(#[trigger] fields[i].1),
        _ => true,
    }
}

/// Inserting a field keeps a record's keys strictly sorted, and adds nothing
/// but the inserted field: a record built by inserts is well formed.
pub proof fn lemma_record_insert_sorted(
    fields: Seq<(Seq<char>, ValueModel)>,
    key: Seq<char>,
    val: ValueModel,
)
    requires
        fields_sorted(fields),
    ensures
        fields_sorted(record_insert_model(fields, key, val)),
        forall|j: int|
            0 <= j < record_insert_model(fields, key, val).len()
                ==> record_insert_model(fields, key, val)[j] == (key, val) || fields.contains(
                record_insert_model(fields, key, val)[j],
            ),
    decreases fields.len(),
{
    let r = record_insert_model(fields, key, val);
    if fields.len() == 0 {
        assert(r == seq![(key, val)]);
        assert(r[0] == (key, val));
    } else {
        match lex_cmp(key, fields[0].0) {
            Ord3::Lt => {
                assert(r == seq![(key, val)] + fields);
                assert forall|i: int, j: int| 0 <= i < j < r.len() implies lex_cmp(
                    #[trigger] r[i].0,
                    #[trigger] r[j].0,
                ) == Ord3::Lt by {
                    if i == 0 {
                        assert(r[j] == fields[j - 1]);
                        if j > 1 {
                            lemma_lex_lt_trans(key, fields[0].0, fields[j - 1].0);
                        }
                    } else {
                        assert(r[i] == fields[i - 1] && r[j] == fields[j - 1]);
                    }
                }
                assert forall|j: int| 0 <= j < r.len() implies r[j] == (key, val)
                    || fields.contains(r[j]) by {
                    if j > 0 {
                        assert(r[j] == fields[j - 1]);
                    }
                }
            },
            Ord3::Eq => {
                lemma_lex_cmp_eq(key, fields[0].0);
                assert(r == seq![(key, val)] + fields.drop_first());
                assert forall|i: int, j: int| 0 <= i < j < r.len() implies lex_cmp(
                    #[trigger] r[i].0,
                    #[trigger] r[j].0,
                ) == Ord3::Lt by {
                    if i == 0 {
                        assert(r[j] == fields.drop_first()[j - 1]);
                        assert(fields.drop_first()[j - 1] == fields[j]);
                    } else {
                        assert(r[i] == fields[i] && r[j] == fields[j]);
                    }
                }
                assert forall|j: int| 0 <= j < r.len() implies r[j] == (key, val)
                    || fields.contains(r[j]) by {
                    if j > 0 {
                        assert(r[j] == fields[j]);
                    }
                }
            },
            Ord3::Gt => {
                let rest = fields.drop_first();
                assert(fields_sorted(rest)) by {
                    assert(forall|i: int|
                        0 <= i < rest.len() ==> #[trigger] rest[i] == fields[i + 1]);
                }
                lemma_record_insert_sorted(rest, key, val);
                let r2 = record_insert_model(rest, key, val);
                assert(r == seq![fields[0]] + r2);
                lemma_lex_cmp_antisym(key, fields[0].0);
                assert(lex_cmp(fields[0].0, key) == Ord3::Lt);
                assert forall|i: int, j: int| 0 <= i < j < r.len() implies lex_cmp(
                    #[trigger] r[i].0,
                    #[trigger] r[j].0,
                ) == Ord3::Lt by {
                    if i == 0 {
                        assert(r[j] == r2[j - 1]);
                        if r2[j - 1] == (key, val) {
                        } else {
                            assert(rest.contains(r2[j - 1]));
                            let w = choose|w: int| 0 <= w < rest.len() && rest[w] == r2[j - 1];
                            assert(rest[w] == fields[w + 1]);
                            assert(lex_cmp(fields[0].0, fields[w + 1].0) == Ord3::Lt);
                        }
                    } else {
                        assert(r[i] == r2[i - 1] && r[j] == r2[j - 1]);
                    }
                }
                assert forall|j: int| 0 <= j < r.len() implies r[j] == (key, val)
                    || fields.contains(r[j]) by {
                    if j == 0 {
                        assert(r[0] == fields[0]);
                        assert(fields.contains(fields[0]));
                    } else {
                        assert(r[j] == r2[j - 1]);
                        if r2[j - 1] != (key, val) {
                            assert(rest.contains(r2[j - 1]));
                            let w = choose|w: int| 0 <= w < rest.len() && rest[w] == r2[j - 1];
                            assert(rest[w] == fields[w + 1]);
                            assert(fields.contains(fields[w + 1]));
                        }
                    }
                }
            },
        }
    }
}

/// Converting a well-formed value to JSON keeps every object sorted, so a
/// sink emits every record's fields in ascending key order.
pub proof fn lemma_v2j_wf(v: ValueModel)
    requires
        value_wf(v),
    ensures
        crate::json::json_wf(v2j(v)),
    decreases v,
{
    broadcast use lemma_v2j_seq, lemma_v2j_fields;
    match v {
        ValueModel::Bytes(b) => {
            let r = v2j(v);
            assert(r matches JsonModel::Array(items) && forall|i: int|
                0 <= i < items.len() ==> crate::json::json_wf(#[trigger] items[i]));
        },
        ValueModel::Array(items) => {
            assert forall|i: int| 0 <= i < items.len() implies crate::json::json_wf(
                v2j_seq(items)[i],
            ) by {
                assert(v2j_seq(items)[i] == v2j(items[i]));
                lemma_v2j_wf(items[i]);
            }
        },
        ValueModel::Record(fields) => {
            let out = v2j_fields(fields);
            assert forall|i: int, j: int| 0 <= i < j < out.len() implies lex_cmp(
                #[trigger] out[i].0,
                #[trigger] out[j].0,
            ) == Ord3::Lt by {
                assert(out[i].0 == fields[i].0 && out[j].0 == fields[j].0);
            }
            assert forall|i: int| 0 <= i < out.len() implies crate::json::json_wf(
                #[trigger] out[i].1,
            ) by {
                assert(out[i].1 == v2j(fields[i].1));
                lemma_v2j_wf(fields[i].1);
            }
        },
        _ => {},
    }
}

/// Reading well-formed JSON back as a value keeps every record sorted.
pub proof fn lemma_j2v_wf(j: JsonModel)
    requires
        crate::json::json_wf(j),
    ensures
        value_wf(j2v(j)),
    decreases j,
{
    broadcast use lemma_j2v_seq, lemma_j2v_fields;
    match j {
        JsonModel::Array(items) => {
            assert forall|i: int| 0 <= i < items.len() implies value_wf(
                j2v_seq(items)[i],
            ) by {
                assert(j2v_seq(items)[i] == j2v(items[i]));
                lemma_j2v_wf(items[i]);
            }
        },
        JsonModel::Object(fields) => {
            let out = j2v_fields(fields);
            assert forall|i: int, j2: int| 0 <= i < j2 < out.len() implies lex_cmp(
                #[trigger] out[i].0,
                #[trigger] out[j2].0,
            ) == Ord3::Lt by {
                assert(out[i].0 == fields[i].0 && out[j2].0 == fields[j2].0);
            }
            assert forall|i: int| 0 <= i < out.len() implies value_wf(#[trigger] out[i].1) by {
                assert(out[i].1 == j2v(fields[i].1));
                lemma_j2v_wf(fields[i].1);
            }
        },
        _ => {},
    }
}

} // verus!
//! A small JSON value model with a parser and a serializer.  Numbers are
//! signed 64-bit integers; objects keep their fields sorted by key, so
//! serialization is deterministic.  The parser reads string contents byte by
//! byte, one character per byte, so text outside ASCII decodes to different
//! characters than were written: parsing inverts serialization on ASCII
//! content only.

use vstd::prelude::*;
use crate::text::{
    digit_char, i64_dec, fields_sorted, fmt_i64, lex_cmp, lemma_lex_cmp_antisym,
    lemma_lex_cmp_eq, lemma_lex_lt_trans, parse_i64_chars, parse_i64_spec, str_cmp, str_eq,
    string_of, Ord3,
};

verus! {

/// A JSON number: a signed 64-bit integer.
#[derive(Debug)]
pub struct Number(pub i64);

impl View for Number {
    type V = i64;

    open spec fn view(&self) -> i64 {
        self.0
    }
}

impl Number {
    /// The number as a signed 64-bit integer.
    pub fn as_i64(&self) -> (r: Option<i64>)
        ensures
            r == Some(self@),
    {
        Some(self.0)
    }
}

impl Clone for Number {
    fn clone(&self) -> (res: Self)
        ensures
            res@ == self@,
    {
        Number(self.0)
    }
}

impl From<i64> for Number {
    fn from(value: i64) -> (r: Self) {
        Number(value)
    }
}

impl vstd::std_specs::convert::FromSpecImpl<i64> for Number {
    open spec fn obeys_from_spec() -> bool {
        true
    }

    open spec fn from_spec(value: i64) -> Self {
        Number(value)
    }
}

/// A JSON value.
#[derive(Debug)]
pub enum Value {
    Null,
    Bool(bool),
    Number(Number),
    String(String),
    Array(Vec<Value>),
    Object(Vec<(String, Value)>),
}

/// The mathematical model of a JSON value.
pub enum JsonModel {
    Null,
    Bool(bool),
    Number(i64),
    String(Seq<char>),
    Array(Seq<JsonModel>),
    Object(Seq<(Seq<char>, JsonModel)>),
}

impl View for Value {
    type V = JsonModel;

    open spec fn view(&self) -> JsonModel
        decreases self,
    {
        match self {
            Value::Null => JsonModel::Null,
            Value::Bool(b) => JsonModel::Bool(*b),
            Value::Number(n) => JsonModel::Number(n@),
            Value::String(s) => JsonModel::String(s@),
            Value::Array(items) => JsonModel::Array(json_views_of_seq(items@)),
            Value::Object(fields) => JsonModel::Object(json_views_of_fields(fields@)),
        }
    }
}

/// The views of a sequence of JSON values, element by element.
pub open spec fn json_views_of_seq(s: Seq<Value>) -> Seq<JsonModel>
    decreases s,
{
    if s.len() == 0 {
        Seq::empty()
    } else {
        json_views_of_seq(s.drop_last()).push(s.last()@)
    }
}

/// The views of a sequence of JSON object fields, field by field.
pub open spec fn json_views_of_fields(s: Seq<(String, Value)>) -> Seq<(Seq<char>, JsonModel)>
    decreases s,
{
    if s.len() == 0 {
        Seq::empty()
    } else {
        json_views_of_fields(s.drop_last()).push((s.last().0@, s.last().1@))
    }
}

pub broadcast proof fn lemma_json_views_of_seq(s: Seq<Value>)
    ensures
        (#[trigger] json_views_of_seq(s)).len() == s.len(),
        forall|i: int| 0 <= i < s.len() ==> json_views_of_seq(s)[i] == s[i]@,
    decreases s.len(),
{
    if s.len() > 0 {
        lemma_json_views_of_seq(s.drop_last());
        assert(json_views_of_seq(s) == json_views_of_seq(s.drop_last()).push(s.last()@));
        assert forall|i: int| 0 <= i < s.len() implies json_views_of_seq(s)[i] == s[i]@ by {
            if i < s.len() - 1 {
                assert(json_views_of_seq(s)[i] == json_views_of_seq(s.drop_last())[i]);
                assert(s.drop_last()[i] == s[i]);
            } else {
                assert(json_views_of_seq(s)[i] == s.last()@);
            }
        }
    }
}

pub broadcast proof fn lemma_json_views_of_fields(s: Seq<(String, Value)>)
    ensures
        (#[trigger] json_views_of_fields(s)).len() == s.len(),
        forall|i: int|
            0 <= i < s.len() ==> json_views_of_fields(s)[i] == (s[i].0@, s[i].1@),
    decreases s.len(),
{
    if s.len() > 0 {
        lemma_json_views_of_fields(s.drop_last());
        assert(json_views_of_fields(s) == json_views_of_fields(s.drop_last()).push(
            (s.last().0@, s.last().1@),
        ));
        assert forall|i: int|
            0 <= i < s.len() implies json_views_of_fields(s)[i] == (s[i].0@, s[i].1@) by {
            if i < s.len() - 1 {
                assert(json_views_of_fields(s)[i] == json_views_of_fields(s.drop_last())[i]);
                assert(s.drop_last()[i] == s[i]);
            } else {
                assert(json_views_of_fields(s)[i] == (s.last().0@, s.last().1@));
            }
        }
    }
}

impl Clone for Value {
    /// A clone denotes the same model value.
    #[verifier::loop_isolation(false)]
    fn clone(&self) -> (res: Self)
        ensures
            res@ == self@,
        decreases self,
    {
        broadcast use lemma_json_views_of_seq, lemma_json_views_of_fields;
        match self {
            Value::Null => Value::Null,
            Value::Bool(b) => Value::Bool(*b),
            Value::Number(n) => Value::Number(n.clone()),
            Value::String(s) => Value::String(s.clone()),
            Value::Array(items) => {
                let mut out: Vec<Value> = Vec::new();
                let mut i: usize = 0;
                while i < items.len()
                    invariant
                        i <= items@.len(),
                        out@.len() == i,
                        forall|j: int| 0 <= j < i ==> out@[j]@ == items@[j]@,
                    decreases items@.len() - i,
                {
                    out.push(items[i].clone());
                    i = i + 1;
                }
                proof {
                    assert(json_views_of_seq(out@) =~= json_views_of_seq(items@));
                }
                Value::Array(out)
            },
            Value::Object(fields) => {
                let mut out: Vec<(String, Value)> = Vec::new();
                let mut i: usize = 0;
                while i < fields.len()
                    invariant
                        i <= fields@.len(),
                        out@.len() == i,
                        forall|j: int|
                            0 <= j < i ==> (#[trigger] out@[j]).0@ == fields@[j].0@
                                && out@[j].1@ == fields@[j].1@,
                    decreases fields@.len() - i,
                {
                    let pair = (fields[i].0.clone(), fields[i].1.clone());
                    out.push(pair);
                    i = i + 1;
                }
                proof {
                    assert(json_views_of_fields(out@) =~= json_views_of_fields(fields@));
                }
                Value::Object(out)
            },
        }
    }
}

/// Structural equality of two JSON values, which is equality of their models.
#[verifier::loop_isolation(false)]
pub fn json_eq(a: &Value, b: &Value) -> (r: bool)
    ensures
        r == (a@ == b@),
    decreases a,
{
    broadcast use lemma_json_views_of_seq, lemma_json_views_of_fields;
    match (a, b) {
        (Value::Null, Value::Null) => true,
        (Value::Bool(x), Value::Bool(y)) => x == y,
        (Value::Number(x), Value::Number(y)) => x.0 == y.0,
        (Value::String(x), Value::String(y)) => str_eq(x.as_str(), y.as_str()),
        (Value::Array(x), Value::Array(y)) => {
            if x.len() != y.len() {
                proof {
                    assert(json_views_of_seq(x@).len() != json_views_of_seq(y@).len());
                }
                return false;
            }
            let mut i: usize = 0;
            while i < x.len()
                invariant
                    x@.len() == y@.len(),
                    i <= x@.len(),
                    forall|j: int| 0 <= j < i ==> x@[j]@ == y@[j]@,
                decreases x@.len() - i,
            {
                if !json_eq(&x[i], &y[i]) {
                    proof {
                        assert(json_views_of_seq(x@)[i as int] != json_views_of_seq(y@)[i as int]);
                    }
                    return false;
                }
                i = i + 1;
            }
            proof {
                assert(json_views_of_seq(x@) =~= json_views_of_seq(y@));
            }
            true
        },
        (Value::Object(x), Value::Object(y)) => {
            if x.len() != y.len() {
                proof {
                    assert(json_views_of_fields(x@).len() != json_views_of_fields(y@).len());
                }
                return false;
            }
            let mut i: usize = 0;
            while i < x.len()
                invariant
                    x@.len() == y@.len(),
                    i <= x@.len(),
                    forall|j: int|
                        0 <= j < i ==> x@[j].0@ == y@[j].0@ && x@[j].1@ == y@[j].1@,
                decreases x@.len() - i,
            {
                if !str_eq(x[i].0.as_str(), y[i].0.as_str()) {
                    proof {
                        assert(json_views_of_fields(x@)[i as int]
                            != json_views_of_fields(y@)[i as int]);
                    }
                    return false;
                }
                if !json_eq(&x[i].1, &y[i].1) {
                    proof {
                        assert(json_views_of_fields(x@)[i as int]
                            != json_views_of_fields(y@)[i as int]);
                    }
                    return false;
                }
                i = i + 1;
            }
            proof {
                assert(json_views_of_fields(x@) =~= json_views_of_fields(y@));
            }
            true
        },
        _ => false,
    }
}

impl PartialEq for Value {
    fn eq(&self, other: &Self) -> (r: bool) {
        json_eq(self, other)
    }
}

impl vstd::std_specs::cmp::PartialEqSpecImpl for Value {
    open spec fn obeys_eq_spec() -> bool {
        true
    }

    open spec fn eq_spec(&self, other: &Self) -> bool {
        self@ == other@
    }
}

/// Inserts a field into a JSON object, keeping fields sorted by key and
/// replacing an existing field with the same key; the model of the result.
pub open spec fn object_insert_model(
    fields: Seq<(Seq<char>, JsonModel)>,
    key: Seq<char>,
    val: JsonModel,
) -> Seq<(Seq<char>, JsonModel)>
    decreases fields.len(),
{
    if fields.len() == 0 {
        seq![(key, val)]
    } else {
        match lex_cmp(key, fields[0].0) {
            Ord3::Lt => seq![(key, val)] + fields,
            Ord3::Eq => seq![(key, val)] + fields.drop_first(),
            Ord3::Gt => seq![fields[0]] + object_insert_model(fields.drop_first(), key, val),
        }
    }
}

/// Inserts a field into a JSON object's sorted field list: sorted fields
/// stay sorted.
pub fn object_insert(fields: &mut Vec<(String, Value)>, key: String, val: Value)
    ensures
        json_views_of_fields(final(fields)@)
            == object_insert_model(json_views_of_fields(old(fields)@), key@, val@),
        fields_sorted(json_views_of_fields(old(fields)@)) ==> fields_sorted(
            json_views_of_fields(final(fields)@),
        ),
{
    broadcast use lemma_json_views_of_fields;
    proof {
        if fields_sorted(json_views_of_fields(fields@)) {
            lemma_object_insert_sorted(json_views_of_fields(fields@), key@, val@);
        }
    }
    let ghost orig = json_views_of_fields(old(fields)@);
    let mut i: usize = 0;
    proof {
        assert(orig.skip(0) =~= orig);
        assert(orig.subrange(0, 0) + object_insert_model(orig.skip(0), key@, val@)
            =~= object_insert_model(orig, key@, val@));
    }
    while i < fields.len()
        invariant
            fields@ == old(fields)@,
            orig == json_views_of_fields(fields@),
            fields_sorted(orig) ==> fields_sorted(object_insert_model(orig, key@, val@)),
            i <= fields@.len(),
            object_insert_model(orig, key@, val@)
                == orig.subrange(0, i as int) + object_insert_model(orig.skip(i as int), key@, val@),
            forall|j: int| 0 <= j < i ==> lex_cmp(key@, orig[j].0) == Ord3::Gt,
        decreases fields@.len() - i,
    {
        proof {
            lemma_json_views_of_fields(fields@);
            assert(orig.len() == fields@.len());
            assert(orig.skip(i as int)[0] == orig[i as int]);
            assert(orig.skip(i as int).drop_first() =~= orig.skip(i as int + 1));
        }
        let o = str_cmp(key.as_str(), fields[i].0.as_str());
        let ghost pre = fields@;
        match o {
            Ord3::Lt => {
                let ghost kv = (key@, val@);
                fields.insert(i, (key, val));
                proof {
                    lemma_json_views_of_fields(fields@);
                    let m = json_views_of_fields(fields@);
                    assert(m =~= orig.subrange(0, i as int) + (seq![kv]
                        + orig.skip(i as int))) by {
                        assert forall|j: int| 0 <= j < m.len() implies m[j]
                            == (orig.subrange(0, i as int) + (seq![kv]
                                + orig.skip(i as int)))[j] by {
                            assert(m[j] == (fields@[j].0@, fields@[j].1@));
                            if j < i {
                                assert(fields@[j] == pre[j]);
                            } else if j > i {
                                assert(fields@[j] == pre[j - 1]);
                            }
                        }
                    }
                    assert(m == object_insert_model(orig, key@, val@));
                }
                return;
            },
            Ord3::Eq => {
                let ghost kv = (key@, val@);
                fields.set(i, (key, val));
                proof {
                    lemma_json_views_of_fields(fields@);
                    let m = json_views_of_fields(fields@);
                    assert(m =~= orig.subrange(0, i as int) + (seq![kv]
                        + orig.skip(i as int).drop_first())) by {
                        assert forall|j: int| 0 <= j < m.len() implies m[j]
                            == (orig.subrange(0, i as int) + (seq![kv]
                                + orig.skip(i as int).drop_first()))[j] by {
                            assert(m[j] == (fields@[j].0@, fields@[j].1@));
                            if j != i {
                                assert(fields@[j] == pre[j]);
                            }
                        }
                    }
                    assert(object_insert_model(orig.skip(i as int), key@, val@)
                        == seq![kv] + orig.skip(i as int).drop_first());
                    assert(m == object_insert_model(orig, key@, val@));
                }
                return;
            },
            Ord3::Gt => {
                proof {
                    assert(orig.subrange(0, i as int + 1)
                        =~= orig.subrange(0, i as int) + seq![orig[i as int]]);
                    assert(orig.subrange(0, i as int) + (seq![orig[i as int]]
                        + object_insert_model(orig.skip(i as int + 1), key@, val@))
                        =~= orig.subrange(0, i as int + 1)
                            + object_insert_model(orig.skip(i as int + 1), key@, val@));
                }
                i = i + 1;
            },
        }
    }
    proof {
        assert(orig.skip(i as int).len() == 0);
    }
    fields.push((key, val));
    proof {
        assert(json_views_of_fields(fields@)
            =~= orig.subrange(0, i as int) + object_insert_model(orig.skip(i as int), key@, val@));
    }
}

/// Looks a key up in a JSON object's fields: the value at the first field
/// whose key matches.
pub open spec fn object_get_model(
    fields: Seq<(Seq<char>, JsonModel)>,
    key: Seq<char>,
) -> Option<JsonModel>
    decreases fields.len(),
{
    if fields.len() == 0 {
        None
    } else if fields[0].0 == key {
        Some(fields[0].1)
    } else {
        object_get_model(fields.drop_first(), key)
    }
}

/// Looks a key up in a JSON object.
pub fn object_get<'a>(fields: &'a Vec<(String, Value)>, key: &str) -> (r: Option<&'a Value>)
    ensures
        match r {
            Some(v) => object_get_model(json_views_of_fields(fields@), key@) == Some(v@),
            None => object_get_model(json_views_of_fields(fields@), key@) is None,
        },
{
    broadcast use lemma_json_views_of_fields;
    let ghost m = json_views_of_fields(fields@);
    let mut i: usize = 0;
    proof {
        assert(m.skip(0) =~= m);
    }
    while i < fields.len()
        invariant
            m == json_views_of_fields(fields@),
            i <= fields@.len(),
            object_get_model(m, key@) == object_get_model(m.skip(i as int), key@),
        decreases fields@.len() - i,
    {
        proof {
            lemma_json_views_of_fields(fields@);
            assert(m.len() == fields@.len());
            assert(m.skip(i as int)[0] == m[i as int]);
            assert(m.skip(i as int).drop_first() =~= m.skip(i as int + 1));
        }
        if str_eq(fields[i].0.as_str(), key) {
            return Some(&fields[i].1);
        }
        i = i + 1;
    }
    proof {
        assert(m.skip(i as int).len() == 0);
    }
    None
}

/// A JSON parse or serialize error, carrying a diagnostic message.
#[derive(Debug)]
pub struct Error(pub String);

impl View for Error {
    type V = Seq<char>;

    open spec fn view(&self) -> Seq<char> {
        self.0@
    }
}

impl Error {
    /// The diagnostic message.
    pub fn message(self) -> (r: String)
        ensures
            r@ == self@,
    {
        self.0
    }
}

/// How a character appears inside a serialized JSON string: backslashes,
/// quotes and newlines are escaped.
pub open spec fn escape_char(c: char) -> Seq<char> {
    if c == '\\' {
        seq!['\\', '\\']
    } else if c == '"' {
        seq!['\\', '"']
    } else if c == '\n' {
        seq!['\\', 'n']
    } else {
        seq![c]
    }
}

/// A string's characters as they appear inside a serialized JSON string.
pub open spec fn escape_str(s: Seq<char>) -> Seq<char>
    decreases s.len(),
{
    if s.len() == 0 {
        Seq::empty()
    } else {
        escape_char(s[0]) + escape_str(s.drop_first())
    }
}

/// How a character appears inside a serialized object key: only quotes are
/// escaped.
pub open spec fn escape_key_char(c: char) -> Seq<char> {
    if c == '"' {
        seq!['\\', '"']
    } else {
        seq![c]
    }
}

/// An object key's characters as they appear in serialized form.
pub open spec fn escape_key(s: Seq<char>) -> Seq<char>
    decreases s.len(),
{
    if s.len() == 0 {
        Seq::empty()
    } else {
        escape_key_char(s[0]) + escape_key(s.drop_first())
    }
}

/// The serialized text of a JSON value.
pub open spec fn json_text(j: JsonModel) -> Seq<char>
    decreases j,
{
    match j {
        JsonModel::Null => seq!['n', 'u', 'l', 'l'],
        JsonModel::Bool(b) => if b {
            seq!['t', 'r', 'u', 'e']
        } else {
            seq!['f', 'a', 'l', 's', 'e']
        },
        JsonModel::Number(n) => i64_dec(n as int),
        JsonModel::String(s) => seq!['"'] + escape_str(s) + seq!['"'],
        JsonModel::Array(a) => seq!['['] + json_text_items(a) + seq![']'],
        JsonModel::Object(o) => seq!['{'] + json_text_fields(o) + seq!['}'],
    }
}

/// The comma-separated texts of an array's elements.
pub open spec fn json_text_items(s: Seq<JsonModel>) -> Seq<char>
    decreases s,
{
    if s.len() == 0 {
        Seq::empty()
    } else if s.len() == 1 {
        json_text(s[0])
    } else {
        json_text(s[0]) + seq![','] + json_text_items(s.drop_first())
    }
}

/// The comma-separated texts of an object's fields.
pub open spec fn json_text_fields(s: Seq<(Seq<char>, JsonModel)>) -> Seq<char>
    decreases s,
{
    if s.len() == 0 {
        Seq::empty()
    } else if s.len() == 1 {
        json_field_text(s[0])
    } else {
        json_field_text(s[0]) + seq![','] + json_text_fields(s.drop_first())
    }
}

/// The serialized text of one object field: a quoted key, a colon, the value.
pub open spec fn json_field_text(f: (Seq<char>, JsonModel)) -> Seq<char>
    decreases f,
{
    seq!['"'] + escape_key(f.0) + seq!['"', ':'] + json_text(f.1)
}

proof fn lemma_escape_str_snoc(s: Seq<char>, c: char)
    ensures
        escape_str(s.push(c)) == escape_str(s) + escape_char(c),
    decreases s.len(),
{
    let t = s.push(c);
    if s.len() == 0 {
        assert(t.len() == 1 && t[0] == c);
        assert(t.drop_first() =~= Seq::<char>::empty());
        assert(escape_str(t) == escape_char(c) + escape_str(t.drop_first()));
        assert(escape_char(c) + Seq::<char>::empty() =~= escape_char(c));
        assert(escape_str(s) + escape_char(c) =~= escape_char(c));
    } else {
        assert(t.drop_first() =~= s.drop_first().push(c));
        lemma_escape_str_snoc(s.drop_first(), c);
        assert(escape_str(t) == escape_char(s[0]) + (escape_str(s.drop_first())
            + escape_char(c)));
        assert(escape_char(s[0]) + (escape_str(s.drop_first()) + escape_char(c))
            =~= (escape_char(s[0]) + escape_str(s.drop_first())) + escape_char(c));
    }
}

proof fn lemma_escape_key_snoc(s: Seq<char>, c: char)
    ensures
        escape_key(s.push(c)) == escape_key(s) + escape_key_char(c),
    decreases s.len(),
{
    let t = s.push(c);
    if s.len() == 0 {
        assert(t.len() == 1 && t[0] == c);
        assert(t.drop_first() =~= Seq::<char>::empty());
        assert(escape_key(t) == escape_key_char(c) + escape_key(t.drop_first()));
        assert(escape_key_char(c) + Seq::<char>::empty() =~= escape_key_char(c));
        assert(escape_key(s) + escape_key_char(c) =~= escape_key_char(c));
    } else {
        assert(t.drop_first() =~= s.drop_first().push(c));
        lemma_escape_key_snoc(s.drop_first(), c);
        assert(escape_key(t) == escape_key_char(s[0]) + (escape_key(s.drop_first())
            + escape_key_char(c)));
        assert(escape_key_char(s[0]) + (escape_key(s.drop_first()) + escape_key_char(c))
            =~= (escape_key_char(s[0]) + escape_key(s.drop_first())) + escape_key_char(c));
    }
}

proof fn lemma_json_text_items_snoc(s: Seq<JsonModel>, x: JsonModel)
    ensures
        json_text_items(s.push(x)) == if s.len() == 0 {
            json_text(x)
        } else {
            json_text_items(s) + seq![','] + json_text(x)
        },
    decreases s.len(),
{
    let t = s.push(x);
    if s.len() == 0 {
        assert(t.len() == 1 && t[0] == x);
    } else {
        assert(t.drop_first() =~= s.drop_first().push(x));
        lemma_json_text_items_snoc(s.drop_first(), x);
        if s.len() == 1 {
            assert(json_text_items(t) == json_text(t[0]) + seq![','] + json_text_items(
                t.drop_first(),
            ));
            assert(json_text_items(t.drop_first()) == json_text(x));
            assert(json_text(s[0]) + seq![','] + json_text(x)
                =~= json_text_items(s) + seq![','] + json_text(x));
            assert(json_text_items(t) =~= json_text_items(s) + seq![','] + json_text(x));
        } else {
            assert(json_text_items(t) == json_text(t[0]) + seq![','] + (json_text_items(
                s.drop_first(),
            ) + seq![','] + json_text(x)));
            assert(json_text_items(t)
                =~= (json_text(s[0]) + seq![','] + json_text_items(s.drop_first())) + seq![',']
                    + json_text(x));
        }
    }
}

proof fn lemma_json_text_fields_snoc(s: Seq<(Seq<char>, JsonModel)>, x: (Seq<char>, JsonModel))
    ensures
        json_text_fields(s.push(x)) == if s.len() == 0 {
            json_field_text(x)
        } else {
            json_text_fields(s) + seq![','] + json_field_text(x)
        },
    decreases s.len(),
{
    let t = s.push(x);
    if s.len() == 0 {
        assert(t.len() == 1 && t[0] == x);
    } else {
        assert(t.drop_first() =~= s.drop_first().push(x));
        lemma_json_text_fields_snoc(s.drop_first(), x);
        if s.len() == 1 {
            assert(json_text_fields(t) == json_field_text(t[0]) + seq![','] + json_text_fields(
                t.drop_first(),
            ));
            assert(json_text_fields(t.drop_first()) == json_field_text(x));
            assert(json_field_text(s[0]) + seq![','] + json_field_text(x)
                =~= json_text_fields(s) + seq![','] + json_field_text(x));
            assert(json_text_fields(t)
                =~= json_text_fields(s) + seq![','] + json_field_text(x));
        } else {
            assert(json_text_fields(t) == json_field_text(t[0]) + seq![','] + (json_text_fields(
                s.drop_first(),
            ) + seq![','] + json_field_text(x)));
            assert(json_text_fields(t)
                =~= (json_field_text(s[0]) + seq![','] + json_text_fields(s.drop_first()))
                    + seq![','] + json_field_text(x));
        }
    }
}

/// Appends a string's characters to the buffer.
fn append_str_chars(out: &mut Vec<char>, s: &str)
    ensures
        final(out)@ == old(out)@ + s@,
{
    let n = s.unicode_len();
    let mut i: usize = 0;
    while i < n
        invariant
            n == s@.len(),
            i <= n,
            out@ == old(out)@ + s@.subrange(0, i as int),
        decreases n - i,
    {
        out.push(s.get_char(i));
        i = i + 1;
        proof {
            assert(old(out)@ + s@.subrange(0, i as int) =~= (old(out)@ + s@.subrange(
                0,
                i as int - 1,
            )).push(s@[i as int - 1]));
        }
    }
    proof {
        assert(s@.subrange(0, n as int) =~= s@);
        assert(out@ == old(out)@ + s@);
    }
}

/// Appends a string's characters to the buffer in JSON string-escaped form.
fn append_escaped(out: &mut Vec<char>, s: &str, key_form: bool)
    ensures
        !key_form ==> final(out)@ == old(out)@ + escape_str(s@),
        key_form ==> final(out)@ == old(out)@ + escape_key(s@),
{
    let n = s.unicode_len();
    let mut i: usize = 0;
    proof {
        assert(s@.subrange(0, 0) =~= Seq::<char>::empty());
        assert(old(out)@ + Seq::<char>::empty() =~= old(out)@);
    }
    while i < n
        invariant
            n == s@.len(),
            i <= n,
            !key_form ==> out@ == old(out)@ + escape_str(s@.subrange(0, i as int)),
            key_form ==> out@ == old(out)@ + escape_key(s@.subrange(0, i as int)),
        decreases n - i,
    {
        let c = s.get_char(i);
        if c == '\\' && !key_form {
            out.push('\\');
            out.push('\\');
        } else if c == '"' {
            out.push('\\');
            out.push('"');
        } else if c == '\n' && !key_form {
            out.push('\\');
            out.push('n');
        } else {
            out.push(c);
        }
        proof {
            let pre = s@.subrange(0, i as int);
            assert(s@.subrange(0, i as int + 1) =~= pre.push(s@[i as int]));
            if !key_form {
                lemma_escape_str_snoc(pre, s@[i as int]);
                assert(out@ =~= old(out)@ + escape_str(s@.subrange(0, i as int + 1)));
            } else {
                lemma_escape_key_snoc(pre, s@[i as int]);
                assert(out@ =~= old(out)@ + escape_key(s@.subrange(0, i as int + 1)));
            }
        }
        i = i + 1;
    }
    proof {
        assert(s@.subrange(0, n as int) =~= s@);
    }
}

/// Writes the serialized text of a JSON value into the buffer.
#[verifier::loop_isolation(false)]
#[verifier::rlimit(60)]
fn write_json(j: &Value, out: &mut Vec<char>)
    ensures
        final(out)@ == old(out)@ + json_text(j@),
    decreases j,
{
    broadcast use lemma_json_views_of_seq, lemma_json_views_of_fields;
    match j {
        Value::Null => {
            out.push('n');
            out.push('u');
            out.push('l');
            out.push('l');
            proof {
                assert(out@ =~= old(out)@ + json_text(j@));
            }
        },
        Value::Bool(b) => {
            if *b {
                out.push('t');
                out.push('r');
                out.push('u');
                out.push('e');
            } else {
                out.push('f');
                out.push('a');
                out.push('l');
                out.push('s');
                out.push('e');
            }
            proof {
                assert(out@ =~= old(out)@ + json_text(j@));
            }
        },
        Value::Number(n) => {
            let text = fmt_i64(n.0);
            append_str_chars(out, text.as_str());
        },
        Value::String(s) => {
            out.push('"');
            append_escaped(out, s.as_str(), false);
            out.push('"');
            proof {
                assert(out@ =~= old(out)@ + (seq!['"'] + escape_str(s@) + seq!['"']));
            }
        },
        Value::Array(items) => {
            out.push('[');
            let ghost views = json_views_of_seq(items@);
            let mut i: usize = 0;
            proof {
                assert(views.subrange(0, 0) =~= Seq::<JsonModel>::empty());
                assert(out@ =~= old(out)@ + seq!['['] + json_text_items(views.subrange(0, 0)));
            }
            while i < items.len()
                invariant
                    i <= items@.len(),
                    out@ == old(out)@ + seq!['['] + json_text_items(views.subrange(0, i as int)),
                decreases items@.len() - i,
            {
                if i > 0 {
                    out.push(',');
                }
                write_json(&items[i], out);
                proof {
                    let pre = views.subrange(0, i as int);
                    assert(views.subrange(0, i as int + 1) =~= pre.push(views[i as int]));
                    lemma_json_text_items_snoc(pre, views[i as int]);
                    assert(views[i as int] == items@[i as int]@);
                    assert(out@ =~= old(out)@ + seq!['['] + json_text_items(
                        views.subrange(0, i as int + 1),
                    ));
                }
                i = i + 1;
            }
            out.push(']');
            proof {
                assert(views.subrange(0, items@.len() as int) =~= views);
                assert(out@ =~= old(out)@ + json_text(j@));
            }
        },
        Value::Object(fields) => {
            out.push('{');
            let ghost views = json_views_of_fields(fields@);
            let mut i: usize = 0;
            proof {
                assert(views.subrange(0, 0) =~= Seq::<(Seq<char>, JsonModel)>::empty());
                assert(out@ =~= old(out)@ + seq!['{'] + json_text_fields(views.subrange(0, 0)));
            }
            while i < fields.len()
                invariant
                    i <= fields@.len(),
                    out@ == old(out)@ + seq!['{'] + json_text_fields(views.subrange(0, i as int)),
                decreases fields@.len() - i,
            {
                if i > 0 {
                    out.push(',');
                }
                out.push('"');
                append_escaped(out, fields[i].0.as_str(), true);
                out.push('"');
                out.push(':');
                write_json(&fields[i].1, out);
                proof {
                    let pre = views.subrange(0, i as int);
                    assert(views.subrange(0, i as int + 1) =~= pre.push(views[i as int]));
                    lemma_json_text_fields_snoc(pre, views[i as int]);
                    assert(views[i as int] == (fields@[i as int].0@, fields@[i as int].1@));
                    assert(out@ =~= old(out)@ + seq!['{'] + json_text_fields(
                        views.subrange(0, i as int + 1),
                    ));
                }
                i = i + 1;
            }
            out.push('}');
            proof {
                assert(views.subrange(0, fields@.len() as int) =~= views);
                assert(out@ =~= old(out)@ + json_text(j@));
            }
        },
    }
}

/// A JSON parse failure.
#[derive(Debug, Clone, Copy, PartialEq, Eq, Structural)]
pub enum JErr {
    Eof,
    BadValue,
    BadToken,
    UntermString,
    BadEscape,
    Num,
    BadArray,
    BadObject,
    Trailing,
    Utf8,
}

/// The diagnostic text of a parse failure.
pub open spec fn jerr_text(e: JErr) -> Seq<char> {
    match e {
        JErr::Eof => "eof"@,
        JErr::BadValue => "bad json value"@,
        JErr::BadToken => "bad token"@,
        JErr::UntermString => "unterminated string"@,
        JErr::BadEscape => "bad escape"@,
        JErr::Num => "num"@,
        JErr::BadArray => "bad array"@,
        JErr::BadObject => "bad object"@,
        JErr::Trailing => "trailing json"@,
        JErr::Utf8 => "invalid utf-8"@,
    }
}

fn jerr_message(e: JErr) -> (r: String)
    ensures
        r@ == jerr_text(e),
{
    match e {
        JErr::Eof => String::from_str("eof"),
        JErr::BadValue => String::from_str("bad json value"),
        JErr::BadToken => String::from_str("bad token"),
        JErr::UntermString => String::from_str("unterminated string"),
        JErr::BadEscape => String::from_str("bad escape"),
        JErr::Num => String::from_str("num"),
        JErr::BadArray => String::from_str("bad array"),
        JErr::BadObject => String::from_str("bad object"),
        JErr::Trailing => String::from_str("trailing json"),
        JErr::Utf8 => String::from_str("invalid utf-8"),
    }
}

/// Whether a byte is ASCII whitespace.
pub open spec fn is_ws_byte(c: u8) -> bool {
    c == 32 || c == 9 || c == 10 || c == 12 || c == 13
}

/// Whether a byte is an ASCII decimal digit.
pub open spec fn is_digit_byte(c: u8) -> bool {
    48 <= c <= 57
}

/// The position after skipping ASCII whitespace from `i`.
pub open spec fn ws_s(b: Seq<u8>, i: int) -> int
    decreases b.len() - i,
{
    if 0 <= i < b.len() && is_ws_byte(b[i]) {
        ws_s(b, i + 1)
    } else {
        i
    }
}

/// The position after the last of a run of ASCII digits starting at `i`.
pub open spec fn digits_end_s(b: Seq<u8>, i: int) -> int
    decreases b.len() - i,
{
    if 0 <= i < b.len() && is_digit_byte(b[i]) {
        digits_end_s(b, i + 1)
    } else {
        i
    }
}

/// Each byte read as one character.
pub open spec fn chars_of_bytes(s: Seq<u8>) -> Seq<char> {
    Seq::new(s.len(), |i: int| s[i] as char)
}

/// What parsing a JSON string body yields, starting just after the opening
/// quote: the decoded characters and the position after the closing quote.
/// Escapes are limited to `\"`, `\\`, `\n` and `\t`; any other byte is read
/// as one character.
pub open spec fn string_s(b: Seq<u8>, i: int) -> Result<(Seq<char>, int), JErr>
    decreases b.len() - i, 0int,
{
    if i < 0 || i >= b.len() {
        Err(JErr::UntermString)
    } else {
        let c = b[i];
        if c == 34 {
            Ok((Seq::empty(), i + 1))
        } else if c == 92 {
            if i + 1 >= b.len() {
                Err(JErr::BadEscape)
            } else {
                let e = b[i + 1];
                if e == 34 || e == 92 || e == 110 || e == 116 {
                    let c2 = if e == 34 {
                        '"'
                    } else if e == 92 {
                        '\\'
                    } else if e == 110 {
                        '\n'
                    } else {
                        '\t'
                    };
                    match string_s(b, i + 2) {
                        Ok((s, j)) => Ok((seq![c2] + s, j)),
                        Err(er) => Err(er),
                    }
                } else {
                    Err(JErr::BadEscape)
                }
            }
        } else {
            match string_s(b, i + 1) {
                Ok((s, j)) => Ok((seq![c as char] + s, j)),
                Err(er) => Err(er),
            }
        }
    }
}

/// What parsing a JSON number yields: an optional minus sign, a run of
/// digits, and the value as a signed 64-bit integer.
pub open spec fn number_s(b: Seq<u8>, i: int) -> Result<(JsonModel, int), JErr> {
    let p = if 0 <= i < b.len() && b[i] == 45 {
        i + 1
    } else {
        i
    };
    let e = digits_end_s(b, p);
    let text = chars_of_bytes(b.subrange(i, e));
    match parse_i64_spec(text) {
        Some(v) => Ok((JsonModel::Number(v), e)),
        None => Err(JErr::Num),
    }
}

/// Whether the token's bytes stand at position `i`.
pub open spec fn expect_s(b: Seq<u8>, i: int, tok: Seq<u8>) -> Result<int, JErr> {
    if 0 <= i && i + tok.len() <= b.len() && b.subrange(i, i + tok.len()) == tok {
        Ok(i + tok.len())
    } else {
        Err(JErr::BadToken)
    }
}

/// Folds a sequence of parsed fields into a sorted object, in parse order.
pub open spec fn insert_all(
    acc: Seq<(Seq<char>, JsonModel)>,
    pairs: Seq<(Seq<char>, JsonModel)>,
) -> Seq<(Seq<char>, JsonModel)>
    decreases pairs.len(),
{
    if pairs.len() == 0 {
        acc
    } else {
        insert_all(object_insert_model(acc, pairs[0].0, pairs[0].1), pairs.drop_first())
    }
}

pub proof fn lemma_insert_all_snoc(
    acc: Seq<(Seq<char>, JsonModel)>,
    pairs: Seq<(Seq<char>, JsonModel)>,
    x: (Seq<char>, JsonModel),
)
    ensures
        insert_all(acc, pairs.push(x)) == object_insert_model(insert_all(acc, pairs), x.0, x.1),
    decreases pairs.len(),
{
    let t = pairs.push(x);
    if pairs.len() == 0 {
        assert(t[0] == x);
        assert(t.drop_first() =~= Seq::<(Seq<char>, JsonModel)>::empty());
        assert(insert_all(acc, t) == insert_all(object_insert_model(acc, x.0, x.1),
            t.drop_first()));
        assert(insert_all(object_insert_model(acc, x.0, x.1), t.drop_first())
            == object_insert_model(acc, x.0, x.1));
        assert(insert_all(acc, pairs) == acc);
    } else {
        assert(t[0] == pairs[0]);
        assert(t.drop_first() =~= pairs.drop_first().push(x));
        lemma_insert_all_snoc(object_insert_model(acc, pairs[0].0, pairs[0].1),
            pairs.drop_first(), x);
        assert(insert_all(acc, t) == insert_all(object_insert_model(acc, t[0].0, t[0].1),
            t.drop_first()));
        assert(insert_all(acc, pairs) == insert_all(object_insert_model(acc, pairs[0].0,
            pairs[0].1), pairs.drop_first()));
    }
}

/// What parsing a JSON value yields: the value's model and the position just
/// after its text.
pub open spec fn value_s(b: Seq<u8>, i: int) -> Result<(JsonModel, int), JErr>
    decreases b.len() - i, 0int,
{
    let i1 = ws_s(b, i);
    if i1 < i || i1 >= b.len() {
        Err(JErr::Eof)
    } else {
        let c = b[i1];
        if c == 110 {
            match expect_s(b, i1, seq![110u8, 117u8, 108u8, 108u8]) {
                Ok(j) => Ok((JsonModel::Null, j)),
                Err(e) => Err(e),
            }
        } else if c == 116 {
            match expect_s(b, i1, seq![116u8, 114u8, 117u8, 101u8]) {
                Ok(j) => Ok((JsonModel::Bool(true), j)),
                Err(e) => Err(e),
            }
        } else if c == 102 {
            match expect_s(b, i1, seq![102u8, 97u8, 108u8, 115u8, 101u8]) {
                Ok(j) => Ok((JsonModel::Bool(false), j)),
                Err(e) => Err(e),
            }
        } else if c == 34 {
            match string_s(b, i1 + 1) {
                Ok((s, j)) => Ok((JsonModel::String(s), j)),
                Err(e) => Err(e),
            }
        } else if c == 91 {
            match items_s(b, i1 + 1) {
                Ok((elems, j)) => Ok((JsonModel::Array(elems), j)),
                Err(e) => Err(e),
            }
        } else if c == 123 {
            match object_items_s(b, i1 + 1) {
                Ok((pairs, j)) => Ok((JsonModel::Object(insert_all(Seq::empty(), pairs)), j)),
                Err(e) => Err(e),
            }
        } else if c == 45 || is_digit_byte(c) {
            number_s(b, i1)
        } else {
            Err(JErr::BadValue)
        }
    }
}

/// What parsing the elements of a JSON array yields, starting just after the
/// opening bracket or a separating comma: the element models in order and the
/// position after the closing bracket.  A trailing comma before the closing
/// bracket is accepted.
pub open spec fn items_s(b: Seq<u8>, i: int) -> Result<(Seq<JsonModel>, int), JErr>
    decreases b.len() - i, 1int,
{
    let i1 = ws_s(b, i);
    if i1 < i || i1 > b.len() {
        Err(JErr::BadArray)
    } else if i1 < b.len() && b[i1] == 93 {
        Ok((Seq::empty(), i1 + 1))
    } else {
        match value_s(b, i) {
            Err(e) => Err(e),
            Ok((v, j)) => {
                if j <= i || j > b.len() {
                    Err(JErr::BadArray)
                } else {
                    let i2 = ws_s(b, j);
                    if i2 < j || i2 > b.len() {
                        Err(JErr::BadArray)
                    } else if i2 < b.len() && b[i2] == 44 {
                        match items_s(b, i2 + 1) {
                            Ok((rest, k)) => Ok((seq![v] + rest, k)),
                            Err(e) => Err(e),
                        }
                    } else if i2 < b.len() && b[i2] == 93 {
                        Ok((seq![v], i2 + 1))
                    } else {
                        Err(JErr::BadArray)
                    }
                }
            },
        }
    }
}

/// What parsing the fields of a JSON object yields, starting just after the
/// opening brace or a separating comma: the parsed fields in parse order and
/// the position after the closing brace.
pub open spec fn object_items_s(b: Seq<u8>, i: int) -> Result<
    (Seq<(Seq<char>, JsonModel)>, int),
    JErr,
>
    decreases b.len() - i, 1int,
{
    let i1 = ws_s(b, i);
    if i1 < i || i1 > b.len() {
        Err(JErr::BadObject)
    } else if i1 < b.len() && b[i1] == 125 {
        Ok((Seq::empty(), i1 + 1))
    } else if i1 >= b.len() {
        Err(JErr::UntermString)
    } else {
        match string_s(b, i1 + 1) {
            Err(e) => Err(e),
            Ok((key, j)) => {
                if j <= i || j > b.len() {
                    Err(JErr::BadObject)
                } else {
                    let i2 = ws_s(b, j);
                    if i2 < j || i2 >= b.len() || b[i2] != 58 {
                        Err(JErr::BadObject)
                    } else {
                        match value_s(b, i2 + 1) {
                            Err(e) => Err(e),
                            Ok((v, j2)) => {
                                if j2 <= i || j2 > b.len() {
                                    Err(JErr::BadObject)
                                } else {
                                    let i3 = ws_s(b, j2);
                                    if i3 < j2 || i3 > b.len() {
                                        Err(JErr::BadObject)
                                    } else if i3 < b.len() && b[i3] == 44 {
                                        match object_items_s(b, i3 + 1) {
                                            Ok((rest, k)) => Ok((seq![(key, v)] + rest, k)),
                                            Err(e) => Err(e),
                                        }
                                    } else if i3 < b.len() && b[i3] == 125 {
                                        Ok((seq![(key, v)], i3 + 1))
                                    } else {
                                        Err(JErr::BadObject)
                                    }
                                }
                            },
                        }
                    }
                }
            },
        }
    }
}

/// What parsing a whole JSON document yields: one value, with nothing but
/// whitespace after it.
pub open spec fn json_from_bytes(b: Seq<u8>) -> Result<JsonModel, JErr> {
    match value_s(b, 0) {
        Err(e) => Err(e),
        Ok((v, j)) => {
            let k = ws_s(b, j);
            if k != b.len() {
                Err(JErr::Trailing)
            } else {
                Ok(v)
            }
        },
    }
}

fn ws_at(b: &Vec<u8>, i: usize) -> (j: usize)
    requires
        i <= b@.len(),
    ensures
        j as int == ws_s(b@, i as int),
        i <= j <= b@.len(),
{
    let mut cur = i;
    loop
        invariant
            i <= cur <= b@.len(),
            ws_s(b@, i as int) == ws_s(b@, cur as int),
        ensures
            i <= cur <= b@.len(),
            ws_s(b@, i as int) == ws_s(b@, cur as int),
            !(cur < b@.len() && is_ws_byte(b@[cur as int])),
        decreases b@.len() - cur,
    {
        if cur >= b.len() {
            break;
        }
        let c = b[cur];
        if !(c == 32 || c == 9 || c == 10 || c == 12 || c == 13) {
            break;
        }
        cur = cur + 1;
    }
    proof {
        assert(ws_s(b@, cur as int) == cur as int);
    }
    cur
}

fn digits_end_at(b: &Vec<u8>, i: usize) -> (j: usize)
    requires
        i <= b@.len(),
    ensures
        j as int == digits_end_s(b@, i as int),
        i <= j <= b@.len(),
{
    let mut cur = i;
    loop
        invariant
            i <= cur <= b@.len(),
            digits_end_s(b@, i as int) == digits_end_s(b@, cur as int),
        ensures
            i <= cur <= b@.len(),
            digits_end_s(b@, i as int) == digits_end_s(b@, cur as int),
            !(cur < b@.len() && is_digit_byte(b@[cur as int])),
        decreases b@.len() - cur,
    {
        if cur >= b.len() {
            break;
        }
        let c = b[cur];
        if !(48 <= c && c <= 57) {
            break;
        }
        cur = cur + 1;
    }
    proof {
        assert(digits_end_s(b@, cur as int) == cur as int);
    }
    cur
}

fn parse_string_at(b: &Vec<u8>, i: usize) -> (r: Result<(String, usize), JErr>)
    requires
        i <= b@.len(),
    ensures
        match r {
            Ok(p) => string_s(b@, i as int) == Ok::<(Seq<char>, int), JErr>((p.0@, p.1 as int))
                && i < p.1 <= b@.len(),
            Err(e) => string_s(b@, i as int) == Err::<(Seq<char>, int), JErr>(e),
        },
{
    let mut acc: Vec<char> = Vec::new();
    let mut cur = i;
    loop
        invariant
            i <= cur <= b@.len(),
            string_s(b@, i as int) == match string_s(b@, cur as int) {
                Ok(p) => Ok::<(Seq<char>, int), JErr>((acc@ + p.0, p.1)),
                Err(e) => Err::<(Seq<char>, int), JErr>(e),
            },
        decreases b@.len() - cur,
    {
        if cur >= b.len() {
            return Err(JErr::UntermString);
        }
        let c = b[cur];
        if c == 34 {
            proof {
                assert(string_s(b@, cur as int) == Ok::<(Seq<char>, int), JErr>((
                    Seq::empty(),
                    cur as int + 1,
                )));
                assert(acc@ + Seq::<char>::empty() =~= acc@);
            }
            return Ok((string_of(&acc), cur + 1));
        }
        if c == 92 {
            if cur + 1 >= b.len() {
                return Err(JErr::BadEscape);
            }
            let e = b[cur + 1];
            let c2: char;
            if e == 34 {
                c2 = '"';
            } else if e == 92 {
                c2 = '\\';
            } else if e == 110 {
                c2 = '\n';
            } else if e == 116 {
                c2 = '\t';
            } else {
                return Err(JErr::BadEscape);
            }
            let ghost acc0 = acc@;
            acc.push(c2);
            proof {
                match string_s(b@, cur as int + 2) {
                    Ok(p) => {
                        assert(acc0 + (seq![c2] + p.0) =~= acc@ + p.0);
                    },
                    Err(_) => {},
                }
            }
            cur = cur + 2;
        } else {
            let ghost acc0 = acc@;
            acc.push(c as char);
            proof {
                match string_s(b@, cur as int + 1) {
                    Ok(p) => {
                        assert(acc0 + (seq![c as char] + p.0) =~= acc@ + p.0);
                    },
                    Err(_) => {},
                }
            }
            cur = cur + 1;
        }
    }
}

fn parse_number_at(b: &Vec<u8>, i: usize) -> (r: Result<(Value, usize), JErr>)
    requires
        i < b@.len(),
        b@[i as int] == 45 || is_digit_byte(b@[i as int]),
    ensures
        match r {
            Ok(p) => number_s(b@, i as int) == Ok::<(JsonModel, int), JErr>((p.0@, p.1 as int))
                && i < p.1 <= b@.len(),
            Err(e) => number_s(b@, i as int) == Err::<(JsonModel, int), JErr>(e),
        },
{
    let n = b.len();
    let p: usize = if b[i] == 45 {
        i + 1
    } else {
        i
    };
    let end = digits_end_at(b, p);
    let mut text: Vec<char> = Vec::new();
    let mut k = i;
    proof {
        assert(chars_of_bytes(b@.subrange(i as int, i as int)) =~= Seq::<char>::empty());
        assert(text@ =~= chars_of_bytes(b@.subrange(i as int, i as int)));
    }
    while k < end
        invariant
            i <= k <= end <= b@.len(),
            text@ == chars_of_bytes(b@.subrange(i as int, k as int)),
        decreases end - k,
    {
        text.push(b[k] as char);
        k = k + 1;
        proof {
            assert(text@ =~= chars_of_bytes(b@.subrange(i as int, k as int)));
        }
    }
    match parse_i64_chars(&text) {
        Some(v) => {
            proof {
                if end == i {
                    // with neither sign nor digits the literal is empty
                    assert(parse_i64_spec(text@) is None);
                }
                if b@[i as int] == 45 && end == i + 1 {
                    assert(text@.len() == 1);
                    assert(text@[0] == '-');
                    assert(parse_i64_spec(text@) is None);
                }
            }
            Ok((Value::Number(Number(v)), end))
        },
        None => Err(JErr::Num),
    }
}

#[verifier::loop_isolation(false)]
#[verifier::rlimit(100)]
fn parse_value_at(b: &Vec<u8>, i: usize) -> (r: Result<(Value, usize), JErr>)
    requires
        i <= b@.len(),
    ensures
        match r {
            Ok(p) => value_s(b@, i as int) == Ok::<(JsonModel, int), JErr>((p.0@, p.1 as int))
                && i < p.1 <= b@.len(),
            Err(e) => value_s(b@, i as int) == Err::<(JsonModel, int), JErr>(e),
        },
    decreases b@.len() - i,
{
    broadcast use lemma_json_views_of_seq, lemma_json_views_of_fields;
    let i1 = ws_at(b, i);
    if i1 >= b.len() {
        return Err(JErr::Eof);
    }
    let c = b[i1];
    if c == 110 {
        let ghost tok = seq![110u8, 117u8, 108u8, 108u8];
        if b.len() - i1 >= 4 && b[i1 + 1] == 117 && b[i1 + 2] == 108 && b[i1 + 3] == 108 {
            proof {
                assert(b@.subrange(i1 as int, i1 as int + 4) =~= tok);
            }
            Ok((Value::Null, i1 + 4))
        } else {
            proof {
                if i1 + 4 <= b@.len() {
                    let sub = b@.subrange(i1 as int, i1 as int + 4);
                    assert(sub[1] == b@[i1 as int + 1] && sub[2] == b@[i1 as int + 2]
                        && sub[3] == b@[i1 as int + 3]);
                    assert(sub != tok);
                }
            }
            Err(JErr::BadToken)
        }
    } else if c == 116 {
        let ghost tok = seq![116u8, 114u8, 117u8, 101u8];
        if b.len() - i1 >= 4 && b[i1 + 1] == 114 && b[i1 + 2] == 117 && b[i1 + 3] == 101 {
            proof {
                assert(b@.subrange(i1 as int, i1 as int + 4) =~= tok);
            }
            Ok((Value::Bool(true), i1 + 4))
        } else {
            proof {
                if i1 + 4 <= b@.len() {
                    let sub = b@.subrange(i1 as int, i1 as int + 4);
                    assert(sub[1] == b@[i1 as int + 1] && sub[2] == b@[i1 as int + 2]
                        && sub[3] == b@[i1 as int + 3]);
                    assert(sub != tok);
                }
            }
            Err(JErr::BadToken)
        }
    } else if c == 102 {
        let ghost tok = seq![102u8, 97u8, 108u8, 115u8, 101u8];
        if b.len() - i1 >= 5 && b[i1 + 1] == 97 && b[i1 + 2] == 108 && b[i1 + 3] == 115 && b[i1
            + 4] == 101 {
            proof {
                assert(b@.subrange(i1 as int, i1 as int + 5) =~= tok);
            }
            Ok((Value::Bool(false), i1 + 5))
        } else {
            proof {
                if i1 + 5 <= b@.len() {
                    let sub = b@.subrange(i1 as int, i1 as int + 5);
                    assert(sub[1] == b@[i1 as int + 1] && sub[2] == b@[i1 as int + 2]
                        && sub[3] == b@[i1 as int + 3] && sub[4] == b@[i1 as int + 4]);
                    assert(sub != tok);
                }
            }
            Err(JErr::BadToken)
        }
    } else if c == 34 {
        match parse_string_at(b, i1 + 1) {
            Ok((s, j)) => Ok((Value::String(s), j)),
            Err(e) => Err(e),
        }
    } else if c == 91 {
        let ghost entry = i1 as int + 1;
        let mut elems: Vec<Value> = Vec::new();
        let mut cur: usize = i1 + 1;
        proof {
            assert(json_views_of_seq(elems@) =~= Seq::<JsonModel>::empty());
        }
        loop
            invariant
                entry <= cur <= b@.len(),
                i < cur,
                items_s(b@, entry) == match items_s(b@, cur as int) {
                    Ok(p) => Ok::<(Seq<JsonModel>, int), JErr>((json_views_of_seq(elems@) + p.0,
                        p.1)),
                    Err(e) => Err::<(Seq<JsonModel>, int), JErr>(e),
                },
            decreases b@.len() - cur,
        {
            let i2 = ws_at(b, cur);
            if i2 < b.len() && b[i2] == 93 {
                proof {
                    assert(items_s(b@, cur as int) == Ok::<(Seq<JsonModel>, int), JErr>((
                        Seq::empty(),
                        i2 as int + 1,
                    )));
                    assert(json_views_of_seq(elems@) + Seq::<JsonModel>::empty()
                        =~= json_views_of_seq(elems@));
                }
                return Ok((Value::Array(elems), i2 + 1));
            }
            match parse_value_at(b, cur) {
                Err(e) => {
                    return Err(e);
                },
                Ok((v, j)) => {
                    let i3 = ws_at(b, j);
                    if i3 < b.len() && b[i3] == 44 {
                        let ghost elems0 = elems@;
                        elems.push(v);
                        proof {
                            assert(elems@.drop_last() =~= elems0);
                            assert(json_views_of_seq(elems@)
                                == json_views_of_seq(elems0).push(v@));
                            match items_s(b@, i3 as int + 1) {
                                Ok(p) => {
                                    assert(json_views_of_seq(elems0) + (seq![v@] + p.0)
                                        =~= json_views_of_seq(elems@) + p.0);
                                },
                                Err(_) => {},
                            }
                        }
                        cur = i3 + 1;
                    } else if i3 < b.len() && b[i3] == 93 {
                        let ghost elems0 = elems@;
                        elems.push(v);
                        proof {
                            assert(elems@.drop_last() =~= elems0);
                            assert(json_views_of_seq(elems@)
                                == json_views_of_seq(elems0).push(v@));
                            assert(items_s(b@, cur as int) == Ok::<(Seq<JsonModel>, int), JErr>((
                                seq![v@],
                                i3 as int + 1,
                            )));
                            assert(json_views_of_seq(elems0) + seq![v@]
                                =~= json_views_of_seq(elems@));
                        }
                        return Ok((Value::Array(elems), i3 + 1));
                    } else {
                        return Err(JErr::BadArray);
                    }
                },
            }
        }
    } else if c == 123 {
        let ghost entry = i1 as int + 1;
        let mut fields: Vec<(String, Value)> = Vec::new();
        let ghost parsed: Seq<(Seq<char>, JsonModel)> = Seq::empty();
        let mut cur: usize = i1 + 1;
        proof {
            assert(json_views_of_fields(fields@) =~= Seq::<(Seq<char>, JsonModel)>::empty());
        }
        loop
            invariant
                entry <= cur <= b@.len(),
                i < cur,
                json_views_of_fields(fields@) == insert_all(Seq::empty(), parsed),
                object_items_s(b@, entry) == match object_items_s(b@, cur as int) {
                    Ok(p) => Ok::<(Seq<(Seq<char>, JsonModel)>, int), JErr>((parsed + p.0, p.1)),
                    Err(e) => Err::<(Seq<(Seq<char>, JsonModel)>, int), JErr>(e),
                },
            decreases b@.len() - cur,
        {
            let i2 = ws_at(b, cur);
            if i2 < b.len() && b[i2] == 125 {
                proof {
                    assert(object_items_s(b@, cur as int)
                        == Ok::<(Seq<(Seq<char>, JsonModel)>, int), JErr>((
                        Seq::empty(),
                        i2 as int + 1,
                    )));
                    assert(parsed + Seq::<(Seq<char>, JsonModel)>::empty() =~= parsed);
                }
                return Ok((Value::Object(fields), i2 + 1));
            }
            if i2 >= b.len() {
                return Err(JErr::UntermString);
            }
            let key = match parse_string_at(b, i2 + 1) {
                Ok(p) => p,
                Err(e) => {
                    return Err(e);
                },
            };
            let i3 = ws_at(b, key.1);
            if i3 >= b.len() || b[i3] != 58 {
                return Err(JErr::BadObject);
            }
            match parse_value_at(b, i3 + 1) {
                Err(e) => {
                    return Err(e);
                },
                Ok((v, j2)) => {
                    let i4 = ws_at(b, j2);
                    if i4 < b.len() && b[i4] == 44 {
                        let ghost kv = (key.0@, v@);
                        proof {
                            lemma_insert_all_snoc(Seq::empty(), parsed, kv);
                        }
                        object_insert(&mut fields, key.0, v);
                        proof {
                            match object_items_s(b@, i4 as int + 1) {
                                Ok(p) => {
                                    assert(parsed + (seq![kv] + p.0)
                                        =~= parsed.push(kv) + p.0);
                                },
                                Err(_) => {},
                            }
                        }
                        proof {
                            parsed = parsed.push(kv);
                        }
                        cur = i4 + 1;
                    } else if i4 < b.len() && b[i4] == 125 {
                        let ghost kv = (key.0@, v@);
                        proof {
                            lemma_insert_all_snoc(Seq::empty(), parsed, kv);
                            assert(object_items_s(b@, cur as int)
                                == Ok::<(Seq<(Seq<char>, JsonModel)>, int), JErr>((
                                seq![kv],
                                i4 as int + 1,
                            )));
                            assert(parsed + seq![kv] =~= parsed.push(kv));
                        }
                        object_insert(&mut fields, key.0, v);
                        return Ok((Value::Object(fields), i4 + 1));
                    } else {
                        return Err(JErr::BadObject);
                    }
                },
            }
        }
    } else if c == 45 || (48 <= c && c <= 57) {
        match parse_number_at(b, i1) {
            Ok((v, j)) => Ok((v, j)),
            Err(e) => Err(e),
        }
    } else {
        Err(JErr::BadValue)
    }
}

/// Parses a JSON document from its text.
pub fn from_str(input: &str) -> (r: Result<Value, Error>)
    ensures
        match json_from_bytes(vstd::utf8::encode_utf8(input@)) {
            Ok(m) => r matches Ok(v) && v@ == m,
            Err(e) => r matches Err(er) && er@ == jerr_text(e),
        },
{
    let b = input.as_bytes_vec();
    match parse_value_at(&b, 0) {
        Err(e) => Err(Error(jerr_message(e))),
        Ok((v, j)) => {
            let k = ws_at(&b, j);
            if k != b.len() {
                Err(Error(jerr_message(JErr::Trailing)))
            } else {
                Ok(v)
            }
        },
    }
}

/// Parses a JSON document from UTF-8 bytes.
#[verifier::rlimit(50)]
pub fn from_slice(input: &Vec<u8>) -> (r: Result<Value, Error>)
    ensures
        !vstd::utf8::valid_utf8(input@) ==> (r matches Err(er) && er@ == jerr_text(JErr::Utf8)),
        vstd::utf8::valid_utf8(input@) ==> match json_from_bytes(input@) {
            Ok(m) => r matches Ok(v) && v@ == m,
            Err(e) => r matches Err(er) && er@ == jerr_text(e),
        },
{
    let mut copy: Vec<u8> = Vec::new();
    let mut i: usize = 0;
    while i < input.len()
        invariant
            i <= input@.len(),
            copy@ == input@.subrange(0, i as int),
        decreases input@.len() - i,
    {
        copy.push(input[i]);
        i = i + 1;
        proof {
            assert(copy@ =~= input@.subrange(0, i as int));
        }
    }
    proof {
        assert(input@.subrange(0, input@.len() as int) =~= input@);
    }
    match crate::text::bytes_to_string(copy) {
        None => Err(Error(jerr_message(JErr::Utf8))),
        Some(s) => from_str(s.as_str()),
    }
}

/// Serializes a JSON value to its text.
pub fn to_string(value: &Value) -> (r: Result<String, Error>)
    ensures
        r is Ok,
        r.unwrap()@ == json_text(value@),
{
    let mut out: Vec<char> = Vec::new();
    write_json(value, &mut out);
    proof {
        assert(Seq::<char>::empty() + json_text(value@) =~= json_text(value@));
    }
    Ok(string_of(&out))
}

/// Serializes a JSON value to the UTF-8 bytes of its text.
pub fn to_vec(value: &Value) -> (r: Result<Vec<u8>, Error>)
    ensures
        r is Ok,
        r.unwrap()@ == vstd::utf8::encode_utf8(json_text(value@)),
{
    match to_string(value) {
        Ok(s) => Ok(s.as_str().as_bytes_vec()),
        Err(e) => Err(e),
    }
}

/// The JSON object invariant: every object, at every depth, keeps its
/// fields strictly sorted by key, so serialization order is deterministic.
pub open spec fn json_wf(j: JsonModel) -> bool
    decreases j,
{
    match j {
        JsonModel::Array(items) => forall|i: int|
            0 <= i < items.len() ==> json_wf(#[trigger] items[i]),
        JsonModel::Object(fields) => fields_sorted(fields) && forall|i: int|
            0 <= i < fields.len() ==> json_wf(#[trigger] fields[i].1),
        _ => true,
    }
}

/// Inserting a field keeps an object's keys strictly sorted, and adds nothing
/// but the inserted field: an object built by inserts is well formed.
pub proof fn lemma_object_insert_sorted(
    fields: Seq<(Seq<char>, JsonModel)>,
    key: Seq<char>,
    val: JsonModel,
)
    requires
        fields_sorted(fields),
    ensures
        fields_sorted(object_insert_model(fields, key, val)),
        forall|j: int|
            0 <= j < object_insert_model(fields, key, val).len()
                ==> object_insert_model(fields, key, val)[j] == (key, val) || fields.contains(
                object_insert_model(fields, key, val)[j],
            ),
    decreases fields.len(),
{
    let r = object_insert_model(fields, key, val);
    if fields.len() == 0 {
        assert(r == seq![(key, val)]);
        assert(r[0] == (key, val));
    } else {
        match lex_cmp(key, fields[0].0) {
            Ord3::Lt => {
                assert(r == seq![(key, val)] + fields);
                assert forall|i: int, j: int| 0 <= i < j < r.len() implies lex_cmp(
                    #[trigger] r[i].0,
                    #[trigger] r[j].0,
                ) == Ord3::Lt by {
                    if i == 0 {
                        assert(r[j] == fields[j - 1]);
                        if j > 1 {
                            lemma_lex_lt_trans(key, fields[0].0, fields[j - 1].0);
                        }
                    } else {
                        assert(r[i] == fields[i - 1] && r[j] == fields[j - 1]);
                    }
                }
                assert forall|j: int| 0 <= j < r.len() implies r[j] == (key, val)
                    || fields.contains(r[j]) by {
                    if j > 0 {
                        assert(r[j] == fields[j - 1]);
                    }
                }
            },
            Ord3::Eq => {
                lemma_lex_cmp_eq(key, fields[0].0);
                assert(r == seq![(key, val)] + fields.drop_first());
                assert forall|i: int, j: int| 0 <= i < j < r.len() implies lex_cmp(
                    #[trigger] r[i].0,
                    #[trigger] r[j].0,
                ) == Ord3::Lt by {
                    if i == 0 {
                        assert(r[j] == fields.drop_first()[j - 1]);
                        assert(fields.drop_first()[j - 1] == fields[j]);
                    } else {
                        assert(r[i] == fields[i] && r[j] == fields[j]);
                    }
                }
                assert forall|j: int| 0 <= j < r.len() implies r[j] == (key, val)
                    || fields.contains(r[j]) by {
                    if j > 0 {
                        assert(r[j] == fields[j]);
                    }
                }
            },
            Ord3::Gt => {
                let rest = fields.drop_first();
                assert(fields_sorted(rest)) by {
                    assert(forall|i: int|
                        0 <= i < rest.len() ==> #[trigger] rest[i] == fields[i + 1]);
                }
                lemma_object_insert_sorted(rest, key, val);
                let r2 = object_insert_model(rest, key, val);
                assert(r == seq![fields[0]] + r2);
                lemma_lex_cmp_antisym(key, fields[0].0);
                assert(lex_cmp(fields[0].0, key) == Ord3::Lt);
                assert forall|i: int, j: int| 0 <= i < j < r.len() implies lex_cmp(
                    #[trigger] r[i].0,
                    #[trigger] r[j].0,
                ) == Ord3::Lt by {
                    if i == 0 {
                        assert(r[j] == r2[j - 1]);
                        if r2[j - 1] == (key, val) {
                        } else {
                            assert(rest.contains(r2[j - 1]));
                            let w = choose|w: int| 0 <= w < rest.len() && rest[w] == r2[j - 1];
                            assert(rest[w] == fields[w + 1]);
                            assert(lex_cmp(fields[0].0, fields[w + 1].0) == Ord3::Lt);
                        }
                    } else {
                        assert(r[i] == r2[i - 1] && r[j] == r2[j - 1]);
                    }
                }
                assert forall|j: int| 0 <= j < r.len() implies r[j] == (key, val)
                    || fields.contains(r[j]) by {
                    if j == 0 {
                        assert(r[0] == fields[0]);
                        assert(fields.contains(fields[0]));
                    } else {
                        assert(r[j] == r2[j - 1]);
                        if r2[j - 1] != (key, val) {
                            assert(rest.contains(r2[j - 1]));
                            let w = choose|w: int| 0 <= w < rest.len() && rest[w] == r2[j - 1];
                            assert(rest[w] == fields[w + 1]);
                            assert(fields.contains(fields[w + 1]));
                        }
                    }
                }
            },
        }
    }
}

/// Folding parsed fields into an object by insert keeps the keys strictly
/// sorted, and every resulting field comes from the accumulator or the parsed
/// pairs: an object the parser builds is sorted and holds only parsed fields.
pub proof fn lemma_insert_all_sorted(
    acc: Seq<(Seq<char>, JsonModel)>,
    pairs: Seq<(Seq<char>, JsonModel)>,
)
    requires
        fields_sorted(acc),
    ensures
        fields_sorted(insert_all(acc, pairs)),
        forall|j: int|
            0 <= j < insert_all(acc, pairs).len() ==> acc.contains(
                #[trigger] insert_all(acc, pairs)[j],
            ) || pairs.contains(insert_all(acc, pairs)[j]),
    decreases pairs.len(),
{
    if pairs.len() > 0 {
        lemma_object_insert_sorted(acc, pairs[0].0, pairs[0].1);
        let acc2 = object_insert_model(acc, pairs[0].0, pairs[0].1);
        let rest = pairs.drop_first();
        lemma_insert_all_sorted(acc2, rest);
        let r = insert_all(acc, pairs);
        assert(r == insert_all(acc2, rest));
        assert forall|j: int| 0 <= j < r.len() implies acc.contains(#[trigger] r[j])
            || pairs.contains(r[j]) by {
            if acc2.contains(r[j]) {
                let w = choose|w: int| 0 <= w < acc2.len() && acc2[w] == r[j];
                if acc2[w] == (pairs[0].0, pairs[0].1) {
                    assert(pairs[0] == (pairs[0].0, pairs[0].1));
                    assert(pairs.contains(pairs[0]));
                } else {
                    assert(acc.contains(acc2[w]));
                }
            } else {
                assert(rest.contains(r[j]));
                let w = choose|w: int| 0 <= w < rest.len() && rest[w] == r[j];
                assert(rest[w] == pairs[w + 1]);
                assert(pairs.contains(pairs[w + 1]));
            }
        }
    }
}

/// Every successfully parsed value is well formed: its objects are sorted at
/// every depth.
pub proof fn lemma_value_s_wf(b: Seq<u8>, i: int)
    ensures
        value_s(b, i) matches Ok(p) ==> json_wf(p.0),
    decreases b.len() - i, 0int,
{
    let i1 = ws_s(b, i);
    if i1 < i || i1 >= b.len() {
    } else {
        let c = b[i1];
        if c == 34 {
            lemma_string_s_wf(b, i1 + 1);
        } else if c == 91 {
            lemma_items_s_wf(b, i1 + 1);
            match items_s(b, i1 + 1) {
                Ok((elems, _)) => {
                    assert(json_wf(JsonModel::Array(elems)));
                },
                Err(_) => {},
            }
        } else if c == 123 {
            lemma_object_items_s_wf(b, i1 + 1);
            match object_items_s(b, i1 + 1) {
                Ok((pairs, _)) => {
                    lemma_insert_all_sorted(Seq::empty(), pairs);
                    let fields = insert_all(Seq::empty(), pairs);
                    assert forall|j: int| 0 <= j < fields.len() implies json_wf(
                        #[trigger] fields[j].1,
                    ) by {
                        assert(pairs.contains(fields[j]));
                        let w = choose|w: int| 0 <= w < pairs.len() && pairs[w] == fields[j];
                        assert(json_wf(pairs[w].1));
                    }
                    assert(json_wf(JsonModel::Object(fields)));
                },
                Err(_) => {},
            }
        }
    }
}

/// Every string a parse yields is a well-formed value.
proof fn lemma_string_s_wf(b: Seq<u8>, i: int)
    ensures
        string_s(b, i) matches Ok(p) ==> json_wf(JsonModel::String(p.0)),
{
}

/// Every element of a parsed array is well formed.
proof fn lemma_items_s_wf(b: Seq<u8>, i: int)
    ensures
        items_s(b, i) matches Ok(p) ==> forall|k: int|
            0 <= k < p.0.len() ==> json_wf(#[trigger] p.0[k]),
    decreases b.len() - i, 1int,
{
    let i1 = ws_s(b, i);
    if i1 < i || i1 > b.len() {
    } else if i1 < b.len() && b[i1] == 93 {
    } else {
        lemma_value_s_wf(b, i);
        match value_s(b, i) {
            Err(_) => {},
            Ok((v, j)) => {
                if j <= i || j > b.len() {
                } else {
                    let i2 = ws_s(b, j);
                    if i2 < j || i2 > b.len() {
                    } else if i2 < b.len() && b[i2] == 44 {
                        lemma_items_s_wf(b, i2 + 1);
                        match items_s(b, i2 + 1) {
                            Ok((rest, _)) => {
                                assert forall|k: int| 0 <= k < (seq![v] + rest).len() implies
                                    json_wf(#[trigger] (seq![v] + rest)[k]) by {
                                    if k > 0 {
                                        assert((seq![v] + rest)[k] == rest[k - 1]);
                                    }
                                }
                            },
                            Err(_) => {},
                        }
                    }
                }
            },
        }
    }
}

/// Every field value of a parsed object is well formed.
proof fn lemma_object_items_s_wf(b: Seq<u8>, i: int)
    ensures
        object_items_s(b, i) matches Ok(p) ==> forall|k: int|
            0 <= k < p.0.len() ==> json_wf(#[trigger] p.0[k].1),
    decreases b.len() - i, 1int,
{
    let i1 = ws_s(b, i);
    if i1 < i || i1 > b.len() {
    } else if i1 < b.len() && b[i1] == 125 {
    } else if i1 >= b.len() {
    } else {
        match string_s(b, i1 + 1) {
            Err(_) => {},
            Ok((key, j)) => {
                if j <= i || j > b.len() {
                } else {
                    let i2 = ws_s(b, j);
                    if i2 < j || i2 >= b.len() || b[i2] != 58 {
                    } else {
                        lemma_value_s_wf(b, i2 + 1);
                        match value_s(b, i2 + 1) {
                            Err(_) => {},
                            Ok((v, j2)) => {
                                if j2 <= i || j2 > b.len() {
                                } else {
                                    let i3 = ws_s(b, j2);
                                    if i3 < j2 || i3 > b.len() {
                                    } else if i3 < b.len() && b[i3] == 44 {
                                        lemma_object_items_s_wf(b, i3 + 1);
                                        match object_items_s(b, i3 + 1) {
                                            Ok((rest, _)) => {
                                                assert forall|k: int|
                                                    0 <= k < (seq![(key, v)] + rest).len()
                                                    implies json_wf(
                                                    #[trigger] (seq![(key, v)] + rest)[k].1,
                                                ) by {
                                                    if k > 0 {
                                                        assert((seq![(key, v)] + rest)[k]
                                                            == rest[k - 1]);
                                                    }
                                                }
                                            },
                                            Err(_) => {},
                                        }
                                    }
                                }
                            },
                        }
                    }
                }
            },
        }
    }
}

/// Every successfully parsed document is well formed, so every value the
/// source and the json codec read in keeps its objects sorted at every depth.
pub proof fn lemma_json_from_bytes_wf(b: Seq<u8>)
    ensures
        json_from_bytes(b) matches Ok(j) ==> json_wf(j),
{
    lemma_value_s_wf(b, 0);
}

} // verus!
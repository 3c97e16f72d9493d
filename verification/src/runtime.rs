//! The stream engine and program driver: streams, outputs, in-process
//! key-value stores, stage application, and the statement loop.

use vstd::prelude::*;
use crate::json::{self, JsonModel};
use crate::text::{str_eq, Ord3};
use crate::value::{
    lemma_views_of_fields, lemma_views_of_seq, record_insert, record_insert_model, record_get,
    record_get_model, value_eq, views_of_fields, views_of_seq, Value, ValueModel,
};
use crate::stage::{
    assoc_append, assoc_get, row_views, stage_flat_s, KvModel, LogsModel, RankRow, RankRowModel,
    RowsModel, SortKey, SortOrder, lemma_row_views, Codec,
};
use crate::ast::{arg_views, CallArg, CallArgModel, Expr, ExprModel, StmtModel};
use crate::eval::callee_name_s;
use crate::stage::{Direction, Stage};
use crate::eval::eval_value_expr;

verus! {

/// A finite ordered stream of values.
#[derive(Debug)]
pub struct Stream {
    pub values: Vec<Value>,
}

impl View for Stream {
    type V = Seq<ValueModel>;

    open spec fn view(&self) -> Seq<ValueModel> {
        views_of_seq(self.values@)
    }
}

impl Stream {
    /// A stream over the given values.
    pub fn new(values: Vec<Value>) -> (r: Self)
        ensures
            r@ == views_of_seq(values@),
    {
        Stream { values }
    }
}

/// The models of a vector of JSON rows.
pub open spec fn json_rows_views(s: Seq<json::Value>) -> Seq<JsonModel> {
    crate::json::json_views_of_seq(s)
}

/// Named tables of JSON rows, also used for the fixture sets.
#[derive(Debug)]
pub struct Table {
    pub entries: Vec<(String, Vec<json::Value>)>,
}

/// The models of a table's entries.
pub open spec fn table_views(s: Seq<(String, Vec<json::Value>)>) -> RowsModel
    decreases s,
{
    if s.len() == 0 {
        Seq::empty()
    } else {
        table_views(s.drop_last()).push((s.last().0@, json_rows_views(s.last().1@)))
    }
}

pub broadcast proof fn lemma_table_views(s: Seq<(String, Vec<json::Value>)>)
    ensures
        (#[trigger] table_views(s)).len() == s.len(),
        forall|i: int|
            0 <= i < s.len() ==> table_views(s)[i] == (s[i].0@, json_rows_views(s[i].1@)),
    decreases s.len(),
{
    if s.len() > 0 {
        lemma_table_views(s.drop_last());
        assert(table_views(s) == table_views(s.drop_last()).push(
            (s.last().0@, json_rows_views(s.last().1@)),
        ));
        assert forall|i: int|
            0 <= i < s.len() implies table_views(s)[i] == (s[i].0@, json_rows_views(
                s[i].1@,
            )) by {
            if i < s.len() - 1 {
                assert(table_views(s)[i] == table_views(s.drop_last())[i]);
                assert(s.drop_last()[i] == s[i]);
            } else {
                assert(table_views(s)[i] == (s.last().0@, json_rows_views(s.last().1@)));
            }
        }
    }
}

impl View for Table {
    type V = RowsModel;

    open spec fn view(&self) -> RowsModel {
        table_views(self.entries@)
    }
}

impl Table {
    /// An empty table set.
    pub fn new() -> (r: Self)
        ensures
            r@ == Seq::<(Seq<char>, Seq<JsonModel>)>::empty(),
    {
        let t = Table { entries: Vec::new() };
        proof {
            assert(t@ =~= Seq::<(Seq<char>, Seq<JsonModel>)>::empty());
        }
        t
    }

    /// The rows under a name.
    pub fn get(&self, name: &str) -> (r: Option<&Vec<json::Value>>)
        ensures
            match r {
                Some(rows) => assoc_get(self@, name@) == Some(json_rows_views(rows@)),
                None => assoc_get(self@, name@) is None,
            },
    {
        broadcast use lemma_table_views;
        let ghost m = self@;
        let mut i: usize = 0;
        proof {
            assert(m.skip(0) =~= m);
        }
        while i < self.entries.len()
            invariant
                m == self@,
                i <= self.entries@.len(),
                assoc_get(m, name@) == assoc_get(m.skip(i as int), name@),
            decreases self.entries@.len() - i,
        {
            proof {
                lemma_table_views(self.entries@);
                assert(m.len() == self.entries@.len());
                assert(m.skip(i as int)[0] == m[i as int]);
                assert(m.skip(i as int).drop_first() =~= m.skip(i as int + 1));
            }
            if str_eq(self.entries[i].0.as_str(), name) {
                return Some(&self.entries[i].1);
            }
            i = i + 1;
        }
        proof {
            assert(m.skip(i as int).len() == 0);
        }
        None
    }

    /// Appends rows under a name, creating the entry at the end when absent.
    pub fn append(&mut self, name: String, rows: Vec<json::Value>)
        ensures
            final(self)@ == assoc_append(old(self)@, name@, json_rows_views(rows@)),
    {
        broadcast use lemma_table_views;
        let ghost m = old(self)@;
        let ghost addm = json_rows_views(rows@);
        let mut i: usize = 0;
        proof {
            assert(m.skip(0) =~= m);
            assert(m.subrange(0, 0) + assoc_append(m.skip(0), name@, addm)
                =~= assoc_append(m, name@, addm));
        }
        while i < self.entries.len()
            invariant
                self.entries@ == old(self).entries@,
                m == self@,
                addm == json_rows_views(rows@),
                i <= self.entries@.len(),
                assoc_append(m, name@, addm) == m.subrange(0, i as int) + assoc_append(
                    m.skip(i as int),
                    name@,
                    addm,
                ),
                forall|j: int| 0 <= j < i ==> m[j].0 != name@,
            decreases self.entries@.len() - i,
        {
            proof {
                lemma_table_views(self.entries@);
                assert(m.len() == self.entries@.len());
                assert(m.skip(i as int)[0] == m[i as int]);
                assert(m.skip(i as int).drop_first() =~= m.skip(i as int + 1));
            }
            if str_eq(self.entries[i].0.as_str(), name.as_str()) {
                let ghost pre = self.entries@;
                let mut entry = self.entries.remove(i);
                let ghost entry_rows = json_rows_views(entry.1@);
                proof {
                    lemma_table_views(pre);
                    assert(m[i as int] == (pre[i as int].0@, json_rows_views(pre[i as int].1@)));
                }
                let mut k: usize = 0;
                let ghost rowsm = rows@;
                let mut radd = rows;
                while k < radd.len()
                    invariant
                        k <= radd@.len(),
                        radd@ == rowsm,
                        i < m.len(),
                        addm == json_rows_views(rowsm),
                        entry.0@ == m[i as int].0,
                        entry_rows == m[i as int].1,
                        json_rows_views(entry.1@) == entry_rows + json_rows_views(
                            rowsm.subrange(0, k as int),
                        ),
                    decreases radd@.len() - k,
                {
                    proof {
                        crate::json::lemma_json_views_of_seq(rowsm);
                        crate::json::lemma_json_views_of_seq(rowsm.subrange(0, k as int));
                    }
                    let ghost e0 = entry.1@;
                    let item = radd[k].clone();
                    let ghost im = item@;
                    entry.1.push(item);
                    proof {
                        crate::json::lemma_json_views_of_seq(e0);
                        crate::json::lemma_json_views_of_seq(entry.1@);
                        assert(entry.1@.drop_last() =~= e0);
                        assert(json_rows_views(entry.1@) == json_rows_views(e0).push(im));
                        assert(im == rowsm[k as int]@);
                        assert(rowsm.subrange(0, k as int + 1) =~= rowsm.subrange(
                            0,
                            k as int,
                        ).push(rowsm[k as int]));
                        crate::json::lemma_json_views_of_seq(rowsm.subrange(0, k as int + 1));
                        assert(json_rows_views(rowsm.subrange(0, k as int + 1))
                            =~= json_rows_views(rowsm.subrange(0, k as int)).push(im)) by {
                            crate::json::lemma_json_views_of_seq(rowsm.subrange(0, k as int));
                        }
                        assert(json_rows_views(entry.1@) =~= entry_rows + json_rows_views(
                            rowsm.subrange(0, k as int + 1),
                        ));
                    }
                    k = k + 1;
                }
                proof {
                    assert(rowsm.subrange(0, rowsm.len() as int) =~= rowsm);
                    crate::json::lemma_json_views_of_seq(rowsm);
                }
                let ghost entv = (entry.0@, json_rows_views(entry.1@));
                self.entries.insert(i, entry);
                proof {
                    lemma_table_views(self.entries@);
                    lemma_table_views(pre);
                    let fm = table_views(self.entries@);
                    assert(fm =~= m.subrange(0, i as int) + (seq![(m[i as int].0, m[i as int].1
                        + addm)] + m.skip(i as int).drop_first())) by {
                        assert forall|j: int| 0 <= j < fm.len() implies fm[j] == (m.subrange(
                            0,
                            i as int,
                        ) + (seq![(m[i as int].0, m[i as int].1 + addm)] + m.skip(
                            i as int,
                        ).drop_first()))[j] by {
                            assert(fm[j] == (self.entries@[j].0@, json_rows_views(
                                self.entries@[j].1@,
                            )));
                            if j < i {
                                assert(self.entries@[j] == pre[j]);
                                assert(m[j] == (pre[j].0@, json_rows_views(pre[j].1@)));
                            } else if j > i {
                                assert(self.entries@[j] == pre[j]);
                                assert(m[j] == (pre[j].0@, json_rows_views(pre[j].1@)));
                            } else {
                                assert((self.entries@[j].0@, json_rows_views(
                                    self.entries@[j].1@,
                                )) == entv);
                                assert(entv.0 == m[i as int].0 && entv.1 == m[i as int].1
                                    + addm);
                            }
                        }
                    }
                    assert(fm == assoc_append(m, name@, addm));
                }
                return;
            }
            i = i + 1;
        }
        proof {
            assert(m.skip(i as int).len() == 0);
        }
        self.entries.push((name, rows));
        proof {
            lemma_table_views(self.entries@);
            assert(table_views(self.entries@) =~= m.subrange(0, m.len() as int) + assoc_append(
                m.skip(m.len() as int),
                name@,
                addm,
            )) by {
                assert(self.entries@.drop_last() =~= old(self).entries@);
                assert(m.subrange(0, m.len() as int) =~= m);
            }
        }
    }
}

/// The models of a vector of log lines.
pub open spec fn log_rows_views(s: Seq<String>) -> Seq<Seq<char>> {
    Seq::new(s.len(), |i: int| s[i]@)
}

/// Named logs of serialized rows.
#[derive(Debug)]
pub struct LogTable {
    pub entries: Vec<(String, Vec<String>)>,
}

/// The models of a log table's entries.
pub open spec fn log_views(s: Seq<(String, Vec<String>)>) -> LogsModel
    decreases s,
{
    if s.len() == 0 {
        Seq::empty()
    } else {
        log_views(s.drop_last()).push((s.last().0@, log_rows_views(s.last().1@)))
    }
}

pub broadcast proof fn lemma_log_views(s: Seq<(String, Vec<String>)>)
    ensures
        (#[trigger] log_views(s)).len() == s.len(),
        forall|i: int|
            0 <= i < s.len() ==> log_views(s)[i] == (s[i].0@, log_rows_views(s[i].1@)),
    decreases s.len(),
{
    if s.len() > 0 {
        lemma_log_views(s.drop_last());
        assert(log_views(s) == log_views(s.drop_last()).push(
            (s.last().0@, log_rows_views(s.last().1@)),
        ));
        assert forall|i: int|
            0 <= i < s.len() implies log_views(s)[i] == (s[i].0@, log_rows_views(s[i].1@)) by {
            if i < s.len() - 1 {
                assert(log_views(s)[i] == log_views(s.drop_last())[i]);
                assert(s.drop_last()[i] == s[i]);
            } else {
                assert(log_views(s)[i] == (s.last().0@, log_rows_views(s.last().1@)));
            }
        }
    }
}

impl View for LogTable {
    type V = LogsModel;

    open spec fn view(&self) -> LogsModel {
        log_views(self.entries@)
    }
}

impl LogTable {
    /// An empty log set.
    pub fn new() -> (r: Self)
        ensures
            r@ == Seq::<(Seq<char>, Seq<Seq<char>>)>::empty(),
    {
        let t = LogTable { entries: Vec::new() };
        proof {
            assert(t@ =~= Seq::<(Seq<char>, Seq<Seq<char>>)>::empty());
        }
        t
    }

    /// The lines under a name.
    pub fn get(&self, name: &str) -> (r: Option<&Vec<String>>)
        ensures
            match r {
                Some(rows) => assoc_get(self@, name@) == Some(log_rows_views(rows@)),
                None => assoc_get(self@, name@) is None,
            },
    {
        broadcast use lemma_log_views;
        let ghost m = self@;
        let mut i: usize = 0;
        proof {
            assert(m.skip(0) =~= m);
        }
        while i < self.entries.len()
            invariant
                m == self@,
                i <= self.entries@.len(),
                assoc_get(m, name@) == assoc_get(m.skip(i as int), name@),
            decreases self.entries@.len() - i,
        {
            proof {
                lemma_log_views(self.entries@);
                assert(m.len() == self.entries@.len());
                assert(m.skip(i as int)[0] == m[i as int]);
                assert(m.skip(i as int).drop_first() =~= m.skip(i as int + 1));
            }
            if str_eq(self.entries[i].0.as_str(), name) {
                return Some(&self.entries[i].1);
            }
            i = i + 1;
        }
        proof {
            assert(m.skip(i as int).len() == 0);
        }
        None
    }

    /// Appends lines under a name, creating the entry at the end when absent.
    pub fn append(&mut self, name: String, rows: Vec<String>)
        ensures
            final(self)@ == assoc_append(old(self)@, name@, log_rows_views(rows@)),
    {
        broadcast use lemma_log_views;
        let ghost m = old(self)@;
        let ghost addm = log_rows_views(rows@);
        let mut i: usize = 0;
        proof {
            assert(m.skip(0) =~= m);
            assert(m.subrange(0, 0) + assoc_append(m.skip(0), name@, addm)
                =~= assoc_append(m, name@, addm));
        }
        while i < self.entries.len()
            invariant
                self.entries@ == old(self).entries@,
                m == self@,
                addm == log_rows_views(rows@),
                i <= self.entries@.len(),
                assoc_append(m, name@, addm) == m.subrange(0, i as int) + assoc_append(
                    m.skip(i as int),
                    name@,
                    addm,
                ),
            decreases self.entries@.len() - i,
        {
            proof {
                lemma_log_views(self.entries@);
                assert(m.len() == self.entries@.len());
                assert(m.skip(i as int)[0] == m[i as int]);
                assert(m.skip(i as int).drop_first() =~= m.skip(i as int + 1));
            }
            if str_eq(self.entries[i].0.as_str(), name.as_str()) {
                let ghost pre = self.entries@;
                let mut entry = self.entries.remove(i);
                let ghost entry_rows = log_rows_views(entry.1@);
                proof {
                    lemma_log_views(pre);
                    assert(m[i as int] == (pre[i as int].0@, log_rows_views(pre[i as int].1@)));
                }
                let mut k: usize = 0;
                let ghost rowsm = rows@;
                let mut radd = rows;
                while k < radd.len()
                    invariant
                        k <= radd@.len(),
                        radd@ == rowsm,
                        i < m.len(),
                        addm == log_rows_views(rowsm),
                        entry.0@ == m[i as int].0,
                        entry_rows == m[i as int].1,
                        log_rows_views(entry.1@) == entry_rows + log_rows_views(
                            rowsm.subrange(0, k as int),
                        ),
                    decreases radd@.len() - k,
                {
                    let ghost e0 = entry.1@;
                    let item = radd[k].clone();
                    let ghost im = item@;
                    entry.1.push(item);
                    proof {
                        assert(log_rows_views(entry.1@) =~= log_rows_views(e0).push(im));
                        assert(log_rows_views(rowsm.subrange(0, k as int + 1))
                            =~= log_rows_views(rowsm.subrange(0, k as int)).push(
                            rowsm[k as int]@,
                        ));
                        assert(log_rows_views(entry.1@) =~= entry_rows + log_rows_views(
                            rowsm.subrange(0, k as int + 1),
                        ));
                    }
                    k = k + 1;
                }
                proof {
                    assert(rowsm.subrange(0, rowsm.len() as int) =~= rowsm);
                    assert(log_rows_views(entry.1@) =~= entry_rows + addm);
                }
                let ghost entv = (entry.0@, log_rows_views(entry.1@));
                self.entries.insert(i, entry);
                proof {
                    lemma_log_views(self.entries@);
                    lemma_log_views(pre);
                    let fm = log_views(self.entries@);
                    assert(fm =~= m.subrange(0, i as int) + (seq![(m[i as int].0, m[i as int].1
                        + addm)] + m.skip(i as int).drop_first())) by {
                        assert forall|j: int| 0 <= j < fm.len() implies fm[j] == (m.subrange(
                            0,
                            i as int,
                        ) + (seq![(m[i as int].0, m[i as int].1 + addm)] + m.skip(
                            i as int,
                        ).drop_first()))[j] by {
                            assert(fm[j] == (self.entries@[j].0@, log_rows_views(
                                self.entries@[j].1@,
                            )));
                            if j < i {
                                assert(self.entries@[j] == pre[j]);
                                assert(m[j] == (pre[j].0@, log_rows_views(pre[j].1@)));
                            } else if j > i {
                                assert(self.entries@[j] == pre[j]);
                                assert(m[j] == (pre[j].0@, log_rows_views(pre[j].1@)));
                            } else {
                                assert((self.entries@[j].0@, log_rows_views(
                                    self.entries@[j].1@,
                                )) == entv);
                                assert(entv.0 == m[i as int].0 && entv.1 == m[i as int].1
                                    + addm);
                            }
                        }
                    }
                    assert(fm == assoc_append(m, name@, addm));
                }
                return;
            }
            i = i + 1;
        }
        proof {
            assert(m.skip(i as int).len() == 0);
        }
        self.entries.push((name, rows));
        proof {
            lemma_log_views(self.entries@);
            assert(log_views(self.entries@) =~= m.subrange(0, m.len() as int) + assoc_append(
                m.skip(m.len() as int),
                name@,
                addm,
            )) by {
                assert(self.entries@.drop_last() =~= old(self).entries@);
                assert(m.subrange(0, m.len() as int) =~= m);
            }
        }
    }
}

/// The three append-only output accumulators of one run.
#[derive(Debug)]
pub struct Outputs {
    pub tables: Table,
    pub logs: LogTable,
    pub explain: Vec<String>,
}

impl Outputs {
    /// Empty outputs.
    pub fn new() -> (r: Self)
        ensures
            r.tables@ == Seq::<(Seq<char>, Seq<JsonModel>)>::empty(),
            r.logs@ == Seq::<(Seq<char>, Seq<Seq<char>>)>::empty(),
            r.explain@.len() == 0,
    {
        Outputs { tables: Table::new(), logs: LogTable::new(), explain: Vec::new() }
    }
}

/// The in-memory key-value stores of one run.
#[derive(Debug)]
pub struct RuntimeState {
    pub kv_stores: Vec<(String, Vec<(String, Value)>)>,
}

/// The models of the key-value stores.
pub open spec fn kv_views(s: Seq<(String, Vec<(String, Value)>)>) -> KvModel
    decreases s,
{
    if s.len() == 0 {
        Seq::empty()
    } else {
        kv_views(s.drop_last()).push((s.last().0@, views_of_fields(s.last().1@)))
    }
}

pub broadcast proof fn lemma_kv_views(s: Seq<(String, Vec<(String, Value)>)>)
    ensures
        (#[trigger] kv_views(s)).len() == s.len(),
        forall|i: int|
            0 <= i < s.len() ==> kv_views(s)[i] == (s[i].0@, views_of_fields(s[i].1@)),
    decreases s.len(),
{
    if s.len() > 0 {
        lemma_kv_views(s.drop_last());
        assert(kv_views(s) == kv_views(s.drop_last()).push(
            (s.last().0@, views_of_fields(s.last().1@)),
        ));
        assert forall|i: int|
            0 <= i < s.len() implies kv_views(s)[i] == (s[i].0@, views_of_fields(s[i].1@)) by {
            if i < s.len() - 1 {
                assert(kv_views(s)[i] == kv_views(s.drop_last())[i]);
                assert(s.drop_last()[i] == s[i]);
            } else {
                assert(kv_views(s)[i] == (s.last().0@, views_of_fields(s.last().1@)));
            }
        }
    }
}

impl View for RuntimeState {
    type V = KvModel;

    open spec fn view(&self) -> KvModel {
        kv_views(self.kv_stores@)
    }
}

impl RuntimeState {
    /// Empty state.
    pub fn new() -> (r: Self)
        ensures
            r@ == Seq::<(Seq<char>, Seq<(Seq<char>, ValueModel)>)>::empty(),
    {
        let s = RuntimeState { kv_stores: Vec::new() };
        proof {
            assert(s@ =~= Seq::<(Seq<char>, Seq<(Seq<char>, ValueModel)>)>::empty());
        }
        s
    }
}

/// The concatenation of arrays the expression yields on each item.
#[verifier::loop_isolation(false)]
fn stage_flat_items(f: &Expr, items: &Vec<Value>) -> (r: Result<Vec<Value>, String>)
    ensures
        match r {
            Ok(vs) => stage_flat_s(f@, views_of_seq(items@)) == Ok::<Seq<ValueModel>, Seq<char>>(
                views_of_seq(vs@),
            ),
            Err(e) => stage_flat_s(f@, views_of_seq(items@)) == Err::<Seq<ValueModel>, Seq<char>>(
                e@,
            ),
        },
{
    broadcast use lemma_views_of_seq;
    let ghost all = views_of_seq(items@);
    let mut out: Vec<Value> = Vec::new();
    let mut i: usize = 0;
    proof {
        assert(all.skip(0) =~= all);
        assert(views_of_seq(out@) =~= Seq::<ValueModel>::empty());
    }
    while i < items.len()
        invariant
            i <= items@.len(),
            all == views_of_seq(items@),
            stage_flat_s(f@, all) == match stage_flat_s(f@, all.skip(i as int)) {
                Ok(rest) => Ok::<Seq<ValueModel>, Seq<char>>(views_of_seq(out@) + rest),
                Err(er) => Err::<Seq<ValueModel>, Seq<char>>(er),
            },
        decreases items@.len() - i,
    {
        proof {
            assert(all.skip(i as int)[0] == all[i as int]);
            assert(all.skip(i as int).drop_first() =~= all.skip(i as int + 1));
        }
        match eval_value_expr(f, Some(&items[i])) {
            Err(e) => {
                return Err(e);
            },
            Ok(v) => match v {
                Value::Array(vs) => {
                    let ghost out0 = out@;
                    let ghost vsm = views_of_seq(vs@);
                    let mut k: usize = 0;
                    let vs_len = vs.len();
                    let vs_own = vs;
                    while k < vs_len
                        invariant
                            k <= vs_len,
                            vs_len == vs_own@.len(),
                            vsm == views_of_seq(vs_own@),
                            out@.len() == out0.len() + k,
                            views_of_seq(out@) == views_of_seq(out0) + vsm.subrange(0, k as int),
                        decreases vs_len - k,
                    {
                        let ghost outp = out@;
                        let item = vs_own[k].clone();
                        let ghost im = item@;
                        out.push(item);
                        proof {
                            assert(out@.drop_last() =~= outp);
                            assert(im == vsm[k as int]);
                            assert(views_of_seq(out@) == views_of_seq(outp).push(im));
                            assert(views_of_seq(outp).push(im) =~= views_of_seq(out0)
                                + vsm.subrange(0, k as int + 1));
                        }
                        k = k + 1;
                    }
                    proof {
                        assert(vsm.subrange(0, vs_len as int) =~= vsm);
                        match stage_flat_s(f@, all.skip(i as int + 1)) {
                            Ok(rest) => {
                                assert(views_of_seq(out0) + (vsm + rest)
                                    =~= views_of_seq(out@) + rest);
                            },
                            Err(_) => {},
                        }
                    }
                },
                _ => {
                    return Err(String::from_str("flat_map expression must return Array"));
                },
            },
        }
        i = i + 1;
    }
    proof {
        assert(all.skip(items@.len() as int).len() == 0);
        assert(views_of_seq(out@) + Seq::<ValueModel>::empty() =~= views_of_seq(out@));
    }
    Ok(out)
}

/// The models of grouped values.
pub open spec fn group_views(s: Seq<(Value, Vec<Value>)>) -> Seq<(ValueModel, Seq<ValueModel>)>
    decreases s,
{
    if s.len() == 0 {
        Seq::empty()
    } else {
        group_views(s.drop_last()).push((s.last().0@, views_of_seq(s.last().1@)))
    }
}

pub broadcast proof fn lemma_group_views(s: Seq<(Value, Vec<Value>)>)
    ensures
        (#[trigger] group_views(s)).len() == s.len(),
        forall|i: int|
            0 <= i < s.len() ==> group_views(s)[i] == (s[i].0@, views_of_seq(s[i].1@)),
    decreases s.len(),
{
    if s.len() > 0 {
        lemma_group_views(s.drop_last());
        assert(group_views(s) == group_views(s.drop_last()).push(
            (s.last().0@, views_of_seq(s.last().1@)),
        ));
        assert forall|i: int|
            0 <= i < s.len() implies group_views(s)[i] == (s[i].0@, views_of_seq(s[i].1@)) by {
            if i < s.len() - 1 {
                assert(group_views(s)[i] == group_views(s.drop_last())[i]);
                assert(s.drop_last()[i] == s[i]);
            } else {
                assert(group_views(s)[i] == (s.last().0@, views_of_seq(s.last().1@)));
            }
        }
    }
}

/// Appends an item under its key, keys kept in first-seen order.
#[verifier::loop_isolation(false)]
fn push_group(gs: &mut Vec<(Value, Vec<Value>)>, key: Value, item: Value)
    ensures
        group_views(final(gs)@) == crate::stage::groups_add(
            group_views(old(gs)@),
            key@,
            item@,
        ),
{
    broadcast use lemma_group_views, lemma_views_of_seq;
    let ghost m = group_views(old(gs)@);
    let ghost km = key@;
    let ghost im = item@;
    let mut i: usize = 0;
    proof {
        assert(m.skip(0) =~= m);
        assert(m.subrange(0, 0) + crate::stage::groups_add(m.skip(0), km, im)
            =~= crate::stage::groups_add(m, km, im));
    }
    while i < gs.len()
        invariant
            gs@ == old(gs)@,
            m == group_views(gs@),
            km == key@,
            im == item@,
            i <= gs@.len(),
            crate::stage::groups_add(m, km, im) == m.subrange(0, i as int)
                + crate::stage::groups_add(m.skip(i as int), km, im),
        decreases gs@.len() - i,
    {
        proof {
            lemma_group_views(gs@);
            assert(m.len() == gs@.len());
            assert(m.skip(i as int)[0] == m[i as int]);
            assert(m.skip(i as int).drop_first() =~= m.skip(i as int + 1));
        }
        if value_eq(&gs[i].0, &key) {
            let ghost pre = gs@;
            let mut entry = gs.remove(i);
            proof {
                lemma_group_views(pre);
                assert(m[i as int] == (pre[i as int].0@, views_of_seq(pre[i as int].1@)));
            }
            let ghost e0 = views_of_seq(entry.1@);
            let ghost e1 = entry.1@;
            entry.1.push(item);
            proof {
                assert(entry.1@.drop_last() =~= e1);
                assert(views_of_seq(entry.1@) == e0.push(im));
            }
            let ghost entv = (entry.0@, views_of_seq(entry.1@));
            gs.insert(i, entry);
            proof {
                lemma_group_views(gs@);
                lemma_group_views(pre);
                let fm = group_views(gs@);
                assert(fm =~= m.subrange(0, i as int) + (seq![(m[i as int].0, m[i as int].1.push(
                    im,
                ))] + m.skip(i as int).drop_first())) by {
                    assert forall|j: int| 0 <= j < fm.len() implies fm[j] == (m.subrange(
                        0,
                        i as int,
                    ) + (seq![(m[i as int].0, m[i as int].1.push(im))] + m.skip(
                        i as int,
                    ).drop_first()))[j] by {
                        assert(fm[j] == (gs@[j].0@, views_of_seq(gs@[j].1@)));
                        if j < i {
                            assert(gs@[j] == pre[j]);
                            assert(m[j] == (pre[j].0@, views_of_seq(pre[j].1@)));
                        } else if j > i {
                            assert(gs@[j] == pre[j]);
                            assert(m[j] == (pre[j].0@, views_of_seq(pre[j].1@)));
                        } else {
                            assert((gs@[j].0@, views_of_seq(gs@[j].1@)) == entv);
                        }
                    }
                }
                assert(fm == crate::stage::groups_add(m, km, im));
            }
            return;
        }
        i = i + 1;
    }
    proof {
        assert(m.skip(i as int).len() == 0);
    }
    let mut single: Vec<Value> = Vec::new();
    single.push(item);
    proof {
        assert(views_of_seq(single@) =~= seq![im]);
    }
    gs.push((key, single));
    proof {
        lemma_group_views(gs@);
        assert(group_views(gs@) =~= m.subrange(0, m.len() as int) + crate::stage::groups_add(
            m.skip(m.len() as int),
            km,
            im,
        )) by {
            assert(gs@.drop_last() =~= old(gs)@);
            assert(m.subrange(0, m.len() as int) =~= m);
        }
    }
}

/// Groups the input by the key expression, as `group_fold_s` describes.
#[verifier::loop_isolation(false)]
fn run_group_fold(by: &Expr, input: &Vec<Value>, check: bool, msg: &str) -> (r: Result<
    Vec<(Value, Vec<Value>)>,
    String,
>)
    ensures
        match r {
            Ok(gs) => crate::stage::group_fold_s(by@, views_of_seq(input@), Seq::empty(), check,
                msg@) == Ok::<Seq<(ValueModel, Seq<ValueModel>)>, Seq<char>>(group_views(gs@)),
            Err(e) => crate::stage::group_fold_s(by@, views_of_seq(input@), Seq::empty(), check,
                msg@) == Err::<Seq<(ValueModel, Seq<ValueModel>)>, Seq<char>>(e@),
        },
{
    broadcast use lemma_group_views, lemma_views_of_seq;
    let ghost all = views_of_seq(input@);
    let mut gs: Vec<(Value, Vec<Value>)> = Vec::new();
    let mut i: usize = 0;
    proof {
        assert(all.skip(0) =~= all);
        assert(group_views(gs@) =~= Seq::<(ValueModel, Seq<ValueModel>)>::empty());
    }
    while i < input.len()
        invariant
            i <= input@.len(),
            all == views_of_seq(input@),
            crate::stage::group_fold_s(by@, all, Seq::empty(), check, msg@)
                == crate::stage::group_fold_s(by@, all.skip(i as int), group_views(gs@), check,
                msg@),
        decreases input@.len() - i,
    {
        proof {
            assert(all.skip(i as int)[0] == all[i as int]);
            assert(all.skip(i as int).drop_first() =~= all.skip(i as int + 1));
        }
        match eval_value_expr(by, Some(&input[i])) {
            Err(e) => {
                return Err(e);
            },
            Ok(key) => {
                if check {
                    let ok = match &key {
                        Value::I64(_) => true,
                        Value::String(_) => true,
                        _ => false,
                    };
                    if !ok {
                        return Err(String::from_str(msg));
                    }
                }
                let item = input[i].clone();
                push_group(&mut gs, key, item);
            },
        }
        i = i + 1;
    }
    proof {
        assert(all.skip(input@.len() as int).len() == 0);
    }
    Ok(gs)
}

/// One `{ key, items }` record per group, items truncated to the limit.
#[verifier::loop_isolation(false)]
fn collect_out(gs: Vec<(Value, Vec<Value>)>, limit: i64) -> (r: Vec<Value>)
    requires
        limit >= 0,
    ensures
        views_of_seq(r@) == crate::stage::collect_out_s(group_views(gs@), limit as int),
{
    broadcast use lemma_group_views, lemma_views_of_seq, lemma_views_of_fields;
    let ghost gm = group_views(gs@);
    let mut out: Vec<Value> = Vec::new();
    let mut rest = gs;
    let mut i: usize = 0;
    let n = rest.len();
    while i < n
        invariant
            i <= n,
            rest@.len() == n - i,
            gm.len() == n,
            forall|j: int|
                0 <= j < rest@.len() ==> (#[trigger] rest@[j].0)@ == gm[j + i].0
                    && views_of_seq(rest@[j].1@) == gm[j + i].1,
            out@.len() == i,
            forall|j: int|
                0 <= j < i ==> views_of_seq(out@)[j] == crate::stage::collect_out_s(gm,
                    limit as int)[j],
        decreases n - i,
    {
        let (key, mut items) = rest.remove(0);
        proof {
            assert(key@ == gm[i as int].0);
            assert(views_of_seq(items@) == gm[i as int].1);
        }
        let ghost itm = views_of_seq(items@);
        let keep: usize = if (items.len() as u64) <= (limit as u64) {
            items.len()
        } else {
            limit as usize
        };
        items.truncate(keep);
        proof {
            assert(views_of_seq(items@) =~= itm.take(if itm.len() <= limit as int {
                itm.len() as int
            } else {
                limit as int
            })) by {
                lemma_views_of_seq(items@);
            }
        }
        let mut rec: Vec<(String, Value)> = Vec::new();
        proof {
            assert(views_of_fields(rec@) =~= Seq::<(Seq<char>, ValueModel)>::empty());
        }
        record_insert(&mut rec, String::from_str("items"), Value::Array(items));
        record_insert(&mut rec, String::from_str("key"), key);
        let ghost out0 = out@;
        out.push(Value::Record(rec));
        proof {
            assert(out@.drop_last() =~= out0);
            assert(views_of_seq(out@) == views_of_seq(out0).push(out@.last()@));
            assert(views_of_seq(out@)[i as int] == crate::stage::collect_out_s(gm,
                limit as int)[i as int]);
        }
        i = i + 1;
    }
    proof {
        assert(views_of_seq(out@) =~= crate::stage::collect_out_s(gm, limit as int));
    }
    out
}

/// One `{ key, count }` record per group.
#[verifier::loop_isolation(false)]
fn count_out(gs: Vec<(Value, Vec<Value>)>) -> (r: Vec<Value>)
    ensures
        views_of_seq(r@) == crate::stage::count_out_s(group_views(gs@)),
{
    broadcast use lemma_group_views, lemma_views_of_seq, lemma_views_of_fields;
    let ghost gm = group_views(gs@);
    let mut out: Vec<Value> = Vec::new();
    let mut rest = gs;
    let mut i: usize = 0;
    let n = rest.len();
    while i < n
        invariant
            i <= n,
            rest@.len() == n - i,
            gm.len() == n,
            forall|j: int|
                0 <= j < rest@.len() ==> (#[trigger] rest@[j].0)@ == gm[j + i].0
                    && views_of_seq(rest@[j].1@) == gm[j + i].1,
            out@.len() == i,
            forall|j: int|
                0 <= j < i ==> views_of_seq(out@)[j] == crate::stage::count_out_s(gm)[j],
        decreases n - i,
    {
        let (key, items) = rest.remove(0);
        proof {
            assert(key@ == gm[i as int].0);
            assert(views_of_seq(items@) == gm[i as int].1);
            lemma_views_of_seq(items@);
        }
        #[verifier::truncate]
        let count: i64 = items.len() as i64;
        let mut rec: Vec<(String, Value)> = Vec::new();
        proof {
            assert(views_of_fields(rec@) =~= Seq::<(Seq<char>, ValueModel)>::empty());
        }
        record_insert(&mut rec, String::from_str("count"), Value::I64(count));
        record_insert(&mut rec, String::from_str("key"), key);
        let ghost out0 = out@;
        out.push(Value::Record(rec));
        proof {
            assert(out@.drop_last() =~= out0);
            assert(views_of_seq(out@) == views_of_seq(out0).push(out@.last()@));
            assert(views_of_seq(out@)[i as int] == crate::stage::count_out_s(gm)[i as int]);
        }
        i = i + 1;
    }
    proof {
        assert(views_of_seq(out@) =~= crate::stage::count_out_s(gm));
    }
    out
}

/// The sort key a value denotes, cloned out of the value.
fn sort_key_exec(v: &Value) -> (r: Option<SortKey>)
    ensures
        match r {
            Some(k) => crate::stage::sort_key_of(v@) == Some(k@),
            None => crate::stage::sort_key_of(v@) is None,
        },
{
    match v {
        Value::I64(n) => Some(SortKey::I64(*n)),
        Value::String(s) => Some(SortKey::String(s.clone())),
        _ => None,
    }
}

/// The indexed, keyed rows for ranking.
#[verifier::loop_isolation(false)]
fn run_rank_rows(by: &Expr, input: &Vec<Value>, msg: &str) -> (r: Result<Vec<RankRow>, String>)
    ensures
        match r {
            Ok(rows) => crate::stage::rank_rows_s(by@, views_of_seq(input@), 0, msg@) == Ok::<
                Seq<RankRowModel>,
                Seq<char>,
            >(row_views(rows@)),
            Err(e) => crate::stage::rank_rows_s(by@, views_of_seq(input@), 0, msg@) == Err::<
                Seq<RankRowModel>,
                Seq<char>,
            >(e@),
        },
{
    broadcast use lemma_views_of_seq, lemma_row_views;
    let ghost all = views_of_seq(input@);
    let mut rows: Vec<RankRow> = Vec::new();
    let mut i: usize = 0;
    proof {
        assert(all.skip(0) =~= all);
        assert(row_views(rows@) =~= Seq::<RankRowModel>::empty());
    }
    while i < input.len()
        invariant
            i <= input@.len(),
            all == views_of_seq(input@),
            rows@.len() == i,
            crate::stage::rank_rows_s(by@, all, 0, msg@) == match crate::stage::rank_rows_s(
                by@,
                all.skip(i as int),
                i as int,
                msg@,
            ) {
                Ok(rest) => Ok::<Seq<RankRowModel>, Seq<char>>(row_views(rows@) + rest),
                Err(er) => Err::<Seq<RankRowModel>, Seq<char>>(er),
            },
        decreases input@.len() - i,
    {
        proof {
            assert(all.skip(i as int)[0] == all[i as int]);
            assert(all.skip(i as int).drop_first() =~= all.skip(i as int + 1));
        }
        match eval_value_expr(by, Some(&input[i])) {
            Err(e) => {
                return Err(e);
            },
            Ok(kv) => match sort_key_exec(&kv) {
                None => {
                    return Err(String::from_str(msg));
                },
                Some(key) => {
                    let ghost rows0 = rows@;
                    let item = input[i].clone();
                    let row = RankRow { idx: i, key, item };
                    let ghost rm = row@;
                    rows.push(row);
                    proof {
                        assert(rows@.drop_last() =~= rows0);
                        assert(row_views(rows@) == row_views(rows0).push(rm));
                        match crate::stage::rank_rows_s(by@, all.skip(i as int + 1), i as int + 1,
                            msg@) {
                            Ok(rest) => {
                                assert(row_views(rows0) + (seq![rm] + rest)
                                    =~= row_views(rows@) + rest);
                            },
                            Err(_) => {},
                        }
                    }
                },
            },
        }
        i = i + 1;
    }
    proof {
        assert(all.skip(input@.len() as int).len() == 0);
        assert(row_views(rows@) + Seq::<RankRowModel>::empty() =~= row_views(rows@));
    }
    Ok(rows)
}

/// The items of the first rows, up to a limit.
#[verifier::loop_isolation(false)]
fn take_row_items(rows: Vec<RankRow>, k: i64) -> (r: Vec<Value>)
    requires
        k >= 0,
    ensures
        views_of_seq(r@) == Seq::new(
            (if row_views(rows@).len() <= k {
                row_views(rows@).len() as int
            } else {
                k as int
            }) as nat,
            |i: int| row_views(rows@)[i].item,
        ),
{
    broadcast use lemma_views_of_seq, lemma_row_views;
    let ghost rm = row_views(rows@);
    let take: usize = if (rows.len() as u64) <= (k as u64) {
        rows.len()
    } else {
        k as usize
    };
    let mut out: Vec<Value> = Vec::new();
    let mut i: usize = 0;
    while i < take
        invariant
            i <= take <= rows@.len(),
            rm == row_views(rows@),
            out@.len() == i,
            forall|j: int| 0 <= j < i ==> views_of_seq(out@)[j] == rm[j].item,
        decreases take - i,
    {
        let item = rows[i].item.clone();
        let ghost out0 = out@;
        out.push(item);
        proof {
            assert(out@.drop_last() =~= out0);
            assert(views_of_seq(out@) == views_of_seq(out0).push(out@.last()@));
        }
        i = i + 1;
    }
    proof {
        assert(views_of_seq(out@) =~= Seq::new(
            (if rm.len() <= k {
                rm.len() as int
            } else {
                k as int
            }) as nat,
            |j: int| rm[j].item,
        ));
    }
    out
}

/// The models of grouped rank rows.
pub open spec fn tgroup_views(s: Seq<(Value, Vec<RankRow>)>) -> Seq<
    (ValueModel, Seq<RankRowModel>),
>
    decreases s,
{
    if s.len() == 0 {
        Seq::empty()
    } else {
        tgroup_views(s.drop_last()).push((s.last().0@, row_views(s.last().1@)))
    }
}

pub broadcast proof fn lemma_tgroup_views(s: Seq<(Value, Vec<RankRow>)>)
    ensures
        (#[trigger] tgroup_views(s)).len() == s.len(),
        forall|i: int|
            0 <= i < s.len() ==> tgroup_views(s)[i] == (s[i].0@, row_views(s[i].1@)),
    decreases s.len(),
{
    if s.len() > 0 {
        lemma_tgroup_views(s.drop_last());
        assert(tgroup_views(s) == tgroup_views(s.drop_last()).push(
            (s.last().0@, row_views(s.last().1@)),
        ));
        assert forall|i: int|
            0 <= i < s.len() implies tgroup_views(s)[i] == (s[i].0@, row_views(s[i].1@)) by {
            if i < s.len() - 1 {
                assert(tgroup_views(s)[i] == tgroup_views(s.drop_last())[i]);
                assert(s.drop_last()[i] == s[i]);
            } else {
                assert(tgroup_views(s)[i] == (s.last().0@, row_views(s.last().1@)));
            }
        }
    }
}

/// Appends a rank row under its key, keys kept in first-seen order.
#[verifier::loop_isolation(false)]
fn push_tgroup(gs: &mut Vec<(Value, Vec<RankRow>)>, key: Value, row: RankRow)
    ensures
        tgroup_views(final(gs)@) == crate::stage::topn_groups_add(
            tgroup_views(old(gs)@),
            key@,
            row@,
        ),
{
    broadcast use lemma_tgroup_views, lemma_row_views;
    let ghost m = tgroup_views(old(gs)@);
    let ghost km = key@;
    let ghost im = row@;
    let mut i: usize = 0;
    proof {
        assert(m.skip(0) =~= m);
        assert(m.subrange(0, 0) + crate::stage::topn_groups_add(m.skip(0), km, im)
            =~= crate::stage::topn_groups_add(m, km, im));
    }
    while i < gs.len()
        invariant
            gs@ == old(gs)@,
            m == tgroup_views(gs@),
            km == key@,
            im == row@,
            i <= gs@.len(),
            crate::stage::topn_groups_add(m, km, im) == m.subrange(0, i as int)
                + crate::stage::topn_groups_add(m.skip(i as int), km, im),
        decreases gs@.len() - i,
    {
        proof {
            lemma_tgroup_views(gs@);
            assert(m.len() == gs@.len());
            assert(m.skip(i as int)[0] == m[i as int]);
            assert(m.skip(i as int).drop_first() =~= m.skip(i as int + 1));
        }
        if value_eq(&gs[i].0, &key) {
            let ghost pre = gs@;
            let mut entry = gs.remove(i);
            proof {
                lemma_tgroup_views(pre);
                assert(m[i as int] == (pre[i as int].0@, row_views(pre[i as int].1@)));
            }
            let ghost e0 = row_views(entry.1@);
            let ghost e1 = entry.1@;
            entry.1.push(row);
            proof {
                assert(entry.1@.drop_last() =~= e1);
                assert(row_views(entry.1@) == e0.push(im));
            }
            let ghost entv = (entry.0@, row_views(entry.1@));
            gs.insert(i, entry);
            proof {
                lemma_tgroup_views(gs@);
                lemma_tgroup_views(pre);
                let fm = tgroup_views(gs@);
                assert(fm =~= m.subrange(0, i as int) + (seq![(m[i as int].0, m[i as int].1.push(
                    im,
                ))] + m.skip(i as int).drop_first())) by {
                    assert forall|j: int| 0 <= j < fm.len() implies fm[j] == (m.subrange(
                        0,
                        i as int,
                    ) + (seq![(m[i as int].0, m[i as int].1.push(im))] + m.skip(
                        i as int,
                    ).drop_first()))[j] by {
                        assert(fm[j] == (gs@[j].0@, row_views(gs@[j].1@)));
                        if j < i {
                            assert(gs@[j] == pre[j]);
                            assert(m[j] == (pre[j].0@, row_views(pre[j].1@)));
                        } else if j > i {
                            assert(gs@[j] == pre[j]);
                            assert(m[j] == (pre[j].0@, row_views(pre[j].1@)));
                        } else {
                            assert((gs@[j].0@, row_views(gs@[j].1@)) == entv);
                        }
                    }
                }
                assert(fm == crate::stage::topn_groups_add(m, km, im));
            }
            return;
        }
        i = i + 1;
    }
    proof {
        assert(m.skip(i as int).len() == 0);
    }
    let mut single: Vec<RankRow> = Vec::new();
    single.push(row);
    proof {
        assert(row_views(single@) =~= seq![im]);
    }
    gs.push((key, single));
    proof {
        lemma_tgroup_views(gs@);
        assert(tgroup_views(gs@) =~= m.subrange(0, m.len() as int)
            + crate::stage::topn_groups_add(m.skip(m.len() as int), km, im)) by {
            assert(gs@.drop_last() =~= old(gs)@);
            assert(m.subrange(0, m.len() as int) =~= m);
        }
    }
}

/// Folds the input into per-key groups of rank rows.
#[verifier::loop_isolation(false)]
fn run_topn_fold(by_key: &Expr, order_by: &Expr, input: &Vec<Value>) -> (r: Result<
    Vec<(Value, Vec<RankRow>)>,
    String,
>)
    ensures
        match r {
            Ok(gs) => crate::stage::topn_fold_s(by_key@, order_by@, views_of_seq(input@), 0,
                Seq::empty()) == Ok::<Seq<(ValueModel, Seq<RankRowModel>)>, Seq<char>>(
                tgroup_views(gs@),
            ),
            Err(e) => crate::stage::topn_fold_s(by_key@, order_by@, views_of_seq(input@), 0,
                Seq::empty()) == Err::<Seq<(ValueModel, Seq<RankRowModel>)>, Seq<char>>(e@),
        },
{
    broadcast use lemma_tgroup_views, lemma_views_of_seq;
    let ghost all = views_of_seq(input@);
    let mut gs: Vec<(Value, Vec<RankRow>)> = Vec::new();
    let mut i: usize = 0;
    proof {
        assert(all.skip(0) =~= all);
        assert(tgroup_views(gs@) =~= Seq::<(ValueModel, Seq<RankRowModel>)>::empty());
    }
    while i < input.len()
        invariant
            i <= input@.len(),
            all == views_of_seq(input@),
            crate::stage::topn_fold_s(by_key@, order_by@, all, 0, Seq::empty())
                == crate::stage::topn_fold_s(by_key@, order_by@, all.skip(i as int), i as int,
                tgroup_views(gs@)),
        decreases input@.len() - i,
    {
        proof {
            assert(all.skip(i as int)[0] == all[i as int]);
            assert(all.skip(i as int).drop_first() =~= all.skip(i as int + 1));
        }
        match eval_value_expr(by_key, Some(&input[i])) {
            Err(e) => {
                return Err(e);
            },
            Ok(key) => {
                let ok = match &key {
                    Value::I64(_) => true,
                    Value::String(_) => true,
                    _ => false,
                };
                if !ok {
                    return Err(String::from_str(
                        "group.topn_items by_key must evaluate to I64 or String",
                    ));
                }
                match eval_value_expr(order_by, Some(&input[i])) {
                    Err(e) => {
                        return Err(e);
                    },
                    Ok(okv) => match sort_key_exec(&okv) {
                        None => {
                            return Err(String::from_str(
                                "group.topn_items order_by must evaluate to I64 or String",
                            ));
                        },
                        Some(okey) => {
                            let item = input[i].clone();
                            let row = RankRow { idx: i, key: okey, item };
                            push_tgroup(&mut gs, key, row);
                        },
                    },
                }
            },
        }
        i = i + 1;
    }
    proof {
        assert(all.skip(input@.len() as int).len() == 0);
    }
    Ok(gs)
}

/// One `{ key, items }` record per group, items sorted stably and truncated.
#[verifier::loop_isolation(false)]
#[verifier::rlimit(100)]
fn topn_out(gs: Vec<(Value, Vec<RankRow>)>, n: i64, order: SortOrder) -> (r: Vec<Value>)
    requires
        n >= 0,
    ensures
        views_of_seq(r@) == crate::stage::topn_out_s(tgroup_views(gs@), n, order),
{
    broadcast use lemma_tgroup_views, lemma_views_of_seq, lemma_views_of_fields, lemma_row_views;
    let ghost gs0 = gs@;
    let ghost gm = tgroup_views(gs@);
    let mut out: Vec<Value> = Vec::new();
    let mut rest = gs;
    let mut i: usize = 0;
    let len = rest.len();
    proof {
        assert(rest@ =~= gs0.skip(0));
    }
    while i < len
        invariant
            i <= len,
            gs0.len() == len,
            gm == tgroup_views(gs0),
            gm.len() == len,
            rest@ == gs0.skip(i as int),
            out@.len() == i,
            forall|j: int|
                0 <= j < i ==> views_of_seq(out@)[j] == crate::stage::topn_out_s(gm, n, order)[j],
        decreases len - i,
    {
        proof {
            lemma_tgroup_views(gs0);
            assert(rest@[0] == gs0[i as int]);
            assert(gm[i as int] == (gs0[i as int].0@, row_views(gs0[i as int].1@)));
        }
        let (key, rows) = rest.remove(0);
        proof {
            assert(rest@ =~= gs0.skip(i as int + 1));
            assert(key@ == gm[i as int].0);
            assert(row_views(rows@) == gm[i as int].1);
        }
        let sorted = crate::stage::sort_rows(order, rows);
        let items = take_row_items(sorted, n);
        let mut rec: Vec<(String, Value)> = Vec::new();
        proof {
            assert(views_of_fields(rec@) =~= Seq::<(Seq<char>, ValueModel)>::empty());
        }
        record_insert(&mut rec, String::from_str("items"), Value::Array(items));
        record_insert(&mut rec, String::from_str("key"), key);
        let ghost out0 = out@;
        out.push(Value::Record(rec));
        proof {
            assert(out@.drop_last() =~= out0);
            assert(views_of_seq(out@) == views_of_seq(out0).push(out@.last()@));
            assert(views_of_seq(out@)[i as int] == crate::stage::topn_out_s(gm, n,
                order)[i as int]);
        }
        i = i + 1;
    }
    proof {
        assert(views_of_seq(out@) =~= crate::stage::topn_out_s(gm, n, order));
    }
    out
}

/// At the first entry whose key matches, lookup reads it and replacement
/// rewrites it.
proof fn lemma_kv_at(
    m: KvModel,
    store: Seq<char>,
    e: Seq<(Seq<char>, ValueModel)>,
    idx: int,
)
    requires
        0 <= idx < m.len(),
        m[idx].0 == store,
        forall|j: int| 0 <= j < idx ==> m[j].0 != store,
    ensures
        assoc_get(m, store) == Some(m[idx].1),
        crate::stage::kv_replace(m, store, e) == m.subrange(0, idx) + seq![(store, e)] + m.skip(
            idx + 1,
        ),
    decreases idx,
{
    if idx == 0 {
        assert(crate::stage::kv_replace(m, store, e) == seq![(m[0].0, e)] + m.drop_first());
        assert(m.subrange(0, 0) + seq![(store, e)] + m.skip(1) =~= seq![(m[0].0, e)]
            + m.drop_first());
    } else {
        let m2 = m.drop_first();
        assert(forall|j: int| 0 <= j < idx - 1 ==> #[trigger] m2[j].0 == m[j + 1].0);
        lemma_kv_at(m2, store, e, idx - 1);
        assert(crate::stage::kv_replace(m, store, e) == seq![m[0]] + crate::stage::kv_replace(
            m2,
            store,
            e,
        ));
        assert(seq![m[0]] + (m2.subrange(0, idx - 1) + seq![(store, e)] + m2.skip(idx))
            =~= m.subrange(0, idx) + seq![(store, e)] + m.skip(idx + 1));
    }
}

/// Loads the stream into a store, as the kv.load stage describes.
#[verifier::loop_isolation(false)]
fn run_kv_load(state: &mut RuntimeState, store: &String, input: &Vec<Value>) -> (r: Result<
    (),
    String,
>)
    ensures
        match r {
            Ok(_) => ({
                let kv1 = crate::stage::kv_ensure(old(state)@, store@);
                let entries0 = match assoc_get(kv1, store@) {
                    Some(e) => e,
                    None => Seq::empty(),
                };
                crate::stage::store_fold_s(views_of_seq(input@), entries0) matches Ok(entries)
                    && final(state)@ == crate::stage::kv_replace(kv1, store@, entries)
            }),
            Err(e) => ({
                let kv1 = crate::stage::kv_ensure(old(state)@, store@);
                let entries0 = match assoc_get(kv1, store@) {
                    Some(en) => en,
                    None => Seq::empty(),
                };
                crate::stage::store_fold_s(views_of_seq(input@), entries0) == Err::<
                    Seq<(Seq<char>, ValueModel)>,
                    Seq<char>,
                >(e@)
            }),
        },
{
    broadcast use lemma_kv_views, lemma_views_of_seq, lemma_views_of_fields;
    let ghost m0 = old(state)@;
    // find the store, creating it empty at the end when absent
    let mut idx: usize = 0;
    let n = state.kv_stores.len();
    proof {
        lemma_kv_views(state.kv_stores@);
    }
    while idx < n
        invariant
            state.kv_stores@ == old(state).kv_stores@,
            n == state.kv_stores@.len(),
            idx <= n,
            forall|j: int| 0 <= j < idx ==> kv_views(state.kv_stores@)[j].0 != store@,
        decreases n - idx,
    {
        proof {
            lemma_kv_views(state.kv_stores@);
        }
        if str_eq(state.kv_stores[idx].0.as_str(), store.as_str()) {
            break;
        }
        idx = idx + 1;
    }
    let ghost kv1 = crate::stage::kv_ensure(m0, store@);
    if idx == n {
        proof {
            lemma_kv_views(state.kv_stores@);
            assert forall|j: int| 0 <= j < m0.len() implies #[trigger] m0[j].0 != store@ by {}
            lemma_assoc_get_none(m0, store@);
        }
        state.kv_stores.push((store.clone(), Vec::new()));
        proof {
            lemma_kv_views(state.kv_stores@);
            assert(kv_views(state.kv_stores@) =~= kv1) by {
                assert(state.kv_stores@.drop_last() =~= old(state).kv_stores@);
                assert(views_of_fields(Seq::<(String, Value)>::empty())
                    =~= Seq::<(Seq<char>, ValueModel)>::empty());
            }
        }
    } else {
        proof {
            lemma_kv_views(state.kv_stores@);
            lemma_assoc_get_at(m0, store@, idx as int);
            assert(kv1 == m0);
        }
    }
    let ghost m1 = kv_views(state.kv_stores@);
    proof {
        assert(m1 == kv1);
        lemma_kv_views(state.kv_stores@);
        assert(m1[idx as int].0 == store@);
        assert(forall|j: int| 0 <= j < idx ==> m1[j].0 != store@);
    }
    // fold the stream into the store's entries
    let ghost pre = state.kv_stores@;
    let mut entry = state.kv_stores.remove(idx);
    let ghost entries0 = views_of_fields(entry.1@);
    proof {
        lemma_kv_views(pre);
        assert(m1[idx as int] == (pre[idx as int].0@, views_of_fields(pre[idx as int].1@)));
        lemma_assoc_get_at_gen(m1, store@, idx as int);
        assert(assoc_get(m1, store@) == Some(entries0));
    }
    let ghost all = views_of_seq(input@);
    let mut i: usize = 0;
    proof {
        assert(all.skip(0) =~= all);
    }
    while i < input.len()
        invariant
            i <= input@.len(),
            all == views_of_seq(input@),
            entry.0@ == store@,
            crate::stage::store_fold_s(all, entries0) == crate::stage::store_fold_s(
                all.skip(i as int),
                views_of_fields(entry.1@),
            ),
        decreases input@.len() - i,
    {
        proof {
            assert(all.skip(i as int)[0] == all[i as int]);
            assert(all.skip(i as int).drop_first() =~= all.skip(i as int + 1));
        }
        match &input[i] {
            Value::Record(fields) => {
                let keyv = record_get(fields, "key");
                let key_string = match keyv {
                    Some(Value::String(s)) => s.clone(),
                    Some(_) => {
                        return Err(String::from_str("kv.load input.key must be String"));
                    },
                    None => {
                        return Err(String::from_str("kv.load input.key must be String"));
                    },
                };
                match record_get(fields, "value") {
                    Some(v) => {
                        let vc = v.clone();
                        record_insert(&mut entry.1, key_string, vc);
                    },
                    None => {
                        return Err(String::from_str(
                            "kv.load input must contain field 'value'",
                        ));
                    },
                }
            },
            _ => {
                return Err(String::from_str("kv.load input must be Record"));
            },
        }
        i = i + 1;
    }
    proof {
        assert(all.skip(input@.len() as int).len() == 0);
    }
    let ghost entries = views_of_fields(entry.1@);
    let ghost entv = (entry.0@, views_of_fields(entry.1@));
    state.kv_stores.insert(idx, entry);
    proof {
        lemma_kv_views(state.kv_stores@);
        lemma_kv_views(pre);
        let fm = kv_views(state.kv_stores@);
        lemma_kv_at(m1, store@, entries, idx as int);
        assert(fm =~= m1.subrange(0, idx as int) + seq![(store@, entries)] + m1.skip(
            idx as int + 1,
        )) by {
            assert forall|j: int| 0 <= j < fm.len() implies fm[j] == (m1.subrange(0, idx as int)
                + seq![(store@, entries)] + m1.skip(idx as int + 1))[j] by {
                assert(fm[j] == (state.kv_stores@[j].0@, views_of_fields(
                    state.kv_stores@[j].1@,
                )));
                if j < idx {
                    assert(state.kv_stores@[j] == pre[j]);
                    assert(m1[j] == (pre[j].0@, views_of_fields(pre[j].1@)));
                } else if j > idx {
                    assert(state.kv_stores@[j] == pre[j]);
                    assert(m1[j] == (pre[j].0@, views_of_fields(pre[j].1@)));
                } else {
                    assert((state.kv_stores@[j].0@, views_of_fields(state.kv_stores@[j].1@))
                        == entv);
                }
            }
        }
    }
    Ok(())
}

/// When no key matches, the lookup misses.
proof fn lemma_assoc_get_none(m: KvModel, k: Seq<char>)
    requires
        forall|j: int| 0 <= j < m.len() ==> m[j].0 != k,
    ensures
        assoc_get(m, k) is None,
    decreases m.len(),
{
    if m.len() > 0 {
        let m2 = m.drop_first();
        assert(forall|j: int| 0 <= j < m2.len() ==> #[trigger] m2[j].0 == m[j + 1].0);
        lemma_assoc_get_none(m2, k);
    }
}

/// The lookup reads the first matching entry.
proof fn lemma_assoc_get_at(m: KvModel, k: Seq<char>, idx: int)
    requires
        0 <= idx < m.len(),
        m[idx].0 == k,
        forall|j: int| 0 <= j < idx ==> m[j].0 != k,
    ensures
        assoc_get(m, k) is Some,
    decreases idx,
{
    if idx > 0 {
        let m2 = m.drop_first();
        assert(forall|j: int| 0 <= j < m2.len() ==> #[trigger] m2[j].0 == m[j + 1].0);
        lemma_assoc_get_at(m2, k, idx - 1);
    }
}

/// The lookup reads exactly the first matching entry's value.
proof fn lemma_assoc_get_at_gen(m: KvModel, k: Seq<char>, idx: int)
    requires
        0 <= idx < m.len(),
        m[idx].0 == k,
        forall|j: int| 0 <= j < idx ==> m[j].0 != k,
    ensures
        assoc_get(m, k) == Some(m[idx].1),
    decreases idx,
{
    if idx > 0 {
        let m2 = m.drop_first();
        assert(forall|j: int| 0 <= j < m2.len() ==> #[trigger] m2[j].0 == m[j + 1].0);
        lemma_assoc_get_at_gen(m2, k, idx - 1);
    }
}

/// The value under a key of a store, as `kv_get` describes.
fn kv_get_exec<'a>(state: &'a RuntimeState, store: &str, key: &str) -> (r: Option<&'a Value>)
    ensures
        match r {
            Some(v) => crate::stage::kv_get(state@, store@, key@) == Some(v@),
            None => crate::stage::kv_get(state@, store@, key@) is None,
        },
{
    broadcast use lemma_kv_views;
    let ghost m = state@;
    let mut i: usize = 0;
    proof {
        assert(m.skip(0) =~= m);
    }
    while i < state.kv_stores.len()
        invariant
            m == state@,
            i <= state.kv_stores@.len(),
            assoc_get(m, store@) == assoc_get(m.skip(i as int), store@),
        decreases state.kv_stores@.len() - i,
    {
        proof {
            lemma_kv_views(state.kv_stores@);
            assert(m.len() == state.kv_stores@.len());
            assert(m.skip(i as int)[0] == m[i as int]);
            assert(m.skip(i as int).drop_first() =~= m.skip(i as int + 1));
        }
        if str_eq(state.kv_stores[i].0.as_str(), store) {
            return record_get(&state.kv_stores[i].1, key);
        }
        i = i + 1;
    }
    proof {
        assert(m.skip(i as int).len() == 0);
    }
    None
}

/// Joins each item against a store, as the lookup stages describe.
#[verifier::loop_isolation(false)]
fn run_lookup(
    key: &Expr,
    input: &Vec<Value>,
    state: &RuntimeState,
    store: &String,
    msg: &str,
) -> (r: Result<Vec<Value>, String>)
    ensures
        match r {
            Ok(vs) => crate::stage::lookup_s(key@, views_of_seq(input@), state@, store@, msg@)
                == Ok::<Seq<ValueModel>, Seq<char>>(views_of_seq(vs@)),
            Err(e) => crate::stage::lookup_s(key@, views_of_seq(input@), state@, store@, msg@)
                == Err::<Seq<ValueModel>, Seq<char>>(e@),
        },
{
    broadcast use lemma_views_of_seq, lemma_views_of_fields;
    let ghost all = views_of_seq(input@);
    let mut out: Vec<Value> = Vec::new();
    let mut i: usize = 0;
    proof {
        assert(all.skip(0) =~= all);
        assert(views_of_seq(out@) =~= Seq::<ValueModel>::empty());
    }
    while i < input.len()
        invariant
            i <= input@.len(),
            all == views_of_seq(input@),
            crate::stage::lookup_s(key@, all, state@, store@, msg@) == match
                crate::stage::lookup_s(key@, all.skip(i as int), state@, store@, msg@) {
                Ok(rest) => Ok::<Seq<ValueModel>, Seq<char>>(views_of_seq(out@) + rest),
                Err(er) => Err::<Seq<ValueModel>, Seq<char>>(er),
            },
        decreases input@.len() - i,
    {
        proof {
            assert(all.skip(i as int)[0] == all[i as int]);
            assert(all.skip(i as int).drop_first() =~= all.skip(i as int + 1));
        }
        match eval_value_expr(key, Some(&input[i])) {
            Err(e) => {
                return Err(e);
            },
            Ok(kval) => match kval {
                Value::String(k) => {
                    let right: Value = match kv_get_exec(state, store.as_str(), k.as_str()) {
                        Some(v) => v.clone(),
                        None => Value::Null,
                    };
                    let mut rec: Vec<(String, Value)> = Vec::new();
                    proof {
                        assert(views_of_fields(rec@)
                            =~= Seq::<(Seq<char>, ValueModel)>::empty());
                    }
                    let item = input[i].clone();
                    record_insert(&mut rec, String::from_str("left"), item);
                    record_insert(&mut rec, String::from_str("right"), right);
                    let ghost out0 = out@;
                    let ghost rm = Value::Record(rec)@;
                    out.push(Value::Record(rec));
                    proof {
                        assert(out@.drop_last() =~= out0);
                        assert(views_of_seq(out@) == views_of_seq(out0).push(rm));
                        match crate::stage::lookup_s(key@, all.skip(i as int + 1), state@,
                            store@, msg@) {
                            Ok(rest) => {
                                assert(views_of_seq(out0) + (seq![rm] + rest)
                                    =~= views_of_seq(out@) + rest);
                            },
                            Err(_) => {},
                        }
                    }
                },
                _ => {
                    return Err(String::from_str(msg));
                },
            },
        }
        i = i + 1;
    }
    proof {
        assert(all.skip(input@.len() as int).len() == 0);
        assert(views_of_seq(out@) + Seq::<ValueModel>::empty() =~= views_of_seq(out@));
    }
    Ok(out)
}

/// One value through a reversible stage.
fn codec_step(c: Codec, dir: Direction, v: Value) -> (r: Result<Value, String>)
    ensures
        match r {
            Ok(out) => crate::stage::codec_step_s(c, dir, v@) == Ok::<ValueModel, Seq<char>>(
                out@,
            ),
            Err(e) => crate::stage::codec_step_s(c, dir, v@) == Err::<ValueModel, Seq<char>>(e@),
        },
{
    let use_forward: bool = match dir {
        Direction::Inverse => false,
        Direction::Auto => {
            let fwd = match c {
                Codec::Json => match &v {
                    Value::Bytes(_) => false,
                    Value::Unit => false,
                    _ => true,
                },
                Codec::Utf8 => match &v {
                    Value::String(_) => true,
                    _ => false,
                },
                Codec::B64 => match &v {
                    Value::Bytes(_) => true,
                    _ => false,
                },
            };
            if fwd {
                true
            } else {
                let inv = match c {
                    Codec::Json => match &v {
                        Value::Bytes(_) => true,
                        _ => false,
                    },
                    Codec::Utf8 => match &v {
                        Value::Bytes(_) => true,
                        _ => false,
                    },
                    Codec::B64 => match &v {
                        Value::String(_) => true,
                        _ => false,
                    },
                };
                if !inv {
                    return Err(String::from_str("no matching direction for stage"));
                }
                false
            }
        },
    };
    if use_forward {
        match c {
            Codec::Json => match v {
                Value::Bytes(_) => Err(String::from_str("json forward expects a non-byte value")),
                other => {
                    let j = crate::value::value_to_json(&other);
                    match crate::json::to_vec(&j) {
                        Ok(bytes) => Ok(Value::Bytes(bytes)),
                        Err(e) => Err(e.message()),
                    }
                },
            },
            Codec::Utf8 => match v {
                Value::String(s) => Ok(Value::Bytes(s.as_str().as_bytes_vec())),
                _ => Err(String::from_str("utf8 forward expects String")),
            },
            Codec::B64 => match v {
                Value::Bytes(b) => Ok(Value::String(crate::base64::base64_encode(&b))),
                _ => Err(String::from_str("base64 forward expects Bytes")),
            },
        }
    } else {
        match c {
            Codec::Json => match v {
                Value::Bytes(b) => match crate::json::from_slice(&b) {
                    Ok(j) => Ok(crate::value::json_to_value(&j)),
                    Err(e) => Err(e.message()),
                },
                _ => Err(String::from_str("json inverse expects Bytes")),
            },
            Codec::Utf8 => match v {
                Value::Bytes(b) => {
                    let ghost bm = b@;
                    match crate::text::bytes_to_string(b) {
                        Some(s) => {
                            proof {
                                vstd::utf8::encode_utf8_decode_utf8(s@);
                            }
                            Ok(Value::String(s))
                        },
                        None => Err(String::from_str("invalid utf-8")),
                    }
                },
                _ => Err(String::from_str("utf8 inverse expects Bytes")),
            },
            Codec::B64 => match v {
                Value::String(s) => match crate::base64::base64_decode(s.as_str()) {
                    Ok(b) => Ok(Value::Bytes(b)),
                    Err(crate::base64::B64Err::Length) => Err(String::from_str(
                        "invalid base64 length",
                    )),
                    Err(crate::base64::B64Err::Alphabet) => Err(String::from_str(
                        "invalid base64",
                    )),
                },
                _ => Err(String::from_str("base64 inverse expects String")),
            },
        }
    }
}

/// A whole stream through a reversible stage.
#[verifier::loop_isolation(false)]
fn run_codec(c: Codec, dir: Direction, input: &Vec<Value>) -> (r: Result<Vec<Value>, String>)
    ensures
        match r {
            Ok(vs) => crate::stage::codec_all_s(c, dir, views_of_seq(input@)) == Ok::<
                Seq<ValueModel>,
                Seq<char>,
            >(views_of_seq(vs@)),
            Err(e) => crate::stage::codec_all_s(c, dir, views_of_seq(input@)) == Err::<
                Seq<ValueModel>,
                Seq<char>,
            >(e@),
        },
{
    broadcast use lemma_views_of_seq;
    let ghost all = views_of_seq(input@);
    let mut out: Vec<Value> = Vec::new();
    let mut i: usize = 0;
    proof {
        assert(all.skip(0) =~= all);
        assert(views_of_seq(out@) =~= Seq::<ValueModel>::empty());
    }
    while i < input.len()
        invariant
            i <= input@.len(),
            all == views_of_seq(input@),
            crate::stage::codec_all_s(c, dir, all) == match crate::stage::codec_all_s(c, dir,
                all.skip(i as int)) {
                Ok(rest) => Ok::<Seq<ValueModel>, Seq<char>>(views_of_seq(out@) + rest),
                Err(er) => Err::<Seq<ValueModel>, Seq<char>>(er),
            },
        decreases input@.len() - i,
    {
        proof {
            assert(all.skip(i as int)[0] == all[i as int]);
            assert(all.skip(i as int).drop_first() =~= all.skip(i as int + 1));
        }
        let item = input[i].clone();
        match codec_step(c, dir, item) {
            Err(e) => {
                return Err(e);
            },
            Ok(v) => {
                let ghost out0 = out@;
                let ghost vm = v@;
                out.push(v);
                proof {
                    assert(out@.drop_last() =~= out0);
                    assert(views_of_seq(out@) == views_of_seq(out0).push(vm));
                    match crate::stage::codec_all_s(c, dir, all.skip(i as int + 1)) {
                        Ok(rest) => {
                            assert(views_of_seq(out0) + (seq![vm] + rest)
                                =~= views_of_seq(out@) + rest);
                        },
                        Err(_) => {},
                    }
                }
            },
        }
        i = i + 1;
    }
    proof {
        assert(all.skip(input@.len() as int).len() == 0);
        assert(views_of_seq(out@) + Seq::<ValueModel>::empty() =~= views_of_seq(out@));
    }
    Ok(out)
}

/// A string field of a JSON object row, as `jfield_s` describes.
fn jfield(row: &json::Value, name: &str) -> (r: Result<String, String>)
    ensures
        match r {
            Ok(s) => crate::stage::jfield_s(row@, name@) == Ok::<Seq<char>, Seq<char>>(s@),
            Err(e) => crate::stage::jfield_s(row@, name@) == Err::<Seq<char>, Seq<char>>(e@),
        },
{
    match row {
        json::Value::Object(fs) => match crate::json::object_get(fs, name) {
            Some(json::Value::String(s)) => Ok(s.clone()),
            _ => Err(String::from_str("expected string field '").concat(name).concat("'")),
        },
        _ => Err(String::from_str("expected object")),
    }
}

/// Appends a value under a key of a string multimap.
#[verifier::loop_isolation(false)]
fn push_multi(m: &mut Vec<(String, Vec<String>)>, k: String, v: String)
    ensures
        log_views(final(m)@) == crate::stage::multi_add(log_views(old(m)@), k@, v@),
{
    broadcast use lemma_log_views;
    let ghost mm = log_views(old(m)@);
    let ghost km = k@;
    let ghost vm = v@;
    let mut i: usize = 0;
    proof {
        assert(mm.skip(0) =~= mm);
        assert(mm.subrange(0, 0) + crate::stage::multi_add(mm.skip(0), km, vm)
            =~= crate::stage::multi_add(mm, km, vm));
    }
    while i < m.len()
        invariant
            m@ == old(m)@,
            mm == log_views(m@),
            km == k@,
            vm == v@,
            i <= m@.len(),
            crate::stage::multi_add(mm, km, vm) == mm.subrange(0, i as int)
                + crate::stage::multi_add(mm.skip(i as int), km, vm),
        decreases m@.len() - i,
    {
        proof {
            lemma_log_views(m@);
            assert(mm.len() == m@.len());
            assert(mm.skip(i as int)[0] == mm[i as int]);
            assert(mm.skip(i as int).drop_first() =~= mm.skip(i as int + 1));
        }
        if str_eq(m[i].0.as_str(), k.as_str()) {
            let ghost pre = m@;
            let mut entry = m.remove(i);
            proof {
                lemma_log_views(pre);
                assert(mm[i as int] == (pre[i as int].0@, log_rows_views(pre[i as int].1@)));
            }
            let ghost e0 = log_rows_views(entry.1@);
            let ghost e1 = entry.1@;
            entry.1.push(v);
            proof {
                assert(entry.1@.drop_last() =~= e1);
                assert(log_rows_views(entry.1@) =~= e0.push(vm));
            }
            let ghost entv = (entry.0@, log_rows_views(entry.1@));
            m.insert(i, entry);
            proof {
                lemma_log_views(m@);
                lemma_log_views(pre);
                let fm = log_views(m@);
                assert(fm =~= mm.subrange(0, i as int) + (seq![(mm[i as int].0,
                    mm[i as int].1.push(vm))] + mm.skip(i as int).drop_first())) by {
                    assert forall|j: int| 0 <= j < fm.len() implies fm[j] == (mm.subrange(
                        0,
                        i as int,
                    ) + (seq![(mm[i as int].0, mm[i as int].1.push(vm))] + mm.skip(
                        i as int,
                    ).drop_first()))[j] by {
                        assert(fm[j] == (m@[j].0@, log_rows_views(m@[j].1@)));
                        if j < i {
                            assert(m@[j] == pre[j]);
                            assert(mm[j] == (pre[j].0@, log_rows_views(pre[j].1@)));
                        } else if j > i {
                            assert(m@[j] == pre[j]);
                            assert(mm[j] == (pre[j].0@, log_rows_views(pre[j].1@)));
                        } else {
                            assert((m@[j].0@, log_rows_views(m@[j].1@)) == entv);
                        }
                    }
                }
                assert(fm == crate::stage::multi_add(mm, km, vm));
            }
            return;
        }
        i = i + 1;
    }
    proof {
        assert(mm.skip(i as int).len() == 0);
    }
    let mut single: Vec<String> = Vec::new();
    single.push(v);
    proof {
        assert(log_rows_views(single@) =~= seq![vm]);
    }
    m.push((k, single));
    proof {
        lemma_log_views(m@);
        assert(log_views(m@) =~= mm.subrange(0, mm.len() as int) + crate::stage::multi_add(
            mm.skip(mm.len() as int),
            km,
            vm,
        )) by {
            assert(m@.drop_last() =~= old(m)@);
            assert(mm.subrange(0, mm.len() as int) =~= mm);
        }
    }
}

/// The models of a pair-keyed permission map.
pub open spec fn perm_views(s: Seq<((String, String), Vec<json::Value>)>) -> Seq<
    ((Seq<char>, Seq<char>), Seq<JsonModel>),
>
    decreases s,
{
    if s.len() == 0 {
        Seq::empty()
    } else {
        perm_views(s.drop_last()).push(
            ((s.last().0.0@, s.last().0.1@), json_rows_views(s.last().1@)),
        )
    }
}

pub broadcast proof fn lemma_perm_views(s: Seq<((String, String), Vec<json::Value>)>)
    ensures
        (#[trigger] perm_views(s)).len() == s.len(),
        forall|i: int|
            0 <= i < s.len() ==> perm_views(s)[i] == ((s[i].0.0@, s[i].0.1@), json_rows_views(
                s[i].1@,
            )),
    decreases s.len(),
{
    if s.len() > 0 {
        lemma_perm_views(s.drop_last());
        assert(perm_views(s) == perm_views(s.drop_last()).push(
            ((s.last().0.0@, s.last().0.1@), json_rows_views(s.last().1@)),
        ));
        assert forall|i: int|
            0 <= i < s.len() implies perm_views(s)[i] == ((s[i].0.0@, s[i].0.1@),
                json_rows_views(s[i].1@)) by {
            if i < s.len() - 1 {
                assert(perm_views(s)[i] == perm_views(s.drop_last())[i]);
                assert(s.drop_last()[i] == s[i]);
            } else {
                assert(perm_views(s)[i] == ((s.last().0.0@, s.last().0.1@), json_rows_views(
                    s.last().1@,
                )));
            }
        }
    }
}

/// Appends a permission row under its role and action pair.
#[verifier::loop_isolation(false)]
fn push_perm(m: &mut Vec<((String, String), Vec<json::Value>)>, k: (String, String),
    row: json::Value)
    ensures
        perm_views(final(m)@) == crate::stage::perms_add(
            perm_views(old(m)@),
            (k.0@, k.1@),
            row@,
        ),
{
    broadcast use lemma_perm_views;
    let ghost mm = perm_views(old(m)@);
    let ghost km = (k.0@, k.1@);
    let ghost vm = row@;
    let mut i: usize = 0;
    proof {
        assert(mm.skip(0) =~= mm);
        assert(mm.subrange(0, 0) + crate::stage::perms_add(mm.skip(0), km, vm)
            =~= crate::stage::perms_add(mm, km, vm));
    }
    while i < m.len()
        invariant
            m@ == old(m)@,
            mm == perm_views(m@),
            km == (k.0@, k.1@),
            vm == row@,
            i <= m@.len(),
            crate::stage::perms_add(mm, km, vm) == mm.subrange(0, i as int)
                + crate::stage::perms_add(mm.skip(i as int), km, vm),
        decreases m@.len() - i,
    {
        proof {
            lemma_perm_views(m@);
            assert(mm.len() == m@.len());
            assert(mm.skip(i as int)[0] == mm[i as int]);
            assert(mm.skip(i as int).drop_first() =~= mm.skip(i as int + 1));
        }
        if str_eq(m[i].0.0.as_str(), k.0.as_str()) && str_eq(m[i].0.1.as_str(), k.1.as_str()) {
            let ghost pre = m@;
            let mut entry = m.remove(i);
            proof {
                lemma_perm_views(pre);
                assert(mm[i as int] == ((pre[i as int].0.0@, pre[i as int].0.1@),
                    json_rows_views(pre[i as int].1@)));
            }
            let ghost e0 = json_rows_views(entry.1@);
            let ghost e1 = entry.1@;
            entry.1.push(row);
            proof {
                crate::json::lemma_json_views_of_seq(e1);
                crate::json::lemma_json_views_of_seq(entry.1@);
                assert(entry.1@.drop_last() =~= e1);
                assert(json_rows_views(entry.1@) == e0.push(vm));
            }
            let ghost entv = ((entry.0.0@, entry.0.1@), json_rows_views(entry.1@));
            m.insert(i, entry);
            proof {
                lemma_perm_views(m@);
                lemma_perm_views(pre);
                let fm = perm_views(m@);
                assert(fm =~= mm.subrange(0, i as int) + (seq![(mm[i as int].0,
                    mm[i as int].1.push(vm))] + mm.skip(i as int).drop_first())) by {
                    assert forall|j: int| 0 <= j < fm.len() implies fm[j] == (mm.subrange(
                        0,
                        i as int,
                    ) + (seq![(mm[i as int].0, mm[i as int].1.push(vm))] + mm.skip(
                        i as int,
                    ).drop_first()))[j] by {
                        assert(fm[j] == ((m@[j].0.0@, m@[j].0.1@), json_rows_views(m@[j].1@)));
                        if j < i {
                            assert(m@[j] == pre[j]);
                            assert(mm[j] == ((pre[j].0.0@, pre[j].0.1@), json_rows_views(
                                pre[j].1@,
                            )));
                        } else if j > i {
                            assert(m@[j] == pre[j]);
                            assert(mm[j] == ((pre[j].0.0@, pre[j].0.1@), json_rows_views(
                                pre[j].1@,
                            )));
                        } else {
                            assert(((m@[j].0.0@, m@[j].0.1@), json_rows_views(m@[j].1@))
                                == entv);
                        }
                    }
                }
                assert(fm == crate::stage::perms_add(mm, km, vm));
            }
            return;
        }
        i = i + 1;
    }
    proof {
        assert(mm.skip(i as int).len() == 0);
    }
    let mut single: Vec<json::Value> = Vec::new();
    single.push(row);
    proof {
        crate::json::lemma_json_views_of_seq(single@);
        assert(json_rows_views(single@) =~= seq![vm]);
    }
    m.push((k, single));
    proof {
        lemma_perm_views(m@);
        assert(perm_views(m@) =~= mm.subrange(0, mm.len() as int) + crate::stage::perms_add(
            mm.skip(mm.len() as int),
            km,
            vm,
        )) by {
            assert(m@.drop_last() =~= old(m)@);
            assert(mm.subrange(0, mm.len() as int) =~= mm);
        }
    }
}

/// Adding one edge row raises the edge count by one.
proof fn lemma_amap_edges_add(m: Seq<(Seq<char>, Seq<Seq<char>>)>, k: Seq<char>, v: Seq<char>)
    ensures
        crate::stage::amap_edges(crate::stage::multi_add(m, k, v)) == crate::stage::amap_edges(m)
            + 1,
    decreases m.len(),
{
    let m2 = crate::stage::multi_add(m, k, v);
    if m.len() == 0 {
        assert(m2 == seq![(k, seq![v])]);
        assert(m2[0] == (k, seq![v]));
        assert(m2.drop_first() =~= Seq::<(Seq<char>, Seq<Seq<char>>)>::empty());
        assert(crate::stage::amap_edges(m2) == seq![v].len() + crate::stage::amap_edges(
            m2.drop_first(),
        ));
        assert(crate::stage::amap_edges(m2.drop_first()) == 0);
        assert(crate::stage::amap_edges(m) == 0);
    } else if m[0].0 == k {
        assert(m2 == seq![(m[0].0, m[0].1.push(v))] + m.drop_first());
        assert(m2[0] == (m[0].0, m[0].1.push(v)));
        assert(m2.drop_first() =~= m.drop_first());
        assert(crate::stage::amap_edges(m2) == m[0].1.push(v).len()
            + crate::stage::amap_edges(m.drop_first()));
        assert(crate::stage::amap_edges(m) == m[0].1.len() + crate::stage::amap_edges(
            m.drop_first(),
        ));
    } else {
        assert(m2 == seq![m[0]] + crate::stage::multi_add(m.drop_first(), k, v));
        assert(m2[0] == m[0]);
        assert(m2.drop_first() =~= crate::stage::multi_add(m.drop_first(), k, v));
        lemma_amap_edges_add(m.drop_first(), k, v);
        assert(crate::stage::amap_edges(m2) == m[0].1.len() + crate::stage::amap_edges(
            m2.drop_first(),
        ));
        assert(crate::stage::amap_edges(m) == m[0].1.len() + crate::stage::amap_edges(
            m.drop_first(),
        ));
    }
}

/// Builds the principal-to-roles map; also used for the ancestor map.
#[verifier::loop_isolation(false)]
fn run_multi_fold(rows: &Vec<json::Value>, key_field: &str, val_field: &str, is_roles: bool)
    -> (r: Result<(Vec<(String, Vec<String>)>, usize), String>)
    requires
        is_roles ==> (key_field@ == "principal"@ && val_field@ == "role"@),
        !is_roles ==> (key_field@ == "resource"@ && val_field@ == "ancestor"@),
    ensures
        match r {
            Ok(p) => {
                let folded = if is_roles {
                    crate::stage::roles_fold_s(json_rows_views(rows@), Seq::empty())
                } else {
                    crate::stage::amap_fold_s(json_rows_views(rows@), Seq::empty())
                };
                folded == Ok::<Seq<(Seq<char>, Seq<Seq<char>>)>, Seq<char>>(log_views(p.0@))
                    && p.1 as nat == crate::stage::amap_edges(log_views(p.0@))
            },
            Err(e) => {
                let folded = if is_roles {
                    crate::stage::roles_fold_s(json_rows_views(rows@), Seq::empty())
                } else {
                    crate::stage::amap_fold_s(json_rows_views(rows@), Seq::empty())
                };
                folded == Err::<Seq<(Seq<char>, Seq<Seq<char>>)>, Seq<char>>(e@)
            },
        },
{
    broadcast use lemma_log_views;
    let ghost all = json_rows_views(rows@);
    let mut m: Vec<(String, Vec<String>)> = Vec::new();
    let mut count: usize = 0;
    let mut i: usize = 0;
    proof {
        crate::json::lemma_json_views_of_seq(rows@);
        assert(all.skip(0) =~= all);
        assert(log_views(m@) =~= Seq::<(Seq<char>, Seq<Seq<char>>)>::empty());
    }
    while i < rows.len()
        invariant
            i <= rows@.len(),
            all == json_rows_views(rows@),
            count == i,
            is_roles ==> (key_field@ == "principal"@ && val_field@ == "role"@),
            !is_roles ==> (key_field@ == "resource"@ && val_field@ == "ancestor"@),
            count as nat == crate::stage::amap_edges(log_views(m@)),
            is_roles ==> crate::stage::roles_fold_s(all, Seq::empty())
                == crate::stage::roles_fold_s(all.skip(i as int), log_views(m@)),
            !is_roles ==> crate::stage::amap_fold_s(all, Seq::empty())
                == crate::stage::amap_fold_s(all.skip(i as int), log_views(m@)),
        decreases rows@.len() - i,
    {
        proof {
            crate::json::lemma_json_views_of_seq(rows@);
            assert(all.skip(i as int)[0] == all[i as int]);
            assert(all.skip(i as int).drop_first() =~= all.skip(i as int + 1));
        }
        let k = match jfield(&rows[i], key_field) {
            Ok(s) => s,
            Err(e) => {
                return Err(e);
            },
        };
        let v = match jfield(&rows[i], val_field) {
            Ok(s) => s,
            Err(e) => {
                return Err(e);
            },
        };
        proof {
            lemma_amap_edges_add(log_views(m@), k@, v@);
        }
        push_multi(&mut m, k, v);
        count = count + 1;
        i = i + 1;
    }
    proof {
        assert(all.skip(rows@.len() as int).len() == 0);
    }
    Ok((m, count))
}

/// Builds the role-and-action to permission rows map.
#[verifier::loop_isolation(false)]
fn run_perms_fold(rows: &Vec<json::Value>) -> (r: Result<
    Vec<((String, String), Vec<json::Value>)>,
    String,
>)
    ensures
        match r {
            Ok(m) => crate::stage::perms_fold_s(json_rows_views(rows@), Seq::empty()) == Ok::<
                Seq<((Seq<char>, Seq<char>), Seq<JsonModel>)>,
                Seq<char>,
            >(perm_views(m@)),
            Err(e) => crate::stage::perms_fold_s(json_rows_views(rows@), Seq::empty()) == Err::<
                Seq<((Seq<char>, Seq<char>), Seq<JsonModel>)>,
                Seq<char>,
            >(e@),
        },
{
    broadcast use lemma_perm_views;
    let ghost all = json_rows_views(rows@);
    let mut m: Vec<((String, String), Vec<json::Value>)> = Vec::new();
    let mut i: usize = 0;
    proof {
        crate::json::lemma_json_views_of_seq(rows@);
        assert(all.skip(0) =~= all);
        assert(perm_views(m@) =~= Seq::<((Seq<char>, Seq<char>), Seq<JsonModel>)>::empty());
    }
    while i < rows.len()
        invariant
            i <= rows@.len(),
            all == json_rows_views(rows@),
            crate::stage::perms_fold_s(all, Seq::empty()) == crate::stage::perms_fold_s(
                all.skip(i as int),
                perm_views(m@),
            ),
        decreases rows@.len() - i,
    {
        proof {
            crate::json::lemma_json_views_of_seq(rows@);
            assert(all.skip(i as int)[0] == all[i as int]);
            assert(all.skip(i as int).drop_first() =~= all.skip(i as int + 1));
        }
        let role = match jfield(&rows[i], "role") {
            Ok(s) => s,
            Err(e) => {
                return Err(e);
            },
        };
        let action = match jfield(&rows[i], "action") {
            Ok(s) => s,
            Err(e) => {
                return Err(e);
            },
        };
        match jfield(&rows[i], "resource") {
            Ok(_) => {},
            Err(e) => {
                return Err(e);
            },
        }
        let row = rows[i].clone();
        push_perm(&mut m, (role, action), row);
        i = i + 1;
    }
    proof {
        assert(all.skip(rows@.len() as int).len() == 0);
    }
    Ok(m)
}

/// Whether a name stands among the strings.
fn contains_str(out: &Vec<String>, s: &str) -> (r: bool)
    ensures
        r == log_rows_views(out@).contains(s@),
{
    let mut found = false;
    let mut i: usize = 0;
    while i < out.len()
        invariant
            i <= out@.len(),
            found == exists|j: int| 0 <= j < i && log_rows_views(out@)[j] == s@,
        decreases out@.len() - i,
    {
        proof {
            assert(log_rows_views(out@)[i as int] == out@[i as int]@);
        }
        let eq = str_eq(out[i].as_str(), s);
        if eq {
            found = true;
            proof {
                assert(log_rows_views(out@)[i as int] == s@);
            }
        }
        i = i + 1;
    }
    proof {
        if found {
            assert(log_rows_views(out@).contains(s@));
        } else {
            if log_rows_views(out@).contains(s@) {
                let j = choose|j: int|
                    0 <= j < log_rows_views(out@).len() && log_rows_views(out@)[j] == s@;
                assert(false);
            }
        }
    }
    found
}

/// The list of ancestor names of an entry, or none.
fn multi_get<'a>(m: &'a Vec<(String, Vec<String>)>, k: &str) -> (r: Option<&'a Vec<String>>)
    ensures
        match r {
            Some(v) => assoc_get(log_views(m@), k@) == Some(log_rows_views(v@)),
            None => assoc_get(log_views(m@), k@) is None,
        },
{
    broadcast use lemma_log_views;
    let ghost mm = log_views(m@);
    let mut i: usize = 0;
    proof {
        assert(mm.skip(0) =~= mm);
    }
    while i < m.len()
        invariant
            mm == log_views(m@),
            i <= m@.len(),
            assoc_get(mm, k@) == assoc_get(mm.skip(i as int), k@),
        decreases m@.len() - i,
    {
        proof {
            lemma_log_views(m@);
            assert(mm.len() == m@.len());
            assert(mm.skip(i as int)[0] == mm[i as int]);
            assert(mm.skip(i as int).drop_first() =~= mm.skip(i as int + 1));
        }
        if str_eq(m[i].0.as_str(), k) {
            return Some(&m[i].1);
        }
        i = i + 1;
    }
    proof {
        assert(mm.skip(i as int).len() == 0);
    }
    None
}

/// The ancestor-closure of a resource, as `collect_ancestors_s` describes.
#[verifier::loop_isolation(false)]
fn run_bfs(amap: &Vec<(String, Vec<String>)>, resource: String, count: usize) -> (r: Vec<String>)
    requires
        count as nat == crate::stage::amap_edges(log_views(amap@)),
    ensures
        log_rows_views(r@) == crate::stage::collect_ancestors_s(resource@, log_views(amap@)),
{
    broadcast use lemma_log_views;
    let ghost m = log_views(amap@);
    let mut out: Vec<String> = Vec::new();
    let ghost rm = resource@;
    out.push(resource);
    proof {
        assert(log_rows_views(out@) =~= seq![rm]);
    }
    let mut idx: usize = 0;
    while idx < out.len() && idx <= count
        invariant
            m == log_views(amap@),
            count as nat == crate::stage::amap_edges(m),
            idx <= out@.len(),
            idx <= count + 1,
            crate::stage::bfs_s(m, seq![rm], 0, (count + 1) as nat) == crate::stage::bfs_s(
                m,
                log_rows_views(out@),
                idx as int,
                (count + 1 - idx) as nat,
            ),
        decreases count + 1 - idx,
    {
        let cur = out[idx].clone();
        let ghost outv = log_rows_views(out@);
        match multi_get(amap, cur.as_str()) {
            None => {
                proof {
                    assert(crate::stage::bfs_s(m, outv, idx as int, (count + 1 - idx) as nat)
                        == crate::stage::bfs_s(m, outv, idx as int + 1, (count - idx) as nat));
                }
            },
            Some(ancs) => {
                let ghost ancsv = log_rows_views(ancs@);
                let acopy: Vec<String> = {
                    let mut c: Vec<String> = Vec::new();
                    let mut t: usize = 0;
                    while t < ancs.len()
                        invariant
                            t <= ancs@.len(),
                            log_rows_views(c@) == ancsv.subrange(0, t as int),
                            ancsv == log_rows_views(ancs@),
                        decreases ancs@.len() - t,
                    {
                        c.push(ancs[t].clone());
                        t = t + 1;
                        proof {
                            assert(log_rows_views(c@) =~= ancsv.subrange(0, t as int));
                        }
                    }
                    proof {
                        assert(ancsv.subrange(0, ancs@.len() as int) =~= ancsv);
                    }
                    c
                };
                let mut k: usize = 0;
                while k < acopy.len()
                    invariant
                        k <= acopy@.len(),
                        log_rows_views(acopy@) == ancsv,
                        idx < out@.len(),
                        crate::stage::add_missing(outv, ancsv) == crate::stage::add_missing(
                            log_rows_views(out@),
                            ancsv.skip(k as int),
                        ),
                    decreases acopy@.len() - k,
                {
                    proof {
                        assert(ancsv.skip(k as int)[0] == ancsv[k as int]);
                        assert(ancsv.skip(k as int).drop_first() =~= ancsv.skip(k as int + 1));
                        assert(ancsv[k as int] == acopy@[k as int]@);
                    }
                    let here = contains_str(&out, acopy[k].as_str());
                    if !here {
                        let ghost o0 = log_rows_views(out@);
                        let a = acopy[k].clone();
                        let ghost am = a@;
                        out.push(a);
                        proof {
                            assert(log_rows_views(out@) =~= o0.push(am));
                        }
                    }
                    k = k + 1;
                }
                proof {
                    assert(ancsv.skip(acopy@.len() as int).len() == 0);
                    assert(crate::stage::add_missing(log_rows_views(out@),
                        ancsv.skip(acopy@.len() as int)) == log_rows_views(out@));
                    assert(crate::stage::bfs_s(m, outv, idx as int, (count + 1 - idx) as nat)
                        == crate::stage::bfs_s(m, log_rows_views(out@), idx as int + 1,
                        (count - idx) as nat));
                }
            },
        }
        idx = idx + 1;
    }
    proof {
        assert(crate::stage::bfs_s(m, log_rows_views(out@), idx as int, (count + 1 - idx) as nat)
            == log_rows_views(out@));
    }
    out
}

/// The matching candidate rows whose resource is reachable.
#[verifier::loop_isolation(false)]
fn run_cand_fold(rows: &Vec<json::Value>, reachable: &Vec<String>) -> (r: Result<
    Vec<json::Value>,
    String,
>)
    ensures
        match r {
            Ok(found) => crate::stage::cand_fold_s(json_rows_views(rows@), log_rows_views(
                reachable@,
            )) == Ok::<Seq<JsonModel>, Seq<char>>(json_rows_views(found@)),
            Err(e) => crate::stage::cand_fold_s(json_rows_views(rows@), log_rows_views(
                reachable@,
            )) == Err::<Seq<JsonModel>, Seq<char>>(e@),
        },
{
    let ghost all = json_rows_views(rows@);
    let ghost reach = log_rows_views(reachable@);
    let mut out: Vec<json::Value> = Vec::new();
    let mut i: usize = 0;
    proof {
        crate::json::lemma_json_views_of_seq(rows@);
        assert(all.skip(0) =~= all);
        assert(json_rows_views(out@) =~= Seq::<JsonModel>::empty());
    }
    while i < rows.len()
        invariant
            i <= rows@.len(),
            all == json_rows_views(rows@),
            reach == log_rows_views(reachable@),
            crate::stage::cand_fold_s(all, reach) == match crate::stage::cand_fold_s(
                all.skip(i as int),
                reach,
            ) {
                Ok(rest) => Ok::<Seq<JsonModel>, Seq<char>>(json_rows_views(out@) + rest),
                Err(er) => Err::<Seq<JsonModel>, Seq<char>>(er),
            },
        decreases rows@.len() - i,
    {
        proof {
            crate::json::lemma_json_views_of_seq(rows@);
            assert(all.skip(i as int)[0] == all[i as int]);
            assert(all.skip(i as int).drop_first() =~= all.skip(i as int + 1));
        }
        let pr = match jfield(&rows[i], "resource") {
            Ok(s) => s,
            Err(e) => {
                return Err(e);
            },
        };
        if contains_str(reachable, pr.as_str()) {
            let ghost out0 = out@;
            let row = rows[i].clone();
            let ghost rm2 = row@;
            out.push(row);
            proof {
                crate::json::lemma_json_views_of_seq(out0);
                crate::json::lemma_json_views_of_seq(out@);
                assert(out@.drop_last() =~= out0);
                assert(json_rows_views(out@) == json_rows_views(out0).push(rm2));
                match crate::stage::cand_fold_s(all.skip(i as int + 1), reach) {
                    Ok(rest) => {
                        assert(json_rows_views(out0) + (seq![rm2] + rest)
                            =~= json_rows_views(out@) + rest);
                    },
                    Err(_) => {},
                }
            }
        }
        i = i + 1;
    }
    proof {
        assert(all.skip(rows@.len() as int).len() == 0);
        assert(json_rows_views(out@) + Seq::<JsonModel>::empty() =~= json_rows_views(out@));
    }
    Ok(out)
}

/// The permission rows for a role and action pair.
fn pair_get_exec<'a>(
    m: &'a Vec<((String, String), Vec<json::Value>)>,
    role: &str,
    action: &str,
) -> (r: Option<&'a Vec<json::Value>>)
    ensures
        match r {
            Some(v) => crate::stage::pair_get(perm_views(m@), (role@, action@)) == Some(
                json_rows_views(v@),
            ),
            None => crate::stage::pair_get(perm_views(m@), (role@, action@)) is None,
        },
{
    broadcast use lemma_perm_views;
    let ghost mm = perm_views(m@);
    let mut i: usize = 0;
    proof {
        assert(mm.skip(0) =~= mm);
    }
    while i < m.len()
        invariant
            mm == perm_views(m@),
            i <= m@.len(),
            crate::stage::pair_get(mm, (role@, action@)) == crate::stage::pair_get(
                mm.skip(i as int),
                (role@, action@),
            ),
        decreases m@.len() - i,
    {
        proof {
            lemma_perm_views(m@);
            assert(mm.len() == m@.len());
            assert(mm.skip(i as int)[0] == mm[i as int]);
            assert(mm.skip(i as int).drop_first() =~= mm.skip(i as int + 1));
        }
        if str_eq(m[i].0.0.as_str(), role) && str_eq(m[i].0.1.as_str(), action) {
            return Some(&m[i].1);
        }
        i = i + 1;
    }
    proof {
        assert(mm.skip(i as int).len() == 0);
    }
    None
}

/// The matching permission rows over all roles, in order.
#[verifier::loop_isolation(false)]
fn run_matches_fold(
    roles: &Vec<String>,
    perms: &Vec<((String, String), Vec<json::Value>)>,
    action: &String,
    reachable: &Vec<String>,
) -> (r: Result<Vec<json::Value>, String>)
    ensures
        match r {
            Ok(found) => crate::stage::matches_fold_s(log_rows_views(roles@), perm_views(perms@),
                action@, log_rows_views(reachable@)) == Ok::<Seq<JsonModel>, Seq<char>>(
                json_rows_views(found@),
            ),
            Err(e) => crate::stage::matches_fold_s(log_rows_views(roles@), perm_views(perms@),
                action@, log_rows_views(reachable@)) == Err::<Seq<JsonModel>, Seq<char>>(e@),
        },
{
    let ghost rls = log_rows_views(roles@);
    let ghost pm = perm_views(perms@);
    let ghost reach = log_rows_views(reachable@);
    let mut out: Vec<json::Value> = Vec::new();
    let mut i: usize = 0;
    proof {
        assert(rls.skip(0) =~= rls);
        assert(json_rows_views(out@) =~= Seq::<JsonModel>::empty());
    }
    while i < roles.len()
        invariant
            i <= roles@.len(),
            rls == log_rows_views(roles@),
            pm == perm_views(perms@),
            reach == log_rows_views(reachable@),
            crate::stage::matches_fold_s(rls, pm, action@, reach) == match
                crate::stage::matches_fold_s(rls.skip(i as int), pm, action@, reach) {
                Ok(rest) => Ok::<Seq<JsonModel>, Seq<char>>(json_rows_views(out@) + rest),
                Err(er) => Err::<Seq<JsonModel>, Seq<char>>(er),
            },
        decreases roles@.len() - i,
    {
        proof {
            assert(rls.skip(i as int)[0] == rls[i as int]);
            assert(rls.skip(i as int).drop_first() =~= rls.skip(i as int + 1));
            assert(rls[i as int] == roles@[i as int]@);
        }
        let part: Vec<json::Value> = match pair_get_exec(perms, roles[i].as_str(),
            action.as_str()) {
            Some(cands) => match run_cand_fold(cands, reachable) {
                Ok(found) => found,
                Err(e) => {
                    return Err(e);
                },
            },
            None => Vec::new(),
        };
        let ghost out0 = out@;
        let ghost partm = json_rows_views(part@);
        let mut k: usize = 0;
        let plen = part.len();
        let padd = part;
        proof {
            crate::json::lemma_json_views_of_seq(padd@);
            if crate::stage::pair_get(pm, (rls[i as int], action@)) is None {
                assert(partm =~= Seq::<JsonModel>::empty());
            }
        }
        while k < plen
            invariant
                k <= plen,
                plen == padd@.len(),
                partm == json_rows_views(padd@),
                json_rows_views(out@) == json_rows_views(out0) + partm.subrange(0, k as int),
            decreases plen - k,
        {
            proof {
                crate::json::lemma_json_views_of_seq(padd@);
            }
            let ghost o0 = out@;
            let item = padd[k].clone();
            let ghost im = item@;
            out.push(item);
            proof {
                crate::json::lemma_json_views_of_seq(o0);
                crate::json::lemma_json_views_of_seq(out@);
                assert(out@.drop_last() =~= o0);
                assert(json_rows_views(out@) == json_rows_views(o0).push(im));
                assert(im == partm[k as int]);
                assert(json_rows_views(o0).push(im) =~= json_rows_views(out0) + partm.subrange(
                    0,
                    k as int + 1,
                ));
            }
            k = k + 1;
        }
        proof {
            assert(partm.subrange(0, plen as int) =~= partm);
            match crate::stage::matches_fold_s(rls.skip(i as int + 1), pm, action@, reach) {
                Ok(rest) => {
                    assert(json_rows_views(out0) + (partm + rest)
                        =~= json_rows_views(out@) + rest);
                },
                Err(_) => {},
            }
        }
        i = i + 1;
    }
    proof {
        assert(rls.skip(roles@.len() as int).len() == 0);
        assert(json_rows_views(out@) + Seq::<JsonModel>::empty() =~= json_rows_views(out@));
    }
    Ok(out)
}

/// Evaluates the policy stage, as `rbac_s` describes.
#[verifier::loop_isolation(false)]
fn run_rbac(
    input: &Vec<Value>,
    bindings: &Vec<json::Value>,
    perms_rows: &Vec<json::Value>,
    ancestors: &Vec<json::Value>,
) -> (r: Result<Vec<Value>, String>)
    ensures
        match r {
            Ok(vs) => crate::stage::rbac_s(views_of_seq(input@), json_rows_views(bindings@),
                json_rows_views(perms_rows@), json_rows_views(ancestors@)) == Ok::<
                Seq<ValueModel>,
                Seq<char>,
            >(views_of_seq(vs@)),
            Err(e) => crate::stage::rbac_s(views_of_seq(input@), json_rows_views(bindings@),
                json_rows_views(perms_rows@), json_rows_views(ancestors@)) == Err::<
                Seq<ValueModel>,
                Seq<char>,
            >(e@),
        },
{
    broadcast use lemma_views_of_seq;
    let (roles_map, _) = match run_multi_fold(bindings, "principal", "role", true) {
        Ok(p) => p,
        Err(e) => {
            return Err(e);
        },
    };
    let perms = match run_perms_fold(perms_rows) {
        Ok(m) => m,
        Err(e) => {
            return Err(e);
        },
    };
    let (amap, edges) = match run_multi_fold(ancestors, "resource", "ancestor", false) {
        Ok(p) => p,
        Err(e) => {
            return Err(e);
        },
    };
    let ghost rolesm = log_views(roles_map@);
    let ghost permsm = perm_views(perms@);
    let ghost amapm = log_views(amap@);
    let ghost all = views_of_seq(input@);
    let mut out: Vec<Value> = Vec::new();
    let mut i: usize = 0;
    proof {
        assert(all.skip(0) =~= all);
        assert(views_of_seq(out@) =~= Seq::<ValueModel>::empty());
    }
    while i < input.len()
        invariant
            i <= input@.len(),
            all == views_of_seq(input@),
            rolesm == log_views(roles_map@),
            permsm == perm_views(perms@),
            amapm == log_views(amap@),
            edges as nat == crate::stage::amap_edges(amapm),
            crate::stage::rbac_requests_s(all, rolesm, permsm, amapm) == match
                crate::stage::rbac_requests_s(all.skip(i as int), rolesm, permsm, amapm) {
                Ok(rest) => Ok::<Seq<ValueModel>, Seq<char>>(views_of_seq(out@) + rest),
                Err(er) => Err::<Seq<ValueModel>, Seq<char>>(er),
            },
        decreases input@.len() - i,
    {
        proof {
            assert(all.skip(i as int)[0] == all[i as int]);
            assert(all.skip(i as int).drop_first() =~= all.skip(i as int + 1));
        }
        let rj = crate::value::value_to_json(&input[i]);
        let principal = match jfield(&rj, "principal") {
            Ok(s) => s,
            Err(e) => {
                return Err(e);
            },
        };
        let action = match jfield(&rj, "action") {
            Ok(s) => s,
            Err(e) => {
                return Err(e);
            },
        };
        let resource = match jfield(&rj, "resource") {
            Ok(s) => s,
            Err(e) => {
                return Err(e);
            },
        };
        let empty_roles: Vec<String> = Vec::new();
        proof {
            assert(log_rows_views(empty_roles@) =~= Seq::<Seq<char>>::empty());
        }
        let prole: &Vec<String> = match multi_get(&roles_map, principal.as_str()) {
            Some(v) => v,
            None => &empty_roles,
        };
        let reachable = run_bfs(&amap, resource, edges);
        let found = match run_matches_fold(prole, &perms, &action, &reachable) {
            Ok(found) => found,
            Err(e) => {
                return Err(e);
            },
        };
        let decision: String = if found.len() == 0 {
            String::from_str("deny")
        } else {
            String::from_str("allow")
        };
        let ghost foundm = json_rows_views(found@);
        proof {
            crate::json::lemma_json_views_of_seq(found@);
        }
        let mut fields: Vec<(String, json::Value)> = Vec::new();
        fields.push((String::from_str("decision"), json::Value::String(decision)));
        fields.push((String::from_str("matches"), json::Value::Array(found)));
        fields.push((String::from_str("request"), rj));
        let obj = json::Value::Object(fields);
        proof {
            crate::json::lemma_json_views_of_fields(obj->Object_0@);
        }
        let ghost rjm = crate::value::v2j(all[i as int]);
        proof {
            let decm: Seq<char> = if foundm.len() == 0 {
                "deny"@
            } else {
                "allow"@
            };
            assert(crate::json::json_views_of_fields(obj->Object_0@) =~= seq![
                ("decision"@, JsonModel::String(decm)),
                ("matches"@, JsonModel::Array(foundm)),
                ("request"@, rjm),
            ]);
        }
        let row = crate::value::json_to_value(&obj);
        let ghost rowm = row@;
        let ghost out0 = out@;
        out.push(row);
        proof {
            assert(out@.drop_last() =~= out0);
            assert(views_of_seq(out@) == views_of_seq(out0).push(rowm));
            match crate::stage::rbac_requests_s(all.skip(i as int + 1), rolesm, permsm, amapm) {
                Ok(rest) => {
                    assert(views_of_seq(out0) + (seq![rowm] + rest)
                        =~= views_of_seq(out@) + rest);
                },
                Err(_) => {},
            }
        }
        i = i + 1;
    }
    proof {
        assert(all.skip(input@.len() as int).len() == 0);
        assert(views_of_seq(out@) + Seq::<ValueModel>::empty() =~= views_of_seq(out@));
    }
    Ok(out)
}

/// Each stream value as JSON, in order.
#[verifier::loop_isolation(false)]
fn rows_to_json(values: &Vec<Value>) -> (r: Vec<json::Value>)
    ensures
        json_rows_views(r@) == Seq::new(
            views_of_seq(values@).len(),
            |j: int| crate::value::v2j(views_of_seq(values@)[j]),
        ),
{
    broadcast use lemma_views_of_seq;
    let ghost all = views_of_seq(values@);
    let mut rows: Vec<json::Value> = Vec::new();
    let mut i: usize = 0;
    proof {
        crate::json::lemma_json_views_of_seq(rows@);
        assert(json_rows_views(rows@) =~= Seq::<JsonModel>::empty());
    }
    while i < values.len()
        invariant
            i <= values@.len(),
            all == views_of_seq(values@),
            rows@.len() == i,
            forall|j: int|
                0 <= j < i ==> json_rows_views(rows@)[j] == crate::value::v2j(all[j]),
        decreases values@.len() - i,
    {
        let jv = crate::value::value_to_json(&values[i]);
        let ghost jvm = jv@;
        let ghost rows0 = rows@;
        rows.push(jv);
        proof {
            crate::json::lemma_json_views_of_seq(rows0);
            crate::json::lemma_json_views_of_seq(rows@);
            assert(rows@.drop_last() =~= rows0);
            assert(json_rows_views(rows@) == json_rows_views(rows0).push(jvm));
            assert(jvm == crate::value::v2j(all[i as int]));
        }
        i = i + 1;
    }
    proof {
        crate::json::lemma_json_views_of_seq(rows@);
        assert(json_rows_views(rows@) =~= Seq::new(
            all.len(),
            |j: int| crate::value::v2j(all[j]),
        ));
    }
    rows
}

/// Each stream value serialized to its JSON text, in order.
#[verifier::loop_isolation(false)]
fn rows_to_text(values: &Vec<Value>) -> (r: Vec<String>)
    ensures
        log_rows_views(r@) == Seq::new(
            views_of_seq(values@).len(),
            |j: int| crate::json::json_text(crate::value::v2j(views_of_seq(values@)[j])),
        ),
{
    broadcast use lemma_views_of_seq;
    let ghost all = views_of_seq(values@);
    let mut rows: Vec<String> = Vec::new();
    let mut i: usize = 0;
    proof {
        assert(log_rows_views(rows@) =~= Seq::<Seq<char>>::empty());
    }
    while i < values.len()
        invariant
            i <= values@.len(),
            all == views_of_seq(values@),
            rows@.len() == i,
            forall|j: int|
                0 <= j < i ==> log_rows_views(rows@)[j] == crate::json::json_text(
                    crate::value::v2j(all[j]),
                ),
        decreases values@.len() - i,
    {
        let jv = crate::value::value_to_json(&values[i]);
        let text = match crate::json::to_string(&jv) {
            Ok(t) => t,
            Err(_) => String::new(),
        };
        let ghost rows0 = rows@;
        rows.push(text);
        proof {
            assert(rows@.drop_last() =~= rows0);
            assert(log_rows_views(rows@) =~= log_rows_views(rows0).push(rows@.last()@));
        }
        i = i + 1;
    }
    proof {
        assert(log_rows_views(rows@) =~= Seq::new(
            all.len(),
            |j: int| crate::json::json_text(crate::value::v2j(all[j])),
        ));
    }
    rows
}

/// Applies a stage to a stream, as `apply_stage_s` describes: the outputs
/// gain one explain line per executed stage, sinks append their rows, and
/// `kv.load` updates the stores.  On an error the run's accumulators are
/// abandoned by the driver, so only the error message is promised.
#[verifier::loop_isolation(false)]
#[verifier::rlimit(100)]
pub fn apply_stage(
    stage: &Stage,
    stream: Stream,
    fixtures: &Table,
    state: &mut RuntimeState,
    outputs: &mut Outputs,
) -> (r: Result<Stream, String>)
    ensures
        match r {
            Ok(out) => crate::stage::apply_stage_s(stage@, stream@, fixtures@, old(state)@,
                old(outputs).tables@, old(outputs).logs@, log_rows_views(old(outputs).explain@))
                == Ok::<crate::stage::Applied, Seq<char>>(crate::stage::Applied {
                out: out@,
                kv: final(state)@,
                tables: final(outputs).tables@,
                logs: final(outputs).logs@,
                explain: log_rows_views(final(outputs).explain@),
            }),
            Err(e) => crate::stage::apply_stage_s(stage@, stream@, fixtures@, old(state)@,
                old(outputs).tables@, old(outputs).logs@, log_rows_views(old(outputs).explain@))
                == Err::<crate::stage::Applied, Seq<char>>(e@),
        },
    decreases stage,
{
    broadcast use lemma_views_of_seq;
    match stage {
        Stage::MapEach(e) => match crate::eval::eval_map_items(e, &stream.values, None) {
            Err(er) => Err(er),
            Ok(out) => {
                push_explain(outputs, String::from_str("  [pure] map"));
                Ok(Stream::new(out))
            },
        },
        Stage::Filter(e) => match crate::eval::eval_filter_items(e, &stream.values, None) {
            Err(er) => Err(er),
            Ok(out) => {
                push_explain(outputs, String::from_str("  [pure] filter"));
                Ok(Stream::new(out))
            },
        },
        Stage::FlatMap(e) => match stage_flat_items(e, &stream.values) {
            Err(er) => Err(er),
            Ok(out) => {
                push_explain(outputs, String::from_str("  [pure] flat_map"));
                Ok(Stream::new(out))
            },
        },
        Stage::GroupCollectAll { by_key, within_ms, limit } => {
            if *within_ms < 0 {
                return Err(String::from_str("group.collect_all within_ms must be >= 0"));
            }
            if *limit < 0 {
                return Err(String::from_str("group.collect_all limit must be >= 0"));
            }
            proof {
                reveal_strlit("");
                assert(""@ =~= Seq::<char>::empty());
            }
            match run_group_fold(by_key, &stream.values, false, "") {
                Err(er) => Err(er),
                Ok(gs) => {
                    let out = collect_out(gs, *limit);
                    push_explain(outputs, String::from_str("  [pure] group.collect_all"));
                    Ok(Stream::new(out))
                },
            }
        },
        Stage::GroupCount { by_key } => {
            match run_group_fold(by_key, &stream.values, true,
                "group.count by_key must evaluate to I64 or String") {
                Err(er) => Err(er),
                Ok(gs) => {
                    let out = count_out(gs);
                    push_explain(outputs, String::from_str("  [pure] group.count"));
                    Ok(Stream::new(out))
                },
            }
        },
        Stage::RankTopK { k, by, order } => {
            if *k < 0 {
                return Err(String::from_str("rank.topk k must be >= 0"));
            }
            match run_rank_rows(by, &stream.values,
                "rank.topk by expression must evaluate to I64 or String") {
                Err(er) => Err(er),
                Ok(rows) => {
                    let sorted = crate::stage::sort_rows(*order, rows);
                    let out = take_row_items(sorted, *k);
                    push_explain(outputs, String::from_str("  [pure] rank.topk"));
                    Ok(Stream::new(out))
                },
            }
        },
        Stage::GroupTopNItems { by_key, n, order_by, order } => {
            if *n < 0 {
                return Err(String::from_str("group.topn_items n must be >= 0"));
            }
            match run_topn_fold(by_key, order_by, &stream.values) {
                Err(er) => Err(er),
                Ok(gs) => {
                    let out = topn_out(gs, *n, *order);
                    push_explain(outputs, String::from_str("  [pure] group.topn_items"));
                    Ok(Stream::new(out))
                },
            }
        },
        Stage::KvLoad { store } => match run_kv_load(state, store, &stream.values) {
            Err(er) => Err(er),
            Ok(_) => {
                let line = String::from_str("  [sink] kv.load(").concat(store.as_str()).concat(
                    ")",
                );
                push_explain(outputs, line);
                let mut unit: Vec<Value> = Vec::new();
                unit.push(Value::Unit);
                proof {
                    assert(views_of_seq(unit@) =~= seq![ValueModel::Unit]);
                }
                Ok(Stream::new(unit))
            },
        },
        Stage::LookupKv { store, key } => match run_lookup(key, &stream.values, state, store,
            "lookup.kv key must evaluate to String") {
            Err(er) => Err(er),
            Ok(out) => {
                let line = String::from_str("  [pure] lookup.kv(").concat(store.as_str()).concat(
                    ")",
                );
                push_explain(outputs, line);
                Ok(Stream::new(out))
            },
        },
        Stage::LookupBatchKv { store, key, batch_size, within_ms } => {
            if *batch_size < 0 || *within_ms < 0 {
                return Err(String::from_str(
                    "lookup.batch_kv batch_size/within_ms must be >= 0",
                ));
            }
            match run_lookup(key, &stream.values, state, store,
                "lookup.batch_kv key must evaluate to String") {
                Err(er) => Err(er),
                Ok(out) => {
                    let line = String::from_str("  [pure] lookup.batch_kv(").concat(
                        store.as_str(),
                    ).concat(")");
                    push_explain(outputs, line);
                    Ok(Stream::new(out))
                },
            }
        },
        Stage::RbacEvaluate { principal_bindings, role_perms, resource_ancestors } => {
            let bindings = match fixtures.get(principal_bindings.as_str()) {
                Some(rows) => rows,
                None => {
                    return Err(String::from_str("missing fixture: ").concat(
                        principal_bindings.as_str(),
                    ));
                },
            };
            let perms_rows = match fixtures.get(role_perms.as_str()) {
                Some(rows) => rows,
                None => {
                    return Err(String::from_str("missing fixture: ").concat(
                        role_perms.as_str(),
                    ));
                },
            };
            let ancestors = match fixtures.get(resource_ancestors.as_str()) {
                Some(rows) => rows,
                None => {
                    return Err(String::from_str("missing fixture: ").concat(
                        resource_ancestors.as_str(),
                    ));
                },
            };
            match run_rbac(&stream.values, bindings, perms_rows, ancestors) {
                Err(er) => Err(er),
                Ok(out) => {
                    push_explain(outputs, String::from_str("  [pure] rbac.evaluate"));
                    Ok(Stream::new(out))
                },
            }
        },
        Stage::Json(dir) => match run_codec(Codec::Json, *dir, &stream.values) {
            Err(er) => Err(er),
            Ok(out) => {
                push_explain(outputs, String::from_str("  [reversible] json"));
                Ok(Stream::new(out))
            },
        },
        Stage::Utf8(dir) => match run_codec(Codec::Utf8, *dir, &stream.values) {
            Err(er) => Err(er),
            Ok(out) => {
                push_explain(outputs, String::from_str("  [reversible] utf8"));
                Ok(Stream::new(out))
            },
        },
        Stage::Base64(dir) => match run_codec(Codec::B64, *dir, &stream.values) {
            Err(er) => Err(er),
            Ok(out) => {
                push_explain(outputs, String::from_str("  [reversible] base64"));
                Ok(Stream::new(out))
            },
        },
        Stage::UiTable(name) => {
            let rows = rows_to_json(&stream.values);
            outputs.tables.append(name.clone(), rows);
            let line = String::from_str("  [sink] ui.table(").concat(name.as_str()).concat(")");
            push_explain(outputs, line);
            let mut unit: Vec<Value> = Vec::new();
            unit.push(Value::Unit);
            proof {
                assert(views_of_seq(unit@) =~= seq![ValueModel::Unit]);
            }
            Ok(Stream::new(unit))
        },
        Stage::UiLog(name) => {
            let rows = rows_to_text(&stream.values);
            outputs.logs.append(name.clone(), rows);
            let line = String::from_str("  [sink] ui.log(").concat(name.as_str()).concat(")");
            push_explain(outputs, line);
            let mut unit: Vec<Value> = Vec::new();
            unit.push(Value::Unit);
            proof {
                assert(views_of_seq(unit@) =~= seq![ValueModel::Unit]);
            }
            Ok(Stream::new(unit))
        },
        Stage::Compose(parts) => {
            let ghost pm = crate::stage::stage_views(parts@);
            let mut cur = stream;
            let mut i: usize = 0;
            proof {
                crate::stage::lemma_stage_views(parts@);
                assert(pm.skip(0) =~= pm);
            }
            while i < parts.len()
                invariant
                    i <= parts@.len(),
                    pm == crate::stage::stage_views(parts@),
                    crate::stage::apply_all_s(pm, stream@, fixtures@, old(state)@,
                        old(outputs).tables@, old(outputs).logs@,
                        log_rows_views(old(outputs).explain@)) == crate::stage::apply_all_s(
                        pm.skip(i as int),
                        cur@,
                        fixtures@,
                        state@,
                        outputs.tables@,
                        outputs.logs@,
                        log_rows_views(outputs.explain@),
                    ),
                decreases parts@.len() - i,
            {
                proof {
                    crate::stage::lemma_stage_views(parts@);
                    assert(pm.skip(i as int)[0] == pm[i as int]);
                    assert(pm.skip(i as int).drop_first() =~= pm.skip(i as int + 1));
                }
                cur = match apply_stage(&parts[i], cur, fixtures, state, outputs) {
                    Ok(next) => next,
                    Err(e) => {
                        return Err(e);
                    },
                };
                i = i + 1;
            }
            proof {
                assert(pm.skip(parts@.len() as int).len() == 0);
                assert(crate::stage::apply_all_s(pm.skip(parts@.len() as int), cur@, fixtures@,
                    state@, outputs.tables@, outputs.logs@, log_rows_views(outputs.explain@))
                    == Ok::<crate::stage::Applied, Seq<char>>(crate::stage::Applied {
                    out: cur@,
                    kv: state@,
                    tables: outputs.tables@,
                    logs: outputs.logs@,
                    explain: log_rows_views(outputs.explain@),
                }));
            }
            Ok(cur)
        },
    }
}

/// Appends one line to the explain trace.
fn push_explain(outputs: &mut Outputs, line: String)
    ensures
        final(outputs).tables@ == old(outputs).tables@,
        final(outputs).logs@ == old(outputs).logs@,
        log_rows_views(final(outputs).explain@) == log_rows_views(old(outputs).explain@).push(
            line@,
        ),
{
    let ghost e0 = outputs.explain@;
    outputs.explain.push(line);
    proof {
        assert(outputs.explain@.drop_last() =~= e0);
        assert(log_rows_views(outputs.explain@) =~= log_rows_views(e0).push(
            outputs.explain@.last()@,
        ));
    }
}

/// A name's binding: a stream, or a stage.
#[derive(Debug)]
pub enum Binding {
    Stream(Stream),
    Stage(Stage),
}

/// The model of a binding.
pub enum BindingModel {
    Stream(Seq<ValueModel>),
    Stage(crate::stage::StageModel),
}

impl View for Binding {
    type V = BindingModel;

    open spec fn view(&self) -> BindingModel {
        match self {
            Binding::Stream(s) => BindingModel::Stream(s@),
            Binding::Stage(s) => BindingModel::Stage(s@),
        }
    }
}

/// The environment model: names bound to streams or stages.
pub type EnvModel = Seq<(Seq<char>, BindingModel)>;

/// A binding lookup: the first entry with the name.
pub open spec fn env_get(env: EnvModel, name: Seq<char>) -> Option<BindingModel>
    decreases env.len(),
{
    if env.len() == 0 {
        None
    } else if env[0].0 == name {
        Some(env[0].1)
    } else {
        env_get(env.drop_first(), name)
    }
}

/// A binding insert: replaces the first entry with the name, or appends.
pub open spec fn env_set(env: EnvModel, name: Seq<char>, b: BindingModel) -> EnvModel
    decreases env.len(),
{
    if env.len() == 0 {
        seq![(name, b)]
    } else if env[0].0 == name {
        seq![(name, b)] + env.drop_first()
    } else {
        seq![env[0]] + env_set(env.drop_first(), name, b)
    }
}

/// The expression at a positional argument of a statement-level call.
pub open spec fn call_pos_s(args: Seq<CallArgModel>, idx: int) -> Result<ExprModel, Seq<char>> {
    if idx < 0 || idx >= args.len() {
        Err("missing positional arg"@)
    } else {
        match args[idx] {
            CallArgModel::Positional(e) => Ok(e),
            CallArgModel::Named { .. } => Err("named arguments are not supported in v0"@),
        }
    }
}

/// The expression of the first argument with the given name.
pub open spec fn call_named_s(args: Seq<CallArgModel>, name: Seq<char>) -> Result<
    ExprModel,
    Seq<char>,
>
    decreases args.len(),
{
    if args.len() == 0 {
        Err("missing named arg: "@ + name)
    } else {
        match args[0] {
            CallArgModel::Named { name: n, value } => if n == name {
                Ok(value)
            } else {
                call_named_s(args.drop_first(), name)
            },
            CallArgModel::Positional(_) => call_named_s(args.drop_first(), name),
        }
    }
}

/// A string literal argument's text.
pub open spec fn expect_string_s(e: ExprModel) -> Result<Seq<char>, Seq<char>> {
    match e {
        ExprModel::String { value } => Ok(value),
        _ => Err("expected string literal"@),
    }
}

/// An integer literal argument's value.
pub open spec fn expect_i64_s(e: ExprModel) -> Result<i64, Seq<char>> {
    match e {
        ExprModel::Number { value } => Ok(value),
        _ => Err("expected i64 literal"@),
    }
}

/// A sort order argument: the string `asc` or `desc`.
pub open spec fn sort_order_s(e: ExprModel) -> Result<SortOrder, Seq<char>> {
    match expect_string_s(e) {
        Err(er) => Err(er),
        Ok(s) => if s == "asc"@ {
            Ok(SortOrder::Asc)
        } else if s == "desc"@ {
            Ok(SortOrder::Desc)
        } else {
            Err("order must be \"asc\" or \"desc\""@)
        },
    }
}

/// The bytes of each fixture row's JSON text, as the `input.json` source
/// emits them.
pub open spec fn source_values_s(rows: Seq<JsonModel>) -> Seq<ValueModel> {
    Seq::new(
        rows.len(),
        |i: int|
            ValueModel::Bytes(vstd::utf8::encode_utf8(crate::json::json_text(rows[i]))),
    )
}

/// What evaluating a statement-level expression yields: a stream or stage
/// binding, with any effects a nested pipeline had.
pub open spec fn eval_binding_s(
    e: ExprModel,
    env: EnvModel,
    fixtures: RowsModel,
    kv: KvModel,
    tables: RowsModel,
    logs: LogsModel,
    explain: Seq<Seq<char>>,
) -> Result<(BindingModel, KvModel, RowsModel, LogsModel, Seq<Seq<char>>), Seq<char>>
    decreases e, 0int,
{
    match e {
        ExprModel::Pipeline { input, stages } => match eval_binding_s(*input, env, fixtures, kv,
            tables, logs, explain) {
            Err(er) => Err(er),
            Ok((b, kv1, t1, l1, e1)) => match b {
                BindingModel::Stream(stream) => match pipe_fold_s(stages, stream, env, fixtures,
                    kv1, t1, l1, e1) {
                    Err(er) => Err(er),
                    Ok((out, kv2, t2, l2, e2)) => Ok(
                        (BindingModel::Stream(out), kv2, t2, l2, e2),
                    ),
                },
                _ => Err("expected stream"@),
            },
        },
        ExprModel::Call { callee, args } => match callee_name_s(*callee) {
            None => Err("unsupported callee"@),
            Some(name) => eval_call_binding_s(name, args, fixtures, kv, tables, logs, explain),
        },
        ExprModel::Ident { name } => if name == "json"@ {
            Ok((BindingModel::Stage(crate::stage::StageModel::Json(Direction::Auto)), kv, tables,
                logs, explain))
        } else if name == "utf8"@ {
            Ok((BindingModel::Stage(crate::stage::StageModel::Utf8(Direction::Auto)), kv, tables,
                logs, explain))
        } else if name == "base64"@ {
            Ok((BindingModel::Stage(crate::stage::StageModel::Base64(Direction::Auto)), kv,
                tables, logs, explain))
        } else {
            match env_get(env, name) {
                Some(b) => Ok((b, kv, tables, logs, explain)),
                None => Err("unknown ident "@ + name),
            }
        },
        ExprModel::Compose { left, right } => match eval_binding_s(*left, env, fixtures, kv,
            tables, logs, explain) {
            Err(er) => Err(er),
            Ok((bl, kv1, t1, l1, e1)) => match bl {
                BindingModel::Stage(sl) => match eval_binding_s(*right, env, fixtures, kv1, t1,
                    l1, e1) {
                    Err(er) => Err(er),
                    Ok((br, kv2, t2, l2, e2)) => match br {
                        BindingModel::Stage(sr) => Ok(
                            (BindingModel::Stage(crate::stage::StageModel::Compose(seq![sl, sr])),
                                kv2, t2, l2, e2),
                        ),
                        _ => Err("expected stage"@),
                    },
                },
                _ => Err("expected stage"@),
            },
        },
        ExprModel::Inverse { expr } => match eval_binding_s(*expr, env, fixtures, kv, tables,
            logs, explain) {
            Err(er) => Err(er),
            Ok((b, kv1, t1, l1, e1)) => match b {
                BindingModel::Stage(s) => match crate::stage::invert_stage_s(s) {
                    Err(er) => Err(er),
                    Ok(inv) => Ok((BindingModel::Stage(inv), kv1, t1, l1, e1)),
                },
                _ => Err("expected stage"@),
            },
        },
        _ => Err("unsupported expression for stream/stage evaluation"@),
    }
}

/// What a statement-level call yields: the source stage materializing a
/// fixture, or a stage constructor.
pub open spec fn eval_call_binding_s(
    name: Seq<char>,
    args: Seq<CallArgModel>,
    fixtures: RowsModel,
    kv: KvModel,
    tables: RowsModel,
    logs: LogsModel,
    explain: Seq<Seq<char>>,
) -> Result<(BindingModel, KvModel, RowsModel, LogsModel, Seq<Seq<char>>), Seq<char>> {
    if name == "input.json"@ {
        match call_pos_s(args, 0) {
            Err(er) => Err(er),
            Ok(a0) => match expect_string_s(a0) {
                Err(er) => Err(er),
                Ok(fixture_name) => match assoc_get(fixtures, fixture_name) {
                    None => Err("missing fixture: "@ + fixture_name),
                    Some(rows) => Ok(
                        (BindingModel::Stream(source_values_s(rows)), kv, tables, logs,
                            explain.push(
                            "  [source] input.json("@ + fixture_name + ")"@,
                        )),
                    ),
                },
            },
        }
    } else if name == "map"@ {
        match call_pos_s(args, 0) {
            Err(er) => Err(er),
            Ok(a0) => Ok((BindingModel::Stage(crate::stage::StageModel::MapEach(a0)), kv, tables,
                logs, explain)),
        }
    } else if name == "filter"@ {
        match call_pos_s(args, 0) {
            Err(er) => Err(er),
            Ok(a0) => Ok((BindingModel::Stage(crate::stage::StageModel::Filter(a0)), kv, tables,
                logs, explain)),
        }
    } else if name == "flat_map"@ {
        match call_pos_s(args, 0) {
            Err(er) => Err(er),
            Ok(a0) => Ok((BindingModel::Stage(crate::stage::StageModel::FlatMap(a0)), kv, tables,
                logs, explain)),
        }
    } else if name == "group.collect_all"@ {
        match call_named_s(args, "by_key"@) {
            Err(er) => Err(er),
            Ok(bk) => match call_named_s(args, "within_ms"@) {
                Err(er) => Err(er),
                Ok(wm) => match expect_i64_s(wm) {
                    Err(er) => Err(er),
                    Ok(w) => match call_named_s(args, "limit"@) {
                        Err(er) => Err(er),
                        Ok(le) => match expect_i64_s(le) {
                            Err(er) => Err(er),
                            Ok(l) => Ok((BindingModel::Stage(
                                crate::stage::StageModel::GroupCollectAll {
                                    by_key: bk,
                                    within_ms: w,
                                    limit: l,
                                },
                            ), kv, tables, logs, explain)),
                        },
                    },
                },
            },
        }
    } else if name == "group.count"@ {
        match call_named_s(args, "by_key"@) {
            Err(er) => Err(er),
            Ok(bk) => Ok((BindingModel::Stage(crate::stage::StageModel::GroupCount {
                by_key: bk,
            }), kv, tables, logs, explain)),
        }
    } else if name == "rank.topk"@ {
        match call_named_s(args, "k"@) {
            Err(er) => Err(er),
            Ok(ke) => match expect_i64_s(ke) {
                Err(er) => Err(er),
                Ok(k) => match call_named_s(args, "by"@) {
                    Err(er) => Err(er),
                    Ok(by) => match call_named_s(args, "order"@) {
                        Err(er) => Err(er),
                        Ok(oe) => match sort_order_s(oe) {
                            Err(er) => Err(er),
                            Ok(order) => Ok((BindingModel::Stage(
                                crate::stage::StageModel::RankTopK { k, by, order },
                            ), kv, tables, logs, explain)),
                        },
                    },
                },
            },
        }
    } else if name == "group.topn_items"@ {
        match call_named_s(args, "by_key"@) {
            Err(er) => Err(er),
            Ok(bk) => match call_named_s(args, "n"@) {
                Err(er) => Err(er),
                Ok(ne) => match expect_i64_s(ne) {
                    Err(er) => Err(er),
                    Ok(n) => match call_named_s(args, "order_by"@) {
                        Err(er) => Err(er),
                        Ok(ob) => match call_named_s(args, "order"@) {
                            Err(er) => Err(er),
                            Ok(oe) => match sort_order_s(oe) {
                                Err(er) => Err(er),
                                Ok(order) => Ok((BindingModel::Stage(
                                    crate::stage::StageModel::GroupTopNItems {
                                        by_key: bk,
                                        n,
                                        order_by: ob,
                                        order,
                                    },
                                ), kv, tables, logs, explain)),
                            },
                        },
                    },
                },
            },
        }
    } else if name == "kv.load"@ {
        match call_named_s(args, "store"@) {
            Err(er) => Err(er),
            Ok(se) => match expect_string_s(se) {
                Err(er) => Err(er),
                Ok(store) => Ok((BindingModel::Stage(crate::stage::StageModel::KvLoad { store }),
                    kv, tables, logs, explain)),
            },
        }
    } else if name == "lookup.kv"@ {
        match call_named_s(args, "store"@) {
            Err(er) => Err(er),
            Ok(se) => match expect_string_s(se) {
                Err(er) => Err(er),
                Ok(store) => match call_named_s(args, "key"@) {
                    Err(er) => Err(er),
                    Ok(key) => Ok((BindingModel::Stage(crate::stage::StageModel::LookupKv {
                        store,
                        key,
                    }), kv, tables, logs, explain)),
                },
            },
        }
    } else if name == "lookup.batch_kv"@ {
        match call_named_s(args, "store"@) {
            Err(er) => Err(er),
            Ok(se) => match expect_string_s(se) {
                Err(er) => Err(er),
                Ok(store) => match call_named_s(args, "key"@) {
                    Err(er) => Err(er),
                    Ok(key) => match call_named_s(args, "batch_size"@) {
                        Err(er) => Err(er),
                        Ok(be) => match expect_i64_s(be) {
                            Err(er) => Err(er),
                            Ok(batch_size) => match call_named_s(args, "within_ms"@) {
                                Err(er) => Err(er),
                                Ok(we) => match expect_i64_s(we) {
                                    Err(er) => Err(er),
                                    Ok(within_ms) => Ok((BindingModel::Stage(
                                        crate::stage::StageModel::LookupBatchKv {
                                            store,
                                            key,
                                            batch_size,
                                            within_ms,
                                        },
                                    ), kv, tables, logs, explain)),
                                },
                            },
                        },
                    },
                },
            },
        }
    } else if name == "rbac.evaluate"@ {
        match call_named_s(args, "principal_bindings"@) {
            Err(er) => Err(er),
            Ok(pe) => match expect_string_s(pe) {
                Err(er) => Err(er),
                Ok(principal_bindings) => match call_named_s(args, "role_perms"@) {
                    Err(er) => Err(er),
                    Ok(re) => match expect_string_s(re) {
                        Err(er) => Err(er),
                        Ok(role_perms) => match call_named_s(args, "resource_ancestors"@) {
                            Err(er) => Err(er),
                            Ok(ae) => match expect_string_s(ae) {
                                Err(er) => Err(er),
                                Ok(resource_ancestors) => Ok((BindingModel::Stage(
                                    crate::stage::StageModel::RbacEvaluate {
                                        principal_bindings,
                                        role_perms,
                                        resource_ancestors,
                                    },
                                ), kv, tables, logs, explain)),
                            },
                        },
                    },
                },
            },
        }
    } else if name == "ui.table"@ {
        match call_pos_s(args, 0) {
            Err(er) => Err(er),
            Ok(a0) => match expect_string_s(a0) {
                Err(er) => Err(er),
                Ok(t) => Ok((BindingModel::Stage(crate::stage::StageModel::UiTable(t)), kv,
                    tables, logs, explain)),
            },
        }
    } else if name == "ui.log"@ {
        match call_pos_s(args, 0) {
            Err(er) => Err(er),
            Ok(a0) => match expect_string_s(a0) {
                Err(er) => Err(er),
                Ok(t) => Ok((BindingModel::Stage(crate::stage::StageModel::UiLog(t)), kv, tables,
                    logs, explain)),
            },
        }
    } else {
        Err("unsupported call: "@ + name)
    }
}

/// Folds a pipeline's stage expressions over a stream.
pub open spec fn pipe_fold_s(
    stages: Seq<ExprModel>,
    stream: Seq<ValueModel>,
    env: EnvModel,
    fixtures: RowsModel,
    kv: KvModel,
    tables: RowsModel,
    logs: LogsModel,
    explain: Seq<Seq<char>>,
) -> Result<(Seq<ValueModel>, KvModel, RowsModel, LogsModel, Seq<Seq<char>>), Seq<char>>
    decreases stages, 1int,
{
    if stages.len() == 0 {
        Ok((stream, kv, tables, logs, explain))
    } else {
        match eval_binding_s(stages[0], env, fixtures, kv, tables, logs, explain) {
            Err(er) => Err(er),
            Ok((b, kv1, t1, l1, e1)) => match b {
                BindingModel::Stage(st) => match crate::stage::apply_stage_s(st, stream,
                    fixtures, kv1, t1, l1, e1) {
                    Err(er) => Err(er),
                    Ok(a) => pipe_fold_s(stages.drop_first(), a.out, env, fixtures, a.kv,
                        a.tables, a.logs, a.explain),
                },
                _ => Err("expected stage"@),
            },
        }
    }
}

/// What running the statements yields: the three accumulators after every
/// statement ran, or the first error.
pub open spec fn run_stmts_s(
    stmts: Seq<StmtModel>,
    env: EnvModel,
    fixtures: RowsModel,
    kv: KvModel,
    tables: RowsModel,
    logs: LogsModel,
    explain: Seq<Seq<char>>,
) -> Result<(RowsModel, LogsModel, Seq<Seq<char>>), Seq<char>>
    decreases stmts.len(),
{
    if stmts.len() == 0 {
        Ok((tables, logs, explain))
    } else {
        match stmts[0] {
            StmtModel::Binding { name, expr } => {
                let e1 = explain.push("binding "@ + name);
                match eval_binding_s(expr, env, fixtures, kv, tables, logs, e1) {
                    Err(er) => Err(er),
                    Ok((b, kv1, t1, l1, e2)) => run_stmts_s(stmts.drop_first(), env_set(env,
                        name, b), fixtures, kv1, t1, l1, e2),
                }
            },
            StmtModel::Pipeline { expr } => {
                let e1 = explain.push("pipeline"@);
                match eval_binding_s(expr, env, fixtures, kv, tables, logs, e1) {
                    Err(er) => Err(er),
                    Ok((b, kv1, t1, l1, e2)) => match b {
                        BindingModel::Stream(_) => run_stmts_s(stmts.drop_first(), env, fixtures,
                            kv1, t1, l1, e2),
                        _ => Err("expected stream"@),
                    },
                }
            },
        }
    }
}

/// What a program run yields from parsed statements and fixture tables.
pub open spec fn run_program_s(stmts: Seq<StmtModel>, fixtures: RowsModel) -> Result<
    (RowsModel, LogsModel, Seq<Seq<char>>),
    Seq<char>,
> {
    run_stmts_s(stmts, Seq::empty(), fixtures, Seq::empty(), Seq::empty(), Seq::empty(),
        Seq::empty())
}

/// What reading the fixture object yields: each field must hold an array.
pub open spec fn parse_fixtures_s(fields: Seq<(Seq<char>, JsonModel)>) -> Result<
    RowsModel,
    Seq<char>,
>
    decreases fields.len(),
{
    if fields.len() == 0 {
        Ok(Seq::empty())
    } else {
        match fields[0].1 {
            JsonModel::Array(items) => match parse_fixtures_s(fields.drop_first()) {
                Err(er) => Err(er),
                Ok(rest) => Ok(seq![(fields[0].0, items)] + rest),
            },
            _ => Err("fixture values must be arrays"@),
        }
    }
}

/// The models of an environment.
pub open spec fn env_views(s: Seq<(String, Binding)>) -> EnvModel
    decreases s,
{
    if s.len() == 0 {
        Seq::empty()
    } else {
        env_views(s.drop_last()).push((s.last().0@, s.last().1@))
    }
}

pub broadcast proof fn lemma_env_views(s: Seq<(String, Binding)>)
    ensures
        (#[trigger] env_views(s)).len() == s.len(),
        forall|i: int| 0 <= i < s.len() ==> env_views(s)[i] == (s[i].0@, s[i].1@),
    decreases s.len(),
{
    if s.len() > 0 {
        lemma_env_views(s.drop_last());
        assert(env_views(s) == env_views(s.drop_last()).push((s.last().0@, s.last().1@)));
        assert forall|i: int|
            0 <= i < s.len() implies env_views(s)[i] == (s[i].0@, s[i].1@) by {
            if i < s.len() - 1 {
                assert(env_views(s)[i] == env_views(s.drop_last())[i]);
                assert(s.drop_last()[i] == s[i]);
            } else {
                assert(env_views(s)[i] == (s.last().0@, s.last().1@));
            }
        }
    }
}

impl Clone for Stream {
    /// A clone denotes the same stream of values.
    fn clone(&self) -> (res: Self)
        ensures
            res@ == self@,
    {
        broadcast use lemma_views_of_seq;
        let mut out: Vec<Value> = Vec::new();
        let mut i: usize = 0;
        while i < self.values.len()
            invariant
                i <= self.values@.len(),
                out@.len() == i,
                forall|j: int| 0 <= j < i ==> out@[j]@ == self.values@[j]@,
            decreases self.values@.len() - i,
        {
            out.push(self.values[i].clone());
            i = i + 1;
        }
        proof {
            assert(views_of_seq(out@) =~= views_of_seq(self.values@));
        }
        Stream { values: out }
    }
}

impl Clone for Binding {
    /// A clone denotes the same binding.
    fn clone(&self) -> (res: Self)
        ensures
            res@ == self@,
    {
        match self {
            Binding::Stream(s) => Binding::Stream(s.clone()),
            Binding::Stage(s) => Binding::Stage(s.clone()),
        }
    }
}

/// The binding under a name.
fn env_get_exec<'a>(env: &'a Vec<(String, Binding)>, name: &str) -> (r: Option<&'a Binding>)
    ensures
        match r {
            Some(b) => env_get(env_views(env@), name@) == Some(b@),
            None => env_get(env_views(env@), name@) is None,
        },
{
    broadcast use lemma_env_views;
    let ghost m = env_views(env@);
    let mut i: usize = 0;
    proof {
        assert(m.skip(0) =~= m);
    }
    while i < env.len()
        invariant
            m == env_views(env@),
            i <= env@.len(),
            env_get(m, name@) == env_get(m.skip(i as int), name@),
        decreases env@.len() - i,
    {
        proof {
            lemma_env_views(env@);
            assert(m.len() == env@.len());
            assert(m.skip(i as int)[0] == m[i as int]);
            assert(m.skip(i as int).drop_first() =~= m.skip(i as int + 1));
        }
        if str_eq(env[i].0.as_str(), name) {
            return Some(&env[i].1);
        }
        i = i + 1;
    }
    proof {
        assert(m.skip(i as int).len() == 0);
    }
    None
}

/// Binds a name, replacing any existing binding.
#[verifier::loop_isolation(false)]
fn env_set_exec(env: &mut Vec<(String, Binding)>, name: String, b: Binding)
    ensures
        env_views(final(env)@) == env_set(env_views(old(env)@), name@, b@),
{
    broadcast use lemma_env_views;
    let ghost m = env_views(old(env)@);
    let ghost nm = name@;
    let ghost bm = b@;
    let mut i: usize = 0;
    proof {
        assert(m.skip(0) =~= m);
        assert(m.subrange(0, 0) + env_set(m.skip(0), nm, bm) =~= env_set(m, nm, bm));
    }
    while i < env.len()
        invariant
            env@ == old(env)@,
            m == env_views(env@),
            nm == name@,
            bm == b@,
            i <= env@.len(),
            env_set(m, nm, bm) == m.subrange(0, i as int) + env_set(m.skip(i as int), nm, bm),
        decreases env@.len() - i,
    {
        proof {
            lemma_env_views(env@);
            assert(m.len() == env@.len());
            assert(m.skip(i as int)[0] == m[i as int]);
            assert(m.skip(i as int).drop_first() =~= m.skip(i as int + 1));
        }
        if str_eq(env[i].0.as_str(), name.as_str()) {
            let ghost pre = env@;
            env.set(i, (name, b));
            proof {
                lemma_env_views(env@);
                lemma_env_views(pre);
                let fm = env_views(env@);
                assert(fm =~= m.subrange(0, i as int) + (seq![(nm, bm)] + m.skip(
                    i as int,
                ).drop_first())) by {
                    assert forall|j: int| 0 <= j < fm.len() implies fm[j] == (m.subrange(
                        0,
                        i as int,
                    ) + (seq![(nm, bm)] + m.skip(i as int).drop_first()))[j] by {
                        assert(fm[j] == (env@[j].0@, env@[j].1@));
                        if j != i {
                            assert(env@[j] == pre[j]);
                            assert(m[j] == (pre[j].0@, pre[j].1@));
                        }
                    }
                }
                assert(fm == env_set(m, nm, bm));
            }
            return;
        }
        i = i + 1;
    }
    proof {
        assert(m.skip(i as int).len() == 0);
    }
    env.push((name, b));
    proof {
        lemma_env_views(env@);
        assert(env_views(env@) =~= m.subrange(0, m.len() as int) + env_set(
            m.skip(m.len() as int),
            nm,
            bm,
        )) by {
            assert(env@.drop_last() =~= old(env)@);
            assert(m.subrange(0, m.len() as int) =~= m);
        }
    }
}

/// The fixture rows as a stream of JSON text bytes.
#[verifier::loop_isolation(false)]
fn source_values(rows: &Vec<json::Value>) -> (r: Vec<Value>)
    ensures
        views_of_seq(r@) == source_values_s(json_rows_views(rows@)),
{
    broadcast use lemma_views_of_seq;
    let ghost all = json_rows_views(rows@);
    let mut out: Vec<Value> = Vec::new();
    let mut i: usize = 0;
    proof {
        crate::json::lemma_json_views_of_seq(rows@);
    }
    while i < rows.len()
        invariant
            i <= rows@.len(),
            all == json_rows_views(rows@),
            out@.len() == i,
            forall|j: int| 0 <= j < i ==> views_of_seq(out@)[j] == source_values_s(all)[j],
        decreases rows@.len() - i,
    {
        proof {
            crate::json::lemma_json_views_of_seq(rows@);
        }
        let bytes = match crate::json::to_vec(&rows[i]) {
            Ok(b) => b,
            Err(e) => {
                return Vec::new();
            },
        };
        let ghost out0 = out@;
        out.push(Value::Bytes(bytes));
        proof {
            assert(out@.drop_last() =~= out0);
            assert(views_of_seq(out@) == views_of_seq(out0).push(out@.last()@));
        }
        i = i + 1;
    }
    proof {
        assert(views_of_seq(out@) =~= source_values_s(all));
    }
    out
}

/// Evaluates a statement-level expression to a binding, as `eval_binding_s`
/// describes.
#[verifier::loop_isolation(false)]
#[verifier::rlimit(100)]
pub fn eval_binding(
    e: &Expr,
    env: &Vec<(String, Binding)>,
    fixtures: &Table,
    state: &mut RuntimeState,
    outputs: &mut Outputs,
) -> (r: Result<Binding, String>)
    ensures
        match r {
            Ok(b) => eval_binding_s(e@, env_views(env@), fixtures@, old(state)@,
                old(outputs).tables@, old(outputs).logs@, log_rows_views(old(outputs).explain@))
                == Ok::<(BindingModel, KvModel, RowsModel, LogsModel, Seq<Seq<char>>), Seq<char>>(
                (b@, final(state)@, final(outputs).tables@, final(outputs).logs@, log_rows_views(
                    final(outputs).explain@,
                )),
            ),
            Err(er) => eval_binding_s(e@, env_views(env@), fixtures@, old(state)@,
                old(outputs).tables@, old(outputs).logs@, log_rows_views(old(outputs).explain@))
                == Err::<(BindingModel, KvModel, RowsModel, LogsModel, Seq<Seq<char>>), Seq<char>>(
                er@,
            ),
        },
    decreases e, 1int,
{
    broadcast use lemma_views_of_seq, crate::ast::lemma_expr_views, crate::ast::lemma_arg_views;
    match e {
        Expr::Pipeline { input, stages, .. } => {
            let first = match eval_binding(input, env, fixtures, state, outputs) {
                Ok(b) => b,
                Err(er) => {
                    return Err(er);
                },
            };
            let mut stream = match first {
                Binding::Stream(s) => s,
                _ => {
                    return Err(String::from_str("expected stream"));
                },
            };
            let ghost sm = crate::ast::expr_views(stages@);
            let mut i: usize = 0;
            proof {
                assert(sm.skip(0) =~= sm);
            }
            while i < stages.len()
                invariant
                    i <= stages@.len(),
                    sm == crate::ast::expr_views(stages@),
                    eval_binding_s(e@, env_views(env@), fixtures@, old(state)@,
                        old(outputs).tables@, old(outputs).logs@,
                        log_rows_views(old(outputs).explain@)) == match pipe_fold_s(
                        sm.skip(i as int),
                        stream@,
                        env_views(env@),
                        fixtures@,
                        state@,
                        outputs.tables@,
                        outputs.logs@,
                        log_rows_views(outputs.explain@),
                    ) {
                        Ok((out, kv2, t2, l2, e2)) => Ok::<
                            (BindingModel, KvModel, RowsModel, LogsModel, Seq<Seq<char>>),
                            Seq<char>,
                        >((BindingModel::Stream(out), kv2, t2, l2, e2)),
                        Err(er) => Err::<
                            (BindingModel, KvModel, RowsModel, LogsModel, Seq<Seq<char>>),
                            Seq<char>,
                        >(er),
                    },
                decreases stages@.len() - i,
            {
                proof {
                    crate::ast::lemma_expr_views(stages@);
                    assert(sm.skip(i as int)[0] == sm[i as int]);
                    assert(sm.skip(i as int).drop_first() =~= sm.skip(i as int + 1));
                }
                let sb = match eval_binding(&stages[i], env, fixtures, state, outputs) {
                    Ok(b) => b,
                    Err(er) => {
                        return Err(er);
                    },
                };
                let st = match sb {
                    Binding::Stage(s) => s,
                    _ => {
                        return Err(String::from_str("expected stage"));
                    },
                };
                stream = match apply_stage(&st, stream, fixtures, state, outputs) {
                    Ok(next) => next,
                    Err(er) => {
                        return Err(er);
                    },
                };
                i = i + 1;
            }
            proof {
                assert(sm.skip(stages@.len() as int).len() == 0);
            }
            Ok(Binding::Stream(stream))
        },
        Expr::Call { callee, args, .. } => {
            let name = match crate::eval::callee_name(callee) {
                Some(n) => n,
                None => {
                    return Err(String::from_str("unsupported callee"));
                },
            };
            eval_call_binding(&name, args, fixtures, state, outputs)
        },
        Expr::Ident { name, .. } => {
            if str_eq(name.as_str(), "json") {
                Ok(Binding::Stage(Stage::Json(Direction::Auto)))
            } else if str_eq(name.as_str(), "utf8") {
                Ok(Binding::Stage(Stage::Utf8(Direction::Auto)))
            } else if str_eq(name.as_str(), "base64") {
                Ok(Binding::Stage(Stage::Base64(Direction::Auto)))
            } else {
                match env_get_exec(env, name.as_str()) {
                    Some(b) => Ok(b.clone()),
                    None => Err(String::from_str("unknown ident ").concat(name.as_str())),
                }
            }
        },
        Expr::Compose { left, right, .. } => {
            let bl = match eval_binding(left, env, fixtures, state, outputs) {
                Ok(b) => b,
                Err(er) => {
                    return Err(er);
                },
            };
            let sl = match bl {
                Binding::Stage(s) => s,
                _ => {
                    return Err(String::from_str("expected stage"));
                },
            };
            let br = match eval_binding(right, env, fixtures, state, outputs) {
                Ok(b) => b,
                Err(er) => {
                    return Err(er);
                },
            };
            let sr = match br {
                Binding::Stage(s) => s,
                _ => {
                    return Err(String::from_str("expected stage"));
                },
            };
            let ghost slm = sl@;
            let ghost srm = sr@;
            let mut parts: Vec<Stage> = Vec::new();
            parts.push(sl);
            parts.push(sr);
            proof {
                crate::stage::lemma_stage_views(parts@);
                assert(crate::stage::stage_views(parts@) =~= seq![slm, srm]);
            }
            Ok(Binding::Stage(Stage::Compose(parts)))
        },
        Expr::Inverse { expr, .. } => {
            let b = match eval_binding(expr, env, fixtures, state, outputs) {
                Ok(b) => b,
                Err(er) => {
                    return Err(er);
                },
            };
            let s = match b {
                Binding::Stage(s) => s,
                _ => {
                    return Err(String::from_str("expected stage"));
                },
            };
            match crate::stage::invert_stage(&s) {
                Ok(inv) => Ok(Binding::Stage(inv)),
                Err(er) => Err(er),
            }
        },
        _ => Err(String::from_str("unsupported expression for stream/stage evaluation")),
    }
}

/// Evaluates a statement-level call, as `eval_call_binding_s` describes.
#[verifier::loop_isolation(false)]
#[verifier::rlimit(100)]
fn eval_call_binding(
    name: &String,
    args: &Vec<CallArg>,
    fixtures: &Table,
    state: &mut RuntimeState,
    outputs: &mut Outputs,
) -> (r: Result<Binding, String>)
    ensures
        match r {
            Ok(b) => eval_call_binding_s(name@, arg_views(args@), fixtures@, old(state)@,
                old(outputs).tables@, old(outputs).logs@, log_rows_views(old(outputs).explain@))
                == Ok::<(BindingModel, KvModel, RowsModel, LogsModel, Seq<Seq<char>>), Seq<char>>(
                (b@, final(state)@, final(outputs).tables@, final(outputs).logs@, log_rows_views(
                    final(outputs).explain@,
                )),
            ),
            Err(er) => eval_call_binding_s(name@, arg_views(args@), fixtures@, old(state)@,
                old(outputs).tables@, old(outputs).logs@, log_rows_views(old(outputs).explain@))
                == Err::<(BindingModel, KvModel, RowsModel, LogsModel, Seq<Seq<char>>), Seq<char>>(
                er@,
            ),
        },
{
    broadcast use crate::ast::lemma_arg_views;
    if str_eq(name.as_str(), "input.json") {
        let a0 = match call_pos(args, 0) {
            Ok(a) => a,
            Err(er) => {
                return Err(er);
            },
        };
        let fixture_name = match expect_string(a0) {
            Ok(s) => s,
            Err(er) => {
                return Err(er);
            },
        };
        let rows = match fixtures.get(fixture_name.as_str()) {
            Some(rows) => rows,
            None => {
                return Err(String::from_str("missing fixture: ").concat(fixture_name.as_str()));
            },
        };
        let values = source_values(rows);
        let line = String::from_str("  [source] input.json(").concat(fixture_name.as_str())
            .concat(")");
        push_explain(outputs, line);
        Ok(Binding::Stream(Stream::new(values)))
    } else if str_eq(name.as_str(), "map") {
        match call_pos(args, 0) {
            Ok(a) => Ok(Binding::Stage(Stage::MapEach(a.clone()))),
            Err(er) => Err(er),
        }
    } else if str_eq(name.as_str(), "filter") {
        match call_pos(args, 0) {
            Ok(a) => Ok(Binding::Stage(Stage::Filter(a.clone()))),
            Err(er) => Err(er),
        }
    } else if str_eq(name.as_str(), "flat_map") {
        match call_pos(args, 0) {
            Ok(a) => Ok(Binding::Stage(Stage::FlatMap(a.clone()))),
            Err(er) => Err(er),
        }
    } else if str_eq(name.as_str(), "group.collect_all") {
        let bk = match call_named(args, "by_key") {
            Ok(a) => a,
            Err(er) => {
                return Err(er);
            },
        };
        let w = match call_named(args, "within_ms") {
            Ok(a) => match expect_i64(a) {
                Ok(v) => v,
                Err(er) => {
                    return Err(er);
                },
            },
            Err(er) => {
                return Err(er);
            },
        };
        let l = match call_named(args, "limit") {
            Ok(a) => match expect_i64(a) {
                Ok(v) => v,
                Err(er) => {
                    return Err(er);
                },
            },
            Err(er) => {
                return Err(er);
            },
        };
        Ok(Binding::Stage(Stage::GroupCollectAll {
            by_key: bk.clone(),
            within_ms: w,
            limit: l,
        }))
    } else if str_eq(name.as_str(), "group.count") {
        match call_named(args, "by_key") {
            Ok(a) => Ok(Binding::Stage(Stage::GroupCount { by_key: a.clone() })),
            Err(er) => Err(er),
        }
    } else if str_eq(name.as_str(), "rank.topk") {
        let k = match call_named(args, "k") {
            Ok(a) => match expect_i64(a) {
                Ok(v) => v,
                Err(er) => {
                    return Err(er);
                },
            },
            Err(er) => {
                return Err(er);
            },
        };
        let by = match call_named(args, "by") {
            Ok(a) => a,
            Err(er) => {
                return Err(er);
            },
        };
        let order = match call_named(args, "order") {
            Ok(a) => match sort_order(a) {
                Ok(o) => o,
                Err(er) => {
                    return Err(er);
                },
            },
            Err(er) => {
                return Err(er);
            },
        };
        Ok(Binding::Stage(Stage::RankTopK { k, by: by.clone(), order }))
    } else if str_eq(name.as_str(), "group.topn_items") {
        let bk = match call_named(args, "by_key") {
            Ok(a) => a,
            Err(er) => {
                return Err(er);
            },
        };
        let n = match call_named(args, "n") {
            Ok(a) => match expect_i64(a) {
                Ok(v) => v,
                Err(er) => {
                    return Err(er);
                },
            },
            Err(er) => {
                return Err(er);
            },
        };
        let ob = match call_named(args, "order_by") {
            Ok(a) => a,
            Err(er) => {
                return Err(er);
            },
        };
        let order = match call_named(args, "order") {
            Ok(a) => match sort_order(a) {
                Ok(o) => o,
                Err(er) => {
                    return Err(er);
                },
            },
            Err(er) => {
                return Err(er);
            },
        };
        Ok(Binding::Stage(Stage::GroupTopNItems {
            by_key: bk.clone(),
            n,
            order_by: ob.clone(),
            order,
        }))
    } else if str_eq(name.as_str(), "kv.load") {
        let store = match call_named(args, "store") {
            Ok(a) => match expect_string(a) {
                Ok(s) => s,
                Err(er) => {
                    return Err(er);
                },
            },
            Err(er) => {
                return Err(er);
            },
        };
        Ok(Binding::Stage(Stage::KvLoad { store }))
    } else if str_eq(name.as_str(), "lookup.kv") {
        let store = match call_named(args, "store") {
            Ok(a) => match expect_string(a) {
                Ok(s) => s,
                Err(er) => {
                    return Err(er);
                },
            },
            Err(er) => {
                return Err(er);
            },
        };
        let key = match call_named(args, "key") {
            Ok(a) => a,
            Err(er) => {
                return Err(er);
            },
        };
        Ok(Binding::Stage(Stage::LookupKv { store, key: key.clone() }))
    } else if str_eq(name.as_str(), "lookup.batch_kv") {
        let store = match call_named(args, "store") {
            Ok(a) => match expect_string(a) {
                Ok(s) => s,
                Err(er) => {
                    return Err(er);
                },
            },
            Err(er) => {
                return Err(er);
            },
        };
        let key = match call_named(args, "key") {
            Ok(a) => a,
            Err(er) => {
                return Err(er);
            },
        };
        let batch_size = match call_named(args, "batch_size") {
            Ok(a) => match expect_i64(a) {
                Ok(v) => v,
                Err(er) => {
                    return Err(er);
                },
            },
            Err(er) => {
                return Err(er);
            },
        };
        let within_ms = match call_named(args, "within_ms") {
            Ok(a) => match expect_i64(a) {
                Ok(v) => v,
                Err(er) => {
                    return Err(er);
                },
            },
            Err(er) => {
                return Err(er);
            },
        };
        Ok(Binding::Stage(Stage::LookupBatchKv {
            store,
            key: key.clone(),
            batch_size,
            within_ms,
        }))
    } else if str_eq(name.as_str(), "rbac.evaluate") {
        let principal_bindings = match call_named(args, "principal_bindings") {
            Ok(a) => match expect_string(a) {
                Ok(s) => s,
                Err(er) => {
                    return Err(er);
                },
            },
            Err(er) => {
                return Err(er);
            },
        };
        let role_perms = match call_named(args, "role_perms") {
            Ok(a) => match expect_string(a) {
                Ok(s) => s,
                Err(er) => {
                    return Err(er);
                },
            },
            Err(er) => {
                return Err(er);
            },
        };
        let resource_ancestors = match call_named(args, "resource_ancestors") {
            Ok(a) => match expect_string(a) {
                Ok(s) => s,
                Err(er) => {
                    return Err(er);
                },
            },
            Err(er) => {
                return Err(er);
            },
        };
        Ok(Binding::Stage(Stage::RbacEvaluate {
            principal_bindings,
            role_perms,
            resource_ancestors,
        }))
    } else if str_eq(name.as_str(), "ui.table") {
        match call_pos(args, 0) {
            Ok(a) => match expect_string(a) {
                Ok(t) => Ok(Binding::Stage(Stage::UiTable(t))),
                Err(er) => Err(er),
            },
            Err(er) => Err(er),
        }
    } else if str_eq(name.as_str(), "ui.log") {
        match call_pos(args, 0) {
            Ok(a) => match expect_string(a) {
                Ok(t) => Ok(Binding::Stage(Stage::UiLog(t))),
                Err(er) => Err(er),
            },
            Err(er) => Err(er),
        }
    } else {
        Err(String::from_str("unsupported call: ").concat(name.as_str()))
    }
}

/// The expression at a positional argument.
fn call_pos<'a>(args: &'a Vec<CallArg>, idx: usize) -> (r: Result<&'a Expr, String>)
    ensures
        match r {
            Ok(a) => call_pos_s(arg_views(args@), idx as int) == Ok::<ExprModel, Seq<char>>(a@),
            Err(e) => call_pos_s(arg_views(args@), idx as int) == Err::<ExprModel, Seq<char>>(
                e@,
            ),
        },
{
    broadcast use crate::ast::lemma_arg_views;
    if idx >= args.len() {
        return Err(String::from_str("missing positional arg"));
    }
    match &args[idx] {
        CallArg::Positional(e) => Ok(e),
        CallArg::Named { .. } => Err(String::from_str("named arguments are not supported in v0")),
    }
}

/// The expression of the first argument with the given name.
fn call_named<'a>(args: &'a Vec<CallArg>, name: &str) -> (r: Result<&'a Expr, String>)
    ensures
        match r {
            Ok(a) => call_named_s(arg_views(args@), name@) == Ok::<ExprModel, Seq<char>>(a@),
            Err(e) => call_named_s(arg_views(args@), name@) == Err::<ExprModel, Seq<char>>(e@),
        },
{
    broadcast use crate::ast::lemma_arg_views;
    let ghost m = arg_views(args@);
    let mut i: usize = 0;
    proof {
        assert(m.skip(0) =~= m);
    }
    while i < args.len()
        invariant
            m == arg_views(args@),
            i <= args@.len(),
            call_named_s(m, name@) == call_named_s(m.skip(i as int), name@),
        decreases args@.len() - i,
    {
        proof {
            crate::ast::lemma_arg_views(args@);
            assert(m.len() == args@.len());
            assert(m.skip(i as int)[0] == m[i as int]);
            assert(m.skip(i as int).drop_first() =~= m.skip(i as int + 1));
        }
        if let CallArg::Named { name: n, value, .. } = &args[i] {
            if str_eq(n.as_str(), name) {
                return Ok(value);
            }
        }
        i = i + 1;
    }
    proof {
        assert(m.skip(i as int).len() == 0);
    }
    Err(String::from_str("missing named arg: ").concat(name))
}

/// A string literal argument's text.
fn expect_string(e: &Expr) -> (r: Result<String, String>)
    ensures
        match r {
            Ok(s) => expect_string_s(e@) == Ok::<Seq<char>, Seq<char>>(s@),
            Err(er) => expect_string_s(e@) == Err::<Seq<char>, Seq<char>>(er@),
        },
{
    match e {
        Expr::String { value, .. } => Ok(value.clone()),
        _ => Err(String::from_str("expected string literal")),
    }
}

/// An integer literal argument's value.
fn expect_i64(e: &Expr) -> (r: Result<i64, String>)
    ensures
        match r {
            Ok(v) => expect_i64_s(e@) == Ok::<i64, Seq<char>>(v),
            Err(er) => expect_i64_s(e@) == Err::<i64, Seq<char>>(er@),
        },
{
    match e {
        Expr::Number { value, .. } => Ok(*value),
        _ => Err(String::from_str("expected i64 literal")),
    }
}

/// A sort order argument.
fn sort_order(e: &Expr) -> (r: Result<SortOrder, String>)
    ensures
        match r {
            Ok(o) => sort_order_s(e@) == Ok::<SortOrder, Seq<char>>(o),
            Err(er) => sort_order_s(e@) == Err::<SortOrder, Seq<char>>(er@),
        },
{
    let s = match expect_string(e) {
        Ok(s) => s,
        Err(er) => {
            return Err(er);
        },
    };
    if str_eq(s.as_str(), "asc") {
        Ok(SortOrder::Asc)
    } else if str_eq(s.as_str(), "desc") {
        Ok(SortOrder::Desc)
    } else {
        Err(String::from_str("order must be \"asc\" or \"desc\""))
    }
}

/// Reads the fixture object into named row tables, as `parse_fixtures_s`
/// describes; anything but an object of arrays is rejected.
#[verifier::loop_isolation(false)]
pub fn parse_fixtures(fixtures: json::Value) -> (r: Result<Table, String>)
    ensures
        match r {
            Ok(t) => fixtures@ matches JsonModel::Object(fields) && parse_fixtures_s(fields)
                == Ok::<RowsModel, Seq<char>>(t@),
            Err(e) => match fixtures@ {
                JsonModel::Object(fields) => parse_fixtures_s(fields) == Err::<
                    RowsModel,
                    Seq<char>,
                >(e@),
                _ => e@ == "fixtures must be an object"@,
            },
        },
{
    broadcast use lemma_table_views;
    let fields = match fixtures {
        json::Value::Object(fields) => fields,
        _ => {
            return Err(String::from_str("fixtures must be an object"));
        },
    };
    let ghost all = crate::json::json_views_of_fields(fields@);
    let mut out: Vec<(String, Vec<json::Value>)> = Vec::new();
    let mut rest = fields;
    let mut i: usize = 0;
    let n = rest.len();
    proof {
        crate::json::lemma_json_views_of_fields(rest@);
        assert(table_views(out@) =~= Seq::<(Seq<char>, Seq<JsonModel>)>::empty());
        assert(all.skip(0) =~= all);
        match parse_fixtures_s(all) {
            Ok(more) => {
                assert(table_views(out@) + more =~= more);
            },
            Err(_) => {},
        }
    }
    while i < n
        invariant
            i <= n,
            rest@.len() == n - i,
            all.len() == n,
            forall|j: int|
                0 <= j < rest@.len() ==> ((#[trigger] rest@[j]).0@, rest@[j].1@) == all[j + i],
            parse_fixtures_s(all) == match parse_fixtures_s(all.skip(i as int)) {
                Ok(more) => Ok::<RowsModel, Seq<char>>(table_views(out@) + more),
                Err(er) => Err::<RowsModel, Seq<char>>(er),
            },
        decreases n - i,
    {
        proof {
            assert(all.skip(i as int)[0] == all[i as int]);
            assert(all.skip(i as int).drop_first() =~= all.skip(i as int + 1));
        }
        let ghost rp = rest@;
        let (name, value) = rest.remove(0);
        proof {
            assert forall|j: int| 0 <= j < rest@.len() implies ((#[trigger] rest@[j]).0@,
                rest@[j].1@) == all[j + i + 1] by {
                assert(rest@[j] == rp[j + 1]);
            }
        }
        let items = match value {
            json::Value::Array(items) => items,
            _ => {
                return Err(String::from_str("fixture values must be arrays"));
            },
        };
        let ghost out0 = table_views(out@);
        let ghost nv = (name@, json_rows_views(items@));
        out.push((name, items));
        proof {
            lemma_table_views(out@);
            assert(out@.drop_last().len() == out@.len() - 1);
            assert(table_views(out@) =~= out0.push(nv)) by {
                lemma_table_views(out@);
            }
            match parse_fixtures_s(all.skip(i as int + 1)) {
                Ok(more) => {
                    assert(out0 + (seq![nv] + more) =~= table_views(out@) + more);
                },
                Err(_) => {},
            }
        }
        i = i + 1;
    }
    proof {
        assert(all.skip(n as int).len() == 0);
        assert(table_views(out@) + Seq::<(Seq<char>, Seq<JsonModel>)>::empty()
            =~= table_views(out@));
    }
    Ok(Table { entries: out })
}

/// Parses a program's text.  The surface grammar itself carries no
/// functional model (the parser is an outside collaborator of the core); what
/// this function pins down is the failure shape: a failure is one diagnostic
/// line holding the parser's message and the source range it points at.
pub fn compile(program: &str) -> (r: Result<crate::ast::Program, String>)
    ensures
        r matches Err(e) ==> exists|msg: Seq<char>, a: int, b: int|
            e@ == msg + " at "@ + crate::text::i64_dec(a) + ".."@ + crate::text::i64_dec(b),
{
    match crate::parser::parse_program(program) {
        Ok(p) => Ok(p),
        Err(e) => {
            let rendered = e.render();
            proof {
                let msg = e.message@;
                let a = e.span.start as i64 as int;
                let b = e.span.end as i64 as int;
                assert(rendered@ == msg + " at "@ + crate::text::i64_dec(a) + ".."@
                    + crate::text::i64_dec(b));
            }
            Err(rendered)
        },
    }
}

/// Runs parsed statements over fixture tables, as `run_program_s` describes:
/// statements run in source order, bindings shadow by name, and the outputs
/// accumulate across pipelines.
#[verifier::loop_isolation(false)]
pub fn run_program(program: &crate::ast::Program, fixtures: &Table) -> (r: Result<
    Outputs,
    String,
>)
    ensures
        match r {
            Ok(outputs) => run_program_s(crate::ast::stmt_views(program.statements@), fixtures@)
                == Ok::<(RowsModel, LogsModel, Seq<Seq<char>>), Seq<char>>(
                (outputs.tables@, outputs.logs@, log_rows_views(outputs.explain@)),
            ),
            Err(e) => run_program_s(crate::ast::stmt_views(program.statements@), fixtures@)
                == Err::<(RowsModel, LogsModel, Seq<Seq<char>>), Seq<char>>(e@),
        },
{
    broadcast use crate::ast::lemma_stmt_views, lemma_env_views;
    let ghost stmts = crate::ast::stmt_views(program.statements@);
    let mut env: Vec<(String, Binding)> = Vec::new();
    let mut state = RuntimeState::new();
    let mut outputs = Outputs::new();
    let mut i: usize = 0;
    proof {
        assert(stmts.skip(0) =~= stmts);
        assert(env_views(env@) =~= Seq::<(Seq<char>, BindingModel)>::empty());
        assert(log_rows_views(outputs.explain@) =~= Seq::<Seq<char>>::empty());
    }
    while i < program.statements.len()
        invariant
            i <= program.statements@.len(),
            stmts == crate::ast::stmt_views(program.statements@),
            run_program_s(stmts, fixtures@) == run_stmts_s(stmts.skip(i as int), env_views(env@),
                fixtures@, state@, outputs.tables@, outputs.logs@,
                log_rows_views(outputs.explain@)),
        decreases program.statements@.len() - i,
    {
        proof {
            crate::ast::lemma_stmt_views(program.statements@);
            assert(stmts.skip(i as int)[0] == stmts[i as int]);
            assert(stmts.skip(i as int).drop_first() =~= stmts.skip(i as int + 1));
        }
        match &program.statements[i] {
            crate::ast::Stmt::Binding { name, expr, .. } => {
                let line = String::from_str("binding ").concat(name.as_str());
                push_explain(&mut outputs, line);
                let b = match eval_binding(expr, &env, fixtures, &mut state, &mut outputs) {
                    Ok(b) => b,
                    Err(e) => {
                        return Err(e);
                    },
                };
                env_set_exec(&mut env, name.clone(), b);
            },
            crate::ast::Stmt::Pipeline { expr, .. } => {
                push_explain(&mut outputs, String::from_str("pipeline"));
                let b = match eval_binding(expr, &env, fixtures, &mut state, &mut outputs) {
                    Ok(b) => b,
                    Err(e) => {
                        return Err(e);
                    },
                };
                match b {
                    Binding::Stream(_) => {},
                    _ => {
                        return Err(String::from_str("expected stream"));
                    },
                }
            },
        }
        i = i + 1;
    }
    proof {
        assert(stmts.skip(program.statements@.len() as int).len() == 0);
    }
    Ok(outputs)
}

/// What a run yields once the program text is parsed to statements: the
/// fixture object is read into row tables and the statements run over them.
pub open spec fn run_of(stmts: Seq<StmtModel>, fixtures: JsonModel) -> Result<
    (RowsModel, LogsModel, Seq<Seq<char>>),
    Seq<char>,
> {
    match fixtures {
        JsonModel::Object(fields) => match parse_fixtures_s(fields) {
            Err(er) => Err(er),
            Ok(fx) => run_program_s(stmts, fx),
        },
        _ => Err("fixtures must be an object"@),
    }
}

/// Compiles and runs a program over a fixture object.  On success the
/// outputs are exactly what `run_of` gives for the statements the parser
/// produced; the surface grammar itself carries no functional model, so the
/// statements stand under an existential.  A failure is the first of: a
/// rendered parse diagnostic, or the run's own error on those statements.
pub fn run(program: &str, fixtures: json::Value) -> (r: Result<Outputs, String>)
    ensures
        match r {
            Ok(o) => exists|stmts: Seq<StmtModel>|
                run_of(stmts, fixtures@) == Ok::<(RowsModel, LogsModel, Seq<Seq<char>>), Seq<char>>(
                    (o.tables@, o.logs@, log_rows_views(o.explain@)),
                ),
            Err(e) => (exists|msg: Seq<char>, a: int, b: int|
                e@ == msg + " at "@ + crate::text::i64_dec(a) + ".."@ + crate::text::i64_dec(b))
                || exists|stmts: Seq<StmtModel>|
                run_of(stmts, fixtures@) == Err::<(RowsModel, LogsModel, Seq<Seq<char>>), Seq<char>>(
                    e@,
                ),
        },
{
    let parsed = match compile(program) {
        Ok(p) => p,
        Err(e) => {
            return Err(e);
        },
    };
    let ghost stmts = crate::ast::stmt_views(parsed.statements@);
    let tables = match parse_fixtures(fixtures) {
        Ok(t) => t,
        Err(e) => {
            proof {
                assert(run_of(stmts, fixtures@) == Err::<
                    (RowsModel, LogsModel, Seq<Seq<char>>),
                    Seq<char>,
                >(e@));
            }
            return Err(e);
        },
    };
    let out = run_program(&parsed, &tables);
    proof {
        match &out {
            Ok(o) => {
                assert(run_of(stmts, fixtures@) == Ok::<
                    (RowsModel, LogsModel, Seq<Seq<char>>),
                    Seq<char>,
                >((o.tables@, o.logs@, log_rows_views(o.explain@))));
            },
            Err(e) => {
                assert(run_of(stmts, fixtures@) == Err::<
                    (RowsModel, LogsModel, Seq<Seq<char>>),
                    Seq<char>,
                >(e@));
            },
        }
    }
    out
}

} // verus!

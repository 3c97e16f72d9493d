//! The stage algebra: the closed set of stage constructors, composition, and
//! the inverse operator on reversible stages.

use vstd::prelude::*;
use vstd::multiset::Multiset;
use crate::ast::{Expr, ExprModel};
use crate::eval::{eval_expr_s, eval_filter_s, eval_map_s};
use crate::json::{jerr_text, json_from_bytes, json_text, JErr, JsonModel};
use crate::text::{lex_cmp, str_cmp, Ord3};
use crate::value::{j2v, record_get_model, record_insert_model, v2j, Value, ValueModel};

verus! {

/// A sort direction.
#[derive(Debug, Clone, Copy, PartialEq, Eq, Structural)]
pub enum SortOrder {
    Asc,
    Desc,
}

/// The direction of a reversible codec stage: automatic inference, or the
/// inverse direction forced by `~`.
#[derive(Debug, Clone, Copy, PartialEq, Eq, Structural)]
pub enum Direction {
    Auto,
    Inverse,
}

/// A stage: a transformer from stream to stream.
#[derive(Debug)]
pub enum Stage {
    MapEach(Expr),
    Filter(Expr),
    FlatMap(Expr),
    GroupCollectAll { by_key: Expr, within_ms: i64, limit: i64 },
    GroupCount { by_key: Expr },
    RankTopK { k: i64, by: Expr, order: SortOrder },
    GroupTopNItems { by_key: Expr, n: i64, order_by: Expr, order: SortOrder },
    KvLoad { store: String },
    LookupKv { store: String, key: Expr },
    LookupBatchKv { store: String, key: Expr, batch_size: i64, within_ms: i64 },
    RbacEvaluate { principal_bindings: String, role_perms: String, resource_ancestors: String },
    Json(Direction),
    Utf8(Direction),
    Base64(Direction),
    UiTable(String),
    UiLog(String),
    Compose(Vec<Stage>),
}

/// The model of a stage.
pub enum StageModel {
    MapEach(ExprModel),
    Filter(ExprModel),
    FlatMap(ExprModel),
    GroupCollectAll { by_key: ExprModel, within_ms: i64, limit: i64 },
    GroupCount { by_key: ExprModel },
    RankTopK { k: i64, by: ExprModel, order: SortOrder },
    GroupTopNItems { by_key: ExprModel, n: i64, order_by: ExprModel, order: SortOrder },
    KvLoad { store: Seq<char> },
    LookupKv { store: Seq<char>, key: ExprModel },
    LookupBatchKv { store: Seq<char>, key: ExprModel, batch_size: i64, within_ms: i64 },
    RbacEvaluate {
        principal_bindings: Seq<char>,
        role_perms: Seq<char>,
        resource_ancestors: Seq<char>,
    },
    Json(Direction),
    Utf8(Direction),
    Base64(Direction),
    UiTable(Seq<char>),
    UiLog(Seq<char>),
    Compose(Seq<StageModel>),
}

impl View for Stage {
    type V = StageModel;

    open spec fn view(&self) -> StageModel
        decreases self,
    {
        match self {
            Stage::MapEach(e) => StageModel::MapEach(e@),
            Stage::Filter(e) => StageModel::Filter(e@),
            Stage::FlatMap(e) => StageModel::FlatMap(e@),
            Stage::GroupCollectAll { by_key, within_ms, limit } => StageModel::GroupCollectAll {
                by_key: by_key@,
                within_ms: *within_ms,
                limit: *limit,
            },
            Stage::GroupCount { by_key } => StageModel::GroupCount { by_key: by_key@ },
            Stage::RankTopK { k, by, order } => StageModel::RankTopK {
                k: *k,
                by: by@,
                order: *order,
            },
            Stage::GroupTopNItems { by_key, n, order_by, order } => StageModel::GroupTopNItems {
                by_key: by_key@,
                n: *n,
                order_by: order_by@,
                order: *order,
            },
            Stage::KvLoad { store } => StageModel::KvLoad { store: store@ },
            Stage::LookupKv { store, key } => StageModel::LookupKv { store: store@, key: key@ },
            Stage::LookupBatchKv { store, key, batch_size, within_ms } => {
                StageModel::LookupBatchKv {
                    store: store@,
                    key: key@,
                    batch_size: *batch_size,
                    within_ms: *within_ms,
                }
            },
            Stage::RbacEvaluate { principal_bindings, role_perms, resource_ancestors } => {
                StageModel::RbacEvaluate {
                    principal_bindings: principal_bindings@,
                    role_perms: role_perms@,
                    resource_ancestors: resource_ancestors@,
                }
            },
            Stage::Json(d) => StageModel::Json(*d),
            Stage::Utf8(d) => StageModel::Utf8(*d),
            Stage::Base64(d) => StageModel::Base64(*d),
            Stage::UiTable(name) => StageModel::UiTable(name@),
            Stage::UiLog(name) => StageModel::UiLog(name@),
            Stage::Compose(parts) => StageModel::Compose(stage_views(parts@)),
        }
    }
}

/// The models of a sequence of stages.
pub open spec fn stage_views(s: Seq<Stage>) -> Seq<StageModel>
    decreases s,
{
    if s.len() == 0 {
        Seq::empty()
    } else {
        stage_views(s.drop_last()).push(s.last()@)
    }
}

pub broadcast proof fn lemma_stage_views(s: Seq<Stage>)
    ensures
        (#[trigger] stage_views(s)).len() == s.len(),
        forall|i: int| 0 <= i < s.len() ==> stage_views(s)[i] == s[i]@,
    decreases s.len(),
{
    if s.len() > 0 {
        lemma_stage_views(s.drop_last());
        assert(stage_views(s) == stage_views(s.drop_last()).push(s.last()@));
        assert forall|i: int| 0 <= i < s.len() implies stage_views(s)[i] == s[i]@ by {
            if i < s.len() - 1 {
                assert(stage_views(s)[i] == stage_views(s.drop_last())[i]);
                assert(s.drop_last()[i] == s[i]);
            } else {
                assert(stage_views(s)[i] == s.last()@);
            }
        }
    }
}

impl Clone for Stage {
    /// A clone denotes the same model stage.
    #[verifier::loop_isolation(false)]
    fn clone(&self) -> (res: Self)
        ensures
            res@ == self@,
        decreases self,
    {
        broadcast use lemma_stage_views;
        match self {
            Stage::MapEach(e) => Stage::MapEach(e.clone()),
            Stage::Filter(e) => Stage::Filter(e.clone()),
            Stage::FlatMap(e) => Stage::FlatMap(e.clone()),
            Stage::GroupCollectAll { by_key, within_ms, limit } => Stage::GroupCollectAll {
                by_key: by_key.clone(),
                within_ms: *within_ms,
                limit: *limit,
            },
            Stage::GroupCount { by_key } => Stage::GroupCount { by_key: by_key.clone() },
            Stage::RankTopK { k, by, order } => Stage::RankTopK {
                k: *k,
                by: by.clone(),
                order: *order,
            },
            Stage::GroupTopNItems { by_key, n, order_by, order } => Stage::GroupTopNItems {
                by_key: by_key.clone(),
                n: *n,
                order_by: order_by.clone(),
                order: *order,
            },
            Stage::KvLoad { store } => Stage::KvLoad { store: store.clone() },
            Stage::LookupKv { store, key } => Stage::LookupKv {
                store: store.clone(),
                key: key.clone(),
            },
            Stage::LookupBatchKv { store, key, batch_size, within_ms } => Stage::LookupBatchKv {
                store: store.clone(),
                key: key.clone(),
                batch_size: *batch_size,
                within_ms: *within_ms,
            },
            Stage::RbacEvaluate { principal_bindings, role_perms, resource_ancestors } => {
                Stage::RbacEvaluate {
                    principal_bindings: principal_bindings.clone(),
                    role_perms: role_perms.clone(),
                    resource_ancestors: resource_ancestors.clone(),
                }
            },
            Stage::Json(d) => Stage::Json(*d),
            Stage::Utf8(d) => Stage::Utf8(*d),
            Stage::Base64(d) => Stage::Base64(*d),
            Stage::UiTable(name) => Stage::UiTable(name.clone()),
            Stage::UiLog(name) => Stage::UiLog(name.clone()),
            Stage::Compose(parts) => {
                let mut out: Vec<Stage> = Vec::new();
                let mut i: usize = 0;
                while i < parts.len()
                    invariant
                        i <= parts@.len(),
                        out@.len() == i,
                        forall|j: int| 0 <= j < i ==> out@[j]@ == parts@[j]@,
                    decreases parts@.len() - i,
                {
                    out.push(parts[i].clone());
                    i = i + 1;
                }
                proof {
                    assert(stage_views(out@) =~= stage_views(parts@));
                }
                Stage::Compose(out)
            },
        }
    }
}

/// What inverting a stage yields: codecs toggle to the inverse direction, a
/// composite reverses the order of its inverted parts, and any other stage is
/// not reversible.
pub open spec fn invert_stage_s(s: StageModel) -> Result<StageModel, Seq<char>>
    decreases s, 1int,
{
    match s {
        StageModel::Json(_) => Ok(StageModel::Json(Direction::Inverse)),
        StageModel::Utf8(_) => Ok(StageModel::Utf8(Direction::Inverse)),
        StageModel::Base64(_) => Ok(StageModel::Base64(Direction::Inverse)),
        StageModel::Compose(parts) => match invert_stages_rev_s(parts) {
            Ok(inv) => Ok(StageModel::Compose(inv)),
            Err(e) => Err(e),
        },
        _ => Err("stage is not reversible"@),
    }
}

/// The inverted stages in reverse order: the last stage's inverse first.
pub open spec fn invert_stages_rev_s(parts: Seq<StageModel>) -> Result<
    Seq<StageModel>,
    Seq<char>,
>
    decreases parts, 0int,
{
    if parts.len() == 0 {
        Ok(Seq::empty())
    } else {
        match invert_stage_s(parts.last()) {
            Err(e) => Err(e),
            Ok(inv) => match invert_stages_rev_s(parts.drop_last()) {
                Err(e) => Err(e),
                Ok(rest) => Ok(seq![inv] + rest),
            },
        }
    }
}

/// Inverts a stage, as `invert_stage_s` describes.
#[verifier::loop_isolation(false)]
pub fn invert_stage(stage: &Stage) -> (r: Result<Stage, String>)
    ensures
        match r {
            Ok(s) => invert_stage_s(stage@) == Ok::<StageModel, Seq<char>>(s@),
            Err(e) => invert_stage_s(stage@) == Err::<StageModel, Seq<char>>(e@),
        },
    decreases stage,
{
    broadcast use lemma_stage_views;
    match stage {
        Stage::Json(_) => Ok(Stage::Json(Direction::Inverse)),
        Stage::Utf8(_) => Ok(Stage::Utf8(Direction::Inverse)),
        Stage::Base64(_) => Ok(Stage::Base64(Direction::Inverse)),
        Stage::Compose(parts) => {
            let ghost pm = stage_views(parts@);
            let mut out: Vec<Stage> = Vec::new();
            let mut k = parts.len();
            proof {
                assert(pm.subrange(0, pm.len() as int) =~= pm);
            }
            while k > 0
                invariant
                    k <= parts@.len(),
                    pm == stage_views(parts@),
                    invert_stages_rev_s(pm) == match invert_stages_rev_s(
                        pm.subrange(0, k as int),
                    ) {
                        Ok(inv) => Ok::<Seq<StageModel>, Seq<char>>(stage_views(out@) + inv),
                        Err(e) => Err::<Seq<StageModel>, Seq<char>>(e),
                    },
                decreases k,
            {
                let ghost pre = pm.subrange(0, k as int);
                proof {
                    lemma_stage_views(parts@);
                    assert(pre.last() == pm[k as int - 1]);
                    assert(pm[k as int - 1] == parts@[k as int - 1]@);
                    assert(pre.drop_last() =~= pm.subrange(0, k as int - 1));
                }
                match invert_stage(&parts[k - 1]) {
                    Err(e) => {
                        return Err(e);
                    },
                    Ok(inv) => {
                        let ghost out0 = out@;
                        let ghost invm = inv@;
                        out.push(inv);
                        proof {
                            assert(out@.drop_last() =~= out0);
                            assert(stage_views(out@) == stage_views(out0).push(invm));
                            match invert_stages_rev_s(pm.subrange(0, k as int - 1)) {
                                Ok(rinv) => {
                                    assert(stage_views(out0) + (seq![invm] + rinv)
                                        =~= stage_views(out@) + rinv);
                                },
                                Err(_) => {},
                            }
                        }
                    },
                }
                k = k - 1;
            }
            proof {
                assert(pm.subrange(0, 0).len() == 0);
                assert(stage_views(out@) + Seq::<StageModel>::empty() =~= stage_views(out@));
            }
            Ok(Stage::Compose(out))
        },
        _ => Err(String::from_str("stage is not reversible")),
    }
}

/// Composition inversion law: inverting `a >> b` yields the composite of the
/// inverses in reverse order, `~b >> ~a`.  Applying a stage is a function of
/// the stage's model alone, so the two sides produce identical output streams
/// on any input.
pub proof fn lemma_invert_compose(a: StageModel, b: StageModel)
    requires
        invert_stage_s(a) is Ok,
        invert_stage_s(b) is Ok,
    ensures
        invert_stage_s(StageModel::Compose(seq![a, b])) == Ok::<StageModel, Seq<char>>(
            StageModel::Compose(seq![invert_stage_s(b)->Ok_0, invert_stage_s(a)->Ok_0]),
        ),
{
    let parts = seq![a, b];
    assert(parts.last() == b);
    assert(parts.drop_last() =~= seq![a]);
    let one = seq![a];
    assert(one.last() == a);
    assert(one.drop_last() =~= Seq::<StageModel>::empty());
    let ia = invert_stage_s(a)->Ok_0;
    let ib = invert_stage_s(b)->Ok_0;
    assert(invert_stages_rev_s(Seq::<StageModel>::empty()) == Ok::<Seq<StageModel>, Seq<char>>(
        Seq::empty(),
    ));
    assert(invert_stages_rev_s(one) == Ok::<Seq<StageModel>, Seq<char>>(seq![ia]
        + Seq::<StageModel>::empty()));
    assert(seq![ia] + Seq::<StageModel>::empty() =~= seq![ia]);
    assert(invert_stages_rev_s(parts) == Ok::<Seq<StageModel>, Seq<char>>(seq![ib] + seq![ia]));
    assert(seq![ib] + seq![ia] =~= seq![ib, ia]);
}

/// A sort key: a 64-bit integer or a string; integers order before strings.
#[derive(Debug)]
pub enum SortKey {
    I64(i64),
    String(String),
}

/// The model of a sort key.
pub enum SortKeyModel {
    I64(i64),
    String(Seq<char>),
}

impl View for SortKey {
    type V = SortKeyModel;

    open spec fn view(&self) -> SortKeyModel {
        match self {
            SortKey::I64(n) => SortKeyModel::I64(*n),
            SortKey::String(s) => SortKeyModel::String(s@),
        }
    }
}

/// Three-way comparison of sort keys: integers by value, strings
/// lexicographically, and every integer before every string.
pub open spec fn key_cmp(a: SortKeyModel, b: SortKeyModel) -> Ord3 {
    match (a, b) {
        (SortKeyModel::I64(x), SortKeyModel::I64(y)) => if x < y {
            Ord3::Lt
        } else if x > y {
            Ord3::Gt
        } else {
            Ord3::Eq
        },
        (SortKeyModel::String(x), SortKeyModel::String(y)) => lex_cmp(x, y),
        (SortKeyModel::I64(_), SortKeyModel::String(_)) => Ord3::Lt,
        (SortKeyModel::String(_), SortKeyModel::I64(_)) => Ord3::Gt,
    }
}

/// A row awaiting ranking: the original input position, the sort key, and
/// the item.
pub struct RankRow {
    pub idx: usize,
    pub key: SortKey,
    pub item: Value,
}

/// The model of a row awaiting ranking.
pub struct RankRowModel {
    pub idx: int,
    pub key: SortKeyModel,
    pub item: ValueModel,
}

impl View for RankRow {
    type V = RankRowModel;

    open spec fn view(&self) -> RankRowModel {
        RankRowModel { idx: self.idx as int, key: self.key@, item: self.item@ }
    }
}

/// Whether row `a` comes no later than row `b`: by key in the given order,
/// with the original input position breaking ties, which makes ranking
/// stable.
pub open spec fn row_le(order: SortOrder, a: RankRowModel, b: RankRowModel) -> bool {
    let c = key_cmp(a.key, b.key);
    let c2 = match order {
        SortOrder::Asc => c,
        SortOrder::Desc => match c {
            Ord3::Lt => Ord3::Gt,
            Ord3::Eq => Ord3::Eq,
            Ord3::Gt => Ord3::Lt,
        },
    };
    match c2 {
        Ord3::Lt => true,
        Ord3::Gt => false,
        Ord3::Eq => a.idx <= b.idx,
    }
}

/// Where a row lands in an already sorted sequence: before the first row it
/// precedes, after every row that precedes it.
pub open spec fn insert_row_s(
    order: SortOrder,
    sorted: Seq<RankRowModel>,
    row: RankRowModel,
) -> Seq<RankRowModel>
    decreases sorted.len(),
{
    if sorted.len() == 0 {
        seq![row]
    } else if row_le(order, row, sorted[0]) && !row_le(order, sorted[0], row) {
        seq![row] + sorted
    } else {
        seq![sorted[0]] + insert_row_s(order, sorted.drop_first(), row)
    }
}

/// The rows sorted by `row_le`: each row of the input inserted in turn.
pub open spec fn sort_rows_s(order: SortOrder, rows: Seq<RankRowModel>) -> Seq<RankRowModel>
    decreases rows.len(),
{
    if rows.len() == 0 {
        Seq::empty()
    } else {
        insert_row_s(order, sort_rows_s(order, rows.drop_last()), rows.last())
    }
}

fn key_cmp_exec(a: &SortKey, b: &SortKey) -> (o: Ord3)
    ensures
        o == key_cmp(a@, b@),
{
    match (a, b) {
        (SortKey::I64(x), SortKey::I64(y)) => if x < y {
            Ord3::Lt
        } else if x > y {
            Ord3::Gt
        } else {
            Ord3::Eq
        },
        (SortKey::String(x), SortKey::String(y)) => str_cmp(x.as_str(), y.as_str()),
        (SortKey::I64(_), SortKey::String(_)) => Ord3::Lt,
        (SortKey::String(_), SortKey::I64(_)) => Ord3::Gt,
    }
}

fn row_le_exec(order: SortOrder, a: &RankRow, b: &RankRow) -> (r: bool)
    ensures
        r == row_le(order, a@, b@),
{
    let c = key_cmp_exec(&a.key, &b.key);
    let c2 = match order {
        SortOrder::Asc => c,
        SortOrder::Desc => match c {
            Ord3::Lt => Ord3::Gt,
            Ord3::Eq => Ord3::Eq,
            Ord3::Gt => Ord3::Lt,
        },
    };
    match c2 {
        Ord3::Lt => true,
        Ord3::Gt => false,
        Ord3::Eq => a.idx <= b.idx,
    }
}

/// The models of a sequence of rank rows.
pub open spec fn row_views(s: Seq<RankRow>) -> Seq<RankRowModel>
    decreases s,
{
    if s.len() == 0 {
        Seq::empty()
    } else {
        row_views(s.drop_last()).push(s.last()@)
    }
}

pub broadcast proof fn lemma_row_views(s: Seq<RankRow>)
    ensures
        (#[trigger] row_views(s)).len() == s.len(),
        forall|i: int| 0 <= i < s.len() ==> row_views(s)[i] == s[i]@,
    decreases s.len(),
{
    if s.len() > 0 {
        lemma_row_views(s.drop_last());
        assert(row_views(s) == row_views(s.drop_last()).push(s.last()@));
        assert forall|i: int| 0 <= i < s.len() implies row_views(s)[i] == s[i]@ by {
            if i < s.len() - 1 {
                assert(row_views(s)[i] == row_views(s.drop_last())[i]);
                assert(s.drop_last()[i] == s[i]);
            } else {
                assert(row_views(s)[i] == s.last()@);
            }
        }
    }
}

/// Inserts one row at its sorted position.
#[verifier::loop_isolation(false)]
fn insert_row(order: SortOrder, sorted: &mut Vec<RankRow>, row: RankRow)
    ensures
        row_views(final(sorted)@) == insert_row_s(order, row_views(old(sorted)@), row@),
{
    broadcast use lemma_row_views;
    let ghost orig = row_views(old(sorted)@);
    let ghost rm = row@;
    let mut i: usize = 0;
    proof {
        assert(orig.skip(0) =~= orig);
        assert(orig.subrange(0, 0) + insert_row_s(order, orig.skip(0), rm)
            =~= insert_row_s(order, orig, rm));
    }
    while i < sorted.len()
        invariant
            sorted@ == old(sorted)@,
            orig == row_views(sorted@),
            rm == row@,
            i <= sorted@.len(),
            insert_row_s(order, orig, rm) == orig.subrange(0, i as int) + insert_row_s(
                order,
                orig.skip(i as int),
                rm,
            ),
        decreases sorted@.len() - i,
    {
        proof {
            lemma_row_views(sorted@);
            assert(orig.len() == sorted@.len());
            assert(orig.skip(i as int)[0] == orig[i as int]);
            assert(orig.skip(i as int).drop_first() =~= orig.skip(i as int + 1));
        }
        let goes_before = row_le_exec(order, &row, &sorted[i]) && !row_le_exec(
            order,
            &sorted[i],
            &row,
        );
        if goes_before {
            let ghost pre = sorted@;
            sorted.insert(i, row);
            proof {
                lemma_row_views(sorted@);
                let m = row_views(sorted@);
                assert(m =~= orig.subrange(0, i as int) + (seq![rm] + orig.skip(i as int))) by {
                    assert forall|j: int| 0 <= j < m.len() implies m[j] == (orig.subrange(
                        0,
                        i as int,
                    ) + (seq![rm] + orig.skip(i as int)))[j] by {
                        assert(m[j] == sorted@[j]@);
                        if j < i {
                            assert(sorted@[j] == pre[j]);
                        } else if j > i {
                            assert(sorted@[j] == pre[j - 1]);
                        }
                    }
                }
                assert(m == insert_row_s(order, orig, rm));
            }
            return;
        }
        proof {
            assert(orig.subrange(0, i as int + 1) =~= orig.subrange(0, i as int) + seq![
                orig[i as int],
            ]);
            assert(orig.subrange(0, i as int) + (seq![orig[i as int]] + insert_row_s(
                order,
                orig.skip(i as int + 1),
                rm,
            )) =~= orig.subrange(0, i as int + 1) + insert_row_s(
                order,
                orig.skip(i as int + 1),
                rm,
            ));
        }
        i = i + 1;
    }
    proof {
        assert(orig.skip(i as int).len() == 0);
    }
    sorted.push(row);
    proof {
        lemma_row_views(sorted@);
        assert(row_views(sorted@) =~= orig.subrange(0, orig.len() as int) + insert_row_s(
            order,
            orig.skip(orig.len() as int),
            rm,
        )) by {
            assert(row_views(sorted@) == orig.push(rm)) by {
                assert(sorted@.drop_last() =~= old(sorted)@);
            }
            assert(orig.subrange(0, orig.len() as int) =~= orig);
        }
    }
}

/// Sorts rows by key and original position, as `sort_rows_s` describes.
#[verifier::loop_isolation(false)]
pub fn sort_rows(order: SortOrder, rows: Vec<RankRow>) -> (r: Vec<RankRow>)
    ensures
        row_views(r@) == sort_rows_s(order, row_views(rows@)),
{
    broadcast use lemma_row_views;
    let ghost all = row_views(rows@);
    let mut out: Vec<RankRow> = Vec::new();
    let mut rest = rows;
    let mut i: usize = 0;
    let n = rest.len();
    proof {
        assert(all.subrange(0, 0) =~= Seq::<RankRowModel>::empty());
        assert(row_views(out@) =~= sort_rows_s(order, all.subrange(0, 0)));
    }
    while i < n
        invariant
            i <= n,
            rest@.len() == n - i,
            all.len() == n,
            forall|j: int| 0 <= j < rest@.len() ==> rest@[j]@ == all[j + i],
            row_views(out@) == sort_rows_s(order, all.subrange(0, i as int)),
        decreases n - i,
    {
        let row = rest.remove(0);
        proof {
            let pre = all.subrange(0, i as int);
            assert(all.subrange(0, i as int + 1).drop_last() =~= pre);
            assert(all.subrange(0, i as int + 1).last() == all[i as int]);
            assert(row@ == all[i as int]);
        }
        insert_row(order, &mut out, row);
        i = i + 1;
    }
    proof {
        assert(all.subrange(0, n as int) =~= all);
    }
    out
}

/// An association list lookup: the value at the first matching key.
pub open spec fn assoc_get<T>(s: Seq<(Seq<char>, T)>, k: Seq<char>) -> Option<T>
    decreases s.len(),
{
    if s.len() == 0 {
        None
    } else if s[0].0 == k {
        Some(s[0].1)
    } else {
        assoc_get(s.drop_first(), k)
    }
}

/// Appends rows under a name: to the first entry with that name, or as a new
/// entry at the end.
pub open spec fn assoc_append<T>(
    s: Seq<(Seq<char>, Seq<T>)>,
    k: Seq<char>,
    add: Seq<T>,
) -> Seq<(Seq<char>, Seq<T>)>
    decreases s.len(),
{
    if s.len() == 0 {
        seq![(k, add)]
    } else if s[0].0 == k {
        seq![(s[0].0, s[0].1 + add)] + s.drop_first()
    } else {
        seq![s[0]] + assoc_append(s.drop_first(), k, add)
    }
}

/// The key-value stores: each store maps string keys to values, with the
/// store's fields kept sorted by key.
pub type KvModel = Seq<(Seq<char>, Seq<(Seq<char>, ValueModel)>)>;

/// The tables or fixtures: named sequences of JSON rows.
pub type RowsModel = Seq<(Seq<char>, Seq<JsonModel>)>;

/// The logs: named sequences of serialized rows.
pub type LogsModel = Seq<(Seq<char>, Seq<Seq<char>>)>;

/// Ensures a store exists, empty if it was absent.
pub open spec fn kv_ensure(kv: KvModel, store: Seq<char>) -> KvModel {
    if assoc_get(kv, store) is Some {
        kv
    } else {
        kv.push((store, Seq::empty()))
    }
}

/// The value under a key in a store; a missing store reads as empty.
pub open spec fn kv_get(kv: KvModel, store: Seq<char>, key: Seq<char>) -> Option<ValueModel> {
    match assoc_get(kv, store) {
        None => None,
        Some(entries) => record_get_model(entries, key),
    }
}

/// Grouping: appends an item under its key, keeping keys in first-seen order.
pub open spec fn groups_add(
    gs: Seq<(ValueModel, Seq<ValueModel>)>,
    key: ValueModel,
    item: ValueModel,
) -> Seq<(ValueModel, Seq<ValueModel>)>
    decreases gs.len(),
{
    if gs.len() == 0 {
        seq![(key, seq![item])]
    } else if gs[0].0 == key {
        seq![(gs[0].0, gs[0].1.push(item))] + gs.drop_first()
    } else {
        seq![gs[0]] + groups_add(gs.drop_first(), key, item)
    }
}

/// Whether a value can serve as a group or sort key.
pub open spec fn is_keyable(v: ValueModel) -> bool {
    v is I64 || v is String
}

/// Groups the input by the key expression, keys in first-seen order.  When
/// `check` holds, a key that is not an integer or string fails with `msg`.
pub open spec fn group_fold_s(
    by: ExprModel,
    input: Seq<ValueModel>,
    gs: Seq<(ValueModel, Seq<ValueModel>)>,
    check: bool,
    msg: Seq<char>,
) -> Result<Seq<(ValueModel, Seq<ValueModel>)>, Seq<char>>
    decreases input.len(),
{
    if input.len() == 0 {
        Ok(gs)
    } else {
        match eval_expr_s(by, Some(input[0])) {
            Err(er) => Err(er),
            Ok(key) => if check && !is_keyable(key) {
                Err(msg)
            } else {
                group_fold_s(by, input.drop_first(), groups_add(gs, key, input[0]), check, msg)
            },
        }
    }
}

/// One record per group: `{ key, items }`, with `items` truncated to the
/// limit, keeping the earliest items.
pub open spec fn collect_out_s(
    groups: Seq<(ValueModel, Seq<ValueModel>)>,
    limit: int,
) -> Seq<ValueModel> {
    Seq::new(
        groups.len(),
        |i: int|
            ValueModel::Record(
                record_insert_model(
                    record_insert_model(
                        Seq::empty(),
                        "items"@,
                        ValueModel::Array(
                            groups[i].1.take(if groups[i].1.len() <= limit {
                                groups[i].1.len() as int
                            } else {
                                limit
                            }),
                        ),
                    ),
                    "key"@,
                    groups[i].0,
                ),
            ),
    )
}

/// One record per group: `{ key, count }`.
pub open spec fn count_out_s(groups: Seq<(ValueModel, Seq<ValueModel>)>) -> Seq<ValueModel> {
    Seq::new(
        groups.len(),
        |i: int|
            ValueModel::Record(
                record_insert_model(
                    record_insert_model(
                        Seq::empty(),
                        "count"@,
                        ValueModel::I64(groups[i].1.len() as i64),
                    ),
                    "key"@,
                    groups[i].0,
                ),
            ),
    )
}

/// The sort key a value denotes, if it is an integer or a string.
pub open spec fn sort_key_of(v: ValueModel) -> Option<SortKeyModel> {
    match v {
        ValueModel::I64(n) => Some(SortKeyModel::I64(n)),
        ValueModel::String(s) => Some(SortKeyModel::String(s)),
        _ => None,
    }
}

/// The indexed, keyed rows for ranking: the key expression evaluated on each
/// item, which must yield an integer or a string.
pub open spec fn rank_rows_s(
    by: ExprModel,
    input: Seq<ValueModel>,
    start: int,
    msg: Seq<char>,
) -> Result<Seq<RankRowModel>, Seq<char>>
    decreases input.len(),
{
    if input.len() == 0 {
        Ok(Seq::empty())
    } else {
        match eval_expr_s(by, Some(input[0])) {
            Err(er) => Err(er),
            Ok(kv) => match sort_key_of(kv) {
                None => Err(msg),
                Some(key) => match rank_rows_s(by, input.drop_first(), start + 1, msg) {
                    Err(er) => Err(er),
                    Ok(rest) => Ok(
                        seq![RankRowModel { idx: start, key, item: input[0] }] + rest,
                    ),
                },
            },
        }
    }
}

/// The first `k` items of the stable ranking of the input by the key
/// expression.
pub open spec fn rank_topk_s(
    k: i64,
    by: ExprModel,
    order: SortOrder,
    input: Seq<ValueModel>,
) -> Result<Seq<ValueModel>, Seq<char>> {
    match rank_rows_s(by, input, 0, "rank.topk by expression must evaluate to I64 or String"@) {
        Err(er) => Err(er),
        Ok(rows) => {
            let sorted = sort_rows_s(order, rows);
            let take = if sorted.len() <= k {
                sorted.len() as int
            } else {
                k as int
            };
            Ok(Seq::new(take as nat, |i: int| sorted[i].item))
        },
    }
}

/// Grouped rows for per-group ranking: key in first-seen order, each item
/// carrying its input position and order key.
pub open spec fn topn_groups_add(
    gs: Seq<(ValueModel, Seq<RankRowModel>)>,
    key: ValueModel,
    row: RankRowModel,
) -> Seq<(ValueModel, Seq<RankRowModel>)>
    decreases gs.len(),
{
    if gs.len() == 0 {
        seq![(key, seq![row])]
    } else if gs[0].0 == key {
        seq![(gs[0].0, gs[0].1.push(row))] + gs.drop_first()
    } else {
        seq![gs[0]] + topn_groups_add(gs.drop_first(), key, row)
    }
}

/// Folds the input into per-key groups of rank rows, checking that group keys
/// are integers or strings and order keys are sortable.
pub open spec fn topn_fold_s(
    by_key: ExprModel,
    order_by: ExprModel,
    input: Seq<ValueModel>,
    start: int,
    gs: Seq<(ValueModel, Seq<RankRowModel>)>,
) -> Result<Seq<(ValueModel, Seq<RankRowModel>)>, Seq<char>>
    decreases input.len(),
{
    if input.len() == 0 {
        Ok(gs)
    } else {
        match eval_expr_s(by_key, Some(input[0])) {
            Err(er) => Err(er),
            Ok(key) => if !is_keyable(key) {
                Err("group.topn_items by_key must evaluate to I64 or String"@)
            } else {
                match eval_expr_s(order_by, Some(input[0])) {
                    Err(er) => Err(er),
                    Ok(okv) => match sort_key_of(okv) {
                        None => Err(
                            "group.topn_items order_by must evaluate to I64 or String"@,
                        ),
                        Some(okey) => topn_fold_s(
                            by_key,
                            order_by,
                            input.drop_first(),
                            start + 1,
                            topn_groups_add(
                                gs,
                                key,
                                RankRowModel { idx: start, key: okey, item: input[0] },
                            ),
                        ),
                    },
                }
            },
        }
    }
}

/// One record per group: `{ key, items }`, the items sorted stably by the
/// order key and truncated to `n`.
pub open spec fn topn_out_s(
    groups: Seq<(ValueModel, Seq<RankRowModel>)>,
    n: i64,
    order: SortOrder,
) -> Seq<ValueModel> {
    Seq::new(
        groups.len(),
        |i: int|
            {
                let sorted = sort_rows_s(order, groups[i].1);
                let take = if sorted.len() <= n {
                    sorted.len() as int
                } else {
                    n as int
                };
                ValueModel::Record(
                    record_insert_model(
                        record_insert_model(
                            Seq::empty(),
                            "items"@,
                            ValueModel::Array(Seq::new(take as nat, |j: int| sorted[j].item)),
                        ),
                        "key"@,
                        groups[i].0,
                    ),
                )
            },
    )
}

/// Loads records into one store's entries: each input must be a record with
/// a string `key` and a `value`; the key's entry is replaced.
pub open spec fn store_fold_s(
    input: Seq<ValueModel>,
    entries: Seq<(Seq<char>, ValueModel)>,
) -> Result<Seq<(Seq<char>, ValueModel)>, Seq<char>>
    decreases input.len(),
{
    if input.len() == 0 {
        Ok(entries)
    } else {
        match input[0] {
            ValueModel::Record(fields) => {
                let keyv = match record_get_model(fields, "key"@) {
                    Some(v) => v,
                    None => ValueModel::Null,
                };
                match keyv {
                    ValueModel::String(k) => match record_get_model(fields, "value"@) {
                        Some(v) => store_fold_s(
                            input.drop_first(),
                            record_insert_model(entries, k, v),
                        ),
                        None => Err("kv.load input must contain field 'value'"@),
                    },
                    _ => Err("kv.load input.key must be String"@),
                }
            },
            _ => Err("kv.load input must be Record"@),
        }
    }
}

/// Replaces one store's entries.
pub open spec fn kv_replace(
    kv: KvModel,
    store: Seq<char>,
    entries: Seq<(Seq<char>, ValueModel)>,
) -> KvModel
    decreases kv.len(),
{
    if kv.len() == 0 {
        kv
    } else if kv[0].0 == store {
        seq![(kv[0].0, entries)] + kv.drop_first()
    } else {
        seq![kv[0]] + kv_replace(kv.drop_first(), store, entries)
    }
}

/// Joins each item against a store: `{ left: item, right: looked-up or
/// null }`; the key expression must yield a string.
pub open spec fn lookup_s(
    key: ExprModel,
    input: Seq<ValueModel>,
    kv: KvModel,
    store: Seq<char>,
    msg: Seq<char>,
) -> Result<Seq<ValueModel>, Seq<char>>
    decreases input.len(),
{
    if input.len() == 0 {
        Ok(Seq::empty())
    } else {
        match eval_expr_s(key, Some(input[0])) {
            Err(er) => Err(er),
            Ok(kval) => match kval {
                ValueModel::String(k) => {
                    let right = match kv_get(kv, store, k) {
                        Some(v) => v,
                        None => ValueModel::Null,
                    };
                    let row = ValueModel::Record(
                        record_insert_model(
                            record_insert_model(Seq::empty(), "left"@, input[0]),
                            "right"@,
                            right,
                        ),
                    );
                    match lookup_s(key, input.drop_first(), kv, store, msg) {
                        Err(er) => Err(er),
                        Ok(rest) => Ok(seq![row] + rest),
                    }
                },
                _ => Err(msg),
            },
        }
    }
}

/// The concatenation of arrays the expression yields on each item; anything
/// but an array fails.
pub open spec fn stage_flat_s(f: ExprModel, items: Seq<ValueModel>) -> Result<
    Seq<ValueModel>,
    Seq<char>,
>
    decreases items.len(),
{
    if items.len() == 0 {
        Ok(Seq::empty())
    } else {
        match eval_expr_s(f, Some(items[0])) {
            Err(er) => Err(er),
            Ok(ValueModel::Array(vs)) => match stage_flat_s(f, items.drop_first()) {
                Err(er) => Err(er),
                Ok(rest) => Ok(vs + rest),
            },
            Ok(_) => Err("flat_map expression must return Array"@),
        }
    }
}

/// A reversible codec.
#[derive(Debug, Clone, Copy, PartialEq, Eq, Structural)]
pub enum Codec {
    Json,
    Utf8,
    B64,
}

/// Whether the codec's forward direction accepts the value.
pub open spec fn accepts_forward(c: Codec, v: ValueModel) -> bool {
    match c {
        Codec::Json => !(v is Bytes) && !(v is Unit),
        Codec::Utf8 => v is String,
        Codec::B64 => v is Bytes,
    }
}

/// Whether the codec's inverse direction accepts the value.
pub open spec fn accepts_inverse(c: Codec, v: ValueModel) -> bool {
    match c {
        Codec::Json => v is Bytes,
        Codec::Utf8 => v is Bytes,
        Codec::B64 => v is String,
    }
}

/// The codec's forward direction: json serializes to UTF-8 bytes, utf8
/// encodes a string, base64 renders bytes as text.
pub open spec fn codec_forward_s(c: Codec, v: ValueModel) -> Result<ValueModel, Seq<char>> {
    match c {
        Codec::Json => match v {
            ValueModel::Bytes(_) => Err("json forward expects a non-byte value"@),
            _ => Ok(ValueModel::Bytes(vstd::utf8::encode_utf8(json_text(v2j(v))))),
        },
        Codec::Utf8 => match v {
            ValueModel::String(s) => Ok(ValueModel::Bytes(vstd::utf8::encode_utf8(s))),
            _ => Err("utf8 forward expects String"@),
        },
        Codec::B64 => match v {
            ValueModel::Bytes(b) => Ok(ValueModel::String(crate::json::chars_of_bytes(
                crate::base64::b64_encode_s(b),
            ))),
            _ => Err("base64 forward expects Bytes"@),
        },
    }
}

/// The codec's inverse direction: json parses bytes, utf8 decodes bytes,
/// base64 decodes text.  The json directions are mutual inverses on values
/// whose strings are ASCII; the JSON parser reads string bytes one character
/// per byte, so non-ASCII text does not survive the round trip.
pub open spec fn codec_inverse_s(c: Codec, v: ValueModel) -> Result<ValueModel, Seq<char>> {
    match c {
        Codec::Json => match v {
            ValueModel::Bytes(b) => if !vstd::utf8::valid_utf8(b) {
                Err(jerr_text(JErr::Utf8))
            } else {
                match json_from_bytes(b) {
                    Ok(j) => Ok(j2v(j)),
                    Err(e) => Err(jerr_text(e)),
                }
            },
            _ => Err("json inverse expects Bytes"@),
        },
        Codec::Utf8 => match v {
            ValueModel::Bytes(b) => if vstd::utf8::valid_utf8(b) {
                Ok(ValueModel::String(vstd::utf8::decode_utf8(b)))
            } else {
                Err("invalid utf-8"@)
            },
            _ => Err("utf8 inverse expects Bytes"@),
        },
        Codec::B64 => match v {
            ValueModel::String(s) => match crate::base64::b64_decode_s(
                vstd::utf8::encode_utf8(s),
            ) {
                Ok(b) => Ok(ValueModel::Bytes(b)),
                Err(crate::base64::B64Err::Length) => Err("invalid base64 length"@),
                Err(crate::base64::B64Err::Alphabet) => Err("invalid base64"@),
            },
            _ => Err("base64 inverse expects String"@),
        },
    }
}

/// Every value the json codec reads in is well formed: a parsed document
/// keeps its objects sorted at every depth, and reading it as a value keeps
/// that, so the sorted-record invariant holds for everything a source or the
/// json codec feeds into a pipeline.
pub proof fn lemma_json_inverse_wf(v: ValueModel)
    ensures
        codec_inverse_s(Codec::Json, v) matches Ok(out) ==> crate::value::value_wf(out),
{
    match v {
        ValueModel::Bytes(b) => {
            if vstd::utf8::valid_utf8(b) {
                crate::json::lemma_json_from_bytes_wf(b);
                match json_from_bytes(b) {
                    Ok(j) => {
                        crate::value::lemma_j2v_wf(j);
                    },
                    Err(_) => {},
                }
            }
        },
        _ => {},
    }
}

/// One value through a reversible stage: the inverse when forced, else the
/// first accepted direction, forward preferred.
pub open spec fn codec_step_s(c: Codec, dir: Direction, v: ValueModel) -> Result<
    ValueModel,
    Seq<char>,
> {
    match dir {
        Direction::Inverse => codec_inverse_s(c, v),
        Direction::Auto => if accepts_forward(c, v) {
            codec_forward_s(c, v)
        } else if accepts_inverse(c, v) {
            codec_inverse_s(c, v)
        } else {
            Err("no matching direction for stage"@)
        },
    }
}

/// A whole stream through a reversible stage, value by value.
pub open spec fn codec_all_s(c: Codec, dir: Direction, input: Seq<ValueModel>) -> Result<
    Seq<ValueModel>,
    Seq<char>,
>
    decreases input.len(),
{
    if input.len() == 0 {
        Ok(Seq::empty())
    } else {
        match codec_step_s(c, dir, input[0]) {
            Err(er) => Err(er),
            Ok(v) => match codec_all_s(c, dir, input.drop_first()) {
                Err(er) => Err(er),
                Ok(rest) => Ok(seq![v] + rest),
            },
        }
    }
}

/// Reversibility of the utf8 codec: decoding the encoding of any string
/// gives the string back.
pub proof fn lemma_utf8_roundtrip(s: Seq<char>)
    ensures
        codec_inverse_s(Codec::Utf8, codec_forward_s(
            Codec::Utf8,
            ValueModel::String(s),
        )->Ok_0) == Ok::<ValueModel, Seq<char>>(ValueModel::String(s)),
{
    vstd::utf8::encode_utf8_valid_utf8(s);
    vstd::utf8::encode_utf8_decode_utf8(s);
}

/// Reversibility of the base64 codec: decoding the encoding of any byte
/// sequence gives the bytes back.
pub proof fn lemma_base64_codec_roundtrip(b: Seq<u8>)
    ensures
        codec_inverse_s(Codec::B64, codec_forward_s(
            Codec::B64,
            ValueModel::Bytes(b),
        )->Ok_0) == Ok::<ValueModel, Seq<char>>(ValueModel::Bytes(b)),
{
    let enc = crate::base64::b64_encode_s(b);
    crate::base64::lemma_b64_encode_ascii(b);
    crate::base64::lemma_ascii_chars_bytes(enc);
    crate::base64::lemma_b64_roundtrip(b);
}

/// A string field of a JSON object row.
pub open spec fn jfield_s(row: JsonModel, name: Seq<char>) -> Result<Seq<char>, Seq<char>> {
    match row {
        JsonModel::Object(fs) => match crate::json::object_get_model(fs, name) {
            Some(JsonModel::String(s)) => Ok(s),
            _ => Err("expected string field '"@ + name + "'"@),
        },
        _ => Err("expected object"@),
    }
}

/// Appends a value under a key of a multimap, keys in first-seen order.
pub open spec fn multi_add<T>(
    m: Seq<(Seq<char>, Seq<T>)>,
    k: Seq<char>,
    v: T,
) -> Seq<(Seq<char>, Seq<T>)>
    decreases m.len(),
{
    if m.len() == 0 {
        seq![(k, seq![v])]
    } else if m[0].0 == k {
        seq![(m[0].0, m[0].1.push(v))] + m.drop_first()
    } else {
        seq![m[0]] + multi_add(m.drop_first(), k, v)
    }
}

/// The roles bound to each principal, in the fixture's row order.
pub open spec fn roles_fold_s(
    rows: Seq<JsonModel>,
    m: Seq<(Seq<char>, Seq<Seq<char>>)>,
) -> Result<Seq<(Seq<char>, Seq<Seq<char>>)>, Seq<char>>
    decreases rows.len(),
{
    if rows.len() == 0 {
        Ok(m)
    } else {
        match jfield_s(rows[0], "principal"@) {
            Err(er) => Err(er),
            Ok(p) => match jfield_s(rows[0], "role"@) {
                Err(er) => Err(er),
                Ok(r) => roles_fold_s(rows.drop_first(), multi_add(m, p, r)),
            },
        }
    }
}

/// Appends a permission row under a role and action pair.
pub open spec fn perms_add(
    m: Seq<((Seq<char>, Seq<char>), Seq<JsonModel>)>,
    k: (Seq<char>, Seq<char>),
    row: JsonModel,
) -> Seq<((Seq<char>, Seq<char>), Seq<JsonModel>)>
    decreases m.len(),
{
    if m.len() == 0 {
        seq![(k, seq![row])]
    } else if m[0].0 == k {
        seq![(m[0].0, m[0].1.push(row))] + m.drop_first()
    } else {
        seq![m[0]] + perms_add(m.drop_first(), k, row)
    }
}

/// The permission rows for each role and action pair.  Every row must hold
/// string `role`, `action` and `resource` fields: a bad row fails the stage
/// even when no request would ever consult it.
pub open spec fn perms_fold_s(
    rows: Seq<JsonModel>,
    m: Seq<((Seq<char>, Seq<char>), Seq<JsonModel>)>,
) -> Result<Seq<((Seq<char>, Seq<char>), Seq<JsonModel>)>, Seq<char>>
    decreases rows.len(),
{
    if rows.len() == 0 {
        Ok(m)
    } else {
        match jfield_s(rows[0], "role"@) {
            Err(er) => Err(er),
            Ok(r) => match jfield_s(rows[0], "action"@) {
                Err(er) => Err(er),
                Ok(a) => match jfield_s(rows[0], "resource"@) {
                    Err(er) => Err(er),
                    Ok(_) => perms_fold_s(rows.drop_first(), perms_add(m, (r, a), rows[0])),
                },
            },
        }
    }
}

/// The immediate ancestors of each resource, in the fixture's row order.
pub open spec fn amap_fold_s(
    rows: Seq<JsonModel>,
    m: Seq<(Seq<char>, Seq<Seq<char>>)>,
) -> Result<Seq<(Seq<char>, Seq<Seq<char>>)>, Seq<char>>
    decreases rows.len(),
{
    if rows.len() == 0 {
        Ok(m)
    } else {
        match jfield_s(rows[0], "resource"@) {
            Err(er) => Err(er),
            Ok(r) => match jfield_s(rows[0], "ancestor"@) {
                Err(er) => Err(er),
                Ok(a) => amap_fold_s(rows.drop_first(), multi_add(m, r, a)),
            },
        }
    }
}

/// Lookup in a pair-keyed multimap.
pub open spec fn pair_get(
    m: Seq<((Seq<char>, Seq<char>), Seq<JsonModel>)>,
    k: (Seq<char>, Seq<char>),
) -> Option<Seq<JsonModel>>
    decreases m.len(),
{
    if m.len() == 0 {
        None
    } else if m[0].0 == k {
        Some(m[0].1)
    } else {
        pair_get(m.drop_first(), k)
    }
}

/// Appends each name not yet present, in order.
pub open spec fn add_missing(out: Seq<Seq<char>>, ancs: Seq<Seq<char>>) -> Seq<Seq<char>>
    decreases ancs.len(),
{
    if ancs.len() == 0 {
        out
    } else {
        add_missing(
            if out.contains(ancs[0]) {
                out
            } else {
                out.push(ancs[0])
            },
            ancs.drop_first(),
        )
    }
}

/// The total number of ancestor edges in the map.
pub open spec fn amap_edges(m: Seq<(Seq<char>, Seq<Seq<char>>)>) -> nat
    decreases m.len(),
{
    if m.len() == 0 {
        0
    } else {
        m[0].1.len() + amap_edges(m.drop_first())
    }
}

/// Breadth-first closure over the ancestor edges, in discovery order with
/// duplicates dropped.  Each processed name appends at most its own edges, so
/// one more step than the edge count always completes the walk.
pub open spec fn bfs_s(
    m: Seq<(Seq<char>, Seq<Seq<char>>)>,
    out: Seq<Seq<char>>,
    idx: int,
    fuel: nat,
) -> Seq<Seq<char>>
    decreases fuel,
{
    if fuel == 0 || idx >= out.len() || idx < 0 {
        out
    } else {
        let next = match assoc_get(m, out[idx]) {
            Some(ancs) => add_missing(out, ancs),
            None => out,
        };
        bfs_s(m, next, idx + 1, (fuel - 1) as nat)
    }
}

/// The ancestor-closure of a resource: itself, then everything reachable
/// over the edges, in discovery order.
pub open spec fn collect_ancestors_s(
    resource: Seq<char>,
    m: Seq<(Seq<char>, Seq<Seq<char>>)>,
) -> Seq<Seq<char>> {
    bfs_s(m, seq![resource], 0, amap_edges(m) + 1)
}

/// The permission rows among the candidates whose resource is reachable.
pub open spec fn cand_fold_s(rows: Seq<JsonModel>, reachable: Seq<Seq<char>>) -> Result<
    Seq<JsonModel>,
    Seq<char>,
>
    decreases rows.len(),
{
    if rows.len() == 0 {
        Ok(Seq::empty())
    } else {
        match jfield_s(rows[0], "resource"@) {
            Err(er) => Err(er),
            Ok(pr) => match cand_fold_s(rows.drop_first(), reachable) {
                Err(er) => Err(er),
                Ok(rest) => Ok(
                    if reachable.contains(pr) {
                        seq![rows[0]] + rest
                    } else {
                        rest
                    },
                ),
            },
        }
    }
}

/// The matching permission rows over all of a principal's roles, in binding
/// then permission order.
pub open spec fn matches_fold_s(
    roles: Seq<Seq<char>>,
    perms: Seq<((Seq<char>, Seq<char>), Seq<JsonModel>)>,
    action: Seq<char>,
    reachable: Seq<Seq<char>>,
) -> Result<Seq<JsonModel>, Seq<char>>
    decreases roles.len(),
{
    if roles.len() == 0 {
        Ok(Seq::empty())
    } else {
        let part = match pair_get(perms, (roles[0], action)) {
            Some(cands) => cand_fold_s(cands, reachable),
            None => Ok(Seq::empty()),
        };
        match part {
            Err(er) => Err(er),
            Ok(found) => match matches_fold_s(roles.drop_first(), perms, action, reachable) {
                Err(er) => Err(er),
                Ok(rest) => Ok(found + rest),
            },
        }
    }
}

/// The decision for each request: `{ request, decision, matches }`, allowed
/// exactly when some permission row matches.
pub open spec fn rbac_requests_s(
    input: Seq<ValueModel>,
    roles: Seq<(Seq<char>, Seq<Seq<char>>)>,
    perms: Seq<((Seq<char>, Seq<char>), Seq<JsonModel>)>,
    amap: Seq<(Seq<char>, Seq<Seq<char>>)>,
) -> Result<Seq<ValueModel>, Seq<char>>
    decreases input.len(),
{
    if input.len() == 0 {
        Ok(Seq::empty())
    } else {
        let rj = v2j(input[0]);
        match jfield_s(rj, "principal"@) {
            Err(er) => Err(er),
            Ok(principal) => match jfield_s(rj, "action"@) {
                Err(er) => Err(er),
                Ok(action) => match jfield_s(rj, "resource"@) {
                    Err(er) => Err(er),
                    Ok(resource) => {
                        let prole = match assoc_get(roles, principal) {
                            Some(rs) => rs,
                            None => Seq::empty(),
                        };
                        let reachable = collect_ancestors_s(resource, amap);
                        match matches_fold_s(prole, perms, action, reachable) {
                            Err(er) => Err(er),
                            Ok(found) => {
                                let decision: Seq<char> = if found.len() == 0 {
                                    "deny"@
                                } else {
                                    "allow"@
                                };
                                let row = j2v(
                                    JsonModel::Object(
                                        seq![
                                            ("decision"@, JsonModel::String(decision)),
                                            ("matches"@, JsonModel::Array(found)),
                                            ("request"@, rj),
                                        ],
                                    ),
                                );
                                match rbac_requests_s(input.drop_first(), roles, perms, amap) {
                                    Err(er) => Err(er),
                                    Ok(rest) => Ok(seq![row] + rest),
                                }
                            },
                        }
                    },
                },
            },
        }
    }
}

/// Evaluates the policy stage against its three fixtures.
pub open spec fn rbac_s(
    input: Seq<ValueModel>,
    bindings: Seq<JsonModel>,
    perms_rows: Seq<JsonModel>,
    ancestors: Seq<JsonModel>,
) -> Result<Seq<ValueModel>, Seq<char>> {
    match roles_fold_s(bindings, Seq::empty()) {
        Err(er) => Err(er),
        Ok(roles) => match perms_fold_s(perms_rows, Seq::empty()) {
            Err(er) => Err(er),
            Ok(perms) => match amap_fold_s(ancestors, Seq::empty()) {
                Err(er) => Err(er),
                Ok(amap) => rbac_requests_s(input, roles, perms, amap),
            },
        },
    }
}

/// The outcome of applying a stage: the output stream, the key-value stores,
/// and the three output accumulators.
pub struct Applied {
    pub out: Seq<ValueModel>,
    pub kv: KvModel,
    pub tables: RowsModel,
    pub logs: LogsModel,
    pub explain: Seq<Seq<char>>,
}

/// What applying a stage to a stream yields: one explain line per executed
/// stage, the per-stage semantics on the stream, and the state and output
/// effects of sinks.
pub open spec fn apply_stage_s(
    stage: StageModel,
    input: Seq<ValueModel>,
    fixtures: RowsModel,
    kv: KvModel,
    tables: RowsModel,
    logs: LogsModel,
    explain: Seq<Seq<char>>,
) -> Result<Applied, Seq<char>>
    decreases stage, 1int,
{
    match stage {
        StageModel::MapEach(e) => match eval_map_s(e, input) {
            Err(er) => Err(er),
            Ok(out) => Ok(Applied {
                out,
                kv,
                tables,
                logs,
                explain: explain.push("  [pure] map"@),
            }),
        },
        StageModel::Filter(e) => match eval_filter_s(e, input) {
            Err(er) => Err(er),
            Ok(out) => Ok(Applied {
                out,
                kv,
                tables,
                logs,
                explain: explain.push("  [pure] filter"@),
            }),
        },
        StageModel::FlatMap(e) => match stage_flat_s(e, input) {
            Err(er) => Err(er),
            Ok(out) => Ok(Applied {
                out,
                kv,
                tables,
                logs,
                explain: explain.push("  [pure] flat_map"@),
            }),
        },
        StageModel::GroupCollectAll { by_key, within_ms, limit } => if within_ms < 0 {
            Err("group.collect_all within_ms must be >= 0"@)
        } else if limit < 0 {
            Err("group.collect_all limit must be >= 0"@)
        } else {
            match group_fold_s(by_key, input, Seq::empty(), false, Seq::empty()) {
                Err(er) => Err(er),
                Ok(groups) => Ok(Applied {
                    out: collect_out_s(groups, limit as int),
                    kv,
                    tables,
                    logs,
                    explain: explain.push("  [pure] group.collect_all"@),
                }),
            }
        },
        StageModel::GroupCount { by_key } => match group_fold_s(
            by_key,
            input,
            Seq::empty(),
            true,
            "group.count by_key must evaluate to I64 or String"@,
        ) {
            Err(er) => Err(er),
            Ok(groups) => Ok(Applied {
                out: count_out_s(groups),
                kv,
                tables,
                logs,
                explain: explain.push("  [pure] group.count"@),
            }),
        },
        StageModel::RankTopK { k, by, order } => if k < 0 {
            Err("rank.topk k must be >= 0"@)
        } else {
            match rank_topk_s(k, by, order, input) {
                Err(er) => Err(er),
                Ok(out) => Ok(Applied {
                    out,
                    kv,
                    tables,
                    logs,
                    explain: explain.push("  [pure] rank.topk"@),
                }),
            }
        },
        StageModel::GroupTopNItems { by_key, n, order_by, order } => if n < 0 {
            Err("group.topn_items n must be >= 0"@)
        } else {
            match topn_fold_s(by_key, order_by, input, 0, Seq::empty()) {
                Err(er) => Err(er),
                Ok(groups) => Ok(Applied {
                    out: topn_out_s(groups, n, order),
                    kv,
                    tables,
                    logs,
                    explain: explain.push("  [pure] group.topn_items"@),
                }),
            }
        },
        StageModel::KvLoad { store } => {
            let kv1 = kv_ensure(kv, store);
            let entries0 = match assoc_get(kv1, store) {
                Some(e) => e,
                None => Seq::empty(),
            };
            match store_fold_s(input, entries0) {
                Err(er) => Err(er),
                Ok(entries) => Ok(Applied {
                    out: seq![ValueModel::Unit],
                    kv: kv_replace(kv1, store, entries),
                    tables,
                    logs,
                    explain: explain.push("  [sink] kv.load("@ + store + ")"@),
                }),
            }
        },
        StageModel::LookupKv { store, key } => match lookup_s(
            key,
            input,
            kv,
            store,
            "lookup.kv key must evaluate to String"@,
        ) {
            Err(er) => Err(er),
            Ok(out) => Ok(Applied {
                out,
                kv,
                tables,
                logs,
                explain: explain.push("  [pure] lookup.kv("@ + store + ")"@),
            }),
        },
        StageModel::LookupBatchKv { store, key, batch_size, within_ms } => if batch_size < 0
            || within_ms < 0 {
            Err("lookup.batch_kv batch_size/within_ms must be >= 0"@)
        } else {
            match lookup_s(key, input, kv, store,
                "lookup.batch_kv key must evaluate to String"@) {
                Err(er) => Err(er),
                Ok(out) => Ok(Applied {
                    out,
                    kv,
                    tables,
                    logs,
                    explain: explain.push("  [pure] lookup.batch_kv("@ + store + ")"@),
                }),
            }
        },
        StageModel::RbacEvaluate { principal_bindings, role_perms, resource_ancestors } => {
            match assoc_get(fixtures, principal_bindings) {
                None => Err("missing fixture: "@ + principal_bindings),
                Some(bindings) => match assoc_get(fixtures, role_perms) {
                    None => Err("missing fixture: "@ + role_perms),
                    Some(perms_rows) => match assoc_get(fixtures, resource_ancestors) {
                        None => Err("missing fixture: "@ + resource_ancestors),
                        Some(ancestors) => match rbac_s(input, bindings, perms_rows, ancestors) {
                            Err(er) => Err(er),
                            Ok(out) => Ok(Applied {
                                out,
                                kv,
                                tables,
                                logs,
                                explain: explain.push("  [pure] rbac.evaluate"@),
                            }),
                        },
                    },
                },
            }
        },
        StageModel::Json(dir) => match codec_all_s(Codec::Json, dir, input) {
            Err(er) => Err(er),
            Ok(out) => Ok(Applied {
                out,
                kv,
                tables,
                logs,
                explain: explain.push("  [reversible] json"@),
            }),
        },
        StageModel::Utf8(dir) => match codec_all_s(Codec::Utf8, dir, input) {
            Err(er) => Err(er),
            Ok(out) => Ok(Applied {
                out,
                kv,
                tables,
                logs,
                explain: explain.push("  [reversible] utf8"@),
            }),
        },
        StageModel::Base64(dir) => match codec_all_s(Codec::B64, dir, input) {
            Err(er) => Err(er),
            Ok(out) => Ok(Applied {
                out,
                kv,
                tables,
                logs,
                explain: explain.push("  [reversible] base64"@),
            }),
        },
        StageModel::UiTable(name) => Ok(Applied {
            out: seq![ValueModel::Unit],
            kv,
            tables: assoc_append(tables, name, Seq::new(input.len(), |i: int| v2j(input[i]))),
            logs,
            explain: explain.push("  [sink] ui.table("@ + name + ")"@),
        }),
        StageModel::UiLog(name) => Ok(Applied {
            out: seq![ValueModel::Unit],
            kv,
            tables,
            logs: assoc_append(
                logs,
                name,
                Seq::new(input.len(), |i: int| json_text(v2j(input[i]))),
            ),
            explain: explain.push("  [sink] ui.log("@ + name + ")"@),
        }),
        StageModel::Compose(parts) => apply_all_s(parts, input, fixtures, kv, tables, logs,
            explain),
    }
}

/// Applies child stages left to right over the same stream, threading the
/// result.
pub open spec fn apply_all_s(
    stages: Seq<StageModel>,
    input: Seq<ValueModel>,
    fixtures: RowsModel,
    kv: KvModel,
    tables: RowsModel,
    logs: LogsModel,
    explain: Seq<Seq<char>>,
) -> Result<Applied, Seq<char>>
    decreases stages, 0int,
{
    if stages.len() == 0 {
        Ok(Applied { out: input, kv, tables, logs, explain })
    } else {
        match apply_stage_s(stages[0], input, fixtures, kv, tables, logs, explain) {
            Err(er) => Err(er),
            Ok(a) => apply_all_s(stages.drop_first(), a.out, fixtures, a.kv, a.tables, a.logs,
                a.explain),
        }
    }
}

/// The rows under a name after one append: what was there, then the appended
/// rows, in order.
pub proof fn lemma_assoc_append_get<T>(s: Seq<(Seq<char>, Seq<T>)>, k: Seq<char>, add: Seq<T>)
    ensures
        assoc_get(assoc_append(s, k, add), k) == Some(
            match assoc_get(s, k) {
                Some(e) => e + add,
                None => add,
            },
        ),
    decreases s.len(),
{
    if s.len() == 0 {
        let r = assoc_append(s, k, add);
        assert(r == seq![(k, add)]);
        assert(r[0] == (k, add));
        assert(assoc_get(r, k) == Some(add));
    } else if s[0].0 == k {
        let r = assoc_append(s, k, add);
        assert(r == seq![(s[0].0, s[0].1 + add)] + s.drop_first());
        assert(r[0] == (s[0].0, s[0].1 + add));
    } else {
        lemma_assoc_append_get(s.drop_first(), k, add);
        let r = assoc_append(s, k, add);
        assert(r == seq![s[0]] + assoc_append(s.drop_first(), k, add));
        assert(r[0] == s[0]);
        assert(r.drop_first() =~= assoc_append(s.drop_first(), k, add));
    }
}

/// Sink accumulation law: two pipelines writing to the same sink name append
/// in program order, so after both the sink holds what was already there,
/// then the first write's rows, then the second's.
pub proof fn lemma_sink_accumulation<T>(
    s: Seq<(Seq<char>, Seq<T>)>,
    k: Seq<char>,
    first: Seq<T>,
    second: Seq<T>,
)
    ensures
        assoc_get(assoc_append(assoc_append(s, k, first), k, second), k) == Some(
            match assoc_get(s, k) {
                Some(e) => e + first + second,
                None => first + second,
            },
        ),
{
    lemma_assoc_append_get(s, k, first);
    lemma_assoc_append_get(assoc_append(s, k, first), k, second);
    match assoc_get(s, k) {
        Some(e) => {
            assert((e + first) + second =~= e + first + second);
        },
        None => {},
    }
}

/// The keys of the groups, in emitted order.
pub open spec fn group_keys(gs: Seq<(ValueModel, Seq<ValueModel>)>) -> Seq<ValueModel> {
    Seq::new(gs.len(), |i: int| gs[i].0)
}

/// Group order stability law: adding an item under a key leaves every
/// existing group where it stands; a key not seen before gains a group at
/// the end.  Groups therefore emerge in the order their keys first appeared
/// in the input.
pub proof fn lemma_group_first_seen(
    gs: Seq<(ValueModel, Seq<ValueModel>)>,
    key: ValueModel,
    item: ValueModel,
)
    ensures
        group_keys(gs).contains(key) ==> group_keys(groups_add(gs, key, item)) == group_keys(gs),
        !group_keys(gs).contains(key) ==> group_keys(groups_add(gs, key, item)) == group_keys(
            gs,
        ).push(key),
    decreases gs.len(),
{
    let r = groups_add(gs, key, item);
    if gs.len() == 0 {
        assert(r == seq![(key, seq![item])]);
        assert(group_keys(r) =~= group_keys(gs).push(key));
    } else if gs[0].0 == key {
        assert(group_keys(gs)[0] == key);
        assert(group_keys(gs).contains(key));
        assert(r == seq![(gs[0].0, gs[0].1.push(item))] + gs.drop_first());
        assert(group_keys(r) =~= group_keys(gs)) by {
            assert forall|i: int| 0 <= i < r.len() implies group_keys(r)[i]
                == group_keys(gs)[i] by {
                if i > 0 {
                    assert(r[i] == gs.drop_first()[i - 1]);
                    assert(gs.drop_first()[i - 1] == gs[i]);
                }
            }
        }
    } else {
        lemma_group_first_seen(gs.drop_first(), key, item);
        assert(r == seq![gs[0]] + groups_add(gs.drop_first(), key, item));
        assert(group_keys(gs).contains(key) <==> group_keys(gs.drop_first()).contains(key)) by {
            if group_keys(gs).contains(key) {
                let i = choose|i: int|
                    0 <= i < group_keys(gs).len() && group_keys(gs)[i] == key;
                assert(i > 0);
                assert(group_keys(gs.drop_first())[i - 1] == gs[i].0);
            }
            if group_keys(gs.drop_first()).contains(key) {
                let i = choose|i: int|
                    0 <= i < group_keys(gs.drop_first()).len() && group_keys(
                        gs.drop_first(),
                    )[i] == key;
                assert(group_keys(gs)[i + 1] == gs[i + 1].0);
                assert(gs.drop_first()[i] == gs[i + 1]);
            }
        }
        assert(gs.drop_first().len() == gs.len() - 1);
        assert(forall|w: int| 0 <= w < gs.len() - 1 ==> #[trigger] gs.drop_first()[w] == gs[w
            + 1]);
        if group_keys(gs.drop_first()).contains(key) {
            assert(group_keys(r) =~= group_keys(gs)) by {
                assert forall|i: int| 0 <= i < r.len() implies group_keys(r)[i]
                    == group_keys(gs)[i] by {
                    if i > 0 {
                        assert(r[i] == groups_add(gs.drop_first(), key, item)[i - 1]);
                        assert(group_keys(groups_add(gs.drop_first(), key, item))[i - 1]
                            == group_keys(gs.drop_first())[i - 1]);
                        assert(gs.drop_first()[i - 1] == gs[i]);
                        assert(group_keys(gs.drop_first())[i - 1] == gs[i].0);
                    }
                }
            }
        } else {
            let add = groups_add(gs.drop_first(), key, item);
            assert(group_keys(add).len() == add.len());
            assert(group_keys(add) == group_keys(gs.drop_first()).push(key));
            assert(add.len() == gs.drop_first().len() + 1);
            assert(r.len() == gs.len() + 1);
            assert(group_keys(r) =~= group_keys(gs).push(key)) by {
                assert forall|i: int| 0 <= i < r.len() implies group_keys(r)[i]
                    == group_keys(gs).push(key)[i] by {
                    if i > 0 {
                        assert(r[i] == add[i - 1]);
                        assert(group_keys(add)[i - 1] == add[i - 1].0);
                        assert(group_keys(add)[i - 1] == group_keys(gs.drop_first()).push(
                            key,
                        )[i - 1]);
                        if i < r.len() - 1 {
                            assert(gs.drop_first()[i - 1] == gs[i]);
                            assert(group_keys(gs.drop_first())[i - 1] == gs[i].0);
                            assert(group_keys(gs).push(key)[i] == gs[i].0);
                        } else {
                            assert(group_keys(gs.drop_first()).push(key)[i - 1] == key);
                            assert(group_keys(gs).push(key)[i] == key);
                        }
                    }
                }
            }
        }
    }
}

/// Group order stability law, over the whole fold: folding more input never
/// moves or drops an existing group and never duplicates a key, so the
/// emitted groups stand in the order their keys first appeared.
pub proof fn lemma_group_fold_keys(
    by: ExprModel,
    input: Seq<ValueModel>,
    gs: Seq<(ValueModel, Seq<ValueModel>)>,
    check: bool,
    msg: Seq<char>,
)
    ensures
        group_fold_s(by, input, gs, check, msg) matches Ok(out) ==> {
            &&& group_keys(out).len() >= group_keys(gs).len()
            &&& forall|i: int| 0 <= i < gs.len() ==> group_keys(out)[i] == group_keys(gs)[i]
            &&& (group_keys(gs).no_duplicates() ==> group_keys(out).no_duplicates())
        },
    decreases input.len(),
{
    if input.len() > 0 {
        match eval_expr_s(by, Some(input[0])) {
            Err(_) => {},
            Ok(key) => {
                if check && !is_keyable(key) {
                } else {
                    let gs2 = groups_add(gs, key, input[0]);
                    lemma_group_first_seen(gs, key, input[0]);
                    lemma_group_fold_keys(by, input.drop_first(), gs2, check, msg);
                    if !group_keys(gs).contains(key) {
                        assert(group_keys(gs2) == group_keys(gs).push(key));
                        if group_keys(gs).no_duplicates() {
                            assert(group_keys(gs2).no_duplicates()) by {
                                assert(forall|i: int|
                                    0 <= i < gs.len() ==> group_keys(gs2)[i] == group_keys(
                                        gs,
                                    )[i]);
                            }
                        }
                    }
                }
            },
        }
    }
}

/// Whether the rows stand in ranking order.
pub open spec fn rows_sorted(order: SortOrder, s: Seq<RankRowModel>) -> bool {
    forall|i: int, j: int| 0 <= i < j < s.len() ==> row_le(order, s[i], s[j])
}

/// One row precedes another, or the other precedes it.
proof fn lemma_row_le_total(order: SortOrder, a: RankRowModel, b: RankRowModel)
    ensures
        row_le(order, a, b) || row_le(order, b, a),
{
    match (a.key, b.key) {
        (SortKeyModel::String(x), SortKeyModel::String(y)) => {
            crate::text::lemma_lex_cmp_eq(x, y);
            crate::text::lemma_lex_cmp_eq(y, x);
            crate::text::lemma_lex_cmp_antisym(x, y);
        },
        _ => {},
    }
}

/// Row precedence is transitive.
proof fn lemma_row_le_trans(order: SortOrder, a: RankRowModel, b: RankRowModel, c: RankRowModel)
    requires
        row_le(order, a, b),
        row_le(order, b, c),
    ensures
        row_le(order, a, c),
{
    match (a.key, b.key, c.key) {
        (SortKeyModel::String(x), SortKeyModel::String(y), SortKeyModel::String(z)) => {
            crate::text::lemma_lex_cmp_eq(x, y);
            crate::text::lemma_lex_cmp_eq(y, z);
            crate::text::lemma_lex_cmp_eq(x, z);
            crate::text::lemma_lex_cmp_antisym(x, y);
            crate::text::lemma_lex_cmp_antisym(y, z);
            crate::text::lemma_lex_cmp_antisym(x, z);
            match order {
                SortOrder::Asc => {
                    crate::text::lemma_lex_cmp_trans(x, y, z);
                },
                SortOrder::Desc => {
                    crate::text::lemma_lex_cmp_trans(z, y, x);
                },
            }
        },
        _ => {},
    }
}

/// Inserting a row keeps the rows sorted and adds exactly that row.
proof fn lemma_insert_row_sorted(order: SortOrder, s: Seq<RankRowModel>, row: RankRowModel)
    requires
        rows_sorted(order, s),
    ensures
        rows_sorted(order, insert_row_s(order, s, row)),
        insert_row_s(order, s, row).to_multiset() == s.to_multiset().insert(row),
        insert_row_s(order, s, row).len() == s.len() + 1,
    decreases s.len(),
{
    broadcast use vstd::seq_lib::group_seq_properties;
    let r = insert_row_s(order, s, row);
    if s.len() == 0 {
        assert(r == seq![row]);
        assert(r =~= Seq::<RankRowModel>::empty().push(row));
        assert(r.to_multiset() =~= s.to_multiset().insert(row));
    } else if row_le(order, row, s[0]) && !row_le(order, s[0], row) {
        assert(r == seq![row] + s);
        assert forall|i: int, j: int| 0 <= i < j < r.len() implies row_le(order, r[i],
            r[j]) by {
            if i == 0 {
                assert(r[0] == row);
                if j == 1 {
                    assert(r[j] == s[0]);
                } else {
                    assert(r[j] == s[j - 1]);
                    assert(row_le(order, s[0], s[j - 1]));
                    lemma_row_le_trans(order, row, s[0], s[j - 1]);
                }
            } else {
                assert(r[i] == s[i - 1] && r[j] == s[j - 1]);
            }
        }
        assert(r =~= s.insert(0, row));
        vstd::seq_lib::lemma_seq_union_to_multiset_commutative(seq![row], s);
        assert((seq![row] + s).to_multiset() == (s + seq![row]).to_multiset());
        assert(s + seq![row] =~= s.push(row));
        assert(r.to_multiset() =~= s.to_multiset().insert(row));
    } else {
        let s2 = s.drop_first();
        assert(rows_sorted(order, s2)) by {
            assert(forall|i: int, j: int|
                0 <= i < j < s2.len() ==> s2[i] == s[i + 1] && s2[j] == s[j + 1]);
        }
        lemma_insert_row_sorted(order, s2, row);
        let r2 = insert_row_s(order, s2, row);
        assert(r == seq![s[0]] + r2);
        lemma_row_le_total(order, row, s[0]);
        assert(row_le(order, s[0], row));
        assert forall|i: int, j: int| 0 <= i < j < r.len() implies row_le(order, r[i],
            r[j]) by {
            if i == 0 {
                assert(r[j] == r2[j - 1]);
                assert(r2.to_multiset().contains(r2[j - 1]));
                assert(s2.to_multiset().insert(row).contains(r2[j - 1]));
                if r2[j - 1] == row {
                    assert(row_le(order, s[0], row));
                } else {
                    assert(s2.to_multiset().contains(r2[j - 1]));
                    assert(s2.contains(r2[j - 1]));
                    let w = choose|w: int| 0 <= w < s2.len() && s2[w] == r2[j - 1];
                    assert(s[w + 1] == s2[w]);
                    assert(row_le(order, s[0], s[w + 1]));
                }
            } else {
                assert(r[i] == r2[i - 1] && r[j] == r2[j - 1]);
            }
        }
        assert(r.to_multiset() =~= s.to_multiset().insert(row)) by {
            vstd::seq_lib::lemma_multiset_commutative(seq![s[0]], r2);
            vstd::seq_lib::lemma_multiset_commutative(seq![s[0]], s2);
            assert(seq![s[0]] + s2 =~= s);
            assert(seq![s[0]].to_multiset() =~= Multiset::<RankRowModel>::empty().insert(
                s[0],
            )) by {
                assert(seq![s[0]] =~= Seq::<RankRowModel>::empty().push(s[0]));
            }
        }
    }
}

/// Sort stability law: ranking sorts the rows by key in the requested order,
/// breaking ties by the original input position, and keeps exactly the input
/// rows.  Rows with equal keys therefore stand in original input order.
pub proof fn lemma_sort_rows_sorted(order: SortOrder, rows: Seq<RankRowModel>)
    ensures
        rows_sorted(order, sort_rows_s(order, rows)),
        sort_rows_s(order, rows).to_multiset() == rows.to_multiset(),
        sort_rows_s(order, rows).len() == rows.len(),
    decreases rows.len(),
{
    broadcast use vstd::seq_lib::group_seq_properties;
    if rows.len() == 0 {
        assert(sort_rows_s(order, rows).to_multiset() =~= rows.to_multiset());
    } else {
        lemma_sort_rows_sorted(order, rows.drop_last());
        lemma_insert_row_sorted(order, sort_rows_s(order, rows.drop_last()), rows.last());
        assert(rows.drop_last().push(rows.last()) =~= rows);
        assert(rows.drop_last().to_multiset().insert(rows.last())
            == rows.drop_last().push(rows.last()).to_multiset());
    }
}

/// Limit semantics law: each emitted group record holds the smaller of the
/// group's size and the limit many items, and they are the group's earliest
/// items in input order.
pub proof fn lemma_limit_semantics(
    groups: Seq<(ValueModel, Seq<ValueModel>)>,
    limit: int,
    i: int,
)
    requires
        0 <= i < groups.len(),
        0 <= limit,
    ensures
        ({
            let out = collect_out_s(groups, limit);
            let m = groups[i].1.len() as int;
            let take = if m <= limit {
                m
            } else {
                limit
            };
            &&& out[i] matches ValueModel::Record(fields)
            &&& record_get_model(fields, "items"@) == Some(
                ValueModel::Array(groups[i].1.take(take)),
            )
            &&& groups[i].1.take(take).len() == take
            &&& forall|j: int| 0 <= j < take ==> groups[i].1.take(take)[j] == groups[i].1[j]
        }),
{
    let m = groups[i].1.len() as int;
    let take = if m <= limit {
        m
    } else {
        limit
    };
    let items_v = ValueModel::Array(groups[i].1.take(take));
    let key_v = groups[i].0;
    reveal_strlit("items");
    reveal_strlit("key");
    let one = record_insert_model(Seq::empty(), "items"@, items_v);
    assert(one == seq![("items"@, items_v)]);
    assert(lex_cmp("key"@, "items"@) == Ord3::Gt) by {
        assert("key"@[0] == 'k' && "items"@[0] == 'i');
        assert(('k' as u32) > ('i' as u32));
    }
    let two = record_insert_model(one, "key"@, key_v);
    assert(two == seq![one[0]] + record_insert_model(one.drop_first(), "key"@, key_v));
    assert(one.drop_first() =~= Seq::<(Seq<char>, ValueModel)>::empty());
    assert(two =~= seq![("items"@, items_v), ("key"@, key_v)]);
    assert(record_get_model(two, "items"@) == Some(items_v));
}

} // verus!

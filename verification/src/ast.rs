//! The abstract syntax of pipeline programs: statements, expressions, call
//! arguments and source spans.  The models drop spans: the evaluator's
//! meaning of an expression does not depend on where it was written.

use vstd::prelude::*;

verus! {

/// A half-open source range, in bytes.
#[derive(Debug, Clone, Copy, PartialEq, Eq, Structural)]
pub struct Span {
    pub start: usize,
    pub end: usize,
}

impl Span {
    /// A span from `start` to `end`.
    pub fn new(start: usize, end: usize) -> (r: Self)
        ensures
            r.start == start,
            r.end == end,
    {
        Span { start, end }
    }
}

/// An expression of the surface language.
#[derive(Debug)]
pub enum Expr {
    Ident { name: String, span: Span },
    Placeholder { span: Span },
    Number { value: i64, span: Span },
    String { value: String, span: Span },
    Array { items: Vec<Expr>, span: Span },
    Record { fields: Vec<RecordField>, span: Span },
    FieldAccess { expr: Box<Expr>, field: String, span: Span },
    Call { callee: Box<Expr>, args: Vec<CallArg>, span: Span },
    Pipeline { input: Box<Expr>, stages: Vec<Expr>, span: Span },
    Compose { left: Box<Expr>, right: Box<Expr>, span: Span },
    Inverse { expr: Box<Expr>, span: Span },
    Raw { text: String, span: Span },
}

/// An argument in a call: positional, or named with `name=value`.
#[derive(Debug)]
pub enum CallArg {
    Positional(Expr),
    Named { name: String, value: Expr, span: Span },
}

/// One field of a record literal.
#[derive(Debug)]
pub struct RecordField {
    pub name: String,
    pub value: Expr,
    pub span: Span,
}

/// A statement: a named binding, or a pipeline run for its effects.
#[derive(Debug)]
pub enum Stmt {
    Binding { name: String, expr: Expr, span: Span },
    Pipeline { expr: Expr, span: Span },
}

/// A parsed program.
#[derive(Debug)]
pub struct Program {
    pub statements: Vec<Stmt>,
    pub span: Span,
}

/// The model of an expression: its structure and literals, without spans.
pub enum ExprModel {
    Ident { name: Seq<char> },
    Placeholder,
    Number { value: i64 },
    String { value: Seq<char> },
    Array { items: Seq<ExprModel> },
    Record { fields: Seq<(Seq<char>, ExprModel)> },
    FieldAccess { expr: Box<ExprModel>, field: Seq<char> },
    Call { callee: Box<ExprModel>, args: Seq<CallArgModel> },
    Pipeline { input: Box<ExprModel>, stages: Seq<ExprModel> },
    Compose { left: Box<ExprModel>, right: Box<ExprModel> },
    Inverse { expr: Box<ExprModel> },
    Raw { text: Seq<char> },
}

/// The model of a call argument.
pub enum CallArgModel {
    Positional(ExprModel),
    Named { name: Seq<char>, value: ExprModel },
}

/// The model of a statement.
pub enum StmtModel {
    Binding { name: Seq<char>, expr: ExprModel },
    Pipeline { expr: ExprModel },
}

impl View for Expr {
    type V = ExprModel;

    open spec fn view(&self) -> ExprModel
        decreases self,
    {
        match self {
            Expr::Ident { name, .. } => ExprModel::Ident { name: name@ },
            Expr::Placeholder { .. } => ExprModel::Placeholder,
            Expr::Number { value, .. } => ExprModel::Number { value: *value },
            Expr::String { value, .. } => ExprModel::String { value: value@ },
            Expr::Array { items, .. } => ExprModel::Array { items: expr_views(items@) },
            Expr::Record { fields, .. } => ExprModel::Record { fields: field_views(fields@) },
            Expr::FieldAccess { expr, field, .. } => ExprModel::FieldAccess {
                expr: Box::new((**expr)@),
                field: field@,
            },
            Expr::Call { callee, args, .. } => ExprModel::Call {
                callee: Box::new((**callee)@),
                args: arg_views(args@),
            },
            Expr::Pipeline { input, stages, .. } => ExprModel::Pipeline {
                input: Box::new((**input)@),
                stages: expr_views(stages@),
            },
            Expr::Compose { left, right, .. } => ExprModel::Compose {
                left: Box::new((**left)@),
                right: Box::new((**right)@),
            },
            Expr::Inverse { expr, .. } => ExprModel::Inverse { expr: Box::new((**expr)@) },
            Expr::Raw { text, .. } => ExprModel::Raw { text: text@ },
        }
    }
}

impl View for CallArg {
    type V = CallArgModel;

    open spec fn view(&self) -> CallArgModel
        decreases self,
    {
        match self {
            CallArg::Positional(e) => CallArgModel::Positional(e@),
            CallArg::Named { name, value, .. } => CallArgModel::Named {
                name: name@,
                value: value@,
            },
        }
    }
}

impl View for Stmt {
    type V = StmtModel;

    open spec fn view(&self) -> StmtModel {
        match self {
            Stmt::Binding { name, expr, .. } => StmtModel::Binding { name: name@, expr: expr@ },
            Stmt::Pipeline { expr, .. } => StmtModel::Pipeline { expr: expr@ },
        }
    }
}

/// The models of a sequence of expressions.
pub open spec fn expr_views(s: Seq<Expr>) -> Seq<ExprModel>
    decreases s,
{
    if s.len() == 0 {
        Seq::empty()
    } else {
        expr_views(s.drop_last()).push(s.last()@)
    }
}

/// The models of a sequence of record fields, as name and value pairs.
pub open spec fn field_views(s: Seq<RecordField>) -> Seq<(Seq<char>, ExprModel)>
    decreases s,
{
    if s.len() == 0 {
        Seq::empty()
    } else {
        field_views(s.drop_last()).push((s.last().name@, s.last().value@))
    }
}

/// The models of a sequence of call arguments.
pub open spec fn arg_views(s: Seq<CallArg>) -> Seq<CallArgModel>
    decreases s,
{
    if s.len() == 0 {
        Seq::empty()
    } else {
        arg_views(s.drop_last()).push(s.last()@)
    }
}

/// The models of a sequence of statements.
pub open spec fn stmt_views(s: Seq<Stmt>) -> Seq<StmtModel>
    decreases s,
{
    if s.len() == 0 {
        Seq::empty()
    } else {
        stmt_views(s.drop_last()).push(s.last()@)
    }
}

pub broadcast proof fn lemma_expr_views(s: Seq<Expr>)
    ensures
        (#[trigger] expr_views(s)).len() == s.len(),
        forall|i: int| 0 <= i < s.len() ==> expr_views(s)[i] == s[i]@,
    decreases s.len(),
{
    if s.len() > 0 {
        lemma_expr_views(s.drop_last());
        assert(expr_views(s) == expr_views(s.drop_last()).push(s.last()@));
        assert forall|i: int| 0 <= i < s.len() implies expr_views(s)[i] == s[i]@ by {
            if i < s.len() - 1 {
                assert(expr_views(s)[i] == expr_views(s.drop_last())[i]);
                assert(s.drop_last()[i] == s[i]);
            } else {
                assert(expr_views(s)[i] == s.last()@);
            }
        }
    }
}

pub broadcast proof fn lemma_field_views(s: Seq<RecordField>)
    ensures
        (#[trigger] field_views(s)).len() == s.len(),
        forall|i: int|
            0 <= i < s.len() ==> field_views(s)[i] == (s[i].name@, s[i].value@),
    decreases s.len(),
{
    if s.len() > 0 {
        lemma_field_views(s.drop_last());
        assert(field_views(s) == field_views(s.drop_last()).push(
            (s.last().name@, s.last().value@),
        ));
        assert forall|i: int|
            0 <= i < s.len() implies field_views(s)[i] == (s[i].name@, s[i].value@) by {
            if i < s.len() - 1 {
                assert(field_views(s)[i] == field_views(s.drop_last())[i]);
                assert(s.drop_last()[i] == s[i]);
            } else {
                assert(field_views(s)[i] == (s.last().name@, s.last().value@));
            }
        }
    }
}

pub broadcast proof fn lemma_arg_views(s: Seq<CallArg>)
    ensures
        (#[trigger] arg_views(s)).len() == s.len(),
        forall|i: int| 0 <= i < s.len() ==> arg_views(s)[i] == s[i]@,
    decreases s.len(),
{
    if s.len() > 0 {
        lemma_arg_views(s.drop_last());
        assert(arg_views(s) == arg_views(s.drop_last()).push(s.last()@));
        assert forall|i: int| 0 <= i < s.len() implies arg_views(s)[i] == s[i]@ by {
            if i < s.len() - 1 {
                assert(arg_views(s)[i] == arg_views(s.drop_last())[i]);
                assert(s.drop_last()[i] == s[i]);
            } else {
                assert(arg_views(s)[i] == s.last()@);
            }
        }
    }
}

pub broadcast proof fn lemma_stmt_views(s: Seq<Stmt>)
    ensures
        (#[trigger] stmt_views(s)).len() == s.len(),
        forall|i: int| 0 <= i < s.len() ==> stmt_views(s)[i] == s[i]@,
    decreases s.len(),
{
    if s.len() > 0 {
        lemma_stmt_views(s.drop_last());
        assert(stmt_views(s) == stmt_views(s.drop_last()).push(s.last()@));
        assert forall|i: int| 0 <= i < s.len() implies stmt_views(s)[i] == s[i]@ by {
            if i < s.len() - 1 {
                assert(stmt_views(s)[i] == stmt_views(s.drop_last())[i]);
                assert(s.drop_last()[i] == s[i]);
            } else {
                assert(stmt_views(s)[i] == s.last()@);
            }
        }
    }
}

impl Clone for Expr {
    /// A clone denotes the same model expression.
    #[verifier::loop_isolation(false)]
    fn clone(&self) -> (res: Self)
        ensures
            res@ == self@,
        decreases self,
    {
        broadcast use lemma_expr_views, lemma_field_views, lemma_arg_views;
        match self {
            Expr::Ident { name, span } => Expr::Ident { name: name.clone(), span: *span },
            Expr::Placeholder { span } => Expr::Placeholder { span: *span },
            Expr::Number { value, span } => Expr::Number { value: *value, span: *span },
            Expr::String { value, span } => Expr::String { value: value.clone(), span: *span },
            Expr::Array { items, span } => {
                let mut out: Vec<Expr> = Vec::new();
                let mut i: usize = 0;
                while i < items.len()
                    invariant
                        i <= items@.len(),
                        out@.len() == i,
                        forall|j: int| 0 <= j < i ==> out@[j]@ == items@[j]@,
                    decreases items@.len() - i,
                {
                    out.push(items[i].clone());
                    i = i + 1;
                }
                proof {
                    assert(expr_views(out@) =~= expr_views(items@));
                }
                Expr::Array { items: out, span: *span }
            },
            Expr::Record { fields, span } => {
                let mut out: Vec<RecordField> = Vec::new();
                let mut i: usize = 0;
                while i < fields.len()
                    invariant
                        i <= fields@.len(),
                        out@.len() == i,
                        forall|j: int|
                            0 <= j < i ==> (#[trigger] out@[j]).name@ == fields@[j].name@
                                && out@[j].value@ == fields@[j].value@,
                    decreases fields@.len() - i,
                {
                    let f = RecordField {
                        name: fields[i].name.clone(),
                        value: fields[i].value.clone(),
                        span: fields[i].span,
                    };
                    out.push(f);
                    i = i + 1;
                }
                proof {
                    assert(field_views(out@) =~= field_views(fields@));
                }
                Expr::Record { fields: out, span: *span }
            },
            Expr::FieldAccess { expr, field, span } => Expr::FieldAccess {
                expr: Box::new((**expr).clone()),
                field: field.clone(),
                span: *span,
            },
            Expr::Call { callee, args, span } => {
                let mut out: Vec<CallArg> = Vec::new();
                let mut i: usize = 0;
                while i < args.len()
                    invariant
                        i <= args@.len(),
                        out@.len() == i,
                        forall|j: int| 0 <= j < i ==> out@[j]@ == args@[j]@,
                    decreases args@.len() - i,
                {
                    let a = match &args[i] {
                        CallArg::Positional(e) => CallArg::Positional(e.clone()),
                        CallArg::Named { name, value, span } => CallArg::Named {
                            name: name.clone(),
                            value: value.clone(),
                            span: *span,
                        },
                    };
                    out.push(a);
                    i = i + 1;
                }
                proof {
                    assert(arg_views(out@) =~= arg_views(args@));
                }
                Expr::Call {
                    callee: Box::new((**callee).clone()),
                    args: out,
                    span: *span,
                }
            },
            Expr::Pipeline { input, stages, span } => {
                let mut out: Vec<Expr> = Vec::new();
                let mut i: usize = 0;
                while i < stages.len()
                    invariant
                        i <= stages@.len(),
                        out@.len() == i,
                        forall|j: int| 0 <= j < i ==> out@[j]@ == stages@[j]@,
                    decreases stages@.len() - i,
                {
                    out.push(stages[i].clone());
                    i = i + 1;
                }
                proof {
                    assert(expr_views(out@) =~= expr_views(stages@));
                }
                Expr::Pipeline {
                    input: Box::new((**input).clone()),
                    stages: out,
                    span: *span,
                }
            },
            Expr::Compose { left, right, span } => Expr::Compose {
                left: Box::new((**left).clone()),
                right: Box::new((**right).clone()),
                span: *span,
            },
            Expr::Inverse { expr, span } => Expr::Inverse {
                expr: Box::new((**expr).clone()),
                span: *span,
            },
            Expr::Raw { text, span } => Expr::Raw { text: text.clone(), span: *span },
        }
    }
}

} // verus!

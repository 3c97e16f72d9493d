//! The expression evaluator: argument expressions evaluated against the
//! current stream item `_`, including the bracket-aware raw infix form with
//! top-level `>` and `+`, array helper calls, and `default`.

use vstd::prelude::*;
use crate::ast::{arg_views, expr_views, field_views, lemma_arg_views, lemma_expr_views,
    lemma_field_views, CallArg, CallArgModel, Expr, ExprModel, RecordField};
use crate::json::{json_from_bytes, jerr_text, JsonModel};
use crate::text::{parse_i64_chars, parse_i64_spec, str_eq, string_of, chars_of};
use crate::value::{record_get_model, record_insert, record_insert_model, value_eq,
    views_of_fields, views_of_seq, lemma_views_of_fields, lemma_views_of_seq, Value, ValueModel};

verus! {

/// Whether a character is ASCII whitespace.
pub open spec fn is_space(c: char) -> bool {
    c == ' ' || c == '\t' || c == '\n' || c == '\r' || c == '\u{c}'
}

/// The sequence with leading and trailing ASCII whitespace removed.
pub open spec fn trim_s(s: Seq<char>) -> Seq<char>
    decreases s.len(),
{
    if s.len() == 0 {
        s
    } else if is_space(s[0]) {
        trim_s(s.drop_first())
    } else if is_space(s.last()) {
        trim_s(s.drop_last())
    } else {
        s
    }
}

proof fn lemma_trim_len(s: Seq<char>)
    ensures
        trim_s(s).len() <= s.len(),
    decreases s.len(),
{
    if s.len() > 0 {
        if is_space(s[0]) {
            lemma_trim_len(s.drop_first());
        } else if is_space(s.last()) {
            lemma_trim_len(s.drop_last());
        }
    }
}

/// Trims ASCII whitespace from both ends.
pub fn trim_chars(s: &Vec<char>) -> (r: Vec<char>)
    ensures
        r@ == trim_s(s@),
        r@.len() <= s@.len(),
{
    let mut lo: usize = 0;
    let mut hi: usize = s.len();
    proof {
        assert(s@.subrange(0, s@.len() as int) =~= s@);
    }
    loop
        invariant
            0 <= lo <= hi <= s@.len(),
            trim_s(s@) == trim_s(s@.subrange(lo as int, hi as int)),
        ensures
            0 <= lo <= hi <= s@.len(),
            trim_s(s@) == trim_s(s@.subrange(lo as int, hi as int)),
            trim_s(s@.subrange(lo as int, hi as int)) == s@.subrange(lo as int, hi as int),
        decreases hi - lo,
    {
        let ghost cur = s@.subrange(lo as int, hi as int);
        if lo == hi {
            proof {
                assert(cur.len() == 0);
            }
            break;
        }
        let c0 = s[lo];
        if c0 == ' ' || c0 == '\t' || c0 == '\n' || c0 == '\r' || c0 == '\u{c}' {
            proof {
                assert(cur[0] == s@[lo as int]);
                assert(cur.drop_first() =~= s@.subrange(lo as int + 1, hi as int));
            }
            lo = lo + 1;
            continue;
        }
        let c1 = s[hi - 1];
        if c1 == ' ' || c1 == '\t' || c1 == '\n' || c1 == '\r' || c1 == '\u{c}' {
            proof {
                assert(cur[0] == s@[lo as int]);
                assert(cur.last() == s@[hi as int - 1]);
                assert(cur.drop_last() =~= s@.subrange(lo as int, hi as int - 1));
            }
            hi = hi - 1;
            continue;
        }
        proof {
            assert(cur[0] == s@[lo as int]);
            assert(cur.last() == s@[hi as int - 1]);
        }
        break;
    }
    let mut out: Vec<char> = Vec::new();
    let mut i: usize = lo;
    while i < hi
        invariant
            lo <= i <= hi <= s@.len(),
            out@ == s@.subrange(lo as int, i as int),
        decreases hi - i,
    {
        out.push(s[i]);
        i = i + 1;
        proof {
            assert(out@ =~= s@.subrange(lo as int, i as int));
        }
    }
    proof {
        lemma_trim_len(s@);
    }
    out
}

/// One step of the bracket-aware scan: the depth and string state after
/// reading one character.
pub open spec fn scan_step(
    st: (int, int, int, bool, bool),
    c: char,
) -> (int, int, int, bool, bool) {
    let (dp, db, dc, in_str, esc) = st;
    if in_str {
        if esc {
            (dp, db, dc, true, false)
        } else if c == '\\' {
            (dp, db, dc, true, true)
        } else if c == '"' {
            (dp, db, dc, false, false)
        } else {
            (dp, db, dc, true, false)
        }
    } else if c == '"' {
        (dp, db, dc, true, false)
    } else if c == '(' {
        (dp + 1, db, dc, false, false)
    } else if c == ')' {
        (if dp > 0 { dp - 1 } else { 0 }, db, dc, false, false)
    } else if c == '[' {
        (dp, db + 1, dc, false, false)
    } else if c == ']' {
        (dp, if db > 0 { db - 1 } else { 0 }, dc, false, false)
    } else if c == '{' {
        (dp, db, dc + 1, false, false)
    } else if c == '}' {
        (dp, db, if dc > 0 { dc - 1 } else { 0 }, false, false)
    } else {
        (dp, db, dc, false, false)
    }
}

/// The position of the first top-level occurrence of `needle` from `i` on,
/// with both trimmed sides nonempty, given the scan state at `i`.
pub open spec fn split_idx_from(
    s: Seq<char>,
    needle: char,
    i: int,
    st: (int, int, int, bool, bool),
) -> Option<int>
    decreases s.len() - i,
{
    if i < 0 || i >= s.len() {
        None
    } else {
        let c = s[i];
        let hit = !st.3 && c == needle && st.0 == 0 && st.1 == 0 && st.2 == 0
            && trim_s(s.subrange(0, i)).len() > 0
            && trim_s(s.subrange(i + 1, s.len() as int)).len() > 0;
        if hit {
            Some(i)
        } else {
            split_idx_from(s, needle, i + 1, scan_step(st, c))
        }
    }
}

/// The first top-level split position for `needle`, if any.
pub open spec fn split_idx(s: Seq<char>, needle: char) -> Option<int> {
    split_idx_from(s, needle, 0, (0, 0, 0, false, false))
}

/// Finds the first top-level occurrence of `needle` outside brackets and
/// string literals, such that both sides trim to nonempty text.
pub fn find_split(s: &Vec<char>, needle: char) -> (r: Option<usize>)
    ensures
        match r {
            Some(k) => split_idx(s@, needle) == Some(k as int) && k < s@.len(),
            None => split_idx(s@, needle) is None,
        },
{
    let n = s.len();
    let mut dp: usize = 0;
    let mut db: usize = 0;
    let mut dc: usize = 0;
    let mut in_str: bool = false;
    let mut esc: bool = false;
    let mut i: usize = 0;
    while i < n
        invariant
            0 <= i <= n,
            n == s@.len(),
            dp <= i && db <= i && dc <= i,
            !in_str ==> !esc,
            split_idx(s@, needle) == split_idx_from(s@, needle, i as int,
                (dp as int, db as int, dc as int, in_str, esc)),
        decreases n - i,
    {
        let ghost st = (dp as int, db as int, dc as int, in_str, esc);
        let c = s[i];
        let mut hit = false;
        if !in_str && c == needle && dp == 0 && db == 0 && dc == 0 {
            let mut left: Vec<char> = Vec::new();
            let mut k: usize = 0;
            while k < i
                invariant
                    k <= i <= s@.len(),
                    left@ == s@.subrange(0, k as int),
                decreases i - k,
            {
                left.push(s[k]);
                k = k + 1;
                proof {
                    assert(left@ =~= s@.subrange(0, k as int));
                }
            }
            let mut right: Vec<char> = Vec::new();
            let mut k2: usize = i + 1;
            while k2 < n
                invariant
                    i + 1 <= k2 <= n,
                    n == s@.len(),
                    right@ == s@.subrange(i as int + 1, k2 as int),
                decreases n - k2,
            {
                right.push(s[k2]);
                k2 = k2 + 1;
                proof {
                    assert(right@ =~= s@.subrange(i as int + 1, k2 as int));
                }
            }
            let lt = trim_chars(&left);
            let rt = trim_chars(&right);
            if lt.len() > 0 && rt.len() > 0 {
                hit = true;
            }
        }
        if hit {
            return Some(i);
        }
        proof {
            assert(scan_step(st, c) == (
                if !in_str && c == '(' { dp as int + 1 } else if !in_str && c == ')' && dp > 0 {
                    dp as int - 1
                } else { if !in_str && c == ')' { 0int } else { dp as int } },
                if !in_str && c == '[' { db as int + 1 } else if !in_str && c == ']' && db > 0 {
                    db as int - 1
                } else { if !in_str && c == ']' { 0int } else { db as int } },
                if !in_str && c == '{' { dc as int + 1 } else if !in_str && c == '}' && dc > 0 {
                    dc as int - 1
                } else { if !in_str && c == '}' { 0int } else { dc as int } },
                if in_str { if esc { true } else if c == '"' { false } else { true } } else {
                    c == '"'
                },
                if in_str && !esc && c == '\\' { true } else { false },
            ));
        }
        // advance the scan state as `scan_step` describes
        if in_str {
            if esc {
                esc = false;
            } else if c == '\\' {
                esc = true;
            } else if c == '"' {
                in_str = false;
            }
        } else if c == '"' {
            in_str = true;
        } else if c == '(' {
            dp = dp + 1;
        } else if c == ')' {
            if dp > 0 {
                dp = dp - 1;
            }
        } else if c == '[' {
            db = db + 1;
        } else if c == ']' {
            if db > 0 {
                db = db - 1;
            }
        } else if c == '{' {
            dc = dc + 1;
        } else if c == '}' {
            if dc > 0 {
                dc = dc - 1;
            }
        }
        i = i + 1;
    }
    None
}

/// The position of the last `.` in the sequence at or before `i`.
pub open spec fn last_dot_idx(s: Seq<char>, i: int) -> Option<int>
    decreases i + 1,
{
    if i < 0 || i >= s.len() {
        None
    } else if s[i] == '.' {
        Some(i)
    } else {
        last_dot_idx(s, i - 1)
    }
}

/// The dotted name a call's callee denotes: an identifier, or a field access
/// chain joined with dots.
pub open spec fn callee_name_s(e: ExprModel) -> Option<Seq<char>>
    decreases e,
{
    match e {
        ExprModel::Ident { name } => Some(name),
        ExprModel::FieldAccess { expr, field } => match callee_name_s(*expr) {
            Some(base) => Some(base + seq!['.'] + field),
            None => None,
        },
        _ => None,
    }
}

/// The expression at a positional argument, or the error naming what is
/// missing or not positional.
pub open spec fn positional_arg_s(args: Seq<CallArgModel>, idx: int) -> Result<
    ExprModel,
    Seq<char>,
> {
    if idx < 0 || idx >= args.len() {
        Err("missing positional arg"@)
    } else {
        match args[idx] {
            CallArgModel::Positional(e) => Ok(e),
            CallArgModel::Named { .. } => Err("named arguments are not supported in v0"@),
        }
    }
}

/// Folds evaluated record fields into a sorted record, in evaluation order.
pub open spec fn record_insert_all(
    acc: Seq<(Seq<char>, ValueModel)>,
    pairs: Seq<(Seq<char>, ValueModel)>,
) -> Seq<(Seq<char>, ValueModel)>
    decreases pairs.len(),
{
    if pairs.len() == 0 {
        acc
    } else {
        record_insert_all(record_insert_model(acc, pairs[0].0, pairs[0].1), pairs.drop_first())
    }
}

pub proof fn lemma_record_insert_all_snoc(
    acc: Seq<(Seq<char>, ValueModel)>,
    pairs: Seq<(Seq<char>, ValueModel)>,
    x: (Seq<char>, ValueModel),
)
    ensures
        record_insert_all(acc, pairs.push(x)) == record_insert_model(
            record_insert_all(acc, pairs),
            x.0,
            x.1,
        ),
    decreases pairs.len(),
{
    let t = pairs.push(x);
    if pairs.len() == 0 {
        assert(t[0] == x);
        assert(t.drop_first() =~= Seq::<(Seq<char>, ValueModel)>::empty());
        assert(record_insert_all(acc, t) == record_insert_all(
            record_insert_model(acc, x.0, x.1),
            t.drop_first(),
        ));
        assert(record_insert_all(acc, pairs) == acc);
    } else {
        assert(t[0] == pairs[0]);
        assert(t.drop_first() =~= pairs.drop_first().push(x));
        lemma_record_insert_all_snoc(record_insert_model(acc, pairs[0].0, pairs[0].1),
            pairs.drop_first(), x);
        assert(record_insert_all(acc, t) == record_insert_all(
            record_insert_model(acc, t[0].0, t[0].1),
            t.drop_first(),
        ));
        assert(record_insert_all(acc, pairs) == record_insert_all(
            record_insert_model(acc, pairs[0].0, pairs[0].1),
            pairs.drop_first(),
        ));
    }
}

/// What evaluating an expression against the current item `_` yields.
/// Identifiers other than `_` are unknown: only the stream context defines a
/// name.
pub open spec fn eval_expr_s(e: ExprModel, cur: Option<ValueModel>) -> Result<
    ValueModel,
    Seq<char>,
>
    decreases e, 0int, 0int,
{
    match e {
        ExprModel::Placeholder => match cur {
            Some(v) => Ok(v),
            None => Err("placeholder _ is not bound"@),
        },
        ExprModel::Ident { name } => if name == "_"@ && cur is Some {
            Ok(cur.unwrap())
        } else {
            Err("unknown identifier "@ + name)
        },
        ExprModel::Number { value } => Ok(ValueModel::I64(value)),
        ExprModel::String { value } => Ok(ValueModel::String(value)),
        ExprModel::Array { items } => match eval_items_s(items, cur) {
            Ok(vs) => Ok(ValueModel::Array(vs)),
            Err(er) => Err(er),
        },
        ExprModel::Record { fields } => match eval_fields_s(fields, cur) {
            Ok(pairs) => Ok(ValueModel::Record(record_insert_all(Seq::empty(), pairs))),
            Err(er) => Err(er),
        },
        ExprModel::FieldAccess { expr, field } => match eval_expr_s(*expr, cur) {
            Ok(ValueModel::Record(fs)) => match record_get_model(fs, field) {
                Some(v) => Ok(v),
                None => Err("field not found: "@ + field),
            },
            Ok(_) => Err("field access requires a record"@),
            Err(er) => Err(er),
        },
        ExprModel::Raw { text } => eval_raw_s(text, cur),
        ExprModel::Call { callee, args } => match callee_name_s(*callee) {
            None => Err("unsupported callee"@),
            Some(name) => eval_call_s(name, args, cur),
        },
        _ => Err("unsupported expression form"@),
    }
}

/// What evaluating a built-in call yields.
pub open spec fn eval_call_s(
    name: Seq<char>,
    args: Seq<CallArgModel>,
    cur: Option<ValueModel>,
) -> Result<ValueModel, Seq<char>>
    decreases args, 3int, 0int,
{
    if name == "array.map"@ {
        match eval_arr0_s(args, cur) {
            Err(er) => Err(er),
            Ok(items) => if 1 < args.len() && args[1] is Positional {
                match eval_map_s(args[1]->Positional_0, items) {
                    Ok(vs) => Ok(ValueModel::Array(vs)),
                    Err(er) => Err(er),
                }
            } else {
                Err("missing positional arg"@)
            },
        }
    } else if name == "array.filter"@ {
        match eval_arr0_s(args, cur) {
            Err(er) => Err(er),
            Ok(items) => if 1 < args.len() && args[1] is Positional {
                match eval_filter_s(args[1]->Positional_0, items) {
                    Ok(vs) => Ok(ValueModel::Array(vs)),
                    Err(er) => Err(er),
                }
            } else {
                Err("missing positional arg"@)
            },
        }
    } else if name == "array.any"@ {
        match eval_arr0_s(args, cur) {
            Err(er) => Err(er),
            Ok(items) => if 1 < args.len() && args[1] is Positional {
                match eval_any_s(args[1]->Positional_0, items) {
                    Ok(b) => Ok(ValueModel::Bool(b)),
                    Err(er) => Err(er),
                }
            } else {
                Err("missing positional arg"@)
            },
        }
    } else if name == "array.flat_map"@ {
        match eval_arr0_s(args, cur) {
            Err(er) => Err(er),
            Ok(items) => if 1 < args.len() && args[1] is Positional {
                match eval_flat_s(args[1]->Positional_0, items) {
                    Ok(vs) => Ok(ValueModel::Array(vs)),
                    Err(er) => Err(er),
                }
            } else {
                Err("missing positional arg"@)
            },
        }
    } else if name == "array.contains"@ {
        if args.len() < 1 {
            Err("missing positional arg"@)
        } else if !(args[0] is Positional) {
            Err("named arguments are not supported in v0"@)
        } else {
            match eval_expr_s(args[0]->Positional_0, cur) {
                Err(er) => Err(er),
                Ok(arr) => if args.len() < 2 {
                    Err("missing positional arg"@)
                } else if !(args[1] is Positional) {
                    Err("named arguments are not supported in v0"@)
                } else {
                    match eval_expr_s(args[1]->Positional_0, cur) {
                        Err(er) => Err(er),
                        Ok(needle) => match arr {
                            ValueModel::Array(items) => Ok(ValueModel::Bool(
                                items.contains(needle),
                            )),
                            _ => Err("expected array"@),
                        },
                    }
                },
            }
        }
    } else if name == "default"@ {
        if args.len() < 1 {
            Err("missing positional arg"@)
        } else if !(args[0] is Positional) {
            Err("named arguments are not supported in v0"@)
        } else {
            match eval_expr_s(args[0]->Positional_0, cur) {
                Err(er) => Err(er),
                Ok(v) => if v is Null {
                    if args.len() < 2 {
                        Err("missing positional arg"@)
                    } else if !(args[1] is Positional) {
                        Err("named arguments are not supported in v0"@)
                    } else {
                        eval_expr_s(args[1]->Positional_0, cur)
                    }
                } else {
                    Ok(v)
                },
            }
        }
    } else {
        Err("unsupported expression call: "@ + name)
    }
}

/// Evaluates the first argument to an array of elements, after checking that
/// a second positional argument stands ready as the callback.
pub open spec fn eval_arr0_s(args: Seq<CallArgModel>, cur: Option<ValueModel>) -> Result<
    Seq<ValueModel>,
    Seq<char>,
>
    decreases args, 2int, 0int,
{
    if args.len() < 1 {
        Err("missing positional arg"@)
    } else if !(args[0] is Positional) {
        Err("named arguments are not supported in v0"@)
    } else {
        match eval_expr_s(args[0]->Positional_0, cur) {
            Err(er) => Err(er),
            Ok(arr) => match positional_arg_s(args, 1) {
                Err(er) => Err(er),
                Ok(_) => match arr {
                    ValueModel::Array(items) => Ok(items),
                    _ => Err("expected array"@),
                },
            },
        }
    }
}

/// The values of a sequence of expressions, evaluated left to right; the
/// first error wins.
pub open spec fn eval_items_s(items: Seq<ExprModel>, cur: Option<ValueModel>) -> Result<
    Seq<ValueModel>,
    Seq<char>,
>
    decreases items, 0int, 0int,
{
    if items.len() == 0 {
        Ok(Seq::empty())
    } else {
        match eval_expr_s(items[0], cur) {
            Err(er) => Err(er),
            Ok(v) => match eval_items_s(items.drop_first(), cur) {
                Err(er) => Err(er),
                Ok(rest) => Ok(seq![v] + rest),
            },
        }
    }
}

/// The evaluated name and value pairs of a record literal's fields, in order.
pub open spec fn eval_fields_s(
    fields: Seq<(Seq<char>, ExprModel)>,
    cur: Option<ValueModel>,
) -> Result<Seq<(Seq<char>, ValueModel)>, Seq<char>>
    decreases fields, 0int, 0int,
{
    if fields.len() == 0 {
        Ok(Seq::empty())
    } else {
        match eval_expr_s(fields[0].1, cur) {
            Err(er) => Err(er),
            Ok(v) => match eval_fields_s(fields.drop_first(), cur) {
                Err(er) => Err(er),
                Ok(rest) => Ok(seq![(fields[0].0, v)] + rest),
            },
        }
    }
}

/// The callback applied to each element, with `_` re-bound to the element.
pub open spec fn eval_map_s(f: ExprModel, items: Seq<ValueModel>) -> Result<
    Seq<ValueModel>,
    Seq<char>,
>
    decreases f, 1int, items.len(),
{
    if items.len() == 0 {
        Ok(Seq::empty())
    } else {
        match eval_expr_s(f, Some(items[0])) {
            Err(er) => Err(er),
            Ok(v) => match eval_map_s(f, items.drop_first()) {
                Err(er) => Err(er),
                Ok(rest) => Ok(seq![v] + rest),
            },
        }
    }
}

/// The elements kept: those where the callback yields `Bool(true)`; any
/// non-boolean result fails.
pub open spec fn eval_filter_s(f: ExprModel, items: Seq<ValueModel>) -> Result<
    Seq<ValueModel>,
    Seq<char>,
>
    decreases f, 1int, items.len(),
{
    if items.len() == 0 {
        Ok(Seq::empty())
    } else {
        match eval_expr_s(f, Some(items[0])) {
            Err(er) => Err(er),
            Ok(ValueModel::Bool(b)) => match eval_filter_s(f, items.drop_first()) {
                Err(er) => Err(er),
                Ok(rest) => Ok(if b {
                    seq![items[0]] + rest
                } else {
                    rest
                }),
            },
            Ok(_) => Err("filter expression must evaluate to bool"@),
        }
    }
}

/// Whether the callback yields `Bool(true)` on some element, scanning left to
/// right and stopping at the first `true`.
pub open spec fn eval_any_s(f: ExprModel, items: Seq<ValueModel>) -> Result<bool, Seq<char>>
    decreases f, 1int, items.len(),
{
    if items.len() == 0 {
        Ok(false)
    } else {
        match eval_expr_s(f, Some(items[0])) {
            Err(er) => Err(er),
            Ok(ValueModel::Bool(b)) => if b {
                Ok(true)
            } else {
                eval_any_s(f, items.drop_first())
            },
            Ok(_) => Err("filter expression must evaluate to bool"@),
        }
    }
}

/// The concatenation of the arrays the callback yields on each element.
pub open spec fn eval_flat_s(f: ExprModel, items: Seq<ValueModel>) -> Result<
    Seq<ValueModel>,
    Seq<char>,
>
    decreases f, 1int, items.len(),
{
    if items.len() == 0 {
        Ok(Seq::empty())
    } else {
        match eval_expr_s(f, Some(items[0])) {
            Err(er) => Err(er),
            Ok(ValueModel::Array(vs)) => match eval_flat_s(f, items.drop_first()) {
                Err(er) => Err(er),
                Ok(rest) => Ok(vs + rest),
            },
            Ok(_) => Err("expected array"@),
        }
    }
}

/// What evaluating a raw infix expression yields: a top-level `>` on two
/// 64-bit integers, a top-level `+` on integers (wrapping) or strings
/// (concatenation), the placeholder, an integer or JSON string literal,
/// `true`, `false`, `null`, or a dotted field access.
pub open spec fn eval_raw_s(text: Seq<char>, cur: Option<ValueModel>) -> Result<
    ValueModel,
    Seq<char>,
>
    decreases text.len(), 1int,
{
    let raw = trim_s(text);
    if split_idx(raw, '>') is Some {
        let k = split_idx(raw, '>').unwrap();
        let left = trim_s(raw.subrange(0, k));
        let right = trim_s(raw.subrange(k + 1, raw.len() as int));
        if left.len() < text.len() && right.len() < text.len() {
            match eval_raw_s(left, cur) {
                Err(er) => Err(er),
                Ok(lv) => match eval_raw_s(right, cur) {
                    Err(er) => Err(er),
                    Ok(rv) => match (lv, rv) {
                        (ValueModel::I64(x), ValueModel::I64(y)) => Ok(ValueModel::Bool(x > y)),
                        _ => Err("operator > expects i64 operands"@),
                    },
                },
            }
        } else {
            Err("operator > expects i64 operands"@)
        }
    } else if split_idx(raw, '+') is Some {
        let k = split_idx(raw, '+').unwrap();
        let left = trim_s(raw.subrange(0, k));
        let right = trim_s(raw.subrange(k + 1, raw.len() as int));
        if left.len() < text.len() && right.len() < text.len() {
            match eval_raw_s(left, cur) {
                Err(er) => Err(er),
                Ok(lv) => match eval_raw_s(right, cur) {
                    Err(er) => Err(er),
                    Ok(rv) => match (lv, rv) {
                        (ValueModel::I64(x), ValueModel::I64(y)) => Ok(ValueModel::I64(
                            x.wrapping_add(y),
                        )),
                        (ValueModel::String(a), ValueModel::String(b)) => Ok(ValueModel::String(
                            a + b,
                        )),
                        _ => Err("operator + expects i64 or string operands"@),
                    },
                },
            }
        } else {
            Err("operator + expects i64 or string operands"@)
        }
    } else {
        eval_raw_atom_s(raw, cur, text.len() as int)
    }
}

/// What evaluating a raw atom yields: the placeholder, an integer or JSON
/// string literal, `true`, `false`, `null`, or a dotted field access.
pub open spec fn eval_raw_atom_s(raw: Seq<char>, cur: Option<ValueModel>, bound: int) -> Result<
    ValueModel,
    Seq<char>,
>
    decreases bound, 0int,
{
    if raw == "_"@ {
        match cur {
            Some(v) => Ok(v),
            None => Err("placeholder _ is not bound"@),
        }
    } else if parse_i64_spec(raw) is Some {
        Ok(ValueModel::I64(parse_i64_spec(raw).unwrap()))
    } else if raw.len() > 0 && raw[0] == '"' {
        match json_from_bytes(vstd::utf8::encode_utf8(raw)) {
            Ok(JsonModel::String(s)) => Ok(ValueModel::String(s)),
            Ok(_) => Err("invalid string literal"@),
            Err(e) => Err(jerr_text(e)),
        }
    } else if raw == "true"@ {
        Ok(ValueModel::Bool(true))
    } else if raw == "false"@ {
        Ok(ValueModel::Bool(false))
    } else if raw == "null"@ {
        Ok(ValueModel::Null)
    } else if last_dot_idx(raw, raw.len() - 1) is Some {
        let k = last_dot_idx(raw, raw.len() - 1).unwrap();
        let root = raw.subrange(0, k);
        let field = raw.subrange(k + 1, raw.len() as int);
        if 0 <= root.len() < bound {
            match eval_raw_s(root, cur) {
                Err(er) => Err(er),
                Ok(ValueModel::Record(fs)) => match record_get_model(fs, field) {
                    Some(v) => Ok(v),
                    None => Err("field not found: "@ + field),
                },
                Ok(_) => Err("field access requires a record"@),
            }
        } else {
            Err("field access requires a record"@)
        }
    } else {
        Err("unknown expression: "@ + raw)
    }
}

/// The model of the optional current item.
pub open spec fn cur_m(c: Option<&Value>) -> Option<ValueModel> {
    match c {
        Some(v) => Some(v@),
        None => None,
    }
}

/// Whether the value is the boolean a filter needs.
pub fn truthy(value: &Value) -> (r: Result<bool, String>)
    ensures
        match r {
            Ok(b) => value@ == ValueModel::Bool(b),
            Err(e) => !(value@ is Bool) && e@ == "filter expression must evaluate to bool"@,
        },
{
    match value {
        Value::Bool(v) => Ok(*v),
        _ => Err(String::from_str("filter expression must evaluate to bool")),
    }
}

/// The dotted name of a call's callee.
pub fn callee_name(e: &Expr) -> (r: Option<String>)
    ensures
        match r {
            Some(s) => callee_name_s(e@) == Some(s@),
            None => callee_name_s(e@) is None,
        },
    decreases e,
{
    match e {
        Expr::Ident { name, .. } => Some(name.clone()),
        Expr::FieldAccess { expr, field, .. } => match callee_name(expr) {
            Some(base) => {
                proof {
                    reveal_strlit(".");
                    assert("."@ =~= seq!['.']);
                }
                Some(base.concat(".").concat(field.as_str()))
            },
            None => None,
        },
        _ => None,
    }
}

fn find_last_dot(s: &Vec<char>) -> (r: Option<usize>)
    ensures
        match r {
            Some(k) => last_dot_idx(s@, s@.len() - 1) == Some(k as int) && k < s@.len(),
            None => last_dot_idx(s@, s@.len() - 1) is None,
        },
{
    let n = s.len();
    let mut i: usize = n;
    loop
        invariant
            0 <= i <= n,
            n == s@.len(),
            last_dot_idx(s@, n - 1) == last_dot_idx(s@, i - 1),
        ensures
            0 <= i <= n,
            last_dot_idx(s@, n - 1) == last_dot_idx(s@, i - 1),
            i > 0 ==> s@[i - 1] == '.',
            i == 0 ==> last_dot_idx(s@, n - 1) is None,
        decreases i,
    {
        if i == 0 {
            break;
        }
        if s[i - 1] == '.' {
            break;
        }
        i = i - 1;
    }
    if i == 0 {
        None
    } else {
        Some(i - 1)
    }
}

pub(crate) fn copy_range(s: &Vec<char>, lo: usize, hi: usize) -> (r: Vec<char>)
    requires
        lo <= hi <= s@.len(),
    ensures
        r@ == s@.subrange(lo as int, hi as int),
{
    let mut out: Vec<char> = Vec::new();
    let mut i: usize = lo;
    while i < hi
        invariant
            lo <= i <= hi <= s@.len(),
            out@ == s@.subrange(lo as int, i as int),
        decreases hi - i,
    {
        out.push(s[i]);
        i = i + 1;
        proof {
            assert(out@ =~= s@.subrange(lo as int, i as int));
        }
    }
    out
}

/// Evaluates a raw infix expression against the current item.
#[verifier::loop_isolation(false)]
pub fn eval_raw(text: &Vec<char>, cur: Option<&Value>) -> (r: Result<Value, String>)
    ensures
        match r {
            Ok(v) => eval_raw_s(text@, cur_m(cur)) == Ok::<ValueModel, Seq<char>>(v@),
            Err(e) => eval_raw_s(text@, cur_m(cur)) == Err::<ValueModel, Seq<char>>(e@),
        },
    decreases text@.len(), 1int,
{
    let raw = trim_chars(text);
    proof {
        lemma_trim_len(text@);
    }
    if let Some(k) = find_split(&raw, '>') {
        let left = trim_chars(&copy_range(&raw, 0, k));
        let right = trim_chars(&copy_range(&raw, k + 1, raw.len()));
        proof {
            lemma_trim_len(raw@.subrange(0, k as int));
            lemma_trim_len(raw@.subrange(k as int + 1, raw@.len() as int));
        }
        let lv = match eval_raw(&left, cur) {
            Ok(v) => v,
            Err(e) => {
                return Err(e);
            },
        };
        let rv = match eval_raw(&right, cur) {
            Ok(v) => v,
            Err(e) => {
                return Err(e);
            },
        };
        match (lv, rv) {
            (Value::I64(x), Value::I64(y)) => Ok(Value::Bool(x > y)),
            _ => Err(String::from_str("operator > expects i64 operands")),
        }
    } else if let Some(k) = find_split(&raw, '+') {
        let left = trim_chars(&copy_range(&raw, 0, k));
        let right = trim_chars(&copy_range(&raw, k + 1, raw.len()));
        proof {
            lemma_trim_len(raw@.subrange(0, k as int));
            lemma_trim_len(raw@.subrange(k as int + 1, raw@.len() as int));
        }
        let lv = match eval_raw(&left, cur) {
            Ok(v) => v,
            Err(e) => {
                return Err(e);
            },
        };
        let rv = match eval_raw(&right, cur) {
            Ok(v) => v,
            Err(e) => {
                return Err(e);
            },
        };
        match (lv, rv) {
            (Value::I64(x), Value::I64(y)) => Ok(Value::I64(x.wrapping_add(y))),
            (Value::String(a), Value::String(b)) => Ok(Value::String(a.concat(b.as_str()))),
            _ => Err(String::from_str("operator + expects i64 or string operands")),
        }
    } else {
        eval_raw_atom(&raw, cur, Ghost(text@.len() as int))
    }
}

/// Evaluates a raw atom: a literal, the placeholder, or a dotted field
/// access.
#[verifier::loop_isolation(false)]
fn eval_raw_atom(raw: &Vec<char>, cur: Option<&Value>, bound: Ghost<int>) -> (r: Result<
    Value,
    String,
>)
    requires
        raw@.len() <= bound@,
    ensures
        match r {
            Ok(v) => eval_raw_atom_s(raw@, cur_m(cur), bound@) == Ok::<ValueModel, Seq<char>>(v@),
            Err(e) => eval_raw_atom_s(raw@, cur_m(cur), bound@) == Err::<ValueModel, Seq<char>>(
                e@,
            ),
        },
    decreases bound@, 0int,
{
    let raw_str = string_of(raw);
    if str_eq(raw_str.as_str(), "_") {
        match cur {
            Some(v) => Ok(v.clone()),
            None => Err(String::from_str("placeholder _ is not bound")),
        }
    } else if let Some(n) = parse_i64_chars(raw) {
        Ok(Value::I64(n))
    } else if raw.len() > 0 && raw[0] == '"' {
        match crate::json::from_str(raw_str.as_str()) {
            Ok(crate::json::Value::String(s)) => Ok(Value::String(s)),
            Ok(_) => Err(String::from_str("invalid string literal")),
            Err(e) => Err(e.message()),
        }
    } else if str_eq(raw_str.as_str(), "true") {
        Ok(Value::Bool(true))
    } else if str_eq(raw_str.as_str(), "false") {
        Ok(Value::Bool(false))
    } else if str_eq(raw_str.as_str(), "null") {
        Ok(Value::Null)
    } else if let Some(k) = find_last_dot(raw) {
        let root = copy_range(raw, 0, k);
        let field = copy_range(raw, k + 1, raw.len());
        match eval_raw(&root, cur) {
            Err(e) => Err(e),
            Ok(Value::Record(fs)) => {
                let field_str = string_of(&field);
                match crate::value::record_get(&fs, field_str.as_str()) {
                    Some(v) => Ok(v.clone()),
                    None => Err(String::from_str("field not found: ").concat(
                        field_str.as_str(),
                    )),
                }
            },
            Ok(_) => Err(String::from_str("field access requires a record")),
        }
    } else {
        Err(String::from_str("unknown expression: ").concat(raw_str.as_str()))
    }
}

/// Evaluates an expression against the current stream item.
#[verifier::loop_isolation(false)]
pub fn eval_value_expr(expr: &Expr, cur: Option<&Value>) -> (r: Result<Value, String>)
    ensures
        match r {
            Ok(v) => eval_expr_s(expr@, cur_m(cur)) == Ok::<ValueModel, Seq<char>>(v@),
            Err(e) => eval_expr_s(expr@, cur_m(cur)) == Err::<ValueModel, Seq<char>>(e@),
        },
    decreases expr, 0int, 0int,
{
    broadcast use lemma_expr_views, lemma_field_views, lemma_arg_views, lemma_views_of_seq,
        lemma_views_of_fields;
    match expr {
        Expr::Placeholder { .. } => match cur {
            Some(v) => Ok(v.clone()),
            None => Err(String::from_str("placeholder _ is not bound")),
        },
        Expr::Ident { name, .. } => {
            if str_eq(name.as_str(), "_") {
                if let Some(v) = cur {
                    return Ok(v.clone());
                }
            }
            Err(String::from_str("unknown identifier ").concat(name.as_str()))
        },
        Expr::Number { value, .. } => Ok(Value::I64(*value)),
        Expr::String { value, .. } => Ok(Value::String(value.clone())),
        Expr::Array { items, .. } => {
            let ghost all = expr_views(items@);
            let mut out: Vec<Value> = Vec::new();
            let mut i: usize = 0;
            proof {
                assert(all.skip(0) =~= all);
                assert(views_of_seq(out@) =~= Seq::<ValueModel>::empty());
            }
            while i < items.len()
                invariant
                    i <= items@.len(),
                    all == expr_views(items@),
                    eval_items_s(all, cur_m(cur)) == match eval_items_s(all.skip(i as int),
                        cur_m(cur)) {
                        Ok(rest) => Ok::<Seq<ValueModel>, Seq<char>>(views_of_seq(out@) + rest),
                        Err(er) => Err::<Seq<ValueModel>, Seq<char>>(er),
                    },
                decreases items@.len() - i,
            {
                proof {
                    assert(all.skip(i as int)[0] == all[i as int]);
                    assert(all.skip(i as int).drop_first() =~= all.skip(i as int + 1));
                }
                match eval_value_expr(&items[i], cur) {
                    Err(e) => {
                        return Err(e);
                    },
                    Ok(v) => {
                        let ghost out0 = out@;
                        out.push(v);
                        proof {
                            assert(out@.drop_last() =~= out0);
                            match eval_items_s(all.skip(i as int + 1), cur_m(cur)) {
                                Ok(rest) => {
                                    assert(views_of_seq(out0) + (seq![all_val(out@)] + rest)
                                        =~= views_of_seq(out@) + rest);
                                },
                                Err(_) => {},
                            }
                        }
                    },
                }
                i = i + 1;
            }
            proof {
                assert(all.skip(items@.len() as int).len() == 0);
                assert(views_of_seq(out@) + Seq::<ValueModel>::empty() =~= views_of_seq(out@));
            }
            Ok(Value::Array(out))
        },
        Expr::Record { fields, .. } => {
            let ghost all = field_views(fields@);
            let mut rec: Vec<(String, Value)> = Vec::new();
            let ghost parsed: Seq<(Seq<char>, ValueModel)> = Seq::empty();
            let mut i: usize = 0;
            proof {
                assert(all.skip(0) =~= all);
                assert(views_of_fields(rec@) =~= Seq::<(Seq<char>, ValueModel)>::empty());
            }
            while i < fields.len()
                invariant
                    i <= fields@.len(),
                    all == field_views(fields@),
                    views_of_fields(rec@) == record_insert_all(Seq::empty(), parsed),
                    eval_fields_s(all, cur_m(cur)) == match eval_fields_s(all.skip(i as int),
                        cur_m(cur)) {
                        Ok(rest) => Ok::<Seq<(Seq<char>, ValueModel)>, Seq<char>>(parsed + rest),
                        Err(er) => Err::<Seq<(Seq<char>, ValueModel)>, Seq<char>>(er),
                    },
                decreases fields@.len() - i,
            {
                proof {
                    assert(all.skip(i as int)[0] == all[i as int]);
                    assert(all.skip(i as int).drop_first() =~= all.skip(i as int + 1));
                }
                match eval_value_expr(&fields[i].value, cur) {
                    Err(e) => {
                        return Err(e);
                    },
                    Ok(v) => {
                        let ghost kv = (fields@[i as int].name@, v@);
                        proof {
                            lemma_record_insert_all_snoc(Seq::empty(), parsed, kv);
                        }
                        let name = fields[i].name.clone();
                        record_insert(&mut rec, name, v);
                        proof {
                            match eval_fields_s(all.skip(i as int + 1), cur_m(cur)) {
                                Ok(rest) => {
                                    assert(parsed + (seq![kv] + rest) =~= parsed.push(kv) + rest);
                                },
                                Err(_) => {},
                            }
                            parsed = parsed.push(kv);
                        }
                    },
                }
                i = i + 1;
            }
            proof {
                assert(all.skip(fields@.len() as int).len() == 0);
                assert(parsed + Seq::<(Seq<char>, ValueModel)>::empty() =~= parsed);
            }
            Ok(Value::Record(rec))
        },
        Expr::FieldAccess { expr: inner, field, .. } => match eval_value_expr(inner, cur) {
            Err(e) => Err(e),
            Ok(Value::Record(fs)) => match crate::value::record_get(&fs, field.as_str()) {
                Some(v) => Ok(v.clone()),
                None => Err(String::from_str("field not found: ").concat(field.as_str())),
            },
            Ok(_) => Err(String::from_str("field access requires a record")),
        },
        Expr::Raw { text, .. } => {
            let chars = chars_of(text.as_str());
            eval_raw(&chars, cur)
        },
        Expr::Call { callee, args, .. } => match callee_name(callee) {
            None => Err(String::from_str("unsupported callee")),
            Some(name) => eval_call(&name, args, cur),
        },
        _ => Err(String::from_str("unsupported expression form")),
    }
}

/// The view of the last element pushed, for invariant bookkeeping.
spec fn all_val(s: Seq<Value>) -> ValueModel {
    s.last()@
}

/// Evaluates the first argument to an array of elements, after checking that
/// a second positional argument stands ready as the callback.
#[verifier::loop_isolation(false)]
fn eval_arr0(args: &Vec<CallArg>, cur: Option<&Value>) -> (r: Result<Vec<Value>, String>)
    ensures
        match r {
            Ok(items) => eval_arr0_s(arg_views(args@), cur_m(cur)) == Ok::<
                Seq<ValueModel>,
                Seq<char>,
            >(views_of_seq(items@)),
            Err(e) => eval_arr0_s(arg_views(args@), cur_m(cur)) == Err::<
                Seq<ValueModel>,
                Seq<char>,
            >(e@),
        },
    decreases args, 2int, 0int,
{
    broadcast use lemma_arg_views;
    if args.len() < 1 {
        return Err(String::from_str("missing positional arg"));
    }
    let a0 = match &args[0] {
        CallArg::Positional(e) => e,
        CallArg::Named { .. } => {
            return Err(String::from_str("named arguments are not supported in v0"));
        },
    };
    let arr = match eval_value_expr(a0, cur) {
        Ok(v) => v,
        Err(e) => {
            return Err(e);
        },
    };
    if args.len() < 2 {
        return Err(String::from_str("missing positional arg"));
    }
    if let CallArg::Named { .. } = &args[1] {
        return Err(String::from_str("named arguments are not supported in v0"));
    }
    match arr {
        Value::Array(items) => Ok(items),
        _ => Err(String::from_str("expected array")),
    }
}

/// Evaluates a built-in call.
#[verifier::loop_isolation(false)]
fn eval_call(name: &String, args: &Vec<CallArg>, cur: Option<&Value>) -> (r: Result<Value, String>)
    ensures
        match r {
            Ok(v) => eval_call_s(name@, arg_views(args@), cur_m(cur)) == Ok::<
                ValueModel,
                Seq<char>,
            >(v@),
            Err(e) => eval_call_s(name@, arg_views(args@), cur_m(cur)) == Err::<
                ValueModel,
                Seq<char>,
            >(e@),
        },
    decreases args, 3int, 0int,
{
    broadcast use lemma_arg_views, lemma_views_of_seq;
    if str_eq(name.as_str(), "array.map") {
        let items = match eval_arr0(args, cur) {
            Ok(v) => v,
            Err(e) => {
                return Err(e);
            },
        };
        if args.len() > 1 {
            if let CallArg::Positional(f) = &args[1] {
                return match eval_map_items(f, &items, cur) {
                    Ok(vs) => Ok(Value::Array(vs)),
                    Err(e) => Err(e),
                };
            }
        }
        Err(String::from_str("missing positional arg"))
    } else if str_eq(name.as_str(), "array.filter") {
        let items = match eval_arr0(args, cur) {
            Ok(v) => v,
            Err(e) => {
                return Err(e);
            },
        };
        if args.len() > 1 {
            if let CallArg::Positional(f) = &args[1] {
                return match eval_filter_items(f, &items, cur) {
                    Ok(vs) => Ok(Value::Array(vs)),
                    Err(e) => Err(e),
                };
            }
        }
        Err(String::from_str("missing positional arg"))
    } else if str_eq(name.as_str(), "array.any") {
        let items = match eval_arr0(args, cur) {
            Ok(v) => v,
            Err(e) => {
                return Err(e);
            },
        };
        if args.len() > 1 {
            if let CallArg::Positional(f) = &args[1] {
                return match eval_any_items(f, &items, cur) {
                    Ok(b) => Ok(Value::Bool(b)),
                    Err(e) => Err(e),
                };
            }
        }
        Err(String::from_str("missing positional arg"))
    } else if str_eq(name.as_str(), "array.flat_map") {
        let items = match eval_arr0(args, cur) {
            Ok(v) => v,
            Err(e) => {
                return Err(e);
            },
        };
        if args.len() > 1 {
            if let CallArg::Positional(f) = &args[1] {
                return match eval_flat_items(f, &items, cur) {
                    Ok(vs) => Ok(Value::Array(vs)),
                    Err(e) => Err(e),
                };
            }
        }
        Err(String::from_str("missing positional arg"))
    } else if str_eq(name.as_str(), "array.contains") {
        if args.len() < 1 {
            return Err(String::from_str("missing positional arg"));
        }
        let a0 = match &args[0] {
            CallArg::Positional(e) => e,
            CallArg::Named { .. } => {
                return Err(String::from_str("named arguments are not supported in v0"));
            },
        };
        let arr = match eval_value_expr(a0, cur) {
            Ok(v) => v,
            Err(e) => {
                return Err(e);
            },
        };
        if args.len() < 2 {
            return Err(String::from_str("missing positional arg"));
        }
        let a1 = match &args[1] {
            CallArg::Positional(e) => e,
            CallArg::Named { .. } => {
                return Err(String::from_str("named arguments are not supported in v0"));
            },
        };
        let needle = match eval_value_expr(a1, cur) {
            Ok(v) => v,
            Err(e) => {
                return Err(e);
            },
        };
        match arr {
            Value::Array(items) => {
                let mut found = false;
                let mut i: usize = 0;
                while i < items.len()
                    invariant
                        i <= items@.len(),
                        found == exists|j: int|
                            0 <= j < i && views_of_seq(items@)[j] == needle@,
                    decreases items@.len() - i,
                {
                    proof {
                        assert(views_of_seq(items@)[i as int] == items@[i as int]@);
                    }
                    let eq = value_eq(&items[i], &needle);
                    if eq {
                        found = true;
                        proof {
                            assert(views_of_seq(items@)[i as int] == needle@);
                        }
                    }
                    i = i + 1;
                }
                proof {
                    if found {
                        assert(views_of_seq(items@).contains(needle@));
                    } else {
                        if views_of_seq(items@).contains(needle@) {
                            let j = choose|j: int|
                                0 <= j < views_of_seq(items@).len() && views_of_seq(items@)[j]
                                    == needle@;
                            assert(false);
                        }
                    }
                }
                Ok(Value::Bool(found))
            },
            _ => Err(String::from_str("expected array")),
        }
    } else if str_eq(name.as_str(), "default") {
        if args.len() < 1 {
            return Err(String::from_str("missing positional arg"));
        }
        let a0 = match &args[0] {
            CallArg::Positional(e) => e,
            CallArg::Named { .. } => {
                return Err(String::from_str("named arguments are not supported in v0"));
            },
        };
        let v = match eval_value_expr(a0, cur) {
            Ok(v) => v,
            Err(e) => {
                return Err(e);
            },
        };
        let is_null = match &v {
            Value::Null => true,
            _ => false,
        };
        if is_null {
            if args.len() < 2 {
                return Err(String::from_str("missing positional arg"));
            }
            let a1 = match &args[1] {
                CallArg::Positional(e) => e,
                CallArg::Named { .. } => {
                    return Err(String::from_str("named arguments are not supported in v0"));
                },
            };
            eval_value_expr(a1, cur)
        } else {
            Ok(v)
        }
    } else {
        Err(String::from_str("unsupported expression call: ").concat(name.as_str()))
    }
}

/// The callback applied to each element, `_` re-bound to the element.
#[verifier::loop_isolation(false)]
pub(crate) fn eval_map_items(f: &Expr, items: &Vec<Value>, cur: Option<&Value>) -> (r: Result<
    Vec<Value>,
    String,
>)
    ensures
        match r {
            Ok(vs) => eval_map_s(f@, views_of_seq(items@)) == Ok::<Seq<ValueModel>, Seq<char>>(
                views_of_seq(vs@),
            ),
            Err(e) => eval_map_s(f@, views_of_seq(items@)) == Err::<Seq<ValueModel>, Seq<char>>(
                e@,
            ),
        },
    decreases f, 1int, 0int,
{
    broadcast use lemma_views_of_seq;
    let ghost all = views_of_seq(items@);
    let mut out: Vec<Value> = Vec::new();
    let mut i: usize = 0;
    proof {
        assert(all.skip(0) =~= all);
        assert(views_of_seq(out@) =~= Seq::<ValueModel>::empty());
    }
    while i < items.len()
        invariant
            i <= items@.len(),
            all == views_of_seq(items@),
            eval_map_s(f@, all) == match eval_map_s(f@, all.skip(i as int)) {
                Ok(rest) => Ok::<Seq<ValueModel>, Seq<char>>(views_of_seq(out@) + rest),
                Err(er) => Err::<Seq<ValueModel>, Seq<char>>(er),
            },
        decreases items@.len() - i,
    {
        proof {
            assert(all.skip(i as int)[0] == all[i as int]);
            assert(all.skip(i as int).drop_first() =~= all.skip(i as int + 1));
        }
        match eval_value_expr(f, Some(&items[i])) {
            Err(e) => {
                return Err(e);
            },
            Ok(v) => {
                let ghost out0 = out@;
                let ghost vm = v@;
                out.push(v);
                proof {
                    assert(out@.drop_last() =~= out0);
                    match eval_map_s(f@, all.skip(i as int + 1)) {
                        Ok(rest) => {
                            assert(views_of_seq(out0) + (seq![vm] + rest)
                                =~= views_of_seq(out@) + rest);
                        },
                        Err(_) => {},
                    }
                }
            },
        }
        i = i + 1;
    }
    proof {
        assert(all.skip(items@.len() as int).len() == 0);
        assert(views_of_seq(out@) + Seq::<ValueModel>::empty() =~= views_of_seq(out@));
    }
    Ok(out)
}

/// The elements kept: those where the callback yields `Bool(true)`.
#[verifier::loop_isolation(false)]
pub(crate) fn eval_filter_items(f: &Expr, items: &Vec<Value>, cur: Option<&Value>) -> (r: Result<
    Vec<Value>,
    String,
>)
    ensures
        match r {
            Ok(vs) => eval_filter_s(f@, views_of_seq(items@)) == Ok::<Seq<ValueModel>, Seq<char>>(
                views_of_seq(vs@),
            ),
            Err(e) => eval_filter_s(f@, views_of_seq(items@)) == Err::<
                Seq<ValueModel>,
                Seq<char>,
            >(e@),
        },
    decreases f, 1int, 0int,
{
    broadcast use lemma_views_of_seq;
    let ghost all = views_of_seq(items@);
    let mut out: Vec<Value> = Vec::new();
    let mut i: usize = 0;
    proof {
        assert(all.skip(0) =~= all);
        assert(views_of_seq(out@) =~= Seq::<ValueModel>::empty());
    }
    while i < items.len()
        invariant
            i <= items@.len(),
            all == views_of_seq(items@),
            eval_filter_s(f@, all) == match eval_filter_s(f@, all.skip(i as int)) {
                Ok(rest) => Ok::<Seq<ValueModel>, Seq<char>>(views_of_seq(out@) + rest),
                Err(er) => Err::<Seq<ValueModel>, Seq<char>>(er),
            },
        decreases items@.len() - i,
    {
        proof {
            assert(all.skip(i as int)[0] == all[i as int]);
            assert(all.skip(i as int).drop_first() =~= all.skip(i as int + 1));
        }
        match eval_value_expr(f, Some(&items[i])) {
            Err(e) => {
                return Err(e);
            },
            Ok(v) => match v {
                Value::Bool(b) => {
                    if b {
                        let ghost out0 = out@;
                        let item = items[i].clone();
                        let ghost im = item@;
                        out.push(item);
                        proof {
                            assert(out@.drop_last() =~= out0);
                            match eval_filter_s(f@, all.skip(i as int + 1)) {
                                Ok(rest) => {
                                    assert(views_of_seq(out0) + (seq![im] + rest)
                                        =~= views_of_seq(out@) + rest);
                                },
                                Err(_) => {},
                            }
                        }
                    }
                },
                _ => {
                    return Err(String::from_str("filter expression must evaluate to bool"));
                },
            },
        }
        i = i + 1;
    }
    proof {
        assert(all.skip(items@.len() as int).len() == 0);
        assert(views_of_seq(out@) + Seq::<ValueModel>::empty() =~= views_of_seq(out@));
    }
    Ok(out)
}

/// Whether the callback yields `Bool(true)` on some element, stopping early.
#[verifier::loop_isolation(false)]
fn eval_any_items(f: &Expr, items: &Vec<Value>, cur: Option<&Value>) -> (r: Result<bool, String>)
    ensures
        match r {
            Ok(b) => eval_any_s(f@, views_of_seq(items@)) == Ok::<bool, Seq<char>>(b),
            Err(e) => eval_any_s(f@, views_of_seq(items@)) == Err::<bool, Seq<char>>(e@),
        },
    decreases f, 1int, 0int,
{
    broadcast use lemma_views_of_seq;
    let ghost all = views_of_seq(items@);
    let mut i: usize = 0;
    proof {
        assert(all.skip(0) =~= all);
    }
    while i < items.len()
        invariant
            i <= items@.len(),
            all == views_of_seq(items@),
            eval_any_s(f@, all) == eval_any_s(f@, all.skip(i as int)),
        decreases items@.len() - i,
    {
        proof {
            assert(all.skip(i as int)[0] == all[i as int]);
            assert(all.skip(i as int).drop_first() =~= all.skip(i as int + 1));
        }
        match eval_value_expr(f, Some(&items[i])) {
            Err(e) => {
                return Err(e);
            },
            Ok(v) => match v {
                Value::Bool(b) => {
                    if b {
                        return Ok(true);
                    }
                },
                _ => {
                    return Err(String::from_str("filter expression must evaluate to bool"));
                },
            },
        }
        i = i + 1;
    }
    proof {
        assert(all.skip(items@.len() as int).len() == 0);
    }
    Ok(false)
}

/// The concatenation of the arrays the callback yields on each element.
#[verifier::loop_isolation(false)]
fn eval_flat_items(f: &Expr, items: &Vec<Value>, cur: Option<&Value>) -> (r: Result<
    Vec<Value>,
    String,
>)
    ensures
        match r {
            Ok(vs) => eval_flat_s(f@, views_of_seq(items@)) == Ok::<Seq<ValueModel>, Seq<char>>(
                views_of_seq(vs@),
            ),
            Err(e) => eval_flat_s(f@, views_of_seq(items@)) == Err::<Seq<ValueModel>, Seq<char>>(
                e@,
            ),
        },
    decreases f, 1int, 0int,
{
    broadcast use lemma_views_of_seq;
    let ghost all = views_of_seq(items@);
    let mut out: Vec<Value> = Vec::new();
    let mut i: usize = 0;
    proof {
        assert(all.skip(0) =~= all);
        assert(views_of_seq(out@) =~= Seq::<ValueModel>::empty());
    }
    while i < items.len()
        invariant
            i <= items@.len(),
            all == views_of_seq(items@),
            eval_flat_s(f@, all) == match eval_flat_s(f@, all.skip(i as int)) {
                Ok(rest) => Ok::<Seq<ValueModel>, Seq<char>>(views_of_seq(out@) + rest),
                Err(er) => Err::<Seq<ValueModel>, Seq<char>>(er),
            },
        decreases items@.len() - i,
    {
        proof {
            assert(all.skip(i as int)[0] == all[i as int]);
            assert(all.skip(i as int).drop_first() =~= all.skip(i as int + 1));
        }
        match eval_value_expr(f, Some(&items[i])) {
            Err(e) => {
                return Err(e);
            },
            Ok(v) => match v {
                Value::Array(vs) => {
                    let ghost out0 = out@;
                    let ghost vsm = views_of_seq(vs@);
                    let mut k: usize = 0;
                    let vs_len = vs.len();
                    let mut vs_mut = vs;
                    while k < vs_len
                        invariant
                            k <= vs_len,
                            vs_len == vs_mut@.len(),
                            vsm == views_of_seq(vs_mut@),
                            out@.len() == out0.len() + k,
                            views_of_seq(out@) == views_of_seq(out0) + vsm.subrange(0, k as int),
                        decreases vs_len - k,
                    {
                        let ghost outp = out@;
                        let item = vs_mut[k].clone();
                        let ghost im = item@;
                        out.push(item);
                        proof {
                            assert(out@.drop_last() =~= outp);
                            assert(im == vsm[k as int]);
                            assert(views_of_seq(out@) == views_of_seq(outp).push(im));
                            assert(views_of_seq(outp).push(im)
                                =~= views_of_seq(out0) + vsm.subrange(0, k as int + 1));
                        }
                        k = k + 1;
                    }
                    proof {
                        assert(vsm.subrange(0, vs_len as int) =~= vsm);
                        match eval_flat_s(f@, all.skip(i as int + 1)) {
                            Ok(rest) => {
                                assert(views_of_seq(out0) + (vsm + rest)
                                    =~= views_of_seq(out@) + rest);
                            },
                            Err(_) => {},
                        }
                    }
                },
                _ => {
                    return Err(String::from_str("expected array"));
                },
            },
        }
        i = i + 1;
    }
    proof {
        assert(all.skip(items@.len() as int).len() == 0);
        assert(views_of_seq(out@) + Seq::<ValueModel>::empty() =~= views_of_seq(out@));
    }
    Ok(out)
}

} // verus!

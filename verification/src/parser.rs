//! The surface parser: program text to statements and expressions.  Argument
//! text that does not parse as a full expression is kept as a raw expression
//! for the evaluator's infix path.

use vstd::prelude::*;
use crate::ast::{CallArg, Expr, Program, RecordField, Span, Stmt};
use crate::eval::trim_chars;
use crate::text::{chars_of, fmt_i64, parse_i64_chars, string_of};

verus! {

/// A parse failure: a message and the source range it points at.
#[derive(Debug)]
pub struct ParseError {
    pub message: String,
    pub span: Span,
}

impl ParseError {
    /// The failure rendered as one line: the message and the range.
    pub fn render(&self) -> (r: String)
        ensures
            r@ == self.message@ + " at "@ + crate::text::i64_dec(self.span.start as i64 as int)
                + ".."@ + crate::text::i64_dec(self.span.end as i64 as int),
    {
        #[verifier::truncate]
        let a: i64 = self.span.start as i64;
        #[verifier::truncate]
        let b: i64 = self.span.end as i64;
        self.message.clone().concat(" at ").concat(fmt_i64(a).as_str()).concat("..").concat(
            fmt_i64(b).as_str(),
        )
    }
}

/// Whether a character is ASCII whitespace for the parser.
fn is_ws_char(c: char) -> (r: bool)
    ensures
        r == crate::eval::is_space(c),
{
    c == ' ' || c == '\t' || c == '\n' || c == '\r' || c == '\u{c}'
}

/// The position after any whitespace from `i` on.
#[verifier::loop_isolation(false)]
fn skip_ws(s: &Vec<char>, i: usize) -> (j: usize)
    requires
        i <= s@.len(),
    ensures
        i <= j <= s@.len(),
{
    let mut cur = i;
    while cur < s.len()
        invariant
            i <= cur <= s@.len(),
        decreases s@.len() - cur,
    {
        if !is_ws_char(s[cur]) {
            break;
        }
        cur = cur + 1;
    }
    cur
}

fn is_ident_start(c: char) -> bool {
    ('a' <= c && c <= 'z') || ('A' <= c && c <= 'Z') || c == '_'
}

fn is_ident_char(c: char) -> bool {
    ('a' <= c && c <= 'z') || ('A' <= c && c <= 'Z') || ('0' <= c && c <= '9') || c == '_'
}

fn is_digit_char(c: char) -> bool {
    '0' <= c && c <= '9'
}

/// An identifier after any whitespace, or nothing.
#[verifier::loop_isolation(false)]
fn parse_ident(s: &Vec<char>, i: usize) -> (r: Option<(String, usize)>)
    requires
        i <= s@.len(),
    ensures
        match r {
            Some(p) => i < p.1 <= s@.len(),
            None => true,
        },
{
    let start = skip_ws(s, i);
    if start >= s.len() || !is_ident_start(s[start]) {
        return None;
    }
    let mut cur = start + 1;
    while cur < s.len()
        invariant
            start < cur <= s@.len(),
        decreases s@.len() - cur,
    {
        if !is_ident_char(s[cur]) {
            break;
        }
        cur = cur + 1;
    }
    let text = crate::eval::copy_range(s, start, cur);
    Some((string_of(&text), cur))
}

/// Whether the token's characters stand at `i`.
#[verifier::loop_isolation(false)]
fn consume_tok(s: &Vec<char>, i: usize, tok: &Vec<char>) -> (r: Option<usize>)
    requires
        i <= s@.len(),
    ensures
        match r {
            Some(j) => i <= j <= s@.len() && j == i + tok@.len(),
            None => true,
        },
{
    if tok.len() > s.len() - i {
        return None;
    }
    let mut k: usize = 0;
    while k < tok.len()
        invariant
            k <= tok@.len(),
            i + tok@.len() <= s@.len(),
        decreases tok@.len() - k,
    {
        if s[i + k] != tok[k] {
            return None;
        }
        k = k + 1;
    }
    Some(i + tok.len())
}

fn tok_of(text: &str) -> (r: Vec<char>)
    ensures
        r@ == text@,
{
    chars_of(text)
}

/// An optional signed integer literal at `i`, with no whitespace skipping.
#[verifier::loop_isolation(false)]
fn parse_number(s: &Vec<char>, i: usize) -> (r: Option<(i64, usize)>)
    requires
        i <= s@.len(),
    ensures
        match r {
            Some(p) => i < p.1 <= s@.len(),
            None => true,
        },
{
    let mut cur = i;
    if cur < s.len() && s[cur] == '-' {
        cur = cur + 1;
    }
    let digits_start = cur;
    while cur < s.len()
        invariant
            digits_start <= cur <= s@.len(),
            i <= digits_start,
        decreases s@.len() - cur,
    {
        if !is_digit_char(s[cur]) {
            break;
        }
        cur = cur + 1;
    }
    if cur == digits_start {
        return None;
    }
    let text = crate::eval::copy_range(s, i, cur);
    match parse_i64_chars(&text) {
        Some(n) => Some((n, cur)),
        None => None,
    }
}

/// An optional string literal at `i`, decoding the JSON-style escapes.
#[verifier::loop_isolation(false)]
fn parse_string_lit(s: &Vec<char>, i: usize) -> (r: Result<Option<(String, usize)>, ParseError>)
    requires
        i <= s@.len(),
    ensures
        match r {
            Ok(Some(p)) => i < p.1 <= s@.len(),
            _ => true,
        },
{
    if i >= s.len() || s[i] != '"' {
        return Ok(None);
    }
    let mut out: Vec<char> = Vec::new();
    let mut cur = i + 1;
    let mut escaped = false;
    while cur < s.len()
        invariant
            i < cur <= s@.len(),
        decreases s@.len() - cur,
    {
        let c = s[cur];
        cur = cur + 1;
        if escaped {
            let dec: char = if c == '"' {
                '"'
            } else if c == '\\' {
                '\\'
            } else if c == '/' {
                '/'
            } else if c == 'b' {
                '\u{8}'
            } else if c == 'f' {
                '\u{c}'
            } else if c == 'n' {
                '\n'
            } else if c == 'r' {
                '\r'
            } else if c == 't' {
                '\t'
            } else {
                return Err(ParseError {
                    message: String::from_str("unsupported escape"),
                    span: Span { start: cur - 1, end: cur },
                });
            };
            out.push(dec);
            escaped = false;
            continue;
        }
        if c == '\\' {
            escaped = true;
        } else if c == '"' {
            return Ok(Some((string_of(&out), cur)));
        } else {
            out.push(c);
        }
    }
    Err(ParseError {
        message: String::from_str("unterminated string literal"),
        span: Span { start: cur, end: cur },
    })
}

/// Shifts every span in the expression; the expression itself is unchanged.
#[verifier::loop_isolation(false)]
pub fn rebase_expr(e: &Expr, offset: usize) -> (r: Expr)
    ensures
        r@ == e@,
    decreases e,
{
    broadcast use crate::ast::lemma_expr_views, crate::ast::lemma_field_views,
        crate::ast::lemma_arg_views;
    match e {
        Expr::Ident { name, span } => Expr::Ident { name: name.clone(), span: shift(*span, offset) },
        Expr::Placeholder { span } => Expr::Placeholder { span: shift(*span, offset) },
        Expr::Number { value, span } => Expr::Number { value: *value, span: shift(*span, offset) },
        Expr::String { value, span } => Expr::String {
            value: value.clone(),
            span: shift(*span, offset),
        },
        Expr::Array { items, span } => {
            let mut out: Vec<Expr> = Vec::new();
            let mut i: usize = 0;
            while i < items.len()
                invariant
                    i <= items@.len(),
                    out@.len() == i,
                    forall|j: int| 0 <= j < i ==> out@[j]@ == items@[j]@,
                decreases items@.len() - i,
            {
                out.push(rebase_expr(&items[i], offset));
                i = i + 1;
            }
            proof {
                assert(crate::ast::expr_views(out@) =~= crate::ast::expr_views(items@));
            }
            Expr::Array { items: out, span: shift(*span, offset) }
        },
        Expr::Record { fields, span } => {
            let mut out: Vec<RecordField> = Vec::new();
            let mut i: usize = 0;
            while i < fields.len()
                invariant
                    i <= fields@.len(),
                    out@.len() == i,
                    forall|j: int|
                        0 <= j < i ==> (#[trigger] out@[j]).name@ == fields@[j].name@
                            && out@[j].value@ == fields@[j].value@,
                decreases fields@.len() - i,
            {
                let nf = RecordField {
                    name: fields[i].name.clone(),
                    value: rebase_expr(&fields[i].value, offset),
                    span: shift(fields[i].span, offset),
                };
                out.push(nf);
                i = i + 1;
            }
            proof {
                assert(crate::ast::field_views(out@) =~= crate::ast::field_views(fields@));
            }
            Expr::Record { fields: out, span: shift(*span, offset) }
        },
        Expr::FieldAccess { expr, field, span } => Expr::FieldAccess {
            expr: Box::new(rebase_expr(expr, offset)),
            field: field.clone(),
            span: shift(*span, offset),
        },
        Expr::Call { callee, args, span } => {
            let mut out: Vec<CallArg> = Vec::new();
            let mut i: usize = 0;
            while i < args.len()
                invariant
                    i <= args@.len(),
                    out@.len() == i,
                    forall|j: int| 0 <= j < i ==> out@[j]@ == args@[j]@,
                decreases args@.len() - i,
            {
                let na = match &args[i] {
                    CallArg::Positional(v) => CallArg::Positional(rebase_expr(v, offset)),
                    CallArg::Named { name, value, span } => CallArg::Named {
                        name: name.clone(),
                        value: rebase_expr(value, offset),
                        span: shift(*span, offset),
                    },
                };
                out.push(na);
                i = i + 1;
            }
            proof {
                assert(crate::ast::arg_views(out@) =~= crate::ast::arg_views(args@));
            }
            Expr::Call {
                callee: Box::new(rebase_expr(callee, offset)),
                args: out,
                span: shift(*span, offset),
            }
        },
        Expr::Pipeline { input, stages, span } => {
            let mut out: Vec<Expr> = Vec::new();
            let mut i: usize = 0;
            while i < stages.len()
                invariant
                    i <= stages@.len(),
                    out@.len() == i,
                    forall|j: int| 0 <= j < i ==> out@[j]@ == stages@[j]@,
                decreases stages@.len() - i,
            {
                out.push(rebase_expr(&stages[i], offset));
                i = i + 1;
            }
            proof {
                assert(crate::ast::expr_views(out@) =~= crate::ast::expr_views(stages@));
            }
            Expr::Pipeline {
                input: Box::new(rebase_expr(input, offset)),
                stages: out,
                span: shift(*span, offset),
            }
        },
        Expr::Compose { left, right, span } => Expr::Compose {
            left: Box::new(rebase_expr(left, offset)),
            right: Box::new(rebase_expr(right, offset)),
            span: shift(*span, offset),
        },
        Expr::Inverse { expr, span } => Expr::Inverse {
            expr: Box::new(rebase_expr(expr, offset)),
            span: shift(*span, offset),
        },
        Expr::Raw { text, span } => Expr::Raw {
            text: text.clone(),
            span: shift(*span, offset),
        },
    }
}

/// The span moved by an offset, saturating at the address space's end.
fn shift(span: Span, offset: usize) -> Span {
    Span {
        start: if span.start <= usize::MAX - offset {
            span.start + offset
        } else {
            usize::MAX
        },
        end: if span.end <= usize::MAX - offset {
            span.end + offset
        } else {
            usize::MAX
        },
    }
}

/// A full expression: a pipeline of composed unary stage terms.
#[verifier::loop_isolation(false)]
pub fn parse_expr(s: &Vec<char>, pos: usize) -> (r: Result<(Expr, usize), ParseError>)
    requires
        pos <= s@.len(),
    ensures
        r matches Ok(p) ==> pos <= p.1 <= s@.len(),
    decreases s@.len(), s@.len() - pos, 6int,
{
    parse_pipeline(s, pos)
}

#[verifier::loop_isolation(false)]
fn parse_pipeline(s: &Vec<char>, pos: usize) -> (r: Result<(Expr, usize), ParseError>)
    requires
        pos <= s@.len(),
    ensures
        r matches Ok(p) ==> pos <= p.1 <= s@.len(),
    decreases s@.len(), s@.len() - pos, 5int,
{
    let start = pos;
    let (input, mut cur) = match parse_compose(s, pos) {
        Ok(p) => p,
        Err(e) => {
            return Err(e);
        },
    };
    let pipe = tok_of("|>");
    proof {
        reveal_strlit("|>");
        assert(pipe@.len() == 2);
    }
    let after_ws = skip_ws(s, cur);
    let first = input;
    match consume_tok(s, after_ws, &pipe) {
        None => {
            return Ok((first, cur));
        },
        Some(j) => {
            cur = j;
        },
    }
    let mut stages: Vec<Expr> = Vec::new();
    loop
        invariant
            pos < cur <= s@.len(),
        decreases s@.len() - cur,
    {
        let ws1 = skip_ws(s, cur);
        let (stage, j) = match parse_compose(s, ws1) {
            Ok(p) => p,
            Err(e) => {
                return Err(e);
            },
        };
        stages.push(stage);
        let ws2 = skip_ws(s, j);
        match consume_tok(s, ws2, &pipe) {
            Some(j2) => {
                if j2 <= cur {
                    // the scan cannot move backwards; stop rather than loop
                    return Ok((Expr::Pipeline {
                        input: Box::new(first),
                        stages,
                        span: Span { start, end: j },
                    }, j));
                }
                cur = j2;
            },
            None => {
                return Ok((Expr::Pipeline {
                    input: Box::new(first),
                    stages,
                    span: Span { start, end: j },
                }, j));
            },
        }
    }
}

#[verifier::loop_isolation(false)]
fn parse_compose(s: &Vec<char>, pos: usize) -> (r: Result<(Expr, usize), ParseError>)
    requires
        pos <= s@.len(),
    ensures
        r matches Ok(p) ==> pos <= p.1 <= s@.len(),
    decreases s@.len(), s@.len() - pos, 4int,
{
    let start = pos;
    let (mut left, mut cur) = match parse_unary(s, pos) {
        Ok(p) => p,
        Err(e) => {
            return Err(e);
        },
    };
    let tok = tok_of(">>");
    loop
        invariant
            start <= cur <= s@.len(),
        decreases s@.len() - cur,
    {
        let ws1 = skip_ws(s, cur);
        let j = match consume_tok(s, ws1, &tok) {
            Some(j) => j,
            None => {
                return Ok((left, cur));
            },
        };
        if j <= cur {
            return Ok((left, cur));
        }
        let ws2 = skip_ws(s, j);
        let (right, j2) = match parse_unary(s, ws2) {
            Ok(p) => p,
            Err(e) => {
                return Err(e);
            },
        };
        left = Expr::Compose {
            left: Box::new(left),
            right: Box::new(right),
            span: Span { start, end: j2 },
        };
        if j2 <= cur {
            return Ok((left, j2));
        }
        cur = j2;
    }
}

#[verifier::loop_isolation(false)]
fn parse_unary(s: &Vec<char>, pos: usize) -> (r: Result<(Expr, usize), ParseError>)
    requires
        pos <= s@.len(),
    ensures
        r matches Ok(p) ==> pos <= p.1 <= s@.len(),
    decreases s@.len(), s@.len() - pos, 3int,
{
    let ws = skip_ws(s, pos);
    if ws < s.len() && s[ws] == '~' {
        let start = ws;
        let (inner, j) = match parse_unary(s, ws + 1) {
            Ok(p) => p,
            Err(e) => {
                return Err(e);
            },
        };
        return Ok((Expr::Inverse { expr: Box::new(inner), span: Span { start, end: j } }, j));
    }
    parse_postfix(s, ws)
}

#[verifier::loop_isolation(false)]
fn parse_postfix(s: &Vec<char>, pos: usize) -> (r: Result<(Expr, usize), ParseError>)
    requires
        pos <= s@.len(),
    ensures
        r matches Ok(p) ==> pos <= p.1 <= s@.len(),
    decreases s@.len(), s@.len() - pos, 2int,
{
    let (mut e, mut cur) = match parse_primary(s, pos) {
        Ok(p) => p,
        Err(err) => {
            return Err(err);
        },
    };
    loop
        invariant
            pos <= cur <= s@.len(),
        decreases s@.len() - cur,
    {
        let ws = skip_ws(s, cur);
        if ws < s.len() && s[ws] == '.' {
            let fs = ws + 1;
            match parse_ident(s, fs) {
                Some((field, j)) => {
                    if j <= cur {
                        return Ok((e, cur));
                    }
                    e = Expr::FieldAccess {
                        expr: Box::new(e),
                        field,
                        span: Span { start: pos, end: j },
                    };
                    cur = j;
                    continue;
                },
                None => {
                    return Err(ParseError {
                        message: String::from_str("expected field name after '.'"),
                        span: Span { start: fs, end: fs },
                    });
                },
            }
        }
        if ws < s.len() && s[ws] == '(' {
            let (args, j) = match parse_call_args(s, ws + 1) {
                Ok(p) => p,
                Err(err) => {
                    return Err(err);
                },
            };
            let ws2 = skip_ws(s, j);
            if ws2 >= s.len() || s[ws2] != ')' {
                return Err(ParseError {
                    message: String::from_str("expected ')'"),
                    span: Span { start: ws2, end: ws2 },
                });
            }
            if ws2 + 1 <= cur {
                return Ok((e, cur));
            }
            e = Expr::Call {
                callee: Box::new(e),
                args,
                span: Span { start: pos, end: ws2 + 1 },
            };
            cur = ws2 + 1;
            continue;
        }
        return Ok((e, cur));
    }
}

#[verifier::loop_isolation(false)]
fn parse_call_args(s: &Vec<char>, pos: usize) -> (r: Result<(Vec<CallArg>, usize), ParseError>)
    requires
        pos <= s@.len(),
    ensures
        r matches Ok(p) ==> pos <= p.1 <= s@.len(),
    decreases s@.len(), s@.len() - pos, 1int,
{
    let mut args: Vec<CallArg> = Vec::new();
    let ws0 = skip_ws(s, pos);
    if ws0 < s.len() && s[ws0] == ')' {
        return Ok((args, pos));
    }
    let mut cur = pos;
    loop
        invariant
            pos <= cur <= s@.len(),
        decreases s@.len() - cur,
    {
        let ws = skip_ws(s, cur);
        let arg_start = ws;
        let mut named: Option<(String, usize)> = None;
        match parse_ident(s, ws) {
            Some((n, j)) => {
                let ws2 = skip_ws(s, j);
                if ws2 < s.len() && s[ws2] == '=' && j > cur {
                    named = Some((n, ws2 + 1));
                }
            },
            None => {},
        }
        match named {
            Some((n, vstart)) => {
                if vstart > s.len() {
                    return Err(ParseError {
                        message: String::from_str("expected expression"),
                        span: Span { start: s.len(), end: s.len() },
                    });
                }
                let (value, j) = parse_subexpr_until(s, vstart);
                args.push(CallArg::Named {
                    name: n,
                    value,
                    span: Span { start: arg_start, end: j },
                });
                let ws3 = skip_ws(s, j);
                if ws3 < s.len() && s[ws3] == ',' && ws3 + 1 > cur {
                    cur = ws3 + 1;
                    continue;
                }
                return Ok((args, if j > cur {
                    j
                } else {
                    cur
                }));
            },
            None => {
                let (value, j) = parse_subexpr_until(s, ws);
                args.push(CallArg::Positional(value));
                let ws3 = skip_ws(s, j);
                if ws3 < s.len() && s[ws3] == ',' && ws3 + 1 > cur {
                    cur = ws3 + 1;
                    continue;
                }
                return Ok((args, if j > cur {
                    j
                } else {
                    cur
                }));
            },
        }
    }
}

/// Scans a call argument's text up to a top-level comma or closing
/// parenthesis, then parses it as a full expression when possible, keeping
/// the raw text otherwise.
#[verifier::loop_isolation(false)]
fn parse_subexpr_until(s: &Vec<char>, pos: usize) -> (r: (Expr, usize))
    requires
        pos <= s@.len(),
    ensures
        pos <= r.1 <= s@.len(),
    decreases s@.len(), s@.len() - pos, 0int,
{
    let n = s.len();
    let mut dp: usize = 0;
    let mut db: usize = 0;
    let mut dc: usize = 0;
    let mut in_str = false;
    let mut esc = false;
    let mut i = pos;
    while i < n
        invariant
            pos <= i <= n,
            n == s@.len(),
            dp <= i && db <= i && dc <= i,
        decreases n - i,
    {
        let c = s[i];
        if in_str {
            if esc {
                esc = false;
            } else if c == '\\' {
                esc = true;
            } else if c == '"' {
                in_str = false;
            }
            i = i + 1;
            continue;
        }
        if c == '"' {
            in_str = true;
            i = i + 1;
            continue;
        }
        if c == '(' {
            dp = dp + 1;
            i = i + 1;
            continue;
        }
        if c == ')' {
            if dp == 0 && db == 0 && dc == 0 {
                break;
            }
            if dp > 0 {
                dp = dp - 1;
            }
            i = i + 1;
            continue;
        }
        if c == '[' {
            db = db + 1;
            i = i + 1;
            continue;
        }
        if c == ']' {
            if db > 0 {
                db = db - 1;
            }
            i = i + 1;
            continue;
        }
        if c == '{' {
            dc = dc + 1;
            i = i + 1;
            continue;
        }
        if c == '}' {
            if dc > 0 {
                dc = dc - 1;
            }
            i = i + 1;
            continue;
        }
        if c == ',' && dp == 0 && db == 0 && dc == 0 {
            break;
        }
        i = i + 1;
    }
    let piece = crate::eval::copy_range(s, pos, i);
    let raw = trim_chars(&piece);
    if raw.len() == 0 {
        return (Expr::Raw { text: String::new(), span: Span { start: pos, end: pos } }, i);
    }
    if raw.len() < s.len() {
        match parse_expr(&raw, 0) {
            Ok((e, j)) => {
                let rest = skip_ws(&raw, j);
                if rest == raw.len() {
                    return (rebase_expr(&e, pos), i);
                }
            },
            Err(_) => {},
        }
    }
    (Expr::Raw { text: string_of(&raw), span: Span { start: pos, end: i } }, i)
}

/// A primary expression: a parenthesized expression, an array or record
/// literal, a string or number literal, the placeholder, or an identifier.
#[verifier::loop_isolation(false)]
fn parse_primary(s: &Vec<char>, pos: usize) -> (r: Result<(Expr, usize), ParseError>)
    requires
        pos <= s@.len(),
    ensures
        r matches Ok(p) ==> pos <= p.1 <= s@.len(),
    decreases s@.len(), s@.len() - pos, 1int,
{
    let start = skip_ws(s, pos);
    if start < s.len() && s[start] == '(' {
        let (inner, j) = match parse_expr(s, start + 1) {
            Ok(p) => p,
            Err(e) => {
                return Err(e);
            },
        };
        let ws = skip_ws(s, j);
        if ws < s.len() && s[ws] == ')' {
            return Ok((inner, ws + 1));
        }
        return Err(ParseError {
            message: String::from_str("expected ')'"),
            span: Span { start: ws, end: ws },
        });
    }
    if start < s.len() && s[start] == '[' {
        let mut items: Vec<Expr> = Vec::new();
        let mut cur = start + 1;
        let ws0 = skip_ws(s, cur);
        if ws0 < s.len() && s[ws0] == ']' {
            return Ok((Expr::Array { items, span: Span { start, end: ws0 + 1 } }, ws0 + 1));
        }
        loop
            invariant
                start < cur <= s@.len(),
            decreases s@.len() - cur,
        {
            let (item, j) = match parse_expr(s, cur) {
                Ok(p) => p,
                Err(e) => {
                    return Err(e);
                },
            };
            items.push(item);
            let ws = skip_ws(s, j);
            if ws < s.len() && s[ws] == ',' && ws + 1 > cur {
                cur = ws + 1;
                continue;
            }
            if ws < s.len() && s[ws] == ']' {
                return Ok((Expr::Array { items, span: Span { start, end: ws + 1 } }, ws + 1));
            }
            return Err(ParseError {
                message: String::from_str("expected ']'"),
                span: Span { start: ws, end: ws },
            });
        }
    }
    if start < s.len() && s[start] == '{' {
        let mut fields: Vec<RecordField> = Vec::new();
        let mut cur = start + 1;
        let ws0 = skip_ws(s, cur);
        if ws0 < s.len() && s[ws0] == '}' {
            return Ok((Expr::Record { fields, span: Span { start, end: ws0 + 1 } }, ws0 + 1));
        }
        loop
            invariant
                start < cur <= s@.len(),
            decreases s@.len() - cur,
        {
            let field_start = skip_ws(s, cur);
            let (name, j) = match parse_ident(s, field_start) {
                Some(p) => p,
                None => {
                    return Err(ParseError {
                        message: String::from_str("expected record field name"),
                        span: Span { start: field_start, end: field_start },
                    });
                },
            };
            let ws = skip_ws(s, j);
            if ws >= s.len() || s[ws] != ':' {
                return Err(ParseError {
                    message: String::from_str("expected ':'"),
                    span: Span { start: ws, end: ws },
                });
            }
            let (value, j2) = match parse_expr(s, ws + 1) {
                Ok(p) => p,
                Err(e) => {
                    return Err(e);
                },
            };
            fields.push(RecordField {
                name,
                value,
                span: Span { start: field_start, end: j2 },
            });
            let ws2 = skip_ws(s, j2);
            if ws2 < s.len() && s[ws2] == ',' && ws2 + 1 > cur {
                cur = ws2 + 1;
                continue;
            }
            if ws2 < s.len() && s[ws2] == '}' {
                return Ok((Expr::Record { fields, span: Span { start, end: ws2 + 1 } }, ws2
                    + 1));
            }
            return Err(ParseError {
                message: String::from_str("expected '}'"),
                span: Span { start: ws2, end: ws2 },
            });
        }
    }
    match parse_string_lit(s, start) {
        Err(e) => {
            return Err(e);
        },
        Ok(Some((value, j))) => {
            return Ok((Expr::String { value, span: Span { start, end: j } }, j));
        },
        Ok(None) => {},
    }
    match parse_number(s, start) {
        Some((value, j)) => {
            return Ok((Expr::Number { value, span: Span { start, end: j } }, j));
        },
        None => {},
    }
    if start < s.len() && s[start] == '_' {
        let mut cur = start + 1;
        let mut more = false;
        while cur < s.len()
            invariant
                start < cur <= s@.len(),
        decreases s@.len() - cur,
        {
            if !is_ident_char(s[cur]) {
                break;
            }
            more = true;
            cur = cur + 1;
        }
        if more {
            let text = crate::eval::copy_range(s, start, cur);
            return Ok((Expr::Ident {
                name: string_of(&text),
                span: Span { start, end: cur },
            }, cur));
        }
        return Ok((Expr::Placeholder { span: Span { start, end: start + 1 } }, start + 1));
    }
    match parse_ident(s, start) {
        Some((name, j)) => Ok((Expr::Ident { name, span: Span { start, end: j } }, j)),
        None => Err(ParseError {
            message: String::from_str("expected expression"),
            span: Span { start, end: start },
        }),
    }
}

/// One statement: a binding `name := expr;` or a bare pipeline `expr;`.
#[verifier::loop_isolation(false)]
fn parse_stmt(s: &Vec<char>, pos: usize) -> (r: Result<(Stmt, usize), ParseError>)
    requires
        pos <= s@.len(),
    ensures
        r matches Ok(p) ==> pos < p.1 <= s@.len(),
{
    let start = skip_ws(s, pos);
    let assign = tok_of(":=");
    match parse_ident(s, start) {
        Some((name, j)) => {
            let ws = skip_ws(s, j);
            if let Some(j2) = consume_tok(s, ws, &assign) {
                let (e, j3) = match parse_expr(s, j2) {
                    Ok(p) => p,
                    Err(er) => {
                        return Err(er);
                    },
                };
                let ws2 = skip_ws(s, j3);
                if ws2 >= s.len() || s[ws2] != ';' {
                    return Err(ParseError {
                        message: String::from_str("expected ';'"),
                        span: Span { start: ws2, end: ws2 },
                    });
                }
                return Ok((Stmt::Binding {
                    name,
                    expr: e,
                    span: Span { start, end: ws2 + 1 },
                }, ws2 + 1));
            }
        },
        None => {},
    }
    let (e, j) = match parse_expr(s, start) {
        Ok(p) => p,
        Err(er) => {
            return Err(er);
        },
    };
    let ws = skip_ws(s, j);
    if ws >= s.len() || s[ws] != ';' {
        return Err(ParseError {
            message: String::from_str("expected ';'"),
            span: Span { start: ws, end: ws },
        });
    }
    Ok((Stmt::Pipeline { expr: e, span: Span { start, end: ws + 1 } }, ws + 1))
}

/// Parses a whole program: statements until the end of the text.
#[verifier::loop_isolation(false)]
pub fn parse_program(input: &str) -> (r: Result<Program, ParseError>) {
    let s = chars_of(input);
    let mut statements: Vec<Stmt> = Vec::new();
    let mut pos: usize = 0;
    let start: usize = 0;
    loop
        invariant
            pos <= s@.len(),
        decreases s@.len() - pos,
    {
        let ws = skip_ws(&s, pos);
        if ws >= s.len() {
            return Ok(Program { statements, span: Span { start, end: ws } });
        }
        let (stmt, j) = match parse_stmt(&s, ws) {
            Ok(p) => p,
            Err(e) => {
                return Err(e);
            },
        };
        statements.push(stmt);
        if j <= pos {
            return Ok(Program { statements, span: Span { start, end: j } });
        }
        pos = j;
    }
}

} // verus!
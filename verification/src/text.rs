//! Character-level helpers shared by the parsers, the serializers and the
//! record machinery: conversions between `String` and `Vec<char>`, decimal
//! formatting and parsing of `i64`, and lexicographic comparison of strings.

use vstd::prelude::*;

verus! {

/// Relies on std's `String::push`: appends exactly one character at the end.
#[verifier::external_body]
pub fn push_char(s: &mut String, c: char)
    ensures
        final(s)@ == old(s)@.push(c),
{
    s.push(c);
}

/// The characters of a string slice, as an indexable vector.
pub fn chars_of(s: &str) -> (r: Vec<char>)
    ensures
        r@ == s@,
{
    let n = s.unicode_len();
    let mut r: Vec<char> = Vec::new();
    let mut i: usize = 0;
    while i < n
        invariant
            n == s@.len(),
            i <= n,
            r@ == s@.subrange(0, i as int),
        decreases n - i,
    {
        r.push(s.get_char(i));
        i = i + 1;
        proof {
            assert(r@ =~= s@.subrange(0, i as int));
        }
    }
    proof {
        assert(s@.subrange(0, n as int) =~= s@);
    }
    r
}

/// A string holding exactly the given characters.
pub fn string_of(chars: &Vec<char>) -> (r: String)
    ensures
        r@ == chars@,
{
    let mut r = String::new();
    let mut i: usize = 0;
    while i < chars.len()
        invariant
            i <= chars@.len(),
            r@ == chars@.subrange(0, i as int),
        decreases chars@.len() - i,
    {
        push_char(&mut r, chars[i]);
        i = i + 1;
        proof {
            assert(r@ =~= chars@.subrange(0, i as int));
        }
    }
    proof {
        assert(chars@.subrange(0, chars@.len() as int) =~= chars@);
    }
    r
}

/// Relies on std's `String::from_utf8`: it returns a string exactly when the
/// bytes are valid UTF-8, and that string's UTF-8 encoding is the input bytes.
#[verifier::external_body]
pub fn bytes_to_string(v: Vec<u8>) -> (r: Option<String>)
    ensures
        r is Some <==> vstd::utf8::valid_utf8(v@),
        r is Some ==> vstd::utf8::encode_utf8(r.unwrap()@) == v@,
{
    match String::from_utf8(v) {
        Ok(s) => Some(s),
        Err(_) => None,
    }
}

/// Three-way comparison result.
#[derive(Debug, Clone, Copy, PartialEq, Eq, Structural)]
pub enum Ord3 {
    Lt,
    Eq,
    Gt,
}

/// Lexicographic three-way comparison of character sequences, by code point.
pub open spec fn lex_cmp(a: Seq<char>, b: Seq<char>) -> Ord3
    decreases a.len(),
{
    if a.len() == 0 && b.len() == 0 {
        Ord3::Eq
    } else if a.len() == 0 {
        Ord3::Lt
    } else if b.len() == 0 {
        Ord3::Gt
    } else if (a[0] as u32) < (b[0] as u32) {
        Ord3::Lt
    } else if (a[0] as u32) > (b[0] as u32) {
        Ord3::Gt
    } else {
        lex_cmp(a.drop_first(), b.drop_first())
    }
}

/// Two character sequences compare equal exactly when they are equal.
pub proof fn lemma_lex_cmp_eq(a: Seq<char>, b: Seq<char>)
    ensures
        lex_cmp(a, b) == Ord3::Eq <==> a == b,
    decreases a.len(),
{
    if a.len() == 0 && b.len() == 0 {
        assert(a =~= b);
    } else if a.len() == 0 || b.len() == 0 {
    } else if (a[0] as u32) == (b[0] as u32) {
        vstd::utf8::char_u32_cast(a[0], a[0] as u32);
        vstd::utf8::char_u32_cast(b[0], b[0] as u32);
        assert(a[0] == b[0]);
        lemma_lex_cmp_eq(a.drop_first(), b.drop_first());
        if lex_cmp(a, b) == Ord3::Eq {
            assert(a.drop_first() == b.drop_first());
            assert(a.len() == b.len());
            assert forall|i: int| 0 <= i < a.len() implies a[i] == b[i] by {
                if i >= 1 {
                    assert(a[i] == a.drop_first()[i - 1]);
                    assert(b[i] == b.drop_first()[i - 1]);
                }
            }
            assert(a =~= b);
        }
        if a == b {
            assert(a.drop_first() =~= b.drop_first());
        }
    } else {
        if a == b {
            assert(a[0] == b[0]);
        }
    }
}

/// Lexicographic comparison of two strings, by character code point.
pub fn str_cmp(a: &str, b: &str) -> (o: Ord3)
    ensures
        o == lex_cmp(a@, b@),
{
    let na = a.unicode_len();
    let nb = b.unicode_len();
    let mut i: usize = 0;
    proof {
        assert(a@.skip(0) =~= a@);
        assert(b@.skip(0) =~= b@);
    }
    loop
        invariant
            na == a@.len(),
            nb == b@.len(),
            i <= na,
            i <= nb,
            lex_cmp(a@, b@) == lex_cmp(a@.skip(i as int), b@.skip(i as int)),
        ensures
            (i == na || i == nb || (a@[i as int] as u32) != (b@[i as int] as u32)),
            i <= na,
            i <= nb,
            lex_cmp(a@, b@) == lex_cmp(a@.skip(i as int), b@.skip(i as int)),
        decreases na - i,
    {
        if i == na || i == nb {
            break;
        }
        let ca = a.get_char(i) as u32;
        let cb = b.get_char(i) as u32;
        if ca != cb {
            break;
        }
        proof {
            assert(a@.skip(i as int).drop_first() =~= a@.skip(i + 1));
            assert(b@.skip(i as int).drop_first() =~= b@.skip(i + 1));
            assert(a@.skip(i as int)[0] == a@[i as int]);
            assert(b@.skip(i as int)[0] == b@[i as int]);
        }
        i = i + 1;
    }
    proof {
        assert(a@.skip(i as int).len() == na - i);
        assert(b@.skip(i as int).len() == nb - i);
        if i < na && i < nb {
            assert(a@.skip(i as int)[0] == a@[i as int]);
            assert(b@.skip(i as int)[0] == b@[i as int]);
        }
    }
    if i == na && i == nb {
        Ord3::Eq
    } else if i == na {
        Ord3::Lt
    } else if i == nb {
        Ord3::Gt
    } else {
        let ca = a.get_char(i) as u32;
        let cb = b.get_char(i) as u32;
        if ca < cb {
            Ord3::Lt
        } else {
            Ord3::Gt
        }
    }
}

/// The decimal digit character for a value below ten.
pub open spec fn digit_char(d: int) -> char
    recommends
        0 <= d < 10,
{
    if d == 0 {
        '0'
    } else if d == 1 {
        '1'
    } else if d == 2 {
        '2'
    } else if d == 3 {
        '3'
    } else if d == 4 {
        '4'
    } else if d == 5 {
        '5'
    } else if d == 6 {
        '6'
    } else if d == 7 {
        '7'
    } else if d == 8 {
        '8'
    } else {
        '9'
    }
}

/// The decimal representation of a natural number, most significant digit first.
pub open spec fn dec_rep(n: nat) -> Seq<char>
    decreases n,
{
    if n < 10 {
        seq![digit_char(n as int)]
    } else {
        dec_rep(n / 10).push(digit_char((n % 10) as int))
    }
}

/// The decimal representation of a signed 64-bit value, with a leading minus
/// sign when negative.
pub open spec fn i64_dec(n: int) -> Seq<char> {
    if n < 0 {
        seq!['-'] + dec_rep((-n) as nat)
    } else {
        dec_rep(n as nat)
    }
}

fn digit_char_exec(d: u64) -> (c: char)
    requires
        d < 10,
    ensures
        c == digit_char(d as int),
{
    if d == 0 {
        '0'
    } else if d == 1 {
        '1'
    } else if d == 2 {
        '2'
    } else if d == 3 {
        '3'
    } else if d == 4 {
        '4'
    } else if d == 5 {
        '5'
    } else if d == 6 {
        '6'
    } else if d == 7 {
        '7'
    } else if d == 8 {
        '8'
    } else {
        '9'
    }
}

fn fmt_u64(n: u64) -> (r: Vec<char>)
    ensures
        r@ == dec_rep(n as nat),
    decreases n,
{
    if n < 10 {
        let mut v: Vec<char> = Vec::new();
        v.push(digit_char_exec(n));
        proof {
            assert(v@ =~= dec_rep(n as nat));
        }
        v
    } else {
        let mut v = fmt_u64(n / 10);
        v.push(digit_char_exec(n % 10));
        v
    }
}

/// The decimal string of a signed 64-bit value.
pub fn fmt_i64(n: i64) -> (r: String)
    ensures
        r@ == i64_dec(n as int),
{
    if n >= 0 {
        let digits = fmt_u64(n as u64);
        string_of(&digits)
    } else {
        let m: u64 = (-(n as i128)) as u64;
        let digits = fmt_u64(m);
        let mut chars: Vec<char> = Vec::new();
        chars.push('-');
        let mut i: usize = 0;
        while i < digits.len()
            invariant
                i <= digits@.len(),
                chars@ == seq!['-'] + digits@.subrange(0, i as int),
            decreases digits@.len() - i,
        {
            chars.push(digits[i]);
            i = i + 1;
            proof {
                assert(chars@ =~= seq!['-'] + digits@.subrange(0, i as int));
            }
        }
        proof {
            assert(digits@.subrange(0, digits@.len() as int) =~= digits@);
        }
        string_of(&chars)
    }
}

/// Whether every character in the sequence is a decimal digit.
pub open spec fn all_digits(s: Seq<char>) -> bool {
    forall|i: int| 0 <= i < s.len() ==> 48 <= (#[trigger] s[i]) as u32 <= 57
}

/// The value of a sequence of decimal digit characters.
pub open spec fn digits_val(s: Seq<char>) -> int
    decreases s.len(),
{
    if s.len() == 0 {
        0
    } else {
        digits_val(s.drop_last()) * 10 + ((s.last() as u32) - 48)
    }
}

/// What parsing a decimal 64-bit integer literal yields: an optional sign,
/// then at least one digit, with the value in range.
pub open spec fn parse_i64_spec(s: Seq<char>) -> Option<i64> {
    let neg = s.len() > 0 && s[0] == '-';
    let signed = s.len() > 0 && (s[0] == '-' || s[0] == '+');
    let ds = if signed {
        s.drop_first()
    } else {
        s
    };
    if ds.len() == 0 || !all_digits(ds) {
        None
    } else {
        let v = if neg {
            -digits_val(ds)
        } else {
            digits_val(ds)
        };
        if i64::MIN <= v <= i64::MAX {
            Some(v as i64)
        } else {
            None
        }
    }
}

proof fn lemma_digits_val_nonneg(s: Seq<char>)
    requires
        all_digits(s),
    ensures
        digits_val(s) >= 0,
    decreases s.len(),
{
    if s.len() > 0 {
        assert(all_digits(s.drop_last())) by {
            assert(forall|i: int|
                0 <= i < s.len() - 1 ==> s.drop_last()[i] == #[trigger] s[i]);
        }
        lemma_digits_val_nonneg(s.drop_last());
    }
}

proof fn lemma_digits_val_grows(s: Seq<char>, k: int)
    requires
        all_digits(s),
        0 <= k <= s.len(),
    ensures
        digits_val(s) >= digits_val(s.subrange(0, k)),
    decreases s.len() - k,
{
    if k < s.len() {
        let t = s.subrange(0, k + 1);
        assert(all_digits(t)) by {
            assert(forall|i: int| 0 <= i < t.len() ==> t[i] == #[trigger] s[i]);
        }
        assert(t.drop_last() =~= s.subrange(0, k));
        assert(all_digits(s.subrange(0, k)));
        lemma_digits_val_nonneg(s.subrange(0, k));
        assert(digits_val(t) == digits_val(s.subrange(0, k)) * 10 + ((t.last() as u32) - 48));
        assert(digits_val(t) >= digits_val(s.subrange(0, k)));
        lemma_digits_val_grows(s, k + 1);
    } else {
        assert(s.subrange(0, k) =~= s);
    }
}

/// Parses the characters as a decimal 64-bit integer, as `parse_i64_spec`
/// describes.
pub fn parse_i64_chars(s: &Vec<char>) -> (r: Option<i64>)
    ensures
        r == parse_i64_spec(s@),
{
    let n = s.len();
    if n == 0 {
        return None;
    }
    let neg = s[0] == '-';
    let signed = neg || s[0] == '+';
    let start: usize = if signed {
        1
    } else {
        0
    };
    if start == n {
        proof {
            assert(s@.drop_first().len() == 0);
        }
        return None;
    }
    let ghost ds: Seq<char> = if signed {
        s@.drop_first()
    } else {
        s@
    };
    let mut acc: u128 = 0;
    let mut i: usize = start;
    let bound: u128 = 9223372036854775808;
    loop
        invariant
            start <= i <= n,
            n == s@.len(),
            n > 0,
            neg <==> s@[0] == '-',
            signed <==> (s@[0] == '-' || s@[0] == '+'),
            start == if signed { 1int } else { 0int },
            start < n,
            ds == if signed { s@.drop_first() } else { s@ },
            ds.len() == n - start,
            forall|j: int| 0 <= j < ds.len() ==> ds[j] == s@[j + start],
            all_digits(ds.subrange(0, i - start)),
            acc == digits_val(ds.subrange(0, i - start)),
            acc <= bound,
            bound == 9223372036854775808u128,
        ensures
            start <= i <= n,
            i < n ==> !(48 <= (s@[i as int] as u32) <= 57)
                || digits_val(ds.subrange(0, i + 1 - start)) > bound,
            i < n && 48 <= (s@[i as int] as u32) <= 57
                ==> all_digits(ds.subrange(0, i + 1 - start)),
            i == n ==> all_digits(ds) && acc == digits_val(ds) && acc <= bound,
        decreases n - i,
    {
        proof {
            assert(ds.subrange(0, i - start) =~= ds.subrange(0, i - start));
        }
        if i == n {
            proof {
                assert(ds.subrange(0, i - start) =~= ds);
            }
            break;
        }
        let c = s[i] as u32;
        if !(48 <= c && c <= 57) {
            break;
        }
        let d = (c - 48) as u128;
        proof {
            let pre = ds.subrange(0, i - start);
            let post = ds.subrange(0, i + 1 - start);
            assert(post.drop_last() =~= pre);
            assert(post.last() == ds[i - start]);
            assert(ds[i - start] == s@[i as int]);
        }
        let next = acc * 10 + d;
        if next > bound {
            proof {
                assert(digits_val(ds.subrange(0, i + 1 - start)) == acc * 10 + d);
            }
            i = i + 1;
            // the magnitude already exceeds every i64; the literal is out of range
            return none_on_overflow(s, Ghost(ds), Ghost(signed), Ghost(neg), Ghost(i as int));
        }
        acc = next;
        i = i + 1;
    }
    if i < n {
        // a non-digit character, or an overflowing prefix, stops the parse
        if 48 <= (s[i] as u32) && (s[i] as u32) <= 57 {
            return none_on_overflow(s, Ghost(ds), Ghost(signed), Ghost(neg), Ghost(i as int + 1));
        }
        proof {
            let j = i - start;
            assert(ds[j] == s@[i as int]);
            assert(!(48 <= (ds[j] as u32) <= 57));
        }
        return None;
    }
    proof {
        lemma_digits_val_nonneg(ds);
    }
    if neg {
        if acc == bound as u128 {
            Some(i64::MIN)
        } else {
            Some(-((acc as u64) as i64))
        }
    } else {
        if acc >= bound {
            None
        } else {
            Some((acc as u64) as i64)
        }
    }
}

/// The integer literal is out of range once a digit prefix already exceeds
/// every 64-bit magnitude.
fn none_on_overflow(
    s: &Vec<char>,
    ds: Ghost<Seq<char>>,
    signed: Ghost<bool>,
    neg: Ghost<bool>,
    i: Ghost<int>,
) -> (r: Option<i64>)
    requires
        s@.len() > 0,
        ds@ == if signed@ { s@.drop_first() } else { s@ },
        signed@ <==> (s@[0] == '-' || s@[0] == '+'),
        neg@ <==> s@[0] == '-',
        (if signed@ { 1int } else { 0int }) <= i@ <= s@.len(),
        all_digits(ds@.subrange(0, i@ - if signed@ { 1int } else { 0int })),
        digits_val(ds@.subrange(0, i@ - if signed@ { 1int } else { 0int }))
            > 9223372036854775808,
    ensures
        r == parse_i64_spec(s@),
        r is None,
{
    proof {
        let k = i@ - if signed@ { 1int } else { 0int };
        if all_digits(ds@) {
            lemma_digits_val_grows(ds@, k);
            lemma_digits_val_nonneg(ds@);
        }
    }
    None
}

/// String comparison is transitive.
pub proof fn lemma_lex_cmp_trans(a: Seq<char>, b: Seq<char>, c: Seq<char>)
    requires
        lex_cmp(a, b) != Ord3::Gt,
        lex_cmp(b, c) != Ord3::Gt,
    ensures
        lex_cmp(a, c) != Ord3::Gt,
    decreases a.len() + b.len() + c.len(),
{
    lemma_lex_cmp_eq(a, b);
    lemma_lex_cmp_eq(b, c);
    lemma_lex_cmp_eq(a, c);
    if a == b || b == c {
    } else if a.len() == 0 {
        if c.len() == 0 {
            assert(a =~= c);
        }
    } else if b.len() == 0 {
        assert(lex_cmp(b, c) == Ord3::Lt || b == c);
        assert(false);
    } else if c.len() == 0 {
        assert(lex_cmp(b, c) == Ord3::Gt || b == c);
        assert(false);
    } else {
        if (a[0] as u32) < (b[0] as u32) {
            if (b[0] as u32) <= (c[0] as u32) {
            } else {
                assert(lex_cmp(b, c) == Ord3::Gt);
            }
        } else if (a[0] as u32) > (b[0] as u32) {
            assert(lex_cmp(a, b) == Ord3::Gt);
        } else {
            if (b[0] as u32) < (c[0] as u32) {
            } else if (b[0] as u32) > (c[0] as u32) {
                assert(lex_cmp(b, c) == Ord3::Gt);
            } else {
                lemma_lex_cmp_trans(a.drop_first(), b.drop_first(), c.drop_first());
            }
        }
    }
}

/// Swapping the operands of a string comparison flips its outcome.
pub proof fn lemma_lex_cmp_antisym(a: Seq<char>, b: Seq<char>)
    ensures
        lex_cmp(a, b) == Ord3::Lt <==> lex_cmp(b, a) == Ord3::Gt,
        lex_cmp(a, b) == Ord3::Eq <==> lex_cmp(b, a) == Ord3::Eq,
    decreases a.len(),
{
    if a.len() == 0 && b.len() == 0 {
    } else if a.len() == 0 || b.len() == 0 {
    } else if (a[0] as u32) != (b[0] as u32) {
    } else {
        lemma_lex_cmp_antisym(a.drop_first(), b.drop_first());
    }
}

/// Strict transitivity of string comparison.
pub proof fn lemma_lex_lt_trans(a: Seq<char>, b: Seq<char>, c: Seq<char>)
    requires
        lex_cmp(a, b) == Ord3::Lt,
        lex_cmp(b, c) == Ord3::Lt,
    ensures
        lex_cmp(a, c) == Ord3::Lt,
{
    lemma_lex_cmp_trans(a, b, c);
    lemma_lex_cmp_eq(a, c);
    if lex_cmp(a, c) == Ord3::Eq {
        assert(a == c);
        lemma_lex_cmp_antisym(b, c);
        assert(lex_cmp(c, b) == Ord3::Gt);
    }
}

/// Whether a field list keeps its keys strictly sorted, the invariant that
/// makes record and object iteration deterministic.
pub open spec fn fields_sorted<T>(fields: Seq<(Seq<char>, T)>) -> bool {
    forall|i: int, j: int|
        0 <= i < j < fields.len() ==> lex_cmp(#[trigger] fields[i].0, #[trigger] fields[j].0)
            == Ord3::Lt
}

/// Whether two strings hold the same characters.
pub fn str_eq(a: &str, b: &str) -> (r: bool)
    ensures
        r == (a@ == b@),
{
    let o = str_cmp(a, b);
    proof {
        lemma_lex_cmp_eq(a@, b@);
    }
    match o {
        Ord3::Eq => true,
        _ => false,
    }
}

} // verus!

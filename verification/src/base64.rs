//! The base64 codec: standard alphabet, four-character output groups, `=`
//! padding on the final group.  The decoder rejects inputs whose length is
//! not a multiple of four or that hold a non-alphabet character in a
//! non-padding position.

use vstd::prelude::*;
use crate::json::chars_of_bytes;

verus! {

/// The alphabet byte for a six-bit value.
pub open spec fn b64_byte(v: u8) -> u8
    recommends
        v < 64,
{
    if v < 26 {
        (65 + v) as u8
    } else if v < 52 {
        (97 + (v - 26)) as u8
    } else if v < 62 {
        (48 + (v - 52)) as u8
    } else if v == 62 {
        43
    } else {
        47
    }
}

/// The six-bit value of an alphabet byte, or `None` for a byte outside the
/// alphabet.
pub open spec fn b64_val(c: u8) -> Option<u8> {
    if 65 <= c <= 90 {
        Some((c - 65) as u8)
    } else if 97 <= c <= 122 {
        Some((c - 97 + 26) as u8)
    } else if 48 <= c <= 57 {
        Some((c - 48 + 52) as u8)
    } else if c == 43 {
        Some(62u8)
    } else if c == 47 {
        Some(63u8)
    } else {
        None
    }
}

/// The four output bytes encoding a full group of three input bytes.
pub open spec fn enc3(b0: u8, b1: u8, b2: u8) -> Seq<u8> {
    let n = ((b0 as u32) << 16) | ((b1 as u32) << 8) | (b2 as u32);
    seq![
        b64_byte(((n >> 18) & 63) as u8),
        b64_byte(((n >> 12) & 63) as u8),
        b64_byte(((n >> 6) & 63) as u8),
        b64_byte((n & 63) as u8),
    ]
}

/// The base64 encoding of a byte sequence, as alphabet bytes with `=`
/// padding.
pub open spec fn b64_encode_s(s: Seq<u8>) -> Seq<u8>
    decreases s.len(),
{
    if s.len() == 0 {
        Seq::empty()
    } else if s.len() == 1 {
        let n = (s[0] as u32) << 16;
        seq![b64_byte(((n >> 18) & 63) as u8), b64_byte(((n >> 12) & 63) as u8), 61u8, 61u8]
    } else if s.len() == 2 {
        let n = ((s[0] as u32) << 16) | ((s[1] as u32) << 8);
        seq![
            b64_byte(((n >> 18) & 63) as u8),
            b64_byte(((n >> 12) & 63) as u8),
            b64_byte(((n >> 6) & 63) as u8),
            61u8,
        ]
    } else {
        enc3(s[0], s[1], s[2]) + b64_encode_s(s.skip(3))
    }
}

/// A base64 decode failure: a length that is not a multiple of four, or a
/// byte outside the alphabet in a non-padding position.
#[derive(Debug, Clone, Copy, PartialEq, Eq, Structural)]
pub enum B64Err {
    Length,
    Alphabet,
}

/// What decoding one group of four bytes yields.  `=` is padding: it is
/// accepted only in the last one or two positions of the final group, where
/// it suppresses the corresponding output bytes; anywhere else it is a
/// non-alphabet character.
pub open spec fn dec4(c0: u8, c1: u8, c2: u8, c3: u8, is_final: bool) -> Result<Seq<u8>, B64Err> {
    match b64_val(c0) {
        None => Err(B64Err::Alphabet),
        Some(v0) => match b64_val(c1) {
            None => Err(B64Err::Alphabet),
            Some(v1) => {
                let w2: u32 = if is_final && c2 == 61 {
                    64
                } else {
                    match b64_val(c2) {
                        None => 255,
                        Some(v) => v as u32,
                    }
                };
                let w3: u32 = if is_final && c3 == 61 {
                    64
                } else {
                    match b64_val(c3) {
                        None => 255,
                        Some(v) => v as u32,
                    }
                };
                if w2 == 255 || w3 == 255 {
                    Err(B64Err::Alphabet)
                } else if w2 == 64 && w3 != 64 {
                    Err(B64Err::Alphabet)
                } else {
                    let n = ((v0 as u32) << 18) | ((v1 as u32) << 12) | ((w2 & 63) << 6) | (w3
                        & 63);
                    let out = seq![((n >> 16) & 255) as u8];
                    let out = if w2 != 64 {
                        out.push(((n >> 8) & 255) as u8)
                    } else {
                        out
                    };
                    if w3 != 64 {
                        Ok(out.push((n & 255) as u8))
                    } else {
                        Ok(out)
                    }
                }
            },
        },
    }
}

/// What decoding a sequence of four-byte groups yields; only the last group
/// may carry padding.
pub open spec fn b64_decode_groups(b: Seq<u8>) -> Result<Seq<u8>, B64Err>
    decreases b.len(),
{
    if b.len() == 0 {
        Ok(Seq::empty())
    } else if b.len() < 4 {
        Err(B64Err::Length)
    } else {
        match dec4(b[0], b[1], b[2], b[3], b.len() == 4) {
            Err(e) => Err(e),
            Ok(part) => match b64_decode_groups(b.skip(4)) {
                Err(e) => Err(e),
                Ok(rest) => Ok(part + rest),
            },
        }
    }
}

/// What decoding a base64 text's bytes yields.
pub open spec fn b64_decode_s(b: Seq<u8>) -> Result<Seq<u8>, B64Err> {
    if b.len() % 4 != 0 {
        Err(B64Err::Length)
    } else {
        b64_decode_groups(b)
    }
}

fn b64_byte_exec(v: u8) -> (c: u8)
    requires
        v < 64,
    ensures
        c == b64_byte(v),
{
    if v < 26 {
        65 + v
    } else if v < 52 {
        97 + (v - 26)
    } else if v < 62 {
        48 + (v - 52)
    } else if v == 62 {
        43
    } else {
        47
    }
}

fn b64_val_exec(c: u8) -> (r: Option<u8>)
    ensures
        r == b64_val(c),
{
    if 65 <= c && c <= 90 {
        Some(c - 65)
    } else if 97 <= c && c <= 122 {
        Some(c - 97 + 26)
    } else if 48 <= c && c <= 57 {
        Some(c - 48 + 52)
    } else if c == 43 {
        Some(62)
    } else if c == 47 {
        Some(63)
    } else {
        None
    }
}

/// Encodes bytes as base64 text.
#[verifier::loop_isolation(false)]
pub fn base64_encode(bytes: &Vec<u8>) -> (r: String)
    ensures
        r@ == chars_of_bytes(b64_encode_s(bytes@)),
{
    let n = bytes.len();
    let mut out: Vec<char> = Vec::new();
    let mut i: usize = 0;
    proof {
        assert(bytes@.skip(0) =~= bytes@);
        assert(out@ =~= chars_of_bytes(Seq::<u8>::empty()));
    }
    while i < n
        invariant
            i <= n,
            chars_of_bytes(b64_encode_s(bytes@)) == out@ + chars_of_bytes(
                b64_encode_s(bytes@.skip(i as int)),
            ),
        decreases n - i,
    {
        let ghost rem = bytes@.skip(i as int);
        let ghost out0 = out@;
        let b0 = bytes[i] as u32;
        let b1 = if i + 1 < n {
            bytes[i + 1] as u32
        } else {
            0
        };
        let b2 = if n - i > 2 {
            bytes[i + 2] as u32
        } else {
            0
        };
        let nn = (b0 << 16) | (b1 << 8) | b2;
        proof {
            assert(rem[0] == bytes@[i as int]);
            if i + 1 < n {
                assert(rem[1] == bytes@[i as int + 1]);
            }
            if i + 2 < n {
                assert(rem[2] == bytes@[i as int + 2]);
            }
            assert((nn >> 18) & 63 < 64 && (nn >> 12) & 63 < 64 && (nn >> 6) & 63 < 64 && nn & 63
                < 64) by (bit_vector);
        }
        let c0 = b64_byte_exec(((nn >> 18) & 63) as u8);
        let c1 = b64_byte_exec(((nn >> 12) & 63) as u8);
        let c2: u8 = if i + 1 < n {
            b64_byte_exec(((nn >> 6) & 63) as u8)
        } else {
            61
        };
        let c3: u8 = if n - i > 2 {
            b64_byte_exec((nn & 63) as u8)
        } else {
            61
        };
        out.push(c0 as char);
        out.push(c1 as char);
        out.push(c2 as char);
        out.push(c3 as char);
        let ghost group = seq![c0, c1, c2, c3];
        let next: usize = if n - i >= 3 {
            i + 3
        } else {
            n
        };
        proof {
            assert(out@ =~= out0 + chars_of_bytes(group));
            let enc_rem = b64_encode_s(rem);
            if rem.len() == 1 {
                assert((b0 << 16) | (0u32 << 8) | 0u32 == b0 << 16) by (bit_vector);
                assert(nn == b0 << 16);
                assert(enc_rem =~= group);
            } else if rem.len() == 2 {
                assert((b0 << 16) | (b1 << 8) | 0u32 == (b0 << 16) | (b1 << 8)) by (bit_vector);
                assert(nn == (b0 << 16) | (b1 << 8));
                assert(enc_rem =~= group);
            } else {
                assert(enc_rem == enc3(rem[0], rem[1], rem[2]) + b64_encode_s(rem.skip(3)));
                assert(enc3(rem[0], rem[1], rem[2]) =~= group);
                assert(rem.skip(3) =~= bytes@.skip(i as int + 3));
            }
            let tail = b64_encode_s(bytes@.skip(next as int));
            if next == n {
                assert(bytes@.skip(next as int).len() == 0);
                assert(tail == Seq::<u8>::empty());
            }
            assert(chars_of_bytes(enc_rem) =~= chars_of_bytes(group) + chars_of_bytes(tail));
            assert(out0 + chars_of_bytes(enc_rem) =~= out@ + chars_of_bytes(tail));
        }
        i = next;
    }
    proof {
        assert(b64_encode_s(bytes@.skip(n as int)) == Seq::<u8>::empty());
        assert(out@ + chars_of_bytes(Seq::<u8>::empty()) =~= out@);
    }
    crate::text::string_of(&out)
}

/// Decodes base64 text to bytes.
#[verifier::loop_isolation(false)]
pub fn base64_decode(s: &str) -> (r: Result<Vec<u8>, B64Err>)
    ensures
        match r {
            Ok(v) => b64_decode_s(vstd::utf8::encode_utf8(s@)) == Ok::<Seq<u8>, B64Err>(v@),
            Err(e) => b64_decode_s(vstd::utf8::encode_utf8(s@)) == Err::<Seq<u8>, B64Err>(e),
        },
{
    let b = s.as_bytes_vec();
    let n = b.len();
    if n % 4 != 0 {
        return Err(B64Err::Length);
    }
    let mut out: Vec<u8> = Vec::new();
    let mut i: usize = 0;
    proof {
        assert(b@.skip(0) =~= b@);
    }
    while i < n
        invariant
            i <= n,
            n % 4 == 0,
            i % 4 == 0,
            b64_decode_groups(b@) == match b64_decode_groups(b@.skip(i as int)) {
                Ok(rest) => Ok::<Seq<u8>, B64Err>(out@ + rest),
                Err(e) => Err::<Seq<u8>, B64Err>(e),
            },
        decreases n - i,
    {
        let ghost rem = b@.skip(i as int);
        let ghost out0 = out@;
        proof {
            assert(rem.len() >= 4);
            assert(rem[0] == b@[i as int] && rem[1] == b@[i as int + 1] && rem[2] == b@[i as int
                + 2] && rem[3] == b@[i as int + 3]);
            assert(rem.skip(4) =~= b@.skip(i as int + 4));
        }
        let v0 = match b64_val_exec(b[i]) {
            Some(v) => v,
            None => {
                return Err(B64Err::Alphabet);
            },
        };
        let v1 = match b64_val_exec(b[i + 1]) {
            Some(v) => v,
            None => {
                return Err(B64Err::Alphabet);
            },
        };
        let fin = i + 4 == n;
        let w2: u32 = if fin && b[i + 2] == 61 {
            64
        } else {
            match b64_val_exec(b[i + 2]) {
                Some(v) => v as u32,
                None => {
                    return Err(B64Err::Alphabet);
                },
            }
        };
        let w3: u32 = if fin && b[i + 3] == 61 {
            64
        } else {
            match b64_val_exec(b[i + 3]) {
                Some(v) => v as u32,
                None => {
                    return Err(B64Err::Alphabet);
                },
            }
        };
        if w2 == 64 && w3 != 64 {
            return Err(B64Err::Alphabet);
        }
        let nn = ((v0 as u32) << 18) | ((v1 as u32) << 12) | ((w2 & 63) << 6) | (w3 & 63);
        proof {
            assert((nn >> 16) & 255 < 256 && (nn >> 8) & 255 < 256 && nn & 255 < 256)
                by (bit_vector);
        }
        out.push(((nn >> 16) & 255) as u8);
        if w2 != 64 {
            out.push(((nn >> 8) & 255) as u8);
        }
        if w3 != 64 {
            out.push((nn & 255) as u8);
        }
        proof {
            match dec4(rem[0], rem[1], rem[2], rem[3], rem.len() == 4) {
                Ok(part) => {
                    assert(out@ =~= out0 + part);
                    match b64_decode_groups(b@.skip(i as int + 4)) {
                        Ok(rest) => {
                            assert(out0 + (part + rest) =~= out@ + rest);
                        },
                        Err(_) => {},
                    }
                },
                Err(_) => {
                    assert(false);
                },
            }
        }
        i = i + 4;
    }
    proof {
        assert(b@.skip(n as int).len() == 0);
        assert(b64_decode_groups(b@.skip(n as int)) == Ok::<Seq<u8>, B64Err>(Seq::empty()));
        assert(out@ + Seq::<u8>::empty() =~= out@);
    }
    Ok(out)
}

/// The alphabet value of an alphabet byte is the value it encodes.
proof fn lemma_b64_val_byte(v: u8)
    requires
        v < 64,
    ensures
        b64_val(b64_byte(v)) == Some(v),
        b64_byte(v) != 61,
{
}

/// The encoding's length is always a multiple of four.
pub proof fn lemma_b64_encode_len(s: Seq<u8>)
    ensures
        b64_encode_s(s).len() % 4 == 0,
    decreases s.len(),
{
    if s.len() >= 3 {
        lemma_b64_encode_len(s.skip(3));
    }
}

/// Decoding one encoded group of three bytes gives the three bytes back,
/// wherever the group stands: its four characters are all in the alphabet.
proof fn lemma_dec4_enc3(b0: u8, b1: u8, b2: u8, is_final: bool)
    ensures
        ({
            let g = enc3(b0, b1, b2);
            dec4(g[0], g[1], g[2], g[3], is_final) == Ok::<Seq<u8>, B64Err>(seq![b0, b1, b2])
        }),
{
    let n = ((b0 as u32) << 16) | ((b1 as u32) << 8) | (b2 as u32);
    let v0 = ((n >> 18) & 63) as u8;
    let v1 = ((n >> 12) & 63) as u8;
    let v2 = ((n >> 6) & 63) as u8;
    let v3 = (n & 63) as u8;
    assert({
        let n2 = ((b0 as u32) << 16) | ((b1 as u32) << 8) | (b2 as u32);
        (n2 >> 18) & 63 < 64 && (n2 >> 12) & 63 < 64 && (n2 >> 6) & 63 < 64 && n2 & 63 < 64
    }) by (bit_vector);
    lemma_b64_val_byte(v0);
    lemma_b64_val_byte(v1);
    lemma_b64_val_byte(v2);
    lemma_b64_val_byte(v3);
    let m = ((v0 as u32) << 18) | ((v1 as u32) << 12) | (((v2 as u32) & 63) << 6) | ((v3 as u32)
        & 63);
    assert({
        let n2 = ((b0 as u32) << 16) | ((b1 as u32) << 8) | (b2 as u32);
        let m2 = (((((n2 >> 18) & 63) as u8) as u32) << 18) | (((((n2 >> 12) & 63) as u8) as u32)
            << 12) | ((((((n2 >> 6) & 63) as u8) as u32) & 63) << 6) | ((((n2 & 63) as u8) as u32)
            & 63);
        (m2 >> 16) & 255 == b0 as u32 && (m2 >> 8) & 255 == b1 as u32 && m2 & 255 == b2 as u32
    }) by (bit_vector);
    assert(seq![((m >> 16) & 255) as u8].push(((m >> 8) & 255) as u8).push((m & 255) as u8)
        =~= seq![b0, b1, b2]);
}

/// Decoding one encoded group of a single byte gives the byte back.
proof fn lemma_dec4_enc1(b0: u8)
    ensures
        ({
            let g = b64_encode_s(seq![b0]);
            dec4(g[0], g[1], g[2], g[3], true) == Ok::<Seq<u8>, B64Err>(seq![b0])
        }),
{
    let n = (b0 as u32) << 16;
    let v0 = ((n >> 18) & 63) as u8;
    let v1 = ((n >> 12) & 63) as u8;
    assert({
        let n2 = (b0 as u32) << 16;
        (n2 >> 18) & 63 < 64 && (n2 >> 12) & 63 < 64
    }) by (bit_vector);
    lemma_b64_val_byte(v0);
    lemma_b64_val_byte(v1);
    let m = ((v0 as u32) << 18) | ((v1 as u32) << 12) | ((64u32 & 63) << 6) | (64u32 & 63);
    assert({
        let n2 = (b0 as u32) << 16;
        let m2 = (((((n2 >> 18) & 63) as u8) as u32) << 18) | (((((n2 >> 12) & 63) as u8) as u32)
            << 12) | ((64u32 & 63) << 6) | (64u32 & 63);
        (m2 >> 16) & 255 == b0 as u32
    }) by (bit_vector);
    assert(seq![((m >> 16) & 255) as u8] =~= seq![b0]);
}

/// Decoding one encoded group of two bytes gives the two bytes back.
proof fn lemma_dec4_enc2(b0: u8, b1: u8)
    ensures
        ({
            let g = b64_encode_s(seq![b0, b1]);
            dec4(g[0], g[1], g[2], g[3], true) == Ok::<Seq<u8>, B64Err>(seq![b0, b1])
        }),
{
    let n = ((b0 as u32) << 16) | ((b1 as u32) << 8);
    let v0 = ((n >> 18) & 63) as u8;
    let v1 = ((n >> 12) & 63) as u8;
    let v2 = ((n >> 6) & 63) as u8;
    assert({
        let n2 = ((b0 as u32) << 16) | ((b1 as u32) << 8);
        (n2 >> 18) & 63 < 64 && (n2 >> 12) & 63 < 64 && (n2 >> 6) & 63 < 64
    }) by (bit_vector);
    lemma_b64_val_byte(v0);
    lemma_b64_val_byte(v1);
    lemma_b64_val_byte(v2);
    let m = ((v0 as u32) << 18) | ((v1 as u32) << 12) | (((v2 as u32) & 63) << 6) | (64u32 & 63);
    assert({
        let n2 = ((b0 as u32) << 16) | ((b1 as u32) << 8);
        let m2 = (((((n2 >> 18) & 63) as u8) as u32) << 18) | (((((n2 >> 12) & 63) as u8) as u32)
            << 12) | ((((((n2 >> 6) & 63) as u8) as u32) & 63) << 6) | (64u32 & 63);
        (m2 >> 16) & 255 == b0 as u32 && (m2 >> 8) & 255 == b1 as u32
    }) by (bit_vector);
    assert(seq![((m >> 16) & 255) as u8].push(((m >> 8) & 255) as u8) =~= seq![b0, b1]);
}

/// Decoding the base64 encoding of any byte sequence gives the sequence back.
pub proof fn lemma_b64_roundtrip(s: Seq<u8>)
    ensures
        b64_decode_s(b64_encode_s(s)) == Ok::<Seq<u8>, B64Err>(s),
    decreases s.len(),
{
    lemma_b64_encode_len(s);
    lemma_b64_groups_roundtrip(s);
}

proof fn lemma_b64_groups_roundtrip(s: Seq<u8>)
    ensures
        b64_decode_groups(b64_encode_s(s)) == Ok::<Seq<u8>, B64Err>(s),
    decreases s.len(),
{
    let e = b64_encode_s(s);
    if s.len() == 0 {
        assert(e.len() == 0);
        assert(s =~= Seq::<u8>::empty());
    } else if s.len() == 1 {
        assert(s =~= seq![s[0]]);
        lemma_dec4_enc1(s[0]);
        assert(e.len() == 4);
        assert(dec4(e[0], e[1], e[2], e[3], true) == Ok::<Seq<u8>, B64Err>(seq![s[0]]));
        assert(e.skip(4) =~= Seq::<u8>::empty());
        assert(b64_decode_groups(e.skip(4)) == Ok::<Seq<u8>, B64Err>(Seq::empty()));
        assert(b64_decode_groups(e) == Ok::<Seq<u8>, B64Err>(seq![s[0]] + Seq::<u8>::empty()));
        assert(seq![s[0]] + Seq::<u8>::empty() =~= s);
    } else if s.len() == 2 {
        assert(s =~= seq![s[0], s[1]]);
        lemma_dec4_enc2(s[0], s[1]);
        assert(e.len() == 4);
        assert(dec4(e[0], e[1], e[2], e[3], true) == Ok::<Seq<u8>, B64Err>(seq![s[0], s[1]]));
        assert(e.skip(4) =~= Seq::<u8>::empty());
        assert(b64_decode_groups(e.skip(4)) == Ok::<Seq<u8>, B64Err>(Seq::empty()));
        assert(b64_decode_groups(e) == Ok::<Seq<u8>, B64Err>(seq![s[0], s[1]]
            + Seq::<u8>::empty()));
        assert(seq![s[0], s[1]] + Seq::<u8>::empty() =~= s);
    } else {
        lemma_b64_groups_roundtrip(s.skip(3));
        let g = enc3(s[0], s[1], s[2]);
        assert(g.len() == 4);
        assert(e == g + b64_encode_s(s.skip(3)));
        assert(e.len() >= 4);
        lemma_dec4_enc3(s[0], s[1], s[2], e.len() == 4);
        assert(e[0] == g[0] && e[1] == g[1] && e[2] == g[2] && e[3] == g[3]);
        assert(dec4(e[0], e[1], e[2], e[3], e.len() == 4) == Ok::<Seq<u8>, B64Err>(seq![s[0],
            s[1], s[2]]));
        assert(e.skip(4) =~= b64_encode_s(s.skip(3)));
        assert(b64_decode_groups(e) == Ok::<Seq<u8>, B64Err>(seq![s[0], s[1], s[2]]
            + s.skip(3)));
        assert(seq![s[0], s[1], s[2]] + s.skip(3) =~= s);
    }
}

/// The UTF-8 encoding of characters read from bytes below 128 is those bytes.
pub proof fn lemma_ascii_chars_bytes(e: Seq<u8>)
    requires
        forall|i: int| 0 <= i < e.len() ==> e[i] < 128,
    ensures
        vstd::utf8::encode_utf8(chars_of_bytes(e)) == e,
{
    let cs = chars_of_bytes(e);
    assert forall|i: int| 0 <= i < cs.len() implies (#[trigger] cs[i] as u32) < 128 by {
        assert(cs[i] == e[i] as char);
        let b = e[i];
        assert(((b as char) as u32) < 128 && ((b as char) as u32) == b as u32);
    }
    assert(vstd::utf8::is_ascii_chars(cs));
    vstd::utf8::is_ascii_chars_encode_utf8(cs);
    assert(vstd::utf8::encode_utf8(cs) =~= e) by {
        assert forall|i: int| 0 <= i < e.len() implies vstd::utf8::encode_utf8(cs)[i] == e[i] by {
            assert(vstd::utf8::encode_utf8(cs)[i] == cs[i] as u8);
            let b = e[i];
            assert(((b as char) as u8) == b);
        }
    }
}

/// Every byte of an encoding is in the alphabet or padding, hence below 128.
pub proof fn lemma_b64_encode_ascii(s: Seq<u8>)
    ensures
        forall|i: int| 0 <= i < b64_encode_s(s).len() ==> b64_encode_s(s)[i] < 128,
    decreases s.len(),
{
    if s.len() >= 3 {
        lemma_b64_encode_ascii(s.skip(3));
        let e = b64_encode_s(s);
        let g = enc3(s[0], s[1], s[2]);
        assert forall|i: int| 0 <= i < e.len() implies e[i] < 128 by {
            if i < 4 {
                assert(e[i] == g[i]);
            } else {
                assert(e[i] == b64_encode_s(s.skip(3))[i - 4]);
            }
        }
    }
}

} // verus!

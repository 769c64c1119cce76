//! Standard base64 (RFC 4648 alphabet, `=` padding), in which frame data
//! is written in JSON, through the `base64` crate's STANDARD engine. The
//! format is stated here as spec functions; decoding takes exactly the
//! texts that encoding produces.

use vstd::prelude::*;

use base64::Engine;

verus! {

/// The base64 character for a six-bit value.
pub open spec fn b64_char(v: int) -> char {
    if v < 26 {
        (('A' as int) + v) as char
    } else if v < 52 {
        (('a' as int) + v - 26) as char
    } else if v < 62 {
        (('0' as int) + v - 52) as char
    } else if v == 62 {
        '+'
    } else {
        '/'
    }
}

/// The six-bit value of a base64 character.
pub open spec fn b64_value(c: char) -> Option<int> {
    if 'A' <= c && c <= 'Z' {
        Some(c as int - 'A' as int)
    } else if 'a' <= c && c <= 'z' {
        Some(c as int - 'a' as int + 26)
    } else if '0' <= c && c <= '9' {
        Some(c as int - '0' as int + 52)
    } else if c == '+' {
        Some(62)
    } else if c == '/' {
        Some(63)
    } else {
        None
    }
}

/// The four characters for three bytes.
pub open spec fn encode_group(b0: int, b1: int, b2: int) -> Seq<char> {
    seq![
        b64_char(b0 / 4),
        b64_char((b0 % 4) * 16 + b1 / 16),
        b64_char((b1 % 16) * 4 + b2 / 64),
        b64_char(b2 % 64),
    ]
}

/// The base64 text of `b`: four characters for each three bytes, the last
/// one or two bytes padded with `=`.
pub open spec fn b64_encode(b: Seq<u8>) -> Seq<char>
    decreases b.len(),
{
    if b.len() == 0 {
        Seq::empty()
    } else if b.len() == 1 {
        seq![b64_char((b[0] as int) / 4), b64_char(((b[0] as int) % 4) * 16), '=', '=']
    } else if b.len() == 2 {
        seq![
            b64_char((b[0] as int) / 4),
            b64_char(((b[0] as int) % 4) * 16 + (b[1] as int) / 16),
            b64_char(((b[1] as int) % 16) * 4),
            '=',
        ]
    } else {
        encode_group(b[0] as int, b[1] as int, b[2] as int) + b64_encode(b.skip(3))
    }
}

/// The three bytes four base64 characters stand for.
pub open spec fn decode_group(a: char, b: char, c: char, d: char) -> Option<Seq<u8>> {
    match (b64_value(a), b64_value(b), b64_value(c), b64_value(d)) {
        (Some(va), Some(vb), Some(vc), Some(vd)) => Some(
            seq![
                (va * 4 + vb / 16) as u8,
                ((vb % 16) * 16 + vc / 4) as u8,
                ((vc % 4) * 64 + vd) as u8,
            ],
        ),
        _ => None,
    }
}

/// The bytes the last four characters stand for, with their padding; the
/// bits the padding leaves over must be zero.
pub open spec fn decode_last(a: char, b: char, c: char, d: char) -> Option<Seq<u8>> {
    if c == '=' && d == '=' {
        match (b64_value(a), b64_value(b)) {
            (Some(va), Some(vb)) => if vb % 16 == 0 {
                Some(seq![(va * 4 + vb / 16) as u8])
            } else {
                None
            },
            _ => None,
        }
    } else if d == '=' {
        match (b64_value(a), b64_value(b), b64_value(c)) {
            (Some(va), Some(vb), Some(vc)) => if vc % 4 == 0 {
                Some(seq![(va * 4 + vb / 16) as u8, ((vb % 16) * 16 + vc / 4) as u8])
            } else {
                None
            },
            _ => None,
        }
    } else {
        decode_group(a, b, c, d)
    }
}

/// The bytes a base64 text stands for, if it is the encoding of some
/// bytes.
pub open spec fn b64_decode(s: Seq<char>) -> Option<Seq<u8>>
    decreases s.len(),
{
    if s.len() == 0 {
        Some(Seq::empty())
    } else if s.len() < 4 || s.len() % 4 != 0 {
        None
    } else if s.len() == 4 {
        decode_last(s[0], s[1], s[2], s[3])
    } else {
        match decode_group(s[0], s[1], s[2], s[3]) {
            None => None,
            Some(g) => match b64_decode(s.skip(4)) {
                None => None,
                Some(rest) => Some(g + rest),
            },
        }
    }
}

proof fn lemma_char_value(v: int)
    requires
        0 <= v < 64,
    ensures
        b64_value(b64_char(v)) == Some(v),
{
}

proof fn lemma_value_char(c: char)
    requires
        b64_value(c) is Some,
    ensures
        b64_char(b64_value(c)->0) == c,
        0 <= b64_value(c)->0 < 64,
{
}

proof fn lemma_encode_len(b: Seq<u8>)
    ensures
        b64_encode(b).len() == 4 * ((b.len() + 2) / 3),
    decreases b.len(),
{
    if b.len() >= 3 {
        lemma_encode_len(b.skip(3));
    }
}

/// Splitting three bytes into four six-bit values and joining them again.
proof fn lemma_join(b0: int, b1: int, b2: int)
    requires
        0 <= b0 < 256,
        0 <= b1 < 256,
        0 <= b2 < 256,
    ensures
        0 <= b0 / 4 < 64,
        0 <= (b0 % 4) * 16 + b1 / 16 < 64,
        0 <= (b1 % 16) * 4 + b2 / 64 < 64,
        0 <= b2 % 64 < 64,
        (b0 / 4) * 4 + ((b0 % 4) * 16 + b1 / 16) / 16 == b0,
        (((b0 % 4) * 16 + b1 / 16) % 16) * 16 + ((b1 % 16) * 4 + b2 / 64) / 4 == b1,
        (((b1 % 16) * 4 + b2 / 64) % 4) * 64 + b2 % 64 == b2,
        ((b1 % 16) * 4) % 4 == 0,
        ((b0 % 4) * 16) % 16 == 0,
{
}

/// Joining four six-bit values into three bytes and splitting them again.
proof fn lemma_split(va: int, vb: int, vc: int, vd: int)
    requires
        0 <= va < 64,
        0 <= vb < 64,
        0 <= vc < 64,
        0 <= vd < 64,
    ensures
        0 <= va * 4 + vb / 16 < 256,
        0 <= (vb % 16) * 16 + vc / 4 < 256,
        0 <= (vc % 4) * 64 + vd < 256,
        (va * 4 + vb / 16) / 4 == va,
        ((va * 4 + vb / 16) % 4) * 16 + ((vb % 16) * 16 + vc / 4) / 16 == vb,
        (((vb % 16) * 16 + vc / 4) % 16) * 4 + ((vc % 4) * 64 + vd) / 64 == vc,
        ((vc % 4) * 64 + vd) % 64 == vd,
        vb % 16 == 0 ==> ((va * 4 + vb / 16) % 4) * 16 == vb,
        vc % 4 == 0 ==> (((vb % 16) * 16 + vc / 4) % 16) * 4 == vc,
{
}

proof fn lemma_group_roundtrip(b0: u8, b1: u8, b2: u8)
    ensures
        ({
            let e = encode_group(b0 as int, b1 as int, b2 as int);
            decode_group(e[0], e[1], e[2], e[3]) == Some(seq![b0, b1, b2])
        }),
{
    lemma_join(b0 as int, b1 as int, b2 as int);
    let (x0, x1, x2) = (b0 as int, b1 as int, b2 as int);
    lemma_char_value(x0 / 4);
    lemma_char_value((x0 % 4) * 16 + x1 / 16);
    lemma_char_value((x1 % 16) * 4 + x2 / 64);
    lemma_char_value(x2 % 64);
    let e = encode_group(b0 as int, b1 as int, b2 as int);
    assert(decode_group(e[0], e[1], e[2], e[3])->0 =~= seq![b0, b1, b2]);
}

/// Decoding the encoding of bytes gives the bytes back.
pub proof fn lemma_decode_encode(b: Seq<u8>)
    ensures
        b64_decode(b64_encode(b)) == Some(b),
    decreases b.len(),
{
    if b.len() == 0 {
    } else if b.len() == 1 {
        lemma_join(b[0] as int, 0, 0);
        lemma_char_value((b[0] as int) / 4);
        lemma_char_value(((b[0] as int) % 4) * 16);
        assert(b64_decode(b64_encode(b))->0 =~= b);
    } else if b.len() == 2 {
        lemma_join(b[0] as int, b[1] as int, 0);
        lemma_char_value((b[0] as int) / 4);
        lemma_char_value(((b[0] as int) % 4) * 16 + (b[1] as int) / 16);
        lemma_char_value(((b[1] as int) % 16) * 4);
        assert(b64_decode(b64_encode(b))->0 =~= b);
    } else {
        let e = b64_encode(b);
        let rest = b.skip(3);
        let g = encode_group(b[0] as int, b[1] as int, b[2] as int);
        lemma_decode_encode(rest);
        lemma_encode_len(rest);
        lemma_group_roundtrip(b[0], b[1], b[2]);
        assert(e =~= g + b64_encode(rest));
        assert(e.skip(4) =~= b64_encode(rest));
        assert(e[0] == g[0] && e[1] == g[1] && e[2] == g[2] && e[3] == g[3]);
        if rest.len() == 0 {
            assert(b64_decode(e)->0 =~= b);
        } else {
            assert(b64_decode(e)->0 =~= seq![b[0], b[1], b[2]] + rest);
            assert(seq![b[0], b[1], b[2]] + rest =~= b);
        }
    }
}

/// A text that decodes is the encoding of what it decodes to: decoding
/// takes no text that encoding does not produce.
pub proof fn lemma_encode_decode(s: Seq<char>)
    requires
        b64_decode(s) is Some,
    ensures
        b64_encode(b64_decode(s)->0) == s,
    decreases s.len(),
{
    if s.len() == 0 {
        assert(b64_decode(s)->0 =~= Seq::<u8>::empty());
    } else if s.len() == 4 {
        let d = b64_decode(s)->0;
        lemma_value_char(s[0]);
        lemma_value_char(s[1]);
        if s[2] == '=' && s[3] == '=' {
            let va = b64_value(s[0])->0;
            let vb = b64_value(s[1])->0;
            lemma_split(va, vb, 0, 0);
            assert(d.len() == 1);
            assert(b64_encode(d) =~= s);
        } else if s[3] == '=' {
            lemma_value_char(s[2]);
            let va = b64_value(s[0])->0;
            let vb = b64_value(s[1])->0;
            let vc = b64_value(s[2])->0;
            lemma_split(va, vb, vc, 0);
            assert(d.len() == 2);
            assert(b64_encode(d) =~= s);
        } else {
            lemma_value_char(s[2]);
            lemma_value_char(s[3]);
            let va = b64_value(s[0])->0;
            let vb = b64_value(s[1])->0;
            let vc = b64_value(s[2])->0;
            let vd = b64_value(s[3])->0;
            lemma_split(va, vb, vc, vd);
            assert(d.len() == 3);
            assert(d.skip(3) =~= Seq::<u8>::empty());
            assert(b64_encode(d.skip(3)) =~= Seq::<char>::empty());
            assert(d[0] as int == va * 4 + vb / 16);
            assert(d[1] as int == (vb % 16) * 16 + vc / 4);
            assert(d[2] as int == (vc % 4) * 64 + vd);
            let g = encode_group(d[0] as int, d[1] as int, d[2] as int);
            assert(g =~= s);
            assert(b64_encode(d) =~= g + b64_encode(d.skip(3)));
            assert(b64_encode(d) =~= s);
        }
    } else {
        let g = decode_group(s[0], s[1], s[2], s[3])->0;
        let rest = b64_decode(s.skip(4))->0;
        lemma_encode_decode(s.skip(4));
        lemma_value_char(s[0]);
        lemma_value_char(s[1]);
        lemma_value_char(s[2]);
        lemma_value_char(s[3]);
        lemma_split(
            b64_value(s[0])->0,
            b64_value(s[1])->0,
            b64_value(s[2])->0,
            b64_value(s[3])->0,
        );
        let d = g + rest;
        assert(d.skip(3) =~= rest);
        assert(s.skip(4).len() >= 4);
        assert(rest.len() > 0) by {
            if rest.len() == 0 {
                assert(b64_encode(rest) =~= Seq::<char>::empty());
            }
        }
        assert(b64_encode(d) =~= encode_group(d[0] as int, d[1] as int, d[2] as int)
            + b64_encode(rest));
        assert(b64_encode(d) =~= s);
    }
}

#[verifier::external_type_specification]
#[verifier::external_body]
pub struct ExDecodeError(base64::DecodeError);

/// Encodes through `base64::engine::general_purpose::STANDARD.encode`
/// (standard alphabet, `=` padding). The claim: the text is `b64_encode`
/// of the bytes. `encode` panics only when the text's length overflows
/// `usize`, which no slice of at most `isize::MAX` bytes reaches.
#[verifier::external_body]
fn standard_encode(data: &[u8]) -> (r: String)
    requires
        data@.len() <= isize::MAX,
    ensures
        r@ == b64_encode(data@),
{
    base64::engine::general_purpose::STANDARD.encode(data)
}

/// Decodes through `base64::engine::general_purpose::STANDARD.decode`,
/// which requires canonical padding and zero trailing bits. The claim: it
/// succeeds exactly on the texts `b64_decode` accepts, with their bytes.
/// Which `DecodeError` a refused text gives is left unsaid.
#[verifier::external_body]
fn standard_decode(text: &str) -> (r: Result<Vec<u8>, base64::DecodeError>)
    ensures
        match b64_decode(text@) {
            Some(b) => r matches Ok(v) && v@ == b,
            None => r is Err,
        },
{
    base64::engine::general_purpose::STANDARD.decode(text)
}

/// The base64 text of `data`.
pub fn encode(data: &[u8]) -> (r: String)
    requires
        data@.len() <= isize::MAX,
    ensures
        r@ == b64_encode(data@),
{
    standard_encode(data)
}

/// The bytes a base64 text stands for; `None` when it is not the encoding
/// of any bytes (a length that is not a multiple of four, a character
/// outside the alphabet, misplaced padding, or padding bits that are not
/// zero).
pub fn decode(s: &str) -> (r: Option<Vec<u8>>)
    ensures
        match b64_decode(s@) {
            Some(b) => r matches Some(v) && v@ == b,
            None => r is None,
        },
{
    match standard_decode(s) {
        Ok(v) => Some(v),
        Err(_) => None,
    }
}

} // verus!

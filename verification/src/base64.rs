//! URL-safe base64 without padding — invite codes carry the inviter's URL
//! this way, so the joiner only ever needs the code itself.

use vstd::prelude::*;
use vstd::utf8::{decode_utf8, valid_utf8};
use crate::text::{push_char, text_bytes};

verus! {

broadcast use vstd::utf8::encode_utf8_decode_utf8, vstd::utf8::encode_utf8_valid_utf8;

/// The alphabet: `A–Z a–z 0–9 - _`, as byte codes, for a 6-bit digit.
pub open spec fn b64_code(d: u8) -> u8 {
    if d < 26 {
        (65 + d) as u8
    } else if d < 52 {
        (97 + (d - 26)) as u8
    } else if d < 62 {
        (48 + (d - 52)) as u8
    } else if d == 62 {
        45u8
    } else {
        95u8
    }
}

/// The 6-bit value of an input byte: its position in the alphabet, `=` as 0,
/// anything else refused.
pub open spec fn digit_value(c: u8) -> Option<u8> {
    if 65 <= c && c <= 90 {
        Some((c - 65) as u8)
    } else if 97 <= c && c <= 122 {
        Some((c - 97 + 26) as u8)
    } else if 48 <= c && c <= 57 {
        Some((c - 48 + 52) as u8)
    } else if c == 45 {
        Some(62u8)
    } else if c == 95 {
        Some(63u8)
    } else if c == 61 {
        Some(0u8)
    } else {
        None
    }
}

/// Encode one chunk of one to three bytes (missing bytes read as 0; a chunk
/// of n bytes gives n + 1 digits).
pub open spec fn enc_chunk(c: Seq<u8>) -> Seq<u8> {
    let b0 = c[0];
    let b1 = if c.len() > 1 { c[1] } else { 0u8 };
    let b2 = if c.len() > 2 { c[2] } else { 0u8 };
    seq![b64_code(b0 >> 2), b64_code(((b0 & 3u8) << 4u8) | (b1 >> 4u8))] + (if c.len() > 1 {
        seq![b64_code(((b1 & 15u8) << 2u8) | (b2 >> 6u8))]
    } else {
        Seq::empty()
    }) + (if c.len() > 2 {
        seq![b64_code(b2 & 63u8)]
    } else {
        Seq::empty()
    })
}

/// Encode bytes, three at a time.
pub open spec fn enc(b: Seq<u8>) -> Seq<u8>
    decreases b.len(),
{
    if b.len() == 0 {
        Seq::empty()
    } else {
        let n = if b.len() < 3 { b.len() as int } else { 3 };
        enc_chunk(b.take(n)) + enc(b.skip(n))
    }
}

/// The digit at position `i` of a group (absent positions read as 0).
pub open spec fn group_digit(g: Seq<u8>, i: int) -> Option<u8> {
    if i < g.len() { digit_value(g[i]) } else { Some(0u8) }
}

/// Decode one group of one to four input bytes.
pub open spec fn dec_group(g: Seq<u8>) -> Option<Seq<u8>> {
    match (group_digit(g, 0), group_digit(g, 1), group_digit(g, 2), group_digit(g, 3)) {
        (Some(c0), Some(c1), Some(c2), Some(c3)) => Some(
            seq![(c0 << 2u8) | (c1 >> 4u8)] + (if g.len() > 2 {
                seq![(c1 << 4u8) | (c2 >> 2u8)]
            } else {
                Seq::empty()
            }) + (if g.len() > 3 {
                seq![(c2 << 6u8) | c3]
            } else {
                Seq::empty()
            }),
        ),
        _ => None,
    }
}

/// Decode input bytes, four at a time; any byte outside the alphabet
/// refuses the whole input.
pub open spec fn dec(b: Seq<u8>) -> Option<Seq<u8>>
    decreases b.len(),
{
    if b.len() == 0 {
        Some(Seq::empty())
    } else {
        let n = if b.len() < 4 { b.len() as int } else { 4 };
        match (dec_group(b.take(n)), dec(b.skip(n))) {
            (Some(x), Some(y)) => Some(x + y),
            _ => None,
        }
    }
}

/// The characters of a run of ASCII codes.
pub open spec fn ascii_chars(b: Seq<u8>) -> Seq<char> {
    b.map_values(|x: u8| x as char)
}

/// What [`b64url_encode`] returns for a text.
pub open spec fn b64url_encode_spec(s: Seq<char>) -> Seq<char> {
    ascii_chars(enc(text_bytes(s)))
}

/// What [`b64url_decode`] returns for a text.
pub open spec fn b64url_decode_spec(s: Seq<char>) -> Option<Seq<char>> {
    match dec(text_bytes(s)) {
        Some(b) => if valid_utf8(b) { Some(decode_utf8(b)) } else { None },
        None => None,
    }
}

fn code_exec(d: u8) -> (c: u8)
    requires
        d < 64,
    ensures
        c == b64_code(d),
{
    if d < 26 {
        65 + d
    } else if d < 52 {
        97 + (d - 26)
    } else if d < 62 {
        48 + (d - 52)
    } else if d == 62 {
        45
    } else {
        95
    }
}

fn digit_exec(c: u8) -> (r: Option<u8>)
    ensures
        r == digit_value(c),
{
    if 65 <= c && c <= 90 {
        Some(c - 65)
    } else if 97 <= c && c <= 122 {
        Some(c - 97 + 26)
    } else if 48 <= c && c <= 57 {
        Some(c - 48 + 52)
    } else if c == 45 {
        Some(62)
    } else if c == 95 {
        Some(63)
    } else if c == 61 {
        Some(0)
    } else {
        None
    }
}

proof fn lemma_digits_small(b0: u8, b1: u8, b2: u8)
    ensures
        b0 >> 2u8 < 64,
        ((b0 & 3u8) << 4u8) | (b1 >> 4u8) < 64,
        ((b1 & 15u8) << 2u8) | (b2 >> 6u8) < 64,
        b2 & 63u8 < 64,
{
    assert(b0 >> 2u8 < 64) by (bit_vector);
    assert(((b0 & 3u8) << 4u8) | (b1 >> 4u8) < 64) by (bit_vector);
    assert(((b1 & 15u8) << 2u8) | (b2 >> 6u8) < 64) by (bit_vector);
    assert(b2 & 63u8 < 64) by (bit_vector);
}

/// URL-safe base64 (no padding) encode.
pub fn b64url_encode(input: &str) -> (r: String)
    ensures
        r@ == b64url_encode_spec(input@),
{
    let bytes = input.as_bytes();
    let ghost b = bytes@;
    let n = bytes.len();
    let mut out = String::new();
    let mut i: usize = 0;
    proof {
        assert(b.skip(0) =~= b);
        assert(ascii_chars(enc(b)) =~= out@ + ascii_chars(enc(b.skip(0))));
    }
    while i < n
        invariant
            b == bytes@,
            b == text_bytes(input@),
            n == b.len(),
            0 <= i <= n,
            ascii_chars(enc(b)) == out@ + ascii_chars(enc(b.skip(i as int))),
        decreases n - i,
    {
        let left = n - i;
        let len: usize = if left < 3 { left } else { 3 };
        let b0 = bytes[i];
        let b1: u8 = if len > 1 { bytes[i + 1] } else { 0 };
        let b2: u8 = if len > 2 { bytes[i + 2] } else { 0 };
        let ghost rest = b.skip(i as int);
        let ghost chunk = rest.take(len as int);
        proof {
            lemma_digits_small(b0, b1, b2);
            assert(chunk[0] == b0);
            if len > 1 {
                assert(chunk[1] == b1);
            }
            if len > 2 {
                assert(chunk[2] == b2);
            }
            assert(rest.skip(len as int) =~= b.skip(i + len));
            assert(enc(rest) == enc_chunk(chunk) + enc(rest.skip(len as int)));
        }
        let ghost before = out@;
        push_char(&mut out, code_exec(b0 >> 2) as char);
        push_char(&mut out, code_exec(((b0 & 3) << 4) | (b1 >> 4)) as char);
        if len > 1 {
            push_char(&mut out, code_exec(((b1 & 15) << 2) | (b2 >> 6)) as char);
        }
        if len > 2 {
            push_char(&mut out, code_exec(b2 & 63) as char);
        }
        proof {
            assert(out@ =~= before + ascii_chars(enc_chunk(chunk)));
            assert(ascii_chars(enc_chunk(chunk) + enc(b.skip(i + len))) =~= ascii_chars(enc_chunk(chunk))
                + ascii_chars(enc(b.skip(i + len))));
        }
        i = i + len;
    }
    proof {
        assert(b.skip(n as int).len() == 0);
        assert(ascii_chars(enc(b.skip(n as int))) =~= Seq::<char>::empty());
        assert(out@ + Seq::<char>::empty() =~= out@);
    }
    out
}

/// `String::from_utf8(bytes).ok()`: the text whose UTF-8 encoding is
/// `bytes`, or `None` when `bytes` is not valid UTF-8 (std's documented
/// behaviour).
#[verifier::external_body]
fn text_from_utf8(bytes: Vec<u8>) -> (r: Option<String>)
    ensures
        r is Some <==> valid_utf8(bytes@),
        r matches Some(s) ==> s@ == decode_utf8(bytes@),
{
    String::from_utf8(bytes).ok()
}

/// URL-safe base64 (no padding) decode; `None` when a byte is outside the
/// alphabet or the decoded bytes are not UTF-8.
pub fn b64url_decode(input: &str) -> (r: Option<String>)
    ensures
        match r {
            Some(s) => b64url_decode_spec(input@) == Some(s@),
            None => b64url_decode_spec(input@) is None,
        },
{
    let bytes = input.as_bytes();
    let ghost b = bytes@;
    let n = bytes.len();
    let mut buf: Vec<u8> = Vec::new();
    let mut i: usize = 0;
    proof {
        assert(b.skip(0) =~= b);
    }
    while i < n
        invariant
            b == bytes@,
            b == text_bytes(input@),
            n == b.len(),
            0 <= i <= n,
            dec(b) == (match dec(b.skip(i as int)) {
                Some(y) => Some(buf@ + y),
                None => None::<Seq<u8>>,
            }),
        decreases n - i,
    {
        let left = n - i;
        let len: usize = if left < 4 { left } else { 4 };
        let ghost rest = b.skip(i as int);
        let ghost g = rest.take(len as int);
        proof {
            assert(rest.skip(len as int) =~= b.skip(i + len));
        }
        let c0 = digit_exec(bytes[i]);
        let c1 = if len > 1 { digit_exec(bytes[i + 1]) } else { Some(0) };
        let c2 = if len > 2 { digit_exec(bytes[i + 2]) } else { Some(0) };
        let c3 = if len > 3 { digit_exec(bytes[i + 3]) } else { Some(0) };
        proof {
            assert(g[0] == bytes@[i as int]);
            if len > 1 {
                assert(g[1] == bytes@[i + 1]);
            }
            if len > 2 {
                assert(g[2] == bytes@[i + 2]);
            }
            if len > 3 {
                assert(g[3] == bytes@[i + 3]);
            }
            assert(c0 == group_digit(g, 0));
            assert(c1 == group_digit(g, 1));
            assert(c2 == group_digit(g, 2));
            assert(c3 == group_digit(g, 3));
        }
        match (c0, c1, c2, c3) {
            (Some(d0), Some(d1), Some(d2), Some(d3)) => {
                let ghost before = buf@;
                buf.push((d0 << 2) | (d1 >> 4));
                if len > 2 {
                    buf.push((d1 << 4) | (d2 >> 2));
                }
                if len > 3 {
                    buf.push((d2 << 6) | d3);
                }
                proof {
                    let x = dec_group(g).unwrap();
                    assert(buf@ =~= before + x);
                    match dec(b.skip(i + len)) {
                        Some(y) => {
                            assert(before + (x + y) =~= buf@ + y);
                        },
                        None => {},
                    }
                }
            },
            _ => {
                proof {
                    assert(dec_group(g) is None);
                }
                return None;
            },
        }
        i = i + len;
    }
    proof {
        assert(b.skip(n as int).len() == 0);
        assert(buf@ + Seq::<u8>::empty() =~= buf@);
    }
    text_from_utf8(buf)
}

proof fn lemma_chunk_roundtrip(b0: u8, b1: u8, b2: u8)
    ensures
        ((b0 >> 2u8) << 2u8) | ((((b0 & 3u8) << 4u8) | (b1 >> 4u8)) >> 4u8) == b0,
        ((((b0 & 3u8) << 4u8) | (b1 >> 4u8)) << 4u8) | ((((b1 & 15u8) << 2u8) | (b2 >> 6u8)) >> 2u8) == b1,
        ((((b1 & 15u8) << 2u8) | (b2 >> 6u8)) << 6u8) | (b2 & 63u8) == b2,
{
    assert(((b0 >> 2u8) << 2u8) | ((((b0 & 3u8) << 4u8) | (b1 >> 4u8)) >> 4u8) == b0) by (bit_vector);
    assert(((((b0 & 3u8) << 4u8) | (b1 >> 4u8)) << 4u8) | ((((b1 & 15u8) << 2u8) | (b2 >> 6u8)) >> 2u8) == b1) by (bit_vector);
    assert(((((b1 & 15u8) << 2u8) | (b2 >> 6u8)) << 6u8) | (b2 & 63u8) == b2) by (bit_vector);
}

proof fn lemma_digit_of_code(d: u8)
    requires
        d < 64,
    ensures
        digit_value(b64_code(d)) == Some(d),
{
}

proof fn lemma_group_of_chunk(c: Seq<u8>)
    requires
        1 <= c.len() <= 3,
    ensures
        enc_chunk(c).len() == c.len() + 1,
        dec_group(enc_chunk(c)) == Some(c),
{
    let b0 = c[0];
    let b1 = if c.len() > 1 { c[1] } else { 0u8 };
    let b2 = if c.len() > 2 { c[2] } else { 0u8 };
    lemma_digits_small(b0, b1, b2);
    lemma_chunk_roundtrip(b0, b1, b2);
    let d0 = b0 >> 2u8;
    let d1 = ((b0 & 3u8) << 4u8) | (b1 >> 4u8);
    let d2 = ((b1 & 15u8) << 2u8) | (b2 >> 6u8);
    let d3 = b2 & 63u8;
    lemma_digit_of_code(d0);
    lemma_digit_of_code(d1);
    lemma_digit_of_code(d2);
    lemma_digit_of_code(d3);
    let g = enc_chunk(c);
    assert(g[0] == b64_code(d0));
    assert(g[1] == b64_code(d1));
    if c.len() > 1 {
        assert(g[2] == b64_code(d2));
    }
    if c.len() > 2 {
        assert(g[3] == b64_code(d3));
    }
    let x = dec_group(g).unwrap();
    assert(x =~= c);
}

/// Law: decoding an encoding gives back the bytes.
pub proof fn law_b64_bytes_roundtrip(b: Seq<u8>)
    ensures
        dec(enc(b)) == Some(b),
    decreases b.len(),
{
    if b.len() > 0 {
        let n = if b.len() < 3 { b.len() as int } else { 3 };
        let c = b.take(n);
        lemma_group_of_chunk(c);
        law_b64_bytes_roundtrip(b.skip(n));
        let e = enc(b);
        let ch = enc_chunk(c);
        assert(e == ch + enc(b.skip(n)));
        let m = if e.len() < 4 { e.len() as int } else { 4 };
        if n == 3 {
            assert(e.take(4) =~= ch);
            assert(e.skip(4) =~= enc(b.skip(3)));
        } else {
            assert(b.skip(n).len() == 0);
            assert(enc(b.skip(n)) =~= Seq::<u8>::empty());
            assert(e =~= ch);
            assert(e.take(m) =~= ch);
            assert(e.skip(m).len() == 0);
            assert(dec(e.skip(m)) == Some(Seq::<u8>::empty()));
        }
        assert(c + b.skip(n) =~= b);
    }
}

proof fn lemma_enc_ascii(b: Seq<u8>)
    ensures
        forall|i: int| 0 <= i < enc(b).len() ==> #[trigger] enc(b)[i] < 128,
    decreases b.len(),
{
    if b.len() > 0 {
        let n = if b.len() < 3 { b.len() as int } else { 3 };
        lemma_enc_ascii(b.skip(n));
        let c = b.take(n);
        let b0 = c[0];
        let b1 = if c.len() > 1 { c[1] } else { 0u8 };
        let b2 = if c.len() > 2 { c[2] } else { 0u8 };
        lemma_digits_small(b0, b1, b2);
        assert forall|i: int| 0 <= i < enc_chunk(c).len() implies #[trigger] enc_chunk(c)[i] < 128 by {}
        assert forall|i: int| 0 <= i < enc(b).len() implies #[trigger] enc(b)[i] < 128 by {
            if i >= enc_chunk(c).len() {
                assert(enc(b)[i] == enc(b.skip(n))[i - enc_chunk(c).len()]);
            }
        }
    }
}

/// A byte of the URL-safe alphabet: `A–Z a–z 0–9 - _`.
pub open spec fn url_safe_byte(c: u8) -> bool {
    (65 <= c && c <= 90) || (97 <= c && c <= 122) || (48 <= c && c <= 57) || c == 45 || c == 95
}

/// How many digits unpadded base64 gives for `n` bytes: four per full
/// group of three, and one more than the bytes left over.
pub open spec fn encoded_len(n: nat) -> nat {
    4 * (n / 3) + (if n % 3 == 0 { 0 } else { n % 3 + 1 })
}

proof fn lemma_enc_shape(b: Seq<u8>)
    ensures
        enc(b).len() == encoded_len(b.len()),
        forall|i: int| 0 <= i < enc(b).len() ==> url_safe_byte(#[trigger] enc(b)[i]),
    decreases b.len(),
{
    if b.len() > 0 {
        let n = if b.len() < 3 { b.len() as int } else { 3 };
        lemma_enc_shape(b.skip(n));
        let c = b.take(n);
        assert(enc_chunk(c).len() == n + 1);
        assert forall|i: int| 0 <= i < enc_chunk(c).len() implies url_safe_byte(#[trigger] enc_chunk(c)[i]) by {}
        assert forall|i: int| 0 <= i < enc(b).len() implies url_safe_byte(#[trigger] enc(b)[i]) by {
            if i >= enc_chunk(c).len() {
                assert(enc(b)[i] == enc(b.skip(n))[i - enc_chunk(c).len()]);
            } else {
                assert(enc(b)[i] == enc_chunk(c)[i]);
            }
        }
    }
}

/// Law: the encoding of a text of `n` UTF-8 bytes has `encoded_len(n)`
/// characters (no padding), each from the URL-safe alphabet, so it never
/// holds `=`, `+` or `/`.
pub proof fn law_b64url_encoded_shape(s: Seq<char>)
    ensures
        b64url_encode_spec(s).len() == encoded_len(text_bytes(s).len()),
        forall|i: int|
            0 <= i < b64url_encode_spec(s).len() ==> url_safe_byte(#[trigger] b64url_encode_spec(s)[i] as u8),
{
    let e = enc(text_bytes(s));
    lemma_enc_shape(text_bytes(s));
    assert forall|i: int| 0 <= i < b64url_encode_spec(s).len() implies url_safe_byte(
        #[trigger] b64url_encode_spec(s)[i] as u8,
    ) by {
        assert(b64url_encode_spec(s)[i] == e[i] as char);
        assert(url_safe_byte(e[i]));
    }
}

/// Law: decoding the encoding of any text gives the text back.
pub proof fn law_b64url_roundtrip(s: Seq<char>)
    ensures
        b64url_decode_spec(b64url_encode_spec(s)) == Some(s),
{
    let b = text_bytes(s);
    let e = enc(b);
    lemma_enc_ascii(b);
    let t = ascii_chars(e);
    vstd::utf8::is_ascii_chars_encode_utf8(t);
    assert(vstd::utf8::is_ascii_chars(t));
    assert(text_bytes(t) =~= e);
    law_b64_bytes_roundtrip(b);
}

} // verus!

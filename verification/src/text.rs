//! Conversions between raw bytes and strings, stated over vstd's UTF-8
//! model so the codecs can reason about the exact characters a byte range
//! denotes.

use vstd::prelude::*;

verus! {

/// Relies on `String::from_utf8`: it succeeds exactly on valid UTF-8 input
/// and returns the string those bytes encode.
#[verifier::external_body]
pub fn utf8_to_string(bytes: Vec<u8>) -> (r: Option<String>)
    ensures
        match r {
            Some(s) => vstd::utf8::valid_utf8(bytes@) && s@ == vstd::utf8::decode_utf8(bytes@),
            None => !vstd::utf8::valid_utf8(bytes@),
        },
{
    String::from_utf8(bytes).ok()
}

/// Whether a string equals a literal, by characters.
pub fn string_eq_str(s: &String, lit: &str) -> (r: bool)
    ensures
        r == (s@ == lit@),
{
    let other: String = lit.to_owned();
    s.eq(&other)
}

/// Different characters have different code points.
pub proof fn lemma_char_code_injective(c: char, d: char)
    requires
        c != d,
    ensures
        c as u32 != d as u32,
{
    if c as u32 == d as u32 {
        vstd::utf8::char_u32_cast(c, c as u32);
        vstd::utf8::char_u32_cast(d, c as u32);
    }
}

/// UTF-8 encoding distributes over concatenation.
pub proof fn lemma_encode_utf8_concat(a: Seq<char>, b: Seq<char>)
    ensures
        vstd::utf8::encode_utf8(a + b) == vstd::utf8::encode_utf8(a) + vstd::utf8::encode_utf8(b),
    decreases a.len(),
{
    if a.len() == 0 {
        assert(a + b =~= b);
        assert(vstd::utf8::encode_utf8(a) + vstd::utf8::encode_utf8(b) =~= vstd::utf8::encode_utf8(
            b,
        ));
    } else {
        assert((a + b)[0] == a[0]);
        assert((a + b).drop_first() =~= a.drop_first() + b);
        lemma_encode_utf8_concat(a.drop_first(), b);
        assert(vstd::utf8::encode_utf8(a + b) =~= vstd::utf8::encode_utf8(a)
            + vstd::utf8::encode_utf8(b));
    }
}

/// The encoding of a single character is the encoding of its scalar.
pub proof fn lemma_encode_utf8_singleton(c: char)
    ensures
        vstd::utf8::encode_utf8(seq![c]) == vstd::utf8::encode_scalar(c as u32),
{
    assert(seq![c].drop_first() =~= Seq::<char>::empty());
    assert(seq![c][0] == c);
    assert(vstd::utf8::encode_utf8(Seq::<char>::empty()) =~= Seq::<u8>::empty());
    assert(vstd::utf8::encode_utf8(seq![c]) == vstd::utf8::encode_scalar(seq![c][0] as u32)
        + vstd::utf8::encode_utf8(seq![c].drop_first()));
    assert(vstd::utf8::encode_utf8(seq![c]) =~= vstd::utf8::encode_scalar(c as u32));
}

/// Characters whose code points differ from the ASCII code `b` encode to
/// bytes that all differ from `b`.
pub proof fn lemma_encode_utf8_avoids(chars: Seq<char>, b: u8)
    requires
        b < 0x80,
        forall|i: int| 0 <= i < chars.len() ==> #[trigger] (chars[i] as u32) != b as u32,
    ensures
        forall|k: int|
            0 <= k < vstd::utf8::encode_utf8(chars).len() ==> #[trigger] vstd::utf8::encode_utf8(
                chars,
            )[k] != b,
    decreases chars.len(),
{
    if chars.len() > 0 {
        let c = chars[0];
        vstd::utf8::char_is_scalar(c);
        let s = c as u32;
        let e0 = vstd::utf8::encode_scalar(s);
        assert(s != b as u32);
        assert forall|k: int| 0 <= k < e0.len() implies e0[k] != b by {
            lemma_encode_scalar_avoids(s, b);
        }
        assert(forall|i: int|
            0 <= i < chars.drop_first().len() ==> #[trigger] (chars.drop_first()[i] as u32) != b
                as u32);
        lemma_encode_utf8_avoids(chars.drop_first(), b);
        let rest = vstd::utf8::encode_utf8(chars.drop_first());
        assert(vstd::utf8::encode_utf8(chars) == e0 + rest);
        assert forall|k: int|
            0 <= k < vstd::utf8::encode_utf8(chars).len() implies #[trigger] vstd::utf8::encode_utf8(
            chars,
        )[k] != b by {
            if k < e0.len() {
                assert((e0 + rest)[k] == e0[k]);
            } else {
                assert((e0 + rest)[k] == rest[k - e0.len()]);
            }
        }
    }
}

/// No byte in the encoding of a scalar other than the ASCII code `b`
/// equals `b`.
proof fn lemma_encode_scalar_avoids(s: u32, b: u8)
    requires
        vstd::utf8::is_scalar(s),
        b < 0x80,
        s != b as u32,
    ensures
        forall|k: int|
            0 <= k < vstd::utf8::encode_scalar(s).len() ==> #[trigger] vstd::utf8::encode_scalar(
                s,
            )[k] != b,
{
    let e = vstd::utf8::encode_scalar(s);
    if vstd::utf8::has_width_1_encoding(s) {
        assert(e =~= seq![vstd::utf8::leading_byte_width_1(s)]);
        assert(((s & 0x7F) as u8) != b) by (bit_vector)
            requires
                s <= 0x7F,
                b < 0x80,
                s != b as u32,
        ;
    } else {
        assert forall|k: int| 0 <= k < e.len() implies #[trigger] e[k] >= 0x80 by {
            let y1 = ((s >> 6) & 0x1F) as u8;
            let y2 = ((s >> 12) & 0x0F) as u8;
            let y3 = ((s >> 18) & 0x7) as u8;
            let z1 = (s & 0x3F) as u8;
            let z2 = ((s >> 6) & 0x3F) as u8;
            let z3 = ((s >> 12) & 0x3F) as u8;
            assert(0xC0u8 | y1 >= 0x80) by (bit_vector);
            assert(0xE0u8 | y2 >= 0x80) by (bit_vector);
            assert(0xF0u8 | y3 >= 0x80) by (bit_vector);
            assert(0x80u8 | z1 >= 0x80) by (bit_vector);
            assert(0x80u8 | z2 >= 0x80) by (bit_vector);
            assert(0x80u8 | z3 >= 0x80) by (bit_vector);
        }
    }
}

/// A character sequence that does not end in NUL encodes to bytes that do
/// not end in a zero byte.
pub proof fn lemma_encode_utf8_last_not_nul(chars: Seq<char>)
    requires
        chars.len() > 0,
        chars.last() as u32 != 0,
    ensures
        vstd::utf8::encode_utf8(chars).len() > 0,
        vstd::utf8::encode_utf8(chars).last() != 0,
{
    let c = chars.last();
    vstd::utf8::char_is_scalar(c);
    let s = c as u32;
    assert(chars =~= chars.drop_last() + seq![c]);
    lemma_encode_utf8_concat(chars.drop_last(), seq![c]);
    lemma_encode_utf8_singleton(c);
    let e = vstd::utf8::encode_scalar(s);
    assert(e.len() > 0);
    assert(e.last() != 0) by {
        if vstd::utf8::has_width_1_encoding(s) {
            assert(e =~= seq![vstd::utf8::leading_byte_width_1(s)]);
            assert(((s & 0x7F) as u8) != 0) by (bit_vector)
                requires
                    s <= 0x7F,
                    s != 0,
            ;
        } else {
            let z1 = (s & 0x3F) as u8;
            assert(0x80u8 | z1 >= 0x80) by (bit_vector);
        }
    }
    assert(vstd::utf8::encode_utf8(chars) == vstd::utf8::encode_utf8(chars.drop_last()) + e);
    assert(vstd::utf8::encode_utf8(chars).last() == e.last());
}

} // verus!

//! How a sequence of characters and its UTF-8 bytes correspond: cutting one
//! cuts the other, and an ASCII byte in the bytes is an ASCII character in
//! the text.

use vstd::prelude::*;
use vstd::utf8::*;

verus! {

/// The bytes of one character: at most four, and either the single byte of
/// an ASCII character or bytes that all lie above the ASCII range.
pub proof fn lemma_scalar_bytes(c: char)
    ensures
        1 <= encode_scalar(c as u32).len() <= 4,
        (c as u32) <= 0x7f ==> encode_scalar(c as u32) == seq![(c as u32) as u8],
        (c as u32) > 0x7f ==> forall|j: int|
            0 <= j < encode_scalar(c as u32).len() ==> #[trigger] encode_scalar(c as u32)[j]
                >= 0x80,
{
    let v = c as u32;
    char_is_scalar(c);
    if has_width_1_encoding(v) {
        assert(leading_byte_width_1(v) == v as u8) by (bit_vector)
            requires
                has_width_1_encoding(v),
        ;
    } else if has_width_2_encoding(v) {
        assert(leading_byte_width_2(v) >= 0x80 && last_continuation_byte(v) >= 0x80)
            by (bit_vector);
    } else if has_width_3_encoding(v) {
        assert(leading_byte_width_3(v) >= 0x80 && second_last_continuation_byte(v) >= 0x80
            && last_continuation_byte(v) >= 0x80) by (bit_vector);
    } else {
        assert(leading_byte_width_4(v) >= 0x80 && third_last_continuation_byte(v) >= 0x80
            && second_last_continuation_byte(v) >= 0x80 && last_continuation_byte(v) >= 0x80)
            by (bit_vector);
    }
}

/// Encoding goes through concatenation.
pub proof fn lemma_encode_concat(a: Seq<char>, b: Seq<char>)
    ensures
        encode_utf8(a + b) == encode_utf8(a) + encode_utf8(b),
    decreases a.len(),
{
    if a.len() > 0 {
        lemma_encode_concat(a.drop_first(), b);
        assert((a + b).drop_first() =~= a.drop_first() + b);
    }
}

/// Two texts with the same bytes are the same text.
pub proof fn lemma_encode_injective(a: Seq<char>, b: Seq<char>)
    requires
        encode_utf8(a) == encode_utf8(b),
    ensures
        a == b,
{
    encode_utf8_decode_utf8(a);
    encode_utf8_decode_utf8(b);
}

/// The number of characters that the first `k` bytes of the text hold.
pub open spec fn chars_before(s: Seq<char>, k: int) -> int {
    decode_utf8(encode_utf8(s).subrange(0, k)).len() as int
}

/// A cut of the bytes at a character boundary is a cut of the text: the two
/// parts of the bytes are the bytes of a prefix and of the matching suffix.
pub proof fn lemma_cut_at_boundary(s: Seq<char>, k: int)
    requires
        is_char_boundary(encode_utf8(s), k),
    ensures
        0 <= k <= encode_utf8(s).len(),
        0 <= chars_before(s, k) <= s.len(),
        encode_utf8(s.subrange(0, chars_before(s, k))) == encode_utf8(s).subrange(0, k),
        encode_utf8(s.subrange(chars_before(s, k), s.len() as int)) == encode_utf8(s).subrange(
            k,
            encode_utf8(s).len() as int,
        ),
{
    let b = encode_utf8(s);
    encode_utf8_valid_utf8(s);
    encode_utf8_decode_utf8(s);
    valid_utf8_split(b, k);
    decode_utf8_split(b, k);
    let front = b.subrange(0, k);
    let back = b.subrange(k, b.len() as int);
    decode_utf8_encode_utf8(front);
    decode_utf8_encode_utf8(back);
    let p = decode_utf8(front);
    let r = decode_utf8(back);
    assert(s.subrange(0, p.len() as int) =~= p);
    assert(s.subrange(p.len() as int, s.len() as int) =~= r);
}

/// Where well-formed bytes begin with other well-formed bytes, the end of
/// the shorter run is a character boundary of the longer one.
pub proof fn lemma_prefix_ends_at_boundary(front: Seq<u8>, whole: Seq<u8>)
    requires
        valid_utf8(front),
        valid_utf8(whole),
        front.len() <= whole.len(),
        whole.subrange(0, front.len() as int) == front,
    ensures
        is_char_boundary(whole, front.len() as int),
    decreases front.len(),
{
    if front.len() > 0 {
        let front_rest = pop_first_scalar(front);
        let whole_rest = pop_first_scalar(whole);
        assert(whole_rest.subrange(0, front_rest.len() as int) =~= front_rest);
        lemma_prefix_ends_at_boundary(front_rest, whole_rest);
    }
}

/// An ASCII character of the text is its own byte, right after the bytes of
/// what stands before it.
pub proof fn lemma_ascii_char_is_byte(s: Seq<char>, i: int)
    requires
        0 <= i < s.len(),
        (s[i] as u32) <= 0x7f,
    ensures
        encode_utf8(s.subrange(0, i)).len() < encode_utf8(s).len(),
        encode_utf8(s)[encode_utf8(s.subrange(0, i)).len() as int] == s[i] as u32,
{
    let before = s.subrange(0, i);
    let from = s.subrange(i, s.len() as int);
    assert(s =~= before + from);
    lemma_encode_concat(before, from);
    lemma_scalar_bytes(s[i]);
}

/// An ASCII byte among the bytes of a text stands at a character boundary,
/// and the character that begins there is that byte. What follows the byte
/// is the bytes of what follows the character.
pub proof fn lemma_ascii_byte_is_char(s: Seq<char>, k: int)
    requires
        0 <= k < encode_utf8(s).len(),
        encode_utf8(s)[k] <= 0x7f,
    ensures
        is_char_boundary(encode_utf8(s), k),
        0 <= chars_before(s, k) < s.len(),
        s[chars_before(s, k)] as u32 == encode_utf8(s)[k],
        encode_utf8(s.subrange(0, chars_before(s, k))) == encode_utf8(s).subrange(0, k),
        encode_utf8(s.subrange(chars_before(s, k) + 1, s.len() as int)) == encode_utf8(
            s,
        ).subrange(k + 1, encode_utf8(s).len() as int),
{
    let b = encode_utf8(s);
    encode_utf8_valid_utf8(s);
    is_char_boundary_iff_not_is_continuation_byte(b, k);
    lemma_cut_at_boundary(s, k);
    let i = chars_before(s, k);
    let from = s.subrange(i, s.len() as int);
    let from_bytes = encode_utf8(from);
    assert(from_bytes.len() == b.len() - k);
    lemma_scalar_bytes(from[0]);
    let first = encode_scalar(from[0] as u32);
    assert(first[0] == from_bytes[0]);
    assert(from.drop_first() =~= s.subrange(i + 1, s.len() as int));
    assert(from_bytes.subrange(1, from_bytes.len() as int) =~= b.subrange(
        k + 1,
        b.len() as int,
    ));
}

/// A text is empty exactly when its bytes are.
pub proof fn lemma_empty_bytes(s: Seq<char>)
    ensures
        s.len() == 0 <==> encode_utf8(s).len() == 0,
{
    if s.len() > 0 {
        lemma_scalar_bytes(s[0]);
    }
}

/// The text ends with the ASCII character `c` exactly when its bytes end
/// with the byte of `c`. Then that byte begins at a character boundary, and
/// the bytes before it are the bytes of the text without its last character.
pub proof fn lemma_last_ascii(s: Seq<char>, c: char)
    requires
        (c as u32) <= 0x7f,
    ensures
        (s.len() > 0 && s.last() == c) <==> (encode_utf8(s).len() > 0 && encode_utf8(s).last()
            == c as u32),
        s.len() > 0 && s.last() == c ==> is_char_boundary(
            encode_utf8(s),
            encode_utf8(s).len() - 1,
        ) && encode_utf8(s.drop_last()) == encode_utf8(s).drop_last(),
{
    let b = encode_utf8(s);
    if s.len() > 0 && s.last() == c {
        assert(s =~= s.drop_last() + seq![c]);
        lemma_encode_concat(s.drop_last(), seq![c]);
        lemma_scalar_bytes(c);
        assert(encode_utf8(seq![c]) =~= seq![(c as u32) as u8]) by {
            lemma_empty_bytes(seq![c].drop_first());
        }
        encode_utf8_valid_utf8(s);
        is_char_boundary_iff_not_is_continuation_byte(b, b.len() - 1);
    }
    if b.len() > 0 && b.last() == c as u32 {
        let k = b.len() - 1;
        lemma_ascii_byte_is_char(s, k);
        let i = chars_before(s, k);
        lemma_empty_bytes(s.subrange(i + 1, s.len() as int));
        char_u32_cast(s[i], c as u32);
        char_u32_cast(c, c as u32);
    }
}

} // verus!

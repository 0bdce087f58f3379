//! Occurrence of one sequence inside another, as a contiguous block.

use vstd::prelude::*;
use vstd::string::*;
use vstd::utf8::*;
use crate::encoding::{
    chars_before, lemma_cut_at_boundary, lemma_empty_bytes, lemma_encode_concat,
    lemma_encode_injective, lemma_prefix_ends_at_boundary,
};

verus! {

/// `needle` stands in `hay` as a contiguous block that starts at index `at`.
pub open spec fn occurs_at<T>(needle: Seq<T>, hay: Seq<T>, at: int) -> bool {
    &&& 0 <= at
    &&& at + needle.len() <= hay.len()
    &&& hay.subrange(at, at + needle.len()) == needle
}

/// `needle` stands somewhere in `hay` as a contiguous block.
pub open spec fn occurs_in<T>(needle: Seq<T>, hay: Seq<T>) -> bool {
    exists|at: int| occurs_at(needle, hay, at)
}

/// The empty sequence occurs in every sequence.
pub proof fn lemma_empty_occurs<T>(hay: Seq<T>)
    ensures
        occurs_in(Seq::<T>::empty(), hay),
{
    assert(hay.subrange(0, 0) =~= Seq::<T>::empty());
    assert(occurs_at(Seq::<T>::empty(), hay, 0));
}

/// The first `upto` positions of `needle` agree with `hay` from `at` on.
spec fn agrees(needle: Seq<u8>, hay: Seq<u8>, at: int, upto: int) -> bool {
    forall|j: int| 0 <= j < upto ==> hay[at + j] == #[trigger] needle[j]
}

/// Whether `needle` matches `hay` at byte offset `at`.
fn matches_at(hay: &[u8], needle: &[u8], at: usize) -> (hit: bool)
    requires
        at + needle@.len() <= hay@.len(),
    ensures
        hit == occurs_at(needle@, hay@, at as int),
{
    let width: usize = needle.len();
    let total: usize = hay.len();
    let mut j: usize = 0;
    while j < width
        invariant
            width == needle@.len(),
            total == hay@.len(),
            j <= width,
            at + width <= total,
            agrees(needle@, hay@, at as int, j as int),
        decreases width - j,
    {
        if hay[at + j] != needle[j] {
            assert(hay@.subrange(at as int, at + width)[j as int] != needle@[j as int]);
            return false;
        }
        j += 1;
    }
    assert(hay@.subrange(at as int, at + width) =~= needle@);
    true
}

/// Naive scan: tries every offset of `hay` at which `needle` still fits.
pub fn contains_bytes(hay: &[u8], needle: &[u8]) -> (found: bool)
    ensures
        found == occurs_in(needle@, hay@),
{
    if needle.len() > hay.len() {
        return false;
    }
    let last: usize = hay.len() - needle.len();
    let mut at: usize = 0;
    loop
        invariant
            last == hay@.len() - needle@.len(),
            at <= last,
            forall|k: int| 0 <= k < at ==> !occurs_at(needle@, hay@, k),
        decreases last - at,
    {
        if matches_at(hay, needle, at) {
            return true;
        }
        if at == last {
            return false;
        }
        at += 1;
    }
}

/// An occurrence among the characters is an occurrence among the bytes.
pub proof fn lemma_occurrence_in_bytes(needle: Seq<char>, hay: Seq<char>, at: int)
    requires
        occurs_at(needle, hay, at),
    ensures
        occurs_at(
            encode_utf8(needle),
            encode_utf8(hay),
            encode_utf8(hay.subrange(0, at)).len() as int,
        ),
{
    let before = hay.subrange(0, at);
    let after = hay.subrange(at + needle.len(), hay.len() as int);
    assert(hay =~= before + needle + after);
    lemma_encode_concat(before + needle, after);
    lemma_encode_concat(before, needle);
    let k = encode_utf8(before).len() as int;
    assert(encode_utf8(hay).subrange(k, k + encode_utf8(needle).len()) =~= encode_utf8(needle));
}

/// An occurrence among the bytes is an occurrence among the characters:
/// the bytes of one text never match across the characters of another.
pub proof fn lemma_occurrence_in_chars(needle: Seq<char>, hay: Seq<char>, k: int)
    requires
        occurs_at(encode_utf8(needle), encode_utf8(hay), k),
    ensures
        occurs_in(needle, hay),
{
    let q = encode_utf8(needle);
    let b = encode_utf8(hay);
    encode_utf8_valid_utf8(needle);
    encode_utf8_valid_utf8(hay);
    if q.len() == 0 {
        lemma_empty_bytes(needle);
        lemma_empty_occurs(hay);
        assert(needle =~= Seq::empty());
    } else {
        // The first byte of the needle begins a character, in the needle and
        // so in the text.
        is_char_boundary_start_end_of_seq(q);
        is_char_boundary_iff_not_is_continuation_byte(q, 0);
        is_char_boundary_iff_not_is_continuation_byte(b, k);
        lemma_cut_at_boundary(hay, k);
        let i = chars_before(hay, k);
        let tail = hay.subrange(i, hay.len() as int);
        let tail_bytes = encode_utf8(tail);
        encode_utf8_valid_utf8(tail);
        // The needle's bytes end where a character of the text ends.
        assert(tail_bytes.subrange(0, q.len() as int) =~= q);
        lemma_prefix_ends_at_boundary(q, tail_bytes);
        lemma_cut_at_boundary(tail, q.len() as int);
        let j = chars_before(tail, q.len() as int);
        lemma_encode_injective(tail.subrange(0, j), needle);
        assert(hay.subrange(i, i + needle.len()) =~= tail.subrange(0, j));
        assert(occurs_at(needle, hay, i));
    }
}

/// Whether `needle` stands in `hay` as a contiguous run of characters. The
/// empty needle stands in every text.
pub fn contains(hay: &str, needle: &str) -> (found: bool)
    ensures
        found == occurs_in(needle@, hay@),
{
    let found = contains_bytes(hay.as_bytes(), needle.as_bytes());
    proof {
        if found {
            let k = choose|k: int| occurs_at(encode_utf8(needle@), encode_utf8(hay@), k);
            lemma_occurrence_in_chars(needle@, hay@, k);
        }
        if occurs_in(needle@, hay@) {
            let at = choose|at: int| occurs_at(needle@, hay@, at);
            lemma_occurrence_in_bytes(needle@, hay@, at);
        }
    }
    found
}

} // verus!

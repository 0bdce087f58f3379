//! The lines of a text.
//!
//! A line ends at a line feed; a carriage return that stands directly
//! before that line feed belongs to the line ending too. The last line
//! needs no line ending, and a text that ends with one has no empty line
//! after it.

use vstd::prelude::*;
use vstd::string::*;
use vstd::utf8::*;
use crate::pattern::{occurs_at, occurs_in};
use crate::encoding::{
    chars_before, lemma_ascii_byte_is_char, lemma_ascii_char_is_byte, lemma_empty_bytes,
    lemma_encode_concat, lemma_encode_injective, lemma_last_ascii,
};

verus! {

/// The index of the first line feed of `s`, or the length of `s` where it
/// holds none.
pub open spec fn line_end(s: Seq<char>) -> nat
    decreases s.len(),
{
    if s.len() == 0 || s[0] == '\n' {
        0
    } else {
        1 + line_end(s.drop_first())
    }
}

/// `line` without one carriage return at its end, if it has one there.
pub open spec fn without_cr(line: Seq<char>) -> Seq<char> {
    if line.len() > 0 && line.last() == '\r' {
        line.drop_last()
    } else {
        line
    }
}

/// The lines of `s`, in order, without their line endings.
pub open spec fn lines_of(s: Seq<char>) -> Seq<Seq<char>>
    decreases s.len(),
{
    if s.len() == 0 {
        Seq::empty()
    } else if line_end(s) >= s.len() {
        seq![s]
    } else {
        seq![without_cr(s.subrange(0, line_end(s) as int))] + lines_of(
            s.subrange(line_end(s) as int + 1, s.len() as int),
        )
    }
}

/// `line_end(s)` lies within `s`, no line feed stands before it, and one
/// stands at it unless it is the end of `s`.
pub proof fn lemma_line_end(s: Seq<char>)
    ensures
        line_end(s) <= s.len(),
        forall|j: int| 0 <= j < line_end(s) ==> s[j] != '\n',
        line_end(s) < s.len() ==> s[line_end(s) as int] == '\n',
    decreases s.len(),
{
    if s.len() != 0 && s[0] != '\n' {
        let rest = s.drop_first();
        lemma_line_end(rest);
        assert forall|j: int| 0 <= j < line_end(s) implies s[j] != '\n' by {
            if j > 0 {
                assert(s[j] == rest[j - 1]);
            }
        }
    }
}

/// `line_end(s)` is the only index with the properties of `lemma_line_end`.
pub proof fn lemma_line_end_is(s: Seq<char>, n: int)
    requires
        0 <= n <= s.len(),
        forall|j: int| 0 <= j < n ==> s[j] != '\n',
        n < s.len() ==> s[n] == '\n',
    ensures
        line_end(s) == n,
{
    lemma_line_end(s);
}

/// Each line of a text is a slice of that text.
pub proof fn lemma_lines_are_slices(s: Seq<char>)
    ensures
        forall|i: int| 0 <= i < lines_of(s).len() ==> occurs_in(#[trigger] lines_of(s)[i], s),
    decreases s.len(),
{
    lemma_line_end(s);
    let n = line_end(s) as int;
    if s.len() == 0 {
    } else if n >= s.len() {
        assert(s.subrange(0, s.len() as int) =~= s);
        assert(occurs_at(s, s, 0));
    } else {
        let first = without_cr(s.subrange(0, n));
        let rest = s.subrange(n + 1, s.len() as int);
        lemma_lines_are_slices(rest);
        assert forall|i: int| 0 <= i < lines_of(s).len() implies occurs_in(
            #[trigger] lines_of(s)[i],
            s,
        ) by {
            if i == 0 {
                assert(s.subrange(0, first.len() as int) =~= first);
                assert(occurs_at(first, s, 0));
            } else {
                let line = lines_of(rest)[i - 1];
                let at = choose|at: int| occurs_at(line, rest, at);
                assert(s.subrange(n + 1 + at, n + 1 + at + line.len()) =~= rest.subrange(
                    at,
                    at + line.len(),
                ));
                assert(occurs_at(line, s, n + 1 + at));
            }
        }
    }
}

/// The first line-feed byte among the bytes of `s` is its first line feed:
/// the bytes before it are those of the text before `line_end(s)`, the
/// bytes after it those of the text after.
proof fn lemma_first_line_feed_byte(s: Seq<char>, k: int)
    requires
        0 <= k < encode_utf8(s).len(),
        encode_utf8(s)[k] == 0x0a,
        forall|j: int| 0 <= j < k ==> encode_utf8(s)[j] != 0x0a,
    ensures
        line_end(s) < s.len(),
        is_char_boundary(encode_utf8(s), k),
        encode_utf8(s.subrange(0, line_end(s) as int)) == encode_utf8(s).subrange(0, k),
        encode_utf8(s.subrange(line_end(s) as int + 1, s.len() as int)) == encode_utf8(
            s,
        ).subrange(k + 1, encode_utf8(s).len() as int),
{
    lemma_ascii_byte_is_char(s, k);
    let i = chars_before(s, k);
    char_u32_cast(s[i], 0x0a);
    // A line feed before `i` would be a line-feed byte before `k`.
    assert forall|j: int| 0 <= j < i implies s[j] != '\n' by {
        if s[j] == '\n' {
            lemma_ascii_char_is_byte(s, j);
            let upto_j = s.subrange(0, j);
            let between = s.subrange(j, i);
            assert(s.subrange(0, i) =~= upto_j + between);
            lemma_encode_concat(upto_j, between);
            lemma_empty_bytes(between);
        }
    }
    lemma_line_end_is(s, i);
}

/// Bytes without a line-feed byte are the bytes of a text without a line feed.
proof fn lemma_no_line_feed_byte(s: Seq<char>)
    requires
        forall|j: int| 0 <= j < encode_utf8(s).len() ==> encode_utf8(s)[j] != 0x0a,
    ensures
        line_end(s) == s.len(),
{
    lemma_line_end(s);
    if line_end(s) < s.len() {
        lemma_ascii_char_is_byte(s, line_end(s) as int);
    }
}

/// The index of the first byte `wanted` in `bytes`, or the length of `bytes`
/// where it holds none.
fn find_byte(bytes: &[u8], wanted: u8) -> (at: usize)
    ensures
        at <= bytes@.len(),
        forall|j: int| 0 <= j < at ==> bytes@[j] != wanted,
        at < bytes@.len() ==> bytes@[at as int] == wanted,
{
    let total: usize = bytes.len();
    let mut at: usize = 0;
    while at < total && bytes[at] != wanted
        invariant
            total == bytes@.len(),
            at <= total,
            forall|j: int| 0 <= j < at ==> bytes@[j] != wanted,
        decreases total - at,
    {
        at += 1;
    }
    at
}

/// `line` without one carriage return at its end.
fn trim_cr<'a>(line: &'a str) -> (trimmed: &'a str)
    ensures
        trimmed@ == without_cr(line@),
{
    let bytes = line.as_bytes();
    let total: usize = bytes.len();
    proof {
        lemma_last_ascii(line@, '\r');
    }
    if total > 0 && bytes[total - 1] == 0x0d {
        let (kept, _cr) = line.split_at(total - 1);
        proof {
            lemma_encode_injective(kept@, line@.drop_last());
        }
        kept
    } else {
        line
    }
}

/// The lines of `content`, in order, each a slice of `content` without its
/// line ending.
pub fn lines<'a>(content: &'a str) -> (out: Vec<&'a str>)
    ensures
        out.deep_view() == lines_of(content@),
        forall|i: int| 0 <= i < out@.len() ==> occurs_in((#[trigger] out@[i])@, content@),
{
    let mut out: Vec<&'a str> = Vec::new();
    let mut rest: &'a str = content;
    loop
        invariant_except_break
            out.deep_view() + lines_of(rest@) == lines_of(content@),
        ensures
            out.deep_view() == lines_of(content@),
        decreases rest@.len(),
    {
        let bytes = rest.as_bytes();
        let total: usize = bytes.len();
        proof {
            lemma_empty_bytes(rest@);
        }
        if total == 0 {
            break ;
        }
        let at: usize = find_byte(bytes, 0x0a);
        if at == total {
            proof {
                lemma_no_line_feed_byte(rest@);
            }
            out.push(rest);
            break ;
        }
        proof {
            lemma_first_line_feed_byte(rest@, at as int);
        }
        let (head, tail) = rest.split_at(at);
        proof {
            // The line feed is one byte, so the next character begins after it.
            encode_utf8_valid_utf8(tail@);
            reveal_with_fuel(is_char_boundary, 2);
            assert(is_char_boundary(tail.spec_bytes(), 1));
        }
        let (_feed, next) = tail.split_at(1);
        let line = trim_cr(head);
        proof {
            let n = line_end(rest@) as int;
            lemma_encode_injective(head@, rest@.subrange(0, n));
            assert(next.spec_bytes() =~= encode_utf8(rest@).subrange(at + 1, total as int));
            lemma_encode_injective(next@, rest@.subrange(n + 1, rest@.len() as int));
        }
        out.push(line);
        rest = next;
    }
    proof {
        lemma_lines_are_slices(content@);
        assert forall|i: int| 0 <= i < out@.len() implies occurs_in(
            (#[trigger] out@[i])@,
            content@,
        ) by {
            assert(out.deep_view()[i] == out@[i]@);
        }
    }
    out
}

} // verus!

//! The two built-in delimiter strategies: a literal string and a single
//! character.

use vstd::prelude::*;
use vstd::std_specs::iter::IteratorSpec;
use vstd::string::StringSliceAdditionalSpecFns;
use vstd::utf8::decode_utf8;
use vstd::utf8::is_char_boundary;
use vstd::utf8::valid_utf8;
use crate::str_split::encoding::lemma_boundary_in_suffix;
use crate::str_split::encoding::lemma_offset_is_boundary;
use crate::str_split::encoding::lemma_offset_step;
use crate::str_split::encoding::lemma_prefix_boundary;
use crate::str_split::encoding::offset_of;
use crate::str_split::encoding::width;
use crate::str_split::Delimiter;

verus! {

/// The bytes of `pattern` stand in `text` from offset `at` on.
pub open spec fn occurs_at(text: Seq<u8>, pattern: Seq<u8>, at: int) -> bool {
    &&& 0 <= at
    &&& at + pattern.len() <= text.len()
    &&& text.subrange(at, at + pattern.len()) == pattern
}

/// `at` is the offset of the leftmost occurrence of `pattern` in `text`.
pub open spec fn is_leftmost_occurrence(text: Seq<u8>, pattern: Seq<u8>, at: int) -> bool {
    &&& occurs_at(text, pattern, at)
    &&& forall|earlier: int| 0 <= earlier < at ==> !occurs_at(text, pattern, earlier)
}

/// The offset of the leftmost occurrence of `pattern` in `text`, if there is
/// an occurrence.
pub open spec fn leftmost_occurrence(text: Seq<u8>, pattern: Seq<u8>) -> Option<int> {
    if exists|at: int| occurs_at(text, pattern, at) {
        Some(choose|at: int| is_leftmost_occurrence(text, pattern, at))
    } else {
        None
    }
}

/// What the literal-string strategy reports: the leftmost occurrence of the
/// pattern, which ends where the pattern's bytes end.
pub open spec fn literal_match(text: Seq<u8>, pattern: Seq<u8>) -> Option<(int, int)> {
    match leftmost_occurrence(text, pattern) {
        Some(start) => Some((start, start + pattern.len())),
        None => None,
    }
}

/// What the single-character strategy reports: the first character of the
/// text that equals `c`, from the offset where it starts to the offset where
/// the next character starts.
pub open spec fn char_match(text: Seq<u8>, c: char) -> Option<(int, int)> {
    let chars = decode_utf8(text);
    match chars.index_of_first(c) {
        Some(k) => Some((offset_of(chars, k), offset_of(chars, k) + width(c))),
        None => None,
    }
}

/// A leftmost occurrence is the only one, so it is the one that
/// `leftmost_occurrence` names.
pub proof fn lemma_leftmost_occurrence(text: Seq<u8>, pattern: Seq<u8>, at: int)
    requires
        is_leftmost_occurrence(text, pattern, at),
    ensures
        leftmost_occurrence(text, pattern) == Some(at),
{
    let chosen = choose|at: int| is_leftmost_occurrence(text, pattern, at);
    assert(is_leftmost_occurrence(text, pattern, chosen));
    if chosen < at {
        assert(!occurs_at(text, pattern, chosen));
    }
    if at < chosen {
        assert(!occurs_at(text, pattern, at));
    }
}

/// Where a pattern occurs at all, it has a leftmost occurrence.
pub proof fn lemma_leftmost_exists(text: Seq<u8>, pattern: Seq<u8>, at: int) -> (first: int)
    requires
        occurs_at(text, pattern, at),
    ensures
        is_leftmost_occurrence(text, pattern, first),
        first <= at,
    decreases at,
{
    if exists|earlier: int| 0 <= earlier < at && occurs_at(text, pattern, earlier) {
        let earlier = choose|earlier: int| 0 <= earlier < at && occurs_at(text, pattern, earlier);
        lemma_leftmost_exists(text, pattern, earlier)
    } else {
        at
    }
}

/// An occurrence of a valid pattern in a valid text cuts no character.
pub proof fn lemma_occurrence_boundaries(text: Seq<u8>, pattern: Seq<u8>, at: int)
    requires
        valid_utf8(text),
        valid_utf8(pattern),
        occurs_at(text, pattern, at),
        pattern.len() > 0 || at == 0,
    ensures
        is_char_boundary(text, at),
        is_char_boundary(text, at + pattern.len()),
{
    if pattern.len() > 0 {
        assert(text[at] == text.subrange(at, at + pattern.len())[0]);
        assert(vstd::utf8::valid_first_scalar(pattern));
        assert(!vstd::utf8::is_continuation_byte(pattern[0]));
        vstd::utf8::is_char_boundary_iff_not_is_continuation_byte(text, at);
    }
    let suffix = text.subrange(at, text.len() as int);
    vstd::utf8::valid_utf8_split(text, at);
    assert(suffix.subrange(0, pattern.len() as int) =~= pattern);
    lemma_prefix_boundary(suffix, pattern);
    lemma_boundary_in_suffix(text, at, pattern.len() as int);
}

/// Calls `str::find` of the standard library with a string as the pattern: it
/// returns the byte offset of the leftmost occurrence of `needle` in
/// `haystack`, and `None` where `needle` does not occur.
#[verifier::external_body]
fn find_str(haystack: &str, needle: &str) -> (found: Option<usize>)
    ensures
        match found {
            Some(at) => is_leftmost_occurrence(
                haystack.spec_bytes(),
                needle.spec_bytes(),
                at as int,
            ),
            None => forall|at: int| !occurs_at(haystack.spec_bytes(), needle.spec_bytes(), at),
        },
{
    haystack.find(needle)
}

impl<'pattern> Delimiter for &'pattern str {
    open spec fn next_match(&self, text: Seq<u8>) -> Option<(int, int)> {
        literal_match(text, self.spec_bytes())
    }

    proof fn lemma_next_match_in_text(&self, text: Seq<u8>) {
        let pattern = self.spec_bytes();
        vstd::utf8::encode_utf8_valid_utf8(self@);
        if exists|at: int| occurs_at(text, pattern, at) {
            let at = choose|at: int| occurs_at(text, pattern, at);
            let first = lemma_leftmost_exists(text, pattern, at);
            lemma_leftmost_occurrence(text, pattern, first);
            if pattern.len() == 0 {
                assert(occurs_at(text, pattern, 0)) by {
                    assert(text.subrange(0, 0) =~= pattern);
                }
            }
            lemma_occurrence_boundaries(text, pattern, first);
        }
    }

    fn find_next(&self, s: &str) -> (found: Option<(usize, usize)>) {
        let pattern: &str = *self;
        // Offsets into `s` stay below the length of its bytes, which fits `usize`.
        let text_len = s.as_bytes().len();
        let pattern_len = pattern.as_bytes().len();
        match find_str(s, pattern) {
            Some(start) => {
                proof {
                    lemma_leftmost_occurrence(s.spec_bytes(), pattern.spec_bytes(), start as int);
                }
                Some((start, start + pattern_len))
            },
            None => None,
        }
    }
}

/// The first position of `c` in `chars` is the one that holds `c` and has no
/// `c` before it; there is none where `c` is at no position.
pub proof fn lemma_first_index(chars: Seq<char>, c: char, k: int)
    requires
        0 <= k <= chars.len(),
        forall|m: int| 0 <= m < k ==> chars[m] != c,
        k < chars.len() ==> chars[k] == c,
    ensures
        chars.index_of_first(c) == if k < chars.len() {
            Some(k)
        } else {
            None
        },
{
    chars.index_of_first_ensures(c);
    if k < chars.len() {
        assert(chars.contains(c));
    }
}

impl Delimiter for char {
    open spec fn next_match(&self, text: Seq<u8>) -> Option<(int, int)> {
        char_match(text, *self)
    }

    proof fn lemma_next_match_in_text(&self, text: Seq<u8>) {
        let chars = decode_utf8(text);
        vstd::utf8::decode_utf8_encode_utf8(text);
        chars.index_of_first_ensures(*self);
        if let Some(k) = chars.index_of_first(*self) {
            lemma_offset_step(chars, k);
            lemma_offset_is_boundary(chars, k);
            lemma_offset_is_boundary(chars, k + 1);
        }
    }

    fn find_next(&self, s: &str) -> (found: Option<(usize, usize)>) {
        // Offsets into `s` stay below the length of its bytes, which fits `usize`.
        let text_len = s.as_bytes().len();
        let mut chars = s.chars();
        let mut offset: usize = 0;
        let ghost mut k: int = 0;
        proof {
            vstd::utf8::encode_utf8_valid_utf8(s@);
            vstd::utf8::encode_utf8_decode_utf8(s@);
            assert(s@.skip(0) =~= s@);
            assert(s@.take(0) =~= Seq::<char>::empty());
        }
        loop
            invariant
                0 <= k <= s@.len(),
                chars.remaining() == s@.skip(k),
                chars.decrease() is Some,
                offset == offset_of(s@, k),
                text_len == s.spec_bytes().len(),
                valid_utf8(s.spec_bytes()),
                decode_utf8(s.spec_bytes()) == s@,
                forall|m: int| 0 <= m < k ==> s@[m] != *self,
            decreases chars.decrease()->0,
        {
            match chars.next() {
                None => {
                    proof {
                        lemma_first_index(s@, *self, k);
                    }
                    return None;
                },
                Some(ch) => {
                    proof {
                        assert(ch == s@[k]);
                        assert(s@.skip(k).drop_first() =~= s@.skip(k + 1));
                        lemma_offset_step(s@, k);
                    }
                    if ch == *self {
                        proof {
                            lemma_first_index(s@, *self, k);
                        }
                        return Some((offset, offset + self.len_utf8()));
                    }
                    offset = offset + ch.len_utf8();
                    proof {
                        k = k + 1;
                    }
                },
            }
        }
    }
}

} // verus!

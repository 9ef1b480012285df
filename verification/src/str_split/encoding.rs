//! Facts about UTF-8 encodings that relate character positions to byte
//! offsets.

use vstd::prelude::*;
use vstd::utf8::decode_utf8;
use vstd::utf8::encode_scalar;
use vstd::utf8::encode_utf8;
use vstd::utf8::is_char_boundary;
use vstd::utf8::valid_utf8;

verus! {

/// The number of bytes in the UTF-8 encoding of `c`.
pub open spec fn width(c: char) -> nat {
    encode_scalar(c as u32).len()
}

/// The byte offset at which the character with index `k` starts in the
/// encoding of `chars`.
pub open spec fn offset_of(chars: Seq<char>, k: int) -> int {
    encode_utf8(chars.take(k)).len() as int
}

/// `char::len_utf8`: the number of bytes that the character takes in UTF-8.
pub assume_specification[ char::len_utf8 ](c: char) -> (n: usize)
    ensures
        n == width(c),
;

/// Every character takes between one and four bytes, and the encoding of a
/// single character is that of its scalar value.
pub proof fn lemma_width(c: char)
    ensures
        1 <= width(c) <= 4,
        encode_utf8(seq![c]) == encode_scalar(c as u32),
{
    reveal_with_fuel(encode_utf8, 2);
    assert(seq![c].drop_first() =~= Seq::<char>::empty());
}

/// Encoding distributes over concatenation.
pub proof fn lemma_encode_concat(a: Seq<char>, b: Seq<char>)
    ensures
        encode_utf8(a + b) == encode_utf8(a) + encode_utf8(b),
    decreases a.len(),
{
    if a.len() == 0 {
        assert(a + b =~= b);
    } else {
        assert((a + b).drop_first() =~= a.drop_first() + b);
        lemma_encode_concat(a.drop_first(), b);
    }
}

/// A text is the encoding of its characters before position `k`, followed by
/// that of the characters from `k` on.
pub proof fn lemma_encode_split(chars: Seq<char>, k: int)
    requires
        0 <= k <= chars.len(),
    ensures
        encode_utf8(chars) == encode_utf8(chars.take(k)) + encode_utf8(chars.skip(k)),
        0 <= offset_of(chars, k) <= encode_utf8(chars).len(),
        encode_utf8(chars).subrange(0, offset_of(chars, k)) == encode_utf8(chars.take(k)),
        encode_utf8(chars).subrange(offset_of(chars, k), encode_utf8(chars).len() as int)
            == encode_utf8(chars.skip(k)),
{
    assert(chars =~= chars.take(k) + chars.skip(k));
    lemma_encode_concat(chars.take(k), chars.skip(k));
}

/// The character at position `k` starts at its offset and takes `width`
/// bytes, so the next character starts right behind it.
pub proof fn lemma_offset_step(chars: Seq<char>, k: int)
    requires
        0 <= k < chars.len(),
    ensures
        offset_of(chars, k + 1) == offset_of(chars, k) + width(chars[k]),
        offset_of(chars, k + 1) <= encode_utf8(chars).len(),
        encode_utf8(chars).subrange(offset_of(chars, k), offset_of(chars, k + 1)) == encode_scalar(
            chars[k] as u32,
        ),
{
    let c = chars[k];
    lemma_width(c);
    assert(chars.take(k + 1) =~= chars.take(k) + seq![c]);
    lemma_encode_concat(chars.take(k), seq![c]);
    lemma_encode_split(chars, k + 1);
    let whole = encode_utf8(chars);
    let upto = whole.subrange(0, offset_of(chars, k + 1));
    assert(whole.subrange(offset_of(chars, k), offset_of(chars, k + 1)) =~= upto.subrange(
        offset_of(chars, k),
        offset_of(chars, k + 1),
    ));
}

/// A valid text that starts with another valid text has a character boundary
/// where that one ends.
pub proof fn lemma_prefix_boundary(text: Seq<u8>, prefix: Seq<u8>)
    requires
        valid_utf8(text),
        valid_utf8(prefix),
        prefix.len() <= text.len(),
        text.subrange(0, prefix.len() as int) == prefix,
    ensures
        is_char_boundary(text, prefix.len() as int),
    decreases prefix.len(),
{
    if prefix.len() > 0 {
        // Both start with the same character, whose first byte gives its
        // width; behind it the shorter text is again a prefix of the longer.
        let w = vstd::utf8::length_of_first_scalar(prefix);
        assert(text[0] == text.subrange(0, prefix.len() as int)[0]);
        assert(vstd::utf8::length_of_first_scalar(text) == w);
        let text_rest = vstd::utf8::pop_first_scalar(text);
        let prefix_rest = vstd::utf8::pop_first_scalar(prefix);
        assert(text_rest.subrange(0, prefix_rest.len() as int) =~= prefix_rest) by {
            assert forall|i: int| 0 <= i < prefix_rest.len() implies text_rest[i]
                == prefix_rest[i] by {
                assert(text.subrange(0, prefix.len() as int)[i + w] == prefix[i + w]);
            }
        }
        lemma_prefix_boundary(text_rest, prefix_rest);
    }
}

/// Inside a valid text, a position that is a character boundary of the part
/// behind a character boundary is a character boundary of the whole.
pub proof fn lemma_boundary_in_suffix(text: Seq<u8>, from: int, k: int)
    requires
        valid_utf8(text),
        is_char_boundary(text, from),
        0 <= from <= text.len(),
        0 <= k <= text.len() - from,
        is_char_boundary(text.subrange(from, text.len() as int), k),
    ensures
        is_char_boundary(text, from + k),
{
    let suffix = text.subrange(from, text.len() as int);
    vstd::utf8::valid_utf8_split(text, from);
    if from + k == text.len() {
        vstd::utf8::is_char_boundary_start_end_of_seq(text);
    } else {
        vstd::utf8::is_char_boundary_iff_not_is_continuation_byte(suffix, k);
        vstd::utf8::is_char_boundary_iff_not_is_continuation_byte(text, from + k);
        assert(suffix[k] == text[from + k]);
    }
}

/// The start of every character of a text is a character boundary of its
/// encoding, and so is the end of the text.
pub proof fn lemma_offset_is_boundary(chars: Seq<char>, k: int)
    requires
        0 <= k <= chars.len(),
    ensures
        is_char_boundary(encode_utf8(chars), offset_of(chars, k)),
{
    vstd::utf8::encode_utf8_valid_utf8(chars);
    vstd::utf8::encode_utf8_valid_utf8(chars.take(k));
    lemma_encode_split(chars, k);
    lemma_prefix_boundary(encode_utf8(chars), encode_utf8(chars.take(k)));
}

/// Every character boundary of a valid text is the start of one of its
/// characters, or the end of the text.
pub proof fn lemma_boundary_is_offset(text: Seq<u8>, at: int) -> (k: int)
    requires
        valid_utf8(text),
        is_char_boundary(text, at),
        0 <= at <= text.len(),
    ensures
        0 <= k <= decode_utf8(text).len(),
        offset_of(decode_utf8(text), k) == at,
        decode_utf8(text).take(k) == decode_utf8(text.subrange(0, at)),
        decode_utf8(text).skip(k) == decode_utf8(text.subrange(at, text.len() as int)),
{
    let head = text.subrange(0, at);
    let tail = text.subrange(at, text.len() as int);
    vstd::utf8::valid_utf8_split(text, at);
    vstd::utf8::decode_utf8_split(text, at);
    vstd::utf8::decode_utf8_encode_utf8(head);
    let chars = decode_utf8(text);
    let k = decode_utf8(head).len() as int;
    assert(chars.take(k) =~= decode_utf8(head));
    assert(chars.skip(k) =~= decode_utf8(tail));
    k
}

} // verus!

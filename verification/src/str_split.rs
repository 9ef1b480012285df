//! A lazy splitter of string slices.
//!
//! Texts are modelled by their UTF-8 bytes, and positions are byte offsets,
//! as they are in a `&str`.

pub mod encoding;
pub mod laws;
pub mod search;

use vstd::prelude::*;
use vstd::string::StringSliceAdditionalSpecFns;
use vstd::utf8::is_char_boundary;
use vstd::utf8::valid_utf8;

verus! {

/// A strategy that locates the next delimiter in a text.
pub trait Delimiter {
    /// The delimiter occurrence that this strategy reports in `text`: the
    /// offset of its first byte and the offset just behind its last, or
    /// `None` where the text holds no occurrence.
    spec fn next_match(&self, text: Seq<u8>) -> Option<(int, int)>;

    /// A reported occurrence lies inside the text and cuts no character.
    proof fn lemma_next_match_in_text(&self, text: Seq<u8>)
        requires
            valid_utf8(text),
        ensures
            self.next_match(text) matches Some((start, end)) ==> {
                &&& 0 <= start <= end <= text.len()
                &&& is_char_boundary(text, start)
                &&& is_char_boundary(text, end)
            },
    ;

    /// Locates the next delimiter in `s`.
    fn find_next(&self, s: &str) -> (found: Option<(usize, usize)>)
        ensures
            match found {
                Some((start, end)) => self.next_match(s.spec_bytes()) == Some(
                    (start as int, end as int),
                ),
                None => self.next_match(s.spec_bytes()) is None,
            },
    ;
}

/// What one production step does to the unconsumed text: the segment it
/// yields, if any, and the text left for later steps.
pub open spec fn split_step<D: Delimiter>(delimiter: D, remaining: Option<Seq<u8>>) -> (
    Option<Seq<u8>>,
    Option<Seq<u8>>,
) {
    match remaining {
        None => (None, None),
        Some(text) => match delimiter.next_match(text) {
            Some((start, end)) => (
                Some(text.subrange(0, start)),
                Some(text.subrange(end, text.len() as int)),
            ),
            None => (Some(text), None),
        },
    }
}

/// The bytes of an optional string slice.
pub open spec fn bytes_of(s: Option<&str>) -> Option<Seq<u8>> {
    match s {
        Some(s) => Some(s.spec_bytes()),
        None => None,
    }
}

/// Produces, one at a time, the segments of a text that lie between the
/// occurrences of a delimiter.
#[derive(Debug)]
pub struct StrSplit<'haystack, D> {
    remainder: Option<&'haystack str>,
    delimiter: D,
}

impl<'haystack, D> StrSplit<'haystack, D> {
    /// The text not yet consumed, or `None` once the splitter is exhausted.
    pub closed spec fn remaining(&self) -> Option<Seq<u8>> {
        bytes_of(self.remainder)
    }

    /// The strategy the splitter was made with.
    pub closed spec fn delimiter(&self) -> D {
        self.delimiter
    }

    /// A splitter that has all of `haystack` before it. It is not exhausted
    /// even where `haystack` is empty: an empty text has one segment, the
    /// empty one.
    pub fn new(haystack: &'haystack str, delimiter: D) -> (splitter: Self)
        ensures
            splitter.remaining() == Some(haystack.spec_bytes()),
            splitter.delimiter() == delimiter,
    {
        Self { remainder: Some(haystack), delimiter }
    }
}

impl<'haystack, D: Delimiter> StrSplit<'haystack, D> {
    /// Yields the next segment, or `None` once the splitter is exhausted.
    ///
    /// The segment is the text up to the next delimiter, which is consumed
    /// with it. Where no delimiter is left, the segment is all that remains,
    /// empty or not, and the splitter is exhausted behind it for good.
    pub fn next(&mut self) -> (segment: Option<&'haystack str>)
        ensures
            final(self).delimiter() == old(self).delimiter(),
            (bytes_of(segment), final(self).remaining()) == split_step(
                old(self).delimiter(),
                old(self).remaining(),
            ),
    {
        match self.remainder {
            None => None,
            Some(remainder) => {
                proof {
                    vstd::utf8::encode_utf8_valid_utf8(remainder@);
                    self.delimiter.lemma_next_match_in_text(remainder.spec_bytes());
                }
                match self.delimiter.find_next(remainder) {
                    Some((start, end)) => {
                        let (head, _) = remainder.split_at(start);
                        let (_, tail) = remainder.split_at(end);
                        self.remainder = Some(tail);
                        Some(head)
                    },
                    None => {
                        self.remainder = None;
                        Some(remainder)
                    },
                }
            },
        }
    }
}

/// The part of `s` before the first occurrence of `c`, or all of `s` where
/// `c` does not occur.
pub fn until_char(s: &str, c: char) -> (head: &str)
    ensures
        head@ == match s@.index_of_first(c) {
            Some(k) => s@.take(k),
            None => s@,
        },
{
    let mut splitter = StrSplit::new(s, c);
    let head = splitter.next().expect("StrSplit always gives at least one result");
    proof {
        vstd::utf8::encode_utf8_decode_utf8(s@);
        vstd::utf8::encode_utf8_decode_utf8(head@);
        s@.index_of_first_ensures(c);
        if let Some(k) = s@.index_of_first(c) {
            crate::str_split::encoding::lemma_encode_split(s@, k);
            vstd::utf8::encode_utf8_decode_utf8(s@.take(k));
        }
    }
    head
}

} // verus!

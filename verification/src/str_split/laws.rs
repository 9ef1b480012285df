//! What holds of every run of the splitter, and how the two built-in
//! strategies relate.

use vstd::prelude::*;
use vstd::string::StringSliceAdditionalSpecFns;
use vstd::utf8::decode_utf8;
use vstd::utf8::encode_utf8;
use vstd::utf8::valid_utf8;
use crate::str_split::encoding::lemma_boundary_is_offset;
use crate::str_split::encoding::lemma_encode_concat;
use crate::str_split::encoding::lemma_encode_split;
use crate::str_split::encoding::lemma_offset_step;
use crate::str_split::encoding::lemma_width;
use crate::str_split::encoding::offset_of;
use crate::str_split::search::char_match;
use crate::str_split::search::lemma_leftmost_occurrence;
use crate::str_split::search::lemma_occurrence_boundaries;
use crate::str_split::search::literal_match;
use crate::str_split::search::occurs_at;
use crate::str_split::split_step;
use crate::str_split::Delimiter;

verus! {

/// The text still unconsumed after `steps` production steps that start from
/// `remaining`; `None` once the splitter is exhausted.
pub open spec fn remaining_after<D: Delimiter>(
    delimiter: D,
    remaining: Option<Seq<u8>>,
    steps: nat,
) -> Option<Seq<u8>>
    decreases steps,
{
    if steps == 0 {
        remaining
    } else {
        remaining_after(delimiter, split_step(delimiter, remaining).1, (steps - 1) as nat)
    }
}

/// What the production step with the given number yields, counting from 0,
/// in a run that starts from `remaining`.
pub open spec fn segment_at<D: Delimiter>(
    delimiter: D,
    remaining: Option<Seq<u8>>,
    step: nat,
) -> Option<Seq<u8>> {
    split_step(delimiter, remaining_after(delimiter, remaining, step)).0
}

/// The delimiter occurrence that one production step consumes behind the
/// segment it yields; empty where the step finds none.
pub open spec fn consumed_delimiter<D: Delimiter>(
    delimiter: D,
    remaining: Option<Seq<u8>>,
) -> Seq<u8> {
    match remaining {
        Some(text) => match delimiter.next_match(text) {
            Some((start, end)) => text.subrange(start, end),
            None => Seq::empty(),
        },
        None => Seq::empty(),
    }
}

/// The bytes of an optional text; none where it is absent.
pub open spec fn bytes_or_empty(text: Option<Seq<u8>>) -> Seq<u8> {
    match text {
        Some(bytes) => bytes,
        None => Seq::empty(),
    }
}

/// The segments that the first `steps` production steps yield, each followed
/// by the delimiter occurrence that its step consumed, joined in order.
pub open spec fn joined<D: Delimiter>(
    delimiter: D,
    remaining: Option<Seq<u8>>,
    steps: nat,
) -> Seq<u8>
    decreases steps,
{
    if steps == 0 {
        Seq::empty()
    } else {
        bytes_or_empty(split_step(delimiter, remaining).0) + consumed_delimiter(
            delimiter,
            remaining,
        ) + joined(delimiter, split_step(delimiter, remaining).1, (steps - 1) as nat)
    }
}

/// A text, present or not, is valid UTF-8.
pub open spec fn valid_text(text: Option<Seq<u8>>) -> bool {
    text matches Some(bytes) ==> valid_utf8(bytes)
}

/// One production step on a valid text yields a valid segment, leaves a valid
/// text, and takes the text apart without losing a byte: segment, consumed
/// delimiter and what is left make up the text it started from.
pub proof fn lemma_step_partitions<D: Delimiter>(delimiter: D, remaining: Option<Seq<u8>>)
    requires
        valid_text(remaining),
    ensures
        valid_text(split_step(delimiter, remaining).0),
        valid_text(split_step(delimiter, remaining).1),
        bytes_or_empty(split_step(delimiter, remaining).0) + consumed_delimiter(
            delimiter,
            remaining,
        ) + bytes_or_empty(split_step(delimiter, remaining).1) == bytes_or_empty(remaining),
        remaining is Some ==> split_step(delimiter, remaining).0 is Some,
{
    if let Some(text) = remaining {
        delimiter.lemma_next_match_in_text(text);
        if let Some((start, end)) = delimiter.next_match(text) {
            vstd::utf8::valid_utf8_split(text, start);
            vstd::utf8::valid_utf8_split(text, end);
            assert(text.subrange(0, start) + text.subrange(start, end) + text.subrange(
                end,
                text.len() as int,
            ) =~= text);
        } else {
            assert(text + Seq::<u8>::empty() + Seq::<u8>::empty() =~= text);
        }
    } else {
        assert(Seq::<u8>::empty() + Seq::<u8>::empty() + Seq::<u8>::empty() =~= Seq::<
            u8,
        >::empty());
    }
}

/// Round trip: at every point of a run, for every strategy, the segments
/// yielded so far joined with the delimiter occurrences consumed behind them,
/// followed by the text not yet consumed, are the source text. Once the
/// splitter is exhausted, the joined segments and delimiters alone are the
/// source text.
pub proof fn lemma_round_trip<D: Delimiter>(delimiter: D, text: Seq<u8>, steps: nat)
    requires
        valid_utf8(text),
    ensures
        joined(delimiter, Some(text), steps) + bytes_or_empty(
            remaining_after(delimiter, Some(text), steps),
        ) == text,
        remaining_after(delimiter, Some(text), steps) is None ==> joined(
            delimiter,
            Some(text),
            steps,
        ) == text,
{
    lemma_joined_with_rest(delimiter, Some(text), steps);
    assert(joined(delimiter, Some(text), steps) + Seq::<u8>::empty() =~= joined(
        delimiter,
        Some(text),
        steps,
    ));
}

/// The round trip from any state of the splitter, exhausted or not.
pub proof fn lemma_joined_with_rest<D: Delimiter>(
    delimiter: D,
    remaining: Option<Seq<u8>>,
    steps: nat,
)
    requires
        valid_text(remaining),
    ensures
        valid_text(remaining_after(delimiter, remaining, steps)),
        joined(delimiter, remaining, steps) + bytes_or_empty(
            remaining_after(delimiter, remaining, steps),
        ) == bytes_or_empty(remaining),
    decreases steps,
{
    if steps == 0 {
        assert(Seq::<u8>::empty() + bytes_or_empty(remaining) =~= bytes_or_empty(remaining));
    } else {
        let next = split_step(delimiter, remaining).1;
        lemma_step_partitions(delimiter, remaining);
        lemma_joined_with_rest(delimiter, next, (steps - 1) as nat);
        let head = bytes_or_empty(split_step(delimiter, remaining).0) + consumed_delimiter(
            delimiter,
            remaining,
        );
        let tail = joined(delimiter, next, (steps - 1) as nat);
        let rest = bytes_or_empty(remaining_after(delimiter, remaining, steps));
        assert((head + tail) + rest =~= head + (tail + rest));
    }
}

/// Exhaustion is final: from an exhausted splitter every later step yields
/// nothing and leaves it exhausted.
pub proof fn lemma_exhausted_stays_exhausted<D: Delimiter>(delimiter: D, steps: nat)
    ensures
        remaining_after(delimiter, None, steps) is None,
        segment_at(delimiter, None, steps) is None,
    decreases steps,
{
    if steps > 0 {
        lemma_exhausted_stays_exhausted(delimiter, (steps - 1) as nat);
    }
}

/// A run can be cut in two: `first + second` steps from a state are `second`
/// steps from the state that `first` steps lead to.
pub proof fn lemma_remaining_after_add<D: Delimiter>(
    delimiter: D,
    remaining: Option<Seq<u8>>,
    first: nat,
    second: nat,
)
    ensures
        remaining_after(delimiter, remaining, first + second) == remaining_after(
            delimiter,
            remaining_after(delimiter, remaining, first),
            second,
        ),
    decreases first,
{
    if first > 0 {
        lemma_remaining_after_add(
            delimiter,
            split_step(delimiter, remaining).1,
            (first - 1) as nat,
            second,
        );
    }
}

/// Once a step of a run has yielded nothing, no later step of that run
/// yields anything: no data comes back after the end.
pub proof fn lemma_nothing_after_the_end<D: Delimiter>(
    delimiter: D,
    remaining: Option<Seq<u8>>,
    step: nat,
    later: nat,
)
    requires
        valid_text(remaining),
        segment_at(delimiter, remaining, step) is None,
        step <= later,
    ensures
        segment_at(delimiter, remaining, later) is None,
        remaining_after(delimiter, remaining, later) is None,
{
    lemma_joined_with_rest(delimiter, remaining, step);
    let reached = remaining_after(delimiter, remaining, step);
    lemma_step_partitions(delimiter, reached);
    assert(reached is None);
    lemma_remaining_after_add(delimiter, remaining, step, (later - step) as nat);
    lemma_exhausted_stays_exhausted(delimiter, (later - step) as nat);
}

/// Every occurrence that the strategy reports ends behind the start of the
/// text, so that each step that finds one consumes at least one byte.
pub open spec fn advances<D: Delimiter>(delimiter: D) -> bool {
    forall|text: Seq<u8>|
        valid_utf8(text) ==> (#[trigger] delimiter.next_match(text) matches Some((_, end))
            ==> end > 0)
}

/// With a strategy that advances, the run over a text is finite: the
/// splitter is exhausted after at most one step more than the text has
/// bytes.
pub proof fn lemma_run_is_finite<D: Delimiter>(delimiter: D, text: Seq<u8>)
    requires
        valid_utf8(text),
        advances(delimiter),
    ensures
        remaining_after(delimiter, Some(text), text.len() + 1) is None,
    decreases text.len(),
{
    let next = split_step(delimiter, Some(text)).1;
    lemma_step_partitions(delimiter, Some(text));
    delimiter.lemma_next_match_in_text(text);
    match next {
        Some(rest) => {
            lemma_run_is_finite(delimiter, rest);
            let spare = (text.len() - 1 - rest.len()) as nat;
            lemma_remaining_after_add(delimiter, next, rest.len() + 1, spare);
            lemma_exhausted_stays_exhausted(delimiter, spare);
            assert(rest.len() + 1 + spare == text.len());
        },
        None => {
            lemma_exhausted_stays_exhausted(delimiter, text.len());
        },
    }
}

/// The single-character strategy advances, and the literal-string strategy
/// does so for every pattern but the empty one.
pub proof fn lemma_built_in_strategies_advance(pattern: &str, c: char)
    ensures
        advances(c),
        pattern@.len() > 0 ==> advances(pattern),
{
    assert forall|text: Seq<u8>| valid_utf8(text) implies (#[trigger] c.next_match(text) matches Some(
        (_, end),
    ) ==> end > 0) by {
        lemma_width(c);
        c.lemma_next_match_in_text(text);
    }
    if pattern@.len() > 0 {
        assert(pattern@ =~= seq![pattern@[0]] + pattern@.drop_first());
        lemma_encode_concat(seq![pattern@[0]], pattern@.drop_first());
        lemma_width(pattern@[0]);
        assert forall|text: Seq<u8>| valid_utf8(text) implies (#[trigger] pattern.next_match(
            text,
        ) matches Some((_, end)) ==> end > 0) by {
            pattern.lemma_next_match_in_text(text);
        }
    }
}

/// A text in which the strategy finds no delimiter gives exactly one
/// segment, the whole text; the splitter is exhausted behind it.
pub proof fn lemma_no_delimiter_one_segment<D: Delimiter>(delimiter: D, text: Seq<u8>)
    requires
        delimiter.next_match(text) is None,
    ensures
        segment_at(delimiter, Some(text), 0) == Some(text),
        remaining_after(delimiter, Some(text), 1) is None,
        segment_at(delimiter, Some(text), 1) is None,
{
    reveal_with_fuel(remaining_after, 2);
}

/// Where the delimiter does not occur in a text, the built-in strategies
/// report nothing, so the text comes out as one segment.
pub proof fn lemma_absent_delimiter(text: Seq<u8>, pattern: &str, c: char)
    ensures
        (forall|at: int| !occurs_at(text, pattern.spec_bytes(), at)) ==> pattern.next_match(text)
            is None,
        !decode_utf8(text).contains(c) ==> c.next_match(text) is None,
{
    decode_utf8(text).index_of_first_ensures(c);
}

/// Characters further on in a text start at later offsets.
pub proof fn lemma_offset_monotonic(chars: Seq<char>, i: int, j: int)
    requires
        0 <= i <= j <= chars.len(),
    ensures
        offset_of(chars, i) <= offset_of(chars, j),
        i < j ==> offset_of(chars, i) < offset_of(chars, j),
{
    assert(chars.take(j) =~= chars.take(i) + chars.subrange(i, j));
    lemma_encode_concat(chars.take(i), chars.subrange(i, j));
    if i < j {
        let between = chars.subrange(i, j);
        assert(between =~= seq![between[0]] + between.drop_first());
        lemma_encode_concat(seq![between[0]], between.drop_first());
        lemma_width(between[0]);
    }
}

/// Wherever the encoding of `c` stands in a valid text, a character of the
/// text that equals `c` starts.
pub proof fn lemma_occurrence_is_char(text: Seq<u8>, c: char, at: int) -> (k: int)
    requires
        valid_utf8(text),
        occurs_at(text, encode_utf8(seq![c]), at),
    ensures
        0 <= k < decode_utf8(text).len(),
        decode_utf8(text)[k] == c,
        offset_of(decode_utf8(text), k) == at,
{
    let pattern = encode_utf8(seq![c]);
    let chars = decode_utf8(text);
    lemma_width(c);
    vstd::utf8::encode_utf8_valid_utf8(seq![c]);
    lemma_occurrence_boundaries(text, pattern, at);
    let end = at + pattern.len();
    let k = lemma_boundary_is_offset(text, at);
    let after = lemma_boundary_is_offset(text, end);
    let from_at = text.subrange(at, text.len() as int);
    let from_end = text.subrange(end, text.len() as int);
    vstd::utf8::valid_utf8_split(text, at);
    vstd::utf8::valid_utf8_split(text, end);
    vstd::utf8::decode_utf8_encode_utf8(from_end);
    assert(from_at =~= pattern + from_end);
    lemma_encode_concat(seq![c], decode_utf8(from_end));
    vstd::utf8::encode_utf8_decode_utf8(seq![c] + decode_utf8(from_end));
    assert(chars.skip(k) == seq![c] + decode_utf8(from_end));
    assert(chars.skip(k).len() > 0);
    assert(chars.skip(k)[0] == c);
    k
}

/// Consistency of the built-in strategies: on every text, the
/// single-character strategy for `c` and the literal-string strategy for the
/// string that holds just `c` report the same occurrence.
pub proof fn lemma_char_and_literal_agree(text: Seq<u8>, c: char)
    requires
        valid_utf8(text),
    ensures
        char_match(text, c) == literal_match(text, encode_utf8(seq![c])),
{
    let pattern = encode_utf8(seq![c]);
    let chars = decode_utf8(text);
    lemma_width(c);
    vstd::utf8::decode_utf8_encode_utf8(text);
    chars.index_of_first_ensures(c);
    match chars.index_of_first(c) {
        Some(k) => {
            let start = offset_of(chars, k);
            lemma_offset_step(chars, k);
            lemma_encode_split(chars, k);
            assert(occurs_at(text, pattern, start));
            assert forall|earlier: int| 0 <= earlier < start implies !occurs_at(
                text,
                pattern,
                earlier,
            ) by {
                if occurs_at(text, pattern, earlier) {
                    let m = lemma_occurrence_is_char(text, c, earlier);
                    if k <= m {
                        lemma_offset_monotonic(chars, k, m);
                    }
                }
            }
            lemma_leftmost_occurrence(text, pattern, start);
        },
        None => {
            assert forall|at: int| !occurs_at(text, pattern, at) by {
                if occurs_at(text, pattern, at) {
                    let m = lemma_occurrence_is_char(text, c, at);
                    assert(chars.contains(c));
                }
            }
        },
    }
}

/// The same consistency, said of the strategies themselves: a string of the
/// single character `c` and the character `c` are interchangeable as
/// delimiters.
pub proof fn lemma_strategies_agree(pattern: &str, c: char, text: Seq<u8>)
    requires
        valid_utf8(text),
        pattern@ == seq![c],
    ensures
        pattern.next_match(text) == c.next_match(text),
{
    lemma_char_and_literal_agree(text, c);
}

} // verus!

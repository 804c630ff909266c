//! What the parser never lets through: a header value that breaks the
//! grammar is an error, never a partial or a default result.

use crate::http_range::{parse_header, resolve_range, resolve_ranges, unit_token, ParseError, RangeSet};
use crate::text::{
    count_of, decimal_number, lemma_split_len, lemma_trim_keeps_count, split_text, trim_text,
};
use std::ops::Range;
use vstd::prelude::*;

verus! {

/// The range specifiers of a header value, as the parser finds them: what
/// stands between the `=` and the `/`, cut at the commas.
pub open spec fn specifiers(text: Seq<char>) -> Seq<Seq<char>> {
    let payload = trim_text(split_text(text, '=')[1]);
    split_text(trim_text(split_text(payload, '/')[0]), ',')
}

/// A value whose unit is anything but `bytes` is malformed.
pub proof fn other_unit_is_malformed(text: Seq<char>, content_length: u64)
    requires
        text.len() > 0,
        trim_text(split_text(text, '=')[0]) != unit_token(),
    ensures
        parse_header(text, content_length) == Err::<RangeSet, ParseError>(ParseError::Malformed),
{
}

/// A value without `=`, or with more than one, is malformed.
pub proof fn equals_sign_must_be_single(text: Seq<char>, content_length: u64)
    requires
        text.len() > 0,
        count_of(text, '=') != 1,
    ensures
        parse_header(text, content_length) == Err::<RangeSet, ParseError>(ParseError::Malformed),
{
    lemma_split_len(text, '=');
}

/// A value with more than one `/` behind its `=` is malformed.
pub proof fn slash_must_be_single(text: Seq<char>, content_length: u64)
    requires
        text.len() > 0,
        count_of(split_text(text, '=')[1], '/') > 1,
    ensures
        parse_header(text, content_length) == Err::<RangeSet, ParseError>(ParseError::Malformed),
{
    let payload = split_text(text, '=')[1];
    lemma_trim_keeps_count(payload, '/');
    lemma_split_len(trim_text(payload), '/');
}

/// A specifier with a bound that is written but is no number is malformed.
pub proof fn unreadable_bound_is_malformed(piece: Seq<char>, content_length: u64)
    requires
        split_text(piece, '-').len() == 2,
        ({
            let first = trim_text(split_text(piece, '-')[0]);
            let last = trim_text(split_text(piece, '-')[1]);
            ||| first.len() > 0 && decimal_number(first) is None
            ||| last.len() > 0 && decimal_number(last) is None
        }),
    ensures
        resolve_range(piece, content_length) == Err::<Range<u64>, ParseError>(
            ParseError::Malformed,
        ),
{
    let first = trim_text(split_text(piece, '-')[0]);
    let last = trim_text(split_text(piece, '-')[1]);
    assert(first.len() == 0 ==> decimal_number(first) is None);
    assert(last.len() == 0 ==> decimal_number(last) is None);
}

/// Resolving specifiers never reports an empty input.
pub proof fn lemma_resolve_ranges_never_empty(pieces: Seq<Seq<char>>, content_length: u64)
    ensures
        resolve_ranges(pieces, content_length) != Err::<Seq<Range<u64>>, ParseError>(
            ParseError::Empty,
        ),
    decreases pieces.len(),
{
    if pieces.len() > 0 {
        lemma_resolve_ranges_never_empty(pieces.drop_last(), content_length);
    }
}

/// The error for an empty input is given for the text without characters,
/// and for no other.
pub proof fn empty_error_is_for_empty_text(text: Seq<char>, content_length: u64)
    ensures
        parse_header(text, content_length) == Err::<RangeSet, ParseError>(ParseError::Empty)
            <==> text.len() == 0,
{
    if text.len() > 0 {
        lemma_resolve_ranges_never_empty(specifiers(text), content_length);
    }
}

/// One specifier that fails makes the whole list fail.
pub proof fn lemma_one_failure_fails_all(pieces: Seq<Seq<char>>, content_length: u64, k: int)
    requires
        0 <= k < pieces.len(),
        resolve_range(pieces[k], content_length) is Err,
    ensures
        resolve_ranges(pieces, content_length) is Err,
    decreases pieces.len(),
{
    if k < pieces.len() - 1 {
        lemma_one_failure_fails_all(pieces.drop_last(), content_length, k);
    }
}

/// A value with a specifier that cannot be resolved is rejected as a whole,
/// wherever in the list the specifier stands.
pub proof fn failed_specifier_rejects_all(text: Seq<char>, content_length: u64, k: int)
    requires
        0 <= k < specifiers(text).len(),
        resolve_range(specifiers(text)[k], content_length) is Err,
    ensures
        parse_header(text, content_length) is Err,
{
    lemma_one_failure_fails_all(specifiers(text), content_length, k);
}

} // verus!

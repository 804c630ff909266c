//! Rendering and parsing undo each other on range sets in canonical form.

use crate::http_range::{
    complete_length_of, header_text, length_text, parse_header, range_text, ranges_text,
    resolve_range, resolve_ranges, unit_token, CompleteLength, ParseError, RangeSet,
};
use crate::merge::lemma_merge_of_normalized;
use crate::text::{
    decimal_text, free_of, is_digit, lemma_decimal_round_trip,
    lemma_decimal_text, lemma_split_free, lemma_split_join, lemma_trim_tight, split_text,
    trim_text,
};
use std::ops::Range;
use vstd::prelude::*;

verus! {

/// The characters that a rendered list of ranges is made of.
pub open spec fn is_list_char(c: char) -> bool {
    is_digit(c) || c == '-' || c == ','
}

pub open spec fn list_chars_only(s: Seq<char>) -> bool {
    forall|i: int| 0 <= i < s.len() ==> is_list_char(#[trigger] s[i])
}

/// Each range rendered on its own.
pub open spec fn rendered(ranges: Seq<Range<u64>>) -> Seq<Seq<char>> {
    Seq::new(ranges.len(), |i: int| range_text(ranges[i]))
}

/// A rendered range resolves to itself, whatever the content length.
pub proof fn lemma_range_text_resolves(r: Range<u64>, content_length: u64)
    ensures
        resolve_range(range_text(r), content_length) == Ok::<Range<u64>, ParseError>(r),
        range_text(r).len() > 0,
        is_digit(range_text(r)[0]),
        is_digit(range_text(r).last()),
        list_chars_only(range_text(r)),
        free_of(range_text(r), ','),
{
    let first = decimal_text(r.start as nat);
    let last = decimal_text(r.end as nat);
    lemma_decimal_text(r.start as nat);
    lemma_decimal_text(r.end as nat);
    lemma_decimal_round_trip(r.start);
    lemma_decimal_round_trip(r.end);
    let t = range_text(r);
    assert(t[0] == first[0]);
    assert(t.last() == last.last());
    assert forall|i: int| 0 <= i < t.len() implies is_list_char(#[trigger] t[i]) && t[i] != ',' by {
        if i < first.len() {
            assert(t[i] == first[i]);
        } else if i > first.len() {
            assert(t[i] == last[i - first.len() - 1]);
        }
    }
    assert(free_of(first, '-')) by {
        assert forall|i: int| 0 <= i < first.len() implies #[trigger] first[i] != '-' by {
            assert(is_digit(first[i]));
        }
    }
    assert(free_of(last, '-')) by {
        assert forall|i: int| 0 <= i < last.len() implies #[trigger] last[i] != '-' by {
            assert(is_digit(last[i]));
        }
    }
    lemma_split_join(first, last, '-');
    lemma_split_free(first, '-');
    lemma_split_free(last, '-');
    let values = split_text(t, '-');
    assert(values =~= seq![first, last]);
    assert(values[0] == first && values[1] == last);
    lemma_trim_tight(first);
    lemma_trim_tight(last);
}

/// A rendered list splits at its commas into the rendered ranges.
pub proof fn lemma_ranges_text_splits(ranges: Seq<Range<u64>>)
    requires
        ranges.len() > 0,
    ensures
        split_text(ranges_text(ranges), ',') == rendered(ranges),
        ranges_text(ranges).len() > 0,
        is_digit(ranges_text(ranges)[0]),
        is_digit(ranges_text(ranges).last()),
        list_chars_only(ranges_text(ranges)),
    decreases ranges.len(),
{
    let t = ranges_text(ranges);
    let tail = range_text(ranges.last());
    lemma_range_text_resolves(ranges.last(), 0);
    if ranges.len() == 1 {
        lemma_split_free(t, ',');
        assert(seq![t] =~= rendered(ranges));
    } else {
        let front = ranges.drop_last();
        let head = ranges_text(front);
        lemma_ranges_text_splits(front);
        lemma_split_join(head, tail, ',');
        lemma_split_free(tail, ',');
        assert(rendered(front) + seq![tail] =~= rendered(ranges));
        assert(t[0] == head[0]);
        assert(t.last() == tail.last());
        assert forall|i: int| 0 <= i < t.len() implies is_list_char(#[trigger] t[i]) by {
            if i < head.len() {
                assert(t[i] == head[i]);
            } else if i > head.len() {
                assert(t[i] == tail[i - head.len() - 1]);
            }
        }
    }
}

/// The rendered ranges resolve to the ranges they were rendered from.
pub proof fn lemma_rendered_resolves(ranges: Seq<Range<u64>>, content_length: u64)
    ensures
        resolve_ranges(rendered(ranges), content_length) == Ok::<Seq<Range<u64>>, ParseError>(
            ranges,
        ),
    decreases ranges.len(),
{
    if ranges.len() == 0 {
        assert(ranges =~= Seq::<Range<u64>>::empty());
    } else {
        lemma_rendered_resolves(ranges.drop_last(), content_length);
        lemma_range_text_resolves(ranges.last(), content_length);
        assert(rendered(ranges).drop_last() =~= rendered(ranges.drop_last()));
        assert(rendered(ranges).last() == range_text(ranges.last()));
        assert(ranges.drop_last().push(ranges.last()) =~= ranges);
    }
}

/// What stands behind the `/` for a given complete length.
pub open spec fn length_token(length: CompleteLength) -> Seq<char> {
    match length {
        CompleteLength::Unknown => seq!['*'],
        CompleteLength::Representation(n) => decimal_text(n as nat),
    }
}

/// A rendered length has no blank, `=` or `/` in it and reads back as the
/// length.
pub proof fn lemma_length_token(length: CompleteLength)
    ensures
        length_text(Some(length)) == seq!['/'] + length_token(length),
        length_token(length).len() > 0,
        forall|i: int|
            0 <= i < length_token(length).len() ==> is_digit(#[trigger] length_token(length)[i])
                || length_token(length)[i] == '*',
        complete_length_of(length_token(length)) == Ok::<CompleteLength, ParseError>(length),
{
    let token = length_token(length);
    match length {
        CompleteLength::Unknown => {
            assert(length_text(Some(length)) =~= seq!['/'] + token);
        },
        CompleteLength::Representation(n) => {
            lemma_decimal_text(n as nat);
            lemma_decimal_round_trip(n);
            assert(is_digit(token[0]));
            assert(token != seq!['*']) by {
                assert(seq!['*'][0] == '*');
            }
        },
    }
}

/// The part behind the `=`: it is free of `=` and of blanks at its ends, and
/// splits at its `/`, if it has one, into the list and the length token.
pub proof fn lemma_payload_splits(list: Seq<char>, length: Option<CompleteLength>)
    requires
        list.len() > 0,
        list_chars_only(list),
        is_digit(list[0]),
        is_digit(list.last()),
    ensures
        free_of(list + length_text(length), '='),
        trim_text(list + length_text(length)) == list + length_text(length),
        split_text(list + length_text(length), '/')[0] == list,
        trim_text(list) == list,
        length is None ==> split_text(list + length_text(length), '/').len() == 1,
        length is Some ==> split_text(list + length_text(length), '/').len() == 2
            && complete_length_of(trim_text(split_text(list + length_text(length), '/')[1]))
            == Ok::<CompleteLength, ParseError>(length->Some_0),
{
    let payload = list + length_text(length);
    assert(free_of(list, '/') && free_of(list, '=')) by {
        assert forall|i: int| 0 <= i < list.len() implies #[trigger] list[i] != '/' && list[i]
            != '=' by {
            assert(is_list_char(list[i]));
        }
    }
    lemma_split_free(list, '/');
    lemma_trim_tight(list);
    match length {
        None => {
            assert(payload =~= list);
        },
        Some(given) => {
            let token = length_token(given);
            lemma_length_token(given);
            assert(payload =~= list + seq!['/'] + token);
            assert(free_of(token, '/') && free_of(token, '=')) by {
                assert forall|i: int| 0 <= i < token.len() implies #[trigger] token[i] != '/'
                    && token[i] != '=' by {
                    assert(is_digit(token[i]) || token[i] == '*');
                }
            }
            lemma_split_join(list, token, '/');
            lemma_split_free(token, '/');
            assert(split_text(payload, '/') =~= seq![list, token]);
            assert(is_digit(token[0]) || token[0] == '*');
            assert(is_digit(token.last()) || token.last() == '*');
            lemma_trim_tight(token);
            assert(payload[0] == list[0]);
            assert(payload.last() == token.last());
            assert forall|i: int| 0 <= i < payload.len() implies #[trigger] payload[i] != '=' by {
                if i < list.len() {
                    assert(payload[i] == list[i]);
                } else if i > list.len() {
                    assert(payload[i] == token[i - list.len() - 1]);
                }
            }
            lemma_trim_tight(payload);
        },
    }
}

/// Parsing the rendering of a range set gives the set back: for every set
/// with at least one range whose ranges are in canonical form, which is every
/// set that the parser hands out, and for every content length. (Without
/// ranges the rendering is empty, which the parser rejects.)
pub proof fn parse_inverts_render(set: RangeSet, content_length: u64)
    requires
        set.well_formed(),
    ensures
        parse_header(header_text(set), content_length) == Ok::<RangeSet, ParseError>(set),
{
    let unit = unit_token();
    let list = ranges_text(set.ranges);
    let payload = list + length_text(set.complete_length);
    let text = header_text(set);
    lemma_ranges_text_splits(set.ranges);
    lemma_rendered_resolves(set.ranges, content_length);
    lemma_merge_of_normalized(set.ranges);
    lemma_payload_splits(list, set.complete_length);
    assert(text =~= unit + seq!['='] + payload);
    assert(free_of(unit, '='));
    lemma_split_join(unit, payload, '=');
    lemma_split_free(unit, '=');
    lemma_split_free(payload, '=');
    let parts = split_text(text, '=');
    assert(parts =~= seq![unit, payload]);
    assert(parts[0] == unit && parts[1] == payload);
    lemma_trim_tight(unit);
}

} // verus!

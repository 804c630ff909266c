//! The value of a byte-range header: its grammar as a function on characters,
//! the parser and the renderer that follow it, and the test of whether any of
//! the ranges can be served.
//!
//! A range is a `Range<u64>` whose `start` and `end` are the first and the
//! last byte offset, both inclusive, as on the wire.
//!
//! Choices that the grammar leaves to the implementation:
//! - a numeric token is one or more ASCII digits, which a `+` may precede,
//!   and must fit in 64 bits; anything else, a value that is too large
//!   included, makes the header malformed;
//! - the blanks that are ignored around a token are the characters that
//!   Unicode counts as white space;
//! - a suffix length greater than the content length is rejected with
//!   `ParseError::ArithmeticOverflow`, not clamped to offset zero;
//! - an open-ended or suffix range against a content length of zero is
//!   rejected with `ParseError::ArithmeticOverflow`, as there is no last byte;
//! - a `/` with nothing behind it is malformed;
//! - a range is neither checked against the content length nor required to
//!   have its start before its end.

use crate::merge::{merge, merge_ranges, normalized, lemma_merge_normalized};
use crate::text::{
    chars_of, decimal_number, decimal_text, parse_decimal, push_decimal, split, split_text,
    trim, trim_text, piece_views, lemma_split_nonempty,
};
use std::ops::Range;
use vstd::prelude::*;
use vstd::string::*;

verus! {

/// The only range unit that is understood.
pub const RANGE_UNIT: &'static str = "bytes";

/// The complete-length part of a range header.
#[derive(Debug, PartialEq, Eq, Clone, Copy, Structural)]
pub enum CompleteLength {
    /// The length of the whole representation, as the sender gave it.
    Representation(u64),
    /// `*`: the sender does not know the length.
    Unknown,
}

/// Why a header value was not accepted.
#[derive(Debug, PartialEq, Eq, Clone, Copy, Structural)]
pub enum ParseError {
    /// The value has no characters at all.
    Empty,
    /// The value does not follow the grammar.
    Malformed,
    /// A range counted from the end reaches below offset zero.
    ArithmeticOverflow,
}

/// A parsed range header.
#[derive(Debug, PartialEq)]
pub struct HttpRange {
    /// The ranges, each with inclusive bounds.
    pub ranges: Vec<Range<u64>>,
    /// The complete length, where the header gave one.
    pub complete_length: Option<CompleteLength>,
}

/// What an `HttpRange` stands for in contracts.
pub struct RangeSet {
    pub ranges: Seq<Range<u64>>,
    pub complete_length: Option<CompleteLength>,
}

impl RangeSet {
    /// The state in which the parser hands a range set out: at least one
    /// range, and the ranges in canonical form.
    pub open spec fn well_formed(self) -> bool {
        self.ranges.len() > 0 && normalized(self.ranges)
    }
}

impl View for HttpRange {
    type V = RangeSet;

    open spec fn view(&self) -> RangeSet {
        RangeSet { ranges: self.ranges@, complete_length: self.complete_length }
    }
}

/// The characters of the unit token, `bytes`.
pub open spec fn unit_token() -> Seq<char> {
    seq!['b', 'y', 't', 'e', 's']
}

/// One range specifier resolved against the content length:
/// `first-last` is taken as written, `first-` runs to the last byte, and
/// `-count` is the last `count` bytes.
pub open spec fn resolve_range(piece: Seq<char>, content_length: u64) -> Result<
    Range<u64>,
    ParseError,
> {
    let values = split_text(piece, '-');
    if values.len() != 2 {
        Err(ParseError::Malformed)
    } else {
        let first = trim_text(values[0]);
        let last = trim_text(values[1]);
        if first.len() == 0 && last.len() == 0 {
            Err(ParseError::Malformed)
        } else if first.len() == 0 {
            match decimal_number(last) {
                None => Err(ParseError::Malformed),
                Some(count) => if count > content_length || content_length == 0 {
                    Err(ParseError::ArithmeticOverflow)
                } else {
                    Ok(
                        Range {
                            start: (content_length - count) as u64,
                            end: (content_length - 1) as u64,
                        },
                    )
                },
            }
        } else if last.len() == 0 {
            match decimal_number(first) {
                None => Err(ParseError::Malformed),
                Some(start) => if content_length == 0 {
                    Err(ParseError::ArithmeticOverflow)
                } else {
                    Ok(Range { start, end: (content_length - 1) as u64 })
                },
            }
        } else {
            match (decimal_number(first), decimal_number(last)) {
                (Some(start), Some(end)) => Ok(Range { start, end }),
                _ => Err(ParseError::Malformed),
            }
        }
    }
}

/// The specifiers resolved from left to right; the first one that fails
/// decides the error.
pub open spec fn resolve_ranges(pieces: Seq<Seq<char>>, content_length: u64) -> Result<
    Seq<Range<u64>>,
    ParseError,
>
    decreases pieces.len(),
{
    if pieces.len() == 0 {
        Ok(Seq::<Range<u64>>::empty())
    } else {
        match resolve_ranges(pieces.drop_last(), content_length) {
            Err(e) => Err(e),
            Ok(ranges) => match resolve_range(pieces.last(), content_length) {
                Err(e) => Err(e),
                Ok(r) => Ok(ranges.push(r)),
            },
        }
    }
}

/// The meaning of what stands behind the `/`.
pub open spec fn complete_length_of(token: Seq<char>) -> Result<CompleteLength, ParseError> {
    if token == seq!['*'] {
        Ok(CompleteLength::Unknown)
    } else {
        match decimal_number(token) {
            Some(n) => Ok(CompleteLength::Representation(n)),
            None => Err(ParseError::Malformed),
        }
    }
}

/// The grammar: `bytes`, `=`, one or more specifiers between commas, and at
/// most one `/` with a length behind it; blanks around any token are ignored.
/// The ranges come out merged.
pub open spec fn parse_header(text: Seq<char>, content_length: u64) -> Result<
    RangeSet,
    ParseError,
> {
    if text.len() == 0 {
        Err(ParseError::Empty)
    } else {
        let parts = split_text(text, '=');
        if parts.len() != 2 || trim_text(parts[0]) != unit_token() {
            Err(ParseError::Malformed)
        } else {
            let params = split_text(trim_text(parts[1]), '/');
            if params.len() > 2 {
                Err(ParseError::Malformed)
            } else {
                match resolve_ranges(split_text(trim_text(params[0]), ','), content_length) {
                    Err(e) => Err(e),
                    Ok(ranges) => if params.len() == 2 {
                        match complete_length_of(trim_text(params[1])) {
                            Err(e) => Err(e),
                            Ok(length) => Ok(
                                RangeSet {
                                    ranges: merge_ranges(ranges),
                                    complete_length: Some(length),
                                },
                            ),
                        }
                    } else {
                        Ok(RangeSet { ranges: merge_ranges(ranges), complete_length: None })
                    },
                }
            }
        }
    }
}

/// One range on the wire: `first-last`.
pub open spec fn range_text(r: Range<u64>) -> Seq<char> {
    decimal_text(r.start as nat) + seq!['-'] + decimal_text(r.end as nat)
}

/// The ranges on the wire, with a comma between each two.
pub open spec fn ranges_text(ranges: Seq<Range<u64>>) -> Seq<char>
    decreases ranges.len(),
{
    if ranges.len() == 0 {
        Seq::<char>::empty()
    } else if ranges.len() == 1 {
        range_text(ranges[0])
    } else {
        ranges_text(ranges.drop_last()) + seq![','] + range_text(ranges.last())
    }
}

/// The complete length on the wire, with its `/`, or nothing.
pub open spec fn length_text(length: Option<CompleteLength>) -> Seq<char> {
    match length {
        None => Seq::<char>::empty(),
        Some(CompleteLength::Unknown) => seq!['/', '*'],
        Some(CompleteLength::Representation(n)) => seq!['/'] + decimal_text(n as nat),
    }
}

/// The header value of a range set; empty where there is no range.
pub open spec fn header_text(set: RangeSet) -> Seq<char> {
    if set.ranges.len() == 0 {
        Seq::<char>::empty()
    } else {
        unit_token() + seq!['='] + ranges_text(set.ranges) + length_text(set.complete_length)
    }
}

/// A range can be served when its first byte exists.
pub open spec fn satisfiable(range: Range<u64>, content_length: u64) -> bool {
    range.start < content_length
}

pub open spec fn some_satisfiable(ranges: Seq<Range<u64>>, content_length: u64) -> bool {
    exists|i: int| 0 <= i < ranges.len() && satisfiable(#[trigger] ranges[i], content_length)
}

/// Once a prefix of the specifiers has failed, the whole list fails alike.
pub proof fn lemma_resolve_ranges_prefix_error(
    pieces: Seq<Seq<char>>,
    content_length: u64,
    k: int,
)
    requires
        0 <= k <= pieces.len(),
        resolve_ranges(pieces.take(k), content_length) is Err,
    ensures
        resolve_ranges(pieces, content_length) == resolve_ranges(pieces.take(k), content_length),
    decreases pieces.len(),
{
    if k < pieces.len() {
        assert(pieces.drop_last().take(k) =~= pieces.take(k));
        lemma_resolve_ranges_prefix_error(pieces.drop_last(), content_length, k);
    } else {
        assert(pieces.take(k) =~= pieces);
    }
}

/// As many ranges come out as specifiers went in.
pub proof fn lemma_resolve_ranges_len(pieces: Seq<Seq<char>>, content_length: u64)
    ensures
        resolve_ranges(pieces, content_length) is Ok ==> resolve_ranges(
            pieces,
            content_length,
        )->Ok_0.len() == pieces.len(),
    decreases pieces.len(),
{
    if pieces.len() > 0 {
        lemma_resolve_ranges_len(pieces.drop_last(), content_length);
    }
}

/// Whatever the parser accepts has at least one range and is in canonical
/// form.
pub proof fn parsed_is_well_formed(text: Seq<char>, content_length: u64)
    ensures
        parse_header(text, content_length) is Ok ==> parse_header(
            text,
            content_length,
        )->Ok_0.well_formed(),
{
    if parse_header(text, content_length) is Ok {
        let parts = split_text(text, '=');
        let params = split_text(trim_text(parts[1]), '/');
        let pieces = split_text(trim_text(params[0]), ',');
        let ranges = resolve_ranges(pieces, content_length)->Ok_0;
        lemma_split_nonempty(trim_text(params[0]), ',');
        lemma_resolve_ranges_len(pieces, content_length);
        lemma_merge_normalized(ranges);
    }
}

fn is_unit(token: &Vec<char>) -> (r: bool)
    ensures
        r == (token@ == unit_token()),
{
    let r = token.len() == 5 && token[0] == 'b' && token[1] == 'y' && token[2] == 't' && token[3]
        == 'e' && token[4] == 's';
    proof {
        if r {
            assert(token@ =~= unit_token());
        } else if token.len() == 5 {
            assert(unit_token()[0] == 'b' && unit_token()[1] == 'y' && unit_token()[2] == 't'
                && unit_token()[3] == 'e' && unit_token()[4] == 's');
        }
    }
    r
}

/// Resolves one range specifier against the content length.
pub fn parse_range(piece: &Vec<char>, content_length: u64) -> (r: Result<Range<u64>, ParseError>)
    ensures
        r == resolve_range(piece@, content_length),
{
    let values = split(piece, '-');
    if values.len() != 2 {
        return Err(ParseError::Malformed);
    }
    assert(piece_views(values@)[0] == values@[0]@);
    assert(piece_views(values@)[1] == values@[1]@);
    let first = trim(&values[0]);
    let last = trim(&values[1]);
    if first.len() == 0 && last.len() == 0 {
        Err(ParseError::Malformed)
    } else if first.len() == 0 {
        match parse_decimal(&last) {
            None => Err(ParseError::Malformed),
            Some(count) => if count > content_length || content_length == 0 {
                Err(ParseError::ArithmeticOverflow)
            } else {
                Ok(Range { start: content_length - count, end: content_length - 1 })
            },
        }
    } else if last.len() == 0 {
        match parse_decimal(&first) {
            None => Err(ParseError::Malformed),
            Some(start) => if content_length == 0 {
                Err(ParseError::ArithmeticOverflow)
            } else {
                Ok(Range { start, end: content_length - 1 })
            },
        }
    } else {
        match parse_decimal(&first) {
            None => Err(ParseError::Malformed),
            Some(start) => match parse_decimal(&last) {
                None => Err(ParseError::Malformed),
                Some(end) => Ok(Range { start, end }),
            },
        }
    }
}

/// Reads what stands behind the `/`.
pub fn parse_complete_length(token: &Vec<char>) -> (r: Result<CompleteLength, ParseError>)
    ensures
        r == complete_length_of(token@),
{
    if token.len() == 1 && token[0] == '*' {
        assert(token@ =~= seq!['*']);
        return Ok(CompleteLength::Unknown);
    }
    assert(token@ != seq!['*']) by {
        if token@ == seq!['*'] {
            assert(seq!['*'].len() == 1);
            assert(seq!['*'][0] == '*');
        }
    }
    match parse_decimal(token) {
        Some(n) => Ok(CompleteLength::Representation(n)),
        None => Err(ParseError::Malformed),
    }
}

impl HttpRange {
    /// Parses a header value against the length of the content, in bytes.
    /// The result is exactly what the grammar gives for the characters of
    /// `content_range`; an accepted value has at least one range, and its
    /// ranges are in canonical form.
    #[verifier::loop_isolation(false)]
    pub fn from_header(content_range: &str, content_length: u64) -> (r: Result<
        HttpRange,
        ParseError,
    >)
        ensures
            match r {
                Ok(parsed) => parse_header(content_range@, content_length) == Ok::<
                    RangeSet,
                    ParseError,
                >(parsed@),
                Err(e) => parse_header(content_range@, content_length) == Err::<
                    RangeSet,
                    ParseError,
                >(e),
            },
            r is Ok ==> r->Ok_0@.well_formed(),
    {
        proof {
            parsed_is_well_formed(content_range@, content_length);
        }
        let text = chars_of(content_range);
        if text.len() == 0 {
            return Err(ParseError::Empty);
        }
        let parts = split(&text, '=');
        if parts.len() != 2 {
            return Err(ParseError::Malformed);
        }
        assert(piece_views(parts@)[0] == parts@[0]@);
        assert(piece_views(parts@)[1] == parts@[1]@);
        let unit = trim(&parts[0]);
        if !is_unit(&unit) {
            return Err(ParseError::Malformed);
        }
        let payload = trim(&parts[1]);
        let params = split(&payload, '/');
        if params.len() > 2 {
            return Err(ParseError::Malformed);
        }
        proof {
            lemma_split_nonempty(payload@, '/');
        }
        assert(piece_views(params@)[0] == params@[0]@);
        let list = trim(&params[0]);
        let pieces = split(&list, ',');
        let mut ranges: Vec<Range<u64>> = Vec::new();
        let mut i: usize = 0;
        assert(piece_views(pieces@).take(0) =~= Seq::<Seq<char>>::empty());
        while i < pieces.len()
            invariant
                i <= pieces.len(),
                piece_views(pieces@) == split_text(list@, ','),
                resolve_ranges(piece_views(pieces@).take(i as int), content_length) == Ok::<
                    Seq<Range<u64>>,
                    ParseError,
                >(ranges@),
            decreases pieces.len() - i,
        {
            proof {
                let views = piece_views(pieces@);
                assert(views.take(i + 1).drop_last() =~= views.take(i as int));
                assert(views.take(i + 1).last() == pieces@[i as int]@);
            }
            match parse_range(&pieces[i], content_length) {
                Err(e) => {
                    proof {
                        lemma_resolve_ranges_prefix_error(
                            piece_views(pieces@),
                            content_length,
                            i + 1,
                        );
                    }
                    return Err(e);
                },
                Ok(range) => {
                    ranges.push(range);
                },
            }
            i += 1;
        }
        assert(piece_views(pieces@).take(i as int) =~= piece_views(pieces@));
        let complete_length = if params.len() == 2 {
            assert(piece_views(params@)[1] == params@[1]@);
            let token = trim(&params[1]);
            match parse_complete_length(&token) {
                Err(e) => {
                    return Err(e);
                },
                Ok(length) => Some(length),
            }
        } else {
            None
        };
        let merged = merge(&ranges);
        Ok(HttpRange { ranges: merged, complete_length })
    }

    /// Renders the header value. Without ranges it is the empty string.
    pub fn to_header(&self) -> (s: String)
        ensures
            s@ == header_text(self@),
    {
        let mut out = String::new();
        if self.ranges.len() == 0 {
            return out;
        }
        proof {
            reveal_strlit("bytes");
        }
        out.append(RANGE_UNIT);
        assert(out@ =~= unit_token());
        out.push('=');
        let mut i: usize = 0;
        assert(self.ranges@.take(0) =~= Seq::<Range<u64>>::empty());
        assert(out@ =~= unit_token() + seq!['='] + ranges_text(self.ranges@.take(0)));
        while i < self.ranges.len()
            invariant
                i <= self.ranges.len(),
                out@ == unit_token() + seq!['='] + ranges_text(self.ranges@.take(i as int)),
            decreases self.ranges.len() - i,
        {
            let ghost before = out@;
            if i > 0 {
                out.push(',');
            }
            push_decimal(&mut out, self.ranges[i].start);
            out.push('-');
            push_decimal(&mut out, self.ranges[i].end);
            proof {
                let next = self.ranges@.take(i + 1);
                assert(next.drop_last() =~= self.ranges@.take(i as int));
                assert(next.last() == self.ranges@[i as int]);
                assert(next[0] == self.ranges@[0]);
                assert(out@ =~= unit_token() + seq!['='] + ranges_text(next));
            }
            i += 1;
        }
        assert(self.ranges@.take(i as int) =~= self.ranges@);
        match self.complete_length {
            Some(CompleteLength::Representation(n)) => {
                out.push('/');
                push_decimal(&mut out, n);
                assert(out@ =~= header_text(self@));
            },
            Some(CompleteLength::Unknown) => {
                out.push('/');
                out.push('*');
                assert(out@ =~= header_text(self@));
            },
            None => {
                assert(out@ =~= header_text(self@));
            },
        }
        out
    }

    /// True when no range can be served from content of the given length:
    /// the negation of `any_satisfiable`.
    pub fn none_satisfiable(&self, content_length: u64) -> (r: bool)
        ensures
            r == !some_satisfiable(self@.ranges, content_length),
    {
        !self.any_satisfiable(content_length)
    }

    /// True when at least one range can be served from content of the given
    /// length.
    pub fn any_satisfiable(&self, content_length: u64) -> (r: bool)
        ensures
            r == some_satisfiable(self@.ranges, content_length),
    {
        let mut i: usize = 0;
        while i < self.ranges.len()
            invariant
                i <= self.ranges.len(),
                forall|k: int| 0 <= k < i ==> !satisfiable(#[trigger] self.ranges@[k], content_length),
            decreases self.ranges.len() - i,
        {
            if HttpRange::range_satisfiable(&self.ranges[i], content_length) {
                return true;
            }
            i += 1;
        }
        false
    }

    /// True when the range begins inside content of the given length.
    pub fn range_satisfiable(range: &Range<u64>, content_length: u64) -> (r: bool)
        ensures
            r == satisfiable(*range, content_length),
    {
        range.start < content_length
    }
}

} // verus!

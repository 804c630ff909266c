//! Character-level building blocks of the header grammar: splitting on a
//! separator, trimming blanks, and decimal numbers in both directions.

use vstd::prelude::*;
use vstd::std_specs::iter::IteratorSpec;
use vstd::string::*;

verus! {

/// The blanks that may surround any token of a header value: the characters
/// that Unicode counts as white space.
pub open spec fn is_space(c: char) -> bool {
    ||| ('\u{9}' <= c && c <= '\u{d}')
    ||| c == ' '
    ||| c == '\u{85}'
    ||| c == '\u{a0}'
    ||| c == '\u{1680}'
    ||| ('\u{2000}' <= c && c <= '\u{200a}')
    ||| c == '\u{2028}'
    ||| c == '\u{2029}'
    ||| c == '\u{202f}'
    ||| c == '\u{205f}'
    ||| c == '\u{3000}'
}

pub open spec fn is_digit(c: char) -> bool {
    '0' <= c && c <= '9'
}

/// The value of a decimal digit; zero for any other character.
pub open spec fn digit_value(c: char) -> nat {
    if is_digit(c) {
        (c as nat - 48) as nat
    } else {
        0
    }
}

/// The character that stands for a value below ten.
pub open spec fn digit_char(d: nat) -> char
    recommends
        d < 10,
{
    (d + 48) as u8 as char
}

pub open spec fn all_digits(s: Seq<char>) -> bool {
    forall|i: int| 0 <= i < s.len() ==> is_digit(#[trigger] s[i])
}

/// True when `c` occurs nowhere in `s`.
pub open spec fn free_of(s: Seq<char>, c: char) -> bool {
    forall|i: int| 0 <= i < s.len() ==> #[trigger] s[i] != c
}

/// The pieces of `s` between occurrences of `sep`, in order. There is always
/// one piece more than there are separators, so the result is never empty.
pub open spec fn split_text(s: Seq<char>, sep: char) -> Seq<Seq<char>>
    decreases s.len(),
{
    if s.len() == 0 {
        seq![Seq::<char>::empty()]
    } else {
        let before = split_text(s.drop_last(), sep);
        if s.last() == sep {
            before.push(Seq::<char>::empty())
        } else {
            before.drop_last().push(before.last().push(s.last()))
        }
    }
}

pub open spec fn trim_start_text(s: Seq<char>) -> Seq<char>
    decreases s.len(),
{
    if s.len() > 0 && is_space(s[0]) {
        trim_start_text(s.subrange(1, s.len() as int))
    } else {
        s
    }
}

pub open spec fn trim_end_text(s: Seq<char>) -> Seq<char>
    decreases s.len(),
{
    if s.len() > 0 && is_space(s.last()) {
        trim_end_text(s.drop_last())
    } else {
        s
    }
}

/// `s` without its leading and trailing blanks.
pub open spec fn trim_text(s: Seq<char>) -> Seq<char> {
    trim_end_text(trim_start_text(s))
}

/// The number that a string of digits denotes, most significant digit first.
pub open spec fn decimal_value(s: Seq<char>) -> nat
    decreases s.len(),
{
    if s.len() == 0 {
        0
    } else {
        decimal_value(s.drop_last()) * 10 + digit_value(s.last())
    }
}

/// The digits of a numeric token: the token without the `+` that may lead it.
pub open spec fn digits_of(s: Seq<char>) -> Seq<char> {
    if s.len() > 0 && s[0] == '+' {
        s.subrange(1, s.len() as int)
    } else {
        s
    }
}

/// What a numeric token means: it must be one or more digits, which a `+`
/// may precede, and fit in 64 bits.
pub open spec fn decimal_number(s: Seq<char>) -> Option<u64> {
    let digits = digits_of(s);
    if digits.len() > 0 && all_digits(digits) && decimal_value(digits) <= u64::MAX {
        Some(decimal_value(digits) as u64)
    } else {
        None
    }
}

/// The shortest decimal rendering of `n`.
pub open spec fn decimal_text(n: nat) -> Seq<char>
    decreases n,
{
    if n < 10 {
        seq![digit_char(n)]
    } else {
        decimal_text(n / 10).push(digit_char(n % 10))
    }
}

/// The pieces put together again, with `sep` between each two.
pub open spec fn join_text(pieces: Seq<Seq<char>>, sep: char) -> Seq<char>
    decreases pieces.len(),
{
    if pieces.len() == 0 {
        Seq::<char>::empty()
    } else if pieces.len() == 1 {
        pieces[0]
    } else {
        join_text(pieces.drop_last(), sep) + seq![sep] + pieces.last()
    }
}

/// How often `c` occurs in `s`.
pub open spec fn count_of(s: Seq<char>, c: char) -> nat
    decreases s.len(),
{
    if s.len() == 0 {
        0
    } else {
        count_of(s.drop_last(), c) + if s.last() == c {
            1nat
        } else {
            0nat
        }
    }
}

/// The views of a vector of pieces.
pub open spec fn piece_views(v: Seq<Vec<char>>) -> Seq<Seq<char>> {
    Seq::new(v.len(), |i: int| v[i]@)
}

pub proof fn lemma_split_nonempty(s: Seq<char>, sep: char)
    ensures
        split_text(s, sep).len() >= 1,
    decreases s.len(),
{
    if s.len() > 0 {
        lemma_split_nonempty(s.drop_last(), sep);
    }
}

/// A prefix of a digit string never denotes more than the whole.
pub proof fn lemma_decimal_value_prefix(s: Seq<char>, k: int)
    requires
        0 <= k <= s.len(),
    ensures
        decimal_value(s.take(k)) <= decimal_value(s),
    decreases s.len(),
{
    if k < s.len() {
        lemma_decimal_value_prefix(s.drop_last(), k);
        assert(s.drop_last().take(k) =~= s.take(k));
    } else {
        assert(s.take(k) =~= s);
    }
}

/// What splitting means: no piece holds the separator, and the pieces joined
/// by the separator are the text that was split.
pub proof fn split_is_undone_by_join(s: Seq<char>, sep: char)
    ensures
        join_text(split_text(s, sep), sep) == s,
        forall|i: int|
            0 <= i < split_text(s, sep).len() ==> free_of(#[trigger] split_text(s, sep)[i], sep),
    decreases s.len(),
{
    let pieces = split_text(s, sep);
    if s.len() == 0 {
        assert(pieces[0] =~= Seq::<char>::empty());
        assert(join_text(pieces, sep) =~= s);
    } else {
        let front = s.drop_last();
        let before = split_text(front, sep);
        let c = s.last();
        split_is_undone_by_join(front, sep);
        lemma_split_nonempty(front, sep);
        assert(front.push(c) =~= s);
        if c == sep {
            assert(pieces.drop_last() =~= before);
            assert(join_text(pieces, sep) =~= join_text(before, sep) + seq![sep]);
            assert forall|i: int| 0 <= i < pieces.len() implies free_of(
                #[trigger] pieces[i],
                sep,
            ) by {
                if i < before.len() {
                    assert(pieces[i] == before[i]);
                }
            }
        } else {
            let grown = before.last().push(c);
            assert(free_of(before[before.len() - 1], sep));
            assert forall|i: int| 0 <= i < pieces.len() implies free_of(
                #[trigger] pieces[i],
                sep,
            ) by {
                if i < before.len() - 1 {
                    assert(pieces[i] == before[i]);
                } else {
                    assert(pieces[i] == grown);
                }
            }
            if before.len() == 1 {
                assert(pieces =~= seq![grown]);
                assert(join_text(before, sep) == before[0]);
                assert(join_text(pieces, sep) =~= s);
            } else {
                assert(pieces.drop_last() =~= before.drop_last());
                assert(pieces.last() == grown);
                assert(join_text(pieces, sep) =~= (join_text(before.drop_last(), sep) + seq![sep]
                    + before.last()).push(c));
            }
        }
    }
}

/// Where the text without its leading blanks begins.
pub proof fn trim_start_bound(s: Seq<char>) -> (lo: int)
    ensures
        0 <= lo <= s.len(),
        trim_start_text(s) == s.subrange(lo, s.len() as int),
        forall|k: int| 0 <= k < lo ==> is_space(#[trigger] s[k]),
        lo < s.len() ==> !is_space(s[lo]),
    decreases s.len(),
{
    if s.len() > 0 && is_space(s[0]) {
        let rest = s.subrange(1, s.len() as int);
        let inner = trim_start_bound(rest);
        assert(rest.subrange(inner, rest.len() as int) =~= s.subrange(inner + 1, s.len() as int));
        assert forall|k: int| 0 <= k < inner + 1 implies is_space(#[trigger] s[k]) by {
            if k > 0 {
                assert(s[k] == rest[k - 1]);
            }
        }
        if inner + 1 < s.len() {
            assert(s[inner + 1] == rest[inner]);
        }
        inner + 1
    } else {
        assert(s.subrange(0, s.len() as int) =~= s);
        0
    }
}

/// Where the text without its trailing blanks ends.
pub proof fn trim_end_bound(s: Seq<char>) -> (hi: int)
    ensures
        0 <= hi <= s.len(),
        trim_end_text(s) == s.subrange(0, hi),
        forall|k: int| hi <= k < s.len() ==> is_space(#[trigger] s[k]),
        hi > 0 ==> !is_space(s[hi - 1]),
    decreases s.len(),
{
    if s.len() > 0 && is_space(s.last()) {
        let front = s.drop_last();
        let inner = trim_end_bound(front);
        assert(front.subrange(0, inner) =~= s.subrange(0, inner));
        assert forall|k: int| inner <= k < s.len() implies is_space(#[trigger] s[k]) by {
            if k < s.len() - 1 {
                assert(s[k] == front[k]);
            }
        }
        if inner > 0 {
            assert(s[inner - 1] == front[inner - 1]);
        }
        inner
    } else {
        assert(s.subrange(0, s.len() as int) =~= s);
        s.len() as int
    }
}

/// What trimming means: the result is the stretch of the text between two
/// places, with blanks only outside of it and none at either of its ends.
pub proof fn trim_bounds(s: Seq<char>) -> (b: (int, int))
    ensures
        0 <= b.0 <= b.1 <= s.len(),
        trim_text(s) == s.subrange(b.0, b.1),
        forall|k: int| 0 <= k < b.0 ==> is_space(#[trigger] s[k]),
        forall|k: int| b.1 <= k < s.len() ==> is_space(#[trigger] s[k]),
        b.0 < b.1 ==> !is_space(s[b.0]) && !is_space(s[b.1 - 1]),
{
    let lo = trim_start_bound(s);
    let rest = s.subrange(lo, s.len() as int);
    let len = trim_end_bound(rest);
    assert(rest.subrange(0, len) =~= s.subrange(lo, lo + len));
    assert forall|k: int| lo + len <= k < s.len() implies is_space(#[trigger] s[k]) by {
        assert(s[k] == rest[k - lo]);
    }
    if len > 0 {
        assert(s[lo + len - 1] == rest[len - 1]);
    }
    (lo, lo + len)
}

/// There is one piece more than there are separators.
pub proof fn lemma_split_len(s: Seq<char>, sep: char)
    ensures
        split_text(s, sep).len() == count_of(s, sep) + 1,
    decreases s.len(),
{
    if s.len() > 0 {
        lemma_split_len(s.drop_last(), sep);
    }
}

/// Counting from the front gives what counting from the back gives.
pub proof fn lemma_count_from_front(s: Seq<char>, c: char)
    requires
        s.len() > 0,
    ensures
        count_of(s, c) == count_of(s.subrange(1, s.len() as int), c) + if s[0] == c {
            1nat
        } else {
            0nat
        },
    decreases s.len(),
{
    let rest = s.subrange(1, s.len() as int);
    if s.len() == 1 {
        assert(s.drop_last() =~= Seq::<char>::empty());
        assert(rest =~= Seq::<char>::empty());
    } else {
        lemma_count_from_front(s.drop_last(), c);
        assert(rest.drop_last() =~= s.drop_last().subrange(1, s.len() - 1));
        assert(rest.last() == s.last());
        assert(s.drop_last()[0] == s[0]);
    }
}

/// Trimming removes blanks only, so it leaves the count of any other
/// character as it was.
pub proof fn lemma_trim_keeps_count(s: Seq<char>, c: char)
    requires
        !is_space(c),
    ensures
        count_of(trim_text(s), c) == count_of(s, c),
{
    lemma_trim_start_keeps_count(s, c);
    lemma_trim_end_keeps_count(trim_start_text(s), c);
}

pub proof fn lemma_trim_start_keeps_count(s: Seq<char>, c: char)
    requires
        !is_space(c),
    ensures
        count_of(trim_start_text(s), c) == count_of(s, c),
    decreases s.len(),
{
    if s.len() > 0 && is_space(s[0]) {
        lemma_count_from_front(s, c);
        lemma_trim_start_keeps_count(s.subrange(1, s.len() as int), c);
    }
}

pub proof fn lemma_trim_end_keeps_count(s: Seq<char>, c: char)
    requires
        !is_space(c),
    ensures
        count_of(trim_end_text(s), c) == count_of(s, c),
    decreases s.len(),
{
    if s.len() > 0 && is_space(s.last()) {
        lemma_trim_end_keeps_count(s.drop_last(), c);
    }
}

/// Text without the separator is a single piece.
pub proof fn lemma_split_free(s: Seq<char>, sep: char)
    requires
        free_of(s, sep),
    ensures
        split_text(s, sep) == seq![s],
    decreases s.len(),
{
    if s.len() > 0 {
        let front = s.drop_last();
        assert(free_of(front, sep)) by {
            assert forall|i: int| 0 <= i < front.len() implies #[trigger] front[i] != sep by {
                assert(front[i] == s[i]);
            }
        }
        lemma_split_free(front, sep);
        assert(s[s.len() - 1] != sep);
        assert(seq![front].drop_last().push(seq![front].last().push(s.last())) =~= seq![s]) by {
            assert(front.push(s.last()) =~= s);
        }
    } else {
        assert(s =~= Seq::<char>::empty());
    }
}

/// Splitting two texts joined by the separator gives the pieces of the one
/// followed by the pieces of the other.
pub proof fn lemma_split_join(a: Seq<char>, b: Seq<char>, sep: char)
    ensures
        split_text(a + seq![sep] + b, sep) == split_text(a, sep) + split_text(b, sep),
    decreases b.len(),
{
    let whole = a + seq![sep] + b;
    let none = Seq::<char>::empty();
    let pa = split_text(a, sep);
    if b.len() == 0 {
        assert(whole.drop_last() =~= a);
        assert(whole.last() == sep);
        assert(pa.push(none) =~= pa + seq![none]);
    } else {
        let pb = split_text(b.drop_last(), sep);
        let c = b.last();
        lemma_split_join(a, b.drop_last(), sep);
        lemma_split_nonempty(b.drop_last(), sep);
        assert(whole.drop_last() =~= a + seq![sep] + b.drop_last());
        assert(whole.last() == c);
        if c == sep {
            assert((pa + pb).push(none) =~= pa + pb.push(none));
        } else {
            assert((pa + pb).drop_last().push((pa + pb).last().push(c)) =~= pa
                + pb.drop_last().push(pb.last().push(c)));
        }
    }
}

/// Text that neither begins nor ends with a blank is its own trimmed form.
pub proof fn lemma_trim_tight(s: Seq<char>)
    requires
        s.len() > 0 ==> !is_space(s[0]) && !is_space(s.last()),
    ensures
        trim_text(s) == s,
{
}

/// Rendering a number gives digits only, at least one, and reading them
/// gives the number back.
pub proof fn lemma_decimal_text(n: nat)
    ensures
        decimal_text(n).len() > 0,
        all_digits(decimal_text(n)),
        decimal_value(decimal_text(n)) == n,
    decreases n,
{
    let t = decimal_text(n);
    if n < 10 {
        assert(t.drop_last() =~= Seq::<char>::empty());
        assert(is_digit(digit_char(n)) && digit_value(digit_char(n)) == n);
        assert(decimal_value(t.drop_last()) == 0);
    } else {
        lemma_decimal_text(n / 10);
        let d = n % 10;
        assert(t.drop_last() =~= decimal_text(n / 10));
        assert(is_digit(digit_char(d)) && digit_value(digit_char(d)) == d);
        assert forall|i: int| 0 <= i < t.len() implies is_digit(#[trigger] t[i]) by {
            if i < t.len() - 1 {
                assert(t[i] == decimal_text(n / 10)[i]);
            }
        }
    }
}

/// A rendered number that fits in 64 bits reads back as itself.
pub proof fn lemma_decimal_round_trip(n: u64)
    ensures
        decimal_number(decimal_text(n as nat)) == Some(n),
{
    lemma_decimal_text(n as nat);
}

/// `std::string::String::push` appends the one character to the string and
/// leaves what was there before untouched.
pub assume_specification[ String::push ](s: &mut String, c: char)
    ensures
        final(s)@ == old(s)@.push(c),
;

/// The characters of a string slice, collected in order.
pub fn chars_of(s: &str) -> (v: Vec<char>)
    ensures
        v@ == s@,
{
    broadcast use {axiom_spec_iter, next_postcondition};

    let mut v: Vec<char> = Vec::new();
    let mut it = s.chars();
    loop
        invariant
            it.obeys_prophetic_iter_laws(),
            it.decrease() is Some,
            v@ + it.remaining() == s@,
        ensures
            v@ == s@,
        decreases it.decrease()->0,
    {
        let ghost before = it;
        let ghost collected = v@;
        match it.next() {
            Some(c) => {
                v.push(c);
                assert(v@ + it.remaining() =~= collected + before.remaining()) by {
                    assert(before.remaining() =~= seq![c] + before.remaining().drop_first());
                }
            },
            None => {
                assert(it.remaining().len() == 0);
                assert(v@ =~= v@ + it.remaining());
                break ;
            },
        }
    }
    v
}

/// Splits `s` at every occurrence of `sep`.
pub fn split(s: &Vec<char>, sep: char) -> (out: Vec<Vec<char>>)
    ensures
        piece_views(out@) == split_text(s@, sep),
{
    let mut out: Vec<Vec<char>> = Vec::new();
    let mut cur: Vec<char> = Vec::new();
    let mut i: usize = 0;
    assert(s@.take(0) =~= Seq::<char>::empty());
    assert(piece_views(out@).push(cur@) =~= seq![Seq::<char>::empty()]);
    while i < s.len()
        invariant
            i <= s.len(),
            piece_views(out@).push(cur@) == split_text(s@.take(i as int), sep),
        decreases s.len() - i,
    {
        let c = s[i];
        let ghost before = piece_views(out@).push(cur@);
        let ghost cur_before = cur@;
        proof {
            assert(s@.take(i + 1).drop_last() =~= s@.take(i as int));
            assert(s@.take(i + 1).last() == c);
        }
        if c == sep {
            out.push(cur);
            cur = Vec::new();
            assert(piece_views(out@) =~= before);
        } else {
            cur.push(c);
            assert(piece_views(out@).push(cur@) =~= before.drop_last().push(
                before.last().push(c),
            ));
        }
        i += 1;
    }
    assert(s@.take(i as int) =~= s@);
    let ghost before = piece_views(out@).push(cur@);
    out.push(cur);
    assert(piece_views(out@) =~= before);
    out
}

/// Copies `s` without its leading and trailing blanks.
pub fn trim(s: &Vec<char>) -> (out: Vec<char>)
    ensures
        out@ == trim_text(s@),
{
    let mut lo: usize = 0;
    assert(s@.subrange(0, s.len() as int) =~= s@);
    while lo < s.len() && is_space_char(s[lo])
        invariant
            lo <= s.len(),
            trim_start_text(s@) == trim_start_text(s@.subrange(lo as int, s.len() as int)),
        decreases s.len() - lo,
    {
        assert(s@.subrange(lo as int, s.len() as int).subrange(
            1,
            s.len() - lo,
        ) =~= s@.subrange(lo + 1, s.len() as int));
        lo += 1;
    }
    let mut hi: usize = s.len();
    while hi > lo && is_space_char(s[hi - 1])
        invariant
            lo <= hi <= s.len(),
            trim_start_text(s@) == s@.subrange(lo as int, s.len() as int),
            trim_text(s@) == trim_end_text(s@.subrange(lo as int, hi as int)),
        decreases hi,
    {
        assert(s@.subrange(lo as int, hi as int).drop_last() =~= s@.subrange(lo as int, hi - 1));
        hi -= 1;
    }
    let mut out: Vec<char> = Vec::new();
    let mut i: usize = lo;
    while i < hi
        invariant
            lo <= i <= hi <= s.len(),
            out@ == s@.subrange(lo as int, i as int),
        decreases hi - i,
    {
        out.push(s[i]);
        assert(out@ =~= s@.subrange(lo as int, i + 1));
        i += 1;
    }
    out
}

pub fn is_space_char(c: char) -> (r: bool)
    ensures
        r == is_space(c),
{
    ('\u{9}' <= c && c <= '\u{d}') || c == ' ' || c == '\u{85}' || c == '\u{a0}' || c
        == '\u{1680}' || ('\u{2000}' <= c && c <= '\u{200a}') || c == '\u{2028}' || c
        == '\u{2029}' || c == '\u{202f}' || c == '\u{205f}' || c == '\u{3000}'
}

/// Reads a numeric token.
pub fn parse_decimal(s: &Vec<char>) -> (r: Option<u64>)
    ensures
        r == decimal_number(s@),
{
    let start: usize = if s.len() > 0 && s[0] == '+' {
        1
    } else {
        0
    };
    let ghost digits = digits_of(s@);
    assert(digits =~= s@.subrange(start as int, s.len() as int));
    if start == s.len() {
        return None;
    }
    let mut acc: u64 = 0;
    let mut i: usize = start;
    assert(digits.take(0) =~= Seq::<char>::empty());
    while i < s.len()
        invariant
            start <= i <= s.len(),
            digits == digits_of(s@),
            digits == s@.subrange(start as int, s.len() as int),
            all_digits(digits.take(i - start)),
            acc == decimal_value(digits.take(i - start)),
        decreases s.len() - i,
    {
        let c = s[i];
        assert(digits[i - start] == c);
        if !('0' <= c && c <= '9') {
            return None;
        }
        let d: u64 = (c as u64) - 48;
        proof {
            assert(digits.take(i - start + 1).drop_last() =~= digits.take(i - start));
            assert(digits.take(i - start + 1).last() == c);
            lemma_decimal_value_prefix(digits, i - start + 1);
        }
        if acc > (u64::MAX - d) / 10 {
            return None;
        }
        acc = acc * 10 + d;
        i += 1;
    }
    assert(digits.take(i - start) =~= digits);
    Some(acc)
}

/// Appends the decimal rendering of `n` to `out`.
pub fn push_decimal(out: &mut String, n: u64)
    ensures
        final(out)@ == old(out)@ + decimal_text(n as nat),
    decreases n,
{
    if n >= 10 {
        push_decimal(out, n / 10);
    }
    let d: u8 = (n % 10) as u8;
    let c: char = (d + 48) as char;
    out.push(c);
    assert(out@ =~= old(out)@ + decimal_text(n as nat));
}

} // verus!

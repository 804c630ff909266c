//! Bringing a list of byte ranges into its canonical form: ordered by first
//! byte, with ranges that overlap or touch joined into one.
//!
//! A range is held as a `Range<u64>` whose `start` and `end` are the first and
//! the last byte offset, both inclusive.

use std::ops::Range;
use vstd::prelude::*;

verus! {

/// `next` overlaps `acc` or begins at the byte right behind it.
pub open spec fn touches(acc: Range<u64>, next: Range<u64>) -> bool {
    next.start <= acc.end + 1
}

/// `acc` stretched to reach the end of `next` as well.
pub open spec fn absorb(acc: Range<u64>, next: Range<u64>) -> Range<u64> {
    Range { start: acc.start, end: if acc.end >= next.end { acc.end } else { next.end } }
}

/// No range starts before one that stands in front of it.
pub open spec fn ascending(s: Seq<Range<u64>>) -> bool {
    forall|i: int, j: int| 0 <= i < j < s.len() ==> (#[trigger] s[i]).start <= (#[trigger] s[j]).start
}

/// Between each range and the next at least one byte is left out.
pub open spec fn separated(s: Seq<Range<u64>>) -> bool {
    forall|i: int| 0 <= i < s.len() - 1 ==> !touches(#[trigger] s[i], s[i + 1])
}

/// The canonical form: ordered by start, nothing overlapping or adjacent.
pub open spec fn normalized(s: Seq<Range<u64>>) -> bool {
    ascending(s) && separated(s)
}

/// Where a range that begins at `start` goes in an ordered list: behind the
/// last range that does not begin later.
pub open spec fn insert_position(sorted: Seq<Range<u64>>, start: u64) -> int
    decreases sorted.len(),
{
    if sorted.len() == 0 {
        0
    } else if sorted.last().start <= start {
        sorted.len() as int
    } else {
        insert_position(sorted.drop_last(), start)
    }
}

/// The ranges of `s` ordered by start; ranges with equal starts keep the order
/// they came in.
pub open spec fn sort_by_start(s: Seq<Range<u64>>) -> Seq<Range<u64>>
    decreases s.len(),
{
    if s.len() == 0 {
        Seq::<Range<u64>>::empty()
    } else {
        let sorted = sort_by_start(s.drop_last());
        sorted.insert(insert_position(sorted, s.last().start), s.last())
    }
}

/// One pass from the left that joins each range into the one before it
/// whenever the two touch.
pub open spec fn coalesce(s: Seq<Range<u64>>) -> Seq<Range<u64>>
    decreases s.len(),
{
    if s.len() == 0 {
        Seq::<Range<u64>>::empty()
    } else {
        let done = coalesce(s.drop_last());
        if done.len() > 0 && touches(done.last(), s.last()) {
            done.drop_last().push(absorb(done.last(), s.last()))
        } else {
            done.push(s.last())
        }
    }
}

/// The canonical form of an arbitrary list of ranges.
pub open spec fn merge_ranges(s: Seq<Range<u64>>) -> Seq<Range<u64>> {
    coalesce(sort_by_start(s))
}

/// Byte `x` lies in the range.
pub open spec fn holds(r: Range<u64>, x: int) -> bool {
    r.start <= x <= r.end
}

/// Byte `x` lies in one of the ranges.
pub open spec fn covers(s: Seq<Range<u64>>, x: int) -> bool {
    exists|i: int| 0 <= i < s.len() && holds(#[trigger] s[i], x)
}

pub proof fn lemma_insert_position_bounds(sorted: Seq<Range<u64>>, start: u64)
    ensures
        0 <= insert_position(sorted, start) <= sorted.len(),
        forall|k: int|
            insert_position(sorted, start) <= k < sorted.len() ==> (#[trigger] sorted[k]).start
                > start,
        insert_position(sorted, start) > 0 ==> sorted[insert_position(sorted, start) - 1].start
            <= start,
    decreases sorted.len(),
{
    if sorted.len() > 0 && sorted.last().start > start {
        let front = sorted.drop_last();
        lemma_insert_position_bounds(front, start);
        let pos = insert_position(sorted, start);
        assert forall|k: int| pos <= k < sorted.len() implies (#[trigger] sorted[k]).start
            > start by {
            if k < front.len() {
                assert(sorted[k] == front[k]);
            }
        }
        if pos > 0 {
            assert(sorted[pos - 1] == front[pos - 1]);
        }
    }
}

pub proof fn lemma_insert_position_found(sorted: Seq<Range<u64>>, start: u64, j: int)
    requires
        0 <= j <= sorted.len(),
        forall|k: int| j <= k < sorted.len() ==> (#[trigger] sorted[k]).start > start,
        j > 0 ==> sorted[j - 1].start <= start,
    ensures
        insert_position(sorted, start) == j,
    decreases sorted.len(),
{
    if sorted.len() > 0 && j < sorted.len() {
        assert(sorted[sorted.len() - 1].start > start);
        lemma_insert_position_found(sorted.drop_last(), start, j);
    }
}

pub proof fn lemma_sort_len(s: Seq<Range<u64>>)
    ensures
        sort_by_start(s).len() == s.len(),
    decreases s.len(),
{
    if s.len() > 0 {
        lemma_sort_len(s.drop_last());
        lemma_insert_position_bounds(sort_by_start(s.drop_last()), s.last().start);
    }
}

/// Sorting keeps every range, as often as it was there.
pub proof fn lemma_sort_permutes(s: Seq<Range<u64>>)
    ensures
        sort_by_start(s).to_multiset() == s.to_multiset(),
    decreases s.len(),
{
    if s.len() > 0 {
        let front = s.drop_last();
        let sorted = sort_by_start(front);
        lemma_sort_permutes(front);
        lemma_insert_position_bounds(sorted, s.last().start);
        vstd::seq_lib::to_multiset_insert(sorted, insert_position(sorted, s.last().start), s.last());
        vstd::seq_lib::to_multiset_build(front, s.last());
        assert(front.push(s.last()) =~= s);
        assert(s.to_multiset() == front.to_multiset().insert(s.last()));
    } else {
        assert(sort_by_start(s) =~= s);
    }
}

/// Sorting yields an ascending list.
pub proof fn lemma_sort_ascending(s: Seq<Range<u64>>)
    ensures
        ascending(sort_by_start(s)),
    decreases s.len(),
{
    if s.len() > 0 {
        let sorted = sort_by_start(s.drop_last());
        let r = s.last();
        let pos = insert_position(sorted, r.start);
        lemma_sort_ascending(s.drop_last());
        lemma_insert_position_bounds(sorted, r.start);
        let out = sorted.insert(pos, r);
        assert forall|i: int, j: int| 0 <= i < j < out.len() implies (#[trigger] out[i]).start
            <= (#[trigger] out[j]).start by {
            if i < pos && j == pos {
                assert(sorted[i].start <= sorted[pos - 1].start);
            } else if i < pos && j > pos {
                assert(out[j] == sorted[j - 1]);
                assert(sorted[i].start <= sorted[j - 1].start);
            } else if i == pos {
                assert(out[j] == sorted[j - 1]);
            } else if i > pos {
                assert(out[i] == sorted[i - 1]);
                assert(out[j] == sorted[j - 1]);
            } else {
                assert(out[i] == sorted[i]);
                assert(out[j] == sorted[j]);
            }
        }
    }
}

/// Sorting leaves an ascending list as it is.
pub proof fn lemma_sort_of_ascending(s: Seq<Range<u64>>)
    requires
        ascending(s),
    ensures
        sort_by_start(s) == s,
    decreases s.len(),
{
    if s.len() > 0 {
        let front = s.drop_last();
        assert(ascending(front)) by {
            assert forall|i: int, j: int| 0 <= i < j < front.len() implies (#[trigger] front[i]).start
                <= (#[trigger] front[j]).start by {
                assert(front[i] == s[i] && front[j] == s[j]);
            }
        }
        lemma_sort_of_ascending(front);
        if front.len() > 0 {
            assert(front.last() == s[s.len() - 2]);
            assert(s[s.len() - 2].start <= s[s.len() - 1].start);
        }
        assert(insert_position(front, s.last().start) == front.len());
        assert(front.insert(front.len() as int, s.last()) =~= s);
    }
}

/// What the joining pass makes of an ascending list: a list in canonical
/// form that is empty only if the input was, and whose last range starts no
/// later than the last range given.
pub proof fn lemma_coalesce_normalized(s: Seq<Range<u64>>)
    requires
        ascending(s),
    ensures
        normalized(coalesce(s)),
        coalesce(s).len() <= s.len(),
        s.len() > 0 ==> coalesce(s).len() > 0 && coalesce(s).last().start <= s.last().start,
    decreases s.len(),
{
    if s.len() > 0 {
        let front = s.drop_last();
        assert(ascending(front)) by {
            assert forall|i: int, j: int| 0 <= i < j < front.len() implies (#[trigger] front[i]).start
                <= (#[trigger] front[j]).start by {
                assert(front[i] == s[i] && front[j] == s[j]);
            }
        }
        lemma_coalesce_normalized(front);
        let done = coalesce(front);
        let out = coalesce(s);
        let r = s.last();
        if front.len() > 0 {
            assert(front.last() == s[s.len() - 2]);
            assert(s[s.len() - 2].start <= s[s.len() - 1].start);
        }
        assert forall|i: int, j: int| 0 <= i < j < out.len() implies (#[trigger] out[i]).start
            <= (#[trigger] out[j]).start by {
            assert(out[i].start == done[i].start);
            if j < done.len() {
                assert(out[j].start == done[j].start);
            } else {
                assert(out[j] == r);
                assert(done[i].start <= done.last().start);
            }
        }
        assert forall|i: int| 0 <= i < out.len() - 1 implies !touches(#[trigger] out[i], out[i + 1]) by {
            if i + 1 < done.len() - 1 {
                assert(out[i] == done[i]);
                assert(out[i + 1] == done[i + 1]);
            } else if i + 1 == done.len() - 1 {
                assert(out[i] == done[i]);
                assert(out[i + 1].start == done[i + 1].start);
            } else {
                assert(out[i] == done[i]);
            }
        }
    }
}

/// Merging always ends in the canonical form, and loses every range only when
/// there was none.
pub proof fn lemma_merge_normalized(s: Seq<Range<u64>>)
    ensures
        normalized(merge_ranges(s)),
        merge_ranges(s).len() <= s.len(),
        s.len() > 0 ==> merge_ranges(s).len() > 0,
{
    lemma_sort_ascending(s);
    lemma_sort_len(s);
    lemma_coalesce_normalized(sort_by_start(s));
}

/// The joining pass has nothing to do on a list in canonical form.
pub proof fn lemma_coalesce_of_separated(s: Seq<Range<u64>>)
    requires
        separated(s),
    ensures
        coalesce(s) == s,
    decreases s.len(),
{
    if s.len() > 0 {
        let front = s.drop_last();
        assert(separated(front)) by {
            assert forall|i: int| 0 <= i < front.len() - 1 implies !touches(
                #[trigger] front[i],
                front[i + 1],
            ) by {
                assert(front[i] == s[i] && front[i + 1] == s[i + 1]);
            }
        }
        lemma_coalesce_of_separated(front);
        if front.len() > 0 {
            assert(front.last() == s[s.len() - 2]);
            assert(!touches(s[s.len() - 2], s[s.len() - 2 + 1]));
        }
        assert(front.push(s.last()) =~= s);
    }
}

/// A list in canonical form is its own merge.
pub proof fn lemma_merge_of_normalized(s: Seq<Range<u64>>)
    requires
        normalized(s),
    ensures
        merge_ranges(s) == s,
{
    lemma_sort_of_ascending(s);
    lemma_coalesce_of_separated(s);
}

/// Merging twice gives what merging once gives.
pub proof fn merge_is_idempotent(s: Seq<Range<u64>>)
    ensures
        merge_ranges(merge_ranges(s)) == merge_ranges(s),
{
    lemma_merge_normalized(s);
    lemma_merge_of_normalized(merge_ranges(s));
}

/// Two ranges, the one that starts first given first: if the second overlaps
/// the first or begins right behind it, the merge is the single range from
/// the first start to the greater end; otherwise both stay, in this order.
/// Given the other way round they merge to the same, provided that their
/// starts differ or that neither range ends before it starts.
pub proof fn merge_of_pair(a: Range<u64>, b: Range<u64>)
    requires
        a.start <= b.start,
    ensures
        touches(a, b) ==> merge_ranges(seq![a, b]) == seq![absorb(a, b)],
        !touches(a, b) ==> merge_ranges(seq![a, b]) == seq![a, b],
        a.start < b.start || (a.start <= a.end && b.start <= b.end) ==> merge_ranges(seq![b, a])
            == merge_ranges(seq![a, b]),
{
    let e = Seq::<Range<u64>>::empty();
    let ab = seq![a, b];
    let ba = seq![b, a];
    assert(ab.drop_last() =~= seq![a]);
    assert(ba.drop_last() =~= seq![b]);
    assert(seq![a].drop_last() =~= e);
    assert(seq![b].drop_last() =~= e);
    assert(sort_by_start(e) =~= e);
    assert(sort_by_start(seq![a]) =~= seq![a]) by {
        assert(insert_position(e, a.start) == 0);
        assert(e.insert(0, a) =~= seq![a]);
    }
    assert(sort_by_start(seq![b]) =~= seq![b]) by {
        assert(insert_position(e, b.start) == 0);
        assert(e.insert(0, b) =~= seq![b]);
    }
    assert(sort_by_start(ab) =~= ab) by {
        lemma_insert_position_found(seq![a], b.start, 1);
        assert(seq![a].insert(1, b) =~= ab);
    }
    if a.start < b.start {
        assert(sort_by_start(ba) =~= ab) by {
            lemma_insert_position_found(seq![b], a.start, 0);
            assert(seq![b].insert(0, a) =~= ab);
        }
    }
    assert(coalesce(e) =~= e);
    assert(coalesce(seq![a]) =~= seq![a]) by {
        assert(e.push(a) =~= seq![a]);
    }
    if touches(a, b) {
        assert(seq![a].drop_last().push(absorb(a, b)) =~= seq![absorb(a, b)]);
    } else {
        assert(seq![a].push(b) =~= ab);
    }
    if a.start == b.start && a.start <= a.end && b.start <= b.end {
        assert(sort_by_start(ba) =~= ba) by {
            lemma_insert_position_found(seq![b], a.start, 1);
            assert(seq![b].insert(1, a) =~= ba);
        }
        assert(coalesce(seq![b]) =~= seq![b]) by {
            assert(e.push(b) =~= seq![b]);
        }
        assert(seq![b].drop_last().push(absorb(b, a)) =~= seq![absorb(b, a)]);
        assert(absorb(b, a) == absorb(a, b));
    }
}

/// Putting a range into a list adds its bytes to what the list covers, and
/// nothing else.
pub proof fn lemma_covers_insert(s: Seq<Range<u64>>, pos: int, r: Range<u64>, x: int)
    requires
        0 <= pos <= s.len(),
    ensures
        covers(s.insert(pos, r), x) <==> covers(s, x) || holds(r, x),
{
    let t = s.insert(pos, r);
    if covers(t, x) {
        let i = choose|i: int| 0 <= i < t.len() && holds(#[trigger] t[i], x);
        if i < pos {
            assert(holds(s[i], x));
        } else if i > pos {
            assert(holds(s[i - 1], x));
        }
    }
    if covers(s, x) {
        let i = choose|i: int| 0 <= i < s.len() && holds(#[trigger] s[i], x);
        if i < pos {
            assert(holds(t[i], x));
        } else {
            assert(t[i + 1] == s[i]);
            assert(holds(t[i + 1], x));
        }
    }
    if holds(r, x) {
        assert(holds(t[pos], x));
    }
}

pub proof fn lemma_sort_covers(s: Seq<Range<u64>>, x: int)
    ensures
        covers(sort_by_start(s), x) <==> covers(s, x),
    decreases s.len(),
{
    if s.len() > 0 {
        let front = s.drop_last();
        let sorted = sort_by_start(front);
        lemma_sort_covers(front, x);
        lemma_insert_position_bounds(sorted, s.last().start);
        lemma_covers_insert(sorted, insert_position(sorted, s.last().start), s.last(), x);
        lemma_covers_insert(front, front.len() as int, s.last(), x);
        assert(front.insert(front.len() as int, s.last()) =~= s);
    }
}

pub proof fn lemma_coalesce_covers(s: Seq<Range<u64>>, x: int)
    requires
        ascending(s),
    ensures
        covers(coalesce(s), x) <==> covers(s, x),
    decreases s.len(),
{
    if s.len() > 0 {
        let front = s.drop_last();
        let r = s.last();
        assert(ascending(front)) by {
            assert forall|i: int, j: int| 0 <= i < j < front.len() implies (#[trigger] front[i]).start
                <= (#[trigger] front[j]).start by {
                assert(front[i] == s[i] && front[j] == s[j]);
            }
        }
        lemma_coalesce_covers(front, x);
        lemma_coalesce_normalized(front);
        lemma_covers_insert(front, front.len() as int, r, x);
        assert(front.insert(front.len() as int, r) =~= s);
        let done = coalesce(front);
        if done.len() > 0 && touches(done.last(), r) {
            let acc = done.last();
            let rest = done.drop_last();
            assert(front.last() == s[s.len() - 2]);
            assert(s[s.len() - 2].start <= s[s.len() - 1].start);
            lemma_covers_insert(rest, rest.len() as int, acc, x);
            assert(rest.insert(rest.len() as int, acc) =~= done);
            lemma_covers_insert(rest, rest.len() as int, absorb(acc, r), x);
            assert(rest.insert(rest.len() as int, absorb(acc, r)) =~= rest.push(absorb(acc, r)));
            assert(holds(absorb(acc, r), x) <==> holds(acc, x) || holds(r, x));
        } else {
            lemma_covers_insert(done, done.len() as int, r, x);
            assert(done.insert(done.len() as int, r) =~= done.push(r));
        }
    }
}

/// Merging neither adds a byte nor loses one: a byte lies in one of the
/// merged ranges exactly if it lay in one of the ranges given.
pub proof fn merge_covers_the_same(s: Seq<Range<u64>>, x: int)
    ensures
        covers(merge_ranges(s), x) <==> covers(s, x),
{
    lemma_sort_ascending(s);
    lemma_sort_covers(s, x);
    lemma_coalesce_covers(sort_by_start(s), x);
}

/// Orders the ranges by start, keeping the order of those that start alike.
pub fn sort_ranges(v: &Vec<Range<u64>>) -> (out: Vec<Range<u64>>)
    ensures
        out@ == sort_by_start(v@),
        ascending(out@),
        out@.to_multiset() == v@.to_multiset(),
{
    proof {
        lemma_sort_ascending(v@);
        lemma_sort_permutes(v@);
    }
    let mut out: Vec<Range<u64>> = Vec::new();
    let mut i: usize = 0;
    assert(v@.take(0) =~= Seq::<Range<u64>>::empty());
    while i < v.len()
        invariant
            i <= v.len(),
            out@ == sort_by_start(v@.take(i as int)),
            out.len() == i,
        decreases v.len() - i,
    {
        let r = Range { start: v[i].start, end: v[i].end };
        let mut j: usize = out.len();
        while j > 0 && out[j - 1].start > r.start
            invariant
                j <= out.len(),
                forall|k: int| j <= k < out.len() ==> (#[trigger] out@[k]).start > r.start,
            decreases j,
        {
            j -= 1;
        }
        proof {
            lemma_insert_position_found(out@, r.start, j as int);
            assert(v@.take(i + 1).drop_last() =~= v@.take(i as int));
            assert(v@.take(i + 1).last() == r);
        }
        out.insert(j, r);
        i += 1;
    }
    assert(v@.take(i as int) =~= v@);
    out
}

/// Joins, in a list ordered by start, each range into the one before it
/// wherever the two touch.
pub fn coalesce_ranges(v: &Vec<Range<u64>>) -> (out: Vec<Range<u64>>)
    ensures
        out@ == coalesce(v@),
{
    let mut out: Vec<Range<u64>> = Vec::new();
    let mut i: usize = 0;
    assert(v@.take(0) =~= Seq::<Range<u64>>::empty());
    while i < v.len()
        invariant
            i <= v.len(),
            out@ == coalesce(v@.take(i as int)),
        decreases v.len() - i,
    {
        let start: u64 = v[i].start;
        let end: u64 = v[i].end;
        proof {
            assert(v@.take(i + 1).drop_last() =~= v@.take(i as int));
            assert(v@.take(i + 1).last() == (Range { start, end }));
        }
        let n: usize = out.len();
        if n > 0 && (out[n - 1].end == u64::MAX || start <= out[n - 1].end + 1) {
            let acc_start: u64 = out[n - 1].start;
            let acc_end: u64 = out[n - 1].end;
            out.pop();
            out.push(Range { start: acc_start, end: if acc_end >= end { acc_end } else { end } });
        } else {
            out.push(Range { start, end });
        }
        i += 1;
    }
    assert(v@.take(i as int) =~= v@);
    out
}

/// Brings the ranges into canonical form.
pub fn merge(v: &Vec<Range<u64>>) -> (out: Vec<Range<u64>>)
    ensures
        out@ == merge_ranges(v@),
        normalized(out@),
        v.len() > 0 ==> out.len() > 0,
{
    proof {
        lemma_merge_normalized(v@);
    }
    let sorted = sort_ranges(v);
    coalesce_ranges(&sorted)
}

} // verus!

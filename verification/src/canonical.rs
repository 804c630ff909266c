//! The canonical form is unique: among lists whose ranges all run forward,
//! the merge depends only on which bytes are covered, so neither the order
//! of the ranges nor the way they overlap matters.

use crate::merge::{
    absorb, coalesce, covers, holds, insert_position, lemma_covers_insert,
    lemma_insert_position_bounds, lemma_merge_normalized, merge_covers_the_same, merge_ranges,
    normalized, sort_by_start, touches,
};
use std::ops::Range;
use vstd::prelude::*;

verus! {

/// Every range has its first byte at or before its last.
pub open spec fn all_forward(s: Seq<Range<u64>>) -> bool {
    forall|i: int| 0 <= i < s.len() ==> (#[trigger] s[i]).start <= s[i].end
}

/// The two lists cover the same bytes.
pub open spec fn same_coverage(s: Seq<Range<u64>>, t: Seq<Range<u64>>) -> bool {
    forall|x: int|
        #![trigger covers(s, x)]
        #![trigger covers(t, x)]
        covers(s, x) <==> covers(t, x)
}

pub proof fn lemma_sort_forward(s: Seq<Range<u64>>)
    requires
        all_forward(s),
    ensures
        all_forward(sort_by_start(s)),
    decreases s.len(),
{
    if s.len() > 0 {
        let front = s.drop_last();
        assert(all_forward(front)) by {
            assert forall|i: int| 0 <= i < front.len() implies (#[trigger] front[i]).start
                <= front[i].end by {
                assert(front[i] == s[i]);
            }
        }
        lemma_sort_forward(front);
        let sorted = sort_by_start(front);
        let pos = insert_position(sorted, s.last().start);
        lemma_insert_position_bounds(sorted, s.last().start);
        let out = sorted.insert(pos, s.last());
        assert forall|i: int| 0 <= i < out.len() implies (#[trigger] out[i]).start
            <= out[i].end by {
            if i < pos {
                assert(out[i] == sorted[i]);
            } else if i > pos {
                assert(out[i] == sorted[i - 1]);
            } else {
                assert(out[i] == s[s.len() - 1]);
            }
        }
    }
}

pub proof fn lemma_coalesce_forward(s: Seq<Range<u64>>)
    requires
        all_forward(s),
    ensures
        all_forward(coalesce(s)),
    decreases s.len(),
{
    if s.len() > 0 {
        let front = s.drop_last();
        assert(all_forward(front)) by {
            assert forall|i: int| 0 <= i < front.len() implies (#[trigger] front[i]).start
                <= front[i].end by {
                assert(front[i] == s[i]);
            }
        }
        lemma_coalesce_forward(front);
        let done = coalesce(front);
        let out = coalesce(s);
        let r = s[s.len() - 1];
        assert forall|i: int| 0 <= i < out.len() implies (#[trigger] out[i]).start
            <= out[i].end by {
            if done.len() > 0 && touches(done.last(), r) {
                if i < done.len() - 1 {
                    assert(out[i] == done[i]);
                } else {
                    assert(out[i] == absorb(done[done.len() - 1], r));
                }
            } else {
                if i < done.len() {
                    assert(out[i] == done[i]);
                }
            }
        }
    }
}

/// In a canonical list a later range begins beyond the byte that follows
/// an earlier one.
pub proof fn lemma_gap(u: Seq<Range<u64>>, i: int, j: int)
    requires
        normalized(u),
        0 <= i < j < u.len(),
    ensures
        u[i].end + 1 < u[j].start,
{
    assert(!touches(u[i], u[i + 1]));
    if i + 1 < j {
        assert(u[i + 1].start <= u[j].start);
    }
}

pub proof fn lemma_front_is_canonical(u: Seq<Range<u64>>)
    requires
        normalized(u),
        all_forward(u),
        u.len() > 0,
    ensures
        normalized(u.drop_last()),
        all_forward(u.drop_last()),
        forall|x: int|
            #![trigger covers(u.drop_last(), x)]
            covers(u.drop_last(), x) <==> covers(u, x) && !holds(u.last(), x),
{
    let front = u.drop_last();
    assert forall|i: int, j: int| 0 <= i < j < front.len() implies (#[trigger] front[i]).start
        <= (#[trigger] front[j]).start by {
        assert(front[i] == u[i] && front[j] == u[j]);
    }
    assert forall|i: int| 0 <= i < front.len() - 1 implies !touches(
        #[trigger] front[i],
        front[i + 1],
    ) by {
        assert(front[i] == u[i] && front[i + 1] == u[i + 1]);
    }
    assert forall|i: int| 0 <= i < front.len() implies (#[trigger] front[i]).start
        <= front[i].end by {
        assert(front[i] == u[i]);
    }
    assert(front.insert(front.len() as int, u.last()) =~= u);
    assert forall|x: int| #![trigger covers(front, x)]
        covers(front, x) <==> covers(u, x) && !holds(u.last(), x) by {
        lemma_covers_insert(front, front.len() as int, u.last(), x);
        if covers(front, x) {
            let i = choose|i: int| 0 <= i < front.len() && holds(#[trigger] front[i], x);
            assert(front[i] == u[i]);
            lemma_gap(u, i, u.len() - 1);
        }
    }
}

/// No covered byte lies beyond the end of the last range of a canonical list.
pub proof fn lemma_last_end_is_top(u: Seq<Range<u64>>, x: int)
    requires
        normalized(u),
        all_forward(u),
        covers(u, x),
    ensures
        u.len() > 0,
        x <= u.last().end,
{
    let i = choose|i: int| 0 <= i < u.len() && holds(#[trigger] u[i], x);
    if i < u.len() - 1 {
        lemma_gap(u, i, u.len() - 1);
        assert(u[u.len() - 1].start <= u[u.len() - 1].end);
    }
}

/// The last range of `u` lies inside the last range of `v`.
pub proof fn lemma_last_inside(u: Seq<Range<u64>>, v: Seq<Range<u64>>)
    requires
        normalized(u),
        all_forward(u),
        normalized(v),
        all_forward(v),
        same_coverage(u, v),
        u.len() > 0,
        v.len() > 0,
        u.last().end == v.last().end,
    ensures
        v.last().start <= u.last().start,
{
    let a = u[u.len() - 1];
    let b = v[v.len() - 1];
    assert(a.start <= a.end && b.start <= b.end);
    if b.start > a.start {
        let x = b.start - 1;
        assert(holds(u[u.len() - 1], x));
        assert(covers(u, x));
        assert(covers(v, x));
        let j = choose|j: int| 0 <= j < v.len() && holds(#[trigger] v[j], x);
        if j < v.len() - 1 {
            lemma_gap(v, j, v.len() - 1);
        }
    }
}

/// Two canonical lists of forward ranges that cover the same bytes are the
/// same list.
pub proof fn canonical_form_is_unique(u: Seq<Range<u64>>, v: Seq<Range<u64>>)
    requires
        normalized(u),
        all_forward(u),
        normalized(v),
        all_forward(v),
        same_coverage(u, v),
    ensures
        u == v,
    decreases u.len(),
{
    if u.len() == 0 || v.len() == 0 {
        if u.len() > 0 {
            assert(holds(u[0], u[0].start as int));
            assert(covers(u, u[0].start as int));
            assert(covers(v, u[0].start as int));
        }
        if v.len() > 0 {
            assert(holds(v[0], v[0].start as int));
            assert(covers(v, v[0].start as int));
            assert(covers(u, v[0].start as int));
        }
        assert(u =~= v);
    } else {
        let a = u[u.len() - 1];
        let b = v[v.len() - 1];
        assert(a.start <= a.end && b.start <= b.end);
        assert(holds(u[u.len() - 1], a.end as int) && holds(v[v.len() - 1], b.end as int));
        assert(covers(u, a.end as int) && covers(v, b.end as int));
        assert(covers(v, a.end as int) && covers(u, b.end as int));
        lemma_last_end_is_top(v, a.end as int);
        lemma_last_end_is_top(u, b.end as int);
        lemma_last_inside(u, v);
        lemma_last_inside(v, u);
        assert(a == b);
        lemma_front_is_canonical(u);
        lemma_front_is_canonical(v);
        assert(same_coverage(u.drop_last(), v.drop_last()));
        canonical_form_is_unique(u.drop_last(), v.drop_last());
        assert(u =~= u.drop_last().push(a));
        assert(v =~= v.drop_last().push(b));
    }
}

/// Forward ranges that cover the same bytes merge to the same list, however
/// they were cut and ordered.
pub proof fn merge_depends_on_coverage_only(s: Seq<Range<u64>>, t: Seq<Range<u64>>)
    requires
        all_forward(s),
        all_forward(t),
        same_coverage(s, t),
    ensures
        merge_ranges(s) == merge_ranges(t),
{
    lemma_merge_normalized(s);
    lemma_merge_normalized(t);
    lemma_sort_forward(s);
    lemma_sort_forward(t);
    lemma_coalesce_forward(sort_by_start(s));
    lemma_coalesce_forward(sort_by_start(t));
    assert forall|x: int|
        #![trigger covers(merge_ranges(s), x)]
        #![trigger covers(merge_ranges(t), x)]
        covers(merge_ranges(s), x) <==> covers(merge_ranges(t), x) by {
        merge_covers_the_same(s, x);
        merge_covers_the_same(t, x);
        assert(covers(s, x) <==> covers(t, x));
    }
    canonical_form_is_unique(merge_ranges(s), merge_ranges(t));
}

/// The order in which forward ranges are given does not change their merge.
pub proof fn merge_ignores_order(s: Seq<Range<u64>>, t: Seq<Range<u64>>)
    requires
        all_forward(s),
        s.to_multiset() == t.to_multiset(),
    ensures
        merge_ranges(s) == merge_ranges(t),
{
    s.to_multiset_ensures();
    t.to_multiset_ensures();
    assert forall|i: int| 0 <= i < t.len() implies (#[trigger] t[i]).start <= t[i].end by {
        assert(t.contains(t[i]));
        assert(t.to_multiset().count(t[i]) > 0);
        assert(s.to_multiset().count(t[i]) > 0);
        assert(s.contains(t[i]));
        let k = choose|k: int| 0 <= k < s.len() && s[k] == t[i];
        assert(s[k].start <= s[k].end);
    }
    assert forall|x: int| #![trigger covers(s, x)] #![trigger covers(t, x)]
        covers(s, x) <==> covers(t, x) by {
        if covers(s, x) {
            let i = choose|i: int| 0 <= i < s.len() && holds(#[trigger] s[i], x);
            assert(s.contains(s[i]));
            assert(s.to_multiset().count(s[i]) > 0);
            assert(t.to_multiset().count(s[i]) > 0);
            assert(t.contains(s[i]));
            let k = choose|k: int| 0 <= k < t.len() && t[k] == s[i];
            assert(holds(t[k], x));
        }
        if covers(t, x) {
            let i = choose|i: int| 0 <= i < t.len() && holds(#[trigger] t[i], x);
            assert(t.contains(t[i]));
            assert(t.to_multiset().count(t[i]) > 0);
            assert(s.to_multiset().count(t[i]) > 0);
            assert(s.contains(t[i]));
            let k = choose|k: int| 0 <= k < s.len() && s[k] == t[i];
            assert(holds(s[k], x));
        }
    }
    merge_depends_on_coverage_only(s, t);
}

} // verus!

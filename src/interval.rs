//! An ordered set of disjoint, non-empty, half-open column ranges of one row.
use std::ops::Range;
use vstd::prelude::*;

use crate::raster::{GrayRaster, RgbaRaster};
use crate::sorting::{lightness, luma_of};

verus! {

/// Every range is non-empty, and the ranges are ordered and pairwise disjoint.
pub open spec fn valid_ranges(s: Seq<Range<usize>>) -> bool {
    &&& forall|i: int| 0 <= i < s.len() ==> (#[trigger] s[i]).start < s[i].end
    &&& forall|i: int, j: int|
        0 <= i < j < s.len() ==> (#[trigger] s[i]).end <= (#[trigger] s[j]).start
}

/// Column `x` lies inside one of the ranges.
pub open spec fn covers(s: Seq<Range<usize>>, x: int) -> bool {
    exists|i: int| 0 <= i < s.len() && (#[trigger] s[i]).start <= x && x < s[i].end
}

/// What splitting at `p` makes of one range: two halves when `p` lies strictly
/// inside it, the range itself otherwise.
pub open spec fn split_piece(r: Range<usize>, p: usize) -> Seq<Range<usize>> {
    if r.start < p && p < r.end {
        seq![Range { start: r.start, end: p }, Range { start: p, end: r.end }]
    } else {
        seq![r]
    }
}

/// The ranges after a split at `p`.
pub open spec fn split_spec(s: Seq<Range<usize>>, p: usize) -> Seq<Range<usize>>
    decreases s.len(),
{
    if s.len() == 0 {
        s
    } else {
        split_spec(s.drop_last(), p) + split_piece(s.last(), p)
    }
}

/// What is left of one range once the columns `[a, b)` are taken out of it.
pub open spec fn removed_piece(r: Range<usize>, a: usize, b: usize) -> Seq<Range<usize>> {
    let left_end = if r.end < a { r.end } else { a };
    let right_start = if r.start > b { r.start } else { b };
    let left = if r.start < left_end { seq![Range { start: r.start, end: left_end }] } else { seq![] };
    let right = if right_start < r.end { seq![Range { start: right_start, end: r.end }] } else { seq![] };
    left + right
}

pub open spec fn remove_all(s: Seq<Range<usize>>, a: usize, b: usize) -> Seq<Range<usize>>
    decreases s.len(),
{
    if s.len() == 0 {
        s
    } else {
        remove_all(s.drop_last(), a, b) + removed_piece(s.last(), a, b)
    }
}

/// The ranges after the columns `[a, b)` are removed; an empty or reversed
/// region removes nothing.
pub open spec fn remove_spec(s: Seq<Range<usize>>, a: usize, b: usize) -> Seq<Range<usize>> {
    if b <= a {
        s
    } else {
        remove_all(s, a, b)
    }
}

proof fn lemma_split_append(a: Seq<Range<usize>>, b: Seq<Range<usize>>, p: usize)
    ensures
        split_spec(a + b, p) == split_spec(a, p) + split_spec(b, p),
    decreases b.len(),
{
    if b.len() == 0 {
        assert(a + b =~= a);
        assert(split_spec(b, p) =~= seq![]);
        assert(split_spec(a, p) + split_spec(b, p) =~= split_spec(a, p));
    } else {
        assert((a + b).drop_last() =~= a + b.drop_last());
        assert((a + b).last() == b.last());
        lemma_split_append(a, b.drop_last(), p);
        assert(split_spec(a + b, p) =~= split_spec(a, p) + split_spec(b, p));
    }
}

/// No range holds `p` strictly inside it: a split at `p` changes nothing.
proof fn lemma_split_none(s: Seq<Range<usize>>, p: usize)
    requires
        forall|i: int| 0 <= i < s.len() ==> !((#[trigger] s[i]).start < p && p < s[i].end),
    ensures
        split_spec(s, p) == s,
    decreases s.len(),
{
    if s.len() > 0 {
        let t = s.drop_last();
        assert forall|i: int| 0 <= i < t.len() implies !((#[trigger] t[i]).start < p && p
            < t[i].end) by {
            assert(t[i] == s[i]);
        }
        lemma_split_none(t, p);
        assert(s.last() == s[s.len() - 1]);
        assert(split_spec(s, p) =~= s);
    }
}

/// A split at a point strictly inside range `i` replaces that range by its two
/// halves, and keeps the set valid and its columns.
proof fn lemma_split_inside(s: Seq<Range<usize>>, p: usize, i: int)
    requires
        valid_ranges(s),
        0 <= i < s.len(),
        s[i].start < p < s[i].end,
    ensures
        split_spec(s, p) == s.take(i) + split_piece(s[i], p) + s.skip(i + 1),
        valid_ranges(split_spec(s, p)),
        forall|x: int| covers(split_spec(s, p), x) <==> covers(s, x),
{
    let a = s.take(i);
    let c = s.skip(i + 1);
    assert(s =~= a + seq![s[i]] + c);
    assert forall|k: int| 0 <= k < a.len() implies !((#[trigger] a[k]).start < p && p
        < a[k].end) by {
        assert(a[k] == s[k]);
    }
    assert forall|k: int| 0 <= k < c.len() implies !((#[trigger] c[k]).start < p && p
        < c[k].end) by {
        assert(c[k] == s[k + i + 1]);
    }
    lemma_split_none(a, p);
    lemma_split_none(c, p);
    lemma_split_append(a + seq![s[i]], c, p);
    lemma_split_append(a, seq![s[i]], p);
    assert(split_spec(seq![s[i]], p) =~= split_piece(s[i], p)) by {
        let one = seq![s[i]];
        assert(one.drop_last() =~= Seq::<Range<usize>>::empty());
        assert(split_spec(one.drop_last(), p) =~= Seq::<Range<usize>>::empty());
        assert(one.last() == s[i]);
    }
    let t = a + split_piece(s[i], p) + c;
    assert(split_spec(s, p) == t);
    assert(t.len() == s.len() + 1);
    assert forall|k: int| 0 <= k < t.len() implies #[trigger] t[k] == (if k < i {
        s[k]
    } else if k == i {
        Range { start: s[i].start, end: p }
    } else if k == i + 1 {
        Range { start: p, end: s[i].end }
    } else {
        s[k - 1]
    }) by {}
    assert forall|j: int, k: int| 0 <= j < k < t.len() implies (#[trigger] t[j]).end
        <= (#[trigger] t[k]).start by {
        if j < i && k == i + 1 {
            assert(s[j].end <= s[i].start);
        }
        if j < i && k > i + 1 {
            assert(s[j].end <= s[k - 1].start);
        }
        if j == i && k > i + 1 {
            assert(s[i].end <= s[k - 1].start);
        }
        if j == i + 1 && k > i + 1 {
            assert(s[i].end <= s[k - 1].start);
        }
        if j > i + 1 {
            assert(s[j - 1].end <= s[k - 1].start);
        }
    }
    assert forall|x: int| covers(t, x) <==> covers(s, x) by {
        if covers(s, x) {
            let k = choose|k: int| 0 <= k < s.len() && (#[trigger] s[k]).start <= x && x < s[k].end;
            if k < i {
                assert(t[k] == s[k]);
            } else if k == i {
                if x < p {
                    assert(t[i].start <= x < t[i].end);
                } else {
                    assert(t[i + 1].start <= x < t[i + 1].end);
                }
            } else {
                assert(t[k + 1] == s[k]);
            }
        }
        if covers(t, x) {
            let k = choose|k: int| 0 <= k < t.len() && (#[trigger] t[k]).start <= x && x < t[k].end;
            if k < i {
                assert(s[k] == t[k]);
            } else if k == i || k == i + 1 {
                assert(s[i].start <= x < s[i].end);
            } else {
                assert(s[k - 1] == t[k]);
            }
        }
    }
}

/// Every range left by `remove_all` lies between the first start and the last
/// end of the ranges it started from.
proof fn lemma_remove_all(s: Seq<Range<usize>>, a: usize, b: usize)
    requires
        valid_ranges(s),
        a < b,
    ensures
        valid_ranges(remove_all(s, a, b)),
        forall|x: int| covers(remove_all(s, a, b), x) <==> (covers(s, x) && !(a <= x < b)),
        s.len() > 0 ==> forall|k: int|
            0 <= k < remove_all(s, a, b).len() ==> s[0].start <= (#[trigger] remove_all(
                s,
                a,
                b,
            )[k]).start && remove_all(s, a, b)[k].end <= s.last().end,
    decreases s.len(),
{
    if s.len() > 0 {
        let t = s.drop_last();
        let r = s.last();
        assert(valid_ranges(t)) by {
            assert forall|i: int| 0 <= i < t.len() implies (#[trigger] t[i]).start < t[i].end by {
                assert(t[i] == s[i]);
            }
            assert forall|i: int, j: int| 0 <= i < j < t.len() implies (#[trigger] t[i]).end
                <= (#[trigger] t[j]).start by {
                assert(t[i] == s[i] && t[j] == s[j]);
            }
        }
        lemma_remove_all(t, a, b);
        let u = remove_all(t, a, b);
        let pc = removed_piece(r, a, b);
        let w = u + pc;
        assert(remove_all(s, a, b) == w);
        assert(r == s[s.len() - 1]);
        assert(r.start < r.end);
        if t.len() > 0 {
            assert(t.last() == s[s.len() - 2]);
            assert(t.last().end <= r.start);
            assert(s[0] == t[0]);
            assert(t[0].start <= t.last().start) by {
                if t.len() > 1 {
                    assert(t[0].end <= t[t.len() - 1].start);
                }
            }
        }
        assert forall|k: int| 0 <= k < pc.len() implies r.start <= (#[trigger] pc[k]).start
            && pc[k].end <= r.end && pc[k].start < pc[k].end by {}
        assert(pc.len() == 2 ==> pc[0].end <= pc[1].start);
        assert forall|k: int| 0 <= k < w.len() implies (#[trigger] w[k]).start < w[k].end by {
            if k >= u.len() {
                assert(w[k] == pc[k - u.len()]);
            }
        }
        assert forall|j: int, k: int| 0 <= j < k < w.len() implies (#[trigger] w[j]).end
            <= (#[trigger] w[k]).start by {
            if k >= u.len() {
                assert(w[k] == pc[k - u.len()]);
                if j < u.len() {
                    assert(w[j] == u[j]);
                } else {
                    assert(w[j] == pc[j - u.len()]);
                }
            } else {
                assert(w[j] == u[j] && w[k] == u[k]);
            }
        }
        if s.len() > 0 {
            assert forall|k: int| 0 <= k < w.len() implies s[0].start <= (#[trigger] w[k]).start
                && w[k].end <= s.last().end by {
                if k >= u.len() {
                    assert(w[k] == pc[k - u.len()]);
                    if t.len() > 0 {
                        assert(s[0].end <= r.start || s.len() == 1);
                    }
                } else {
                    assert(w[k] == u[k]);
                }
            }
        }
        assert forall|x: int| covers(w, x) <==> (covers(s, x) && !(a <= x < b)) by {
            if covers(s, x) && !(a <= x < b) {
                let k = choose|k: int|
                    0 <= k < s.len() && (#[trigger] s[k]).start <= x && x < s[k].end;
                if k < t.len() {
                    assert(t[k] == s[k]);
                    assert(covers(t, x));
                    let m = choose|m: int|
                        0 <= m < u.len() && (#[trigger] u[m]).start <= x && x < u[m].end;
                    assert(w[m] == u[m]);
                } else {
                    assert(s[k] == r);
                    if x < a {
                        assert(w[u.len() as int] == pc[0]);
                    } else {
                        if pc.len() == 2 {
                            assert(w[u.len() + 1int] == pc[1]);
                        } else {
                            assert(w[u.len() as int] == pc[0]);
                        }
                    }
                }
            }
            if covers(w, x) {
                let k = choose|k: int|
                    0 <= k < w.len() && (#[trigger] w[k]).start <= x && x < w[k].end;
                if k < u.len() {
                    assert(w[k] == u[k]);
                    assert(covers(u, x));
                    assert(covers(t, x));
                    let m = choose|m: int|
                        0 <= m < t.len() && (#[trigger] t[m]).start <= x && x < t[m].end;
                    assert(s[m] == t[m]);
                } else {
                    assert(w[k] == pc[k - u.len()]);
                    assert(s[s.len() - 1] == r);
                }
            }
        }
    }
}

/// The bound given, or `default` when there is none.
pub open spec fn bound_or(b: Option<usize>, default: usize) -> usize {
    match b {
        Some(v) => v,
        None => default,
    }
}

/// The smallest start of the ranges, 0 when there is none.
pub open spec fn set_start(s: Seq<Range<usize>>) -> usize {
    if s.len() == 0 {
        0
    } else {
        s[0].start
    }
}

/// The ranges of one row, kept in ascending order.
#[derive(Debug)]
pub struct IntervalSet {
    ranges: Vec<Range<usize>>,
}

impl View for IntervalSet {
    type V = Seq<Range<usize>>;

    closed spec fn view(&self) -> Seq<Range<usize>> {
        self.ranges@
    }
}

impl IntervalSet {
    pub open spec fn wf(&self) -> bool {
        valid_ranges(self@)
    }

    /// Takes the ranges as given; the caller vouches that they are valid.
    pub fn from_vec(vec: Vec<Range<usize>>) -> (r: IntervalSet)
        requires
            valid_ranges(vec@),
        ensures
            r@ == vec@,
            r.wf(),
    {
        IntervalSet { ranges: vec }
    }

    /// One range `[0, size)`, or no range at all when `size` is zero.
    pub fn new(size: usize) -> (r: IntervalSet)
        ensures
            r.wf(),
            size > 0 ==> r@ == seq![Range { start: 0usize, end: size }],
            size == 0 ==> r@.len() == 0,
    {
        let mut ranges: Vec<Range<usize>> = Vec::new();
        if size > 0 {
            ranges.push(0..size);
        }
        IntervalSet { ranges }
    }

    /// Makes `at` a boundary of the set. Returns the position of the range
    /// that held `at` and of the range that now starts at `at` (the same
    /// position when `at` already was a start), or `None` when no range holds
    /// `at`.
    pub fn split_at(&mut self, at: usize) -> (r: Option<(usize, usize)>)
        requires
            old(self).wf(),
        ensures
            final(self).wf(),
            final(self)@ == split_spec(old(self)@, at),
            forall|x: int| #[trigger] covers(final(self)@, x) <==> covers(old(self)@, x),
            r.is_none() <==> !covers(old(self)@, at as int),
            r.is_none() ==> final(self)@ == old(self)@,
            r matches Some((left, right)) ==> {
                &&& left < old(self)@.len()
                &&& old(self)@[left as int].start <= at < old(self)@[left as int].end
                &&& (old(self)@[left as int].start == at ==> right == left && final(self)@
                    == old(self)@)
                &&& (old(self)@[left as int].start < at ==> right == left + 1)
                &&& right < final(self)@.len()
                &&& final(self)@[right as int].start == at
            },
    {
        let ghost s = self@;
        let n = self.ranges.len();
        let mut i: usize = 0;
        while i < n && self.ranges[i].start <= at
            invariant
                i <= n,
                n == s.len(),
                self@ == s,
                forall|k: int| 0 <= k < i ==> (#[trigger] s[k]).start <= at,
            decreases n - i,
        {
            i += 1;
        }
        proof {
            assert forall|k: int| i <= k < n implies (#[trigger] s[k]).start > at by {
                if k > i {
                    assert(s[i as int].end <= s[k].start);
                }
            }
        }
        if i == 0 {
            proof {
                lemma_split_none(s, at);
            }
            return None;
        }
        let idx = i - 1;
        let st = self.ranges[idx].start;
        let e = self.ranges[idx].end;
        proof {
            assert forall|k: int| 0 <= k < idx implies (#[trigger] s[k]).end <= st by {}
        }
        if at >= e {
            proof {
                assert forall|k: int| 0 <= k < s.len() implies !((#[trigger] s[k]).start <= at
                    && at < s[k].end) by {
                    if k < idx {
                        assert(s[k].end <= s[idx as int].start);
                    }
                }
                lemma_split_none(s, at);
            }
            return None;
        }
        if st == at {
            proof {
                assert forall|k: int| 0 <= k < s.len() implies !((#[trigger] s[k]).start < at
                    && at < s[k].end) by {
                    if k < idx {
                        assert(s[k].end <= s[idx as int].start);
                    }
                }
                lemma_split_none(s, at);
            }
            Some((idx, idx))
        } else {
            proof {
                lemma_split_inside(s, at, idx as int);
            }
            self.ranges.set(idx, st..at);
            self.ranges.insert(idx + 1, at..e);
            proof {
                assert(self@ =~= s.take(idx as int) + split_piece(s[idx as int], at) + s.skip(
                    idx + 1,
                ));
            }
            Some((idx, idx + 1))
        }
    }

    /// Removes the columns `[start, end)` from the set: ranges inside the
    /// region go, ranges that reach into it are cut back, ranges that merely
    /// share a gap with it are dropped when they lie inside it. A missing
    /// `start` reads as the set's start, a missing `end` as its end.
    pub fn remove_range(&mut self, start: Option<usize>, end: Option<usize>)
        requires
            old(self).wf(),
        ensures
            final(self).wf(),
            final(self)@ == remove_spec(
                old(self)@,
                bound_or(start, set_start(old(self)@)),
                bound_or(end, set_end(old(self)@) as usize),
            ),
            forall|x: int|
                #[trigger] covers(final(self)@, x) <==> (covers(old(self)@, x) && !(bound_or(
                    start,
                    set_start(old(self)@),
                ) <= x && x < bound_or(end, set_end(old(self)@) as usize))),
    {
        let a = match start {
            Some(a) => a,
            None => self.start(),
        };
        let b = match end {
            Some(b) => b,
            None => self.end(),
        };
        self.remove_between(a..b);
    }

    /// Removes the columns `[range.start, range.end)`; an empty region
    /// changes nothing.
    fn remove_between(&mut self, range: Range<usize>)
        requires
            old(self).wf(),
        ensures
            final(self).wf(),
            final(self)@ == remove_spec(old(self)@, range.start, range.end),
            forall|x: int|
                #[trigger] covers(final(self)@, x) <==> (covers(old(self)@, x) && !(range.start <= x && x
                    < range.end)),
    {
        let a = range.start;
        let b = range.end;
        if b <= a {
            assert forall|x: int| covers(self@, x) <==> (covers(self@, x) && !(a <= x < b)) by {}
            return;
        }
        let ghost s = self@;
        let mut kept: Vec<Range<usize>> = Vec::new();
        let n = self.ranges.len();
        let mut i: usize = 0;
        while i < n
            invariant
                i <= n,
                n == s.len(),
                self@ == s,
                kept@ == remove_all(s.take(i as int), a, b),
            decreases n - i,
        {
            let st = self.ranges[i].start;
            let e = self.ranges[i].end;
            let left_end = if e < a {
                e
            } else {
                a
            };
            let right_start = if st > b {
                st
            } else {
                b
            };
            let ghost before = kept@;
            if st < left_end {
                kept.push(st..left_end);
            }
            if right_start < e {
                kept.push(right_start..e);
            }
            proof {
                assert(s.take(i + 1).drop_last() =~= s.take(i as int));
                assert(s.take(i + 1).last() == s[i as int]);
                assert(kept@ =~= before + removed_piece(s[i as int], a, b));
            }
            i += 1;
        }
        proof {
            assert(s.take(n as int) =~= s);
            lemma_remove_all(s, a, b);
        }
        self.ranges = kept;
        assert(self@ == remove_all(s, a, b));
        assert forall|x: int|
            covers(self@, x) <==> (covers(old(self)@, x) && !(range.start <= x && x
                < range.end)) by {
            assert(covers(self@, x) <==> (covers(s, x) && !(a <= x < b)));
        }
    }

    /// Removes and returns the range at position `idx`, if there is one.
    pub fn pop_index(&mut self, idx: usize) -> (r: Option<Range<usize>>)
        requires
            old(self).wf(),
        ensures
            final(self).wf(),
            idx < old(self)@.len() ==> r == Some(old(self)@[idx as int]) && final(self)@
                == old(self)@.remove(idx as int),
            idx >= old(self)@.len() ==> r.is_none() && final(self)@ == old(self)@,
    {
        if idx < self.ranges.len() {
            let r = self.ranges.remove(idx);
            proof {
                let s = old(self)@;
                let t = self.ranges@;
                assert forall|i: int, j: int| 0 <= i < j < t.len() implies (#[trigger] t[i]).end
                    <= (#[trigger] t[j]).start by {
                    let oi = if i < idx { i } else { i + 1 };
                    let oj = if j < idx { j } else { j + 1 };
                    assert(t[i] == s[oi]);
                    assert(t[j] == s[oj]);
                }
                assert forall|i: int| 0 <= i < t.len() implies (#[trigger] t[i]).start < t[i].end by {
                    let oi = if i < idx { i } else { i + 1 };
                    assert(t[i] == s[oi]);
                }
            }
            Some(r)
        } else {
            None
        }
    }

    /// The largest end of the ranges, 0 when there is none.
    pub fn end(&self) -> (r: usize)
        ensures
            self@.len() == 0 ==> r == 0,
            self@.len() > 0 ==> r == self@.last().end,
    {
        let n = self.ranges.len();
        if n == 0 {
            0
        } else {
            self.ranges[n - 1].end
        }
    }

    /// The smallest start of the ranges, 0 when there is none.
    pub fn start(&self) -> (r: usize)
        ensures
            self@.len() == 0 ==> r == 0,
            self@.len() > 0 ==> r == self@[0].start,
    {
        if self.ranges.len() == 0 {
            0
        } else {
            self.ranges[0].start
        }
    }

    /// From the smallest start to the largest end.
    pub fn full_range(&self) -> (r: Range<usize>)
        ensures
            self@.len() == 0 ==> r.start == 0 && r.end == 0,
            self@.len() > 0 ==> r.start == self@[0].start && r.end == self@.last().end,
    {
        let s = self.start();
        let e = self.end();
        s..e
    }

    /// The stored ranges, in ascending order.
    pub fn iter(&self) -> (r: &[Range<usize>])
        ensures
            r@ == self@,
    {
        self.ranges.as_slice()
    }
}


/// Range `r` is a piece cut out of range `o`: it lies inside `o`, and each of
/// its ends is an end of `o` or borders a column that `keep` drops.
pub open spec fn cut_from(r: Range<usize>, o: Range<usize>, keep: spec_fn(int) -> bool) -> bool {
    &&& o.start <= r.start
    &&& r.end <= o.end
    &&& (r.start == o.start || !keep(r.start - 1))
    &&& (r.end == o.end || !keep(r.end as int))
}

/// Every range of `t` is a piece cut out of some range of `s`. Together with
/// `t` covering exactly the columns of `s` that `keep` holds, this makes the
/// ranges of `t` the maximal runs of kept columns inside each range of `s`.
pub open spec fn pieces_of(t: Seq<Range<usize>>, s: Seq<Range<usize>>, keep: spec_fn(int) -> bool) -> bool {
    forall|k: int| 0 <= k < t.len() ==> has_parent(#[trigger] t[k], s, keep)
}

/// Range `r` is a piece cut out of some range of `s`.
pub open spec fn has_parent(r: Range<usize>, s: Seq<Range<usize>>, keep: spec_fn(int) -> bool) -> bool {
    exists|j: int| 0 <= j < s.len() && cut_from(r, #[trigger] s[j], keep)
}

proof fn lemma_pieces_weaken(
    t: Seq<Range<usize>>,
    s: Seq<Range<usize>>,
    k1: spec_fn(int) -> bool,
    k2: spec_fn(int) -> bool,
)
    requires
        pieces_of(t, s, k1),
        forall|x: int| #[trigger] k2(x) ==> k1(x),
    ensures
        pieces_of(t, s, k2),
{
    assert forall|k: int| 0 <= k < t.len() implies has_parent(#[trigger] t[k], s, k2) by {
        let j = choose|j: int| 0 <= j < s.len() && cut_from(t[k], #[trigger] s[j], k1);
        assert(has_parent(t[k], s, k1));
        assert(cut_from(t[k], s[j], k2));
    }
}

proof fn lemma_pieces_self(s: Seq<Range<usize>>, keep: spec_fn(int) -> bool)
    ensures
        pieces_of(s, s, keep),
{
    assert forall|k: int| 0 <= k < s.len() implies has_parent(#[trigger] s[k], s, keep) by {
        assert(cut_from(s[k], s[k], keep));
    }
}

/// Removing `[a, b)` keeps every range a piece of the starting set, now with
/// `[a, b)` dropped as well.
proof fn lemma_remove_pieces(
    t: Seq<Range<usize>>,
    s: Seq<Range<usize>>,
    a: usize,
    b: usize,
    keep: spec_fn(int) -> bool,
)
    requires
        pieces_of(t, s, keep),
        a < b,
    ensures
        pieces_of(remove_all(t, a, b), s, |x: int| keep(x) && !(a <= x && x < b)),
    decreases t.len(),
{
    let k2 = |x: int| keep(x) && !(a <= x && x < b);
    if t.len() > 0 {
        let u = t.drop_last();
        assert forall|k: int| 0 <= k < u.len() implies has_parent(#[trigger] u[k], s, keep) by {
            assert(u[k] == t[k]);
        }
        lemma_remove_pieces(u, s, a, b, keep);
        let head = remove_all(u, a, b);
        let last = t.last();
        let pc = removed_piece(last, a, b);
        let w = head + pc;
        assert(remove_all(t, a, b) == w);
        assert(t[t.len() - 1] == last);
        let j = choose|j: int| 0 <= j < s.len() && cut_from(last, #[trigger] s[j], keep);
        assert forall|k: int| 0 <= k < w.len() implies has_parent(#[trigger] w[k], s, k2) by {
            if k < head.len() {
                assert(w[k] == head[k]);
            } else {
                let p = pc[k - head.len()];
                assert(w[k] == p);
                assert(cut_from(p, s[j], k2));
            }
        }
    }
}

/// Column `x` of a mask row stays sortable: a white (255) pixel at or before
/// it starts a run that no black (0) pixel interrupts up to `x`, and a black
/// pixel after `x` closes that run. Other values neither open nor close a run.
pub open spec fn mask_keeps(m: Seq<u8>, x: int) -> bool {
    exists|w: int, b: int|
        0 <= w <= x < b < m.len() && m[w] == 255 && m[b] == 0 && no_black(m, w, x + 1)
}

/// No black pixel in columns `[lo, hi)`.
pub open spec fn no_black(m: Seq<u8>, lo: int, hi: int) -> bool {
    forall|z: int| lo <= z < hi && 0 <= z < m.len() ==> m[z] != 0
}

/// No white pixel in columns `[lo, hi)`.
pub open spec fn no_white(m: Seq<u8>, lo: int, hi: int) -> bool {
    forall|z: int| lo <= z < hi && 0 <= z < m.len() ==> m[z] != 255
}

/// A column from which no run is open: the row start, or a black pixel.
spec fn run_closed_at(m: Seq<u8>, r: int) -> bool {
    r == 0 || (0 <= r < m.len() && m[r] == 0)
}

proof fn lemma_not_kept_before_white(m: Seq<u8>, r: int, w: int, x: int)
    requires
        run_closed_at(m, r),
        no_white(m, r, w),
        r <= x < w,
    ensures
        !mask_keeps(m, x),
{
    if mask_keeps(m, x) {
        let (w2, b2) = choose|w2: int, b2: int|
            0 <= w2 <= x < b2 < m.len() && m[w2] == 255 && m[b2] == 0 && no_black(m, w2, x + 1);
        if w2 >= r {
            assert(m[w2] != 255);
        } else {
            assert(m[r] != 0);
        }
    }
}

/// The columns that a mask row keeps, as a predicate.
pub open spec fn kept_by(m: Seq<u8>) -> spec_fn(int) -> bool {
    |x: int| mask_keeps(m, x)
}

/// Columns before `r` count as the mask row decides; later ones are not yet
/// decided and count as kept.
spec fn kept_before(m: Seq<u8>, r: int) -> spec_fn(int) -> bool {
    |x: int| x < r ==> mask_keeps(m, x)
}

/// `kept_before(m, r)` with `[r, w)` dropped.
spec fn kept_before_gap(m: Seq<u8>, r: int, w: int) -> spec_fn(int) -> bool {
    |x: int| (x < r ==> mask_keeps(m, x)) && !(r <= x && x < w)
}

proof fn lemma_remove_spec_pieces(
    t: Seq<Range<usize>>,
    s: Seq<Range<usize>>,
    a: usize,
    b: usize,
    keep: spec_fn(int) -> bool,
    keep2: spec_fn(int) -> bool,
)
    requires
        pieces_of(t, s, keep),
        forall|x: int| #[trigger] keep2(x) ==> keep(x) && !(a <= x && x < b),
    ensures
        pieces_of(remove_spec(t, a, b), s, keep2),
{
    if b <= a {
        lemma_pieces_weaken(t, s, keep, keep2);
    } else {
        lemma_remove_pieces(t, s, a, b, keep);
        let k1 = |x: int| keep(x) && !(a <= x && x < b);
        assert forall|x: int| #[trigger] keep2(x) implies k1(x) by {}
        lemma_pieces_weaken(remove_all(t, a, b), s, k1, keep2);
    }
}

/// Drops from one row's set every column that the mask row does not keep.
fn mask_row(set: &mut IntervalSet, m: &Vec<u8>)
    requires
        old(set).wf(),
    ensures
        final(set).wf(),
        forall|x: int| #[trigger] covers(final(set)@, x) <==> (covers(old(set)@, x) && mask_keeps(m@, x)),
        pieces_of(final(set)@, old(set)@, kept_by(m@)),
{
    let ghost orig = set@;
    let n = m.len();
    let mut r: usize = 0;
    proof {
        lemma_pieces_self(orig, kept_before(m@, 0));
    }
    loop
        invariant
            set.wf(),
            orig == old(set)@,
            n == m@.len(),
            r <= n,
            run_closed_at(m@, r as int),
            forall|x: int|
                covers(set@, x) <==> (covers(orig, x) && (x < r ==> mask_keeps(m@, x))),
            pieces_of(set@, orig, kept_before(m@, r as int)),
        decreases n - r,
    {
        let mut w: usize = r;
        while w < n && m[w] != 255
            invariant
                r <= w <= n,
                n == m@.len(),
                no_white(m@, r as int, w as int),
            decreases n - w,
        {
            w += 1;
        }
        let ghost before = set@;
        if w == n {
            let e = set.end();
            set.remove_between(r..e);
            proof {
                assert forall|x: int|
                    covers(set@, x) <==> (covers(orig, x) && mask_keeps(m@, x)) by {
                    assert(covers(before, x) <==> (covers(orig, x) && (x < r ==> mask_keeps(
                        m@,
                        x,
                    ))));
                    assert(covers(set@, x) <==> (covers(before, x) && !(r <= x && x < e)));
                    if x >= r && x < n {
                        lemma_not_kept_before_white(m@, r as int, w as int, x);
                    }
                    if x >= e && covers(before, x) {
                        let k = choose|k: int|
                            0 <= k < before.len() && (#[trigger] before[k]).start <= x && x
                                < before[k].end;
                        if k < before.len() - 1 {
                            assert(before[k].end <= before[before.len() - 1].start);
                        }
                    }
                }
            }
            proof {
                assert forall|x: int|
                    covers(set@, x) <==> (covers(old(set)@, x) && mask_keeps(m@, x)) by {
                    assert(covers(set@, x) <==> (covers(orig, x) && mask_keeps(m@, x)));
                }
                assert forall|x: int| #[trigger] kept_by(m@)(x) implies kept_before(m@, r as int)(
                    x,
                ) && !(r <= x && x < e) by {
                    if r <= x < n {
                        lemma_not_kept_before_white(m@, r as int, w as int, x);
                    }
                }
                lemma_remove_spec_pieces(before, orig, r, e, kept_before(m@, r as int), kept_by(m@));
            }
            return;
        }
        set.remove_between(r..w);
        proof {
            assert forall|x: int| #[trigger] kept_before_gap(m@, r as int, w as int)(x) implies kept_before(
                m@,
                r as int,
            )(x) && !(r <= x && x < w) by {}
            lemma_remove_spec_pieces(
                before,
                orig,
                r,
                w,
                kept_before(m@, r as int),
                kept_before_gap(m@, r as int, w as int),
            );
        }
        proof {
            assert forall|x: int| r <= x < w implies !mask_keeps(m@, x) by {
                lemma_not_kept_before_white(m@, r as int, w as int, x);
            }
        }
        let mut b: usize = w + 1;
        while b < n && m[b] != 0
            invariant
                w < b <= n,
                n == m@.len(),
                m@[w as int] == 255,
                no_black(m@, w as int, b as int),
            decreases n - b,
        {
            b += 1;
        }
        if b == n {
            let ghost mid = set@;
            let e = set.end();
            set.remove_between(w..e);
            proof {
                assert forall|x: int|
                    covers(set@, x) <==> (covers(orig, x) && mask_keeps(m@, x)) by {
                    assert(covers(before, x) <==> (covers(orig, x) && (x < r ==> mask_keeps(
                        m@,
                        x,
                    ))));
                    assert(covers(mid, x) <==> (covers(before, x) && !(r <= x && x < w)));
                    assert(covers(set@, x) <==> (covers(mid, x) && !(w <= x && x < e)));
                    if r <= x < w {
                        lemma_not_kept_before_white(m@, r as int, w as int, x);
                    }
                    if x >= w && mask_keeps(m@, x) {
                        let (w2, b2) = choose|w2: int, b2: int|
                            0 <= w2 <= x < b2 < m@.len() && m@[w2] == 255 && m@[b2] == 0
                                && no_black(m@, w2, x + 1);
                        assert(m@[b2] != 0);
                    }
                    if x >= e && covers(mid, x) {
                        let k = choose|k: int|
                            0 <= k < mid.len() && (#[trigger] mid[k]).start <= x && x
                                < mid[k].end;
                        if k < mid.len() - 1 {
                            assert(mid[k].end <= mid[mid.len() - 1].start);
                        }
                    }
                }
            }
            proof {
                assert forall|x: int|
                    covers(set@, x) <==> (covers(old(set)@, x) && mask_keeps(m@, x)) by {
                    assert(covers(set@, x) <==> (covers(orig, x) && mask_keeps(m@, x)));
                }
                assert forall|x: int| #[trigger] kept_by(m@)(x) implies kept_before_gap(
                    m@,
                    r as int,
                    w as int,
                )(x) && !(w <= x && x < e) by {
                    if r <= x < w {
                        lemma_not_kept_before_white(m@, r as int, w as int, x);
                    }
                    if x >= w && mask_keeps(m@, x) {
                        let (w2, b2) = choose|w2: int, b2: int|
                            0 <= w2 <= x < b2 < m@.len() && m@[w2] == 255 && m@[b2] == 0
                                && no_black(m@, w2, x + 1);
                        assert(m@[b2] != 0);
                    }
                }
                lemma_remove_spec_pieces(
                    mid,
                    orig,
                    w,
                    e,
                    kept_before_gap(m@, r as int, w as int),
                    kept_by(m@),
                );
            }
            return;
        }
        proof {
            assert forall|x: int| #[trigger] kept_before(m@, b as int)(x) implies kept_before_gap(
                m@,
                r as int,
                w as int,
            )(x) by {
                if r <= x < w {
                    lemma_not_kept_before_white(m@, r as int, w as int, x);
                }
            }
            lemma_pieces_weaken(
                set@,
                orig,
                kept_before_gap(m@, r as int, w as int),
                kept_before(m@, b as int),
            );
            assert forall|x: int| w <= x < b implies mask_keeps(m@, x) by {
                assert(no_black(m@, w as int, x + 1));
                assert(0 <= w <= x < b < m@.len() && m@[w as int] == 255 && m@[b as int] == 0);
            }
            assert forall|x: int|
                covers(set@, x) <==> (covers(orig, x) && (x < b ==> mask_keeps(m@, x))) by {
                assert(covers(before, x) <==> (covers(orig, x) && (x < r ==> mask_keeps(m@, x))));
                assert(covers(set@, x) <==> (covers(before, x) && !(r <= x && x < w)));
                if r <= x < w {
                    lemma_not_kept_before_white(m@, r as int, w as int, x);
                }
            }
        }
        r = b;
    }
}

/// Keeps, in each row that the mask has, only the columns that the mask row
/// keeps (see `mask_keeps`); rows past the mask are left as they are.
pub fn mask(intervals: &mut Vec<IntervalSet>, mask: &GrayRaster)
    requires
        forall|y: int| 0 <= y < old(intervals)@.len() ==> (#[trigger] old(intervals)@[y]).wf(),
    ensures
        final(intervals)@.len() == old(intervals)@.len(),
        forall|y: int| 0 <= y < final(intervals)@.len() ==> (#[trigger] final(intervals)@[y]).wf(),
        forall|y: int, x: int|
            0 <= y < old(intervals)@.len() && y < mask.rows@.len() ==> (#[trigger] covers(
                final(intervals)@[y]@,
                x,
            ) <==> (covers(old(intervals)@[y]@, x) && mask_keeps(mask.rows@[y]@, x))),
        forall|y: int|
            0 <= y < old(intervals)@.len() && y < mask.rows@.len() ==> pieces_of(
                #[trigger] final(intervals)@[y]@,
                old(intervals)@[y]@,
                kept_by(mask.rows@[y]@),
            ),
        forall|y: int|
            mask.rows@.len() <= y < old(intervals)@.len() ==> #[trigger] final(intervals)@[y]
                == old(intervals)@[y],
{
    let ghost orig = intervals@;
    let count = if intervals.len() < mask.rows.len() {
        intervals.len()
    } else {
        mask.rows.len()
    };
    let mut y: usize = 0;
    while y < count
        invariant
            count <= orig.len(),
            count <= mask.rows@.len(),
            count == orig.len() || count == mask.rows@.len(),
            y <= count,
            intervals@.len() == orig.len(),
            forall|yy: int| 0 <= yy < orig.len() ==> (#[trigger] orig[yy]).wf(),
            forall|yy: int| 0 <= yy < intervals@.len() ==> (#[trigger] intervals@[yy]).wf(),
            forall|yy: int, x: int|
                0 <= yy < y ==> (#[trigger] covers(intervals@[yy]@, x) <==> (covers(orig[yy]@, x)
                    && mask_keeps(mask.rows@[yy]@, x))),
            forall|yy: int|
                0 <= yy < y ==> pieces_of(
                    #[trigger] intervals@[yy]@,
                    orig[yy]@,
                    kept_by(mask.rows@[yy]@),
                ),
            forall|yy: int| y <= yy < orig.len() ==> #[trigger] intervals@[yy] == orig[yy],
        decreases count - y,
    {
        let ghost at_start = intervals@;
        let mut set = IntervalSet::new(0);
        std::mem::swap(&mut set, &mut intervals[y]);
        let ghost taken = set;
        mask_row(&mut set, &mask.rows[y]);
        let ghost done = set;
        let ghost mid = intervals@;
        std::mem::swap(&mut set, &mut intervals[y]);
        proof {
            assert(taken == orig[y as int]);
            assert(intervals@ == mid.update(y as int, done));
            assert forall|yy: int, x: int| 0 <= yy < y + 1 implies (#[trigger] covers(
                intervals@[yy]@,
                x,
            ) <==> (covers(orig[yy]@, x) && mask_keeps(mask.rows@[yy]@, x))) by {
                if yy == y {
                    assert(intervals@[yy] == done);
                    assert(covers(done@, x) <==> (covers(taken@, x) && mask_keeps(
                        mask.rows@[yy]@,
                        x,
                    )));
                } else {
                    assert(intervals@[yy] == mid[yy]);
                    assert(mid[yy] == at_start[yy]);
                    assert(covers(at_start[yy]@, x) <==> (covers(orig[yy]@, x) && mask_keeps(
                        mask.rows@[yy]@,
                        x,
                    )));
                }
            }
            assert forall|yy: int| 0 <= yy < y + 1 implies pieces_of(
                #[trigger] intervals@[yy]@,
                orig[yy]@,
                kept_by(mask.rows@[yy]@),
            ) by {
                if yy < y {
                    assert(intervals@[yy] == at_start[yy]);
                } else {
                    assert(intervals@[yy] == done);
                }
            }
        }
        y += 1;
    }
}

/// Turns the lightness of each pixel into a mask value: white when it lies in
/// `[low, high)`, black otherwise.
pub open spec fn threshold_row(row: Seq<[u8; 4]>, low: u8, high: u8) -> Seq<u8> {
    row.map_values(|p: [u8; 4]| if low <= luma_of(p) && luma_of(p) < high { 255u8 } else { 0u8 })
}

/// Masks the rows by the lightness of the image: a pixel counts as white when
/// its lightness lies in `[low, high)`, as black otherwise.
pub fn threshold(intervals: &mut Vec<IntervalSet>, image: &RgbaRaster, low: u8, high: u8)
    requires
        forall|y: int| 0 <= y < old(intervals)@.len() ==> (#[trigger] old(intervals)@[y]).wf(),
    ensures
        final(intervals)@.len() == old(intervals)@.len(),
        forall|y: int| 0 <= y < final(intervals)@.len() ==> (#[trigger] final(intervals)@[y]).wf(),
        forall|y: int, x: int|
            0 <= y < old(intervals)@.len() && y < image.rows@.len() ==> (#[trigger] covers(
                final(intervals)@[y]@,
                x,
            ) <==> (covers(old(intervals)@[y]@, x) && mask_keeps(
                threshold_row(image.rows@[y]@, low, high),
                x,
            ))),
        forall|y: int|
            0 <= y < old(intervals)@.len() && y < image.rows@.len() ==> pieces_of(
                #[trigger] final(intervals)@[y]@,
                old(intervals)@[y]@,
                kept_by(threshold_row(image.rows@[y]@, low, high)),
            ),
        forall|y: int|
            image.rows@.len() <= y < old(intervals)@.len() ==> #[trigger] final(intervals)@[y]
                == old(intervals)@[y],
{
    let mut rows: Vec<Vec<u8>> = Vec::new();
    let mut y: usize = 0;
    while y < image.rows.len()
        invariant
            y <= image.rows@.len(),
            rows@.len() == y,
            forall|yy: int| 0 <= yy < y ==> (#[trigger] rows@[yy])@ == threshold_row(
                image.rows@[yy]@,
                low,
                high,
            ),
        decreases image.rows@.len() - y,
    {
        let src = &image.rows[y];
        let mut gray: Vec<u8> = Vec::new();
        let mut x: usize = 0;
        while x < src.len()
            invariant
                x <= src@.len(),
                gray@ == threshold_row(src@, low, high).take(x as int),
            decreases src@.len() - x,
        {
            let l = lightness(&src[x]);
            if low as u32 <= l && l < high as u32 {
                gray.push(255u8);
            } else {
                gray.push(0u8);
            }
            proof {
                assert(gray@ =~= threshold_row(src@, low, high).take(x + 1));
            }
            x += 1;
        }
        proof {
            assert(gray@ =~= threshold_row(src@, low, high));
        }
        rows.push(gray);
        y += 1;
    }
    let gray = GrayRaster { width: image.width, rows };
    mask(intervals, &gray);
}


/// The ranges after splits at each of `pts`, in order.
pub open spec fn split_points(s: Seq<Range<usize>>, pts: Seq<usize>) -> Seq<Range<usize>>
    decreases pts.len(),
{
    if pts.len() == 0 {
        s
    } else {
        split_spec(split_points(s, pts.drop_last()), pts.last())
    }
}

/// The split points of `split_equal`: `id * (rows / parts)` for each `id`
/// below `parts`.
pub open spec fn equal_points(rows: nat, parts: nat) -> Seq<usize> {
    Seq::new(parts, |id: int| (id * (rows / parts) as int) as usize)
}

proof fn lemma_split_points_step(s: Seq<Range<usize>>, pts: Seq<usize>, k: int)
    requires
        0 <= k < pts.len(),
    ensures
        split_points(s, pts.take(k + 1)) == split_spec(split_points(s, pts.take(k)), pts[k]),
{
    assert(pts.take(k + 1).drop_last() =~= pts.take(k));
    assert(pts.take(k + 1).last() == pts[k]);
}

/// Splitting twice at the same point gives the same ranges as splitting once.
pub proof fn lemma_split_idempotent(s: Seq<Range<usize>>, p: usize)
    requires
        valid_ranges(s),
    ensures
        split_spec(split_spec(s, p), p) == split_spec(s, p),
{
    if exists|i: int| 0 <= i < s.len() && (#[trigger] s[i]).start < p && p < s[i].end {
        let i = choose|i: int| 0 <= i < s.len() && (#[trigger] s[i]).start < p && p < s[i].end;
        lemma_split_inside(s, p, i);
        let t = split_spec(s, p);
        assert forall|k: int| 0 <= k < t.len() implies !((#[trigger] t[k]).start < p && p
            < t[k].end) by {
            if k < i {
                assert(t[k] == s[k]);
                assert(s[k].end <= s[i].start);
            } else if k > i + 1 {
                assert(t[k] == s[k - 1]);
                assert(s[i].end <= s[k - 1].start);
            } else if k == i {
                assert(t[k] == (t.take(i) + split_piece(s[i], p))[k]);
            } else {
                assert(t[k] == (t.take(i) + split_piece(s[i], p))[k]);
            }
        }
        lemma_split_none(t, p);
    } else {
        lemma_split_none(s, p);
        lemma_split_none(s, p);
    }
}

/// The unit ranges `[i, i + 1)` for `i` below `k`.
pub open spec fn unit_ranges(k: nat) -> Seq<Range<usize>> {
    Seq::new(k, |i: int| Range { start: i as usize, end: (i + 1) as usize })
}

proof fn lemma_split_units(n: usize, k: int)
    requires
        0 <= k <= n - 1,
    ensures
        split_points(
            seq![Range { start: 0usize, end: n }],
            Seq::new((n - 1) as nat, |i: int| (i + 1) as usize).take(k),
        ) == unit_ranges(k as nat) + seq![Range { start: k as usize, end: n }],
    decreases k,
{
    let base = seq![Range { start: 0usize, end: n }];
    let pts = Seq::new((n - 1) as nat, |i: int| (i + 1) as usize);
    if k == 0 {
        assert(pts.take(0) =~= Seq::<usize>::empty());
        assert(split_points(base, pts.take(0)) =~= unit_ranges(0) + seq![
            Range { start: 0usize, end: n },
        ]);
    } else {
        let j = k - 1;
        lemma_split_units(n, j);
        let cur = unit_ranges(j as nat) + seq![Range { start: j as usize, end: n }];
        lemma_split_points_step(base, pts, j);
        assert(valid_ranges(cur)) by {
            assert forall|a: int, b: int| 0 <= a < b < cur.len() implies (#[trigger] cur[a]).end
                <= (#[trigger] cur[b]).start by {}
        }
        assert(cur[j].start < k < cur[j].end);
        lemma_split_inside(cur, k as usize, j);
        assert(cur.take(j) =~= unit_ranges(j as nat));
        assert(cur.skip(j + 1) =~= Seq::<Range<usize>>::empty());
        assert(split_spec(cur, k as usize) =~= unit_ranges(k as nat) + seq![
            Range { start: k as usize, end: n },
        ]);
    }
}

/// Starting from the single range `[0, n)` and splitting at every column of
/// `[1, n)` in turn leaves the `n` unit ranges, which laid end to end give
/// `[0, n)` back.
pub proof fn lemma_split_every_point(n: usize)
    requires
        n > 0,
    ensures
        split_points(
            seq![Range { start: 0usize, end: n }],
            Seq::new((n - 1) as nat, |i: int| (i + 1) as usize),
        ) == unit_ranges(n as nat),
        unit_ranges(n as nat)[0].start == 0,
        unit_ranges(n as nat).last().end == n,
        forall|i: int|
            0 <= i < n - 1 ==> (#[trigger] unit_ranges(n as nat)[i]).end == unit_ranges(
                n as nat,
            )[i + 1].start,
{
    let pts = Seq::new((n - 1) as nat, |i: int| (i + 1) as usize);
    lemma_split_units(n, n - 1);
    assert(pts.take(n - 1) =~= pts);
    assert(unit_ranges((n - 1) as nat) + seq![Range { start: (n - 1) as usize, end: n }]
        =~= unit_ranges(n as nat));
}

/// One set per image row, each the single range of the full width.
pub fn intervals_from_image(image: &RgbaRaster) -> (r: Vec<IntervalSet>)
    ensures
        r@.len() == image.rows@.len(),
        forall|y: int|
            0 <= y < r@.len() ==> (#[trigger] r@[y]).wf() && (image.width > 0 ==> r@[y]@ == seq![
                Range { start: 0usize, end: image.width },
            ]) && (image.width == 0 ==> r@[y]@.len() == 0),
{
    let mut sets: Vec<IntervalSet> = Vec::new();
    let mut y: usize = 0;
    while y < image.rows.len()
        invariant
            y <= image.rows@.len(),
            sets@.len() == y,
            forall|k: int|
                0 <= k < y ==> (#[trigger] sets@[k]).wf() && (image.width > 0 ==> sets@[k]@
                    == seq![Range { start: 0usize, end: image.width }]) && (image.width == 0
                    ==> sets@[k]@.len() == 0),
        decreases image.rows@.len() - y,
    {
        sets.push(IntervalSet::new(image.width));
        y += 1;
    }
    sets
}

/// Splits every row at the multiples of `rows / part_count` below
/// `part_count * (rows / part_count)`, where `rows` is the number of sets.
/// Nothing is split when `part_count` is zero or exceeds the number of sets.
pub fn split_equal(intervals: &mut Vec<IntervalSet>, part_count: usize)
    requires
        forall|y: int| 0 <= y < old(intervals)@.len() ==> (#[trigger] old(intervals)@[y]).wf(),
    ensures
        final(intervals)@.len() == old(intervals)@.len(),
        forall|y: int| 0 <= y < final(intervals)@.len() ==> (#[trigger] final(intervals)@[y]).wf(),
        part_count == 0 || part_count > old(intervals)@.len() ==> final(intervals)@ == old(
            intervals,
        )@,
        0 < part_count <= old(intervals)@.len() ==> forall|y: int|
            0 <= y < old(intervals)@.len() ==> (#[trigger] final(intervals)@[y])@ == split_points(
                old(intervals)@[y]@,
                equal_points(old(intervals)@.len(), part_count as nat),
            ),
        forall|y: int, x: int|
            0 <= y < old(intervals)@.len() ==> (#[trigger] covers(final(intervals)@[y]@, x)
                <==> covers(old(intervals)@[y]@, x)),
{
    let rows = intervals.len();
    if part_count == 0 || part_count > rows {
        return;
    }
    let width = rows / part_count;
    let ghost pts = equal_points(rows as nat, part_count as nat);
    let ghost orig = intervals@;
    let mut y: usize = 0;
    while y < rows
        invariant
            rows == orig.len(),
            0 < part_count <= rows,
            width == rows / part_count,
            pts == equal_points(rows as nat, part_count as nat),
            y <= rows,
            intervals@.len() == rows,
            forall|yy: int| 0 <= yy < rows ==> (#[trigger] intervals@[yy]).wf(),
            forall|yy: int|
                0 <= yy < y ==> (#[trigger] intervals@[yy])@ == split_points(orig[yy]@, pts),
            forall|yy: int, x: int|
                0 <= yy < y ==> (#[trigger] covers(intervals@[yy]@, x) <==> covers(orig[yy]@, x)),
            forall|yy: int| y <= yy < rows ==> #[trigger] intervals@[yy] == orig[yy],
        decreases rows - y,
    {
        let ghost at_start = intervals@;
        let mut set = IntervalSet::new(0);
        std::mem::swap(&mut set, &mut intervals[y]);
        let ghost taken = set;
        let mut id: usize = 0;
        while id < part_count
            invariant
                0 < part_count <= rows,
                width == rows / part_count,
                pts == equal_points(rows as nat, part_count as nat),
                id <= part_count,
                set.wf(),
                set@ == split_points(taken@, pts.take(id as int)),
                forall|x: int| #[trigger] covers(set@, x) <==> covers(taken@, x),
            decreases part_count - id,
        {
            assert(id * width <= part_count * width) by (nonlinear_arith)
                requires
                    id < part_count,
            ;
            assert(part_count * width <= rows) by (nonlinear_arith)
                requires
                    width == rows / part_count,
                    part_count > 0,
            ;
            let ghost prev = set@;
            set.split_at(id * width);
            proof {
                lemma_split_points_step(taken@, pts, id as int);
                assert(pts[id as int] == id * width);
                assert forall|x: int| #[trigger] covers(set@, x) <==> covers(taken@, x) by {
                    assert(covers(set@, x) <==> covers(prev, x));
                }
            }
            id += 1;
        }
        proof {
            assert(pts.take(part_count as int) =~= pts);
        }
        let ghost done = set;
        let ghost mid = intervals@;
        std::mem::swap(&mut set, &mut intervals[y]);
        proof {
            assert(taken == orig[y as int]);
            assert forall|yy: int| 0 <= yy < y + 1 implies (#[trigger] intervals@[yy])@
                == split_points(orig[yy]@, pts) by {
                if yy < y {
                    assert(intervals@[yy] == at_start[yy]);
                }
            }
            assert forall|yy: int, x: int| 0 <= yy < y + 1 implies (#[trigger] covers(
                intervals@[yy]@,
                x,
            ) <==> covers(orig[yy]@, x)) by {
                if yy < y {
                    assert(intervals@[yy] == at_start[yy]);
                    assert(covers(at_start[yy]@, x) <==> covers(orig[yy]@, x));
                } else {
                    assert(intervals@[yy] == done);
                    assert(covers(done@, x) <==> covers(taken@, x));
                }
            }
        }
        y += 1;
    }
}

/// No column counts as kept: `cut_from` under it asks only that a range lie
/// inside its parent.
pub open spec fn kept_none() -> spec_fn(int) -> bool {
    |x: int| false
}

proof fn lemma_split_within(s: Seq<Range<usize>>, p: usize)
    requires
        valid_ranges(s),
    ensures
        pieces_of(split_spec(s, p), s, kept_none()),
{
    if exists|i: int| 0 <= i < s.len() && (#[trigger] s[i]).start < p && p < s[i].end {
        let i = choose|i: int| 0 <= i < s.len() && (#[trigger] s[i]).start < p && p < s[i].end;
        lemma_split_inside(s, p, i);
        let t = split_spec(s, p);
        assert forall|k: int| 0 <= k < t.len() implies has_parent(#[trigger] t[k], s, kept_none()) by {
            if k < i {
                assert(t[k] == s[k]);
                assert(cut_from(t[k], s[k], kept_none()));
            } else if k > i + 1 {
                assert(t[k] == s[k - 1]);
                assert(cut_from(t[k], s[k - 1], kept_none()));
            } else {
                assert(t[k] == (s.take(i) + split_piece(s[i], p))[k]);
                assert(cut_from(t[k], s[i], kept_none()));
            }
        }
    } else {
        lemma_split_none(s, p);
        lemma_pieces_self(s, kept_none());
    }
}

proof fn lemma_within_trans(u: Seq<Range<usize>>, t: Seq<Range<usize>>, s: Seq<Range<usize>>)
    requires
        pieces_of(u, t, kept_none()),
        pieces_of(t, s, kept_none()),
    ensures
        pieces_of(u, s, kept_none()),
{
    assert forall|k: int| 0 <= k < u.len() implies has_parent(#[trigger] u[k], s, kept_none()) by {
        assert(has_parent(u[k], t, kept_none()));
        let m = choose|m: int| 0 <= m < t.len() && cut_from(u[k], #[trigger] t[m], kept_none());
        assert(has_parent(t[m], s, kept_none()));
        let j = choose|j: int| 0 <= j < s.len() && cut_from(t[m], #[trigger] s[j], kept_none());
        assert(cut_from(u[k], s[j], kept_none()));
    }
}

/// Relies on rand's `Rng::gen_range` on the thread-local generator: a value
/// in `[low, high)`. It panics when `low >= high`, which `requires` rules out.
#[verifier::external_body]
fn draw_width(low: usize, high: usize) -> (r: usize)
    requires
        low < high,
    ensures
        low <= r < high,
{
    rand::Rng::gen_range(&mut rand::thread_rng(), low, high)
}

/// The sum of `ws`.
pub open spec fn seq_sum(ws: Seq<usize>) -> int
    decreases ws.len(),
{
    if ws.len() == 0 {
        0
    } else {
        seq_sum(ws.drop_last()) + ws.last()
    }
}

/// The running sums of `ws`: `ws[0]`, `ws[0] + ws[1]`, and so on.
pub open spec fn running_sums(ws: Seq<usize>) -> Seq<usize> {
    Seq::new(ws.len(), |i: int| seq_sum(ws.take(i + 1)) as usize)
}

/// `w` is at most one of the first `n` entries of `ws`.
pub open spec fn at_most_one_of(w: int, ws: Seq<usize>, n: int) -> bool {
    exists|i: int| 0 <= i < n && w <= #[trigger] ws[i]
}

/// The largest end of the ranges, 0 when there is none.
pub open spec fn set_end(s: Seq<Range<usize>>) -> int {
    if s.len() == 0 {
        0
    } else {
        s.last().end as int
    }
}

proof fn lemma_sum_step(ws: Seq<usize>, j: int)
    requires
        0 <= j < ws.len(),
    ensures
        seq_sum(ws.take(j + 1)) == seq_sum(ws.take(j)) + ws[j],
{
    assert(ws.take(j + 1).drop_last() =~= ws.take(j));
    assert(ws.take(j + 1).last() == ws[j]);
}

proof fn lemma_prefix_sum_le(ws: Seq<usize>, j: int)
    requires
        0 <= j <= ws.len(),
    ensures
        seq_sum(ws.take(j)) <= seq_sum(ws),
    decreases ws.len() - j,
{
    if j == ws.len() {
        assert(ws.take(j) =~= ws);
    } else {
        lemma_sum_step(ws, j);
        lemma_prefix_sum_le(ws, j + 1);
    }
}

/// A set that covers the same columns as a valid `s` ends no later than `s`.
proof fn lemma_end_bound(t: Seq<Range<usize>>, s: Seq<Range<usize>>)
    requires
        valid_ranges(s),
        valid_ranges(t),
        forall|x: int| #[trigger] covers(t, x) <==> covers(s, x),
    ensures
        forall|k: int| 0 <= k < t.len() ==> (#[trigger] t[k]).end <= set_end(s),
{
    assert forall|k: int| 0 <= k < t.len() implies (#[trigger] t[k]).end <= set_end(s) by {
        let x = t[k].end - 1;
        assert(t[k].start <= x < t[k].end);
        assert(covers(t, x));
        assert(covers(s, x));
        let j = choose|j: int| 0 <= j < s.len() && (#[trigger] s[j]).start <= x && x < s[j].end;
        if j < s.len() - 1 {
            assert(s[j].end <= s[s.len() - 1].start);
        }
    }
}

/// Every range that starts before `acc` ends by it and is no wider than one
/// of the first `n` widths.
pub open spec fn widths_bounded(t: Seq<Range<usize>>, acc: int, w: Seq<usize>, n: int) -> bool {
    forall|k: int|
        0 <= k < t.len() && (#[trigger] t[k]).start < acc ==> t[k].end <= acc && at_most_one_of(
            t[k].end - t[k].start,
            w,
            n,
        )
}

proof fn lemma_widths_step(prev: Seq<Range<usize>>, prev_acc: int, acc: usize, w: Seq<usize>, j: int)
    requires
        valid_ranges(prev),
        0 <= j < w.len(),
        acc == prev_acc + w[j],
        widths_bounded(prev, prev_acc, w, j),
    ensures
        widths_bounded(split_spec(prev, acc), acc as int, w, j + 1),
{
    let t = split_spec(prev, acc);
    assert forall|k: int| 0 <= k < prev.len() && (#[trigger] prev[k]).start < prev_acc implies at_most_one_of(
        prev[k].end - prev[k].start,
        w,
        j + 1,
    ) by {
        let i = choose|i: int| 0 <= i < j && prev[k].end - prev[k].start <= #[trigger] w[i];
        assert(0 <= i < j + 1 && prev[k].end - prev[k].start <= w[i]);
    }
    if exists|i: int| 0 <= i < prev.len() && (#[trigger] prev[i]).start < acc && acc < prev[i].end {
        let l = choose|i: int| 0 <= i < prev.len() && (#[trigger] prev[i]).start < acc && acc < prev[i].end;
        lemma_split_inside(prev, acc, l);
        assert forall|k: int| 0 <= k < t.len() && (#[trigger] t[k]).start < acc implies t[k].end <= acc
            && at_most_one_of(t[k].end - t[k].start, w, j + 1) by {
            if k < l {
                assert(t[k] == prev[k]);
                assert(prev[k].end <= prev[l].start);
                if t[k].start >= prev_acc {
                    assert(t[k].end - t[k].start <= w[j]);
                }
            } else if k == l {
                assert(t[k] == (prev.take(l) + split_piece(prev[l], acc))[k]);
                if prev[l].start < prev_acc {
                    assert(prev[l].end <= prev_acc);
                }
                assert(t[k].end - t[k].start <= w[j]);
            } else if k == l + 1 {
                assert(t[k] == (prev.take(l) + split_piece(prev[l], acc))[k]);
            } else {
                assert(t[k] == prev[k - 1]);
                assert(prev[l].end <= prev[k - 1].start);
            }
        }
    } else {
        lemma_split_none(prev, acc);
        assert forall|k: int| 0 <= k < t.len() && (#[trigger] t[k]).start < acc implies t[k].end <= acc
            && at_most_one_of(t[k].end - t[k].start, w, j + 1) by {
            assert(t[k] == prev[k]);
            if t[k].start >= prev_acc {
                assert(t[k].end - t[k].start <= w[j]);
            }
        }
    }
}

/// Splits the set at the running sums of `widths`: at `widths[0]`, then at
/// `widths[0] + widths[1]`, and so on. A range that starts before the total
/// ends by it, and is no wider than one of the widths.
pub fn split_by_widths(set: &mut IntervalSet, widths: &Vec<usize>)
    requires
        old(set).wf(),
        seq_sum(widths@) <= usize::MAX,
    ensures
        final(set).wf(),
        final(set)@ == split_points(old(set)@, running_sums(widths@)),
        forall|x: int| #[trigger] covers(final(set)@, x) <==> covers(old(set)@, x),
        pieces_of(final(set)@, old(set)@, kept_none()),
        forall|k: int|
            0 <= k < final(set)@.len() && (#[trigger] final(set)@[k]).start < seq_sum(widths@)
                ==> final(set)@[k].end <= seq_sum(widths@) && at_most_one_of(
                final(set)@[k].end - final(set)@[k].start,
                widths@,
                widths@.len() as int,
            ),
{
    let ghost orig = set@;
    let ghost w = widths@;
    let ghost pts = running_sums(widths@);
    proof {
        assert(w.take(0) =~= Seq::<usize>::empty());
        assert(pts.take(0) =~= Seq::<usize>::empty());
        lemma_pieces_self(orig, kept_none());
    }
    let mut acc: usize = 0;
    let mut j: usize = 0;
    while j < widths.len()
        invariant
            w == widths@,
            j <= w.len(),
            set.wf(),
            seq_sum(w) <= usize::MAX,
            pts == running_sums(w),
            acc == seq_sum(w.take(j as int)),
            set@ == split_points(orig, pts.take(j as int)),
            forall|x: int| #[trigger] covers(set@, x) <==> covers(orig, x),
            pieces_of(set@, orig, kept_none()),
            widths_bounded(set@, acc as int, w, j as int),
        decreases w.len() - j,
    {
        proof {
            lemma_sum_step(w, j as int);
            lemma_prefix_sum_le(w, j + 1);
        }
        let ghost prev = set@;
        let ghost prev_acc = acc;
        acc = acc + widths[j];
        set.split_at(acc);
        proof {
            lemma_split_points_step(orig, pts, j as int);
            assert(pts[j as int] == acc);
            assert forall|x: int| #[trigger] covers(set@, x) <==> covers(orig, x) by {
                assert(covers(set@, x) <==> covers(prev, x));
            }
            lemma_split_within(prev, acc);
            lemma_within_trans(set@, prev, orig);
            lemma_widths_step(prev, prev_acc as int, acc, w, j as int);
        }
        j += 1;
    }
    proof {
        assert(w.take(w.len() as int) =~= w);
        assert(pts.take(w.len() as int) =~= pts);
    }
}

/// `t` is `s` split at the running sums of the draws `ws`, each in
/// `[lower, upper)`, and the next draw, at most `upper - 1`, would have
/// reached the end of `s`.
pub open spec fn cut_by_draws(
    s: Seq<Range<usize>>,
    t: Seq<Range<usize>>,
    ws: Seq<usize>,
    lower: usize,
    upper: usize,
) -> bool {
    &&& forall|i: int| 0 <= i < ws.len() ==> lower <= #[trigger] ws[i] < upper
    &&& t == split_points(s, running_sums(ws))
    &&& set_end(s) - seq_sum(ws) < upper
}

/// `t` is `s` cut by some draws in `[lower, upper)`, as `cut_by_draws` says.
pub open spec fn cut_by_some_draws(
    s: Seq<Range<usize>>,
    t: Seq<Range<usize>>,
    lower: usize,
    upper: usize,
) -> bool {
    exists|ws: Seq<usize>| #[trigger] cut_by_draws(s, t, ws, lower, upper)
}

/// Cuts every row into abutting pieces of random width drawn from
/// `[lower, upper)`, starting at column 0, until the row's end is reached.
/// Every column stays covered: ranges are only split, and no range is left
/// as wide as `upper`. With `lower == 0` or `lower >= upper` nothing is done.
pub fn random(intervals: &mut Vec<IntervalSet>, lower: usize, upper: usize)
    requires
        forall|y: int| 0 <= y < old(intervals)@.len() ==> (#[trigger] old(intervals)@[y]).wf(),
    ensures
        final(intervals)@.len() == old(intervals)@.len(),
        forall|y: int| 0 <= y < final(intervals)@.len() ==> (#[trigger] final(intervals)@[y]).wf(),
        forall|y: int, x: int|
            0 <= y < old(intervals)@.len() ==> (#[trigger] covers(final(intervals)@[y]@, x)
                <==> covers(old(intervals)@[y]@, x)),
        forall|y: int|
            0 <= y < old(intervals)@.len() ==> pieces_of(
                #[trigger] final(intervals)@[y]@,
                old(intervals)@[y]@,
                kept_none(),
            ),
        lower == 0 || lower >= upper ==> final(intervals)@ == old(intervals)@,
        0 < lower < upper ==> forall|y: int|
            0 <= y < old(intervals)@.len() ==> cut_by_some_draws(
                old(intervals)@[y]@,
                #[trigger] final(intervals)@[y]@,
                lower,
                upper,
            ),
        0 < lower < upper ==> forall|y: int, k: int|
            0 <= y < final(intervals)@.len() && 0 <= k < final(intervals)@[y]@.len()
                ==> #[trigger] final(intervals)@[y]@[k].end - final(intervals)@[y]@[k].start
                < upper,
{
    if lower == 0 || lower >= upper {
        proof {
            assert forall|y: int| 0 <= y < intervals@.len() implies pieces_of(
                #[trigger] intervals@[y]@,
                intervals@[y]@,
                kept_none(),
            ) by {
                lemma_pieces_self(intervals@[y]@, kept_none());
            }
        }
        return;
    }
    let ghost orig = intervals@;
    let rows = intervals.len();
    let mut y: usize = 0;
    while y < rows
        invariant
            rows == orig.len(),
            0 < lower < upper,
            y <= rows,
            intervals@.len() == rows,
            forall|yy: int| 0 <= yy < rows ==> (#[trigger] intervals@[yy]).wf(),
            forall|yy: int, x: int|
                0 <= yy < y ==> (#[trigger] covers(intervals@[yy]@, x) <==> covers(orig[yy]@, x)),
            forall|yy: int|
                0 <= yy < y ==> pieces_of(#[trigger] intervals@[yy]@, orig[yy]@, kept_none()),
            forall|yy: int|
                0 <= yy < y ==> cut_by_some_draws(orig[yy]@, #[trigger] intervals@[yy]@, lower, upper),
            forall|yy: int, k: int|
                0 <= yy < y && 0 <= k < intervals@[yy]@.len() ==> #[trigger] intervals@[yy]@[k].end
                    - intervals@[yy]@[k].start < upper,
            forall|yy: int| y <= yy < rows ==> #[trigger] intervals@[yy] == orig[yy],
        decreases rows - y,
    {
        let ghost at_start = intervals@;
        let mut set = IntervalSet::new(0);
        std::mem::swap(&mut set, &mut intervals[y]);
        let ghost taken = set;
        let width = set.end();
        let mut widths: Vec<usize> = Vec::new();
        let mut acc: usize = 0;
        let mut stop = false;
        while !stop
            invariant
                0 < lower < upper,
                acc <= width,
                acc == seq_sum(widths@),
                forall|i: int| 0 <= i < widths@.len() ==> lower <= #[trigger] widths@[i] < upper,
                stop ==> width - acc < upper,
            decreases width - acc + (if stop {
                0int
            } else {
                1int
            }),
        {
            if acc >= width {
                stop = true;
            } else {
                let step = draw_width(lower, upper);
                if step >= width - acc {
                    stop = true;
                } else {
                    let ghost before = widths@;
                    widths.push(step);
                    proof {
                        assert(widths@.drop_last() =~= before);
                    }
                    acc = acc + step;
                }
            }
        }
        split_by_widths(&mut set, &widths);
        let ghost done = set;
        proof {
            assert(width == set_end(taken@));
            assert(cut_by_draws(taken@, done@, widths@, lower, upper));
            lemma_end_bound(done@, taken@);
            assert forall|k: int| 0 <= k < done@.len() implies #[trigger] done@[k].end
                - done@[k].start < upper by {
                if done@[k].start < acc {
                    let i = choose|i: int|
                        0 <= i < widths@.len() && done@[k].end - done@[k].start
                            <= #[trigger] widths@[i];
                } else {
                    assert(done@[k].end <= width);
                }
            }
        }
        std::mem::swap(&mut set, &mut intervals[y]);
        proof {
            assert(taken == orig[y as int]);
            assert forall|yy: int, x: int| 0 <= yy < y + 1 implies (#[trigger] covers(
                intervals@[yy]@,
                x,
            ) <==> covers(orig[yy]@, x)) by {
                if yy < y {
                    assert(intervals@[yy] == at_start[yy]);
                    assert(covers(at_start[yy]@, x) <==> covers(orig[yy]@, x));
                } else {
                    assert(intervals@[yy] == done);
                    assert(covers(done@, x) <==> covers(taken@, x));
                }
            }
            assert forall|yy: int| 0 <= yy < y + 1 implies pieces_of(
                #[trigger] intervals@[yy]@,
                orig[yy]@,
                kept_none(),
            ) by {
                if yy < y {
                    assert(intervals@[yy] == at_start[yy]);
                } else {
                    assert(intervals@[yy] == done);
                }
            }
            assert forall|yy: int| 0 <= yy < y + 1 implies cut_by_some_draws(
                orig[yy]@,
                #[trigger] intervals@[yy]@,
                lower,
                upper,
            ) by {
                if yy < y {
                    assert(intervals@[yy] == at_start[yy]);
                } else {
                    assert(intervals@[yy] == done);
                    assert(cut_by_draws(orig[yy]@, intervals@[yy]@, widths@, lower, upper));
                }
            }
            assert forall|yy: int, k: int|
                0 <= yy < y + 1 && 0 <= k < intervals@[yy]@.len() implies #[trigger] intervals@[yy]@[k].end
                    - intervals@[yy]@[k].start < upper by {
                if yy < y {
                    assert(intervals@[yy] == at_start[yy]);
                } else {
                    assert(intervals@[yy] == done);
                }
            }
        }
        y += 1;
    }
}

} // verus!

//! A horizontal scanline intersecting a shape: ordered crossings, prefix-sum
//! winding numbers, cursor-accelerated point queries, and the two-scanline
//! agreement-length sweep.

use core::cmp::Ordering;
use vstd::prelude::*;
use crate::fill_rule::FillRule;
use crate::fill_rule::decide;
use crate::fill_rule::interpret_fill_rule;
use crate::arithmetics::min;
use crate::winding::Intersection;
use crate::winding::agree_count;
use crate::winding::lemma_agree_constant;
use crate::winding::lemma_agree_count_stretch;
use crate::winding::count_le;
use crate::winding::lemma_prefix_sum_bound;
use crate::winding::lemma_sums_insert;
use crate::winding::lemma_sums_split;
use crate::winding::lemma_sums_take_step;
use crate::winding::lemma_to_multiset_insert;
use crate::winding::lemma_to_multiset_take_step;
use crate::winding::prefix_sum;
use crate::winding::sorted_by_x;
use crate::winding::total_direction;
use crate::winding::winding_sum;

verus! {

/// A query that violated its caller contract.
#[derive(Clone, Copy, Debug, PartialEq, Eq, Structural)]
pub enum ScanlineError {
    /// The cursor search was invoked on a scanline with no intersections.
    EmptySequenceQuery,
    /// The cursor search was asked for a coordinate strictly left of the
    /// lowest intersection.
    QueryBelowDomain,
}

/// Maps a sign to the corresponding ordering.
pub fn i8_to_ordering(i: i8) -> (r: Ordering)
    ensures
        r == (if i < 0 {
            Ordering::Less
        } else if i > 0 {
            Ordering::Greater
        } else {
            Ordering::Equal
        }),
{
    if i < 0 {
        return Ordering::Less;
    } else if i > 0 {
        return Ordering::Greater;
    } else {
        return Ordering::Equal;
    }
}

/// Sorts crossings by x with a stable insertion sort: equal-x crossings keep
/// their relative input order, since each is inserted after every crossing
/// already placed at or left of its coordinate.
fn sort_by_x_stable(input: Vec<Intersection>) -> (r: Vec<Intersection>)
    ensures
        sorted_by_x(r@),
        r@.len() == input@.len(),
        r@.to_multiset() == input@.to_multiset(),
        forall|x: int| #![trigger winding_sum(r@, x)] winding_sum(r@, x) == winding_sum(input@, x),
        forall|x: int| #![trigger count_le(r@, x)] count_le(r@, x) == count_le(input@, x),
        total_direction(r@) == total_direction(input@),
{
    let mut out: Vec<Intersection> = Vec::new();
    let mut k: usize = 0;
    proof {
        assert(input@.take(0) =~= out@);
    }
    while k < input.len()
        invariant
            k <= input@.len(),
            out@.len() == k,
            sorted_by_x(out@),
            out@.to_multiset() == input@.take(k as int).to_multiset(),
            forall|x: int|
                #![trigger winding_sum(out@, x)]
                winding_sum(out@, x) == winding_sum(input@.take(k as int), x),
            forall|x: int|
                #![trigger count_le(out@, x)]
                count_le(out@, x) == count_le(input@.take(k as int), x),
            total_direction(out@) == total_direction(input@.take(k as int)),
        decreases input@.len() - k,
    {
        let e = input[k];
        let ghost prev = out@;
        let mut pos: usize = out.len();
        while pos > 0 && out[pos - 1].x > e.x
            invariant
                pos <= out@.len(),
                out@ == prev,
                forall|j: int|
                    #![trigger out@[j].x]
                    pos <= j < out@.len() ==> out@[j].x > e.x,
            decreases pos,
        {
            pos = pos - 1;
        }
        out.insert(pos, e);
        proof {
            assert(out@ =~= prev.insert(pos as int, e));
            assert forall|j: int| 0 <= j < pos as int implies prev[j].x <= e.x by {
                assert(prev[j].x <= prev[pos as int - 1].x);
            }
            assert forall|i: int, j: int|
                #![trigger out@[i].x, out@[j].x]
                0 <= i < j < out@.len() implies out@[i].x <= out@[j].x by {
                if j < pos as int {
                    assert(out@[i] == prev[i] && out@[j] == prev[j]);
                } else if i > pos as int {
                    assert(out@[i] == prev[i - 1] && out@[j] == prev[j - 1]);
                } else if i < pos as int && j == pos as int {
                    assert(out@[i] == prev[i] && out@[j] == e);
                } else if i == pos as int {
                    assert(out@[i] == e && out@[j] == prev[j - 1]);
                } else {
                    assert(out@[i] == prev[i] && out@[j] == prev[j - 1]);
                    assert(prev[i].x <= e.x && e.x < prev[j - 1].x);
                }
            }
            assert forall|x: int|
                #![trigger winding_sum(out@, x)]
                winding_sum(out@, x) == winding_sum(input@.take(k as int + 1), x) by {
                lemma_sums_insert(prev, pos as int, e, x);
                lemma_sums_take_step(input@, k as int, x);
            }
            assert forall|x: int|
                #![trigger count_le(out@, x)]
                count_le(out@, x) == count_le(input@.take(k as int + 1), x) by {
                lemma_sums_insert(prev, pos as int, e, x);
                lemma_sums_take_step(input@, k as int, x);
            }
            lemma_sums_insert(prev, pos as int, e, 0);
            lemma_sums_take_step(input@, k as int, 0);
            lemma_to_multiset_insert(prev, pos as int, e);
            lemma_to_multiset_take_step(input@, k as int);
        }
        k = k + 1;
    }
    proof {
        assert(input@.take(input@.len() as int) =~= input@);
    }
    out
}

/// Caches the winding number at each crossing: the prefix sum of the raw
/// directions through that index.
fn compute_windings(v: &Vec<Intersection>) -> (r: Vec<i64>)
    requires
        v@.len() <= 0xFFFF_FFFF,
    ensures
        r@.len() == v@.len(),
        forall|i: int| #![trigger r@[i]] 0 <= i < r@.len() ==> r@[i] == prefix_sum(v@, i),
{
    let mut r: Vec<i64> = Vec::new();
    let mut total: i64 = 0;
    let mut i: usize = 0;
    while i < v.len()
        invariant
            i <= v@.len(),
            v@.len() <= 0xFFFF_FFFF,
            r@.len() == i,
            total == prefix_sum(v@, i as int - 1),
            forall|j: int| #![trigger r@[j]] 0 <= j < i ==> r@[j] == prefix_sum(v@, j),
        decreases v@.len() - i,
    {
        proof {
            lemma_prefix_sum_bound(v@, i as int - 1);
        }
        total = total + (v[i].direction as i64);
        r.push(total);
        i = i + 1;
    }
    r
}

/// A horizontal scanline intersecting a shape: the sorted crossings of one
/// scan row, their prefix-sum winding numbers, and a cached cursor that
/// accelerates runs of nearby queries.
pub struct Scanline {
    intersections: Vec<Intersection>,
    windings: Vec<i64>,
    last_index: usize,
}

impl View for Scanline {
    type V = Seq<Intersection>;

    /// The logical content of a scanline: its crossing sequence, with the
    /// raw per-crossing directions.
    closed spec fn view(&self) -> Seq<Intersection> {
        self.intersections@
    }
}

impl Scanline {
    /// The internal invariant: crossings sorted by x, one cached winding
    /// number per crossing holding the prefix sum of the raw directions, and
    /// a cursor that stays in bounds whenever there are crossings. The cursor
    /// is advisory: no query's answer depends on where it points.
    pub closed spec fn well_formed(&self) -> bool {
        &&& self.windings@.len() == self.intersections@.len()
        &&& sorted_by_x(self.intersections@)
        &&& forall|i: int|
            #![trigger self.windings@[i]]
            0 <= i < self.windings@.len() ==> self.windings@[i] == prefix_sum(self.intersections@, i)
        &&& (self.intersections@.len() > 0 ==> self.last_index < self.intersections@.len())
    }

    /// Creates an empty scanline: a row that never crosses the shape's
    /// boundary.
    pub fn new() -> (r: Scanline)
        ensures
            r.well_formed(),
            r@.len() == 0,
    {
        Scanline { intersections: Vec::new(), windings: Vec::new(), last_index: 0 }
    }

    /// Measures the total length within `[x_from, x_to]` over which the two
    /// scanlines' fill decisions coincide under the given fill rule. A
    /// two-pointer merge over the two sorted crossing sequences: a catch-up
    /// phase establishes both fill states at `x_from`, then the sweep adds
    /// the length of every stretch on which the states agree. Uses local
    /// cursors only; neither scanline's cached cursor is read or moved.
    pub fn overlap(a: &Scanline, b: &Scanline, x_from: i64, x_to: i64, fill_rule: FillRule) -> (r: i64)
        requires
            a.well_formed(),
            b.well_formed(),
            x_from <= x_to,
            x_to - x_from <= i64::MAX,
        ensures
            r == agree_count(a@, b@, fill_rule, x_from as int, x_to as int),
    {
        let mut total: i64 = 0;
        let mut a_inside: bool = false;
        let mut b_inside: bool = false;
        let mut ai: usize = 0;
        let mut bi: usize = 0;
        let mut ax: i64 = if a.intersections.len() > 0 {
            a.intersections[0].x
        } else {
            x_to
        };
        let mut bx: i64 = if b.intersections.len() > 0 {
            b.intersections[0].x
        } else {
            x_to
        };

        while ax < x_from || bx < x_from
            invariant
                a.well_formed(),
                b.well_formed(),
                x_from <= x_to,
                ai <= a@.len(),
                bi <= b@.len(),
                ax == (if ai < a@.len() {
                    a@[ai as int].x
                } else {
                    x_to
                }),
                bx == (if bi < b@.len() {
                    b@[bi as int].x
                } else {
                    x_to
                }),
                forall|j: int| #![trigger a@[j].x] 0 <= j < ai ==> a@[j].x < x_from,
                forall|j: int| #![trigger b@[j].x] 0 <= j < bi ==> b@[j].x < x_from,
                a_inside == decide(fill_rule, prefix_sum(a@, ai as int - 1)),
                b_inside == decide(fill_rule, prefix_sum(b@, bi as int - 1)),
            decreases (a@.len() - ai) + (b@.len() - bi),
        {
            let x_next = min(ax, bx);
            if ax == x_next && ai < a.intersections.len() {
                a_inside = interpret_fill_rule(a.windings[ai], fill_rule);
                ai = ai + 1;
                ax = if ai < a.intersections.len() {
                    a.intersections[ai].x
                } else {
                    x_to
                };
            }
            if bx == x_next && bi < b.intersections.len() {
                b_inside = interpret_fill_rule(b.windings[bi], fill_rule);
                bi = bi + 1;
                bx = if bi < b.intersections.len() {
                    b.intersections[bi].x
                } else {
                    x_to
                };
            }
        }

        let mut x: i64 = x_from;
        while ax < x_to || bx < x_to
            invariant
                a.well_formed(),
                b.well_formed(),
                x_from <= x <= x_to,
                x_to - x_from <= i64::MAX,
                ai <= a@.len(),
                bi <= b@.len(),
                ax == (if ai < a@.len() {
                    a@[ai as int].x
                } else {
                    x_to
                }),
                bx == (if bi < b@.len() {
                    b@[bi as int].x
                } else {
                    x_to
                }),
                x <= ax,
                x <= bx,
                forall|j: int| #![trigger a@[j].x] 0 <= j < ai ==> a@[j].x <= x,
                forall|j: int| #![trigger b@[j].x] 0 <= j < bi ==> b@[j].x <= x,
                a_inside == decide(fill_rule, prefix_sum(a@, ai as int - 1)),
                b_inside == decide(fill_rule, prefix_sum(b@, bi as int - 1)),
                total == agree_count(a@, b@, fill_rule, x_from as int, x as int),
                0 <= total,
                total <= x - x_from,
            decreases (a@.len() - ai) + (b@.len() - bi),
        {
            let x_next = min(ax, bx);
            proof {
                lemma_agree_constant(
                    a@,
                    b@,
                    fill_rule,
                    ai as int,
                    bi as int,
                    x as int,
                    x_next as int,
                    a_inside,
                    b_inside,
                );
                lemma_agree_count_stretch(
                    a@,
                    b@,
                    fill_rule,
                    x_from as int,
                    x as int,
                    x_next as int,
                    a_inside == b_inside,
                );
            }
            if a_inside == b_inside {
                total = total + (x_next - x);
            }
            if ax == x_next && ai < a.intersections.len() {
                a_inside = interpret_fill_rule(a.windings[ai], fill_rule);
                ai = ai + 1;
                ax = if ai < a.intersections.len() {
                    a.intersections[ai].x
                } else {
                    x_to
                };
            }
            if bx == x_next && bi < b.intersections.len() {
                b_inside = interpret_fill_rule(b.windings[bi], fill_rule);
                bi = bi + 1;
                bx = if bi < b.intersections.len() {
                    b.intersections[bi].x
                } else {
                    x_to
                };
            }
            x = x_next;
        }

        proof {
            lemma_agree_constant(
                a@,
                b@,
                fill_rule,
                ai as int,
                bi as int,
                x as int,
                x_to as int,
                a_inside,
                b_inside,
            );
            lemma_agree_count_stretch(
                a@,
                b@,
                fill_rule,
                x_from as int,
                x as int,
                x_to as int,
                a_inside == b_inside,
            );
        }
        if a_inside == b_inside {
            total = total + (x_to - x);
        }
        total
    }

    /// Replaces the owned crossing sequence with a fresh set of raw
    /// crossings: sorts them by x with a stable insertion sort, caches the
    /// prefix-sum winding numbers, and resets the cursor. Fully replaces any
    /// prior state, so re-populating with the same raw set reproduces the
    /// same query results. The crossing count is capped so that no cached
    /// prefix sum of `i32` directions can leave the range of `i64`.
    pub fn set_intersections(&mut self, intersections: Vec<Intersection>)
        requires
            intersections@.len() <= 0xFFFF_FFFF,
        ensures
            final(self).well_formed(),
            sorted_by_x(final(self)@),
            final(self)@.len() == intersections@.len(),
            final(self)@.to_multiset() == intersections@.to_multiset(),
            forall|x: int|
                #![trigger winding_sum(final(self)@, x)]
                winding_sum(final(self)@, x) == winding_sum(intersections@, x),
            forall|x: int|
                #![trigger count_le(final(self)@, x)]
                count_le(final(self)@, x) == count_le(intersections@, x),
            total_direction(final(self)@) == total_direction(intersections@),
    {
        let sorted_vec = sort_by_x_stable(intersections);
        let windings = compute_windings(&sorted_vec);
        self.intersections = sorted_vec;
        self.windings = windings;
        self.last_index = 0;
    }

    /// Cursor search: finds the index of the last crossing at or left of
    /// `x`, starting from the cached cursor and scanning linearly in the
    /// needed direction. Querying an empty scanline or a coordinate strictly
    /// left of the first crossing violates the caller contract and is
    /// signaled as an error.
    pub fn move_to(&mut self, x: i64) -> (r: Result<usize, ScanlineError>)
        requires
            old(self).well_formed(),
        ensures
            final(self).well_formed(),
            final(self)@ == old(self)@,
            match r {
                Ok(i) => {
                    &&& i < old(self)@.len()
                    &&& old(self)@[i as int].x <= x
                    &&& (i + 1 < old(self)@.len() ==> old(self)@[i as int + 1].x > x)
                    &&& count_le(old(self)@, x as int) == i + 1
                    &&& winding_sum(old(self)@, x as int) == prefix_sum(old(self)@, i as int)
                },
                Err(ScanlineError::EmptySequenceQuery) => old(self)@.len() == 0,
                Err(ScanlineError::QueryBelowDomain) => {
                    &&& old(self)@.len() > 0
                    &&& x < old(self)@[0].x
                    &&& count_le(old(self)@, x as int) == 0
                    &&& winding_sum(old(self)@, x as int) == 0
                },
            },
    {
        if self.intersections.len() == 0 {
            return Err(ScanlineError::EmptySequenceQuery);
        }
        let mut index: usize = self.last_index;
        if x < self.intersections[index].x {
            if x < self.intersections[0].x {
                self.last_index = 0;
                proof {
                    let s = self.intersections@;
                    assert forall|j: int| -1 < j && j < s.len() implies s[j].x > x as int by {
                        assert(s[0].x <= s[j].x);
                    }
                    lemma_sums_split(s, -1, x as int);
                }
                return Err(ScanlineError::QueryBelowDomain);
            }
            while x < self.intersections[index].x
                invariant
                    self == old(self),
                    old(self).well_formed(),
                    self.intersections@.len() > 0,
                    index < self.intersections@.len(),
                    x >= self.intersections@[0].x,
                    forall|j: int|
                        #![trigger self.intersections@[j].x]
                        index < j < self.intersections@.len() ==> self.intersections@[j].x > x,
                decreases index,
            {
                index = index - 1;
            }
        } else {
            while index < self.intersections.len() - 1 && x >= self.intersections[index + 1].x
                invariant
                    self == old(self),
                    old(self).well_formed(),
                    index < self.intersections@.len(),
                    self.intersections@[index as int].x <= x,
                decreases self.intersections@.len() - index,
            {
                index = index + 1;
            }
        }
        self.last_index = index;
        proof {
            self.lemma_query_split(index, x);
        }
        Ok(index)
    }

    /// Returns the number of crossings at or left of `x`. A coordinate left
    /// of the first crossing, or an empty scanline, yields zero.
    pub fn count_intersections(&mut self, x: i64) -> (r: usize)
        requires
            old(self).well_formed(),
        ensures
            final(self).well_formed(),
            final(self)@ == old(self)@,
            r == count_le(old(self)@, x as int),
    {
        let res = self.move_to(x);
        match res {
            Ok(index) => {
                proof {
                    assert(self.intersections@.len() == self.intersections.len());
                }
                index + 1
            },
            Err(_) => 0,
        }
    }

    /// Returns the winding number at `x`: the sum of the directions of all
    /// crossings at or left of `x`, or zero if there are none (including the
    /// empty-scanline case).
    pub fn winding_at(&mut self, x: i64) -> (r: i64)
        requires
            old(self).well_formed(),
        ensures
            final(self).well_formed(),
            final(self)@ == old(self)@,
            r == winding_sum(old(self)@, x as int),
    {
        let res = self.move_to(x);
        match res {
            Ok(index) => self.windings[index],
            Err(_) => 0,
        }
    }

    /// Decides whether the scanline is filled at `x` under the fill rule.
    /// An empty scanline is unfilled everywhere.
    pub fn filled(&mut self, x: i64, fill_rule: FillRule) -> (r: bool)
        requires
            old(self).well_formed(),
        ensures
            final(self).well_formed(),
            final(self)@ == old(self)@,
            r == decide(fill_rule, winding_sum(old(self)@, x as int)),
    {
        let w = self.winding_at(x);
        interpret_fill_rule(w, fill_rule)
    }

    /// After a successful cursor search the winding sum and crossing count
    /// at `x` are read off at the found index.
    proof fn lemma_query_split(&self, index: usize, x: i64)
        requires
            self.well_formed(),
            index < self@.len(),
            self@[index as int].x <= x,
            index + 1 < self@.len() ==> self@[index as int + 1].x > x,
        ensures
            winding_sum(self@, x as int) == prefix_sum(self@, index as int),
            count_le(self@, x as int) == index + 1,
    {
        let s = self@;
        assert forall|j: int| 0 <= j <= index as int implies s[j].x <= x as int by {
            assert(s[j].x <= s[index as int].x);
        }
        assert forall|j: int| (index as int) < j && j < s.len() implies s[j].x > x as int by {
            assert(s[index as int + 1].x <= s[j].x);
        }
        lemma_sums_split(s, index as int, x as int);
    }
}

} // verus!

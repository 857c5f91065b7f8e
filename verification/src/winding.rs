//! The mathematical model of a scan row: sequences of directed crossings,
//! winding sums, crossing counts, and the agreement measure of two rows.

use vstd::prelude::*;
use vstd::seq_lib::group_to_multiset_ensures;
use crate::fill_rule::FillRule;
use crate::fill_rule::decide;

verus! {

/// One directed crossing of the scan row with a shape boundary: the
/// x coordinate of the crossing (in integer coordinate units) and the signed
/// local crossing contribution, conventionally the sign (+1/-1) of the
/// boundary's y-direction at the crossing.
#[derive(Clone, Copy, Debug, PartialEq, Eq, Structural)]
pub struct Intersection {
    pub x: i64,
    pub direction: i32,
}

/// What one crossing contributes to the winding number at coordinate `x`:
/// its direction if it lies at or left of `x`, nothing otherwise.
pub open spec fn contribution(e: Intersection, x: int) -> int {
    if e.x <= x {
        e.direction as int
    } else {
        0
    }
}

/// The winding number at coordinate `x`: the sum of the contributions of all
/// crossings at or left of `x`. Independent of the order of the sequence.
pub open spec fn winding_sum(s: Seq<Intersection>, x: int) -> int
    decreases s.len(),
{
    if s.len() == 0 {
        0
    } else {
        winding_sum(s.drop_last(), x) + contribution(s.last(), x)
    }
}

/// The number of crossings at or left of coordinate `x`.
pub open spec fn count_le(s: Seq<Intersection>, x: int) -> int
    decreases s.len(),
{
    if s.len() == 0 {
        0
    } else {
        count_le(s.drop_last(), x) + (if s.last().x <= x {
            1int
        } else {
            0int
        })
    }
}

/// The sum of all crossing directions, regardless of coordinate.
pub open spec fn total_direction(s: Seq<Intersection>) -> int
    decreases s.len(),
{
    if s.len() == 0 {
        0
    } else {
        total_direction(s.drop_last()) + s.last().direction
    }
}

/// The sum of the directions of the crossings at indices `0 ..= i`.
pub open spec fn prefix_sum(s: Seq<Intersection>, i: int) -> int
    decreases i + 1,
{
    if i < 0 {
        0
    } else {
        prefix_sum(s, i - 1) + s[i].direction
    }
}

/// Non-decreasing x coordinates.
pub open spec fn sorted_by_x(s: Seq<Intersection>) -> bool {
    forall|i: int, j: int|
        #![trigger s[i].x, s[j].x]
        0 <= i < j < s.len() ==> s[i].x <= s[j].x
}

/// Whether two rows make the same fill decision at coordinate `x` under the
/// given fill rule.
pub open spec fn agree_at(a: Seq<Intersection>, b: Seq<Intersection>, fill_rule: FillRule, x: int) -> bool {
    decide(fill_rule, winding_sum(a, x)) == decide(fill_rule, winding_sum(b, x))
}

/// The length within the window `[from, to)` over which the two rows' fill
/// decisions coincide. Crossings sit at integer coordinates, so the fill
/// state is constant on each unit interval `[k, k + 1)` and the measure is a
/// count of agreeing unit intervals.
pub open spec fn agree_count(a: Seq<Intersection>, b: Seq<Intersection>, fill_rule: FillRule, from: int, to: int) -> int
    decreases to - from,
{
    if to <= from {
        0
    } else {
        agree_count(a, b, fill_rule, from, to - 1) + (if agree_at(a, b, fill_rule, to - 1) {
            1int
        } else {
            0int
        })
    }
}

/// The length within the window `[from, to)` over which the two rows' fill
/// decisions differ.
pub open spec fn disagree_count(a: Seq<Intersection>, b: Seq<Intersection>, fill_rule: FillRule, from: int, to: int) -> int
    decreases to - from,
{
    if to <= from {
        0
    } else {
        disagree_count(a, b, fill_rule, from, to - 1) + (if agree_at(a, b, fill_rule, to - 1) {
            0int
        } else {
            1int
        })
    }
}

/// Inserting a crossing anywhere in a row adds its contribution to every
/// winding sum and crossing count, and its direction to the total.
pub proof fn lemma_sums_insert(s: Seq<Intersection>, i: int, e: Intersection, x: int)
    requires
        0 <= i <= s.len(),
    ensures
        winding_sum(s.insert(i, e), x) == winding_sum(s, x) + contribution(e, x),
        count_le(s.insert(i, e), x) == count_le(s, x) + (if e.x <= x { 1int } else { 0int }),
        total_direction(s.insert(i, e)) == total_direction(s) + e.direction,
    decreases s.len(),
{
    let t = s.insert(i, e);
    if i == s.len() {
        assert(t.last() == e);
        assert(t.drop_last() =~= s);
    } else {
        assert(t.last() == s.last());
        assert(t.drop_last() =~= s.drop_last().insert(i, e));
        lemma_sums_insert(s.drop_last(), i, e, x);
    }
}

/// Inserting a crossing anywhere in a row inserts it into the row's multiset.
pub proof fn lemma_to_multiset_insert(s: Seq<Intersection>, i: int, e: Intersection)
    requires
        0 <= i <= s.len(),
    ensures
        s.insert(i, e).to_multiset() == s.to_multiset().insert(e),
{
    broadcast use group_to_multiset_ensures;

    let t = s.insert(i, e);
    if i == s.len() {
        assert(t =~= s.push(e));
        assert(t.to_multiset() =~= s.to_multiset().insert(e));
    } else {
        assert(t.remove(i) =~= s);
        assert(t[i] == e);
        assert(t.contains(e));
        assert(s.to_multiset() =~= t.to_multiset().remove(e));
        assert(t.to_multiset().count(e) > 0);
        assert(t.to_multiset() =~= s.to_multiset().insert(e));
    }
}

/// Extending a prefix of a row by its next crossing extends every winding
/// sum, crossing count, and the total accordingly.
pub proof fn lemma_sums_take_step(s: Seq<Intersection>, k: int, x: int)
    requires
        0 <= k < s.len(),
    ensures
        winding_sum(s.take(k + 1), x) == winding_sum(s.take(k), x) + contribution(s[k], x),
        count_le(s.take(k + 1), x) == count_le(s.take(k), x) + (if s[k].x <= x { 1int } else { 0int }),
        total_direction(s.take(k + 1)) == total_direction(s.take(k)) + s[k].direction,
{
    assert(s.take(k + 1).drop_last() =~= s.take(k));
    assert(s.take(k + 1).last() == s[k]);
}

/// Extending a prefix of a row by its next crossing inserts that crossing
/// into the prefix's multiset.
pub proof fn lemma_to_multiset_take_step(s: Seq<Intersection>, k: int)
    requires
        0 <= k < s.len(),
    ensures
        s.take(k + 1).to_multiset() == s.take(k).to_multiset().insert(s[k]),
{
    broadcast use group_to_multiset_ensures;

    assert(s.take(k + 1) =~= s.take(k).push(s[k]));
}

/// Two rows that agree up to index `i` have the same prefix sums up to `i`.
pub proof fn lemma_prefix_sum_agree(s1: Seq<Intersection>, s2: Seq<Intersection>, i: int)
    requires
        i < s1.len(),
        i < s2.len(),
        forall|j: int| #![trigger s1[j]] 0 <= j <= i ==> s1[j] == s2[j],
    ensures
        prefix_sum(s1, i) == prefix_sum(s2, i),
    decreases i + 1,
{
    if i >= 0 {
        lemma_prefix_sum_agree(s1, s2, i - 1);
    }
}

/// When every crossing at index `<= i` lies at or left of `x` and every
/// crossing at index `> i` lies strictly right of `x`, the winding sum at `x`
/// is the prefix sum through `i` and the crossing count at `x` is `i + 1`.
pub proof fn lemma_sums_split(s: Seq<Intersection>, i: int, x: int)
    requires
        -1 <= i < s.len(),
        forall|j: int| #![trigger s[j].x] 0 <= j <= i ==> s[j].x <= x,
        forall|j: int| #![trigger s[j].x] i < j < s.len() ==> s[j].x > x,
    ensures
        winding_sum(s, x) == prefix_sum(s, i),
        count_le(s, x) == i + 1,
    decreases s.len(),
{
    if s.len() == 0 {
    } else if i == s.len() - 1 {
        lemma_sums_split(s.drop_last(), i - 1, x);
        lemma_prefix_sum_agree(s.drop_last(), s, i - 1);
    } else {
        lemma_sums_split(s.drop_last(), i, x);
        lemma_prefix_sum_agree(s.drop_last(), s, i);
    }
}

/// Prefix sums of `i32` directions are bounded linearly in the index.
pub proof fn lemma_prefix_sum_bound(s: Seq<Intersection>, i: int)
    requires
        -1 <= i < s.len(),
    ensures
        -(i + 1) * 0x8000_0000 <= prefix_sum(s, i) <= (i + 1) * 0x7FFF_FFFF,
    decreases i + 1,
{
    if i >= 0 {
        lemma_prefix_sum_bound(s, i - 1);
    }
}

/// Over a stretch `[x, y)` on which the two rows' agreement is constantly
/// `flag`, the agreement count grows by the stretch's length if they agree
/// there and not at all otherwise.
pub proof fn lemma_agree_count_stretch(
    a: Seq<Intersection>,
    b: Seq<Intersection>,
    fill_rule: FillRule,
    from: int,
    x: int,
    y: int,
    flag: bool,
)
    requires
        from <= x <= y,
        forall|k: int| x <= k < y ==> #[trigger] agree_at(a, b, fill_rule, k) == flag,
    ensures
        agree_count(a, b, fill_rule, from, y) == agree_count(a, b, fill_rule, from, x) + (if flag { y - x } else { 0int }),
    decreases y - x,
{
    if y > x {
        lemma_agree_count_stretch(a, b, fill_rule, from, x, y - 1, flag);
        assert(agree_at(a, b, fill_rule, y - 1) == flag);
    }
}

/// During a merge sweep that has consumed the first `ai` crossings of one
/// row and `bi` of the other — all at or left of `lo`, with the next ones at
/// or right of `hi` — the two rows' fill decisions are constant on
/// `[lo, hi)`, so their agreement there is decided by the consumed prefixes.
pub proof fn lemma_agree_constant(
    a: Seq<Intersection>,
    b: Seq<Intersection>,
    fill_rule: FillRule,
    ai: int,
    bi: int,
    lo: int,
    hi: int,
    a_in: bool,
    b_in: bool,
)
    requires
        sorted_by_x(a),
        sorted_by_x(b),
        0 <= ai <= a.len(),
        0 <= bi <= b.len(),
        forall|j: int| #![trigger a[j].x] 0 <= j < ai ==> a[j].x <= lo,
        forall|j: int| #![trigger b[j].x] 0 <= j < bi ==> b[j].x <= lo,
        ai < a.len() ==> a[ai].x >= hi,
        bi < b.len() ==> b[bi].x >= hi,
        a_in == decide(fill_rule, prefix_sum(a, ai - 1)),
        b_in == decide(fill_rule, prefix_sum(b, bi - 1)),
    ensures
        forall|k: int| lo <= k < hi ==> #[trigger] agree_at(a, b, fill_rule, k) == (a_in == b_in),
{
    assert forall|k: int| lo <= k < hi implies #[trigger] agree_at(a, b, fill_rule, k) == (a_in
        == b_in) by {
        assert forall|j: int| ai <= j && j < a.len() implies a[j].x > k by {
            assert(a[ai].x <= a[j].x);
        }
        assert forall|j: int| bi <= j && j < b.len() implies b[j].x > k by {
            assert(b[bi].x <= b[j].x);
        }
        lemma_sums_split(a, ai - 1, k);
        lemma_sums_split(b, bi - 1, k);
    }
}

/// A row agrees with itself over the whole window: the agreement count of a
/// row against itself is the window's length, under every fill rule.
pub proof fn lemma_agree_count_self(s: Seq<Intersection>, fill_rule: FillRule, from: int, to: int)
    requires
        from <= to,
    ensures
        agree_count(s, s, fill_rule, from, to) == to - from,
    decreases to - from,
{
    if to > from {
        lemma_agree_count_self(s, fill_rule, from, to - 1);
    }
}

/// Partition law: over any window, the length where two rows agree and the
/// length where they disagree sum to the window's length.
pub proof fn lemma_agree_partition(a: Seq<Intersection>, b: Seq<Intersection>, fill_rule: FillRule, from: int, to: int)
    requires
        from <= to,
    ensures
        agree_count(a, b, fill_rule, from, to) + disagree_count(a, b, fill_rule, from, to) == to - from,
    decreases to - from,
{
    if to > from {
        lemma_agree_partition(a, b, fill_rule, from, to - 1);
    }
}

/// The crossing count is monotonically non-decreasing in the query
/// coordinate.
pub proof fn lemma_count_le_monotone(s: Seq<Intersection>, x1: int, x2: int)
    requires
        x1 <= x2,
    ensures
        count_le(s, x1) <= count_le(s, x2),
    decreases s.len(),
{
    if s.len() > 0 {
        lemma_count_le_monotone(s.drop_last(), x1, x2);
    }
}

/// A row with no crossings answers every point query with the "not filled"
/// answer: winding sum zero, crossing count zero, and unfilled under every
/// fill rule, at every coordinate.
pub proof fn lemma_empty_row_unfilled(s: Seq<Intersection>, fill_rule: FillRule, x: int)
    requires
        s.len() == 0,
    ensures
        winding_sum(s, x) == 0,
        count_le(s, x) == 0,
        !decide(fill_rule, winding_sum(s, x)),
{
}

/// Preprocessing is stable under re-insertion of an identical raw set: any
/// two crossing sequences whose winding sums and crossing counts match the
/// same raw set everywhere — as `set_intersections` ensures of its result —
/// answer every point query alike.
pub proof fn lemma_repopulation_stable(
    u: Seq<Intersection>,
    v: Seq<Intersection>,
    raw: Seq<Intersection>,
    x: int,
)
    requires
        forall|y: int| #![trigger winding_sum(u, y)] winding_sum(u, y) == winding_sum(raw, y),
        forall|y: int| #![trigger count_le(u, y)] count_le(u, y) == count_le(raw, y),
        forall|y: int| #![trigger winding_sum(v, y)] winding_sum(v, y) == winding_sum(raw, y),
        forall|y: int| #![trigger count_le(v, y)] count_le(v, y) == count_le(raw, y),
    ensures
        winding_sum(u, x) == winding_sum(v, x),
        count_le(u, x) == count_le(v, x),
{
}

/// On a sorted, non-empty row the winding sum is zero left of the first
/// crossing and equals the total of all directions at or right of the last.
pub proof fn lemma_winding_extremes(s: Seq<Intersection>, x: int)
    requires
        sorted_by_x(s),
        s.len() > 0,
    ensures
        x < s[0].x ==> winding_sum(s, x) == 0,
        x >= s[s.len() - 1].x ==> winding_sum(s, x) == total_direction(s),
{
    if x < s[0].x {
        lemma_sums_split(s, -1, x);
    }
    if x >= s[s.len() - 1].x {
        lemma_sums_split(s, s.len() - 1, x);
        lemma_prefix_sum_total(s);
    }
}

/// The prefix sum through the last index is the total of all directions.
pub proof fn lemma_prefix_sum_total(s: Seq<Intersection>)
    ensures
        prefix_sum(s, s.len() - 1) == total_direction(s),
    decreases s.len(),
{
    if s.len() > 0 {
        lemma_prefix_sum_total(s.drop_last());
        lemma_prefix_sum_agree(s.drop_last(), s, s.len() - 2);
    }
}

} // verus!

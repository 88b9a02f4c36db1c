//! Loading a whole pattern at once: the cells are sorted into quadrants by
//! partitioning the coordinate arrays in place, one bit plane at a time.

use crate::grid::{within, Grid};
use crate::powers::{half_side, pow2_u64};
use crate::tree::{lemma_window_agree, lemma_window_split, window, Tree};
use crate::universe::{level1_tree, level2_tree, LifeUniverse, UniverseView};
use vstd::arithmetic::power2::{lemma2_to64, lemma_pow2_unfold, pow2};
use vstd::prelude::*;

verus! {

/// The cells whose columns are `xs[i]` and rows `ys[i]` for the positions
/// `i` from `start` up to, but not including, `end`.
pub open spec fn cloud(xs: Seq<u64>, ys: Seq<u64>, start: int, end: int) -> Grid {
    Set::new(
        |p: (int, int)| exists|i: int| start <= i < end && #[trigger] xs[i] == p.0 && ys[i] == p.1,
    )
}

/// The two arrays hold, between `start` and `end`, the same cells as before
/// in some other order, and outside of that what they held before.
pub open spec fn rearranged(
    xs0: Seq<u64>,
    ys0: Seq<u64>,
    xs1: Seq<u64>,
    ys1: Seq<u64>,
    start: int,
    end: int,
) -> bool {
    &&& xs1.len() == xs0.len()
    &&& ys1.len() == ys0.len()
    &&& forall|i: int| 0 <= i < xs0.len() && !(start <= i < end) ==> #[trigger] xs1[i] == xs0[i]
    &&& forall|i: int| 0 <= i < ys0.len() && !(start <= i < end) ==> #[trigger] ys1[i] == ys0[i]
    &&& cloud(xs1, ys1, start, end) == cloud(xs0, ys0, start, end)
}

/// Exchanging two positions of a range leaves its cells what they were.
proof fn lemma_cloud_swap(xs: Seq<u64>, ys: Seq<u64>, start: int, end: int, i: int, j: int)
    requires
        xs.len() == ys.len(),
        0 <= start <= i < end <= xs.len(),
        start <= j < end,
    ensures
        cloud(xs.update(i, xs[j]).update(j, xs[i]), ys.update(i, ys[j]).update(j, ys[i]), start, end)
            == cloud(xs, ys, start, end),
{
    let xs1 = xs.update(i, xs[j]).update(j, xs[i]);
    let ys1 = ys.update(i, ys[j]).update(j, ys[i]);
    let a = cloud(xs1, ys1, start, end);
    let b = cloud(xs, ys, start, end);
    assert forall|p: (int, int)| a.contains(p) == b.contains(p) by {
        if a.contains(p) {
            let k = choose|k: int| start <= k < end && #[trigger] xs1[k] == p.0 && ys1[k] == p.1;
            let m = if k == i {
                j
            } else if k == j {
                i
            } else {
                k
            };
            assert(xs[m] == p.0 && ys[m] == p.1);
        }
        if b.contains(p) {
            let k = choose|k: int| start <= k < end && #[trigger] xs[k] == p.0 && ys[k] == p.1;
            let m = if k == i {
                j
            } else if k == j {
                i
            } else {
                k
            };
            assert(xs1[m] == p.0 && ys1[m] == p.1);
        }
    }
    assert(a =~= b);
}

/// The cells of a range are those of its two parts.
pub proof fn lemma_cloud_split(xs: Seq<u64>, ys: Seq<u64>, start: int, mid: int, end: int)
    requires
        start <= mid <= end,
    ensures
        cloud(xs, ys, start, end) == cloud(xs, ys, start, mid).union(cloud(xs, ys, mid, end)),
{
    let a = cloud(xs, ys, start, end);
    let l = cloud(xs, ys, start, mid);
    let r = cloud(xs, ys, mid, end);
    assert forall|p: (int, int)| a.contains(p) == (l.contains(p) || r.contains(p)) by {
        if a.contains(p) {
            let k = choose|k: int| start <= k < end && #[trigger] xs[k] == p.0 && ys[k] == p.1;
            if k < mid {
                assert(l.contains(p));
            } else {
                assert(r.contains(p));
            }
        }
        if l.contains(p) {
            let k = choose|k: int| start <= k < mid && #[trigger] xs[k] == p.0 && ys[k] == p.1;
            assert(start <= k < end && xs[k] == p.0 && ys[k] == p.1);
        }
        if r.contains(p) {
            let k = choose|k: int| mid <= k < end && #[trigger] xs[k] == p.0 && ys[k] == p.1;
            assert(start <= k < end && xs[k] == p.0 && ys[k] == p.1);
        }
    }
    assert(a =~= l.union(r));
}

/// The cells of a range depend on what the arrays hold in the range only.
pub proof fn lemma_cloud_same(
    xs0: Seq<u64>,
    ys0: Seq<u64>,
    xs1: Seq<u64>,
    ys1: Seq<u64>,
    start: int,
    end: int,
)
    requires
        forall|i: int| start <= i < end ==> #[trigger] xs1[i] == xs0[i],
        forall|i: int| start <= i < end ==> #[trigger] ys1[i] == ys0[i],
    ensures
        cloud(xs1, ys1, start, end) == cloud(xs0, ys0, start, end),
{
    let a = cloud(xs1, ys1, start, end);
    let b = cloud(xs0, ys0, start, end);
    assert forall|p: (int, int)| a.contains(p) == b.contains(p) by {
        if a.contains(p) {
            let k = choose|k: int| start <= k < end && #[trigger] xs1[k] == p.0 && ys1[k] == p.1;
            assert(xs0[k] == p.0 && ys0[k] == p.1);
        }
        if b.contains(p) {
            let k = choose|k: int| start <= k < end && #[trigger] xs0[k] == p.0 && ys0[k] == p.1;
            assert(xs1[k] == p.0 && ys1[k] == p.1);
        }
    }
    assert(a =~= b);
}

/// Rows and columns can change roles: arrays that were rearranged as rows
/// and columns were rearranged as columns and rows.
pub proof fn lemma_rearranged_flip(
    xs0: Seq<u64>,
    ys0: Seq<u64>,
    xs1: Seq<u64>,
    ys1: Seq<u64>,
    start: int,
    end: int,
)
    requires
        rearranged(ys0, xs0, ys1, xs1, start, end),
    ensures
        rearranged(xs0, ys0, xs1, ys1, start, end),
{
    let a = cloud(xs1, ys1, start, end);
    let b = cloud(xs0, ys0, start, end);
    let fa = cloud(ys1, xs1, start, end);
    let fb = cloud(ys0, xs0, start, end);
    assert forall|p: (int, int)| a.contains(p) == b.contains(p) by {
        if a.contains(p) {
            let k = choose|k: int| start <= k < end && #[trigger] xs1[k] == p.0 && ys1[k] == p.1;
            assert(start <= k < end && ys1[k] == p.1 && xs1[k] == p.0);
            assert(fa.contains((p.1, p.0)));
            assert(fb.contains((p.1, p.0)));
            let m = choose|m: int| start <= m < end && #[trigger] ys0[m] == p.1 && xs0[m] == p.0;
            assert(start <= m < end && xs0[m] == p.0 && ys0[m] == p.1);
        }
        if b.contains(p) {
            let k = choose|k: int| start <= k < end && #[trigger] xs0[k] == p.0 && ys0[k] == p.1;
            assert(start <= k < end && ys0[k] == p.1 && xs0[k] == p.0);
            assert(fb.contains((p.1, p.0)));
            assert(fa.contains((p.1, p.0)));
            let m = choose|m: int| start <= m < end && #[trigger] ys1[m] == p.1 && xs1[m] == p.0;
            assert(start <= m < end && xs1[m] == p.0 && ys1[m] == p.1);
        }
    }
    assert(a =~= b);
}

/// The pairs that two arrays hold, position by position.
pub open spec fn paired(xs: Seq<u64>, ys: Seq<u64>) -> Seq<(u64, u64)> {
    Seq::new(xs.len(), |k: int| (xs[k], ys[k]))
}

/// The sequence with the values at two positions exchanged.
pub open spec fn exchanged(xs: Seq<u64>, i: int, j: int) -> Seq<u64> {
    xs.update(i, xs[j]).update(j, xs[i])
}

/// What sorting the positions from `i` up to `j` by one bit of `test` makes
/// of the two arrays. A position on the left whose bit is clear is in
/// place, and so is one on the right whose bit is set; the leftmost
/// position that is not in place and the rightmost one change places, in
/// both arrays, and the sorting goes on between them.
pub open spec fn partitioned(test: Seq<u64>, other: Seq<u64>, i: int, j: int, offset: u64) -> (
    Seq<u64>,
    Seq<u64>,
)
    decreases j - i,
{
    if i >= j {
        (test, other)
    } else if test[i] & offset == 0 {
        partitioned(test, other, i + 1, j, offset)
    } else if test[j - 1] & offset != 0 {
        partitioned(test, other, i, j - 1, offset)
    } else {
        partitioned(exchanged(test, i, j - 1), exchanged(other, i, j - 1), i + 1, j - 1, offset)
    }
}

/// Exchanging two positions of a range leaves the pairs of the range what
/// they were, each as often as it was there.
proof fn lemma_pairs_swap(xs: Seq<u64>, ys: Seq<u64>, start: int, end: int, i: int, j: int)
    requires
        xs.len() == ys.len(),
        0 <= start <= i < end <= xs.len(),
        start <= j < end,
    ensures
        paired(exchanged(xs, i, j), exchanged(ys, i, j)).subrange(start, end).to_multiset()
            == paired(xs, ys).subrange(start, end).to_multiset(),
{
    broadcast use vstd::multiset::group_multiset_axioms;

    let p = paired(xs, ys).subrange(start, end);
    let q = paired(exchanged(xs, i, j), exchanged(ys, i, j)).subrange(start, end);
    let a = p[j - start];
    let b = p[i - start];
    let m = p.update(i - start, a);
    assert(q =~= m.update(j - start, b));
    assert(m[j - start] == a);
    vstd::seq_lib::to_multiset_update(p, i - start, a);
    vstd::seq_lib::to_multiset_update(m, j - start, b);
    assert(p.contains(b));
    vstd::seq_lib::to_multiset_contains(p, b);
    let mp = p.to_multiset();
    assert(q.to_multiset() == mp.insert(a).remove(b).insert(b).remove(a));
    assert forall|x: (u64, u64)| q.to_multiset().count(x) == mp.count(x) by {
        assert(mp.insert(a).count(b) >= 1);
    }
    assert(q.to_multiset() =~= mp);
}

/// Sorts the positions from `start` up to `end` by one bit of
/// `test_field`: those with the bit clear come first, those with it set
/// after them. `other_field` is rearranged alike, so that each position
/// keeps its pair of values. The result is the position where the second
/// part begins.
pub fn partition(
    start: usize,
    end: usize,
    test_field: &mut Vec<u64>,
    other_field: &mut Vec<u64>,
    offset: u64,
) -> (mid: usize)
    requires
        start <= end <= old(test_field)@.len(),
        old(test_field)@.len() == old(other_field)@.len(),
    ensures
        start <= mid <= end,
        (final(test_field)@, final(other_field)@) == partitioned(
            old(test_field)@,
            old(other_field)@,
            start as int,
            end as int,
            offset,
        ),
        paired(final(test_field)@, final(other_field)@).subrange(start as int, end as int).to_multiset()
            == paired(old(test_field)@, old(other_field)@).subrange(
            start as int,
            end as int,
        ).to_multiset(),
        rearranged(
            old(test_field)@,
            old(other_field)@,
            final(test_field)@,
            final(other_field)@,
            start as int,
            end as int,
        ),
        forall|i: int| start <= i < mid ==> (#[trigger] final(test_field)@[i]) & offset == 0,
        forall|i: int| mid <= i < end ==> (#[trigger] final(test_field)@[i]) & offset != 0,
{
    let mut i: usize = start;
    let mut j: usize = end;
    while i < j
        invariant
            start <= i <= j <= end <= test_field@.len(),
            test_field@.len() == other_field@.len(),
            test_field@.len() == old(test_field)@.len(),
            partitioned(test_field@, other_field@, i as int, j as int, offset) == partitioned(
                old(test_field)@,
                old(other_field)@,
                start as int,
                end as int,
                offset,
            ),
            paired(test_field@, other_field@).subrange(start as int, end as int).to_multiset()
                == paired(old(test_field)@, old(other_field)@).subrange(
                start as int,
                end as int,
            ).to_multiset(),
            rearranged(
                old(test_field)@,
                old(other_field)@,
                test_field@,
                other_field@,
                start as int,
                end as int,
            ),
            forall|k: int| start <= k < i ==> (#[trigger] test_field@[k]) & offset == 0,
            forall|k: int| j <= k < end ==> (#[trigger] test_field@[k]) & offset != 0,
        decreases j - i,
    {
        if test_field[i] & offset == 0 {
            i = i + 1;
        } else if test_field[j - 1] & offset != 0 {
            j = j - 1;
        } else {
            let ghost xs = test_field@;
            let ghost ys = other_field@;
            let a = test_field[i];
            let b = test_field[j - 1];
            test_field.set(i, b);
            test_field.set(j - 1, a);
            let c = other_field[i];
            let d = other_field[j - 1];
            other_field.set(i, d);
            other_field.set(j - 1, c);
            proof {
                lemma_cloud_swap(xs, ys, start as int, end as int, i as int, j - 1);
                lemma_pairs_swap(xs, ys, start as int, end as int, i as int, j - 1);
                assert(test_field@ =~= exchanged(xs, i as int, j - 1));
                assert(other_field@ =~= exchanged(ys, i as int, j - 1));
            }
            i = i + 1;
            j = j - 1;
        }
    }
    i
}

/// The low `level` bits of `base` are clear: it is a multiple of
/// `2^level`.
pub open spec fn aligned(base: u64, level: u64) -> bool {
    base & (((1u64 << level) - 1) as u64) == 0
}

/// In a square of side `2^(l+1)` whose corner is a multiple of its side, bit
/// `l` of a coordinate tells the half it lies in.
proof fn lemma_bit_plane(x: u64, base: u64, l: u64)
    by (bit_vector)
    requires
        l < 62,
        base & (((1u64 << ((l + 1) as u64)) - 1) as u64) == 0,
        base <= x,
        x - base < (1u64 << ((l + 1) as u64)),
        x < 0x8000_0000_0000_0000,
    ensures
        (x & (1u64 << l) == 0) == (x - base < (1u64 << l)),
{
}

/// Shifting by one more doubles.
proof fn lemma_shift_double(l: u64)
    by (bit_vector)
    requires
        l < 62,
    ensures
        (1u64 << ((l + 1) as u64)) == 2 * (1u64 << l),
        0 < (1u64 << l) <= 0x2000_0000_0000_0000,
{
}

/// The corners of the two halves of such a square are multiples of the
/// halves' side.
proof fn lemma_aligned_halves(base: u64, l: u64)
    by (bit_vector)
    requires
        l < 62,
        base & (((1u64 << ((l + 1) as u64)) - 1) as u64) == 0,
        base < 0x8000_0000_0000_0000,
    ensures
        base & (((1u64 << l) - 1) as u64) == 0,
        ((base + (1u64 << l)) as u64) & (((1u64 << l) - 1) as u64) == 0,
{
}

/// The number of a cell in a 4x4 square whose corner is a multiple of 4: one
/// bit each for the column and the row within the quadrant, then one each
/// for the column and the row of the quadrant.
pub open spec fn cell_index(x: u64, y: u64) -> u64 {
    x & 1 | (y & 1 | x & 2) << 1 | (y & 2) << 2
}

/// The number of a cell of a 4x4 square, by its place in the square.
proof fn lemma_cell_index(x: u64, y: u64, bx: u64, by: u64)
    by (bit_vector)
    requires
        bx & 3 == 0,
        by & 3 == 0,
        bx <= x,
        by <= y,
        x - bx < 4,
        y - by < 4,
    ensures
        cell_index(x, y) == ((x - bx) % 2 + 2 * ((y - by) % 2) + 4 * ((x - bx) / 2) + 8 * ((y - by)
            / 2)) as u64,
        cell_index(x, y) < 16,
{
}

/// Bit `k` of the mask is set.
pub open spec fn marked(set: usize, k: usize) -> bool {
    (set >> k) & 1 == 1
}

/// Bit `k` of a mask, as it is after bit `idx` was set.
proof fn lemma_mark(set: usize, idx: usize, k: usize)
    by (bit_vector)
    requires
        idx < 16,
        k < 16,
        set < 0x10000,
    ensures
        (((set | (1usize << idx)) >> k) & 1 == 1) == (((set >> k) & 1 == 1) || k == idx),
        (set | (1usize << idx)) < 0x10000,
{
}

/// The sixteen bits of a mask, as the trees of levels 1 and 2 read them.
proof fn lemma_level2_bits(set: usize)
    by (bit_vector)
    ensures
        (set & 1 != 0) == ((set >> 0) & 1 == 1),
        (set & 2 != 0) == ((set >> 1) & 1 == 1),
        (set & 4 != 0) == ((set >> 2) & 1 == 1),
        (set & 8 != 0) == ((set >> 3) & 1 == 1),
        ((set >> 4) & 1 != 0) == ((set >> 4) & 1 == 1),
        ((set >> 4) & 2 != 0) == ((set >> 5) & 1 == 1),
        ((set >> 4) & 4 != 0) == ((set >> 6) & 1 == 1),
        ((set >> 4) & 8 != 0) == ((set >> 7) & 1 == 1),
        ((set >> 8) & 1 != 0) == ((set >> 8) & 1 == 1),
        ((set >> 8) & 2 != 0) == ((set >> 9) & 1 == 1),
        ((set >> 8) & 4 != 0) == ((set >> 10) & 1 == 1),
        ((set >> 8) & 8 != 0) == ((set >> 11) & 1 == 1),
        ((set >> 12) & 1 != 0) == ((set >> 12) & 1 == 1),
        ((set >> 12) & 2 != 0) == ((set >> 13) & 1 == 1),
        ((set >> 12) & 4 != 0) == ((set >> 14) & 1 == 1),
        ((set >> 12) & 8 != 0) == ((set >> 15) & 1 == 1),
{
}

/// The window of level 1 that a grid shows is the tree of the nibble whose
/// bits are the grid's four cells there.
proof fn lemma_level1_window(g: Grid, mask: usize, bx: int, by: int)
    requires
        g.contains((bx, by)) == (mask & 1 != 0),
        g.contains((bx + 1, by)) == (mask & 2 != 0),
        g.contains((bx, by + 1)) == (mask & 4 != 0),
        g.contains((bx + 1, by + 1)) == (mask & 8 != 0),
    ensures
        window(g, 1, bx, by) == level1_tree(mask),
{
    lemma2_to64();
    lemma_window_split(g, 1, bx, by);
    assert(window(g, 0, bx, by) == Tree::Leaf(g.contains((bx, by))));
    assert(window(g, 0, bx + 1, by) == Tree::Leaf(g.contains((bx + 1, by))));
    assert(window(g, 0, bx, by + 1) == Tree::Leaf(g.contains((bx, by + 1))));
    assert(window(g, 0, bx + 1, by + 1) == Tree::Leaf(g.contains((bx + 1, by + 1))));
}

/// The window of level 2 that a grid shows is the tree of the mask whose
/// bits are the grid's sixteen cells there, each at the number of its place.
proof fn lemma_level2_window(g: Grid, set: usize, bx: int, by: int)
    requires
        forall|c: int, r: int|
            0 <= c < 4 && 0 <= r < 4 ==> (#[trigger] g.contains((bx + c, by + r)) == marked(
                set,
                (c % 2 + 2 * (r % 2) + 4 * (c / 2) + 8 * (r / 2)) as usize,
            )),
    ensures
        window(g, 2, bx, by) == level2_tree(set),
{
    lemma2_to64();
    lemma_level2_bits(set);
    assert(g.contains((bx + 0, by + 0)) == marked(set, 0));
    assert(g.contains((bx + 1, by + 0)) == marked(set, 1));
    assert(g.contains((bx + 0, by + 1)) == marked(set, 2));
    assert(g.contains((bx + 1, by + 1)) == marked(set, 3));
    lemma_level1_window(g, set, bx, by);
    assert(g.contains((bx + 2, by + 0)) == marked(set, 4));
    assert(g.contains((bx + 3, by + 0)) == marked(set, 5));
    assert(g.contains((bx + 2, by + 1)) == marked(set, 6));
    assert(g.contains((bx + 3, by + 1)) == marked(set, 7));
    lemma_level1_window(g, set >> 4, bx + 2, by);
    assert(g.contains((bx + 0, by + 2)) == marked(set, 8));
    assert(g.contains((bx + 1, by + 2)) == marked(set, 9));
    assert(g.contains((bx + 0, by + 3)) == marked(set, 10));
    assert(g.contains((bx + 1, by + 3)) == marked(set, 11));
    lemma_level1_window(g, set >> 8, bx, by + 2);
    assert(g.contains((bx + 2, by + 2)) == marked(set, 12));
    assert(g.contains((bx + 3, by + 2)) == marked(set, 13));
    assert(g.contains((bx + 2, by + 3)) == marked(set, 14));
    assert(g.contains((bx + 3, by + 3)) == marked(set, 15));
    lemma_level1_window(g, set >> 12, bx + 2, by + 2);
    lemma_window_split(g, 2, bx, by);
}

/// The columns of a range, sorted by bit `l`, fall into the left and the
/// right half of the box that the range lies in.
proof fn lemma_split_columns(
    xs: Seq<u64>,
    ys: Seq<u64>,
    start: int,
    mid: int,
    end: int,
    bx: u64,
    l: u64,
    y0: int,
    y1: int,
)
    requires
        0 <= start <= mid <= end <= xs.len(),
        xs.len() == ys.len(),
        l < 62,
        aligned(bx, (l + 1) as u64),
        bx + 2 * (1u64 << l) <= 0x8000_0000_0000_0000,
        within(cloud(xs, ys, start, end), bx as int, y0, bx + 2 * (1u64 << l), y1),
        forall|i: int| start <= i < mid ==> (#[trigger] xs[i]) & (1u64 << l) == 0,
        forall|i: int| mid <= i < end ==> (#[trigger] xs[i]) & (1u64 << l) != 0,
    ensures
        within(cloud(xs, ys, start, mid), bx as int, y0, bx + (1u64 << l), y1),
        within(cloud(xs, ys, mid, end), bx + (1u64 << l), y0, bx + 2 * (1u64 << l), y1),
{
    lemma_shift_double(l);
    let whole = cloud(xs, ys, start, end);
    let left = cloud(xs, ys, start, mid);
    let right = cloud(xs, ys, mid, end);
    assert forall|x: int, y: int| #[trigger] left.contains((x, y)) implies bx <= x < bx + (1u64
        << l) && y0 <= y < y1 by {
        let i = choose|i: int| start <= i < mid && #[trigger] xs[i] == x && ys[i] == y;
        assert(start <= i < end && xs[i] == x && ys[i] == y);
        assert(whole.contains((x, y)));
        lemma_bit_plane(xs[i], bx, l);
    }
    assert forall|x: int, y: int| #[trigger] right.contains((x, y)) implies bx + (1u64 << l) <= x
        < bx + 2 * (1u64 << l) && y0 <= y < y1 by {
        let i = choose|i: int| mid <= i < end && #[trigger] xs[i] == x && ys[i] == y;
        assert(start <= i < end && xs[i] == x && ys[i] == y);
        assert(whole.contains((x, y)));
        lemma_bit_plane(xs[i], bx, l);
    }
}

/// The rows of a range, sorted by bit `l`, fall into the upper and the lower
/// half of the box that the range lies in.
proof fn lemma_split_rows(
    xs: Seq<u64>,
    ys: Seq<u64>,
    start: int,
    mid: int,
    end: int,
    by: u64,
    l: u64,
    x0: int,
    x1: int,
)
    requires
        0 <= start <= mid <= end <= xs.len(),
        xs.len() == ys.len(),
        l < 62,
        aligned(by, (l + 1) as u64),
        by + 2 * (1u64 << l) <= 0x8000_0000_0000_0000,
        within(cloud(xs, ys, start, end), x0, by as int, x1, by + 2 * (1u64 << l)),
        forall|i: int| start <= i < mid ==> (#[trigger] ys[i]) & (1u64 << l) == 0,
        forall|i: int| mid <= i < end ==> (#[trigger] ys[i]) & (1u64 << l) != 0,
    ensures
        within(cloud(xs, ys, start, mid), x0, by as int, x1, by + (1u64 << l)),
        within(cloud(xs, ys, mid, end), x0, by + (1u64 << l), x1, by + 2 * (1u64 << l)),
{
    lemma_shift_double(l);
    let whole = cloud(xs, ys, start, end);
    let upper = cloud(xs, ys, start, mid);
    let lower = cloud(xs, ys, mid, end);
    assert forall|x: int, y: int| #[trigger] upper.contains((x, y)) implies x0 <= x < x1 && by <= y
        < by + (1u64 << l) by {
        let i = choose|i: int| start <= i < mid && #[trigger] xs[i] == x && ys[i] == y;
        assert(start <= i < end && xs[i] == x && ys[i] == y);
        assert(whole.contains((x, y)));
        lemma_bit_plane(ys[i], by, l);
    }
    assert forall|x: int, y: int| #[trigger] lower.contains((x, y)) implies x0 <= x < x1 && by + (
    1u64 << l) <= y < by + 2 * (1u64 << l) by {
        let i = choose|i: int| mid <= i < end && #[trigger] xs[i] == x && ys[i] == y;
        assert(start <= i < end && xs[i] == x && ys[i] == y);
        assert(whole.contains((x, y)));
        lemma_bit_plane(ys[i], by, l);
    }
}

/// A grid made up of four parts, one in each quarter of a square, shows in
/// that square the tree whose quadrants are the windows onto the parts.
proof fn lemma_window_of_parts(
    g: Grid,
    nw: Grid,
    ne: Grid,
    sw: Grid,
    se: Grid,
    level: nat,
    bx: int,
    by: int,
)
    requires
        level >= 1,
        g == nw.union(ne).union(sw.union(se)),
        within(nw, bx, by, bx + pow2((level - 1) as nat), by + pow2((level - 1) as nat)),
        within(
            ne,
            bx + pow2((level - 1) as nat),
            by,
            bx + 2 * pow2((level - 1) as nat),
            by + pow2((level - 1) as nat),
        ),
        within(
            sw,
            bx,
            by + pow2((level - 1) as nat),
            bx + pow2((level - 1) as nat),
            by + 2 * pow2((level - 1) as nat),
        ),
        within(
            se,
            bx + pow2((level - 1) as nat),
            by + pow2((level - 1) as nat),
            bx + 2 * pow2((level - 1) as nat),
            by + 2 * pow2((level - 1) as nat),
        ),
    ensures
        window(g, level, bx, by) == Tree::join(
            window(nw, (level - 1) as nat, bx, by),
            window(ne, (level - 1) as nat, bx + pow2((level - 1) as nat), by),
            window(sw, (level - 1) as nat, bx, by + pow2((level - 1) as nat)),
            window(se, (level - 1) as nat, bx + pow2((level - 1) as nat), by + pow2((level - 1) as nat)),
        ),
{
    let l = (level - 1) as nat;
    let h = pow2(l) as int;
    lemma_window_split(g, level, bx, by);
    assert forall|x: int, y: int| bx <= x < bx + h && by <= y < by + h implies (g.contains(
        (x + 0, y + 0),
    ) == #[trigger] nw.contains((x, y))) by {
        assert(ne.contains((x, y)) ==> false);
        assert(sw.contains((x, y)) ==> false);
        assert(se.contains((x, y)) ==> false);
    }
    lemma_window_agree(g, nw, l, bx, by, bx, by);
    assert forall|x: int, y: int| bx + h <= x < bx + h + h && by <= y < by + h implies (g.contains(
        (x + 0, y + 0),
    ) == #[trigger] ne.contains((x, y))) by {
        assert(nw.contains((x, y)) ==> false);
        assert(sw.contains((x, y)) ==> false);
        assert(se.contains((x, y)) ==> false);
    }
    lemma_window_agree(g, ne, l, bx + h, by, bx + h, by);
    assert forall|x: int, y: int| bx <= x < bx + h && by + h <= y < by + h + h implies (g.contains(
        (x + 0, y + 0),
    ) == #[trigger] sw.contains((x, y))) by {
        assert(nw.contains((x, y)) ==> false);
        assert(ne.contains((x, y)) ==> false);
        assert(se.contains((x, y)) ==> false);
    }
    lemma_window_agree(g, sw, l, bx, by + h, bx, by + h);
    assert forall|x: int, y: int| bx + h <= x < bx + h + h && by + h <= y < by + h + h implies (
    g.contains((x + 0, y + 0)) == #[trigger] se.contains((x, y))) by {
        assert(nw.contains((x, y)) ==> false);
        assert(ne.contains((x, y)) ==> false);
        assert(sw.contains((x, y)) ==> false);
    }
    lemma_window_agree(g, se, l, bx + h, by + h, bx + h, by + h);
}

impl LifeUniverse {
    /// The canonical level-2 node for the cells of a range that lies in one
    /// 4x4 square: the cells are marked in a 16-bit mask, and the node is
    /// looked up by the mask.
    fn level2_setup(
        &mut self,
        start: usize,
        end: usize,
        field_x: &Vec<u64>,
        field_y: &Vec<u64>,
        Ghost(bx): Ghost<u64>,
        Ghost(by): Ghost<u64>,
    ) -> (r: usize)
        requires
            old(self).wf(),
            start <= end <= field_x@.len(),
            field_x@.len() == field_y@.len(),
            bx & 3 == 0,
            by & 3 == 0,
            within(
                cloud(field_x@, field_y@, start as int, end as int),
                bx as int,
                by as int,
                bx + 4,
                by + 4,
            ),
        ensures
            final(self).wf(),
            final(self).extends(old(self)),
            final(self).valid(r),
            final(self).tree(r) == window(
                cloud(field_x@, field_y@, start as int, end as int),
                2,
                bx as int,
                by as int,
            ),
    {
        let ghost g = cloud(field_x@, field_y@, start as int, end as int);
        let mut set: usize = 0;
        let mut i: usize = start;
        proof {
            assert forall|k: usize| k < 16 implies !#[trigger] marked(set, k) by {
                assert((0usize >> k) & 1 == 0) by (bit_vector);
            }
        }
        while i < end
            invariant
                start <= i <= end <= field_x@.len(),
                field_x@.len() == field_y@.len(),
                set < 0x10000,
                bx & 3 == 0,
                by & 3 == 0,
                g == cloud(field_x@, field_y@, start as int, end as int),
                within(g, bx as int, by as int, bx + 4, by + 4),
                forall|k: usize|
                    k < 16 ==> (#[trigger] marked(set, k) == exists|j: int|
                        start <= j < i && cell_index(#[trigger] field_x@[j], field_y@[j]) == k),
            decreases end - i,
        {
            let x = field_x[i];
            let y = field_y[i];
            proof {
                assert(g.contains((x as int, y as int)));
                lemma_cell_index(x, y, bx, by);
            }
            let idx: usize = (x & 1 | (y & 1 | x & 2) << 1 | (y & 2) << 2) as usize;
            let ghost before = set;
            set = set | (1usize << idx);
            proof {
                assert forall|k: usize| k < 16 implies (#[trigger] marked(set, k) == exists|j: int|
                    start <= j < i + 1 && cell_index(#[trigger] field_x@[j], field_y@[j]) == k) by {
                    lemma_mark(before, idx, k);
                    assert(marked(before, k) == exists|j: int|
                        start <= j < i && cell_index(#[trigger] field_x@[j], field_y@[j]) == k);
                    if marked(before, k) {
                        let j = choose|j: int|
                            start <= j < i && cell_index(#[trigger] field_x@[j], field_y@[j]) == k;
                        assert(start <= j < i + 1 && cell_index(field_x@[j], field_y@[j]) == k);
                    }
                    if k == idx {
                        assert(start <= i < i + 1 && cell_index(field_x@[i as int], field_y@[i as int])
                            == k);
                    }
                    lemma_mark(before, idx, k);
                }
                lemma_mark(before, idx, 0);
            }
            i = i + 1;
        }
        proof {
            assert forall|c: int, r: int| 0 <= c < 4 && 0 <= r < 4 implies (#[trigger] g.contains(
                (bx + c, by + r),
            ) == marked(set, (c % 2 + 2 * (r % 2) + 4 * (c / 2) + 8 * (r / 2)) as usize)) by {
                let k = (c % 2 + 2 * (r % 2) + 4 * (c / 2) + 8 * (r / 2)) as usize;
                assert(k < 16);
                if g.contains((bx + c, by + r)) {
                    let j = choose|j: int|
                        start <= j < end && #[trigger] field_x@[j] == bx + c && field_y@[j] == by + r;
                    lemma_cell_index(field_x@[j], field_y@[j], bx, by);
                    assert(start <= j < i && cell_index(field_x@[j], field_y@[j]) == k);
                }
                assert(marked(set, k) == exists|j: int|
                    start <= j < i && cell_index(#[trigger] field_x@[j], field_y@[j]) == k);
                if marked(set, k) {
                    let j = choose|j: int|
                        start <= j < i && cell_index(#[trigger] field_x@[j], field_y@[j]) == k;
                    assert(g.contains((field_x@[j] as int, field_y@[j] as int)));
                    lemma_cell_index(field_x@[j], field_y@[j], bx, by);
                    assert(field_x@[j] == bx + c);
                    assert(field_y@[j] == by + r);
                }
            }
            lemma_level2_window(g, set, bx as int, by as int);
        }
        self.level2_create(set)
    }

    /// The canonical node of the given level for the cells of a range that
    /// lies in one square of that level. The range is sorted by the top bit
    /// of the rows, each half by the top bit of the columns, and the four
    /// parts become the quadrants; an empty range is the all-dead tree, and
    /// at level 2 the node is looked up by its cells.
    fn setup_field_recurse(
        &mut self,
        start: usize,
        end: usize,
        field_x: &mut Vec<u64>,
        field_y: &mut Vec<u64>,
        level: usize,
        Ghost(bx): Ghost<u64>,
        Ghost(by): Ghost<u64>,
    ) -> (r: usize)
        requires
            old(self).wf(),
            start <= end <= old(field_x)@.len(),
            old(field_x)@.len() == old(field_y)@.len(),
            2 <= level <= 62,
            aligned(bx, level as u64),
            aligned(by, level as u64),
            bx + pow2(level as nat) <= 0x8000_0000_0000_0000,
            by + pow2(level as nat) <= 0x8000_0000_0000_0000,
            within(
                cloud(old(field_x)@, old(field_y)@, start as int, end as int),
                bx as int,
                by as int,
                bx + pow2(level as nat),
                by + pow2(level as nat),
            ),
        ensures
            final(self).wf(),
            final(self).extends(old(self)),
            final(self).valid(r),
            final(self).tree(r) == window(
                cloud(old(field_x)@, old(field_y)@, start as int, end as int),
                level as nat,
                bx as int,
                by as int,
            ),
            final(field_x)@.len() == old(field_x)@.len(),
            final(field_y)@.len() == old(field_y)@.len(),
            forall|i: int|
                0 <= i < old(field_x)@.len() && !(start <= i < end) ==> #[trigger] final(field_x)@[i]
                    == old(field_x)@[i],
            forall|i: int|
                0 <= i < old(field_y)@.len() && !(start <= i < end) ==> #[trigger] final(field_y)@[i]
                    == old(field_y)@[i],
        decreases level,
    {
        let ghost xs0 = field_x@;
        let ghost ys0 = field_y@;
        let ghost whole = cloud(xs0, ys0, start as int, end as int);
        if start >= end {
            proof {
                crate::tree::lemma_window_dead(whole, level as nat, bx as int, by as int);
            }
            return self.empty_tree(level);
        }
        if level == 2 {
            proof {
                lemma2_to64();
                assert(aligned(bx, 2) == (bx & 3 == 0)) by (bit_vector);
                assert(aligned(by, 2) == (by & 3 == 0)) by (bit_vector);
            }
            return self.level2_setup(start, end, field_x, field_y, Ghost(bx), Ghost(by));
        }
        let l: usize = level - 1;
        let offset = pow2_u64(l);
        let ghost h = offset as int;
        proof {
            lemma_pow2_unfold(level as nat);
            lemma_shift_double(l as u64);
            lemma_aligned_halves(bx, l as u64);
            lemma_aligned_halves(by, l as u64);
        }
        let part3 = partition(start, end, field_y, field_x, offset);
        let ghost xs1 = field_x@;
        let ghost ys1 = field_y@;
        proof {
            lemma_rearranged_flip(xs0, ys0, xs1, ys1, start as int, end as int);
            lemma_split_rows(xs1, ys1, start as int, part3 as int, end as int, by, l as u64, bx as int, bx + 2 * h);
        }
        let part2 = partition(start, part3, field_x, field_y, offset);
        let ghost xs2 = field_x@;
        let ghost ys2 = field_y@;
        proof {
            lemma_split_columns(xs2, ys2, start as int, part2 as int, part3 as int, bx, l as u64, by as int, by + h);
            lemma_cloud_same(xs1, ys1, xs2, ys2, part3 as int, end as int);
        }
        let part4 = partition(part3, end, field_x, field_y, offset);
        let ghost xs3 = field_x@;
        let ghost ys3 = field_y@;
        let ghost c_nw = cloud(xs3, ys3, start as int, part2 as int);
        let ghost c_ne = cloud(xs3, ys3, part2 as int, part3 as int);
        let ghost c_sw = cloud(xs3, ys3, part3 as int, part4 as int);
        let ghost c_se = cloud(xs3, ys3, part4 as int, end as int);
        proof {
            lemma_split_columns(xs3, ys3, part3 as int, part4 as int, end as int, bx, l as u64, by + h, by + 2 * h);
            lemma_cloud_same(xs2, ys2, xs3, ys3, start as int, part2 as int);
            lemma_cloud_same(xs2, ys2, xs3, ys3, part2 as int, part3 as int);
            lemma_cloud_same(xs2, ys2, xs3, ys3, start as int, part3 as int);
            lemma_cloud_split(xs3, ys3, start as int, part3 as int, end as int);
            lemma_cloud_split(xs3, ys3, start as int, part2 as int, part3 as int);
            lemma_cloud_split(xs3, ys3, part3 as int, part4 as int, end as int);
            lemma_cloud_split(xs1, ys1, start as int, part3 as int, end as int);
            assert(whole == c_nw.union(c_ne).union(c_sw.union(c_se)));
        }
        let nw = self.setup_field_recurse(start, part2, field_x, field_y, l, Ghost(bx), Ghost(by));
        let ghost xs4 = field_x@;
        let ghost ys4 = field_y@;
        proof {
            lemma_cloud_same(xs3, ys3, xs4, ys4, part2 as int, part3 as int);
        }
        let ne = self.setup_field_recurse(
            part2,
            part3,
            field_x,
            field_y,
            l,
            Ghost((bx + offset) as u64),
            Ghost(by),
        );
        let ghost xs5 = field_x@;
        let ghost ys5 = field_y@;
        proof {
            lemma_cloud_same(xs3, ys3, xs5, ys5, part3 as int, part4 as int);
        }
        let sw = self.setup_field_recurse(
            part3,
            part4,
            field_x,
            field_y,
            l,
            Ghost(bx),
            Ghost((by + offset) as u64),
        );
        let ghost xs6 = field_x@;
        let ghost ys6 = field_y@;
        proof {
            lemma_cloud_same(xs3, ys3, xs6, ys6, part4 as int, end as int);
        }
        let se = self.setup_field_recurse(
            part4,
            end,
            field_x,
            field_y,
            l,
            Ghost((bx + offset) as u64),
            Ghost((by + offset) as u64),
        );
        proof {
            lemma_window_of_parts(whole, c_nw, c_ne, c_sw, c_se, level as nat, bx as int, by as int);
            crate::tree::lemma_window_shape(c_nw, l as nat, bx as int, by as int);
            crate::tree::lemma_window_shape(c_ne, l as nat, bx + h, by as int);
            crate::tree::lemma_window_shape(c_sw, l as nat, bx as int, by + h);
            crate::tree::lemma_window_shape(c_se, l as nat, bx + h, by + h);
        }
        self.create_tree(nw, ne, sw, se)
    }
}

/// The smallest box of columns and rows that holds a set of cells.
#[derive(Clone, Copy, Debug)]
pub struct Bounds {
    pub left: i32,
    pub right: i32,
    pub top: i32,
    pub bottom: i32,
}

/// The least value of a sequence; 0 for the empty one.
pub open spec fn lowest(s: Seq<i32>) -> int
    decreases s.len(),
{
    if s.len() == 0 {
        0
    } else if s.len() == 1 {
        s[0] as int
    } else if s.last() < lowest(s.drop_last()) {
        s.last() as int
    } else {
        lowest(s.drop_last())
    }
}

/// The greatest value of a sequence; 0 for the empty one.
pub open spec fn highest(s: Seq<i32>) -> int
    decreases s.len(),
{
    if s.len() == 0 {
        0
    } else if s.len() == 1 {
        s[0] as int
    } else if s.last() > highest(s.drop_last()) {
        s.last() as int
    } else {
        highest(s.drop_last())
    }
}

/// Every value of a sequence lies between its least and its greatest.
pub proof fn lemma_lowest_highest(s: Seq<i32>, i: int)
    requires
        0 <= i < s.len(),
    ensures
        lowest(s) <= s[i] <= highest(s),
        -0x8000_0000 <= lowest(s) <= highest(s) < 0x8000_0000,
    decreases s.len(),
{
    if s.len() > 1 {
        if i < s.len() - 1 {
            lemma_lowest_highest(s.drop_last(), i);
        } else {
            lemma_lowest_highest(s.drop_last(), 0);
        }
    }
}

/// By how much a coordinate is moved so that the range from `lo` to `hi`
/// comes to lie around 0: the lower end goes to minus half the distance
/// between the two, rounded down. A range that lies around 0 already, such
/// as -1 to 1 or 0 to 1, stays where it is.
pub open spec fn centre_shift(lo: int, hi: int) -> int {
    -((hi - lo) / 2) - lo
}

/// A range that lies around 0 is not moved: one that reaches as far below 0
/// as above, or one further above.
pub proof fn lemma_centred_stays(lo: int, hi: int)
    requires
        hi == -lo || hi == -lo + 1,
        lo <= 0,
    ensures
        centre_shift(lo, hi) == 0,
{
}

/// The coordinate lies in the span of a root of the given level.
pub open spec fn spans(c: int, level: nat) -> bool {
    -pow2((level - 1) as nat) <= c < pow2((level - 1) as nat)
}

/// Every one of the coordinates lies in the span of a root of the given
/// level.
pub open spec fn all_span(bounds: Seq<i64>, level: nat) -> bool {
    forall|i: int| 0 <= i < bounds.len() ==> spans(#[trigger] bounds[i] as int, level)
}

/// The least level from `level` on whose root spans all the coordinates.
pub open spec fn level_from(bounds: Seq<i64>, level: nat) -> nat
    decreases 64 - level,
{
    if level < 64 && !all_span(bounds, level) {
        level_from(bounds, level + 1)
    } else {
        level
    }
}

/// What a field of cells is loaded as.
pub struct FieldPlan {
    /// Added to every column.
    pub shift_x: int,
    /// Added to every row.
    pub shift_y: int,
    /// The level of the root.
    pub level: nat,
}

/// How a field is laid out: it is moved so that its bounding box lies
/// around the origin, and the root gets the least level from 4 on that spans
/// the moved box.
pub open spec fn field_plan(xs: Seq<i32>, ys: Seq<i32>) -> FieldPlan {
    let shift_x = centre_shift(lowest(xs), highest(xs));
    let shift_y = centre_shift(lowest(ys), highest(ys));
    let corners = seq![
        (lowest(xs) + shift_x) as i64,
        (highest(xs) + shift_x) as i64,
        (lowest(ys) + shift_y) as i64,
        (highest(ys) + shift_y) as i64,
    ];
    let level = level_from(corners, 3);
    FieldPlan {
        shift_x,
        shift_y,
        level: if level < 4 {
            4
        } else {
            level
        },
    }
}

/// The cells of a field, moved as it is laid out.
pub open spec fn field_cells(xs: Seq<i32>, ys: Seq<i32>) -> Grid {
    let plan = field_plan(xs, ys);
    Set::new(
        |p: (int, int)|
            exists|i: int|
                0 <= i < xs.len() && #[trigger] xs[i] + plan.shift_x == p.0 && ys[i] + plan.shift_y
                    == p.1,
    )
}

/// The root that a field is loaded as.
pub open spec fn field_root(xs: Seq<i32>, ys: Seq<i32>) -> Tree {
    let plan = field_plan(xs, ys);
    let h = pow2((plan.level - 1) as nat) as int;
    window(field_cells(xs, ys), plan.level, -h, -h)
}

/// The bounding box of the cells `(field_x[i], field_y[i])`; four zeros
/// where there are none.
pub fn get_bounds(field_x: &Vec<i32>, field_y: &Vec<i32>) -> (bounds: Bounds)
    requires
        field_x@.len() == field_y@.len(),
    ensures
        bounds.left == lowest(field_x@),
        bounds.right == highest(field_x@),
        bounds.top == lowest(field_y@),
        bounds.bottom == highest(field_y@),
{
    if field_x.len() == 0 {
        return Bounds { left: 0, right: 0, top: 0, bottom: 0 };
    }
    let mut bounds = Bounds {
        left: field_x[0],
        right: field_x[0],
        top: field_y[0],
        bottom: field_y[0],
    };
    let mut i: usize = 1;
    proof {
        assert(field_x@.take(1).len() == 1);
        assert(field_y@.take(1).len() == 1);
    }
    while i < field_x.len()
        invariant
            1 <= i <= field_x@.len(),
            field_x@.len() == field_y@.len(),
            bounds.left == lowest(field_x@.take(i as int)),
            bounds.right == highest(field_x@.take(i as int)),
            bounds.top == lowest(field_y@.take(i as int)),
            bounds.bottom == highest(field_y@.take(i as int)),
            bounds.left <= bounds.right,
            bounds.top <= bounds.bottom,
        decreases field_x@.len() - i,
    {
        proof {
            assert(field_x@.take(i + 1).drop_last() =~= field_x@.take(i as int));
            assert(field_y@.take(i + 1).drop_last() =~= field_y@.take(i as int));
        }
        if field_x[i] < bounds.left {
            bounds.left = field_x[i];
        } else if field_x[i] > bounds.right {
            bounds.right = field_x[i];
        }
        if field_y[i] < bounds.top {
            bounds.top = field_y[i];
        } else if field_y[i] > bounds.bottom {
            bounds.bottom = field_y[i];
        }
        i = i + 1;
    }
    proof {
        assert(field_x@.take(i as int) =~= field_x@);
        assert(field_y@.take(i as int) =~= field_y@);
    }
    bounds
}

/// The least level, from 3 on, of a root that spans all the given
/// coordinates: 64 where only the whole range of the coordinates does.
pub fn get_level_from_bounds(bounds: &Vec<i64>) -> (level: usize)
    ensures
        level == level_from(bounds@, 3),
        3 <= level <= 64,
{
    let mut level: usize = 3;
    let mut half: i64 = 4;
    proof {
        lemma2_to64();
    }
    loop
        invariant_except_break
            3 <= level <= 63,
            half == pow2((level - 1) as nat),
            0 < half <= 0x4000_0000_0000_0000,
            level_from(bounds@, level as nat) == level_from(bounds@, 3),
        ensures
            3 <= level <= 64,
            level == level_from(bounds@, 3),
        decreases 64 - level,
    {
        let mut fit = true;
        let mut i: usize = 0;
        while i < bounds.len()
            invariant
                i <= bounds@.len(),
                half == pow2((level - 1) as nat),
                0 < half <= 0x4000_0000_0000_0000,
                fit == forall|j: int| 0 <= j < i ==> spans(#[trigger] bounds@[j] as int, level as nat),
            decreases bounds@.len() - i,
        {
            let c = bounds[i];
            if !(-half <= c && c < half) {
                fit = false;
            }
            i = i + 1;
        }
        if fit {
            break ;
        }
        level = level + 1;
        if level == 64 {
            proof {
                assert(level_from(bounds@, 64) == 64);
            }
            break ;
        }
        proof {
            lemma_pow2_unfold((level - 1) as nat);
            vstd::arithmetic::power2::lemma2_to64_rest();
            if level < 63 {
                vstd::arithmetic::power2::lemma_pow2_strictly_increases((level - 1) as nat, 62);
            }
        }
        half = half * 2;
    }
    level
}

/// The coordinates of a field, each moved by an offset, as the unsigned
/// numbers that the partitioning works on.
pub fn move_field(field_x: &Vec<i32>, field_y: &Vec<i32>, offset_x: i64, offset_y: i64) -> (moved: (
    Vec<u64>,
    Vec<u64>,
))
    requires
        field_x@.len() == field_y@.len(),
        -0x4000_0000_0000_0000 <= offset_x <= 0x4000_0000_0000_0000,
        -0x4000_0000_0000_0000 <= offset_y <= 0x4000_0000_0000_0000,
        forall|i: int| 0 <= i < field_x@.len() ==> #[trigger] field_x@[i] + offset_x >= 0,
        forall|i: int| 0 <= i < field_y@.len() ==> #[trigger] field_y@[i] + offset_y >= 0,
    ensures
        moved.0@.len() == field_x@.len(),
        moved.1@.len() == field_x@.len(),
        forall|i: int| 0 <= i < field_x@.len() ==> #[trigger] moved.0@[i] == field_x@[i] + offset_x,
        forall|i: int| 0 <= i < field_x@.len() ==> #[trigger] moved.1@[i] == field_y@[i] + offset_y,
{
    let mut xs: Vec<u64> = Vec::new();
    let mut ys: Vec<u64> = Vec::new();
    let mut i: usize = 0;
    while i < field_x.len()
        invariant
            i <= field_x@.len(),
            field_x@.len() == field_y@.len(),
            xs@.len() == i,
            ys@.len() == i,
            -0x4000_0000_0000_0000 <= offset_x <= 0x4000_0000_0000_0000,
            -0x4000_0000_0000_0000 <= offset_y <= 0x4000_0000_0000_0000,
            forall|j: int| 0 <= j < field_x@.len() ==> #[trigger] field_x@[j] + offset_x >= 0,
            forall|j: int| 0 <= j < field_y@.len() ==> #[trigger] field_y@[j] + offset_y >= 0,
            forall|j: int| 0 <= j < i ==> #[trigger] xs@[j] == field_x@[j] + offset_x,
            forall|j: int| 0 <= j < i ==> #[trigger] ys@[j] == field_y@[j] + offset_y,
        decreases field_x@.len() - i,
    {
        let x: i64 = field_x[i] as i64 + offset_x;
        let y: i64 = field_y[i] as i64 + offset_y;
        xs.push(x as u64);
        ys.push(y as u64);
        i = i + 1;
    }
    (xs, ys)
}

/// The shift that centres the range from `lo` to `hi`.
pub fn centre_offset(lo: i32, hi: i32) -> (r: i64)
    requires
        lo <= hi,
    ensures
        r == centre_shift(lo as int, hi as int),
        -0x8000_0000 <= lo + r <= 0,
        0 <= hi + r <= 0x8000_0000,
{
    let lo: i64 = lo as i64;
    let hi: i64 = hi as i64;
    -((hi - lo) / 2) - lo
}

/// The search for a level ends at the first level that spans all the
/// coordinates, and below any level that does.
pub proof fn lemma_level_from(bounds: Seq<i64>, level: nat, cap: nat)
    requires
        1 <= level <= cap <= 64,
        all_span(bounds, cap),
    ensures
        level <= level_from(bounds, level) <= cap,
        all_span(bounds, level_from(bounds, level)),
    decreases cap - level,
{
    if level < 64 && !all_span(bounds, level) {
        lemma_level_from(bounds, level + 1, cap);
    }
}

/// What one level spans, every higher level spans.
pub proof fn lemma_spans_grows(c: int, level: nat, higher: nat)
    requires
        1 <= level <= higher,
        spans(c, level),
    ensures
        spans(c, higher),
{
    if level < higher {
        vstd::arithmetic::power2::lemma_pow2_strictly_increases((level - 1) as nat, (higher - 1) as nat);
    }
}

/// The moved cells of a field lie in the span of the root they are loaded
/// as.
pub proof fn lemma_field_spanned(xs: Seq<i32>, ys: Seq<i32>, i: int)
    requires
        xs.len() == ys.len(),
        0 <= i < xs.len(),
    ensures
        ({
            let plan = field_plan(xs, ys);
            &&& 4 <= plan.level <= 34
            &&& spans(xs[i] + plan.shift_x, plan.level)
            &&& spans(ys[i] + plan.shift_y, plan.level)
        }),
{
    let plan = field_plan(xs, ys);
    let corners = seq![
        (lowest(xs) + plan.shift_x) as i64,
        (highest(xs) + plan.shift_x) as i64,
        (lowest(ys) + plan.shift_y) as i64,
        (highest(ys) + plan.shift_y) as i64,
    ];
    lemma_lowest_highest(xs, i);
    lemma_lowest_highest(ys, i);
    lemma_plan_level(xs, ys);
    assert(spans(corners[0] as int, plan.level));
    assert(spans(corners[1] as int, plan.level));
    assert(spans(corners[2] as int, plan.level));
    assert(spans(corners[3] as int, plan.level));
}

/// The level that a field is loaded at is between 4 and 34, and a root of
/// that level spans the corners of the moved bounding box.
pub proof fn lemma_plan_level(xs: Seq<i32>, ys: Seq<i32>)
    requires
        xs.len() == ys.len(),
    ensures
        ({
            let plan = field_plan(xs, ys);
            let corners = seq![
                (lowest(xs) + plan.shift_x) as i64,
                (highest(xs) + plan.shift_x) as i64,
                (lowest(ys) + plan.shift_y) as i64,
                (highest(ys) + plan.shift_y) as i64,
            ];
            &&& 4 <= plan.level <= 34
            &&& all_span(corners, plan.level)
            &&& -0x8000_0000 <= lowest(xs) + plan.shift_x <= 0 <= highest(xs) + plan.shift_x
                <= 0x8000_0000
            &&& -0x8000_0000 <= lowest(ys) + plan.shift_y <= 0 <= highest(ys) + plan.shift_y
                <= 0x8000_0000
        }),
{
    let plan = field_plan(xs, ys);
    let corners = seq![
        (lowest(xs) + plan.shift_x) as i64,
        (highest(xs) + plan.shift_x) as i64,
        (lowest(ys) + plan.shift_y) as i64,
        (highest(ys) + plan.shift_y) as i64,
    ];
    if xs.len() > 0 {
        lemma_lowest_highest(xs, 0);
        lemma_lowest_highest(ys, 0);
    }
    vstd::arithmetic::power2::lemma2_to64_rest();
    lemma2_to64();
    assert(all_span(corners, 34));
    lemma_level_from(corners, 3, 34);
    let level = level_from(corners, 3);
    if level < 4 {
        lemma_spans_grows(corners[0] as int, level, 4);
        lemma_spans_grows(corners[1] as int, level, 4);
        lemma_spans_grows(corners[2] as int, level, 4);
        lemma_spans_grows(corners[3] as int, level, 4);
    }
}

/// The root that a field is loaded as shows the moved cells of the field and
/// no others.
pub proof fn lemma_field_shown(xs: Seq<i32>, ys: Seq<i32>)
    requires
        xs.len() == ys.len(),
    ensures
        ({
            let plan = field_plan(xs, ys);
            let h = pow2((plan.level - 1) as nat) as int;
            let t = field_root(xs, ys);
            &&& t.balanced()
            &&& t.level() == plan.level
            &&& t.cells_at(-h, -h) == field_cells(xs, ys)
        }),
{
    let plan = field_plan(xs, ys);
    let level = plan.level;
    let h = pow2((level - 1) as nat) as int;
    let t = field_root(xs, ys);
    let cells = field_cells(xs, ys);
    let shown = t.cells_at(-h, -h);
    lemma_plan_level(xs, ys);
    lemma_pow2_unfold(level);
    crate::tree::lemma_window_shape(cells, level, -h, -h);
    assert forall|p: (int, int)| shown.contains(p) == cells.contains(p) by {
        if 0 <= p.0 + h < pow2(level) && 0 <= p.1 + h < pow2(level) {
            crate::tree::lemma_window_cell(cells, level, -h, -h, p.0 + h, p.1 + h);
            assert((-h + (p.0 + h), -h + (p.1 + h)) == p);
        } else {
            if cells.contains(p) {
                let i = choose|i: int|
                    0 <= i < xs.len() && #[trigger] xs[i] + plan.shift_x == p.0 && ys[i]
                        + plan.shift_y == p.1;
                lemma_field_spanned(xs, ys, i);
            }
        }
    }
    assert(shown =~= cells);
}

/// The coordinate arrays that the partitioning works on hold the field's
/// root: they show, from the corner `(0, 0)`, what the moved field shows
/// around the origin.
pub proof fn lemma_field_moved(xs: Seq<i32>, ys: Seq<i32>, cx: Seq<u64>, cy: Seq<u64>)
    requires
        xs.len() == ys.len(),
        cx.len() == xs.len(),
        cy.len() == xs.len(),
        forall|i: int|
            0 <= i < xs.len() ==> #[trigger] cx[i] == xs[i] + field_plan(xs, ys).shift_x + pow2(
                (field_plan(xs, ys).level - 1) as nat,
            ),
        forall|i: int|
            0 <= i < xs.len() ==> #[trigger] cy[i] == ys[i] + field_plan(xs, ys).shift_y + pow2(
                (field_plan(xs, ys).level - 1) as nat,
            ),
    ensures
        ({
            let level = field_plan(xs, ys).level;
            let moved = cloud(cx, cy, 0, cx.len() as int);
            &&& within(moved, 0, 0, pow2(level) as int, pow2(level) as int)
            &&& window(moved, level, 0, 0) == field_root(xs, ys)
        }),
{
    let plan = field_plan(xs, ys);
    let level = plan.level;
    let h = pow2((level - 1) as nat) as int;
    let moved = cloud(cx, cy, 0, cx.len() as int);
    let cells = field_cells(xs, ys);
    lemma_plan_level(xs, ys);
    lemma_pow2_unfold(level);
    assert forall|x: int, y: int| #[trigger] moved.contains((x, y)) implies 0 <= x < pow2(level)
        && 0 <= y < pow2(level) by {
        let i = choose|i: int| 0 <= i < cx.len() && #[trigger] cx[i] == x && cy[i] == y;
        lemma_field_spanned(xs, ys, i);
    }
    assert forall|x: int, y: int| -h <= x < -h + pow2(level) && -h <= y < -h + pow2(
        level,
    ) implies (moved.contains((x + h, y + h)) == #[trigger] cells.contains((x, y))) by {
        if moved.contains((x + h, y + h)) {
            let i = choose|i: int| 0 <= i < cx.len() && #[trigger] cx[i] == x + h && cy[i] == y + h;
            assert(0 <= i < xs.len() && xs[i] + plan.shift_x == x && ys[i] + plan.shift_y == y);
        }
        if cells.contains((x, y)) {
            let i = choose|i: int|
                0 <= i < xs.len() && #[trigger] xs[i] + plan.shift_x == x && ys[i] + plan.shift_y
                    == y;
            assert(0 <= i < cx.len() && cx[i] == x + h && cy[i] == y + h);
        }
    }
    lemma_window_agree(moved, cells, level, 0, 0, -h, -h);
}

impl LifeUniverse {
    /// Replaces the pattern by the cells `(field_x[i], field_y[i])`, moved so
    /// that their bounding box lies around the origin; cells whose box lies
    /// around the origin already stay where they are. The root gets the
    /// least level from 4 on that holds them. Generation counter, step,
    /// rules and the saved root stay.
    pub fn setup_field(&mut self, field_x: Vec<i32>, field_y: Vec<i32>)
        requires
            old(self).wf(),
            field_x@.len() == field_y@.len(),
        ensures
            final(self).wf(),
            final(self)@ == (UniverseView { root: field_root(field_x@, field_y@), ..old(self)@ }),
            final(self)@.cells() == field_cells(field_x@, field_y@),
            final(self)@.level() == field_plan(field_x@, field_y@).level,
            4 <= final(self)@.level() <= 34,
            final(self).rewind_id() == old(self).rewind_id(),
            final(self).keeps_rooted(old(self)),
            old(self).node_count() < old(self).high_water_mark() ==> {
                &&& final(self).grows(old(self))
                &&& final(self).rewind_id() == old(self).rewind_id()
                &&& final(self).high_water_mark() == old(self).high_water_mark()
            },
    {
        self.collect_if_full();
        let bounds = get_bounds(&field_x, &field_y);
        proof {
            lemma_plan_level(field_x@, field_y@);
            lemma_field_shown(field_x@, field_y@);
            if field_x@.len() > 0 {
                lemma_lowest_highest(field_x@, 0);
                lemma_lowest_highest(field_y@, 0);
            }
        }
        let offset_x = centre_offset(bounds.left, bounds.right);
        let offset_y = centre_offset(bounds.top, bounds.bottom);
        let corners: Vec<i64> = vec![
            bounds.left as i64 + offset_x,
            bounds.right as i64 + offset_x,
            bounds.top as i64 + offset_y,
            bounds.bottom as i64 + offset_y,
        ];
        let ghost plan = field_plan(field_x@, field_y@);
        proof {
            assert(corners@ =~= seq![
                (lowest(field_x@) + plan.shift_x) as i64,
                (highest(field_x@) + plan.shift_x) as i64,
                (lowest(field_y@) + plan.shift_y) as i64,
                (highest(field_y@) + plan.shift_y) as i64,
            ]);
        }
        let mut level = get_level_from_bounds(&corners);
        if level < 4 {
            level = 4;
        }
        let offset = half_side(level);
        proof {
            vstd::arithmetic::power2::lemma2_to64_rest();
            if level < 34 {
                vstd::arithmetic::power2::lemma_pow2_strictly_increases((level - 1) as nat, 33);
            }
            assert(offset <= 0x2_0000_0000);
            assert forall|i: int| 0 <= i < field_x@.len() implies #[trigger] field_x@[i] + (offset_x
                + offset) >= 0 by {
                lemma_field_spanned(field_x@, field_y@, i);
            }
            assert forall|i: int| 0 <= i < field_y@.len() implies #[trigger] field_y@[i] + (offset_y
                + offset) >= 0 by {
                lemma_field_spanned(field_x@, field_y@, i);
            }
        }
        let (mut xs, mut ys) = move_field(&field_x, &field_y, offset_x + offset, offset_y + offset);
        let count = xs.len();
        proof {
            assert(aligned(0, level as u64)) by {
                let l = level as u64;
                assert(0u64 & (((1u64 << l) - 1) as u64) == 0) by (bit_vector);
            }
            vstd::arithmetic::power2::lemma_pow2_strictly_increases(level as nat, 63);
            vstd::arithmetic::power2::lemma2_to64_rest();
            lemma_field_moved(field_x@, field_y@, xs@, ys@);
        }
        let root = self.setup_field_recurse(0, count, &mut xs, &mut ys, level, Ghost(0), Ghost(0));
        self.set_root(root);
    }
}

} // verus!

//! The bounding box of the pattern.

use crate::grid::Grid;
use crate::powers::half_side;
use crate::tree::{lemma_population_cells, Tree};
use crate::universe::LifeUniverse;
use vstd::arithmetic::power2::{lemma_pow2_pos, lemma_pow2_unfold, pow2};
use vstd::prelude::*;

verus! {

/// The left edge is still looked for.
pub const MASK_LEFT: usize = 1;

/// The top edge is still looked for.
pub const MASK_TOP: usize = 2;

/// The right edge is still looked for.
pub const MASK_RIGHT: usize = 4;

/// The bottom edge is still looked for.
pub const MASK_BOTTOM: usize = 8;

/// The side is one of those the mask asks for.
pub open spec fn asks(mask: usize, side: usize) -> bool {
    mask & side != 0
}

/// No live cell lies outside the box: columns `left` to `right`, rows `top`
/// to `bottom`, all four included.
pub open spec fn bounded_by(g: Grid, left: int, right: int, top: int, bottom: int) -> bool {
    forall|x: int, y: int| #[trigger] g.contains((x, y)) ==> left <= x <= right && top <= y <= bottom
}

/// Each edge of the box holds a live cell.
pub open spec fn touched_by(g: Grid, left: int, right: int, top: int, bottom: int) -> bool {
    &&& exists|y: int| g.contains((left, y))
    &&& exists|y: int| g.contains((right, y))
    &&& exists|x: int| g.contains((x, top))
    &&& exists|x: int| g.contains((x, bottom))
}

/// The box is the smallest that holds every live cell.
pub open spec fn bounding_box(g: Grid, left: int, right: int, top: int, bottom: int) -> bool {
    bounded_by(g, left, right, top, bottom) && touched_by(g, left, right, top, bottom)
}

/// On each side that the mask asks for, the box found so far holds every
/// live cell of the grid.
pub open spec fn covered(g: Grid, mask: usize, b: Seq<i64>) -> bool {
    forall|x: int, y: int| #[trigger]
        g.contains((x, y)) ==> {
            &&& asks(mask, MASK_LEFT) ==> b[0] <= x
            &&& asks(mask, MASK_RIGHT) ==> x <= b[1]
            &&& asks(mask, MASK_TOP) ==> b[2] <= y
            &&& asks(mask, MASK_BOTTOM) ==> y <= b[3]
        }
}

/// The box `b` is the box `a` pushed outwards, and each edge that moved now
/// holds a live cell of the grid.
pub open spec fn pushed_out(g: Grid, a: Seq<i64>, b: Seq<i64>) -> bool {
    &&& a.len() == 4
    &&& b.len() == 4
    &&& b[0] <= a[0]
    &&& b[1] >= a[1]
    &&& b[2] <= a[2]
    &&& b[3] >= a[3]
    &&& (b[0] == a[0] || exists|y: int| g.contains((b[0] as int, y)))
    &&& (b[1] == a[1] || exists|y: int| g.contains((b[1] as int, y)))
    &&& (b[2] == a[2] || exists|x: int| g.contains((x, b[2] as int)))
    &&& (b[3] == a[3] || exists|x: int| g.contains((x, b[3] as int)))
}

/// Pushing a box out twice, by cells of a part of the grid each time, is
/// pushing it out by cells of the grid.
proof fn lemma_pushed_twice(g: Grid, first: Grid, second: Grid, a: Seq<i64>, b: Seq<i64>, c: Seq<i64>)
    requires
        first.subset_of(g),
        second.subset_of(g),
        pushed_out(first, a, b),
        pushed_out(second, b, c),
    ensures
        pushed_out(g, a, c),
{
    if c[0] != a[0] {
        if c[0] != b[0] {
            let y = choose|y: int| second.contains((c[0] as int, y));
            assert(g.contains((c[0] as int, y)));
        } else {
            let y = choose|y: int| first.contains((b[0] as int, y));
            assert(g.contains((c[0] as int, y)));
        }
    }
    if c[1] != a[1] {
        if c[1] != b[1] {
            let y = choose|y: int| second.contains((c[1] as int, y));
            assert(g.contains((c[1] as int, y)));
        } else {
            let y = choose|y: int| first.contains((b[1] as int, y));
            assert(g.contains((c[1] as int, y)));
        }
    }
    if c[2] != a[2] {
        if c[2] != b[2] {
            let x = choose|x: int| second.contains((x, c[2] as int));
            assert(g.contains((x, c[2] as int)));
        } else {
            let x = choose|x: int| first.contains((x, b[2] as int));
            assert(g.contains((x, c[2] as int)));
        }
    }
    if c[3] != a[3] {
        if c[3] != b[3] {
            let x = choose|x: int| second.contains((x, c[3] as int));
            assert(g.contains((x, c[3] as int)));
        } else {
            let x = choose|x: int| first.contains((x, b[3] as int));
            assert(g.contains((x, c[3] as int)));
        }
    }
}

/// What is left of a mask when one side is taken out.
proof fn lemma_mask_without(m: usize, a: usize)
    by (bit_vector)
    requires
        a == 1 || a == 2 || a == 4 || a == 8,
    ensures
        ((m & !a) & 1 != 0) == (m & 1 != 0 && a != 1),
        ((m & !a) & 2 != 0) == (m & 2 != 0 && a != 2),
        ((m & !a) & 4 != 0) == (m & 4 != 0 && a != 4),
        ((m & !a) & 8 != 0) == (m & 8 != 0 && a != 8),
{
}

/// What is left of a mask when two sides are taken out.
proof fn lemma_mask_without_two(m: usize, a: usize, b: usize)
    by (bit_vector)
    requires
        a == 1 || a == 2 || a == 4 || a == 8,
        b == 1 || b == 2 || b == 4 || b == 8,
    ensures
        ((m & (!a & !b)) & 1 != 0) == (m & 1 != 0 && a != 1 && b != 1),
        ((m & (!a & !b)) & 2 != 0) == (m & 2 != 0 && a != 2 && b != 2),
        ((m & (!a & !b)) & 4 != 0) == (m & 4 != 0 && a != 4 && b != 4),
        ((m & (!a & !b)) & 8 != 0) == (m & 8 != 0 && a != 8 && b != 8),
{
}

/// The sides of the empty mask and of the full one.
proof fn lemma_mask_ends()
    by (bit_vector)
    ensures
        0usize & 1 == 0 && 0usize & 2 == 0 && 0usize & 4 == 0 && 0usize & 8 == 0,
        15usize & 1 != 0 && 15usize & 2 != 0 && 15usize & 4 != 0 && 15usize & 8 != 0,
        1usize | 2 | 4 | 8 == 15,
{
}

/// The grid of an inner tree is made up of the grids of its quadrants, each
/// in its own quarter of the square.
proof fn lemma_quadrant_cells(t: Tree, left: int, top: int)
    requires
        t.balanced(),
        t.level() >= 1,
    ensures
        ({
            let h = pow2((t.level() - 1) as nat) as int;
            let g = t.cells_at(left, top);
            let nw = t.nw().cells_at(left, top);
            let ne = t.ne().cells_at(left + h, top);
            let sw = t.sw().cells_at(left, top + h);
            let se = t.se().cells_at(left + h, top + h);
            &&& nw.subset_of(g)
            &&& ne.subset_of(g)
            &&& sw.subset_of(g)
            &&& se.subset_of(g)
            &&& forall|x: int, y: int| #[trigger]
                g.contains((x, y)) ==> nw.contains((x, y)) || ne.contains((x, y)) || sw.contains(
                    (x, y),
                ) || se.contains((x, y))
            &&& forall|x: int, y: int| #[trigger]
                nw.contains((x, y)) ==> left <= x < left + h && top <= y < top + h
            &&& forall|x: int, y: int| #[trigger]
                ne.contains((x, y)) ==> left + h <= x < left + 2 * h && top <= y < top + h
            &&& forall|x: int, y: int| #[trigger]
                sw.contains((x, y)) ==> left <= x < left + h && top + h <= y < top + 2 * h
            &&& forall|x: int, y: int| #[trigger]
                se.contains((x, y)) ==> left + h <= x < left + 2 * h && top + h <= y < top + 2 * h
        }),
{
    lemma_pow2_unfold(t.level());
    lemma_pow2_pos((t.level() - 1) as nat);
}

/// A tree with live cells has a live cell.
proof fn lemma_some_cell(t: Tree, left: int, top: int) -> (p: (int, int))
    requires
        t.balanced(),
        t.population() != 0,
    ensures
        t.cells_at(left, top).contains(p),
{
    lemma_population_cells(t, left, top);
    let g = t.cells_at(left, top);
    assert(!(g =~= Set::<(int, int)>::empty()));
    choose|p: (int, int)| g.contains(p)
}

impl LifeUniverse {
    /// Pushes the box found so far out to hold the live cells of a node
    /// whose top left corner is at `(left, top)`, on the sides that
    /// `find_mask` asks for. Where it asks for none, or the node is dead, the
    /// box stays as it is. A quadrant is not searched for an edge that a
    /// populated neighbour of it is sure to lie beyond, and a node that lies
    /// within the box already is not searched at all.
    pub fn node_get_boundary(
        &self,
        node: usize,
        left: i64,
        top: i64,
        find_mask: usize,
        boundary: &mut Vec<i64>,
    )
        requires
            self.wf(),
            self.valid(node),
            old(boundary)@.len() == 4,
            -0x4000_0000_0000_0000 <= left,
            -0x4000_0000_0000_0000 <= top,
            left + self.tree(node).side() <= 0x4000_0000_0000_0000,
            top + self.tree(node).side() <= 0x4000_0000_0000_0000,
        ensures
            pushed_out(
                self.tree(node).cells_at(left as int, top as int),
                old(boundary)@,
                final(boundary)@,
            ),
            covered(self.tree(node).cells_at(left as int, top as int), find_mask, final(boundary)@),
            find_mask == 0 || self.tree(node).population() == 0 ==> final(boundary)@ == old(
                boundary,
            )@,
        decreases self.tree(node).level(),
    {
        let n = self.node(node);
        let ghost t = self.tree(node);
        let ghost g = t.cells_at(left as int, top as int);
        let ghost b0 = boundary@;
        proof {
            lemma_mask_ends();
            lemma_population_cells(t, left as int, top as int);
        }
        if n.population == 0 || find_mask == 0 {
            return ;
        }
        if n.level == 0 {
            proof {
                vstd::arithmetic::power2::lemma2_to64();
                assert(g.contains((left as int, top as int)));
                assert forall|x: int, y: int| #[trigger] g.contains((x, y)) implies x == left && y
                    == top by {}
            }
            if left < boundary[0] {
                boundary.set(0, left);
            }
            if left > boundary[1] {
                boundary.set(1, left);
            }
            if top < boundary[2] {
                boundary.set(2, top);
            }
            if top > boundary[3] {
                boundary.set(3, top);
            }
            return ;
        }
        let offset = half_side(n.level);
        if left >= boundary[0] && left + offset + offset <= boundary[1] && top >= boundary[2] && top
            + offset + offset <= boundary[3] {
            // the box holds this node already
            return ;
        }
        let nw = self.node(n.nw);
        let ne = self.node(n.ne);
        let sw = self.node(n.sw);
        let se = self.node(n.se);
        let mut find_nw = find_mask;
        let mut find_ne = find_mask;
        let mut find_sw = find_mask;
        let mut find_se = find_mask;
        if nw.population != 0 {
            proof {
                lemma_mask_without(find_sw, MASK_TOP);
                lemma_mask_without(find_ne, MASK_LEFT);
                lemma_mask_without_two(find_se, MASK_TOP, MASK_LEFT);
            }
            find_sw = find_sw & !MASK_TOP;
            find_ne = find_ne & !MASK_LEFT;
            find_se = find_se & (!MASK_TOP & !MASK_LEFT);
        }
        if sw.population != 0 {
            proof {
                lemma_mask_without(find_se, MASK_LEFT);
                lemma_mask_without(find_nw, MASK_BOTTOM);
                lemma_mask_without_two(find_ne, MASK_BOTTOM, MASK_LEFT);
            }
            find_se = find_se & !MASK_LEFT;
            find_nw = find_nw & !MASK_BOTTOM;
            find_ne = find_ne & (!MASK_BOTTOM & !MASK_LEFT);
        }
        if ne.population != 0 {
            proof {
                lemma_mask_without(find_nw, MASK_RIGHT);
                lemma_mask_without(find_se, MASK_TOP);
                lemma_mask_without_two(find_sw, MASK_TOP, MASK_RIGHT);
            }
            find_nw = find_nw & !MASK_RIGHT;
            find_se = find_se & !MASK_TOP;
            find_sw = find_sw & (!MASK_TOP & !MASK_RIGHT);
        }
        if se.population != 0 {
            proof {
                lemma_mask_without(find_sw, MASK_RIGHT);
                lemma_mask_without(find_ne, MASK_BOTTOM);
                lemma_mask_without_two(find_nw, MASK_BOTTOM, MASK_RIGHT);
            }
            find_sw = find_sw & !MASK_RIGHT;
            find_ne = find_ne & !MASK_BOTTOM;
            find_nw = find_nw & (!MASK_BOTTOM & !MASK_RIGHT);
        }
        let ghost g_nw = t.nw().cells_at(left as int, top as int);
        let ghost g_sw = t.sw().cells_at(left as int, top + offset);
        let ghost g_ne = t.ne().cells_at(left + offset, top as int);
        let ghost g_se = t.se().cells_at(left + offset, top + offset);
        proof {
            lemma_quadrant_cells(t, left as int, top as int);
        }
        self.node_get_boundary(n.nw, left, top, find_nw, boundary);
        let ghost b1 = boundary@;
        self.node_get_boundary(n.sw, left, top + offset, find_sw, boundary);
        let ghost b2 = boundary@;
        self.node_get_boundary(n.ne, left + offset, top, find_ne, boundary);
        let ghost b3 = boundary@;
        self.node_get_boundary(n.se, left + offset, top + offset, find_se, boundary);
        let ghost b4 = boundary@;
        proof {
            lemma_pushed_twice(g, g_nw, g_sw, b0, b1, b2);
            lemma_pushed_twice(g, g, g_ne, b0, b2, b3);
            lemma_pushed_twice(g, g, g_se, b0, b3, b4);
            if t.nw().population() != 0 {
                let q = lemma_some_cell(t.nw(), left as int, top as int);
                assert(g_nw.contains((q.0, q.1)));
            }
            if t.sw().population() != 0 {
                let q = lemma_some_cell(t.sw(), left as int, top + offset);
                assert(g_sw.contains((q.0, q.1)));
            }
            if t.ne().population() != 0 {
                let q = lemma_some_cell(t.ne(), left + offset, top as int);
                assert(g_ne.contains((q.0, q.1)));
            }
            if t.se().population() != 0 {
                let q = lemma_some_cell(t.se(), left + offset, top + offset);
                assert(g_se.contains((q.0, q.1)));
            }
            assert forall|x: int, y: int| #[trigger] g.contains((x, y)) implies {
                &&& asks(find_mask, MASK_LEFT) ==> b4[0] <= x
                &&& asks(find_mask, MASK_RIGHT) ==> x <= b4[1]
                &&& asks(find_mask, MASK_TOP) ==> b4[2] <= y
                &&& asks(find_mask, MASK_BOTTOM) ==> y <= b4[3]
            } by {
                assert(g_nw.contains((x, y)) || g_ne.contains((x, y)) || g_sw.contains((x, y))
                    || g_se.contains((x, y)));
            }
        }
    }

    /// The smallest box that holds every live cell, as left and right
    /// column, top and bottom row, all four included; four zeros for the
    /// empty pattern.
    pub fn get_root_bounds(&self) -> (bounds: Vec<i64>)
        requires
            self.wf(),
        ensures
            bounds@.len() == 4,
            self@.cells() == Set::<(int, int)>::empty() ==> bounds@ == seq![0i64, 0i64, 0i64, 0i64],
            self@.cells() != Set::<(int, int)>::empty() ==> bounding_box(
                self@.cells(),
                bounds@[0] as int,
                bounds@[1] as int,
                bounds@[2] as int,
                bounds@[3] as int,
            ),
    {
        let root = self.root();
        let n = self.node(root);
        proof {
            self.lemma_root();
        }
        let offset = half_side(n.level);
        let ghost g = self@.cells();
        proof {
            lemma_population_cells(self.tree(root), -(offset as int), -(offset as int));
            lemma_mask_ends();
        }
        if n.population == 0 {
            let zeros: Vec<i64> = vec![0, 0, 0, 0];
            assert(zeros@ =~= seq![0i64, 0i64, 0i64, 0i64]);
            return zeros;
        }
        let mut bounds: Vec<i64> = vec![i64::MAX, i64::MIN, i64::MAX, i64::MIN];
        self.node_get_boundary(
            root,
            -offset,
            -offset,
            MASK_LEFT | MASK_TOP | MASK_RIGHT | MASK_BOTTOM,
            &mut bounds,
        );
        proof {
            let q = lemma_some_cell(self.tree(root), -(offset as int), -(offset as int));
            assert(g.contains((q.0, q.1)));
            assert(bounded_by(g, bounds@[0] as int, bounds@[1] as int, bounds@[2] as int, bounds@[3] as int));
        }
        bounds
    }
}

} // verus!

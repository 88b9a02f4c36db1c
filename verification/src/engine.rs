//! The successor engine: the leaf kernel on 4x4 neighbourhoods, and the two
//! memoized recursions that advance the centre of a node in time.

use crate::grid::{alive, neighbors, next_state, step};
use crate::tree::{
    lemma_successor_two_rounds, lemma_successor_zero, lemma_window_of_cells, lemma_window_quarters,
    lemma_window_split, round_one, Tree,
};
use crate::universe::{step_gens, LifeUniverse};
use vstd::arithmetic::power2::{lemma2_to64, lemma_pow2_pos, lemma_pow2_strictly_increases, lemma_pow2_unfold, pow2};
use vstd::prelude::*;

verus! {

/// Bit `i` of a neighbourhood mask, as 0 or 1.
pub open spec fn mask_bit(mask: u32, i: u32) -> int {
    ((mask >> i) & 1) as int
}

/// The number of live neighbours in a neighbourhood mask whose cell of
/// interest is bit 5: the bits of `0x757`, which are the three cells of the
/// row above (bits 10, 9, 8), the two beside (6 and 4), and the three of the
/// row below (2, 1, 0).
pub open spec fn mask_neighbors(mask: u32) -> int {
    mask_bit(mask, 10) + mask_bit(mask, 9) + mask_bit(mask, 8) + mask_bit(mask, 6) + mask_bit(
        mask,
        4,
    ) + mask_bit(mask, 2) + mask_bit(mask, 1) + mask_bit(mask, 0)
}

/// The next state of the cell at bit 5 of a neighbourhood mask.
pub open spec fn eval_spec(rule_s: usize, rule_b: usize, mask: u32) -> bool {
    next_state(rule_s, rule_b, mask_bit(mask, 5) == 1, mask_neighbors(mask))
}

/// The 4x4 cells of a level-2 tree, packed row by row from the top left:
/// the cell in column `x` and row `y` is bit `15 - (4 * y + x)`.
pub open spec fn level2_mask(t: Tree) -> u32 {
    leaf_bit(t.nw().nw()) << 15 | leaf_bit(t.nw().ne()) << 14 | leaf_bit(t.ne().nw()) << 13
        | leaf_bit(t.ne().ne()) << 12 | leaf_bit(t.nw().sw()) << 11 | leaf_bit(t.nw().se()) << 10
        | leaf_bit(t.ne().sw()) << 9 | leaf_bit(t.ne().se()) << 8 | leaf_bit(t.sw().nw()) << 7
        | leaf_bit(t.sw().ne()) << 6 | leaf_bit(t.se().nw()) << 5 | leaf_bit(t.se().ne()) << 4
        | leaf_bit(t.sw().sw()) << 3 | leaf_bit(t.sw().se()) << 2 | leaf_bit(t.se().sw()) << 1
        | leaf_bit(t.se().se())
}

/// 1 for the live leaf, 0 for any other tree.
pub open spec fn leaf_bit(t: Tree) -> u32 {
    if t == Tree::Leaf(true) {
        1
    } else {
        0
    }
}

/// The successor of a level-2 tree, one generation on, as the leaf kernel
/// computes it: four evaluations of the packed 4x4 cells, shifted so that
/// each cell of the centre in turn sits at bit 5.
pub open spec fn level2_next(t: Tree, rule_s: usize, rule_b: usize) -> Tree {
    let m = level2_mask(t);
    Tree::join(
        Tree::Leaf(eval_spec(rule_s, rule_b, m >> 5)),
        Tree::Leaf(eval_spec(rule_s, rule_b, m >> 4)),
        Tree::Leaf(eval_spec(rule_s, rule_b, m >> 1)),
        Tree::Leaf(eval_spec(rule_s, rule_b, m)),
    )
}

/// Where in the packed 4x4 cells each cell and each neighbour of the four
/// centre cells is found.
proof fn lemma_mask_layout(
    a0: u32, a1: u32, a2: u32, a3: u32,
    b0: u32, b1: u32, b2: u32, b3: u32,
    c0: u32, c1: u32, c2: u32, c3: u32,
    d0: u32, d1: u32, d2: u32, d3: u32,
)
    by (bit_vector)
    requires
        a0 <= 1, a1 <= 1, a2 <= 1, a3 <= 1,
        b0 <= 1, b1 <= 1, b2 <= 1, b3 <= 1,
        c0 <= 1, c1 <= 1, c2 <= 1, c3 <= 1,
        d0 <= 1, d1 <= 1, d2 <= 1, d3 <= 1,
    ensures
        ({
            let m: u32 = a0 << 15 | a1 << 14 | a2 << 13 | a3 << 12 | b0 << 11 | b1 << 10 | b2 << 9
                | b3 << 8 | c0 << 7 | c1 << 6 | c2 << 5 | c3 << 4 | d0 << 3 | d1 << 2 | d2 << 1
                | d3;
            &&& m < 0x10000
            &&& ((m >> 5) >> 10) & 1 == a0 && ((m >> 5) >> 9) & 1 == a1 && ((m >> 5) >> 8) & 1 == a2
            &&& ((m >> 5) >> 6) & 1 == b0 && ((m >> 5) >> 5) & 1 == b1 && ((m >> 5) >> 4) & 1 == b2
            &&& ((m >> 5) >> 2) & 1 == c0 && ((m >> 5) >> 1) & 1 == c1 && ((m >> 5) >> 0) & 1 == c2
            &&& ((m >> 4) >> 10) & 1 == a1 && ((m >> 4) >> 9) & 1 == a2 && ((m >> 4) >> 8) & 1 == a3
            &&& ((m >> 4) >> 6) & 1 == b1 && ((m >> 4) >> 5) & 1 == b2 && ((m >> 4) >> 4) & 1 == b3
            &&& ((m >> 4) >> 2) & 1 == c1 && ((m >> 4) >> 1) & 1 == c2 && ((m >> 4) >> 0) & 1 == c3
            &&& ((m >> 1) >> 10) & 1 == b0 && ((m >> 1) >> 9) & 1 == b1 && ((m >> 1) >> 8) & 1 == b2
            &&& ((m >> 1) >> 6) & 1 == c0 && ((m >> 1) >> 5) & 1 == c1 && ((m >> 1) >> 4) & 1 == c2
            &&& ((m >> 1) >> 2) & 1 == d0 && ((m >> 1) >> 1) & 1 == d1 && ((m >> 1) >> 0) & 1 == d2
            &&& (m >> 10) & 1 == b1 && (m >> 9) & 1 == b2 && (m >> 8) & 1 == b3
            &&& (m >> 6) & 1 == c1 && (m >> 5) & 1 == c2 && (m >> 4) & 1 == c3
            &&& (m >> 2) & 1 == d1 && (m >> 1) & 1 == d2 && (m >> 0) & 1 == d3
        }),
{
}

/// The leaf kernel is the automaton: the successor of a level-2 tree one
/// generation on is what four evaluations of its packed cells give.
pub proof fn lemma_level2_next(t: Tree, rule_s: usize, rule_b: usize)
    requires
        t.balanced(),
        t.level() == 2,
    ensures
        t.successor(rule_s, rule_b, 1) == level2_next(t, rule_s, rule_b),
{
    let g = t.cells_at(0, 0);
    let s = step(g, rule_s, rule_b);
    lemma2_to64();
    reveal_with_fuel(crate::grid::evolve, 2);
    lemma_window_of_cells(t, 0, 0);
    lemma_window_quarters(g, 2, 0, 0);
    lemma_window_split(s, 1, 1, 1);
    let a0 = leaf_bit(t.nw().nw());
    let a1 = leaf_bit(t.nw().ne());
    let a2 = leaf_bit(t.ne().nw());
    let a3 = leaf_bit(t.ne().ne());
    let b0 = leaf_bit(t.nw().sw());
    let b1 = leaf_bit(t.nw().se());
    let b2 = leaf_bit(t.ne().sw());
    let b3 = leaf_bit(t.ne().se());
    let c0 = leaf_bit(t.sw().nw());
    let c1 = leaf_bit(t.sw().ne());
    let c2 = leaf_bit(t.se().nw());
    let c3 = leaf_bit(t.se().ne());
    let d0 = leaf_bit(t.sw().sw());
    let d1 = leaf_bit(t.sw().se());
    let d2 = leaf_bit(t.se().sw());
    let d3 = leaf_bit(t.se().se());
    lemma_mask_layout(a0, a1, a2, a3, b0, b1, b2, b3, c0, c1, c2, c3, d0, d1, d2, d3);
    let m = level2_mask(t);
    assert(alive(g, 0, 0) == a0 && alive(g, 1, 0) == a1 && alive(g, 2, 0) == a2 && alive(g, 3, 0) == a3);
    assert(alive(g, 0, 1) == b0 && alive(g, 1, 1) == b1 && alive(g, 2, 1) == b2 && alive(g, 3, 1) == b3);
    assert(alive(g, 0, 2) == c0 && alive(g, 1, 2) == c1 && alive(g, 2, 2) == c2 && alive(g, 3, 2) == c3);
    assert(alive(g, 0, 3) == d0 && alive(g, 1, 3) == d1 && alive(g, 2, 3) == d2 && alive(g, 3, 3) == d3);
    assert(mask_neighbors(m >> 5) == neighbors(g, 1, 1));
    assert(mask_neighbors(m >> 4) == neighbors(g, 2, 1));
    assert(mask_neighbors(m >> 1) == neighbors(g, 1, 2));
    assert(mask_neighbors(m) == neighbors(g, 2, 2));
    assert(s.contains((1, 1)) == eval_spec(rule_s, rule_b, m >> 5));
    assert(s.contains((2, 1)) == eval_spec(rule_s, rule_b, m >> 4));
    assert(s.contains((1, 2)) == eval_spec(rule_s, rule_b, m >> 1));
    assert(s.contains((2, 2)) == eval_spec(rule_s, rule_b, m));
}

/// The low four bits of a level-1 mask put together from four cells.
proof fn lemma_pack_cells(e0: usize, e1: usize, e2: usize, e3: usize)
    by (bit_vector)
    requires
        e0 <= 1,
        e1 <= 1,
        e2 <= 1,
        e3 <= 1,
    ensures
        ({
            let m: usize = e0 | e1 << 1 | e2 << 2 | e3 << 3;
            &&& (m & 1 != 0) == (e0 == 1)
            &&& (m & 2 != 0) == (e1 == 1)
            &&& (m & 4 != 0) == (e2 == 1)
            &&& (m & 8 != 0) == (e3 == 1)
        }),
{
}

impl LifeUniverse {
    /// The population of a leaf: 1 for the live cell, 0 for the dead one.
    fn leaf_population(&self, id: usize) -> (r: u32)
        requires
            self.wf(),
            self.valid(id),
            self.tree(id).level() == 0,
        ensures
            r == leaf_bit(self.tree(id)),
            r <= 1,
    {
        let n = self.node(id);
        if n.population == 1 {
            1
        } else {
            0
        }
    }

    /// The next state of the cell at bit 5 of a neighbourhood mask, as 1 or
    /// 0: the live neighbours are counted over the bits of `0x757`, and bit
    /// number that count of the survival mask (if the cell lives) or of the
    /// birth mask (if it does not) is the result.
    pub fn eval_mask(&self, mask: u32) -> (r: usize)
        ensures
            r == (if eval_spec(self@.rule_s, self@.rule_b, mask) {
                1usize
            } else {
                0usize
            }),
    {
        let rule = if mask & 32 != 0 {
            self.get_rule_s()
        } else {
            self.get_rule_b()
        };
        assert((mask & 32 != 0) == ((mask >> 5) & 1 == 1)) by (bit_vector);
        assert(((mask >> 10) & 1) <= 1 && ((mask >> 9) & 1) <= 1 && ((mask >> 8) & 1) <= 1 && ((mask
            >> 6) & 1) <= 1 && ((mask >> 4) & 1) <= 1 && ((mask >> 2) & 1) <= 1 && ((mask >> 1) & 1)
            <= 1 && ((mask >> 0) & 1) <= 1) by (bit_vector);
        let count: u32 = ((mask >> 10) & 1) + ((mask >> 9) & 1) + ((mask >> 8) & 1) + ((mask >> 6)
            & 1) + ((mask >> 4) & 1) + ((mask >> 2) & 1) + ((mask >> 1) & 1) + ((mask >> 0) & 1);
        let shift: usize = count as usize;
        assert(((rule >> shift) & 1) == 0 || ((rule >> shift) & 1) == 1) by (bit_vector);
        (rule >> shift) & 1
    }

    /// The centre of a level-2 node one generation on, by the leaf kernel.
    pub fn node_level2_next(&mut self, node: usize) -> (r: usize)
        requires
            old(self).wf(),
            old(self).valid(node),
            old(self).tree(node).level() == 2,
        ensures
            final(self).wf(),
            final(self).extends(old(self)),
            final(self).valid(r),
            final(self).tree(r) == level2_next(old(self).tree(node), old(self)@.rule_s, old(self)@.rule_b),
            final(self).tree(r) == old(self).tree(node).successor(
                old(self)@.rule_s,
                old(self)@.rule_b,
                1,
            ),
            final(self).keeps_records(old(self)),
            final(self).tables() == old(self).tables(),
    {
        let n = *self.node(node);
        let nw = *self.node(n.nw);
        let ne = *self.node(n.ne);
        let sw = *self.node(n.sw);
        let se = *self.node(n.se);
        let a0 = self.leaf_population(nw.nw);
        let a1 = self.leaf_population(nw.ne);
        let a2 = self.leaf_population(ne.nw);
        let a3 = self.leaf_population(ne.ne);
        let b0 = self.leaf_population(nw.sw);
        let b1 = self.leaf_population(nw.se);
        let b2 = self.leaf_population(ne.sw);
        let b3 = self.leaf_population(ne.se);
        let c0 = self.leaf_population(sw.nw);
        let c1 = self.leaf_population(sw.ne);
        let c2 = self.leaf_population(se.nw);
        let c3 = self.leaf_population(se.ne);
        let d0 = self.leaf_population(sw.sw);
        let d1 = self.leaf_population(sw.se);
        let d2 = self.leaf_population(se.sw);
        let d3 = self.leaf_population(se.se);
        let bitmask: u32 = a0 << 15 | a1 << 14 | a2 << 13 | a3 << 12 | b0 << 11 | b1 << 10 | b2 << 9
            | b3 << 8 | c0 << 7 | c1 << 6 | c2 << 5 | c3 << 4 | d0 << 3 | d1 << 2 | d2 << 1 | d3;
        let e0 = self.eval_mask(bitmask >> 5);
        let e1 = self.eval_mask(bitmask >> 4);
        let e2 = self.eval_mask(bitmask >> 1);
        let e3 = self.eval_mask(bitmask);
        proof {
            lemma_pack_cells(e0, e1, e2, e3);
            lemma_level2_next(self.tree(node), self@.rule_s, self@.rule_b);
        }
        self.level1_create(e0 | e1 << 1 | e2 << 2 | e3 << 3)
    }

    /// The centre of a node of level 2 or more, advanced by a quarter of the
    /// node's side: the furthest that the node alone determines. A node of
    /// level 2 goes to the leaf kernel; a larger one takes the successors of
    /// its nine overlapping half-size squares, puts them together four by
    /// four, and takes the successors of those. The result is kept in the
    /// node's quick cache slot.
    pub fn node_quick_next_generation(&mut self, node: usize) -> (r: usize)
        requires
            old(self).wf(),
            old(self).valid(node),
            old(self).tree(node).level() >= 2,
        ensures
            final(self).wf(),
            final(self).extends(old(self)),
            final(self).valid(r),
            final(self).tree(r) == old(self).tree(node).successor(
                old(self)@.rule_s,
                old(self)@.rule_b,
                pow2((old(self).tree(node).level() - 2) as nat),
            ),
            final(self).record(node).quick_cache == Some(r),
            final(self).fills_quick_caches(old(self)),
            final(self).tables() == old(self).tables(),
        decreases old(self).tree(node).level(), 0nat,
    {
        let n = *self.node(node);
        if let Some(cached) = n.get_quick_cache() {
            return cached;
        }
        let ghost t = self.tree(node);
        let ghost rule_s = self@.rule_s;
        let ghost rule_b = self@.rule_b;
        if n.level == 2 {
            let new_node = self.node_level2_next(node);
            proof {
                lemma2_to64();
            }
            self.set_quick_cache(node, new_node);
            return new_node;
        }
        let ghost e: nat = pow2((t.level() - 3) as nat);
        proof {
            lemma_pow2_unfold((t.level() - 2) as nat);
        }
        let nw = *self.node(n.nw);
        let ne = *self.node(n.ne);
        let sw = *self.node(n.sw);
        let se = *self.node(n.se);
        let n00 = self.node_quick_next_generation(n.nw);
        let n01_tree = self.create_tree(nw.ne, ne.nw, nw.se, ne.sw);
        let n01 = self.node_quick_next_generation(n01_tree);
        let n02 = self.node_quick_next_generation(n.ne);
        let n10_tree = self.create_tree(nw.sw, nw.se, sw.nw, sw.ne);
        let n10 = self.node_quick_next_generation(n10_tree);
        let n11_tree = self.create_tree(nw.se, ne.sw, sw.ne, se.nw);
        let n11 = self.node_quick_next_generation(n11_tree);
        let n12_tree = self.create_tree(ne.sw, ne.se, se.nw, se.ne);
        let n12 = self.node_quick_next_generation(n12_tree);
        let n20 = self.node_quick_next_generation(n.sw);
        let n21_tree = self.create_tree(sw.ne, se.nw, sw.se, se.sw);
        let n21 = self.node_quick_next_generation(n21_tree);
        let n22 = self.node_quick_next_generation(n.se);
        proof {
            assert(self.tree(n00) == t.nw().successor(rule_s, rule_b, e));
            assert(self.tree(n01) == t.north().successor(rule_s, rule_b, e));
            assert(self.tree(n02) == t.ne().successor(rule_s, rule_b, e));
            assert(self.tree(n10) == t.west().successor(rule_s, rule_b, e));
            assert(self.tree(n11) == t.centre().successor(rule_s, rule_b, e));
            assert(self.tree(n12) == t.east().successor(rule_s, rule_b, e));
            assert(self.tree(n20) == t.sw().successor(rule_s, rule_b, e));
            assert(self.tree(n21) == t.south().successor(rule_s, rule_b, e));
            assert(self.tree(n22) == t.se().successor(rule_s, rule_b, e));
            successor_shape(t.nw(), rule_s, rule_b, e);
            successor_shape(t.north(), rule_s, rule_b, e);
            successor_shape(t.ne(), rule_s, rule_b, e);
            successor_shape(t.west(), rule_s, rule_b, e);
            successor_shape(t.centre(), rule_s, rule_b, e);
            successor_shape(t.east(), rule_s, rule_b, e);
            successor_shape(t.sw(), rule_s, rule_b, e);
            successor_shape(t.south(), rule_s, rule_b, e);
            successor_shape(t.se(), rule_s, rule_b, e);
        }
        let n00_n01_n10_n11 = self.create_tree(n00, n01, n10, n11);
        let n01_n02_n11_n12 = self.create_tree(n01, n02, n11, n12);
        let n10_n11_n20_n21 = self.create_tree(n10, n11, n20, n21);
        let n11_n12_n21_n22 = self.create_tree(n11, n12, n21, n22);
        let nw_tree = self.node_quick_next_generation(n00_n01_n10_n11);
        let ne_tree = self.node_quick_next_generation(n01_n02_n11_n12);
        let sw_tree = self.node_quick_next_generation(n10_n11_n20_n21);
        let se_tree = self.node_quick_next_generation(n11_n12_n21_n22);
        proof {
            let m00 = Tree::join(self.tree(n00), self.tree(n01), self.tree(n10), self.tree(n11));
            let m01 = Tree::join(self.tree(n01), self.tree(n02), self.tree(n11), self.tree(n12));
            let m10 = Tree::join(self.tree(n10), self.tree(n11), self.tree(n20), self.tree(n21));
            let m11 = Tree::join(self.tree(n11), self.tree(n12), self.tree(n21), self.tree(n22));
            successor_shape(m00, rule_s, rule_b, e);
            successor_shape(m01, rule_s, rule_b, e);
            successor_shape(m10, rule_s, rule_b, e);
            successor_shape(m11, rule_s, rule_b, e);
        }
        let new_node = self.create_tree(nw_tree, ne_tree, sw_tree, se_tree);
        proof {
            lemma_successor_two_rounds(t, rule_s, rule_b, e, e);
        }
        self.set_quick_cache(node, new_node);
        new_node
    }

    /// The four overlapping squares of three quarters of the side that are
    /// centred in a node of level 3 or more, shrunk to half the node's side
    /// by taking, with no time passed, the centre of each of the nine
    /// half-size squares they are made of.
    fn centred_quadrants(&mut self, node: usize) -> (r: (usize, usize, usize, usize))
        requires
            old(self).wf(),
            old(self).valid(node),
            old(self).tree(node).level() >= 3,
        ensures
            final(self).wf(),
            final(self).extends(old(self)),
            final(self).valid(r.0),
            final(self).valid(r.1),
            final(self).valid(r.2),
            final(self).valid(r.3),
            final(self).tree(r.0) == round_one(old(self).tree(node), old(self)@.rule_s, old(self)@.rule_b, 0, 0, 0),
            final(self).tree(r.1) == round_one(old(self).tree(node), old(self)@.rule_s, old(self)@.rule_b, 0, 0, 1),
            final(self).tree(r.2) == round_one(old(self).tree(node), old(self)@.rule_s, old(self)@.rule_b, 0, 1, 0),
            final(self).tree(r.3) == round_one(old(self).tree(node), old(self)@.rule_s, old(self)@.rule_b, 0, 1, 1),
            final(self).tree(r.0).level() == old(self).tree(node).level() - 1,
            final(self).tree(r.1).level() == old(self).tree(node).level() - 1,
            final(self).tree(r.2).level() == old(self).tree(node).level() - 1,
            final(self).tree(r.3).level() == old(self).tree(node).level() - 1,
            final(self).keeps_records(old(self)),
            final(self).tables() == old(self).tables(),
    {
        let ghost t = self.tree(node);
        let ghost rule_s = self@.rule_s;
        let ghost rule_b = self@.rule_b;
        let n = *self.node(node);
        let nw = *self.node(n.nw);
        let ne = *self.node(n.ne);
        let sw = *self.node(n.sw);
        let se = *self.node(n.se);
        let nw_nw = *self.node(nw.nw);
        let nw_ne = *self.node(nw.ne);
        let nw_sw = *self.node(nw.sw);
        let nw_se = *self.node(nw.se);
        let ne_nw = *self.node(ne.nw);
        let ne_ne = *self.node(ne.ne);
        let ne_sw = *self.node(ne.sw);
        let ne_se = *self.node(ne.se);
        let sw_nw = *self.node(sw.nw);
        let sw_ne = *self.node(sw.ne);
        let sw_sw = *self.node(sw.sw);
        let sw_se = *self.node(sw.se);
        let se_nw = *self.node(se.nw);
        let se_ne = *self.node(se.ne);
        let se_sw = *self.node(se.sw);
        let se_se = *self.node(se.se);
        let n00 = self.create_tree(nw_nw.se, nw_ne.sw, nw_sw.ne, nw_se.nw);
        let n01 = self.create_tree(nw_ne.se, ne_nw.sw, nw_se.ne, ne_sw.nw);
        let n02 = self.create_tree(ne_nw.se, ne_ne.sw, ne_sw.ne, ne_se.nw);
        let n10 = self.create_tree(nw_sw.se, nw_se.sw, sw_nw.ne, sw_ne.nw);
        let n11 = self.create_tree(nw_se.se, ne_sw.sw, sw_ne.ne, se_nw.nw);
        let n12 = self.create_tree(ne_sw.se, ne_se.sw, se_nw.ne, se_ne.nw);
        let n20 = self.create_tree(sw_nw.se, sw_ne.sw, sw_sw.ne, sw_se.nw);
        let n21 = self.create_tree(sw_ne.se, se_nw.sw, sw_se.ne, se_sw.nw);
        let n22 = self.create_tree(se_nw.se, se_ne.sw, se_sw.ne, se_se.nw);
        proof {
            lemma_successor_zero(t.nw(), rule_s, rule_b);
            lemma_successor_zero(t.north(), rule_s, rule_b);
            lemma_successor_zero(t.ne(), rule_s, rule_b);
            lemma_successor_zero(t.west(), rule_s, rule_b);
            lemma_successor_zero(t.centre(), rule_s, rule_b);
            lemma_successor_zero(t.east(), rule_s, rule_b);
            lemma_successor_zero(t.sw(), rule_s, rule_b);
            lemma_successor_zero(t.south(), rule_s, rule_b);
            lemma_successor_zero(t.se(), rule_s, rule_b);
            assert(self.tree(n00) == t.nw().successor(rule_s, rule_b, 0));
            assert(self.tree(n01) == t.north().successor(rule_s, rule_b, 0));
            assert(self.tree(n02) == t.ne().successor(rule_s, rule_b, 0));
            assert(self.tree(n10) == t.west().successor(rule_s, rule_b, 0));
            assert(self.tree(n11) == t.centre().successor(rule_s, rule_b, 0));
            assert(self.tree(n12) == t.east().successor(rule_s, rule_b, 0));
            assert(self.tree(n20) == t.sw().successor(rule_s, rule_b, 0));
            assert(self.tree(n21) == t.south().successor(rule_s, rule_b, 0));
            assert(self.tree(n22) == t.se().successor(rule_s, rule_b, 0));
        }
        proof {
            successor_shape(t.nw(), rule_s, rule_b, 0);
            successor_shape(t.north(), rule_s, rule_b, 0);
            successor_shape(t.ne(), rule_s, rule_b, 0);
            successor_shape(t.west(), rule_s, rule_b, 0);
            successor_shape(t.centre(), rule_s, rule_b, 0);
            successor_shape(t.east(), rule_s, rule_b, 0);
            successor_shape(t.sw(), rule_s, rule_b, 0);
            successor_shape(t.south(), rule_s, rule_b, 0);
            successor_shape(t.se(), rule_s, rule_b, 0);
        }
        let n00_n01_n10_n11 = self.create_tree(n00, n01, n10, n11);
        let n01_n02_n11_n12 = self.create_tree(n01, n02, n11, n12);
        let n10_n11_n20_n21 = self.create_tree(n10, n11, n20, n21);
        let n11_n12_n21_n22 = self.create_tree(n11, n12, n21, n22);
        (n00_n01_n10_n11, n01_n02_n11_n12, n10_n11_n20_n21, n11_n12_n21_n22)
    }

    /// The centre of a node of level 2 or more, advanced by the universe's
    /// step: by `2^step` generations where the node is large enough for
    /// that (`step + 2` is at most its level), and by one generation where
    /// it is not. Where the step is the node's own maximum this is the quick
    /// successor. Otherwise the centres of the nine overlapping half-size
    /// squares are put together four by four, with no time passed, and the
    /// stepped successors of those four are the quadrants of the result,
    /// which is kept in the node's stepped cache slot.
    pub fn node_next_generation(&mut self, node: usize) -> (r: usize)
        requires
            old(self).wf(),
            old(self).valid(node),
            old(self).tree(node).level() >= 2,
        ensures
            final(self).wf(),
            final(self).extends(old(self)),
            final(self).valid(r),
            final(self).tree(r) == old(self).tree(node).successor(
                old(self)@.rule_s,
                old(self)@.rule_b,
                step_gens(old(self).tree(node).level(), old(self)@.step as nat),
            ),
            final(self).record(node).cache == Some(r) || final(self).record(node).quick_cache == Some(
                r,
            ),
            final(self).fills_caches(old(self)),
            final(self).tables() == old(self).tables(),
        decreases old(self).tree(node).level(), 1nat,
    {
        let n = *self.node(node);
        if let Some(cached) = n.get_cache() {
            return cached;
        }
        let step = self.get_step();
        if step == n.level - 2 {
            return self.node_quick_next_generation(node);
        }
        let ghost t = self.tree(node);
        let ghost rule_s = self@.rule_s;
        let ghost rule_b = self@.rule_b;
        if n.level == 2 {
            proof {
                lemma2_to64();
            }
            if let Some(cached) = n.get_quick_cache() {
                return cached;
            } else {
                let new_node = self.node_level2_next(node);
                self.set_quick_cache(node, new_node);
                return new_node;
            }
        }
        let ghost gens: nat = step_gens(t.level(), step as nat);
        proof {
            lemma_pow2_pos((t.level() - 3) as nat);
            if step + 2 <= t.level() && step < t.level() - 3 {
                lemma_pow2_strictly_increases(step as nat, (t.level() - 3) as nat);
            }
            assert(gens <= pow2((t.level() - 3) as nat));
            assert(gens == step_gens((t.level() - 1) as nat, step as nat));
        }
        let (n00_n01_n10_n11, n01_n02_n11_n12, n10_n11_n20_n21, n11_n12_n21_n22) =
            self.centred_quadrants(node);
        let nw_tree = self.node_next_generation(n00_n01_n10_n11);
        let ne_tree = self.node_next_generation(n01_n02_n11_n12);
        let sw_tree = self.node_next_generation(n10_n11_n20_n21);
        let se_tree = self.node_next_generation(n11_n12_n21_n22);
        proof {
            successor_shape(round_one(t, rule_s, rule_b, 0, 0, 0), rule_s, rule_b, gens);
            successor_shape(round_one(t, rule_s, rule_b, 0, 0, 1), rule_s, rule_b, gens);
            successor_shape(round_one(t, rule_s, rule_b, 0, 1, 0), rule_s, rule_b, gens);
            successor_shape(round_one(t, rule_s, rule_b, 0, 1, 1), rule_s, rule_b, gens);
        }
        let new_node = self.create_tree(nw_tree, ne_tree, sw_tree, se_tree);
        proof {
            lemma_successor_two_rounds(t, rule_s, rule_b, 0, gens);
        }
        self.set_cache(node, new_node);
        new_node
    }
}

/// A successor is a balanced tree one level below the tree it is taken of.
pub proof fn successor_shape(t: Tree, rule_s: usize, rule_b: usize, gens: nat)
    requires
        t.level() >= 2,
    ensures
        t.successor(rule_s, rule_b, gens).balanced(),
        t.successor(rule_s, rule_b, gens).level() == t.level() - 1,
{
    let q = pow2((t.level() - 2) as nat) as int;
    crate::tree::lemma_window_shape(
        crate::grid::evolve(t.cells_at(0, 0), rule_s, rule_b, gens),
        (t.level() - 1) as nat,
        q,
        q,
    );
}

} // verus!

//! What holds of the universe as a whole: what a tick does to the cells, how
//! reading and writing a cell go together, and that neither collecting
//! garbage nor a change of rules leaves a trace in what comes after.

use crate::advance::{border_dead, grown, needs_room};
use crate::cells::{fits, framed_to_fit, lemma_framed_to_fit};
use crate::engine::successor_shape;
use crate::grid::{
    clipped, evolve, lemma_evolve_adds, lemma_evolve_local, lemma_evolve_spread, rule_bit, within, Grid,
};
use crate::tree::{
    lemma_empty_cell, lemma_framed_cells, lemma_framed_shape, lemma_unpopulated_is_empty,
    lemma_window_cell, lemma_with_cell, lemma_with_cell_cells, Tree,
};
use crate::universe::{LifeUniverse, UniverseView, MAX_LEVEL};
use vstd::arithmetic::power2::{lemma_pow2_pos, lemma_pow2_strictly_increases, lemma_pow2_unfold, pow2};
use vstd::prelude::*;

verus! {

impl UniverseView {
    /// What every view of a universe is: the root, and the saved root if
    /// there is one, are balanced trees of a level from 1 up to the highest,
    /// and the generation counter is one that 128 bits hold.
    pub open spec fn wf(self) -> bool {
        &&& self.generation <= u128::MAX
        &&& self.root.balanced()
        &&& 1 <= self.root.level() <= MAX_LEVEL
        &&& match self.rewind {
            Some(t) => t.balanced() && 1 <= t.level() <= MAX_LEVEL,
            None => true,
        }
    }
}

/// The view of a universe is a view as every universe has it.
pub proof fn lemma_view_wf(u: &LifeUniverse)
    requires
        u.wf(),
    ensures
        u@.wf(),
{
    u.lemma_root();
    match u.rewind_id() {
        Some(r) => {
            u.lemma_record(r);
        },
        None => {},
    }
}

/// A dead tree has no live cell.
pub proof fn lemma_dead_tree(t: Tree, x: int, y: int)
    requires
        t.balanced(),
        t.population() == 0,
    ensures
        !t.cell(x, y),
{
    lemma_unpopulated_is_empty(t);
    lemma_empty_cell(t.level(), x, y);
}

/// Where a quadrant holds the whole population of a tree, every live cell
/// of the tree is a cell of that quadrant. The quadrants are numbered 0 for
/// north-west, 1 for north-east, 2 for south-west and 3 for south-east.
pub proof fn lemma_rest_dead(t: Tree, which: int, x: int, y: int)
    requires
        t.balanced(),
        t.level() >= 1,
        0 <= which < 4,
        t.population() == (if which == 0 {
            t.nw()
        } else if which == 1 {
            t.ne()
        } else if which == 2 {
            t.sw()
        } else {
            t.se()
        }).population(),
        t.cell(x, y),
    ensures
        ({
            let h = pow2((t.level() - 1) as nat) as int;
            &&& (which == 0 || which == 2) == (x < h)
            &&& (which == 0 || which == 1) == (y < h)
            &&& (if which == 0 {
                t.nw().cell(x, y)
            } else if which == 1 {
                t.ne().cell(x - h, y)
            } else if which == 2 {
                t.sw().cell(x, y - h)
            } else {
                t.se().cell(x - h, y - h)
            })
        }),
{
    let h = pow2((t.level() - 1) as nat) as int;
    if which != 0 {
        lemma_dead_tree(t.nw(), x, y);
    }
    if which != 1 {
        lemma_dead_tree(t.ne(), x - h, y);
    }
    if which != 2 {
        lemma_dead_tree(t.sw(), x, y - h);
    }
    if which != 3 {
        lemma_dead_tree(t.se(), x - h, y - h);
    }
}

/// A root with a dead border has all its live cells within an eighth of its
/// side of the origin.
pub proof fn lemma_border_dead(t: Tree)
    requires
        t.balanced(),
        t.level() >= 3,
        border_dead(t),
    ensures
        ({
            let h = pow2((t.level() - 1) as nat) as int;
            let e = pow2((t.level() - 3) as nat) as int;
            within(t.cells_at(-h, -h), -e, -e, e, e)
        }),
{
    let level = t.level();
    let h = pow2((level - 1) as nat) as int;
    let q = pow2((level - 2) as nat) as int;
    let e = pow2((level - 3) as nat) as int;
    lemma_pow2_unfold(level);
    lemma_pow2_unfold((level - 1) as nat);
    lemma_pow2_unfold((level - 2) as nat);
    let g = t.cells_at(-h, -h);
    reveal_with_fuel(Tree::balanced, 3);
    reveal_with_fuel(Tree::level, 3);
    assert forall|x: int, y: int| #[trigger] g.contains((x, y)) implies -e <= x < e && -e <= y
        < e by {
        let cx = x + h;
        let cy = y + h;
        assert(t.cell(cx, cy));
        if cy < h {
            if cx < h {
                let a = t.nw();
                assert(a.population() == a.se().population());
                lemma_rest_dead(a, 3, cx, cy);
                lemma_rest_dead(a.se(), 3, cx - q, cy - q);
            } else {
                let a = t.ne();
                assert(a.population() == a.sw().population());
                lemma_rest_dead(a, 2, cx - h, cy);
                lemma_rest_dead(a.sw(), 2, cx - h, cy - q);
            }
        } else {
            if cx < h {
                let a = t.sw();
                assert(a.population() == a.ne().population());
                lemma_rest_dead(a, 1, cx, cy - h);
                lemma_rest_dead(a.ne(), 1, cx - q, cy - h);
            } else {
                let a = t.se();
                assert(a.population() == a.nw().population());
                lemma_rest_dead(a, 0, cx - h, cy - h);
                lemma_rest_dead(a.nw(), 0, cx - h, cy - h);
            }
        }
    }
}

/// Time passes alike wherever a pattern lies: the successor of a tree shows,
/// around the origin, what the tree's cells around the origin have become,
/// as far as it reaches.
pub proof fn lemma_successor_cells(t: Tree, rule_s: usize, rule_b: usize, gens: nat)
    requires
        t.balanced(),
        t.level() >= 2,
    ensures
        ({
            let h = pow2((t.level() - 1) as nat) as int;
            let q = pow2((t.level() - 2) as nat) as int;
            t.successor(rule_s, rule_b, gens).cells_at(-q, -q) == clipped(
                evolve(t.cells_at(-h, -h), rule_s, rule_b, gens),
                q,
            )
        }),
{
    let level = t.level();
    let h = pow2((level - 1) as nat) as int;
    let q = pow2((level - 2) as nat) as int;
    lemma_pow2_unfold(level);
    lemma_pow2_unfold((level - 1) as nat);
    let own = t.cells_at(0, 0);
    let centred = t.cells_at(-h, -h);
    let later_own = evolve(own, rule_s, rule_b, gens);
    let later = evolve(centred, rule_s, rule_b, gens);
    let r = t.successor(rule_s, rule_b, gens);
    successor_shape(t, rule_s, rule_b, gens);
    let shown = r.cells_at(-q, -q);
    let wanted = clipped(later, q);
    assert forall|p: (int, int)| shown.contains(p) == wanted.contains(p) by {
        if -q <= p.0 < q && -q <= p.1 < q {
            lemma_window_cell(later_own, (level - 1) as nat, q, q, p.0 + q, p.1 + q);
            assert forall|x: int, y: int|
                p.0 - gens <= x < p.0 + gens + 1 && p.1 - gens <= y < p.1 + gens + 1 implies (
            own.contains((x + h, y + h)) == #[trigger] centred.contains((x, y))) by {}
            lemma_evolve_local(
                own,
                centred,
                rule_s,
                rule_b,
                gens,
                h,
                h,
                p.0 - gens,
                p.1 - gens,
                p.0 + gens + 1,
                p.1 + gens + 1,
            );
            assert(later.contains((p.0, p.1)) == later_own.contains((p.0 + h, p.1 + h)));
            assert((q + (p.0 + q), q + (p.1 + q)) == (p.0 + h, p.1 + h));
        }
    }
    assert(shown =~= wanted);
}

/// Making room for a tick changes nothing on the grid. It ends, unless it
/// runs into the depth limit, at a root of level 3 or more whose border is
/// dead and which, for a single step, is at least three levels above the
/// step; and it ends no more than two levels above the higher of the root
/// and what the step asks for.
pub proof fn lemma_grown(t: Tree, step: usize, is_single: bool)
    requires
        t.balanced(),
        1 <= t.level() <= MAX_LEVEL,
    ensures
        ({
            let g = grown(t, step, is_single, t.level());
            let h = pow2((t.level() - 1) as nat) as int;
            let gh = pow2((g.level() - 1) as nat) as int;
            &&& g.balanced()
            &&& t.level() <= g.level() <= MAX_LEVEL + 1
            &&& g.cells_at(-gh, -gh) == t.cells_at(-h, -h)
            &&& g.level() <= MAX_LEVEL ==> !needs_room(g, step, is_single)
        }),
    decreases MAX_LEVEL + 1 - t.level(),
{
    if needs_room(t, step, is_single) {
        lemma_framed_shape(t);
        lemma_framed_cells(t, 0, 0);
        lemma_pow2_unfold(t.level());
        if t.level() < MAX_LEVEL {
            lemma_grown(t.framed(), step, is_single);
        } else {
            assert(grown(t.framed(), step, is_single, t.level() + 1) == t.framed());
        }
    }
}

/// What a tick does to the cells: the pattern becomes what the automaton
/// makes of it in the tick's number of generations, as far as that lies
/// within the new root.
pub proof fn lemma_tick_cells(v: UniverseView, is_single: bool)
    requires
        v.wf(),
        v.tick_root(is_single).level() <= MAX_LEVEL,
    ensures
        v.tick(is_single).wf(),
        v.tick(is_single).level() == v.tick_root(is_single).level() - 1,
        v.tick(is_single).cells() == clipped(
            evolve(v.cells(), v.rule_s, v.rule_b, v.tick_gens()),
            v.tick(is_single).half(),
        ),
{
    let g = v.tick_root(is_single);
    lemma_grown(v.root, v.step, is_single);
    successor_shape(g, v.rule_s, v.rule_b, v.tick_gens());
    lemma_successor_cells(g, v.rule_s, v.rule_b, v.tick_gens());
}

/// As long as dead cells are not born without neighbours, and the root that
/// is advanced is more than two levels above the step, a tick loses
/// nothing: the pattern after it is the whole of what the automaton makes
/// of the pattern before it. A single step always has that room; without
/// the flag a root of exactly `step + 2` levels is advanced as it is, and
/// what grows beyond its centre in that time is cut off.
pub proof fn lemma_tick_whole(v: UniverseView, is_single: bool)
    requires
        v.wf(),
        v.tick_root(is_single).level() <= MAX_LEVEL,
        !rule_bit(v.rule_b, 0),
        is_single || v.tick_root(is_single).level() != v.step + 2,
    ensures
        v.tick(is_single).cells() == evolve(v.cells(), v.rule_s, v.rule_b, v.tick_gens()),
{
    let g = v.tick_root(is_single);
    let level = g.level();
    let gens = v.tick_gens();
    let later = evolve(v.cells(), v.rule_s, v.rule_b, gens);
    let e = pow2((level - 3) as nat) as int;
    let q = pow2((level - 2) as nat) as int;
    lemma_grown(v.root, v.step, is_single);
    lemma_tick_cells(v, is_single);
    lemma_border_dead(g);
    lemma_pow2_unfold((level - 2) as nat);
    lemma_pow2_pos((level - 3) as nat);
    if v.step + 2 <= level && v.step + 3 < level {
        lemma_pow2_strictly_increases(v.step as nat, (level - 3) as nat);
    }
    assert(gens <= e);
    lemma_evolve_spread(v.cells(), v.rule_s, v.rule_b, gens, -e, -e, e, e);
    assert forall|p: (int, int)| later.contains(p) implies -q <= p.0 < q && -q <= p.1 < q by {
        assert(later.contains((p.0, p.1)));
    }
    assert(clipped(later, q) =~= later);
}

/// A tick does not run into the depth limit as long as the root is two
/// levels, and the step three, below the highest level.
pub proof fn lemma_tick_room(v: UniverseView, is_single: bool)
    requires
        v.wf(),
        v.level() + 2 <= MAX_LEVEL,
        v.step + 3 <= MAX_LEVEL,
    ensures
        v.tick_root(is_single).level() <= MAX_LEVEL,
{
    lemma_grown_bound(v.root, v.step, is_single, 0, v.root, MAX_LEVEL as nat);
}

/// A root that was framed twice has a dead border.
pub proof fn lemma_framed_twice(t: Tree)
    requires
        t.balanced(),
        t.level() >= 1,
    ensures
        border_dead(t.framed().framed()),
{
    lemma_framed_shape(t);
    lemma_framed_shape(t.framed());
    crate::tree::lemma_empty_shape((t.level() - 1) as nat);
    crate::tree::lemma_empty_shape(t.level());
    reveal_with_fuel(Tree::population, 4);
}

/// Making room ends at or below any level `cap` that is at least 3, at
/// least two above the root less the frames it has already, and, for a
/// single step, at least three above the step. `frames` counts the frames
/// that the tree has around it already, and `inner` is what the outermost
/// of them was put around.
pub proof fn lemma_grown_bound(
    t: Tree,
    step: usize,
    is_single: bool,
    frames: nat,
    inner: Tree,
    cap: nat,
)
    requires
        t.balanced(),
        1 <= t.level() <= MAX_LEVEL,
        frames >= 1 ==> inner.balanced() && inner.level() >= 1 && t == inner.framed(),
        frames >= 2 ==> border_dead(t),
        3 <= cap <= MAX_LEVEL,
        t.level() <= cap,
        frames == 0 ==> t.level() + 2 <= cap,
        frames == 1 ==> t.level() + 1 <= cap,
        step + 2 <= cap,
        is_single ==> step + 3 <= cap,
    ensures
        grown(t, step, is_single, t.level()).level() <= cap,
    decreases MAX_LEVEL + 1 - t.level(),
{
    if needs_room(t, step, is_single) {
        lemma_framed_shape(t);
        if frames >= 1 {
            lemma_framed_twice(inner);
        }
        lemma_grown_bound(t.framed(), step, is_single, frames + 1, t, cap);
    }
}

/// Writing a cell and reading it: after a cell was made alive it is
/// alive, after it was made dead it is dead, and no other cell has changed.
pub proof fn lemma_write_then_read(v: UniverseView, x: int, y: int, living: bool)
    requires
        v.wf(),
        living ==> fits(x, y, MAX_LEVEL as nat),
    ensures
        v.with_cell(x, y, living).wf(),
        v.with_cell(x, y, living).cells().contains((x, y)) == living,
        v.with_cell(x, y, living).cells() == (if living {
            v.cells().insert((x, y))
        } else {
            v.cells().remove((x, y))
        }),
{
    if !living && !fits(x, y, v.level()) {
        lemma_pow2_unfold(v.level());
        assert(v.cells().remove((x, y)) =~= v.cells());
    } else {
        lemma_framed_to_fit(v.root, x, y);
        let t = framed_to_fit(v.root, x, y, v.level());
        if !living {
            assert(t == v.root);
        }
        let h = pow2((t.level() - 1) as nat) as int;
        lemma_pow2_unfold(t.level());
        lemma_with_cell(t, x + h, y + h, living, x + h, y + h);
        lemma_with_cell_cells(t, -h, -h, x + h, y + h, living);
    }
}

/// Making a cell dead that lies outside the root changes nothing.
pub proof fn lemma_dead_write_outside(v: UniverseView, x: int, y: int)
    requires
        !fits(x, y, v.level()),
    ensures
        v.with_cell(x, y, false) == v,
{
}

/// A change of rules leaves no trace of the old rules: a universe whose
/// rules were changed advances, tick after tick, as a universe does that has
/// had the new rules, the same pattern and the same step from the start.
pub proof fn lemma_rules_leave_no_trace(
    changed: UniverseView,
    fresh: UniverseView,
    s: usize,
    b: usize,
    is_single: bool,
    ticks: nat,
)
    requires
        fresh.root == changed.root,
        fresh.step == changed.step,
        fresh.rule_s == s,
        fresh.rule_b == b,
    ensures
        ({
            let after = ticked(UniverseView { rule_s: s, rule_b: b, ..changed }, is_single, ticks);
            let wanted = ticked(fresh, is_single, ticks);
            &&& after.root == wanted.root
            &&& after.cells() == wanted.cells()
            &&& after.step == wanted.step
            &&& after.rule_s == s && wanted.rule_s == s
            &&& after.rule_b == b && wanted.rule_b == b
        }),
    decreases ticks,
{
    if ticks > 0 {
        lemma_rules_leave_no_trace(changed, fresh, s, b, is_single, (ticks - 1) as nat);
    }
}

/// Collecting garbage leaves no trace: a universe in which garbage was
/// collected advances, tick after tick, to what it would have advanced to
/// without the collection, and its root and its saved root are the nodes
/// they were.
pub proof fn lemma_collection_leaves_no_trace(
    after: &LifeUniverse,
    before: &LifeUniverse,
    is_single: bool,
    ticks: nat,
)
    requires
        before.wf(),
        after.collected(before),
    ensures
        ticked(after@, is_single, ticks) == ticked(before@, is_single, ticks),
        after.root_id() == before.root_id(),
        after.rewind_id() == before.rewind_id(),
        after.tree(after.root_id()) == before.tree(before.root_id()),
{
    before.lemma_root();
    after.lemma_root();
}

/// The universe after a number of ticks, none of which ran into the depth
/// limit.
pub open spec fn ticked(v: UniverseView, is_single: bool, ticks: nat) -> UniverseView
    decreases ticks,
{
    if ticks == 0 {
        v
    } else {
        ticked(v, is_single, (ticks - 1) as nat).tick(is_single)
    }
}

/// Identity is meaning: two nodes of a universe that have the same level and
/// show the same cells are one node, however and whenever they were built.
pub proof fn lemma_same_cells_same_node(u: &LifeUniverse, a: usize, b: usize)
    requires
        u.wf(),
        u.valid(a),
        u.valid(b),
        u.tree(a).level() == u.tree(b).level(),
        forall|x: int, y: int|
            0 <= x < u.tree(a).side() && 0 <= y < u.tree(a).side() ==> u.tree(a).cell(x, y)
                == u.tree(b).cell(x, y),
    ensures
        a == b,
{
    u.lemma_record(a);
    u.lemma_record(b);
    crate::tree::lemma_tree_extensional(u.tree(a), u.tree(b));
    u.lemma_canonical(a, b);
}

/// Single steps add up: as long as dead cells are not born without
/// neighbours and no tick runs into the depth limit, the pattern after a
/// number of single-step ticks is what the automaton makes of the pattern
/// in that number of steps of `2^step` generations each, and the generation
/// counter, as far as it can count, says so.
pub proof fn lemma_trajectory(v: UniverseView, ticks: nat)
    requires
        v.wf(),
        !rule_bit(v.rule_b, 0),
        forall|k: nat| k < ticks ==> (#[trigger] ticked(v, true, k)).tick_root(true).level() <= MAX_LEVEL,
    ensures
        ticked(v, true, ticks).wf(),
        ticked(v, true, ticks).step == v.step,
        ticked(v, true, ticks).rule_s == v.rule_s,
        ticked(v, true, ticks).rule_b == v.rule_b,
        ticked(v, true, ticks).rewind == v.rewind,
        ticked(v, true, ticks).cells() == evolve(
            v.cells(),
            v.rule_s,
            v.rule_b,
            ticks * pow2(v.step as nat),
        ),
        ticked(v, true, ticks).generation == crate::powers::min_nat(
            v.generation + ticks * pow2(v.step as nat),
            u128::MAX as nat,
        ),
    decreases ticks,
{
    let gens = pow2(v.step as nat);
    if ticks > 0 {
        let done = (ticks - 1) as nat;
        let before = ticked(v, true, done);
        lemma_trajectory(v, done);
        assert(before.tick_root(true).level() <= MAX_LEVEL);
        lemma_tick_cells(before, true);
        lemma_tick_whole(before, true);
        lemma_evolve_adds(v.cells(), v.rule_s, v.rule_b, done * gens, gens);
        assert(done * gens + gens == ticks * gens) by (nonlinear_arith)
            requires
                done + 1 == ticks,
        ;
    } else {
        assert(ticks * gens == 0) by (nonlinear_arith)
            requires
                ticks == 0,
        ;
    }
}

/// Writing a cell and then writing back what was there gives the tree that
/// was there.
pub proof fn lemma_write_back(t: Tree, x: int, y: int, live: bool)
    requires
        t.balanced(),
        0 <= x < t.side(),
        0 <= y < t.side(),
    ensures
        t.with_cell(x, y, live).with_cell(x, y, t.cell(x, y)) == t,
{
    let a = t.with_cell(x, y, live);
    let b = a.with_cell(x, y, t.cell(x, y));
    lemma_with_cell(t, x, y, live, x, y);
    lemma_with_cell(a, x, y, t.cell(x, y), x, y);
    assert forall|u: int, v: int| 0 <= u < b.side() && 0 <= v < b.side() implies b.cell(u, v)
        == t.cell(u, v) by {
        lemma_with_cell(t, x, y, live, u, v);
        lemma_with_cell(a, x, y, t.cell(x, y), u, v);
    }
    crate::tree::lemma_tree_extensional(b, t);
}

/// Making a dead cell of the root alive and dead again gives the universe
/// that was there: the same root, and so, where no garbage was collected in
/// between, the same node.
pub proof fn lemma_set_then_clear(v: UniverseView, x: int, y: int)
    requires
        v.wf(),
        fits(x, y, v.level()),
        !v.cells().contains((x, y)),
    ensures
        v.with_cell(x, y, true).with_cell(x, y, false) == v,
{
    let h = v.half();
    lemma_pow2_unfold(v.level());
    lemma_with_cell(v.root, x + h, y + h, true, x + h, y + h);
    lemma_write_back(v.root, x + h, y + h, true);
}

/// The block: the four cells of the square whose corners are `(0, 0)` and
/// `(1, 1)`.
pub open spec fn block() -> Grid {
    Set::new(|p: (int, int)| 0 <= p.0 <= 1 && 0 <= p.1 <= 1)
}

/// Which neighbour counts keep a cell alive and which bring one to life
/// under the rule of a new universe.
proof fn lemma_conway_bits()
    by (bit_vector)
    ensures
        (12usize >> 3usize) & 1 == 1,
        (8usize >> 0usize) & 1 != 1,
        (8usize >> 1usize) & 1 != 1,
        (8usize >> 2usize) & 1 != 1,
{
}

/// The block is a still life under the rule of a new universe: however
/// many generations pass, it is the block.
pub proof fn lemma_block_is_still(n: nat)
    ensures
        evolve(block(), crate::universe::CONWAY_SURVIVE, crate::universe::CONWAY_BIRTH, n) == block(),
    decreases n,
{
    if n > 0 {
        lemma_block_is_still((n - 1) as nat);
        let b = block();
        let s = crate::grid::step(b, 12, 8);
        lemma_conway_bits();
        assert forall|p: (int, int)| s.contains(p) == b.contains(p) by {
            let (x, y) = p;
            let c = crate::grid::neighbors(b, x, y);
            if b.contains(p) {
                assert(c == 3);
            } else {
                assert(0 <= c <= 2);
            }
            assert(0int as usize == 0usize && 1int as usize == 1usize && 2int as usize == 2usize
                && 3int as usize == 3usize);
        }
        assert(s =~= b);
    }
}

/// A universe with the rule of a new universe that shows the block shows
/// the block after any number of single-step ticks, none of which ran into
/// the depth limit.
pub proof fn lemma_block_stays(v: UniverseView, ticks: nat)
    requires
        v.wf(),
        v.rule_s == crate::universe::CONWAY_SURVIVE,
        v.rule_b == crate::universe::CONWAY_BIRTH,
        v.cells() == block(),
        forall|k: nat| k < ticks ==> (#[trigger] ticked(v, true, k)).tick_root(true).level() <= MAX_LEVEL,
    ensures
        ticked(v, true, ticks).cells() == block(),
{
    lemma_conway_bits();
    lemma_trajectory(v, ticks);
    lemma_block_is_still(ticks * pow2(v.step as nat));
}

} // verus!

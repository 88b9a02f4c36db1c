//! Ticks: making room around the pattern, and advancing the root.

use crate::engine::successor_shape;
use crate::grid::{clipped, evolve};
use crate::powers::{min_nat, pow2_saturating};
use crate::tree::{lemma_framed_shape, Tree};
use crate::universe::{step_gens, LifeUniverse, UniverseView, MAX_LEVEL};
use vstd::arithmetic::power2::pow2;
use vstd::prelude::*;

verus! {

/// Why an operation could not be carried out.
#[derive(Clone, Copy, Debug, PartialEq, Eq, Structural)]
pub enum LifeError {
    /// The root would have to grow beyond the highest level.
    DepthLimit,
}

/// The outer three quarters of each quadrant of a tree of level 3 or more are
/// dead: each quadrant's population is that of its innermost sixteenth.
pub open spec fn border_dead(t: Tree) -> bool {
    &&& t.nw().population() == t.nw().se().se().population()
    &&& t.ne().population() == t.ne().sw().sw().population()
    &&& t.sw().population() == t.sw().ne().ne().population()
    &&& t.se().population() == t.se().nw().nw().population()
}

/// A root has to be framed before it can be advanced: it is below level 3,
/// or below level `step + 2`, which is the least that can be advanced by
/// `2^step` generations, or a single step was asked for and the level is
/// not above `step + 2`, or its border is not dead.
pub open spec fn needs_room(t: Tree, step: usize, is_single: bool) -> bool {
    t.level() < 3 || t.level() < step + 2 || (is_single && t.level() <= step + 2) || !border_dead(
        t,
    )
}

/// The tree framed until it needs no more room, or until it has outgrown the
/// highest level. `level` is the level of `t`.
pub open spec fn grown(t: Tree, step: usize, is_single: bool, level: nat) -> Tree
    decreases MAX_LEVEL + 1 - level,
{
    if level <= MAX_LEVEL && needs_room(t, step, is_single) {
        grown(t.framed(), step, is_single, level + 1)
    } else {
        t
    }
}

impl UniverseView {
    /// The root as it is advanced by a tick: framed until it has room.
    pub open spec fn tick_root(self, is_single: bool) -> Tree {
        grown(self.root, self.step, is_single, self.root.level())
    }

    /// The number of generations by which a tick changes the pattern:
    /// `2^step`, with or without the single-step flag, since the root is
    /// framed until it is large enough for that.
    pub open spec fn tick_gens(self) -> nat {
        pow2(self.step as nat)
    }

    /// The universe after a tick that did not run into the depth limit: the
    /// root is the successor of the framed root, and the generation counter
    /// has gone up by `2^step`, or as far as it can count.
    pub open spec fn tick(self, is_single: bool) -> UniverseView {
        UniverseView {
            root: self.tick_root(is_single).successor(
                self.rule_s,
                self.rule_b,
                self.tick_gens(),
            ),
            generation: min_nat(self.generation + pow2(self.step as nat), u128::MAX as nat),
            ..self
        }
    }
}

impl LifeUniverse {
    /// A node of the next level with `node` in its middle and dead cells
    /// around: each quadrant of `node` goes to the inner corner of the new
    /// quadrant on its side.
    pub fn expand_universe(&mut self, node: usize) -> (r: usize)
        requires
            old(self).wf(),
            old(self).valid(node),
            1 <= old(self).tree(node).level() < MAX_LEVEL,
        ensures
            final(self).wf(),
            final(self).extends(old(self)),
            final(self).valid(r),
            final(self).tree(r) == old(self).tree(node).framed(),
            final(self).keeps_records(old(self)),
    {
        let n = *self.node(node);
        let t = self.empty_tree(n.level - 1);
        proof {
            crate::tree::lemma_empty_shape((n.level - 1) as nat);
        }
        let nw = self.create_tree(t, t, t, n.nw);
        let ne = self.create_tree(t, t, n.ne, t);
        let sw = self.create_tree(t, n.sw, t, t);
        let se = self.create_tree(n.se, t, t, t);
        self.create_tree(nw, ne, sw, se)
    }

    /// Whether the root `node` has to be framed before a tick.
    fn needs_room(&self, node: usize, is_single: bool) -> (r: bool)
        requires
            self.wf(),
            self.valid(node),
        ensures
            r == needs_room(self.tree(node), self@.step, is_single),
    {
        let n = self.node(node);
        if n.level < 3 {
            return true;
        }
        if n.level - 2 < self.get_step() {
            return true;
        }
        if is_single && n.level - 2 <= self.get_step() {
            return true;
        }
        let nw = self.node(n.nw);
        let ne = self.node(n.ne);
        let sw = self.node(n.sw);
        let se = self.node(n.se);
        let nw_in = self.node(self.node(nw.se).se);
        let ne_in = self.node(self.node(ne.sw).sw);
        let sw_in = self.node(self.node(sw.ne).ne);
        let se_in = self.node(self.node(se.nw).nw);
        nw.population != nw_in.population || ne.population != ne_in.population || sw.population
            != sw_in.population || se.population != se_in.population
    }

    /// Advances the universe by one tick. The root is framed until its
    /// border is dead and its level is at least 3 (with `is_single`: at
    /// least `step + 3`, so that there is room for a whole step); then the
    /// stepped successor of that root becomes the new root, and the
    /// generation counter goes up by `2^step`.
    ///
    /// Where the root would have to grow beyond the highest level, nothing
    /// changes and the error says so.
    pub fn next_generation(&mut self, is_single: bool) -> (r: Result<(), LifeError>)
        requires
            old(self).wf(),
        ensures
            final(self).wf(),
            match r {
                Ok(()) => {
                    &&& old(self)@.tick_root(is_single).level() <= MAX_LEVEL
                    &&& final(self)@ == old(self)@.tick(is_single)
                    &&& final(self)@.cells() == clipped(
                        evolve(
                            old(self)@.cells(),
                            old(self)@.rule_s,
                            old(self)@.rule_b,
                            old(self)@.tick_gens(),
                        ),
                        final(self)@.half(),
                    )
                },
                Err(e) => old(self)@.tick_root(is_single).level() > MAX_LEVEL && final(self)@ == old(
                    self,
                )@,
            },
            final(self).rewind_id() == old(self).rewind_id(),
            final(self).keeps_rooted(old(self)),
            r.is_err() ==> final(self).root_id() == old(self).root_id(),
            old(self).node_count() < old(self).high_water_mark() ==> {
                &&& final(self).grows(old(self))
                &&& final(self).fills_caches(old(self))
                &&& final(self).rewind_id() == old(self).rewind_id()
                &&& final(self).high_water_mark() == old(self).high_water_mark()
                &&& r.is_err() ==> final(self).root_id() == old(self).root_id()
            },
    {
        self.collect_if_full();
        let ghost entry = *self;
        let mut root = self.root();
        proof {
            self.lemma_root();
        }
        loop
            invariant
                self.wf(),
                entry@ == old(self)@,
                old(self).node_count() < old(self).high_water_mark() ==> entry.extends(old(self))
                    && entry.keeps_records(old(self)),
                entry.root_id() == old(self).root_id(),
                entry.rewind_id() == old(self).rewind_id(),
                entry.keeps_rooted(old(self)),
                self.extends(&entry),
                self.keeps_records(&entry),
                self.valid(root),
                1 <= self.tree(root).level() <= MAX_LEVEL,
                self.tree(root).balanced(),
                grown(self.tree(root), self@.step, is_single, self.tree(root).level()) == old(
                    self,
                )@.tick_root(is_single),
            ensures
                self.wf(),
                entry@ == old(self)@,
                self.extends(&entry),
                self.keeps_records(&entry),
                self.valid(root),
                3 <= self.tree(root).level() <= MAX_LEVEL,
                self.tree(root).balanced(),
                self.tree(root) == old(self)@.tick_root(is_single),
                self.tree(root).level() >= self@.step + 2,
            decreases MAX_LEVEL - self.tree(root).level(),
        {
            if !self.needs_room(root, is_single) {
                break ;
            }
            let level = self.node(root).level;
            proof {
                lemma_framed_shape(self.tree(root));
            }
            if level == MAX_LEVEL {
                proof {
                    let t = self.tree(root);
                    assert(grown(t.framed(), self@.step, is_single, (level + 1) as nat) == t.framed());
                    assert(grown(t, self@.step, is_single, level as nat) == t.framed());
                }
                return Err(LifeError::DepthLimit);
            }
            root = self.expand_universe(root);
        }
        let ghost before = self.tree(root);
        let step = self.get_step();
        let generation = self.get_generation();
        let gain = pow2_saturating(step);
        let next = if generation > u128::MAX - gain {
            u128::MAX
        } else {
            generation + gain
        };
        self.set_generation(next);
        let new_root = self.node_next_generation(root);
        proof {
            successor_shape(before, self@.rule_s, self@.rule_b, step_gens(before.level(), step as nat));
        }
        self.set_root(new_root);
        proof {
            crate::laws::lemma_view_wf(old(self));
            crate::laws::lemma_tick_cells(old(self)@, is_single);
        }
        Ok(())
    }
}

} // verus!

//! Single cells: reading one, and writing one.

use crate::advance::LifeError;
use crate::powers::{half_side, pow2_u64};
use crate::tree::{
    lemma_empty_cell, lemma_framed_cells, lemma_framed_shape, lemma_unpopulated_is_empty,
    lemma_with_cell, lemma_with_cell_cells, Tree,
};
use crate::universe::{LifeUniverse, UniverseView, FALSE_LEAF, MAX_LEVEL, TRUE_LEAF};
use vstd::arithmetic::power2::{lemma_pow2_strictly_increases, lemma_pow2_unfold, pow2};
use vstd::prelude::*;

verus! {

/// The cell `(x, y)` lies in the square that a root of the given level
/// spans: from `-2^(level-1)` up to, but not including, `2^(level-1)` on
/// both axes.
pub open spec fn fits(x: int, y: int, level: nat) -> bool {
    let h = pow2((level - 1) as nat) as int;
    -h <= x < h && -h <= y < h
}

/// The tree framed until the cell `(x, y)` fits, or until it has outgrown
/// the highest level. `level` is the level of `t`.
pub open spec fn framed_to_fit(t: Tree, x: int, y: int, level: nat) -> Tree
    decreases MAX_LEVEL + 1 - level,
{
    if level <= MAX_LEVEL && !fits(x, y, level) {
        framed_to_fit(t.framed(), x, y, level + 1)
    } else {
        t
    }
}

impl UniverseView {
    /// The universe with the cell `(x, y)` set to `living`, for a cell that
    /// fits the highest level. A dead cell outside the root changes nothing;
    /// for a live one the root is framed until the cell fits.
    pub open spec fn with_cell(self, x: int, y: int, living: bool) -> UniverseView {
        if !living && !fits(x, y, self.level()) {
            self
        } else {
            let t = framed_to_fit(self.root, x, y, self.level());
            let h = pow2((t.level() - 1) as nat) as int;
            UniverseView { root: t.with_cell(x + h, y + h, living), ..self }
        }
    }
}

/// What fits a level fits every higher level.
pub proof fn lemma_fits_grows(x: int, y: int, level: nat, higher: nat)
    requires
        1 <= level <= higher,
        fits(x, y, level),
    ensures
        fits(x, y, higher),
{
    if level < higher {
        lemma_pow2_strictly_increases((level - 1) as nat, (higher - 1) as nat);
    }
}

/// Framing until a cell fits leaves the grid as it is, and ends at a level
/// that the cell fits unless it does not fit the highest.
pub proof fn lemma_framed_to_fit(t: Tree, x: int, y: int)
    requires
        t.balanced(),
        1 <= t.level() <= MAX_LEVEL,
    ensures
        ({
            let f = framed_to_fit(t, x, y, t.level());
            let h = pow2((t.level() - 1) as nat) as int;
            let fh = pow2((f.level() - 1) as nat) as int;
            &&& f.balanced()
            &&& f.level() >= t.level()
            &&& f.cells_at(-fh, -fh) == t.cells_at(-h, -h)
            &&& (f.level() <= MAX_LEVEL) == fits(x, y, MAX_LEVEL as nat)
            &&& f.level() <= MAX_LEVEL ==> fits(x, y, f.level())
            &&& f.level() <= MAX_LEVEL + 1
        }),
    decreases MAX_LEVEL + 1 - t.level(),
{
    if !fits(x, y, t.level()) {
        lemma_framed_shape(t);
        lemma_framed_cells(t, 0, 0);
        lemma_pow2_unfold(t.level());
        if t.level() < MAX_LEVEL {
            lemma_framed_to_fit(t.framed(), x, y);
        } else {
            assert(framed_to_fit(t.framed(), x, y, t.level() + 1) == t.framed());
        }
    } else {
        lemma_fits_grows(x, y, t.level(), MAX_LEVEL as nat);
    }
}

impl LifeUniverse {
    /// The cell in column `x` and row `y` of a node, counted from its top
    /// left corner. Subtrees without live cells are not entered.
    pub fn node_get_bit(&self, node: usize, x: u64, y: u64) -> (r: bool)
        requires
            self.wf(),
            self.valid(node),
            x < self.tree(node).side(),
            y < self.tree(node).side(),
        ensures
            r == self.tree(node).cell(x as int, y as int),
        decreases self.tree(node).level(),
    {
        let n = self.node(node);
        if n.population == 0 {
            proof {
                lemma_unpopulated_is_empty(self.tree(node));
                lemma_empty_cell(self.tree(node).level(), x as int, y as int);
            }
            return false;
        }
        if n.level == 0 {
            return true;
        }
        let h = pow2_u64(n.level - 1);
        proof {
            lemma_pow2_unfold(n.level as nat);
        }
        if y < h {
            if x < h {
                self.node_get_bit(n.nw, x, y)
            } else {
                self.node_get_bit(n.ne, x - h, y)
            }
        } else {
            if x < h {
                self.node_get_bit(n.sw, x, y - h)
            } else {
                self.node_get_bit(n.se, x - h, y - h)
            }
        }
    }

    /// The node that differs from `node` in the cell in column `x` and row
    /// `y` at most, which it shows as `living`: the leaf is replaced, and
    /// every node on the way to it is interned anew.
    pub fn node_set_bit(&mut self, node: usize, x: u64, y: u64, living: bool) -> (r: usize)
        requires
            old(self).wf(),
            old(self).valid(node),
            x < old(self).tree(node).side(),
            y < old(self).tree(node).side(),
        ensures
            final(self).wf(),
            final(self).extends(old(self)),
            final(self).valid(r),
            final(self).tree(r) == old(self).tree(node).with_cell(x as int, y as int, living),
            final(self).keeps_records(old(self)),
            final(self).tables() == old(self).tables(),
            old(self).node_count() <= final(self).node_count() <= old(self).node_count() + old(
                self,
            ).tree(node).level(),
        decreases old(self).tree(node).level(),
    {
        let n = *self.node(node);
        if n.level == 0 {
            proof {
                self.lemma_leaves();
            }
            return if living {
                TRUE_LEAF
            } else {
                FALSE_LEAF
            };
        }
        let h = pow2_u64(n.level - 1);
        let ghost t = self.tree(node);
        proof {
            lemma_pow2_unfold(n.level as nat);
        }
        if y < h {
            if x < h {
                proof {
                    lemma_with_cell(t.nw(), x as int, y as int, living, x as int, y as int);
                }
                let changed = self.node_set_bit(n.nw, x, y, living);
                self.create_tree(changed, n.ne, n.sw, n.se)
            } else {
                proof {
                    lemma_with_cell(t.ne(), x - h, y as int, living, x - h, y as int);
                }
                let changed = self.node_set_bit(n.ne, x - h, y, living);
                self.create_tree(n.nw, changed, n.sw, n.se)
            }
        } else {
            if x < h {
                proof {
                    lemma_with_cell(t.sw(), x as int, y - h, living, x as int, y - h);
                }
                let changed = self.node_set_bit(n.sw, x, y - h, living);
                self.create_tree(n.nw, n.ne, changed, n.se)
            } else {
                proof {
                    lemma_with_cell(t.se(), x - h, y - h, living, x - h, y - h);
                }
                let changed = self.node_set_bit(n.se, x - h, y - h, living);
                self.create_tree(n.nw, n.ne, n.sw, changed)
            }
        }
    }

    /// Whether the cell `(x, y)` lies in the square of a root of the given
    /// level.
    fn fits(x: i64, y: i64, level: usize) -> (r: bool)
        requires
            1 <= level <= MAX_LEVEL,
        ensures
            r == fits(x as int, y as int, level as nat),
    {
        let h: i64 = half_side(level);
        -h <= x && x < h && -h <= y && y < h
    }

    /// Whether the cell `(x, y)` is alive. Cells outside the root are dead.
    pub fn get_bit(&self, x: i64, y: i64) -> (r: bool)
        requires
            self.wf(),
        ensures
            r == self@.cells().contains((x as int, y as int)),
    {
        let root = self.root();
        let level = self.get_level();
        proof {
            lemma_pow2_unfold(level as nat);
        }
        if !Self::fits(x, y, level) {
            return false;
        }
        let h: i64 = half_side(level);
        self.node_get_bit(root, (x + h) as u64, (y + h) as u64)
    }

    /// Makes the cell `(x, y)` alive or dead. For a live cell outside the
    /// root, the root is framed until the cell fits; a dead cell outside the
    /// root is left alone.
    ///
    /// A live cell that does not fit a root of the highest level is
    /// refused, and nothing changes.
    pub fn set_bit(&mut self, x: i64, y: i64, living: bool) -> (r: Result<(), LifeError>)
        requires
            old(self).wf(),
        ensures
            final(self).wf(),
            match r {
                Ok(()) => {
                    &&& !living || fits(x as int, y as int, MAX_LEVEL as nat)
                    &&& final(self)@ == old(self)@.with_cell(x as int, y as int, living)
                    &&& final(self)@.cells() == (if living {
                        old(self)@.cells().insert((x as int, y as int))
                    } else {
                        old(self)@.cells().remove((x as int, y as int))
                    })
                },
                Err(e) => living && !fits(x as int, y as int, MAX_LEVEL as nat) && final(self)@ == old(
                    self,
                )@,
            },
            final(self).rewind_id() == old(self).rewind_id(),
            final(self).keeps_rooted(old(self)),
            r.is_err() ==> final(self).root_id() == old(self).root_id(),
            !living && !fits(x as int, y as int, old(self)@.level()) ==> final(self).root_id() == old(
                self,
            ).root_id(),
            old(self).node_count() < old(self).high_water_mark() ==> {
                &&& final(self).grows(old(self))
                &&& final(self).keeps_records(old(self))
                &&& final(self).rewind_id() == old(self).rewind_id()
                &&& final(self).high_water_mark() == old(self).high_water_mark()
                &&& r.is_err() ==> final(self).root_id() == old(self).root_id()
                &&& !living && !fits(x as int, y as int, old(self)@.level()) ==> final(self).root_id()
                    == old(self).root_id() && final(self).node_count() == old(self).node_count()
                &&& r.is_ok() && fits(x as int, y as int, old(self)@.level())
                    ==> final(self).node_count() <= old(self).node_count() + old(self)@.level()
            },
    {
        self.collect_if_full();
        let ghost entry = *self;
        let mut root = self.root();
        proof {
            self.lemma_root();
            lemma_framed_to_fit(self.tree(root), x as int, y as int);
        }
        let ghost start = self.tree(root);
        if living {
            loop
                invariant
                    living,
                    self.wf(),
                    entry.wf(),
                    entry@ == old(self)@,
                    old(self).node_count() < old(self).high_water_mark() ==> entry.extends(old(self))
                        && entry.keeps_records(old(self)) && entry.node_count() == old(
                        self,
                    ).node_count(),
                    entry.root_id() == old(self).root_id(),
                    entry.rewind_id() == old(self).rewind_id(),
                    entry.keeps_rooted(old(self)),
                    self.extends(&entry),
                    self.keeps_records(&entry),
                    fits(x as int, y as int, entry@.level()) ==> root == entry.root_id()
                        && self.node_count() == entry.node_count(),
                    self.valid(root),
                    1 <= self.tree(root).level() <= MAX_LEVEL,
                    self.tree(root).balanced(),
                    framed_to_fit(self.tree(root), x as int, y as int, self.tree(root).level())
                        == framed_to_fit(start, x as int, y as int, start.level()),
                ensures
                    self.wf(),
                    entry@ == old(self)@,
                    self.extends(&entry),
                    self.keeps_records(&entry),
                    fits(x as int, y as int, entry@.level()) ==> root == entry.root_id()
                        && self.node_count() == entry.node_count(),
                    self.valid(root),
                    1 <= self.tree(root).level() <= MAX_LEVEL,
                    self.tree(root).balanced(),
                    self.tree(root) == framed_to_fit(start, x as int, y as int, start.level()),
                    fits(x as int, y as int, self.tree(root).level()),
                decreases MAX_LEVEL - self.tree(root).level(),
            {
                let level = self.node(root).level;
                if Self::fits(x, y, level) {
                    break ;
                }
                proof {
                    lemma_framed_shape(self.tree(root));
                    entry.lemma_root();
                }
                if level == MAX_LEVEL {
                    return Err(LifeError::DepthLimit);
                }
                root = self.expand_universe(root);
            }
        } else {
            let level = self.node(root).level;
            if !Self::fits(x, y, level) {
                proof {
                    lemma_pow2_unfold(level as nat);
                    assert(old(self)@.cells().remove((x as int, y as int)) =~= old(self)@.cells());
                }
                return Ok(());
            }
        }
        let level = self.node(root).level;
        let h: i64 = half_side(level);
        let ghost t = self.tree(root);
        let new_root = self.node_set_bit(root, (x + h) as u64, (y + h) as u64, living);
        proof {
            lemma_with_cell(t, x + h, y + h, living, x + h, y + h);
            lemma_with_cell_cells(t, -(h as int), -(h as int), x + h, y + h, living);
        }
        self.set_root(new_root);
        Ok(())
    }
}

} // verus!

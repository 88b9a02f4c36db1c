//! Quadtrees as values: what a node of the universe stands for, and the
//! recurrences by which the successor of a tree is computed from the
//! successors of smaller trees.

use crate::grid::{agree, evolve, lemma_evolve_adds, lemma_evolve_local, Grid};
use vstd::arithmetic::power2::{lemma2_to64, lemma_pow2_pos, lemma_pow2_unfold, pow2};
use vstd::prelude::*;

verus! {

/// A square of cells, `2^level` on a side. A leaf is one cell; an inner tree
/// is cut into four quadrants of equal size.
pub enum Tree {
    Leaf(bool),
    Inner { nw: Box<Tree>, ne: Box<Tree>, sw: Box<Tree>, se: Box<Tree> },
}

impl Tree {
    /// The tree with the given quadrants.
    pub open spec fn join(nw: Tree, ne: Tree, sw: Tree, se: Tree) -> Tree {
        Tree::Inner { nw: Box::new(nw), ne: Box::new(ne), sw: Box::new(sw), se: Box::new(se) }
    }

    /// The north-west quadrant (of a leaf: the leaf).
    pub open spec fn nw(self) -> Tree {
        match self {
            Tree::Leaf(_) => self,
            Tree::Inner { nw, .. } => *nw,
        }
    }

    /// The north-east quadrant (of a leaf: the leaf).
    pub open spec fn ne(self) -> Tree {
        match self {
            Tree::Leaf(_) => self,
            Tree::Inner { ne, .. } => *ne,
        }
    }

    /// The south-west quadrant (of a leaf: the leaf).
    pub open spec fn sw(self) -> Tree {
        match self {
            Tree::Leaf(_) => self,
            Tree::Inner { sw, .. } => *sw,
        }
    }

    /// The south-east quadrant (of a leaf: the leaf).
    pub open spec fn se(self) -> Tree {
        match self {
            Tree::Leaf(_) => self,
            Tree::Inner { se, .. } => *se,
        }
    }

    /// The half-size square in the middle of the top edge.
    pub open spec fn north(self) -> Tree {
        Tree::join(self.nw().ne(), self.ne().nw(), self.nw().se(), self.ne().sw())
    }

    /// The half-size square in the middle of the left edge.
    pub open spec fn west(self) -> Tree {
        Tree::join(self.nw().sw(), self.nw().se(), self.sw().nw(), self.sw().ne())
    }

    /// The half-size square in the middle.
    pub open spec fn centre(self) -> Tree {
        Tree::join(self.nw().se(), self.ne().sw(), self.sw().ne(), self.se().nw())
    }

    /// The half-size square in the middle of the right edge.
    pub open spec fn east(self) -> Tree {
        Tree::join(self.ne().sw(), self.ne().se(), self.se().nw(), self.se().ne())
    }

    /// The half-size square in the middle of the bottom edge.
    pub open spec fn south(self) -> Tree {
        Tree::join(self.sw().ne(), self.se().nw(), self.sw().se(), self.se().sw())
    }

    /// The base-2 logarithm of the side length.
    pub open spec fn level(self) -> nat
        decreases self,
    {
        match self {
            Tree::Leaf(_) => 0,
            Tree::Inner { nw, .. } => nw.level() + 1,
        }
    }

    /// All four quadrants have the same level, all the way down.
    pub open spec fn balanced(self) -> bool
        decreases self,
    {
        match self {
            Tree::Leaf(_) => true,
            Tree::Inner { nw, ne, sw, se } => {
                &&& nw.balanced()
                &&& ne.balanced()
                &&& sw.balanced()
                &&& se.balanced()
                &&& ne.level() == nw.level()
                &&& sw.level() == nw.level()
                &&& se.level() == nw.level()
            },
        }
    }

    /// The number of live cells.
    pub open spec fn population(self) -> nat
        decreases self,
    {
        match self {
            Tree::Leaf(b) => if b {
                1
            } else {
                0
            },
            Tree::Inner { nw, ne, sw, se } => nw.population() + ne.population() + sw.population()
                + se.population(),
        }
    }

    /// The side length.
    pub open spec fn side(self) -> int {
        pow2(self.level()) as int
    }

    /// The cell in column `x` and row `y`, counted from the top left corner.
    pub open spec fn cell(self, x: int, y: int) -> bool
        decreases self,
    {
        match self {
            Tree::Leaf(b) => b,
            Tree::Inner { nw, ne, sw, se } => {
                let h = nw.side();
                if y < h {
                    if x < h {
                        nw.cell(x, y)
                    } else {
                        ne.cell(x - h, y)
                    }
                } else {
                    if x < h {
                        sw.cell(x, y - h)
                    } else {
                        se.cell(x - h, y - h)
                    }
                }
            },
        }
    }

    /// The grid that shows this tree with its top left corner at `(ox, oy)`
    /// and nothing else.
    pub open spec fn cells_at(self, ox: int, oy: int) -> Grid {
        Set::new(
            |p: (int, int)|
                0 <= p.0 - ox < self.side() && 0 <= p.1 - oy < self.side() && self.cell(
                    p.0 - ox,
                    p.1 - oy,
                ),
        )
    }

    /// The all-dead tree of a level.
    pub open spec fn empty(level: nat) -> Tree
        decreases level,
    {
        if level == 0 {
            Tree::Leaf(false)
        } else {
            let e = Tree::empty((level - 1) as nat);
            Tree::join(e, e, e, e)
        }
    }

    /// The tree that differs from this one in the cell `(x, y)` at most, which
    /// it shows as `live`.
    pub open spec fn with_cell(self, x: int, y: int, live: bool) -> Tree
        decreases self,
    {
        match self {
            Tree::Leaf(_) => Tree::Leaf(live),
            Tree::Inner { nw, ne, sw, se } => {
                let h = nw.side();
                if y < h {
                    if x < h {
                        Tree::join(nw.with_cell(x, y, live), *ne, *sw, *se)
                    } else {
                        Tree::join(*nw, ne.with_cell(x - h, y, live), *sw, *se)
                    }
                } else {
                    if x < h {
                        Tree::join(*nw, *ne, sw.with_cell(x, y - h, live), *se)
                    } else {
                        Tree::join(*nw, *ne, *sw, se.with_cell(x - h, y - h, live))
                    }
                }
            },
        }
    }

    /// This tree in the middle of an all-dead frame: a tree of the next
    /// level whose centre is this one.
    pub open spec fn framed(self) -> Tree
        recommends
            self.level() >= 1,
    {
        let e = Tree::empty((self.level() - 1) as nat);
        match self {
            Tree::Leaf(_) => self,
            Tree::Inner { nw, ne, sw, se } => Tree::join(
                Tree::join(e, e, e, *nw),
                Tree::join(e, e, *ne, e),
                Tree::join(e, *sw, e, e),
                Tree::join(*se, e, e, e),
            ),
        }
    }

    /// The successor computed in two rounds: first the successors, `first`
    /// generations on, of the nine overlapping half-size squares; then, of
    /// the four squares that these make up (`round_one`), the successors
    /// `second` generations on, which are the quadrants of the result.
    pub open spec fn two_rounds(self, rule_s: usize, rule_b: usize, first: nat, second: nat) -> Tree
        recommends
            self.level() >= 3,
    {
        Tree::join(
            round_one(self, rule_s, rule_b, first, 0, 0).successor(rule_s, rule_b, second),
            round_one(self, rule_s, rule_b, first, 0, 1).successor(rule_s, rule_b, second),
            round_one(self, rule_s, rule_b, first, 1, 0).successor(rule_s, rule_b, second),
            round_one(self, rule_s, rule_b, first, 1, 1).successor(rule_s, rule_b, second),
        )
    }

    /// The centre of this tree, half its size, as it is `gens` generations
    /// later when nothing lives outside the tree. For `gens` up to a quarter
    /// of the side nothing outside the tree can reach the centre in that
    /// time, so this is the centre's future on every grid that shows the
    /// tree (`lemma_successor_local`).
    pub open spec fn successor(self, rule_s: usize, rule_b: usize, gens: nat) -> Tree
        recommends
            self.level() >= 2,
    {
        let q = pow2((self.level() - 2) as nat) as int;
        window(evolve(self.cells_at(0, 0), rule_s, rule_b, gens), (self.level() - 1) as nat, q, q)
    }
}

/// One of the nine overlapping half-size squares of a tree, by row and
/// column, each 0, 1 or 2.
pub open spec fn overlap(t: Tree, row: int, col: int) -> Tree {
    if row == 0 {
        if col == 0 {
            t.nw()
        } else if col == 1 {
            t.north()
        } else {
            t.ne()
        }
    } else if row == 1 {
        if col == 0 {
            t.west()
        } else if col == 1 {
            t.centre()
        } else {
            t.east()
        }
    } else {
        if col == 0 {
            t.sw()
        } else if col == 1 {
            t.south()
        } else {
            t.se()
        }
    }
}

/// The square put together from the successors, `first` generations on, of
/// four of the nine overlapping half-size squares of `t`: those in rows `row`
/// and `row + 1` and columns `col` and `col + 1`.
pub open spec fn round_one(t: Tree, rule_s: usize, rule_b: usize, first: nat, row: int, col: int) -> Tree {
    Tree::join(
        overlap(t, row, col).successor(rule_s, rule_b, first),
        overlap(t, row, col + 1).successor(rule_s, rule_b, first),
        overlap(t, row + 1, col).successor(rule_s, rule_b, first),
        overlap(t, row + 1, col + 1).successor(rule_s, rule_b, first),
    )
}

/// The tree of the given level that a grid shows in the square whose top left
/// corner is `(ox, oy)`.
pub open spec fn window(g: Grid, level: nat, ox: int, oy: int) -> Tree
    decreases level,
{
    if level == 0 {
        Tree::Leaf(g.contains((ox, oy)))
    } else {
        let l = (level - 1) as nat;
        let h = pow2(l) as int;
        Tree::join(
            window(g, l, ox, oy),
            window(g, l, ox + h, oy),
            window(g, l, ox, oy + h),
            window(g, l, ox + h, oy + h),
        )
    }
}

/// A window is a balanced tree of the level asked for.
pub proof fn lemma_window_shape(g: Grid, level: nat, ox: int, oy: int)
    ensures
        window(g, level, ox, oy).balanced(),
        window(g, level, ox, oy).level() == level,
    decreases level,
{
    if level > 0 {
        let l = (level - 1) as nat;
        let h = pow2(l) as int;
        lemma_window_shape(g, l, ox, oy);
        lemma_window_shape(g, l, ox + h, oy);
        lemma_window_shape(g, l, ox, oy + h);
        lemma_window_shape(g, l, ox + h, oy + h);
    }
}

/// A window shows the grid's cells.
pub proof fn lemma_window_cell(g: Grid, level: nat, ox: int, oy: int, x: int, y: int)
    requires
        0 <= x < pow2(level),
        0 <= y < pow2(level),
    ensures
        window(g, level, ox, oy).cell(x, y) == g.contains((ox + x, oy + y)),
    decreases level,
{
    if level == 0 {
        lemma2_to64();
    } else {
        let l = (level - 1) as nat;
        let h = pow2(l) as int;
        lemma_pow2_unfold(level);
        lemma_window_shape(g, l, ox, oy);
        if y < h {
            if x < h {
                lemma_window_cell(g, l, ox, oy, x, y);
            } else {
                lemma_window_cell(g, l, ox + h, oy, x - h, y);
            }
        } else {
            if x < h {
                lemma_window_cell(g, l, ox, oy + h, x, y - h);
            } else {
                lemma_window_cell(g, l, ox + h, oy + h, x - h, y - h);
            }
        }
    }
}

/// Grids that agree on a square show the same window there; the squares may
/// lie in different places.
pub proof fn lemma_window_agree(a: Grid, b: Grid, level: nat, ax: int, ay: int, bx: int, by: int)
    requires
        agree(a, b, ax - bx, ay - by, bx, by, bx + pow2(level), by + pow2(level)),
    ensures
        window(a, level, ax, ay) == window(b, level, bx, by),
    decreases level,
{
    if level == 0 {
        lemma_pow2_pos(0);
        assert(a.contains((bx + (ax - bx), by + (ay - by))) == b.contains((bx, by)));
    } else {
        let l = (level - 1) as nat;
        let h = pow2(l) as int;
        lemma_pow2_unfold(level);
        lemma_pow2_pos(l);
        lemma_window_agree(a, b, l, ax, ay, bx, by);
        lemma_window_agree(a, b, l, ax + h, ay, bx + h, by);
        lemma_window_agree(a, b, l, ax, ay + h, bx, by + h);
        lemma_window_agree(a, b, l, ax + h, ay + h, bx + h, by + h);
    }
}

/// A balanced tree is the window onto its own cells.
pub proof fn lemma_window_of_cells(t: Tree, ox: int, oy: int)
    requires
        t.balanced(),
    ensures
        window(t.cells_at(ox, oy), t.level(), ox, oy) == t,
    decreases t,
{
    let g = t.cells_at(ox, oy);
    match t {
        Tree::Leaf(b) => {
            lemma_pow2_pos(0);
            assert(pow2(0) == 1) by {
                lemma2_to64();
            }
        },
        Tree::Inner { nw, ne, sw, se } => {
            let l = nw.level();
            let h = pow2(l) as int;
            lemma_pow2_unfold(t.level());
            lemma_pow2_pos(l);
            lemma_window_of_cells(*nw, ox, oy);
            lemma_window_of_cells(*ne, ox + h, oy);
            lemma_window_of_cells(*sw, ox, oy + h);
            lemma_window_of_cells(*se, ox + h, oy + h);
            lemma_window_agree(g, nw.cells_at(ox, oy), l, ox, oy, ox, oy);
            lemma_window_agree(g, ne.cells_at(ox + h, oy), l, ox + h, oy, ox + h, oy);
            lemma_window_agree(g, sw.cells_at(ox, oy + h), l, ox, oy + h, ox, oy + h);
            lemma_window_agree(g, se.cells_at(ox + h, oy + h), l, ox + h, oy + h, ox + h, oy + h);
        },
    }
}

/// Balanced trees of one level that show the same cells are the same tree.
pub proof fn lemma_tree_extensional(a: Tree, b: Tree)
    requires
        a.balanced(),
        b.balanced(),
        a.level() == b.level(),
        forall|x: int, y: int|
            0 <= x < a.side() && 0 <= y < a.side() ==> a.cell(x, y) == b.cell(x, y),
    ensures
        a == b,
{
    lemma_window_of_cells(a, 0, 0);
    lemma_window_of_cells(b, 0, 0);
    lemma_window_agree(a.cells_at(0, 0), b.cells_at(0, 0), a.level(), 0, 0, 0, 0);
}

/// On every grid that shows the tree `t` somewhere, the centre of that square
/// is, `gens` generations later, the successor of `t`, as long as `gens` is at
/// most a quarter of the side.
pub proof fn lemma_successor_local(
    g: Grid,
    t: Tree,
    ox: int,
    oy: int,
    rule_s: usize,
    rule_b: usize,
    gens: nat,
)
    requires
        t.balanced(),
        t.level() >= 2,
        gens <= pow2((t.level() - 2) as nat),
        window(g, t.level(), ox, oy) == t,
    ensures
        window(
            evolve(g, rule_s, rule_b, gens),
            (t.level() - 1) as nat,
            ox + pow2((t.level() - 2) as nat),
            oy + pow2((t.level() - 2) as nat),
        ) == t.successor(rule_s, rule_b, gens),
{
    let level = t.level();
    let q = pow2((level - 2) as nat) as int;
    let own = t.cells_at(0, 0);
    lemma_pow2_unfold(level);
    lemma_pow2_unfold((level - 1) as nat);
    lemma_pow2_pos((level - 2) as nat);
    assert forall|x: int, y: int| 0 <= x < 4 * q && 0 <= y < 4 * q implies (g.contains(
        (x + ox, y + oy),
    ) == #[trigger] own.contains((x, y))) by {
        lemma_window_cell(g, level, ox, oy, x, y);
    }
    lemma_evolve_local(g, own, rule_s, rule_b, gens, ox, oy, 0, 0, 4 * q, 4 * q);
    lemma_window_agree(
        evolve(g, rule_s, rule_b, gens),
        evolve(own, rule_s, rule_b, gens),
        (level - 1) as nat,
        ox + q,
        oy + q,
        q,
        q,
    );
}

/// A window of level 1 or more is made of the four windows of half its size.
pub proof fn lemma_window_split(g: Grid, level: nat, ox: int, oy: int)
    requires
        level >= 1,
    ensures
        window(g, level, ox, oy) == Tree::join(
            window(g, (level - 1) as nat, ox, oy),
            window(g, (level - 1) as nat, ox + pow2((level - 1) as nat), oy),
            window(g, (level - 1) as nat, ox, oy + pow2((level - 1) as nat)),
            window(g, (level - 1) as nat, ox + pow2((level - 1) as nat), oy + pow2((level - 1) as nat)),
        ),
{
}

/// The sixteen squares of a quarter of the side that make up a window of
/// level 2 or more: its quadrants' quadrants.
pub proof fn lemma_window_quarters(g: Grid, level: nat, ox: int, oy: int)
    requires
        level >= 2,
    ensures
        ({
            let t = window(g, level, ox, oy);
            let l = (level - 2) as nat;
            let q = pow2(l) as int;
            &&& t.nw().nw() == window(g, l, ox, oy)
            &&& t.nw().ne() == window(g, l, ox + q, oy)
            &&& t.ne().nw() == window(g, l, ox + 2 * q, oy)
            &&& t.ne().ne() == window(g, l, ox + 3 * q, oy)
            &&& t.nw().sw() == window(g, l, ox, oy + q)
            &&& t.nw().se() == window(g, l, ox + q, oy + q)
            &&& t.ne().sw() == window(g, l, ox + 2 * q, oy + q)
            &&& t.ne().se() == window(g, l, ox + 3 * q, oy + q)
            &&& t.sw().nw() == window(g, l, ox, oy + 2 * q)
            &&& t.sw().ne() == window(g, l, ox + q, oy + 2 * q)
            &&& t.se().nw() == window(g, l, ox + 2 * q, oy + 2 * q)
            &&& t.se().ne() == window(g, l, ox + 3 * q, oy + 2 * q)
            &&& t.sw().sw() == window(g, l, ox, oy + 3 * q)
            &&& t.sw().se() == window(g, l, ox + q, oy + 3 * q)
            &&& t.se().sw() == window(g, l, ox + 2 * q, oy + 3 * q)
            &&& t.se().se() == window(g, l, ox + 3 * q, oy + 3 * q)
        }),
{
    let l1 = (level - 1) as nat;
    let h = pow2(l1) as int;
    lemma_pow2_unfold(l1);
    lemma_window_split(g, level, ox, oy);
    lemma_window_split(g, l1, ox, oy);
    lemma_window_split(g, l1, ox + h, oy);
    lemma_window_split(g, l1, ox, oy + h);
    lemma_window_split(g, l1, ox + h, oy + h);
}

/// The nine overlapping half-size squares of a window of level 2 or more
/// are windows themselves.
pub proof fn lemma_window_overlaps(g: Grid, level: nat, ox: int, oy: int)
    requires
        level >= 2,
    ensures
        ({
            let t = window(g, level, ox, oy);
            let l = (level - 1) as nat;
            let q = pow2((level - 2) as nat) as int;
            &&& t.nw() == window(g, l, ox, oy)
            &&& t.north() == window(g, l, ox + q, oy)
            &&& t.ne() == window(g, l, ox + 2 * q, oy)
            &&& t.west() == window(g, l, ox, oy + q)
            &&& t.centre() == window(g, l, ox + q, oy + q)
            &&& t.east() == window(g, l, ox + 2 * q, oy + q)
            &&& t.sw() == window(g, l, ox, oy + 2 * q)
            &&& t.south() == window(g, l, ox + q, oy + 2 * q)
            &&& t.se() == window(g, l, ox + 2 * q, oy + 2 * q)
        }),
{
    let l = (level - 1) as nat;
    let q = pow2((level - 2) as nat) as int;
    lemma_pow2_unfold(l);
    lemma_window_quarters(g, level, ox, oy);
    lemma_window_split(g, level, ox, oy);
    lemma_window_split(g, l, ox + q, oy);
    lemma_window_split(g, l, ox, oy + q);
    lemma_window_split(g, l, ox + q, oy + q);
    lemma_window_split(g, l, ox + 2 * q, oy + q);
    lemma_window_split(g, l, ox + q, oy + 2 * q);
}

/// With no time passing, the successor of a tree is its centre.
pub proof fn lemma_successor_zero(t: Tree, rule_s: usize, rule_b: usize)
    requires
        t.balanced(),
        t.level() >= 2,
    ensures
        t.successor(rule_s, rule_b, 0) == t.centre(),
{
    lemma_window_of_cells(t, 0, 0);
    lemma_window_overlaps(t.cells_at(0, 0), t.level(), 0, 0);
}

/// The recurrence behind the engine: the successor of a tree of level 3 or
/// more, `first + second` generations on, can be computed in two rounds on
/// trees of the next lower level, as long as neither round is longer than an
/// eighth of the side.
pub proof fn lemma_successor_two_rounds(t: Tree, rule_s: usize, rule_b: usize, first: nat, second: nat)
    requires
        t.balanced(),
        t.level() >= 3,
        first <= pow2((t.level() - 3) as nat),
        second <= pow2((t.level() - 3) as nat),
    ensures
        t.successor(rule_s, rule_b, first + second) == t.two_rounds(rule_s, rule_b, first, second),
{
    let level = t.level();
    let l1 = (level - 1) as nat;
    let l2 = (level - 2) as nat;
    let e = pow2((level - 3) as nat) as int;
    let q = pow2(l2) as int;
    lemma_pow2_unfold(l2);
    lemma_pow2_unfold(l1);
    lemma_pow2_pos((level - 3) as nat);
    let g = t.cells_at(0, 0);
    let g1 = evolve(g, rule_s, rule_b, first);
    let g2 = evolve(g, rule_s, rule_b, first + second);
    lemma_evolve_adds(g, rule_s, rule_b, first, second);
    lemma_window_of_cells(t, 0, 0);
    lemma_window_overlaps(g, level, 0, 0);
    // the first round
    lemma_window_shape(g, l1, 0, 0);
    lemma_window_shape(g, l1, q, 0);
    lemma_window_shape(g, l1, 2 * q, 0);
    lemma_window_shape(g, l1, 0, q);
    lemma_window_shape(g, l1, q, q);
    lemma_window_shape(g, l1, 2 * q, q);
    lemma_window_shape(g, l1, 0, 2 * q);
    lemma_window_shape(g, l1, q, 2 * q);
    lemma_window_shape(g, l1, 2 * q, 2 * q);
    lemma_successor_local(g, t.nw(), 0, 0, rule_s, rule_b, first);
    lemma_successor_local(g, t.north(), q, 0, rule_s, rule_b, first);
    lemma_successor_local(g, t.ne(), 2 * q, 0, rule_s, rule_b, first);
    lemma_successor_local(g, t.west(), 0, q, rule_s, rule_b, first);
    lemma_successor_local(g, t.centre(), q, q, rule_s, rule_b, first);
    lemma_successor_local(g, t.east(), 2 * q, q, rule_s, rule_b, first);
    lemma_successor_local(g, t.sw(), 0, 2 * q, rule_s, rule_b, first);
    lemma_successor_local(g, t.south(), q, 2 * q, rule_s, rule_b, first);
    lemma_successor_local(g, t.se(), 2 * q, 2 * q, rule_s, rule_b, first);
    let r00 = t.nw().successor(rule_s, rule_b, first);
    let r01 = t.north().successor(rule_s, rule_b, first);
    let r02 = t.ne().successor(rule_s, rule_b, first);
    let r10 = t.west().successor(rule_s, rule_b, first);
    let r11 = t.centre().successor(rule_s, rule_b, first);
    let r12 = t.east().successor(rule_s, rule_b, first);
    let r20 = t.sw().successor(rule_s, rule_b, first);
    let r21 = t.south().successor(rule_s, rule_b, first);
    let r22 = t.se().successor(rule_s, rule_b, first);
    assert(r00 == window(g1, l2, e, e));
    assert(r01 == window(g1, l2, q + e, e));
    assert(r02 == window(g1, l2, 2 * q + e, e));
    assert(r10 == window(g1, l2, e, q + e));
    assert(r11 == window(g1, l2, q + e, q + e));
    assert(r12 == window(g1, l2, 2 * q + e, q + e));
    assert(r20 == window(g1, l2, e, 2 * q + e));
    assert(r21 == window(g1, l2, q + e, 2 * q + e));
    assert(r22 == window(g1, l2, 2 * q + e, 2 * q + e));
    // the second round
    let m00 = Tree::join(r00, r01, r10, r11);
    let m01 = Tree::join(r01, r02, r11, r12);
    let m10 = Tree::join(r10, r11, r20, r21);
    let m11 = Tree::join(r11, r12, r21, r22);
    lemma_window_split(g1, l1, e, e);
    lemma_window_split(g1, l1, q + e, e);
    lemma_window_split(g1, l1, e, q + e);
    lemma_window_split(g1, l1, q + e, q + e);
    assert(m00 == window(g1, l1, e, e));
    assert(m01 == window(g1, l1, q + e, e));
    assert(m10 == window(g1, l1, e, q + e));
    assert(m11 == window(g1, l1, q + e, q + e));
    lemma_window_shape(g1, l1, e, e);
    lemma_window_shape(g1, l1, q + e, e);
    lemma_window_shape(g1, l1, e, q + e);
    lemma_window_shape(g1, l1, q + e, q + e);
    lemma_successor_local(g1, m00, e, e, rule_s, rule_b, second);
    lemma_successor_local(g1, m01, q + e, e, rule_s, rule_b, second);
    lemma_successor_local(g1, m10, e, q + e, rule_s, rule_b, second);
    lemma_successor_local(g1, m11, q + e, q + e, rule_s, rule_b, second);
    assert(m00.successor(rule_s, rule_b, second) == window(g2, l2, q, q));
    assert(m01.successor(rule_s, rule_b, second) == window(g2, l2, 2 * q, q));
    assert(m10.successor(rule_s, rule_b, second) == window(g2, l2, q, 2 * q));
    assert(m11.successor(rule_s, rule_b, second) == window(g2, l2, 2 * q, 2 * q));
    lemma_window_split(g2, l1, q, q);
}

/// A balanced tree has at most as many live cells as it has cells.
pub proof fn lemma_population_bound(t: Tree)
    requires
        t.balanced(),
    ensures
        t.population() <= pow2(2 * t.level()),
    decreases t,
{
    match t {
        Tree::Leaf(_) => {
            lemma_pow2_pos(0);
        },
        Tree::Inner { nw, ne, sw, se } => {
            lemma_population_bound(*nw);
            lemma_population_bound(*ne);
            lemma_population_bound(*sw);
            lemma_population_bound(*se);
            lemma_pow2_unfold(2 * t.level());
            lemma_pow2_unfold((2 * t.level() - 1) as nat);
        },
    }
}

/// The all-dead tree is balanced, of the level asked for, and has no live
/// cell.
pub proof fn lemma_empty_shape(level: nat)
    ensures
        Tree::empty(level).balanced(),
        Tree::empty(level).level() == level,
        Tree::empty(level).population() == 0,
    decreases level,
{
    if level > 0 {
        lemma_empty_shape((level - 1) as nat);
    }
}

/// Every cell of the all-dead tree is dead.
pub proof fn lemma_empty_cell(level: nat, x: int, y: int)
    ensures
        !Tree::empty(level).cell(x, y),
    decreases level,
{
    if level > 0 {
        let l = (level - 1) as nat;
        let h = pow2(l) as int;
        lemma_empty_shape(l);
        lemma_empty_cell(l, x, y);
        lemma_empty_cell(l, x - h, y);
        lemma_empty_cell(l, x, y - h);
        lemma_empty_cell(l, x - h, y - h);
    }
}

/// A balanced tree without live cells is the all-dead tree of its level.
pub proof fn lemma_unpopulated_is_empty(t: Tree)
    requires
        t.balanced(),
        t.population() == 0,
    ensures
        t == Tree::empty(t.level()),
    decreases t,
{
    match t {
        Tree::Leaf(_) => {},
        Tree::Inner { nw, ne, sw, se } => {
            lemma_unpopulated_is_empty(*nw);
            lemma_unpopulated_is_empty(*ne);
            lemma_unpopulated_is_empty(*sw);
            lemma_unpopulated_is_empty(*se);
        },
    }
}

/// Framing a tree gives a balanced tree of the next level.
pub proof fn lemma_framed_shape(t: Tree)
    requires
        t.balanced(),
        t.level() >= 1,
    ensures
        t.framed().balanced(),
        t.framed().level() == t.level() + 1,
        t.framed().population() == t.population(),
{
    lemma_empty_shape((t.level() - 1) as nat);
    reveal_with_fuel(Tree::level, 3);
    reveal_with_fuel(Tree::balanced, 3);
    reveal_with_fuel(Tree::population, 3);
}

/// The cells of a framed tree: the tree's own in the middle, dead ones around.
pub proof fn lemma_framed_cell(t: Tree, x: int, y: int)
    requires
        t.balanced(),
        t.level() >= 1,
    ensures
        ({
            let h = pow2((t.level() - 1) as nat) as int;
            t.framed().cell(x, y) == (h <= x < 3 * h && h <= y < 3 * h && t.cell(x - h, y - h))
        }),
{
    let l = (t.level() - 1) as nat;
    let h = pow2(l) as int;
    lemma_pow2_unfold(t.level());
    lemma_pow2_pos(l);
    lemma_empty_shape(l);
    lemma_empty_cell(l, x, y);
    lemma_empty_cell(l, x - h, y);
    lemma_empty_cell(l, x - 2 * h, y);
    lemma_empty_cell(l, x - 3 * h, y);
    lemma_empty_cell(l, x, y - h);
    lemma_empty_cell(l, x - h, y - h);
    lemma_empty_cell(l, x - 2 * h, y - h);
    lemma_empty_cell(l, x - 3 * h, y - h);
    lemma_empty_cell(l, x, y - 2 * h);
    lemma_empty_cell(l, x - h, y - 2 * h);
    lemma_empty_cell(l, x - 2 * h, y - 2 * h);
    lemma_empty_cell(l, x - 3 * h, y - 2 * h);
    lemma_empty_cell(l, x, y - 3 * h);
    lemma_empty_cell(l, x - h, y - 3 * h);
    lemma_empty_cell(l, x - 2 * h, y - 3 * h);
    lemma_empty_cell(l, x - 3 * h, y - 3 * h);
    reveal_with_fuel(Tree::cell, 3);
    reveal_with_fuel(Tree::level, 3);
}

/// Framing a tree changes nothing on the grid, when the centre stays where
/// it is.
pub proof fn lemma_framed_cells(t: Tree, cx: int, cy: int)
    requires
        t.balanced(),
        t.level() >= 1,
    ensures
        ({
            let h = pow2((t.level() - 1) as nat) as int;
            t.framed().cells_at(cx - 2 * h, cy - 2 * h) == t.cells_at(cx - h, cy - h)
        }),
{
    let h = pow2((t.level() - 1) as nat) as int;
    let a = t.framed().cells_at(cx - 2 * h, cy - 2 * h);
    let b = t.cells_at(cx - h, cy - h);
    lemma_framed_shape(t);
    lemma_pow2_unfold(t.level());
    lemma_pow2_unfold(t.level() + 1);
    assert forall|p: (int, int)| a.contains(p) == b.contains(p) by {
        lemma_framed_cell(t, p.0 - (cx - 2 * h), p.1 - (cy - 2 * h));
    }
    assert(a =~= b);
}

/// Changing a cell of a balanced tree gives a balanced tree of the same
/// level that shows the new state in that cell and the old state in every
/// other.
pub proof fn lemma_with_cell(t: Tree, x: int, y: int, live: bool, u: int, v: int)
    requires
        t.balanced(),
        0 <= x < t.side(),
        0 <= y < t.side(),
        0 <= u < t.side(),
        0 <= v < t.side(),
    ensures
        t.with_cell(x, y, live).balanced(),
        t.with_cell(x, y, live).level() == t.level(),
        t.with_cell(x, y, live).cell(u, v) == (if u == x && v == y {
            live
        } else {
            t.cell(u, v)
        }),
    decreases t,
{
    match t {
        Tree::Leaf(_) => {
            lemma2_to64();
        },
        Tree::Inner { nw, ne, sw, se } => {
            let h = nw.side();
            lemma_pow2_unfold(t.level());
            let xx = if x < h {
                x
            } else {
                x - h
            };
            let yy = if y < h {
                y
            } else {
                y - h
            };
            let uu = if u < h {
                u
            } else {
                u - h
            };
            let vv = if v < h {
                v
            } else {
                v - h
            };
            if y < h {
                if x < h {
                    lemma_with_cell(*nw, xx, yy, live, if u < h && v < h { uu } else { xx }, if u < h && v < h { vv } else { yy });
                } else {
                    lemma_with_cell(*ne, xx, yy, live, if u >= h && v < h { uu } else { xx }, if u >= h && v < h { vv } else { yy });
                }
            } else {
                if x < h {
                    lemma_with_cell(*sw, xx, yy, live, if u < h && v >= h { uu } else { xx }, if u < h && v >= h { vv } else { yy });
                } else {
                    lemma_with_cell(*se, xx, yy, live, if u >= h && v >= h { uu } else { xx }, if u >= h && v >= h { vv } else { yy });
                }
            }
        },
    }
}

/// Changing a cell of a tree adds a cell to the grid or takes one away.
pub proof fn lemma_with_cell_cells(t: Tree, ox: int, oy: int, x: int, y: int, live: bool)
    requires
        t.balanced(),
        0 <= x < t.side(),
        0 <= y < t.side(),
    ensures
        t.with_cell(x, y, live).cells_at(ox, oy) == (if live {
            t.cells_at(ox, oy).insert((ox + x, oy + y))
        } else {
            t.cells_at(ox, oy).remove((ox + x, oy + y))
        }),
{
    let a = t.with_cell(x, y, live).cells_at(ox, oy);
    let b = if live {
        t.cells_at(ox, oy).insert((ox + x, oy + y))
    } else {
        t.cells_at(ox, oy).remove((ox + x, oy + y))
    };
    lemma_with_cell(t, x, y, live, x, y);
    assert forall|p: (int, int)| a.contains(p) == b.contains(p) by {
        if 0 <= p.0 - ox < t.side() && 0 <= p.1 - oy < t.side() {
            lemma_with_cell(t, x, y, live, p.0 - ox, p.1 - oy);
        }
    }
    assert(a =~= b);
}

/// A tree without live cells shows an empty grid; a tree with live cells
/// does not.
pub proof fn lemma_population_cells(t: Tree, ox: int, oy: int)
    requires
        t.balanced(),
    ensures
        (t.population() == 0) == (t.cells_at(ox, oy) == Set::<(int, int)>::empty()),
    decreases t,
{
    let g = t.cells_at(ox, oy);
    if t.population() == 0 {
        lemma_unpopulated_is_empty(t);
        assert forall|p: (int, int)| !g.contains(p) by {
            lemma_empty_cell(t.level(), p.0 - ox, p.1 - oy);
        }
        assert(g =~= Set::<(int, int)>::empty());
    } else {
        match t {
            Tree::Leaf(b) => {
                lemma2_to64();
                assert(g.contains((ox, oy)));
            },
            Tree::Inner { nw, ne, sw, se } => {
                let h = nw.side();
                lemma_pow2_unfold(t.level());
                lemma_pow2_pos(nw.level());
                lemma_population_cells(*nw, ox, oy);
                lemma_population_cells(*ne, ox + h, oy);
                lemma_population_cells(*sw, ox, oy + h);
                lemma_population_cells(*se, ox + h, oy + h);
                if nw.population() != 0 {
                    let c = nw.cells_at(ox, oy);
                    assert(!(c =~= Set::<(int, int)>::empty()));
                    let p = choose|p: (int, int)| c.contains(p);
                    assert(g.contains(p));
                } else if ne.population() != 0 {
                    let c = ne.cells_at(ox + h, oy);
                    assert(!(c =~= Set::<(int, int)>::empty()));
                    let p = choose|p: (int, int)| c.contains(p);
                    assert(g.contains(p));
                } else if sw.population() != 0 {
                    let c = sw.cells_at(ox, oy + h);
                    assert(!(c =~= Set::<(int, int)>::empty()));
                    let p = choose|p: (int, int)| c.contains(p);
                    assert(g.contains(p));
                } else {
                    let c = se.cells_at(ox + h, oy + h);
                    assert(!(c =~= Set::<(int, int)>::empty()));
                    let p = choose|p: (int, int)| c.contains(p);
                    assert(g.contains(p));
                }
            },
        }
    }
}

/// Where a grid has no live cell in a square, its window there is the
/// all-dead tree.
pub proof fn lemma_window_dead(g: Grid, level: nat, ox: int, oy: int)
    requires
        forall|x: int, y: int|
            ox <= x < ox + pow2(level) && oy <= y < oy + pow2(level) ==> !#[trigger] g.contains(
                (x, y),
            ),
    ensures
        window(g, level, ox, oy) == Tree::empty(level),
    decreases level,
{
    if level == 0 {
        lemma2_to64();
    } else {
        let l = (level - 1) as nat;
        let h = pow2(l) as int;
        lemma_pow2_unfold(level);
        lemma_pow2_pos(l);
        lemma_window_dead(g, l, ox, oy);
        lemma_window_dead(g, l, ox + h, oy);
        lemma_window_dead(g, l, ox, oy + h);
        lemma_window_dead(g, l, ox + h, oy + h);
    }
}

} // verus!

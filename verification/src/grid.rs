//! The automaton itself, as mathematics: grids of live cells, the
//! outer-totalistic transition rule, and how far information can travel.

use vstd::prelude::*;

verus! {

/// A grid is the set of its live cells; `(x, y)` has `x` growing to the right
/// and `y` growing downwards.
pub type Grid = Set<(int, int)>;

/// 1 if the cell is alive, 0 if not.
pub open spec fn alive(g: Grid, x: int, y: int) -> int {
    if g.contains((x, y)) {
        1
    } else {
        0
    }
}

/// The number of live cells among the eight that surround `(x, y)`.
pub open spec fn neighbors(g: Grid, x: int, y: int) -> int {
    alive(g, x - 1, y - 1) + alive(g, x, y - 1) + alive(g, x + 1, y - 1) + alive(g, x - 1, y)
        + alive(g, x + 1, y) + alive(g, x - 1, y + 1) + alive(g, x, y + 1) + alive(
        g,
        x + 1,
        y + 1,
    )
}

/// Whether bit `n` of a rule mask is set.
pub open spec fn rule_bit(mask: usize, n: usize) -> bool {
    (mask >> n) & 1 == 1
}

/// The state of a cell after one generation: a live cell with `n` live
/// neighbours survives if bit `n` of `rule_s` is set, a dead one is born if
/// bit `n` of `rule_b` is set.
pub open spec fn next_state(rule_s: usize, rule_b: usize, live: bool, n: int) -> bool {
    rule_bit(
        if live {
            rule_s
        } else {
            rule_b
        },
        n as usize,
    )
}

/// One generation of the whole grid.
pub open spec fn step(g: Grid, rule_s: usize, rule_b: usize) -> Grid {
    Set::new(|p: (int, int)| next_state(rule_s, rule_b, g.contains(p), neighbors(g, p.0, p.1)))
}

/// `n` generations of the whole grid.
pub open spec fn evolve(g: Grid, rule_s: usize, rule_b: usize, n: nat) -> Grid
    decreases n,
{
    if n == 0 {
        g
    } else {
        step(evolve(g, rule_s, rule_b, (n - 1) as nat), rule_s, rule_b)
    }
}

/// `a` shows at `(x + dx, y + dy)` what `b` shows at `(x, y)`, for every cell
/// of the box `[x0, x1) x [y0, y1)`.
pub open spec fn agree(a: Grid, b: Grid, dx: int, dy: int, x0: int, y0: int, x1: int, y1: int) -> bool {
    forall|x: int, y: int|
        x0 <= x < x1 && y0 <= y < y1 ==> (a.contains((x + dx, y + dy)) == #[trigger] b.contains(
            (x, y),
        ))
}

/// Every live cell of `g` lies in the box `[x0, x1) x [y0, y1)`.
pub open spec fn within(g: Grid, x0: int, y0: int, x1: int, y1: int) -> bool {
    forall|x: int, y: int| #[trigger] g.contains((x, y)) ==> x0 <= x < x1 && y0 <= y < y1
}

/// The part of a grid that lies within `h` cells of the origin: columns and
/// rows from `-h` up to, but not including, `h`.
pub open spec fn clipped(g: Grid, h: int) -> Grid {
    Set::new(|p: (int, int)| g.contains(p) && -h <= p.0 < h && -h <= p.1 < h)
}

/// A cell's next state depends on its 3x3 neighbourhood only: grids that
/// agree on a box agree, one generation later, on the box less its rim.
pub proof fn lemma_step_local(
    a: Grid,
    b: Grid,
    rule_s: usize,
    rule_b: usize,
    dx: int,
    dy: int,
    x0: int,
    y0: int,
    x1: int,
    y1: int,
)
    requires
        agree(a, b, dx, dy, x0, y0, x1, y1),
    ensures
        agree(
            step(a, rule_s, rule_b),
            step(b, rule_s, rule_b),
            dx,
            dy,
            x0 + 1,
            y0 + 1,
            x1 - 1,
            y1 - 1,
        ),
{
    let sa = step(a, rule_s, rule_b);
    let sb = step(b, rule_s, rule_b);
    assert forall|x: int, y: int| x0 + 1 <= x < x1 - 1 && y0 + 1 <= y < y1 - 1 implies (
    sa.contains((x + dx, y + dy)) == #[trigger] sb.contains((x, y))) by {
        assert(a.contains((x - 1 + dx, y - 1 + dy)) == b.contains((x - 1, y - 1)));
        assert(a.contains((x + dx, y - 1 + dy)) == b.contains((x, y - 1)));
        assert(a.contains((x + 1 + dx, y - 1 + dy)) == b.contains((x + 1, y - 1)));
        assert(a.contains((x - 1 + dx, y + dy)) == b.contains((x - 1, y)));
        assert(a.contains((x + dx, y + dy)) == b.contains((x, y)));
        assert(a.contains((x + 1 + dx, y + dy)) == b.contains((x + 1, y)));
        assert(a.contains((x - 1 + dx, y + 1 + dy)) == b.contains((x - 1, y + 1)));
        assert(a.contains((x + dx, y + 1 + dy)) == b.contains((x, y + 1)));
        assert(a.contains((x + 1 + dx, y + 1 + dy)) == b.contains((x + 1, y + 1)));
        assert(neighbors(a, x + dx, y + dy) == neighbors(b, x, y));
    }
}

/// Information travels one cell per generation: grids that agree on a box
/// agree, `n` generations later, on the box shrunk by `n` on every side.
pub proof fn lemma_evolve_local(
    a: Grid,
    b: Grid,
    rule_s: usize,
    rule_b: usize,
    n: nat,
    dx: int,
    dy: int,
    x0: int,
    y0: int,
    x1: int,
    y1: int,
)
    requires
        agree(a, b, dx, dy, x0, y0, x1, y1),
    ensures
        agree(
            evolve(a, rule_s, rule_b, n),
            evolve(b, rule_s, rule_b, n),
            dx,
            dy,
            x0 + n,
            y0 + n,
            x1 - n,
            y1 - n,
        ),
    decreases n,
{
    if n > 0 {
        let m: nat = (n - 1) as nat;
        lemma_evolve_local(a, b, rule_s, rule_b, m, dx, dy, x0, y0, x1, y1);
        lemma_step_local(
            evolve(a, rule_s, rule_b, m),
            evolve(b, rule_s, rule_b, m),
            rule_s,
            rule_b,
            dx,
            dy,
            x0 + m,
            y0 + m,
            x1 - m,
            y1 - m,
        );
    }
}

/// Generations add up.
pub proof fn lemma_evolve_adds(g: Grid, rule_s: usize, rule_b: usize, m: nat, n: nat)
    ensures
        evolve(evolve(g, rule_s, rule_b, m), rule_s, rule_b, n) == evolve(g, rule_s, rule_b, m + n),
    decreases n,
{
    if n > 0 {
        lemma_evolve_adds(g, rule_s, rule_b, m, (n - 1) as nat);
        assert((m + n - 1) as nat == m + (n - 1) as nat);
    }
}

/// Unless dead cells are born without neighbours, life spreads by at most
/// one cell per generation.
pub proof fn lemma_step_spread(g: Grid, rule_s: usize, rule_b: usize, x0: int, y0: int, x1: int, y1: int)
    requires
        within(g, x0, y0, x1, y1),
        !rule_bit(rule_b, 0),
    ensures
        within(step(g, rule_s, rule_b), x0 - 1, y0 - 1, x1 + 1, y1 + 1),
{
    let s = step(g, rule_s, rule_b);
    assert forall|x: int, y: int| #[trigger] s.contains((x, y)) implies x0 - 1 <= x < x1 + 1 && y0
        - 1 <= y < y1 + 1 by {
        if !(x0 - 1 <= x < x1 + 1 && y0 - 1 <= y < y1 + 1) {
            assert(!g.contains((x - 1, y - 1)));
            assert(!g.contains((x, y - 1)));
            assert(!g.contains((x + 1, y - 1)));
            assert(!g.contains((x - 1, y)));
            assert(!g.contains((x, y)));
            assert(!g.contains((x + 1, y)));
            assert(!g.contains((x - 1, y + 1)));
            assert(!g.contains((x, y + 1)));
            assert(!g.contains((x + 1, y + 1)));
            assert(neighbors(g, x, y) == 0);
            assert(0int as usize == 0usize);
        }
    }
}

/// Unless dead cells are born without neighbours, a pattern that fits a box
/// fits, `n` generations later, the box grown by `n` on every side.
pub proof fn lemma_evolve_spread(
    g: Grid,
    rule_s: usize,
    rule_b: usize,
    n: nat,
    x0: int,
    y0: int,
    x1: int,
    y1: int,
)
    requires
        within(g, x0, y0, x1, y1),
        !rule_bit(rule_b, 0),
    ensures
        within(evolve(g, rule_s, rule_b, n), x0 - n, y0 - n, x1 + n, y1 + n),
    decreases n,
{
    if n > 0 {
        let m: nat = (n - 1) as nat;
        lemma_evolve_spread(g, rule_s, rule_b, m, x0, y0, x1, y1);
        lemma_step_spread(evolve(g, rule_s, rule_b, m), rule_s, rule_b, x0 - m, y0 - m, x1 + m, y1 + m);
    }
}

} // verus!

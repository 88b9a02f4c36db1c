//! Drawing: the screen positions at which something is alive.

use crate::tree::Tree;
use crate::universe::LifeUniverse;
use vstd::prelude::*;

verus! {

/// The largest magnitude of a screen coordinate, of an offset, and of the
/// root's size on screen.
pub const DRAW_LIMIT: i64 = 0x1000_0000_0000_0000;

/// Whether a square of the given size at `(x, y)`, moved by the offsets,
/// misses the screen altogether: it ends before column or row 0, or begins
/// after the last column or row.
pub open spec fn off_screen(
    x: int,
    y: int,
    size: int,
    offset_x: int,
    offset_y: int,
    width: int,
    height: int,
) -> bool {
    x + size + offset_x < 0 || y + size + offset_y < 0 || x + offset_x >= width || y + offset_y
        >= height
}

/// What drawing a tree gives: nothing for a tree that is dead or off
/// screen; the position of its top left corner, column then row, for a tree
/// that is a single cell or no larger than one pixel; and otherwise what
/// drawing its four quadrants gives, at half the size (rounded down),
/// north-west first, then north-east, south-west and south-east.
pub open spec fn drawn(
    t: Tree,
    x: int,
    y: int,
    size: int,
    offset_x: int,
    offset_y: int,
    width: int,
    height: int,
) -> Seq<i64>
    decreases t,
{
    if t.population() == 0 || off_screen(x, y, size, offset_x, offset_y, width, height) {
        Seq::empty()
    } else if size <= 1 {
        seq![(x + offset_x) as i64, (y + offset_y) as i64]
    } else {
        match t {
            Tree::Leaf(_) => seq![(x + offset_x) as i64, (y + offset_y) as i64],
            Tree::Inner { nw, ne, sw, se } => {
                let half = size / 2;
                drawn(*nw, x, y, half, offset_x, offset_y, width, height) + drawn(
                    *ne,
                    x + half,
                    y,
                    half,
                    offset_x,
                    offset_y,
                    width,
                    height,
                ) + drawn(*sw, x, y + half, half, offset_x, offset_y, width, height) + drawn(
                    *se,
                    x + half,
                    y + half,
                    half,
                    offset_x,
                    offset_y,
                    width,
                    height,
                )
            },
        }
    }
}

impl LifeUniverse {
    /// Appends to `data` what drawing the node gives, with its top left
    /// corner at `(x, y)` and its side `size` pixels long.
    pub fn draw_node(
        &self,
        node: usize,
        data: &mut Vec<i64>,
        x: i64,
        y: i64,
        size: i64,
        offset_x: i64,
        offset_y: i64,
        width: i64,
        height: i64,
    )
        requires
            self.wf(),
            self.valid(node),
            0 <= size,
            -DRAW_LIMIT <= x,
            -DRAW_LIMIT <= y,
            x + size <= 2 * DRAW_LIMIT,
            y + size <= 2 * DRAW_LIMIT,
            -DRAW_LIMIT <= offset_x <= DRAW_LIMIT,
            -DRAW_LIMIT <= offset_y <= DRAW_LIMIT,
        ensures
            final(data)@ == old(data)@ + drawn(
                self.tree(node),
                x as int,
                y as int,
                size as int,
                offset_x as int,
                offset_y as int,
                width as int,
                height as int,
            ),
        decreases self.tree(node).level(),
    {
        let n = self.node(node);
        if n.population == 0 || x + size + offset_x < 0 || y + size + offset_y < 0 || x + offset_x
            >= width || y + offset_y >= height {
            assert(data@ + Seq::<i64>::empty() =~= data@);
            return ;
        }
        if size <= 1 || n.level == 0 {
            let ghost before = data@;
            data.push(x + offset_x);
            data.push(y + offset_y);
            assert(data@ =~= before + seq![(x + offset_x) as i64, (y + offset_y) as i64]);
        } else {
            let size = size / 2;
            let ghost t = self.tree(node);
            let ghost d0 = data@;
            let ghost a = drawn(
                t.nw(),
                x as int,
                y as int,
                size as int,
                offset_x as int,
                offset_y as int,
                width as int,
                height as int,
            );
            let ghost b = drawn(
                t.ne(),
                x + size,
                y as int,
                size as int,
                offset_x as int,
                offset_y as int,
                width as int,
                height as int,
            );
            let ghost c = drawn(
                t.sw(),
                x as int,
                y + size,
                size as int,
                offset_x as int,
                offset_y as int,
                width as int,
                height as int,
            );
            let ghost d = drawn(
                t.se(),
                x + size,
                y + size,
                size as int,
                offset_x as int,
                offset_y as int,
                width as int,
                height as int,
            );
            self.draw_node(n.nw, data, x, y, size, offset_x, offset_y, width, height);
            self.draw_node(n.ne, data, x + size, y, size, offset_x, offset_y, width, height);
            self.draw_node(n.sw, data, x, y + size, size, offset_x, offset_y, width, height);
            self.draw_node(n.se, data, x + size, y + size, size, offset_x, offset_y, width, height);
            assert(data@ =~= d0 + (a + b + c + d));
        }
    }

    /// The screen positions to paint, as a flat list of columns and rows,
    /// for the root drawn with its top left corner at `(x, y)` and its side
    /// `size` pixels long, on a screen of the given width and height whose
    /// origin is moved by the offsets.
    pub fn draw(
        &self,
        x: i64,
        y: i64,
        size: i64,
        width: i64,
        height: i64,
        offset_x: i64,
        offset_y: i64,
    ) -> (data: Vec<i64>)
        requires
            self.wf(),
            0 <= size,
            -DRAW_LIMIT <= x,
            -DRAW_LIMIT <= y,
            x + size <= 2 * DRAW_LIMIT,
            y + size <= 2 * DRAW_LIMIT,
            -DRAW_LIMIT <= offset_x <= DRAW_LIMIT,
            -DRAW_LIMIT <= offset_y <= DRAW_LIMIT,
        ensures
            data@ == drawn(
                self@.root,
                x as int,
                y as int,
                size as int,
                offset_x as int,
                offset_y as int,
                width as int,
                height as int,
            ),
    {
        let mut data: Vec<i64> = Vec::new();
        self.draw_node(self.root(), &mut data, x, y, size, offset_x, offset_y, width, height);
        assert(Seq::<i64>::empty() + data@ =~= data@);
        data
    }
}

} // verus!

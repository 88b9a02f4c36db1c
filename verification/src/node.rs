//! The record kept for each node of the quadtree.

use vstd::prelude::*;

verus! {

/// A node of the hash-consed quadtree. Nodes live in the universe's arena and
/// name each other by their position in it. Everything but the two cache
/// slots is fixed when the node is made.
#[derive(Clone, Copy, Debug)]
pub struct TreeNode {
    /// The north-west quadrant.
    pub nw: usize,
    /// The north-east quadrant.
    pub ne: usize,
    /// The south-west quadrant.
    pub sw: usize,
    /// The south-east quadrant.
    pub se: usize,
    /// The number of live cells below this node.
    pub population: u128,
    /// The base-2 logarithm of the side length; 0 for a single cell.
    pub level: usize,
    /// The centre of this node advanced by the universe's current step.
    pub cache: Option<usize>,
    /// The centre of this node advanced by a quarter of its side.
    pub quick_cache: Option<usize>,
}

impl TreeNode {
    /// A node one level above its four children, with their populations
    /// added up and both cache slots empty.
    pub fn new(
        nw_id: usize,
        ne_id: usize,
        sw_id: usize,
        se_id: usize,
        nw: &TreeNode,
        ne: &TreeNode,
        sw: &TreeNode,
        se: &TreeNode,
    ) -> (node: TreeNode)
        requires
            nw.level < usize::MAX,
            nw.population + ne.population + sw.population + se.population <= u128::MAX,
        ensures
            node.nw == nw_id,
            node.ne == ne_id,
            node.sw == sw_id,
            node.se == se_id,
            node.level == nw.level + 1,
            node.population == nw.population + ne.population + sw.population + se.population,
            node.cache.is_none(),
            node.quick_cache.is_none(),
    {
        TreeNode {
            nw: nw_id,
            ne: ne_id,
            sw: sw_id,
            se: se_id,
            population: nw.population + ne.population + sw.population + se.population,
            level: nw.level + 1,
            cache: None,
            quick_cache: None,
        }
    }

    /// One of the two leaves: the dead cell for 0, the live cell for 1. A
    /// leaf has no children; its child slots hold its own identity, which is
    /// its population, and are never followed.
    pub fn new_leaf(population: usize) -> (node: TreeNode)
        requires
            population <= 1,
        ensures
            node.nw == population,
            node.ne == population,
            node.sw == population,
            node.se == population,
            node.level == 0,
            node.population == population,
            node.cache.is_none(),
            node.quick_cache.is_none(),
    {
        TreeNode {
            nw: population,
            ne: population,
            sw: population,
            se: population,
            population: population as u128,
            level: 0,
            cache: None,
            quick_cache: None,
        }
    }

    /// The cached successor for the current step, if one is stored.
    pub fn get_cache(&self) -> (r: Option<usize>)
        ensures
            r == self.cache,
    {
        self.cache
    }

    /// The cached successor for the node's own maximal step, if one is
    /// stored.
    pub fn get_quick_cache(&self) -> (r: Option<usize>)
        ensures
            r == self.quick_cache,
    {
        self.quick_cache
    }
}

} // verus!

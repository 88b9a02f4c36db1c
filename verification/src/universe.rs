//! The universe: an arena of hash-consed quadtree nodes, the table that makes
//! every tree exist once, and the settings the cached successors depend on.

use crate::grid::Grid;
use crate::interner::{interner_get, interner_insert, interner_new, Interner, NodeKey};
use crate::node::TreeNode;
use crate::tree::Tree;
use vstd::arithmetic::power2::{lemma2_to64, lemma2_to64_rest, lemma_pow2_adds, pow2};
use vstd::prelude::*;

verus! {

/// The highest level a node can have. A root of this level spans the
/// coordinates from `-2^62` to `2^62 - 1`, and no population exceeds `2^126`.
pub const MAX_LEVEL: usize = 63;

/// The number of table entries a fresh universe makes room for, and the
/// number of nodes after which it first collects garbage.
pub const INITIAL_CAPACITY: usize = 10000;

/// The number of 4x4 patterns, each with a slot of its own in the level-2
/// table.
pub const LEVEL2_PATTERNS: usize = 0x10000;

/// Conway's Life: a dead cell with three live neighbours is born.
pub const CONWAY_BIRTH: usize = 8;

/// Conway's Life: a live cell with two or three live neighbours survives.
pub const CONWAY_SURVIVE: usize = 12;

/// The identity of the dead cell.
pub const FALSE_LEAF: usize = 0;

/// The identity of the live cell.
pub const TRUE_LEAF: usize = 1;

/// The number of generations by which the stepped successor of a node of the
/// given level is ahead: `2^step` where the node is large enough for that,
/// and a single generation where it is not.
pub open spec fn step_gens(level: nat, step: nat) -> nat {
    if step + 2 <= level {
        pow2(step)
    } else {
        1
    }
}

/// The level-1 tree whose four cells are the low four bits of `mask`:
/// north-west, north-east, south-west, south-east.
pub open spec fn level1_tree(mask: usize) -> Tree {
    Tree::join(
        Tree::Leaf(mask & 1 != 0),
        Tree::Leaf(mask & 2 != 0),
        Tree::Leaf(mask & 4 != 0),
        Tree::Leaf(mask & 8 != 0),
    )
}

/// The level-2 tree whose quadrants are the four nibbles of `mask`, lowest
/// first.
pub open spec fn level2_tree(mask: usize) -> Tree {
    Tree::join(
        level1_tree(mask),
        level1_tree(mask >> 4),
        level1_tree(mask >> 8),
        level1_tree(mask >> 12),
    )
}

/// What a universe stands for.
pub struct UniverseView {
    /// The tree at the root. Its centre is the origin of the coordinates.
    pub root: Tree,
    /// The tree saved for rewinding, if one was saved.
    pub rewind: Option<Tree>,
    /// The generation counter.
    pub generation: nat,
    /// One tick advances `2^step` generations.
    pub step: usize,
    /// Bit `n` set: a live cell with `n` live neighbours survives.
    pub rule_s: usize,
    /// Bit `n` set: a dead cell with `n` live neighbours is born.
    pub rule_b: usize,
}

impl UniverseView {
    /// The level of the root.
    pub open spec fn level(self) -> nat {
        self.root.level()
    }

    /// The distance from the origin to the edge of the root.
    pub open spec fn half(self) -> int {
        pow2((self.root.level() - 1) as nat) as int
    }

    /// The live cells, in coordinates whose origin is the centre of the root.
    pub open spec fn cells(self) -> Grid {
        self.root.cells_at(-self.half(), -self.half())
    }
}

/// A Hashlife universe.
pub struct LifeUniverse {
    pub(crate) nodes: Vec<TreeNode>,
    pub(crate) alive: Vec<bool>,
    pub(crate) free: Vec<usize>,
    pub(crate) live: usize,
    pub(crate) hashmap: Interner,
    pub(crate) empty_tree_cache: Vec<usize>,
    pub(crate) level2_cache: Vec<Option<usize>>,
    pub(crate) rule_b: usize,
    pub(crate) rule_s: usize,
    pub(crate) root: usize,
    pub(crate) rewind_state: Option<usize>,
    pub(crate) step: usize,
    pub(crate) generation: u128,
    pub(crate) high_water: usize,
    pub(crate) trees: Ghost<Seq<Tree>>,
}

/// The key under which a node is interned.
pub open spec fn key_of(n: TreeNode) -> NodeKey {
    (n.nw, n.ne, n.sw, n.se)
}

impl View for LifeUniverse {
    type V = UniverseView;

    closed spec fn view(&self) -> UniverseView {
        UniverseView {
            root: self.trees@[self.root as int],
            rewind: match self.rewind_state {
                Some(r) => Some(self.trees@[r as int]),
                None => None,
            },
            generation: self.generation as nat,
            step: self.step,
            rule_s: self.rule_s,
            rule_b: self.rule_b,
        }
    }
}

impl LifeUniverse {
    /// `id` names a node of this universe: a place of the arena that is in
    /// use.
    pub closed spec fn valid(&self, id: usize) -> bool {
        id < self.nodes@.len() && self.alive@[id as int]
    }

    /// The number of places in the arena, in use or not.
    pub closed spec fn arena_size(&self) -> nat {
        self.nodes@.len()
    }

    /// The tree that the node `id` stands for.
    pub closed spec fn tree(&self, id: usize) -> Tree {
        self.trees@[id as int]
    }

    /// The record of the node `id`.
    pub closed spec fn record(&self, id: usize) -> TreeNode {
        self.nodes@[id as int]
    }

    /// The identity of the root.
    pub closed spec fn root_id(&self) -> usize {
        self.root
    }

    /// The identity of the saved root, if one was saved.
    pub closed spec fn rewind_id(&self) -> Option<usize> {
        self.rewind_state
    }

    /// The number of nodes, the two leaves included, as the universe counts
    /// them: one more for every node made, and after a collection the
    /// number of nodes that stayed.
    pub closed spec fn node_count(&self) -> nat {
        self.live as nat
    }

    /// The successor stored in the stepped cache slot of a node is the one
    /// that the current step and rules give.
    pub open spec fn cache_holds(&self, id: usize, r: usize) -> bool {
        &&& self.valid(r)
        &&& self.tree(id).level() >= 2
        &&& self.tree(r) == self.tree(id).successor(
            self@.rule_s,
            self@.rule_b,
            step_gens(self.tree(id).level(), self@.step as nat),
        )
    }

    /// The successor stored in the quick cache slot of a node is the one
    /// that the current rules give for a quarter of the node's side.
    pub open spec fn quick_cache_holds(&self, id: usize, r: usize) -> bool {
        &&& self.valid(r)
        &&& self.tree(id).level() >= 2
        &&& self.tree(r) == self.tree(id).successor(
            self@.rule_s,
            self@.rule_b,
            pow2((self.tree(id).level() - 2) as nat),
        )
    }

    /// What the record of a node says, in terms of the tree it stands for.
    pub open spec fn describes(&self, id: usize, n: TreeNode) -> bool {
        let t = self.tree(id);
        &&& t.balanced()
        &&& t.level() == n.level
        &&& n.level <= MAX_LEVEL
        &&& t.population() == n.population
        &&& self.valid(n.nw)
        &&& self.valid(n.ne)
        &&& self.valid(n.sw)
        &&& self.valid(n.se)
        &&& self.tree(n.nw) == t.nw()
        &&& self.tree(n.ne) == t.ne()
        &&& self.tree(n.sw) == t.sw()
        &&& self.tree(n.se) == t.se()
        &&& (n.level == 0 ==> id <= 1 && t == Tree::Leaf(id == 1))
        &&& (n.level >= 1 ==> id >= 2 && t == Tree::join(t.nw(), t.ne(), t.sw(), t.se()))
        &&& match n.cache {
            Some(r) => self.cache_holds(id, r),
            None => true,
        }
        &&& match n.quick_cache {
            Some(r) => self.quick_cache_holds(id, r),
            None => true,
        }
    }

    spec fn node_wf(&self, i: int) -> bool {
        self.alive@[i] ==> self.record_wf(i)
    }

    spec fn free_wf(&self) -> bool {
        &&& forall|j: int|
            0 <= j < self.free@.len() ==> (#[trigger] self.free@[j]) < self.nodes@.len()
                && !self.alive@[self.free@[j] as int]
        &&& forall|j: int, k: int|
            0 <= j < k < self.free@.len() ==> (#[trigger] self.free@[j]) < (#[trigger] self.free@[k])
    }

    spec fn record_wf(&self, i: int) -> bool {
        let n = self.nodes@[i];
        &&& self.describes(i as usize, n)
        &&& if i < 2 {
            n.nw == i && n.ne == i && n.sw == i && n.se == i
        } else {
            self.hashmap@.contains_key(key_of(n)) && self.hashmap@[key_of(n)] == i
        }
    }

    spec fn table_wf(&self) -> bool {
        forall|k: NodeKey| #[trigger]
            self.hashmap@.contains_key(k) ==> 2 <= self.hashmap@[k] < self.nodes@.len()
                && self.alive@[self.hashmap@[k] as int] && key_of(
                self.nodes@[self.hashmap@[k] as int],
            ) == k
    }

    spec fn empty_cache_wf(&self) -> bool {
        &&& self.empty_tree_cache@.len() <= MAX_LEVEL + 1
        &&& forall|l: int|
            0 <= l < self.empty_tree_cache@.len() ==> self.valid(#[trigger] self.empty_tree_cache@[l])
                && self.tree(self.empty_tree_cache@[l]) == Tree::empty(l as nat)
    }

    spec fn level2_cache_wf(&self) -> bool {
        &&& self.level2_cache@.len() == LEVEL2_PATTERNS
        &&& forall|m: int|
            0 <= m < LEVEL2_PATTERNS ==> match #[trigger] self.level2_cache@[m] {
                Some(r) => self.valid(r) && self.tree(r) == level2_tree(m as usize),
                None => true,
            }
    }

    /// The invariant of the universe: every node's record describes its
    /// tree, every inner node is found in the table under its children, the
    /// tables of ready-made trees hold what they are indexed by, the places
    /// listed as free are not in use, and the root is a node of level 1 or
    /// more.
    pub closed spec fn wf(&self) -> bool {
        &&& self.nodes@.len() >= 2
        &&& self.trees@.len() == self.nodes@.len()
        &&& self.alive@.len() == self.nodes@.len()
        &&& self.alive@[0]
        &&& self.alive@[1]
        &&& self.free_wf()
        &&& forall|i: int| 0 <= i < self.nodes@.len() ==> #[trigger] self.node_wf(i)
        &&& self.table_wf()
        &&& self.empty_cache_wf()
        &&& self.level2_cache_wf()
        &&& self.valid(self.root)
        &&& self.nodes@[self.root as int].level >= 1
        &&& match self.rewind_state {
            Some(r) => self.valid(r) && self.nodes@[r as int].level >= 1,
            None => true,
        }
    }

    /// Every node of `old` is a node of this universe and stands for the
    /// same tree.
    pub open spec fn grows(&self, old: &LifeUniverse) -> bool {
        forall|i: usize|
            #![trigger self.valid(i)]
            #![trigger self.tree(i)]
            #![trigger old.valid(i)]
            #![trigger old.tree(i)]
            old.valid(i) ==> self.valid(i) && self.tree(i) == old.tree(i)
    }

    /// Every record of `old` is still what it was.
    pub open spec fn keeps_records(&self, old: &LifeUniverse) -> bool {
        forall|i: usize|
            #![trigger self.record(i)]
            #![trigger old.record(i)]
            old.valid(i) ==> self.record(i) == old.record(i)
    }

    /// Every record of `old` is what it was, but for cache slots that were
    /// empty then and hold a successor now.
    pub open spec fn fills_caches(&self, old: &LifeUniverse) -> bool {
        forall|i: usize|
            #![trigger self.record(i)]
            #![trigger old.record(i)]
            old.valid(i) ==> {
                let a = old.record(i);
                let b = self.record(i);
                &&& b == (TreeNode { cache: b.cache, quick_cache: b.quick_cache, ..a })
                &&& a.cache.is_some() ==> b.cache == a.cache
                &&& a.quick_cache.is_some() ==> b.quick_cache == a.quick_cache
            }
    }

    /// Every record of `old` is what it was, but for quick cache slots that
    /// were empty then and hold a successor now.
    pub open spec fn fills_quick_caches(&self, old: &LifeUniverse) -> bool {
        forall|i: usize|
            #![trigger self.record(i)]
            #![trigger old.record(i)]
            old.valid(i) ==> {
                let a = old.record(i);
                let b = self.record(i);
                &&& b == (TreeNode { quick_cache: b.quick_cache, ..a })
                &&& a.quick_cache.is_some() ==> b.quick_cache == a.quick_cache
            }
    }

    /// The node `a` holds the node `b`: as a quadrant, or as a cached
    /// successor.
    pub open spec fn links(&self, a: usize, b: usize) -> bool {
        let n = self.record(a);
        ||| n.level >= 1 && (b == n.nw || b == n.ne || b == n.sw || b == n.se)
        ||| n.cache == Some(b)
        ||| n.quick_cache == Some(b)
    }

    /// From the node `a` the node `b` is reached in so many steps or fewer,
    /// going from a node to one it holds.
    pub open spec fn reaches(&self, a: usize, b: usize, steps: nat) -> bool
        decreases steps,
    {
        a == b || (steps > 0 && exists|m: usize| #[trigger]
            self.links(a, m) && self.reaches(m, b, (steps - 1) as nat))
    }

    /// From the node `a` the node `b` can be reached.
    pub open spec fn reachable(&self, a: usize, b: usize) -> bool {
        exists|steps: nat| self.reaches(a, b, steps)
    }

    /// The size of the arena at which garbage is collected next.
    pub closed spec fn high_water_mark(&self) -> usize {
        self.high_water
    }

    /// The tables of ready-made trees as they are when nothing was made
    /// yet.
    pub open spec fn no_tables() -> (Seq<usize>, Seq<Option<usize>>) {
        (Seq::empty(), Seq::new(LEVEL2_PATTERNS as nat, |m: int| None::<usize>))
    }

    /// The tables of ready-made trees: the all-dead trees by level, and the
    /// 4x4 patterns by mask.
    pub closed spec fn tables(&self) -> (Seq<usize>, Seq<Option<usize>>) {
        (self.empty_tree_cache@, self.level2_cache@)
    }

    /// No node has a stepped successor stored.
    pub open spec fn caches_clear(&self) -> bool {
        forall|i: usize| self.valid(i) ==> (#[trigger] self.record(i)).cache.is_none()
    }

    /// No node has a quick successor stored.
    pub open spec fn quick_caches_clear(&self) -> bool {
        forall|i: usize| self.valid(i) ==> (#[trigger] self.record(i)).quick_cache.is_none()
    }

    /// Nothing that was there is gone or has changed: every node of `old` is
    /// a node of this universe and stands for the same tree, and root, saved
    /// root, counter, step, rules and the size at which garbage is collected
    /// are the same.
    pub open spec fn extends(&self, old: &LifeUniverse) -> bool {
        &&& self.grows(old)
        &&& self.root_id() == old.root_id()
        &&& self.rewind_id() == old.rewind_id()
        &&& self.high_water_mark() == old.high_water_mark()
        &&& self@ == old@
    }

    /// The two leaves are nodes of every universe.
    pub proof fn lemma_leaves(&self)
        requires
            self.wf(),
        ensures
            self.valid(FALSE_LEAF),
            self.valid(TRUE_LEAF),
            self.tree(FALSE_LEAF) == Tree::Leaf(false),
            self.tree(TRUE_LEAF) == Tree::Leaf(true),
    {
        assert(self.node_wf(0));
        assert(self.node_wf(1));
    }

    /// The root is a node, and the view shows its tree.
    pub proof fn lemma_root(&self)
        requires
            self.wf(),
        ensures
            self.valid(self.root_id()),
            self.tree(self.root_id()) == self@.root,
            self@.generation <= u128::MAX,
            self@.root.level() >= 1,
            self@.root.level() <= MAX_LEVEL,
            self@.root.balanced(),
            match self.rewind_id() {
                Some(r) => self.valid(r) && self@.rewind == Some(self.tree(r)) && self.tree(r).level()
                    >= 1 && self.tree(r).balanced(),
                None => self@.rewind.is_none(),
            },
    {
        assert(self.node_wf(self.root as int));
        match self.rewind_state {
            Some(r) => {
                assert(self.node_wf(r as int));
            },
            None => {},
        }
    }

    /// The record of a node.
    pub fn node(&self, id: usize) -> (n: &TreeNode)
        requires
            self.wf(),
            self.valid(id),
        ensures
            *n == self.record(id),
            self.describes(id, *n),
    {
        proof {
            assert(self.node_wf(id as int));
        }
        &self.nodes[id]
    }

    /// A node has a place in the arena, and the arena has no more places
    /// than can be counted.
    pub proof fn lemma_arena(&self, id: usize)
        ensures
            self.valid(id) ==> id < self.arena_size(),
            self.arena_size() <= usize::MAX,
            self.node_count() <= usize::MAX,
    {
        let n = self.nodes.len();
        assert(n == self.nodes@.len());
    }

    /// Every record describes its node's tree.
    pub proof fn lemma_record(&self, id: usize)
        requires
            self.wf(),
            self.valid(id),
        ensures
            self.describes(id, self.record(id)),
    {
        assert(self.node_wf(id as int));
    }

    /// Canonical form: two nodes that stand for the same tree are the same
    /// node. Trees that are built in different ways, at different times,
    /// end up with one identity if they are equal.
    pub proof fn lemma_canonical(&self, a: usize, b: usize)
        requires
            self.wf(),
            self.valid(a),
            self.valid(b),
            self.tree(a) == self.tree(b),
        ensures
            a == b,
        decreases self.tree(a).level(),
    {
        assert(self.node_wf(a as int));
        assert(self.node_wf(b as int));
        let na = self.nodes@[a as int];
        let nb = self.nodes@[b as int];
        if na.level >= 1 {
            self.lemma_canonical(na.nw, nb.nw);
            self.lemma_canonical(na.ne, nb.ne);
            self.lemma_canonical(na.sw, nb.sw);
            self.lemma_canonical(na.se, nb.se);
            assert(key_of(na) == key_of(nb));
        }
    }

    /// Canonical form across time: a node found for a tree now is the node
    /// that was found for the same tree earlier, as long as no garbage was
    /// collected in between.
    pub proof fn lemma_canonical_later(&self, earlier: &LifeUniverse, a: usize, b: usize)
        requires
            self.wf(),
            self.grows(earlier),
            earlier.valid(a),
            self.valid(b),
            self.tree(b) == earlier.tree(a),
        ensures
            a == b,
    {
        self.lemma_canonical(a, b);
    }

    /// Level coherence and population coherence: an inner node is one level
    /// above each of its children, and its population is the sum of theirs;
    /// a leaf has level 0 and a population of 0 or 1.
    pub proof fn lemma_coherent(&self, id: usize)
        requires
            self.wf(),
            self.valid(id),
        ensures
            ({
                let n = self.record(id);
                &&& self.valid(n.nw) && self.valid(n.ne) && self.valid(n.sw) && self.valid(n.se)
                &&& n.level >= 1 ==> {
                    &&& n.level == self.record(n.nw).level + 1
                    &&& n.level == self.record(n.ne).level + 1
                    &&& n.level == self.record(n.sw).level + 1
                    &&& n.level == self.record(n.se).level + 1
                    &&& n.population == self.record(n.nw).population + self.record(n.ne).population
                        + self.record(n.sw).population + self.record(n.se).population
                }
                &&& n.level == 0 ==> n.population <= 1 && id <= 1 && n.population == id
            }),
    {
        assert(self.node_wf(id as int));
        let n = self.nodes@[id as int];
        assert(self.node_wf(n.nw as int));
        assert(self.node_wf(n.ne as int));
        assert(self.node_wf(n.sw as int));
        assert(self.node_wf(n.se as int));
    }

    /// The all-dead tree of a level has one identity, whenever it is asked
    /// for, and no population.
    pub proof fn lemma_empty_tree_once(&self, earlier: &LifeUniverse, a: usize, b: usize, level: nat)
        requires
            self.wf(),
            self.grows(earlier),
            earlier.valid(a),
            earlier.tree(a) == Tree::empty(level),
            self.valid(b),
            self.tree(b) == Tree::empty(level),
        ensures
            a == b,
            self.record(b).population == 0,
            self.record(b).level == level,
    {
        self.lemma_canonical(a, b);
        assert(self.node_wf(b as int));
        crate::tree::lemma_empty_shape(level);
    }

    /// The identity of the saved root, if one was saved.
    pub fn rewind(&self) -> (r: Option<usize>)
        requires
            self.wf(),
        ensures
            r == self.rewind_id(),
            match r {
                Some(id) => self.valid(id) && self@.rewind == Some(self.tree(id)) && self.tree(id).level()
                    >= 1,
                None => self@.rewind.is_none(),
            },
    {
        proof {
            self.lemma_root();
        }
        self.rewind_state
    }

    /// The identity of the root.
    pub fn root(&self) -> (r: usize)
        requires
            self.wf(),
        ensures
            r == self.root_id(),
            self.valid(r),
            self.tree(r) == self@.root,
    {
        proof {
            self.lemma_root();
        }
        self.root
    }

    /// The key under which a node with the given children is interned.
    pub fn get_key(nw: usize, ne: usize, sw: usize, se: usize) -> (key: NodeKey)
        ensures
            key == (nw, ne, sw, se),
    {
        (nw, ne, sw, se)
    }

    /// The canonical node with the given children: the one the table holds
    /// for them, or a new one where it holds none. Either way the universe
    /// has exactly one node for the tree that the four children make up.
    pub fn create_tree(&mut self, nw: usize, ne: usize, sw: usize, se: usize) -> (r: usize)
        requires
            old(self).wf(),
            old(self).valid(nw),
            old(self).valid(ne),
            old(self).valid(sw),
            old(self).valid(se),
            old(self).tree(nw).level() < MAX_LEVEL,
            old(self).tree(ne).level() == old(self).tree(nw).level(),
            old(self).tree(sw).level() == old(self).tree(nw).level(),
            old(self).tree(se).level() == old(self).tree(nw).level(),
        ensures
            final(self).wf(),
            final(self).extends(old(self)),
            final(self).valid(r),
            final(self).tree(r) == Tree::join(
                old(self).tree(nw),
                old(self).tree(ne),
                old(self).tree(sw),
                old(self).tree(se),
            ),
            final(self).tables() == old(self).tables(),
            final(self).keeps_records(old(self)),
            key_of(final(self).record(r)) == (nw, ne, sw, se),
            final(self).record(r).level >= 1,
            old(self).valid(r) ==> final(self).node_count() == old(self).node_count(),
            !old(self).valid(r) ==> {
                &&& old(self).node_count() <= final(self).node_count() <= old(self).node_count() + 1
                &&& final(self).record(r).cache.is_none()
                &&& final(self).record(r).quick_cache.is_none()
            },
            final(self).arena_size() >= old(self).arena_size(),
    {
        let key = Self::get_key(nw, ne, sw, se);
        proof {
            assert(self.node_wf(nw as int));
            assert(self.node_wf(ne as int));
            assert(self.node_wf(sw as int));
            assert(self.node_wf(se as int));
        }
        match interner_get(&self.hashmap, &key) {
            Some(id) => {
                proof {
                    assert(self.hashmap@.contains_key(key));
                    assert(self.node_wf(id as int));
                }
                id
            },
            None => {
                let ghost t = Tree::join(self.tree(nw), self.tree(ne), self.tree(sw), self.tree(se));
                proof {
                    crate::tree::lemma_population_bound(self.tree(nw));
                    crate::tree::lemma_population_bound(self.tree(ne));
                    crate::tree::lemma_population_bound(self.tree(sw));
                    crate::tree::lemma_population_bound(self.tree(se));
                    let l = self.tree(nw).level();
                    lemma_pow2_bound(2 * l);
                }
                let node = TreeNode::new(
                    nw,
                    ne,
                    sw,
                    se,
                    &self.nodes[nw],
                    &self.nodes[ne],
                    &self.nodes[sw],
                    &self.nodes[se],
                );
                let id: usize;
                match self.free.pop() {
                    Some(place) => {
                        // a place that a collection has set free is used again
                        self.nodes.set(place, node);
                        self.alive.set(place, true);
                        self.trees = Ghost(self.trees@.update(place as int, t));
                        id = place;
                    },
                    None => {
                        id = self.nodes.len();
                        self.nodes.push(node);
                        self.alive.push(true);
                        self.trees = Ghost(self.trees@.push(t));
                    },
                }
                interner_insert(&mut self.hashmap, key, id);
                if self.live < usize::MAX {
                    self.live = self.live + 1;
                }
                proof {
                    assert(!old(self).valid(id));
                    assert forall|i: int| 0 <= i < self.nodes@.len() implies #[trigger] self.node_wf(
                        i,
                    ) by {
                        if i != id && self.alive@[i] {
                            assert(old(self).node_wf(i));
                            if i >= 2 {
                                assert(old(self).hashmap@.contains_key(key_of(old(self).nodes@[i])));
                            }
                        }
                    }
                    assert(self.table_wf()) by {
                        assert forall|k: NodeKey| #[trigger]
                            self.hashmap@.contains_key(k) implies 2 <= self.hashmap@[k]
                            < self.nodes@.len() && self.alive@[self.hashmap@[k] as int] && key_of(
                            self.nodes@[self.hashmap@[k] as int],
                        ) == k by {
                            if k != key {
                                assert(old(self).hashmap@.contains_key(k));
                            }
                        }
                    }
                    assert(self.free_wf());
                    assert(self.empty_cache_wf());
                    assert(self.level2_cache_wf());
                }
                id
            },
        }
    }

    /// Stores `r` as the stepped successor of the node `id`.
    pub fn set_cache(&mut self, id: usize, r: usize)
        requires
            old(self).wf(),
            old(self).valid(id),
            old(self).cache_holds(id, r),
        ensures
            final(self).wf(),
            final(self).extends(old(self)),
            final(self).node_count() == old(self).node_count(),
            final(self).tables() == old(self).tables(),
            final(self).record(id) == (TreeNode { cache: Some(r), ..old(self).record(id) }),
            forall|i: usize|
                #![trigger final(self).record(i)]
                old(self).valid(i) && i != id ==> final(self).record(i) == old(self).record(i),
    {
        let mut n: TreeNode = self.nodes[id];
        n.cache = Some(r);
        self.nodes.set(id, n);
        proof {
            assert forall|i: int| 0 <= i < self.nodes@.len() implies #[trigger] self.node_wf(i) by {
                assert(old(self).node_wf(i));
            }
            assert(self.table_wf()) by {
                assert forall|k: NodeKey| #[trigger]
                    self.hashmap@.contains_key(k) implies 2 <= self.hashmap@[k] < self.nodes@.len()
                    && self.alive@[self.hashmap@[k] as int] && key_of(
                    self.nodes@[self.hashmap@[k] as int],
                ) == k by {
                    assert(old(self).hashmap@.contains_key(k));
                }
            }
        }
    }

    /// Stores `r` as the quick successor of the node `id`.
    pub fn set_quick_cache(&mut self, id: usize, r: usize)
        requires
            old(self).wf(),
            old(self).valid(id),
            old(self).quick_cache_holds(id, r),
        ensures
            final(self).wf(),
            final(self).extends(old(self)),
            final(self).node_count() == old(self).node_count(),
            final(self).tables() == old(self).tables(),
            final(self).record(id) == (TreeNode { quick_cache: Some(r), ..old(self).record(id) }),
            forall|i: usize|
                #![trigger final(self).record(i)]
                old(self).valid(i) && i != id ==> final(self).record(i) == old(self).record(i),
    {
        let mut n: TreeNode = self.nodes[id];
        n.quick_cache = Some(r);
        self.nodes.set(id, n);
        proof {
            assert forall|i: int| 0 <= i < self.nodes@.len() implies #[trigger] self.node_wf(i) by {
                assert(old(self).node_wf(i));
            }
            assert(self.table_wf()) by {
                assert forall|k: NodeKey| #[trigger]
                    self.hashmap@.contains_key(k) implies 2 <= self.hashmap@[k] < self.nodes@.len()
                    && self.alive@[self.hashmap@[k] as int] && key_of(
                    self.nodes@[self.hashmap@[k] as int],
                ) == k by {
                    assert(old(self).hashmap@.contains_key(k));
                }
            }
        }
    }

    /// Empties the stepped cache slot of every node, and the quick one too if
    /// `also_quick` is set.
    pub fn uncache(&mut self, also_quick: bool)
        requires
            old(self).wf(),
        ensures
            final(self).wf(),
            final(self).extends(old(self)),
            final(self).node_count() == old(self).node_count(),
            final(self).caches_clear(),
            also_quick ==> final(self).quick_caches_clear(),
            final(self).tables() == old(self).tables(),
            forall|i: usize|
                #![trigger final(self).record(i)]
                old(self).valid(i) ==> final(self).record(i) == (TreeNode {
                    cache: None,
                    quick_cache: if also_quick {
                        None
                    } else {
                        old(self).record(i).quick_cache
                    },
                    ..old(self).record(i)
                }),
    {
        let count: usize = self.nodes.len();
        let mut i: usize = 0;
        while i < count
            invariant
                i <= count,
                count == self.nodes@.len(),
                self.wf(),
                self.extends(old(self)),
                self.node_count() == old(self).node_count(),
                self.tables() == old(self).tables(),
                forall|j: int| 0 <= j < i ==> (#[trigger] self.nodes@[j]).cache.is_none(),
                also_quick ==> forall|j: int|
                    0 <= j < i ==> (#[trigger] self.nodes@[j]).quick_cache.is_none(),
                forall|j: int|
                    0 <= j < i ==> #[trigger] self.nodes@[j] == (TreeNode {
                        cache: None,
                        quick_cache: if also_quick {
                            None
                        } else {
                            old(self).nodes@[j].quick_cache
                        },
                        ..old(self).nodes@[j]
                    }),
                forall|j: int| i <= j < count ==> #[trigger] self.nodes@[j] == old(self).nodes@[j],
            decreases count - i,
        {
            let ghost before = *self;
            let mut n: TreeNode = self.nodes[i];
            n.cache = None;
            if also_quick {
                n.quick_cache = None;
            }
            self.nodes.set(i, n);
            proof {
                assert forall|j: int| 0 <= j < self.nodes@.len() implies #[trigger] self.node_wf(
                    j,
                ) by {
                    assert(before.node_wf(j));
                }
                assert(self.table_wf()) by {
                    assert forall|k: NodeKey| #[trigger]
                        self.hashmap@.contains_key(k) implies 2 <= self.hashmap@[k]
                        < self.nodes@.len() && self.alive@[self.hashmap@[k] as int] && key_of(
                        self.nodes@[self.hashmap@[k] as int],
                    ) == k by {
                        assert(before.hashmap@.contains_key(k));
                    }
                }
            }
            i = i + 1;
        }
    }

    /// Forgets the ready-made all-dead trees and 4x4 patterns. The nodes
    /// themselves stay.
    pub fn reset_caches(&mut self)
        requires
            old(self).wf(),
        ensures
            final(self).wf(),
            final(self).extends(old(self)),
            final(self).node_count() == old(self).node_count(),
            old(self).caches_clear() ==> final(self).caches_clear(),
            old(self).quick_caches_clear() ==> final(self).quick_caches_clear(),
            final(self).keeps_records(old(self)),
            final(self).tables() == Self::no_tables(),
    {
        self.empty_tree_cache.clear();
        self.level2_cache = vec![None; LEVEL2_PATTERNS];
        proof {
            assert(self.tables().0 =~= Self::no_tables().0);
            assert(self.tables().1 =~= Self::no_tables().1);
            assert forall|j: int| 0 <= j < self.nodes@.len() implies #[trigger] self.node_wf(j) by {
                assert(old(self).node_wf(j));
            }
            if old(self).caches_clear() {
                assert forall|i: usize| self.valid(i) implies (#[trigger] self.record(i)).cache.is_none() by {
                    assert(old(self).valid(i));
                    assert(old(self).record(i).cache.is_none());
                }
            }
            if old(self).quick_caches_clear() {
                assert forall|i: usize| self.valid(i) implies (#[trigger] self.record(
                    i,
                )).quick_cache.is_none() by {
                    assert(old(self).valid(i));
                    assert(old(self).record(i).quick_cache.is_none());
                }
            }
        }
    }

    /// The canonical all-dead tree of the given level.
    pub fn empty_tree(&mut self, level: usize) -> (r: usize)
        requires
            old(self).wf(),
            level <= MAX_LEVEL,
        ensures
            final(self).wf(),
            final(self).extends(old(self)),
            final(self).valid(r),
            final(self).tree(r) == Tree::empty(level as nat),
            final(self).keeps_records(old(self)),
            old(self).tables().0.is_prefix_of(final(self).tables().0),
            final(self).tables().0.len() > level,
            final(self).tables().0[level as int] == r,
            final(self).tables().1 == old(self).tables().1,
            old(self).node_count() <= final(self).node_count() <= old(self).node_count() + level + 1,
            old(self).tables().0.len() > level ==> final(self).node_count() == old(self).node_count(),
    {
        while self.empty_tree_cache.len() <= level
            invariant
                old(self).node_count() <= self.node_count() <= old(self).node_count()
                    + self.tables().0.len(),
                old(self).tables().0.len() > level ==> self.node_count() == old(self).node_count(),
                self.tables().0.len() <= level + 1 || self.tables().0.len() == old(
                    self,
                ).tables().0.len(),
                self.wf(),
                self.extends(old(self)),
                self.keeps_records(old(self)),
                old(self).tables().0.is_prefix_of(self.tables().0),
                self.tables().1 == old(self).tables().1,
                level <= MAX_LEVEL,
            decreases level + 1 - self.empty_tree_cache.len(),
        {
            let ghost before = *self;
            let known: usize = self.empty_tree_cache.len();
            if known == 0 {
                proof {
                    self.lemma_leaves();
                }
                self.empty_tree_cache.push(FALSE_LEAF);
                proof {
                    assert forall|j: int| 0 <= j < self.nodes@.len() implies #[trigger] self.node_wf(
                        j,
                    ) by {
                        assert(before.node_wf(j));
                    }
                }
            } else {
                let last: usize = self.empty_tree_cache[known - 1];
                proof {
                    crate::tree::lemma_empty_shape((known - 1) as nat);
                }
                let new_node = self.create_tree(last, last, last, last);
                let ghost grown = *self;
                self.empty_tree_cache.push(new_node);
                proof {
                    assert forall|j: int| 0 <= j < self.nodes@.len() implies #[trigger] self.node_wf(
                        j,
                    ) by {
                        assert(grown.node_wf(j));
                    }
                    assert(self.empty_cache_wf()) by {
                        assert forall|l: int| 0 <= l < self.empty_tree_cache@.len() implies self.valid(
                            #[trigger] self.empty_tree_cache@[l],
                        ) && self.tree(self.empty_tree_cache@[l]) == Tree::empty(l as nat) by {
                            if l < known {
                                assert(grown.valid(grown.empty_tree_cache@[l]));
                            }
                        }
                    }
                }
            }
        }
        self.empty_tree_cache[level]
    }

    /// The canonical level-1 node whose cells are the low four bits of
    /// `mask`: bit 0 north-west, bit 1 north-east, bit 2 south-west, bit 3
    /// south-east.
    pub fn level1_create(&mut self, mask: usize) -> (r: usize)
        requires
            old(self).wf(),
        ensures
            final(self).wf(),
            final(self).extends(old(self)),
            final(self).valid(r),
            final(self).tree(r) == level1_tree(mask),
            final(self).tables() == old(self).tables(),
            final(self).keeps_records(old(self)),
    {
        proof {
            self.lemma_leaves();
        }
        self.create_tree(
            if mask & 1 != 0 {
                TRUE_LEAF
            } else {
                FALSE_LEAF
            },
            if mask & 2 != 0 {
                TRUE_LEAF
            } else {
                FALSE_LEAF
            },
            if mask & 4 != 0 {
                TRUE_LEAF
            } else {
                FALSE_LEAF
            },
            if mask & 8 != 0 {
                TRUE_LEAF
            } else {
                FALSE_LEAF
            },
        )
    }

    /// The canonical level-2 node whose quadrants are the four nibbles of
    /// `mask`, lowest first; taken from the table of 4x4 patterns where it
    /// was made before.
    pub fn level2_create(&mut self, mask: usize) -> (r: usize)
        requires
            old(self).wf(),
            mask < LEVEL2_PATTERNS,
        ensures
            final(self).wf(),
            final(self).extends(old(self)),
            final(self).valid(r),
            final(self).tree(r) == level2_tree(mask),
            final(self).keeps_records(old(self)),
            final(self).tables().0 == old(self).tables().0,
            final(self).tables().1 == old(self).tables().1.update(mask as int, Some(r)),
    {
        match self.level2_cache[mask] {
            Some(cached) => cached,
            None => {
                let nw = self.level1_create(mask);
                let ne = self.level1_create(mask >> 4);
                let sw = self.level1_create(mask >> 8);
                let se = self.level1_create(mask >> 12);
                proof {
                    reveal_with_fuel(Tree::level, 3);
                }
                let new_node = self.create_tree(nw, ne, sw, se);
                let ghost grown = *self;
                self.level2_cache.set(mask, Some(new_node));
                proof {
                    assert forall|j: int| 0 <= j < self.nodes@.len() implies #[trigger] self.node_wf(
                        j,
                    ) by {
                        assert(grown.node_wf(j));
                    }
                    assert(self.level2_cache_wf()) by {
                        assert forall|m: int| 0 <= m < LEVEL2_PATTERNS implies match #[trigger] self.level2_cache@[m] {
                            Some(r) => self.valid(r) && self.tree(r) == level2_tree(m as usize),
                            None => true,
                        } by {
                            if m != mask {
                                assert(self.level2_cache@[m] == grown.level2_cache@[m]);
                            }
                        }
                    }
                }
                new_node
            },
        }
    }

    /// Makes `r` the root.
    pub fn set_root(&mut self, r: usize)
        requires
            old(self).wf(),
            old(self).valid(r),
            old(self).tree(r).level() >= 1,
        ensures
            final(self).wf(),
            final(self).grows(old(self)),
            final(self).node_count() == old(self).node_count(),
            final(self).root_id() == r,
            final(self).rewind_id() == old(self).rewind_id(),
            final(self)@ == (UniverseView { root: old(self).tree(r), ..old(self)@ }),
            final(self).keeps_records(old(self)),
            final(self).tables() == old(self).tables(),
            final(self).high_water_mark() == old(self).high_water_mark(),
    {
        proof {
            assert(self.node_wf(r as int));
        }
        self.root = r;
        proof {
            assert forall|j: int| 0 <= j < self.nodes@.len() implies #[trigger] self.node_wf(j) by {
                assert(old(self).node_wf(j));
            }
        }
    }

    /// A universe that holds the two leaves and the all-dead tree of level 1,
    /// which is its root, with the given settings.
    pub fn blank(step: usize, rule_s: usize, rule_b: usize, generation: u128) -> (u: LifeUniverse)
        ensures
            u.wf(),
            u.rewind_id().is_none(),
            u.root_id() == 2,
            u.node_count() == 3,
            u.high_water_mark() == INITIAL_CAPACITY,
            u@ == (UniverseView {
                root: Tree::empty(1),
                rewind: None,
                generation: generation as nat,
                step,
                rule_s,
                rule_b,
            }),
    {
        let false_leaf = TreeNode::new_leaf(FALSE_LEAF);
        let true_leaf = TreeNode::new_leaf(TRUE_LEAF);
        let first = TreeNode::new(
            FALSE_LEAF,
            FALSE_LEAF,
            FALSE_LEAF,
            FALSE_LEAF,
            &false_leaf,
            &false_leaf,
            &false_leaf,
            &false_leaf,
        );
        let mut nodes: Vec<TreeNode> = Vec::new();
        nodes.push(false_leaf);
        nodes.push(true_leaf);
        nodes.push(first);
        let mut hashmap = interner_new(INITIAL_CAPACITY);
        interner_insert(&mut hashmap, (FALSE_LEAF, FALSE_LEAF, FALSE_LEAF, FALSE_LEAF), 2);
        let ghost dead = Tree::Leaf(false);
        let ghost trees = seq![dead, Tree::Leaf(true), Tree::join(dead, dead, dead, dead)];
        let mut alive: Vec<bool> = Vec::new();
        alive.push(true);
        alive.push(true);
        alive.push(true);
        let ret = LifeUniverse {
            nodes,
            alive,
            free: Vec::new(),
            live: 3,
            hashmap,
            empty_tree_cache: Vec::new(),
            level2_cache: vec![None; LEVEL2_PATTERNS],
            rule_b,
            rule_s,
            root: 2,
            rewind_state: None,
            step,
            generation,
            high_water: INITIAL_CAPACITY,
            trees: Ghost(trees),
        };
        proof {
            reveal_with_fuel(Tree::level, 3);
            reveal_with_fuel(Tree::balanced, 3);
            reveal_with_fuel(Tree::population, 3);
            reveal_with_fuel(Tree::empty, 3);
            assert(ret.node_wf(0));
            assert(ret.node_wf(1));
            assert(ret.node_wf(2));
        }
        ret
    }

    /// Sets or forgets the saved root.
    pub fn set_rewind(&mut self, r: Option<usize>)
        requires
            old(self).wf(),
            match r {
                Some(id) => old(self).valid(id) && old(self).tree(id).level() >= 1,
                None => true,
            },
        ensures
            final(self).wf(),
            final(self).grows(old(self)),
            final(self).node_count() == old(self).node_count(),
            final(self).root_id() == old(self).root_id(),
            final(self).rewind_id() == r,
            final(self)@ == (UniverseView {
                rewind: match r {
                    Some(id) => Some(old(self).tree(id)),
                    None => None,
                },
                ..old(self)@
            }),
            final(self).keeps_records(old(self)),
            final(self).tables() == old(self).tables(),
            final(self).high_water_mark() == old(self).high_water_mark(),
    {
        proof {
            match r {
                Some(id) => {
                    assert(self.node_wf(id as int));
                },
                None => {},
            }
        }
        self.rewind_state = r;
        proof {
            assert forall|j: int| 0 <= j < self.nodes@.len() implies #[trigger] self.node_wf(j) by {
                assert(old(self).node_wf(j));
            }
        }
    }

    /// The number of nodes in the arena, the two leaves included.
    pub fn count_nodes(&self) -> (r: usize)
        ensures
            r == self.node_count(),
    {
        self.live
    }

    /// The number of places in the arena, in use or not.
    pub fn arena_len(&self) -> (r: usize)
        ensures
            r == self.arena_size(),
    {
        self.nodes.len()
    }

    /// Whether `id` names a node.
    pub fn is_node(&self, id: usize) -> (r: bool)
        requires
            self.wf(),
        ensures
            r == self.valid(id),
    {
        id < self.alive.len() && self.alive[id]
    }

    /// Whether there are as many nodes as the number at which garbage is
    /// collected.
    pub fn is_full(&self) -> (r: bool)
        ensures
            r == (self.node_count() >= self.high_water_mark()),
    {
        self.live >= self.high_water
    }

    /// Sets the number of nodes at which garbage is collected next.
    pub fn set_high_water(&mut self, mark: usize)
        requires
            old(self).wf(),
        ensures
            final(self).wf(),
            final(self).grows(old(self)),
            final(self).root_id() == old(self).root_id(),
            final(self).rewind_id() == old(self).rewind_id(),
            final(self)@ == old(self)@,
            final(self).node_count() == old(self).node_count(),
            final(self).keeps_records(old(self)),
            final(self).tables() == old(self).tables(),
            final(self).high_water_mark() == mark,
    {
        self.high_water = mark;
        proof {
            assert forall|j: int| 0 <= j < self.nodes@.len() implies #[trigger] self.node_wf(j) by {
                assert(old(self).node_wf(j));
            }
        }
    }

    /// An empty universe of level 3 with Conway's rules, step 0 and the
    /// generation counter at 0.
    pub fn new() -> (u: LifeUniverse)
        ensures
            u.wf(),
            u@ == (UniverseView {
                root: Tree::empty(3),
                rewind: None,
                generation: 0,
                step: 0,
                rule_s: CONWAY_SURVIVE,
                rule_b: CONWAY_BIRTH,
            }),
            u.rewind_id().is_none(),
            3 <= u.node_count() <= 7,
            u.high_water_mark() == INITIAL_CAPACITY,
    {
        let mut ret = LifeUniverse::blank(0, CONWAY_SURVIVE, CONWAY_BIRTH, 0);
        let root = ret.empty_tree(3);
        proof {
            crate::tree::lemma_empty_shape(3);
        }
        ret.set_root(root);
        ret
    }

    /// What a collection does once the nodes to keep are marked: the nodes
    /// that are not marked leave the table and give up their places, which
    /// are listed as free; the marked ones stay as and where they are. The
    /// tables of ready-made trees are forgotten, and the next collection is
    /// due when the number of nodes has doubled, and not before there are as
    /// many as a new universe makes room for.
    pub fn sweep(&mut self, marks: Vec<bool>)
        requires
            old(self).wf(),
            marks@.len() == old(self).arena_size(),
            marks@[0],
            marks@[1],
            marks@[old(self).root_id() as int],
            match old(self).rewind_id() {
                Some(saved) => marks@[saved as int],
                None => true,
            },
            forall|i: int| 0 <= i < marks@.len() && #[trigger] marks@[i] ==> old(self).valid(i as usize),
            forall|a: usize, b: usize|
                a < marks@.len() && marks@[a as int] && #[trigger] old(self).links(a, b) ==> b
                    < marks@.len() && marks@[b as int],
        ensures
            final(self).wf(),
            final(self)@ == old(self)@,
            final(self).root_id() == old(self).root_id(),
            final(self).rewind_id() == old(self).rewind_id(),
            final(self).arena_size() == old(self).arena_size(),
            forall|i: usize|
                #![trigger final(self).valid(i)]
                final(self).valid(i) == (i < marks@.len() && marks@[i as int]),
            forall|i: usize| #[trigger] final(self).record(i) == old(self).record(i),
            forall|i: usize| #[trigger] final(self).tree(i) == old(self).tree(i),
            final(self).tables() == Self::no_tables(),
            final(self).node_count() <= final(self).arena_size(),
            final(self).high_water_mark() == (if 2 * final(self).node_count() < INITIAL_CAPACITY {
                INITIAL_CAPACITY as int
            } else if 2 * final(self).node_count() > usize::MAX {
                usize::MAX as int
            } else {
                2 * final(self).node_count() as int
            }),
    {
        let count: usize = self.nodes.len();
        let mut table = interner_new(INITIAL_CAPACITY);
        let mut free: Vec<usize> = Vec::new();
        let mut live: usize = 0;
        let mut i: usize = 0;
        proof {
            assert(table@ =~= Map::<NodeKey, usize>::empty());
        }
        while i < count
            invariant
                i <= count,
                count == self.nodes@.len(),
                self.wf(),
                *self == *old(self),
                marks@.len() == count,
                forall|j: int| 0 <= j < marks@.len() && #[trigger] marks@[j] ==> self.valid(j as usize),
                live <= i,
                forall|k: NodeKey| #[trigger]
                    table@.contains_key(k) ==> 2 <= table@[k] < i && marks@[table@[k] as int]
                        && key_of(self.nodes@[table@[k] as int]) == k,
                forall|j: int|
                    2 <= j < i && marks@[j] ==> table@.contains_key(
                        key_of(#[trigger] self.nodes@[j]),
                    ) && table@[key_of(self.nodes@[j])] == j,
                forall|j: int|
                    0 <= j < free@.len() ==> (#[trigger] free@[j]) < i && !marks@[free@[j] as int],
                forall|j: int, k: int|
                    0 <= j < k < free@.len() ==> (#[trigger] free@[j]) < (#[trigger] free@[k]),
            decreases count - i,
        {
            if marks[i] {
                if i >= 2 {
                    let n = self.nodes[i];
                    let key = Self::get_key(n.nw, n.ne, n.sw, n.se);
                    proof {
                        assert(self.node_wf(i as int));
                        if table@.contains_key(key) {
                            assert(self.node_wf(table@[key] as int));
                        }
                    }
                    interner_insert(&mut table, key, i);
                }
                live = live + 1;
            } else {
                free.push(i);
            }
            i = i + 1;
        }
        let doubled = if live > usize::MAX / 2 {
            usize::MAX
        } else {
            2 * live
        };
        self.hashmap = table;
        self.free = free;
        self.alive = marks;
        self.live = live;
        self.empty_tree_cache.clear();
        self.level2_cache = vec![None; LEVEL2_PATTERNS];
        self.high_water = if doubled < INITIAL_CAPACITY {
            INITIAL_CAPACITY
        } else {
            doubled
        };
        proof {
            assert(self.tables().0 =~= Self::no_tables().0);
            assert(self.tables().1 =~= Self::no_tables().1);
            assert forall|j: int| 0 <= j < self.nodes@.len() implies #[trigger] self.node_wf(j) by {
                if self.alive@[j] {
                    assert(old(self).valid(j as usize));
                    assert(old(self).node_wf(j));
                    let n = self.nodes@[j];
                    if n.level >= 1 {
                        assert(old(self).links(j as usize, n.nw));
                        assert(old(self).links(j as usize, n.ne));
                        assert(old(self).links(j as usize, n.sw));
                        assert(old(self).links(j as usize, n.se));
                    }
                    match n.cache {
                        Some(c) => {
                            assert(old(self).links(j as usize, c));
                        },
                        None => {},
                    }
                    match n.quick_cache {
                        Some(c) => {
                            assert(old(self).links(j as usize, c));
                        },
                        None => {},
                    }
                }
            }
            assert(self.table_wf());
            assert(self.free_wf());
        }
    }

    /// Sets the generation counter.
    pub fn set_generation(&mut self, generation: u128)
        requires
            old(self).wf(),
        ensures
            final(self).wf(),
            final(self).grows(old(self)),
            final(self).node_count() == old(self).node_count(),
            final(self).root_id() == old(self).root_id(),
            final(self).rewind_id() == old(self).rewind_id(),
            final(self)@ == (UniverseView { generation: generation as nat, ..old(self)@ }),
            final(self).keeps_records(old(self)),
            final(self).tables() == old(self).tables(),
            final(self).high_water_mark() == old(self).high_water_mark(),
    {
        self.generation = generation;
        proof {
            assert forall|j: int| 0 <= j < self.nodes@.len() implies #[trigger] self.node_wf(j) by {
                assert(old(self).node_wf(j));
            }
        }
    }

    /// Remembers the current root for `restore_rewind_state`.
    pub fn save_rewind_state(&mut self)
        requires
            old(self).wf(),
        ensures
            final(self).wf(),
            final(self).grows(old(self)),
            final(self).root_id() == old(self).root_id(),
            final(self).rewind_id() == Some(old(self).root_id()),
            final(self)@ == (UniverseView { rewind: Some(old(self)@.root), ..old(self)@ }),
            final(self).keeps_records(old(self)),
            final(self).tables() == old(self).tables(),
            final(self).node_count() == old(self).node_count(),
            final(self).high_water_mark() == old(self).high_water_mark(),
    {
        self.rewind_state = Some(self.root);
        proof {
            assert forall|j: int| 0 <= j < self.nodes@.len() implies #[trigger] self.node_wf(j) by {
                assert(old(self).node_wf(j));
            }
        }
    }

    /// Whether a root was saved for rewinding.
    pub fn has_rewind_state(&self) -> (r: bool)
        ensures
            r == self@.rewind.is_some(),
    {
        self.rewind_state.is_some()
    }

    /// The step exponent: one tick advances `2^step` generations.
    pub fn get_step(&self) -> (r: usize)
        ensures
            r == self@.step,
    {
        self.step
    }

    /// The survival mask of the rule.
    pub fn get_rule_s(&self) -> (r: usize)
        ensures
            r == self@.rule_s,
    {
        self.rule_s
    }

    /// The birth mask of the rule.
    pub fn get_rule_b(&self) -> (r: usize)
        ensures
            r == self@.rule_b,
    {
        self.rule_b
    }

    /// The generation counter.
    pub fn get_generation(&self) -> (r: u128)
        ensures
            r == self@.generation,
    {
        self.generation
    }

    /// The number of live cells.
    pub fn get_population(&self) -> (r: u128)
        requires
            self.wf(),
        ensures
            r == self@.root.population(),
    {
        self.node(self.root).population
    }

    /// The level of the root.
    pub fn get_level(&self) -> (r: usize)
        requires
            self.wf(),
        ensures
            r == self@.level(),
            1 <= r <= MAX_LEVEL,
    {
        proof {
            self.lemma_root();
        }
        self.node(self.root).level
    }

    /// Changes the step exponent. Cached stepped successors belong to the
    /// step they were computed for, so a change empties every stepped cache
    /// slot and forgets the ready-made trees.
    pub fn set_step(&mut self, step: usize)
        requires
            old(self).wf(),
        ensures
            final(self).wf(),
            final(self).grows(old(self)),
            final(self).root_id() == old(self).root_id(),
            final(self).rewind_id() == old(self).rewind_id(),
            final(self)@ == (UniverseView { step: step, ..old(self)@ }),
            final(self).node_count() == old(self).node_count(),
            final(self).high_water_mark() == old(self).high_water_mark(),
            step == old(self)@.step ==> final(self).keeps_records(old(self)) && final(self).tables()
                == old(self).tables(),
            step != old(self)@.step ==> final(self).caches_clear() && final(self).tables()
                == Self::no_tables(),
    {
        if step != self.step {
            self.uncache(false);
            let ghost cleared = *self;
            self.step = step;
            proof {
                assert forall|j: int| 0 <= j < self.nodes@.len() implies #[trigger] self.node_wf(
                    j,
                ) by {
                    assert(cleared.node_wf(j));
                    if self.alive@[j] {
                        assert(cleared.valid(j as usize));
                        assert(cleared.record(j as usize).cache.is_none());
                    }
                }
                assert forall|i: usize| self.valid(i) implies (#[trigger] self.record(i)).cache.is_none() by {
                    assert(cleared.valid(i));
                    assert(cleared.record(i).cache.is_none());
                }
            }
            self.reset_caches();
        }
    }

    /// Changes the rule. Every cached successor belongs to the rule it was
    /// computed for, so a change empties both cache slots of every node and
    /// forgets the ready-made trees.
    pub fn set_rules(&mut self, s: usize, b: usize)
        requires
            old(self).wf(),
        ensures
            final(self).wf(),
            final(self).grows(old(self)),
            final(self).root_id() == old(self).root_id(),
            final(self).rewind_id() == old(self).rewind_id(),
            final(self)@ == (UniverseView { rule_s: s, rule_b: b, ..old(self)@ }),
            final(self).node_count() == old(self).node_count(),
            final(self).high_water_mark() == old(self).high_water_mark(),
            s == old(self)@.rule_s && b == old(self)@.rule_b ==> final(self).keeps_records(old(self))
                && final(self).tables() == old(self).tables(),
            s != old(self)@.rule_s || b != old(self)@.rule_b ==> final(self).caches_clear()
                && final(self).quick_caches_clear() && final(self).tables() == Self::no_tables(),
    {
        if self.rule_s != s || self.rule_b != b {
            self.uncache(true);
            let ghost cleared = *self;
            self.rule_s = s;
            self.rule_b = b;
            proof {
                assert forall|j: int| 0 <= j < self.nodes@.len() implies #[trigger] self.node_wf(
                    j,
                ) by {
                    assert(cleared.node_wf(j));
                    if self.alive@[j] {
                        assert(cleared.valid(j as usize));
                        assert(cleared.record(j as usize).cache.is_none());
                        assert(cleared.record(j as usize).quick_cache.is_none());
                    }
                }
                assert forall|i: usize| self.valid(i) implies (#[trigger] self.record(i)).cache.is_none() by {
                    assert(cleared.valid(i));
                    assert(cleared.record(i).cache.is_none());
                }
                assert forall|i: usize| self.valid(i) implies (#[trigger] self.record(
                    i,
                )).quick_cache.is_none() by {
                    assert(cleared.valid(i));
                    assert(cleared.record(i).quick_cache.is_none());
                }
            }
            self.reset_caches();
        }
    }
}

/// Powers of two up to the 124th stay well below the largest `u128`, so
/// that four populations of the highest child level can be added.
pub proof fn lemma_pow2_bound(e: nat)
    requires
        e <= 124,
    ensures
        4 * pow2(e) <= 0x4000_0000_0000_0000_0000_0000_0000_0000,
{
    lemma2_to64();
    lemma2_to64_rest();
    lemma_pow2_adds(62, 62);
    assert(pow2(124) == 0x1000_0000_0000_0000_0000_0000_0000_0000) by {
        assert(0x4000000000000000 * 0x4000000000000000 == 0x1000_0000_0000_0000_0000_0000_0000_0000int)
            by (nonlinear_arith);
    }
    if e < 124 {
        vstd::arithmetic::power2::lemma_pow2_strictly_increases(e, 124);
    }
}

} // verus!

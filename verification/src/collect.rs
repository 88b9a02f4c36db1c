//! Garbage collection: the nodes that the root and the saved root can reach
//! are marked, and the places of the others are set free.

use crate::engine::successor_shape;
use crate::tree::Tree;
use crate::universe::{step_gens, LifeUniverse, UniverseView, INITIAL_CAPACITY};
use vstd::arithmetic::power2::pow2;
use vstd::prelude::*;

verus! {

/// Every place that is marked holds a node.
pub open spec fn marks_sound(marks: Seq<bool>, u: &LifeUniverse) -> bool {
    &&& marks.len() == u.arena_size()
    &&& forall|i: int| 0 <= i < marks.len() && #[trigger] marks[i] ==> u.valid(i as usize)
}

/// With every node that is marked, all that the node holds is marked.
pub open spec fn marks_closed(marks: Seq<bool>, u: &LifeUniverse) -> bool {
    forall|a: usize, b: usize|
        a < marks.len() && marks[a as int] && #[trigger] u.links(a, b) ==> b < marks.len()
            && marks[b as int]
}

/// Where a node is marked and the marks are closed, all that can be reached
/// from the node is marked.
pub proof fn lemma_marked_reach(marks: Seq<bool>, u: &LifeUniverse, a: usize, b: usize, steps: nat)
    requires
        marks_closed(marks, u),
        a < marks.len(),
        marks[a as int],
        u.reaches(a, b, steps),
    ensures
        b < marks.len(),
        marks[b as int],
    decreases steps,
{
    if a != b {
        let m = choose|m: usize| #[trigger] u.links(a, m) && u.reaches(m, b, (steps - 1) as nat);
        lemma_marked_reach(marks, u, m, b, (steps - 1) as nat);
    }
}

/// What is reached is reached alike in a universe whose records are the
/// same.
pub proof fn lemma_reaches_same(now: &LifeUniverse, then: &LifeUniverse, a: usize, b: usize, steps: nat)
    requires
        forall|i: usize| #[trigger] now.record(i) == then.record(i),
        then.reaches(a, b, steps),
    ensures
        now.reaches(a, b, steps),
    decreases steps,
{
    if a != b {
        let m = choose|m: usize| #[trigger]
            then.links(a, m) && then.reaches(m, b, (steps - 1) as nat);
        lemma_reaches_same(now, then, m, b, (steps - 1) as nat);
        assert(now.record(a) == then.record(a));
        assert(now.links(a, m));
    }
}

/// What is reachable is reachable alike in a universe whose records are
/// the same.
pub proof fn lemma_reachable_same(now: &LifeUniverse, then: &LifeUniverse, a: usize, b: usize)
    requires
        forall|i: usize| #[trigger] now.record(i) == then.record(i),
        then.reachable(a, b),
    ensures
        now.reachable(a, b),
{
    let steps = choose|steps: nat| then.reaches(a, b, steps);
    lemma_reaches_same(now, then, a, b, steps);
}

/// What is reachable from a node that another node holds is reachable from
/// that one.
pub proof fn lemma_reachable_through(u: &LifeUniverse, r: usize, c: usize, x: usize)
    requires
        u.links(r, c),
        u.reachable(c, x),
    ensures
        u.reachable(r, x),
{
    let steps = choose|steps: nat| u.reaches(c, x, steps);
    assert(u.reaches(r, x, steps + 1));
}

impl LifeUniverse {
    /// The node can be reached from the root or from the saved root.
    pub open spec fn rooted(&self, id: usize) -> bool {
        self.reachable(self.root_id(), id) || match self.rewind_id() {
            Some(saved) => self.reachable(saved, id),
            None => false,
        }
    }

    /// Every node is one of the two leaves, or can be reached from the root
    /// or from the saved root.
    pub open spec fn all_reachable(&self) -> bool {
        forall|id: usize| #[trigger] self.valid(id) ==> id < 2 || self.rooted(id)
    }

    /// Every node that the root or the saved root of `old` could reach is
    /// still the node it was: it has the identity, the tree and the record
    /// that it had.
    pub open spec fn keeps_rooted(&self, old: &LifeUniverse) -> bool {
        forall|a: usize|
            #![trigger self.valid(a)]
            #![trigger self.tree(a)]
            #![trigger old.rooted(a)]
            old.valid(a) && old.rooted(a) ==> self.valid(a) && self.tree(a) == old.tree(a)
    }

    /// What a collection leaves: the universe stands for what it stood for,
    /// the root and the saved root are the nodes they were, every node that
    /// they could reach is the node it was, with its record, and no other
    /// node but the two leaves is left.
    pub open spec fn collected(&self, old: &LifeUniverse) -> bool {
        &&& self.wf()
        &&& self@ == old@
        &&& self.root_id() == old.root_id()
        &&& self.rewind_id() == old.rewind_id()
        &&& self.keeps_rooted(old)
        &&& forall|i: usize| #[trigger] self.record(i) == old.record(i)
        &&& self.all_reachable()
        &&& forall|a: usize| #[trigger] self.valid(a) ==> old.valid(a)
        &&& self.tables() == Self::no_tables()
        &&& self.high_water_mark() == (if 2 * self.node_count() < INITIAL_CAPACITY {
            INITIAL_CAPACITY as int
        } else if 2 * self.node_count() > usize::MAX {
            usize::MAX as int
        } else {
            2 * self.node_count() as int
        })
    }

    /// Marks a node as reachable, and with it all that is below it and the
    /// cached successors of each of these. Nothing is marked but what can
    /// be reached from the node.
    pub fn mark_node(&self, node: usize, marks: &mut Vec<bool>)
        requires
            self.wf(),
            self.valid(node),
            marks_sound(old(marks)@, self),
            marks_closed(old(marks)@, self),
        ensures
            marks_sound(final(marks)@, self),
            marks_closed(final(marks)@, self),
            final(marks)@[node as int],
            forall|i: int| 0 <= i < old(marks)@.len() && old(marks)@[i] ==> #[trigger] final(marks)@[i],
            forall|i: int|
                0 <= i < final(marks)@.len() && #[trigger] final(marks)@[i] && !old(marks)@[i]
                    ==> self.reachable(node, i as usize),
        decreases self.tree(node).level(),
    {
        proof {
            self.lemma_arena(node);
        }
        if marks[node] {
            return ;
        }
        let n = *self.node(node);
        let ghost t = self.tree(node);
        let ghost m0 = marks@;
        proof {
            self.lemma_arena(n.nw);
            self.lemma_arena(n.ne);
            self.lemma_arena(n.sw);
            self.lemma_arena(n.se);
        }
        if n.level >= 1 {
            self.mark_node(n.nw, marks);
            assert(marks@[n.nw as int]);
            self.mark_node(n.ne, marks);
            assert(marks@[n.nw as int] && marks@[n.ne as int]);
            self.mark_node(n.sw, marks);
            assert(marks@[n.nw as int] && marks@[n.ne as int] && marks@[n.sw as int]);
            self.mark_node(n.se, marks);
            assert(marks@[n.nw as int] && marks@[n.ne as int] && marks@[n.sw as int] && marks@[n.se as int]);
        }
        let ghost m1 = marks@;
        if let Some(cached) = n.get_cache() {
            proof {
                successor_shape(t, self@.rule_s, self@.rule_b, step_gens(t.level(), self@.step as nat));
            }
            self.mark_node(cached, marks);
        }
        let ghost m2 = marks@;
        if let Some(cached) = n.get_quick_cache() {
            proof {
                successor_shape(t, self@.rule_s, self@.rule_b, pow2((t.level() - 2) as nat));
            }
            self.mark_node(cached, marks);
        }
        let ghost m3 = marks@;
        marks.set(node, true);
        proof {
            assert(self.reaches(node, node, 0));
            assert forall|i: int|
                0 <= i < marks@.len() && #[trigger] marks@[i] && !m0[i] implies self.reachable(
                node,
                i as usize,
            ) by {
                if i != node {
                    assert(m3[i]);
                    if n.level >= 1 && m1[i] {
                        // marked below one of the quadrants
                        self.lemma_marked_below(n, node, i as usize);
                    } else if m2[i] {
                        let c = n.cache.unwrap();
                        assert(self.links(node, c));
                        assert(self.reachable(c, i as usize));
                        lemma_reachable_through(self, node, c, i as usize);
                    } else {
                        let c = n.quick_cache.unwrap();
                        assert(self.links(node, c));
                        assert(self.reachable(c, i as usize));
                        lemma_reachable_through(self, node, c, i as usize);
                    }
                }
            }
            assert forall|a: usize, b: usize|
                a < marks@.len() && marks@[a as int] && #[trigger] self.links(a, b) implies b
                < marks@.len() && marks@[b as int] by {
                if a != node {
                    assert(m3[a as int]);
                } else {
                    assert(self.record(node) == n);
                    if n.level >= 1 {
                        assert(m1[n.nw as int] && m1[n.ne as int] && m1[n.sw as int] && m1[n.se as int]);
                        assert(m3[n.nw as int] && m3[n.ne as int] && m3[n.sw as int] && m3[n.se as int]);
                    }
                    match n.cache {
                        Some(c) => {
                            self.lemma_arena(c);
                            assert(m2[c as int]);
                            assert(m3[c as int]);
                        },
                        None => {},
                    }
                    match n.quick_cache {
                        Some(c) => {
                            self.lemma_arena(c);
                            assert(m3[c as int]);
                        },
                        None => {},
                    }
                }
            }
        }
    }

    /// Collects garbage: every node that neither the root nor the saved
    /// root can reach, directly or through cached successors, leaves the
    /// table and gives up its place. The nodes that stay are the nodes they
    /// were, with the identity they had; what the universe stands for stays
    /// as it is.
    pub fn garbage_collect(&mut self)
        requires
            old(self).wf(),
        ensures
            final(self).collected(old(self)),
    {
        let mut marks: Vec<bool> = vec![false; self.arena_len()];
        proof {
            self.lemma_leaves();
            self.lemma_root();
            self.lemma_arena(0);
            self.lemma_arena(1);
            self.lemma_record(0);
            self.lemma_record(1);
        }
        marks.set(0, true);
        marks.set(1, true);
        let ghost m0 = marks@;
        self.mark_node(self.root(), &mut marks);
        let ghost m1 = marks@;
        match self.rewind() {
            Some(saved) => {
                self.mark_node(saved, &mut marks);
            },
            None => {},
        }
        let ghost m2 = marks@;
        let ghost before = *self;
        proof {
            self.lemma_arena(self.root_id());
            match self.rewind_id() {
                Some(saved) => {
                    self.lemma_arena(saved);
                },
                None => {},
            }
        }
        self.sweep(marks);
        proof {
            assert forall|a: usize|
                before.valid(a) && before.rooted(a) implies #[trigger] self.valid(a) && self.tree(a)
                == before.tree(a) by {
                if before.reachable(before.root_id(), a) {
                    let steps = choose|steps: nat| before.reaches(before.root_id(), a, steps);
                    lemma_marked_reach(m2, &before, before.root_id(), a, steps);
                } else {
                    let saved = before.rewind_id().unwrap();
                    let steps = choose|steps: nat| before.reaches(saved, a, steps);
                    lemma_marked_reach(m2, &before, saved, a, steps);
                }
            }
            assert forall|id: usize| #[trigger] self.valid(id) implies id < 2 || self.rooted(id) by {
                if id >= 2 {
                    assert(m2[id as int]);
                    if m1[id as int] {
                        assert(before.reachable(before.root_id(), id));
                        lemma_reachable_same(self, &before, before.root_id(), id);
                    } else {
                        let saved = before.rewind_id().unwrap();
                        assert(before.reachable(saved, id));
                        lemma_reachable_same(self, &before, saved, id);
                    }
                }
            }
        }
    }

    /// Replaces the pattern by the empty one of level 3 and sets the
    /// generation counter to 0. Step, rules and the saved root stay, and
    /// garbage is collected.
    pub fn clear_pattern(&mut self)
        requires
            old(self).wf(),
        ensures
            final(self).wf(),
            final(self)@ == (UniverseView { root: Tree::empty(3), generation: 0, ..old(self)@ }),
            final(self).rewind_id() == old(self).rewind_id(),
            final(self).all_reachable(),
            final(self).tables() == Self::no_tables(),
    {
        let root = self.empty_tree(3);
        proof {
            crate::tree::lemma_empty_shape(3);
        }
        self.set_root(root);
        self.set_generation(0);
        self.garbage_collect();
    }

    /// Collects garbage if there are as many nodes as the size at which
    /// that is due. Either way the root, the saved root and every node that
    /// they can reach are the nodes they were.
    pub fn collect_if_full(&mut self)
        requires
            old(self).wf(),
        ensures
            final(self).wf(),
            final(self)@ == old(self)@,
            final(self).root_id() == old(self).root_id(),
            final(self).rewind_id() == old(self).rewind_id(),
            final(self).keeps_rooted(old(self)),
            old(self).node_count() >= old(self).high_water_mark() ==> final(self).collected(old(self)),
            old(self).node_count() < old(self).high_water_mark() ==> final(self).extends(old(self))
                && final(self).keeps_records(old(self)) && final(self).node_count() == old(
                self,
            ).node_count() && final(self).tables() == old(self).tables(),
    {
        if self.is_full() {
            self.garbage_collect();
        }
    }

    /// Goes back to the saved root, if there is one: it becomes the root,
    /// the generation counter is set to 0, and garbage is collected. The
    /// root is then the very node that was saved.
    pub fn restore_rewind_state(&mut self)
        requires
            old(self).wf(),
        ensures
            final(self).wf(),
            final(self)@ == (match old(self)@.rewind {
                Some(saved) => UniverseView { root: saved, generation: 0, ..old(self)@ },
                None => old(self)@,
            }),
            final(self).rewind_id() == old(self).rewind_id(),
            old(self).rewind_id().is_some() ==> {
                &&& final(self).root_id() == old(self).rewind_id().unwrap()
                &&& final(self).all_reachable()
                &&& final(self).tables() == Self::no_tables()
            },
            old(self).rewind_id().is_none() ==> {
                &&& final(self).extends(old(self))
                &&& final(self).keeps_records(old(self))
                &&& final(self).node_count() == old(self).node_count()
                &&& final(self).tables() == old(self).tables()
            },
    {
        proof {
            self.lemma_root();
        }
        if let Some(saved) = self.rewind() {
            self.set_generation(0);
            self.set_root(saved);
            self.garbage_collect();
        }
    }

    /// What was marked below a quadrant of a node can be reached from the
    /// node.
    proof fn lemma_marked_below(&self, n: crate::node::TreeNode, node: usize, x: usize)
        requires
            n == self.record(node),
            n.level >= 1,
            self.reachable(n.nw, x) || self.reachable(n.ne, x) || self.reachable(n.sw, x)
                || self.reachable(n.se, x),
        ensures
            self.reachable(node, x),
    {
        if self.reachable(n.nw, x) {
            assert(self.links(node, n.nw));
            lemma_reachable_through(self, node, n.nw, x);
        } else if self.reachable(n.ne, x) {
            assert(self.links(node, n.ne));
            lemma_reachable_through(self, node, n.ne, x);
        } else if self.reachable(n.sw, x) {
            assert(self.links(node, n.sw));
            lemma_reachable_through(self, node, n.sw, x);
        } else {
            assert(self.links(node, n.se));
            lemma_reachable_through(self, node, n.se, x);
        }
    }
}

} // verus!

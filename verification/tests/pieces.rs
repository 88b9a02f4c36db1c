use hashlife::bounds::{MASK_BOTTOM, MASK_LEFT, MASK_RIGHT, MASK_TOP};
use hashlife::field::{centre_offset, get_bounds, get_level_from_bounds, move_field, partition};
use hashlife::node::TreeNode;
use hashlife::powers::{half_side, pow2_saturating, pow2_u64};
use hashlife::universe::{
    LifeUniverse, CONWAY_BIRTH, CONWAY_SURVIVE, FALSE_LEAF, INITIAL_CAPACITY, LEVEL2_PATTERNS,
    MAX_LEVEL, TRUE_LEAF,
};

#[test]
fn leaf_records() {
    let dead = TreeNode::new_leaf(0);
    assert_eq!(dead.level, 0);
    assert_eq!(dead.population, 0);
    assert_eq!((dead.nw, dead.ne, dead.sw, dead.se), (0, 0, 0, 0));
    assert_eq!(dead.get_cache(), None);
    assert_eq!(dead.get_quick_cache(), None);
    let live = TreeNode::new_leaf(1);
    assert_eq!(live.level, 0);
    assert_eq!(live.population, 1);
    assert_eq!((live.nw, live.ne, live.sw, live.se), (1, 1, 1, 1));
}

#[test]
fn inner_record_adds_up() {
    let dead = TreeNode::new_leaf(0);
    let live = TreeNode::new_leaf(1);
    let n = TreeNode::new(1, 0, 1, 1, &live, &dead, &live, &live);
    assert_eq!(n.level, 1);
    assert_eq!(n.population, 3);
    assert_eq!((n.nw, n.ne, n.sw, n.se), (1, 0, 1, 1));
    assert_eq!(n.get_cache(), None);
    assert_eq!(n.get_quick_cache(), None);
    let m = TreeNode::new(7, 8, 9, 10, &n, &n, &n, &n);
    assert_eq!(m.level, 2);
    assert_eq!(m.population, 12);
}

#[test]
fn cache_getters_read_the_slots() {
    let dead = TreeNode::new_leaf(0);
    let mut n = TreeNode::new(0, 0, 0, 0, &dead, &dead, &dead, &dead);
    n.cache = Some(5);
    n.quick_cache = Some(9);
    assert_eq!(n.get_cache(), Some(5));
    assert_eq!(n.get_quick_cache(), Some(9));
}

#[test]
fn constants() {
    assert_eq!(MAX_LEVEL, 63);
    assert_eq!(INITIAL_CAPACITY, 10_000);
    assert_eq!(LEVEL2_PATTERNS, 65_536);
    assert_eq!(CONWAY_BIRTH, 1 << 3);
    assert_eq!(CONWAY_SURVIVE, 1 << 2 | 1 << 3);
    assert_eq!((FALSE_LEAF, TRUE_LEAF), (0, 1));
    assert_eq!((MASK_LEFT, MASK_TOP, MASK_RIGHT, MASK_BOTTOM), (1, 2, 4, 8));
}

#[test]
fn interning_is_canonical() {
    let mut u = LifeUniverse::new();
    let a = u.create_tree(TRUE_LEAF, FALSE_LEAF, FALSE_LEAF, TRUE_LEAF);
    let count = u.count_nodes();
    let b = u.create_tree(TRUE_LEAF, FALSE_LEAF, FALSE_LEAF, TRUE_LEAF);
    assert_eq!(a, b);
    assert_eq!(u.count_nodes(), count);
    let c = u.create_tree(FALSE_LEAF, TRUE_LEAF, FALSE_LEAF, TRUE_LEAF);
    assert_ne!(a, c);
    assert_eq!(u.count_nodes(), count + 1);
    let n = *u.node(a);
    assert_eq!((n.nw, n.ne, n.sw, n.se), (TRUE_LEAF, FALSE_LEAF, FALSE_LEAF, TRUE_LEAF));
    assert_eq!(n.level, 1);
    assert_eq!(n.population, 2);
    // two ways to the same tree end at one node
    let p = u.create_tree(a, c, c, a);
    let a2 = u.level1_create(0b1001);
    let c2 = u.level1_create(0b1010);
    let q = u.create_tree(a2, c2, c2, a2);
    assert_eq!(p, q);
    assert_eq!(u.node(p).population, 8);
    assert_eq!(u.node(p).level, 2);
}

#[test]
fn leaves_sit_at_their_places() {
    let u = LifeUniverse::new();
    let dead = u.node(FALSE_LEAF);
    assert_eq!((dead.level, dead.population), (0, 0));
    let live = u.node(TRUE_LEAF);
    assert_eq!((live.level, live.population), (0, 1));
}

#[test]
fn empty_trees() {
    let mut u = LifeUniverse::new();
    assert_eq!(u.empty_tree(0), FALSE_LEAF);
    let e5 = u.empty_tree(5);
    assert_eq!(u.node(e5).level, 5);
    assert_eq!(u.node(e5).population, 0);
    let again = u.empty_tree(5);
    assert_eq!(e5, again);
    let e4 = u.empty_tree(4);
    let n = *u.node(e5);
    assert_eq!((n.nw, n.ne, n.sw, n.se), (e4, e4, e4, e4));
    u.reset_caches();
    assert_eq!(u.empty_tree(5), e5);
    let top = u.empty_tree(MAX_LEVEL);
    assert_eq!(u.node(top).level, 63);
    assert_eq!(u.node(top).population, 0);
    assert_eq!(u.root(), u.empty_tree(3));
}

#[test]
fn level1_nodes_follow_the_mask() {
    let mut u = LifeUniverse::new();
    let n = u.level1_create(0b0110);
    let r = *u.node(n);
    assert_eq!((r.nw, r.ne, r.sw, r.se), (FALSE_LEAF, TRUE_LEAF, TRUE_LEAF, FALSE_LEAF));
    assert_eq!(r.population, 2);
    let full = u.level1_create(0xff);
    assert_eq!(u.node(full).population, 4);
    assert_eq!(u.level1_create(0x10), u.empty_tree(1));
}

#[test]
fn level2_nodes_follow_the_mask() {
    let mut u = LifeUniverse::new();
    let n = u.level2_create(0x8421);
    let r = *u.node(n);
    assert_eq!(r.level, 2);
    assert_eq!(r.population, 4);
    assert_eq!(r.nw, u.level1_create(1));
    assert_eq!(r.ne, u.level1_create(2));
    assert_eq!(r.sw, u.level1_create(4));
    assert_eq!(r.se, u.level1_create(8));
    assert_eq!(u.level2_create(0x8421), n);
    assert_eq!(u.level2_create(0), u.empty_tree(2));
    let full = u.level2_create(0xffff);
    assert_eq!(u.node(full).population, 16);
}

#[test]
fn eval_mask_applies_the_rule() {
    let u = LifeUniverse::new();
    // dead cell, three neighbours: born
    assert_eq!(u.eval_mask(0b0000_0000_0111), 1);
    assert_eq!(u.eval_mask(0b0100_0100_0100), 1);
    // dead cell, two neighbours: stays dead
    assert_eq!(u.eval_mask(0b0000_0000_0011), 0);
    // live cell, two or three neighbours: survives
    assert_eq!(u.eval_mask(0b0000_0010_0011), 1);
    assert_eq!(u.eval_mask(0b0001_0010_0011), 1);
    // live cell, one or four neighbours: dies
    assert_eq!(u.eval_mask(0b0000_0010_0001), 0);
    assert_eq!(u.eval_mask(0b0101_0010_0101), 0);
    // bits outside the neighbourhood do not count
    assert_eq!(u.eval_mask(0b1000_1000_1000 | 0b0011), 0);
    assert_eq!(u.eval_mask(0xf8a8 | 0b0111), 1);
    // all eight neighbours
    assert_eq!(u.eval_mask(0x757), 0);
    let mut v = LifeUniverse::new();
    v.set_rules(1 << 8, 1 << 8);
    assert_eq!(v.eval_mask(0x757), 1);
    assert_eq!(v.eval_mask(0x757 | 32), 1);
    assert_eq!(v.eval_mask(0x756), 0);
}

#[test]
fn level2_successor_of_a_blinker() {
    let mut u = LifeUniverse::new();
    // a vertical blinker in column 1, rows 0 to 2 of the 4x4 square
    let nw = u.level1_create(0b1010);
    let ne = u.level1_create(0);
    let sw = u.level1_create(0b0010);
    let se = u.level1_create(0);
    let node = u.create_tree(nw, ne, sw, se);
    let next = u.node_level2_next(node);
    // the centre: rows 1 and 2, columns 1 and 2; the blinker now lies in row 1
    assert_eq!(next, u.level1_create(0b0011));
    assert_eq!(u.node_quick_next_generation(node), next);
    assert_eq!(u.node(node).get_quick_cache(), Some(next));
    assert_eq!(u.node_next_generation(node), next);
}

#[test]
fn quick_successor_advances_a_quarter_of_the_side() {
    let mut u = LifeUniverse::new();
    for (x, y) in [(0, -1), (0, 0), (0, 1)] {
        assert_eq!(u.set_bit(x, y, true), Ok(()));
    }
    // level 3: two generations, the blinker is back upright
    let root = u.root();
    assert_eq!(u.node(root).level, 3);
    let quick = u.node_quick_next_generation(root);
    assert_eq!(u.node(quick).level, 2);
    assert_eq!(u.node(quick).population, 3);
    assert!(u.node_get_bit(quick, 2, 1));
    assert!(u.node_get_bit(quick, 2, 2));
    assert!(u.node_get_bit(quick, 2, 3));
    assert_eq!(u.node(root).get_quick_cache(), Some(quick));
    // the stepped successor with step 0: one generation, the blinker lies flat
    let stepped = u.node_next_generation(root);
    assert_eq!(u.node(stepped).level, 2);
    assert!(u.node_get_bit(stepped, 1, 2));
    assert!(u.node_get_bit(stepped, 2, 2));
    assert!(u.node_get_bit(stepped, 3, 2));
    assert!(!u.node_get_bit(stepped, 2, 1));
    assert_eq!(u.node(root).get_cache(), Some(stepped));
    // with step 1 the stepped successor is the quick one
    u.set_step(1);
    assert_eq!(u.node(root).get_cache(), None);
    assert_eq!(u.node(root).get_quick_cache(), Some(quick));
    assert_eq!(u.node_next_generation(root), quick);
}

#[test]
fn rule_change_empties_both_caches() {
    let mut u = LifeUniverse::new();
    let root = u.root();
    let quick = u.node_quick_next_generation(root);
    let stepped = u.node_next_generation(root);
    assert_eq!(u.node(root).get_quick_cache(), Some(quick));
    assert_eq!(u.node(root).get_cache(), Some(stepped));
    u.set_rules(CONWAY_SURVIVE, CONWAY_BIRTH);
    assert_eq!(u.node(root).get_quick_cache(), Some(quick));
    u.set_rules(0, 4);
    assert_eq!(u.node(root).get_quick_cache(), None);
    assert_eq!(u.node(root).get_cache(), None);
}

#[test]
fn uncache_and_set_cache() {
    let mut u = LifeUniverse::new();
    let root = u.root();
    let quick = u.node_quick_next_generation(root);
    let stepped = u.node_next_generation(root);
    u.uncache(false);
    assert_eq!(u.node(root).get_cache(), None);
    assert_eq!(u.node(root).get_quick_cache(), Some(quick));
    u.uncache(true);
    assert_eq!(u.node(root).get_quick_cache(), None);
    u.set_cache(root, stepped);
    u.set_quick_cache(root, quick);
    assert_eq!(u.node(root).get_cache(), Some(stepped));
    assert_eq!(u.node(root).get_quick_cache(), Some(quick));
}

#[test]
fn expanding_frames_the_node() {
    let mut u = LifeUniverse::new();
    assert_eq!(u.set_bit(-1, -1, true), Ok(()));
    assert_eq!(u.set_bit(3, 2, true), Ok(()));
    let root = u.root();
    let big = u.expand_universe(root);
    assert_eq!(u.node(big).level, 4);
    assert_eq!(u.node(big).population, 2);
    let e = u.empty_tree(2);
    let r = *u.node(root);
    let nw = *u.node(u.node(big).nw);
    assert_eq!((nw.nw, nw.ne, nw.sw, nw.se), (e, e, e, r.nw));
    let ne = *u.node(u.node(big).ne);
    assert_eq!((ne.nw, ne.ne, ne.sw, ne.se), (e, e, r.ne, e));
    let sw = *u.node(u.node(big).sw);
    assert_eq!((sw.nw, sw.ne, sw.sw, sw.se), (e, r.sw, e, e));
    let se = *u.node(u.node(big).se);
    assert_eq!((se.nw, se.ne, se.sw, se.se), (r.se, e, e, e));
    // the cells are where they were, seen from the new corner
    assert!(u.node_get_bit(big, 7, 7));
    assert!(u.node_get_bit(big, 11, 10));
    assert!(u.node_get_bit(root, 3, 3));
    assert!(u.node_get_bit(root, 7, 6));
}

#[test]
fn node_set_and_get() {
    let mut u = LifeUniverse::new();
    let e = u.empty_tree(4);
    let a = u.node_set_bit(e, 15, 0, true);
    assert_eq!(u.node(a).population, 1);
    assert!(u.node_get_bit(a, 15, 0));
    assert!(!u.node_get_bit(a, 0, 15));
    assert!(!u.node_get_bit(a, 14, 0));
    let b = u.node_set_bit(a, 0, 15, true);
    assert_eq!(u.node(b).population, 2);
    let c = u.node_set_bit(b, 15, 0, false);
    let d = u.node_set_bit(e, 0, 15, true);
    assert_eq!(c, d);
    assert_eq!(u.node_set_bit(c, 0, 15, false), e);
    assert_eq!(u.node_set_bit(a, 15, 0, true), a);
    assert_eq!(u.node_set_bit(FALSE_LEAF, 0, 0, true), TRUE_LEAF);
    assert_eq!(u.node_set_bit(TRUE_LEAF, 0, 0, false), FALSE_LEAF);
    assert!(u.node_get_bit(TRUE_LEAF, 0, 0));
    assert!(!u.node_get_bit(FALSE_LEAF, 0, 0));
}

#[test]
fn boundary_of_a_node() {
    let mut u = LifeUniverse::new();
    let e = u.empty_tree(3);
    let a = u.node_set_bit(e, 1, 6, true);
    let b = u.node_set_bit(a, 5, 2, true);
    let all = MASK_LEFT | MASK_TOP | MASK_RIGHT | MASK_BOTTOM;
    let mut found = vec![i64::MAX, i64::MIN, i64::MAX, i64::MIN];
    u.node_get_boundary(b, 100, -50, all, &mut found);
    assert_eq!(found, vec![101, 105, -48, -44]);
    // nothing is asked for: nothing is found
    let mut none = vec![i64::MAX, i64::MIN, i64::MAX, i64::MIN];
    u.node_get_boundary(b, 100, -50, 0, &mut none);
    assert_eq!(none, vec![i64::MAX, i64::MIN, i64::MAX, i64::MIN]);
    // a box that holds the node already stays
    let mut wide = vec![0, 200, -100, 0];
    u.node_get_boundary(b, 100, -50, all, &mut wide);
    assert_eq!(wide, vec![0, 200, -100, 0]);
    // a dead node pushes nothing
    let mut dead = vec![3, 2, 3, 2];
    u.node_get_boundary(e, 0, 0, all, &mut dead);
    assert_eq!(dead, vec![3, 2, 3, 2]);
}

#[test]
fn root_bounds_are_tight() {
    let mut u = LifeUniverse::new();
    assert_eq!(u.get_root_bounds(), vec![0, 0, 0, 0]);
    assert_eq!(u.set_bit(-3, 2, true), Ok(()));
    assert_eq!(u.get_root_bounds(), vec![-3, -3, 2, 2]);
    assert_eq!(u.set_bit(40, -17, true), Ok(()));
    assert_eq!(u.get_root_bounds(), vec![-3, 40, -17, 2]);
    assert_eq!(u.set_bit(0, 0, true), Ok(()));
    assert_eq!(u.get_root_bounds(), vec![-3, 40, -17, 2]);
    assert_eq!(u.set_bit(40, -17, false), Ok(()));
    assert_eq!(u.get_root_bounds(), vec![-3, 0, 0, 2]);
    assert_eq!(u.set_bit(-64, 63, true), Ok(()));
    assert_eq!(u.get_root_bounds(), vec![-64, 0, 0, 63]);
}

#[test]
fn field_bounds() {
    let b = get_bounds(&vec![3, -2, 7, 0], &vec![5, 5, -9, 1]);
    assert_eq!((b.left, b.right, b.top, b.bottom), (-2, 7, -9, 5));
    let e = get_bounds(&vec![], &vec![]);
    assert_eq!((e.left, e.right, e.top, e.bottom), (0, 0, 0, 0));
    let one = get_bounds(&vec![-4], &vec![9]);
    assert_eq!((one.left, one.right, one.top, one.bottom), (-4, -4, 9, 9));
    let wide = get_bounds(&vec![i32::MAX, i32::MIN], &vec![i32::MIN, i32::MAX]);
    assert_eq!((wide.left, wide.right, wide.top, wide.bottom), (i32::MIN, i32::MAX, i32::MIN, i32::MAX));
}

#[test]
fn centring() {
    assert_eq!(centre_offset(0, 0), 0);
    assert_eq!(centre_offset(5, 5), -5);
    assert_eq!(centre_offset(0, 1), 0);
    assert_eq!(centre_offset(-1, 1), 0);
    assert_eq!(centre_offset(-1, 0), 1);
    assert_eq!(centre_offset(0, 2), -1);
    assert_eq!(centre_offset(0, 3), -1);
    assert_eq!(centre_offset(-2, 1), 1);
    assert_eq!(centre_offset(10, 20), -15);
    assert_eq!(centre_offset(-20, -10), 15);
    assert_eq!(centre_offset(i32::MIN, i32::MAX), 1);
    assert_eq!(centre_offset(i32::MAX, i32::MAX), -(i32::MAX as i64));
}

#[test]
fn level_from_bounds() {
    assert_eq!(get_level_from_bounds(&vec![]), 3);
    assert_eq!(get_level_from_bounds(&vec![0, 0]), 3);
    assert_eq!(get_level_from_bounds(&vec![3, -4]), 3);
    assert_eq!(get_level_from_bounds(&vec![4]), 4);
    assert_eq!(get_level_from_bounds(&vec![-5]), 4);
    assert_eq!(get_level_from_bounds(&vec![7, -8, 0, 1]), 4);
    assert_eq!(get_level_from_bounds(&vec![8]), 5);
    assert_eq!(get_level_from_bounds(&vec![1, 2, 1000]), 11);
    assert_eq!(get_level_from_bounds(&vec![(1 << 62) - 1, -(1 << 62)]), 63);
    assert_eq!(get_level_from_bounds(&vec![1 << 62]), 64);
    assert_eq!(get_level_from_bounds(&vec![i64::MIN, i64::MAX]), 64);
}

#[test]
fn moving_a_field() {
    let (xs, ys) = move_field(&vec![-3, 0, 4], &vec![2, -2, 0], 8, 2);
    assert_eq!(xs, vec![5, 8, 12]);
    assert_eq!(ys, vec![4, 0, 2]);
    let (ex, ey) = move_field(&vec![], &vec![], 1, 1);
    assert!(ex.is_empty() && ey.is_empty());
}

#[test]
fn partition_sorts_by_one_bit() {
    let mut test = vec![5, 2, 7, 0, 4, 9, 1];
    let mut other = vec![50, 20, 70, 0, 40, 90, 10];
    let mid = partition(0, 7, &mut test, &mut other, 4);
    assert_eq!(mid, 4);
    for i in 0..7 {
        assert_eq!(other[i], test[i] * 10);
        assert_eq!(test[i] & 4 != 0, i >= mid);
    }
    let mut seen = test.clone();
    seen.sort();
    assert_eq!(seen, vec![0, 1, 2, 4, 5, 7, 9]);
}

#[test]
fn partition_leaves_the_rest_alone() {
    let mut test = vec![8, 8, 1, 8, 0, 8, 8];
    let mut other = vec![1, 2, 3, 4, 5, 6, 7];
    let mid = partition(2, 5, &mut test, &mut other, 8);
    assert_eq!(mid, 4);
    assert_eq!(test, vec![8, 8, 1, 0, 8, 8, 8]);
    assert_eq!(other, vec![1, 2, 3, 5, 4, 6, 7]);
    assert_eq!(partition(3, 3, &mut test, &mut other, 8), 3);
    // the leftmost and the rightmost value out of place change places
    let mut t = vec![8, 0, 8];
    let mut o = vec![1, 2, 3];
    assert_eq!(partition(0, 3, &mut t, &mut o, 8), 1);
    assert_eq!(t, vec![0, 8, 8]);
    assert_eq!(o, vec![2, 1, 3]);
    let mut t = vec![4, 4, 0, 4, 0, 0, 4];
    let mut o = vec![1, 2, 3, 4, 5, 6, 7];
    assert_eq!(partition(0, 7, &mut t, &mut o, 4), 3);
    assert_eq!(t, vec![0, 0, 0, 4, 4, 4, 4]);
    assert_eq!(o, vec![6, 5, 3, 4, 2, 1, 7]);
    // a pair that is there twice stays there twice
    let mut t = vec![2, 2, 0, 0];
    let mut o = vec![9, 9, 1, 1];
    assert_eq!(partition(0, 4, &mut t, &mut o, 2), 2);
    assert_eq!(t, vec![0, 0, 2, 2]);
    assert_eq!(o, vec![1, 1, 9, 9]);
    assert_eq!(partition(0, 2, &mut test, &mut other, 8), 0);
    assert_eq!(partition(2, 4, &mut test, &mut other, 8), 4);
    assert_eq!(test, vec![8, 8, 1, 0, 8, 8, 8]);
}

#[test]
fn powers_of_two() {
    assert_eq!(pow2_u64(0), 1);
    assert_eq!(pow2_u64(10), 1024);
    assert_eq!(pow2_u64(63), 1 << 63);
    assert_eq!(half_side(1), 1);
    assert_eq!(half_side(3), 4);
    assert_eq!(half_side(63), 1 << 62);
    assert_eq!(pow2_saturating(0), 1);
    assert_eq!(pow2_saturating(64), 1 << 64);
    assert_eq!(pow2_saturating(127), 1 << 127);
    assert_eq!(pow2_saturating(128), u128::MAX);
    assert_eq!(pow2_saturating(usize::MAX), u128::MAX);
}

#[test]
fn loading_a_field_centres_it() {
    let mut u = LifeUniverse::new();
    // a blinker in column 10, rows 20 to 22
    u.setup_field(vec![10, 10, 10], vec![20, 21, 22]);
    assert_eq!(u.get_level(), 4);
    assert_eq!(u.get_population(), 3);
    assert_eq!(u.get_root_bounds(), vec![0, 0, -1, 1]);
    assert!(u.get_bit(0, -1) && u.get_bit(0, 0) && u.get_bit(0, 1));
    assert!(!u.get_bit(0, 2));
    // a wider pattern: columns -7 to 12, rows 3 to 4
    u.setup_field(vec![-7, 12, 0, 0, 3], vec![3, 4, 3, 4, 3]);
    assert_eq!(u.get_root_bounds(), vec![-9, 10, 0, 1]);
    assert_eq!(u.get_level(), 5);
    assert_eq!(u.get_population(), 5);
    assert!(u.get_bit(-9, 0));
    assert!(u.get_bit(10, 1));
    assert!(u.get_bit(-2, 0) && u.get_bit(-2, 1) && u.get_bit(1, 0));
    assert!(!u.get_bit(1, 1));
}

#[test]
fn loading_a_field_keeps_counter_and_settings() {
    let mut u = LifeUniverse::new();
    u.set_step(2);
    assert_eq!(u.next_generation(true), Ok(()));
    u.save_rewind_state();
    u.setup_field(vec![0, 1], vec![0, 0]);
    assert_eq!(u.get_generation(), 4);
    assert_eq!(u.get_step(), 2);
    assert!(u.has_rewind_state());
    assert_eq!(u.get_population(), 2);
}

#[test]
fn loading_an_empty_field() {
    let mut u = LifeUniverse::new();
    assert_eq!(u.set_bit(1, 1, true), Ok(()));
    u.setup_field(vec![], vec![]);
    assert_eq!(u.get_population(), 0);
    assert_eq!(u.get_level(), 4);
}

#[test]
fn loading_a_field_with_repeated_cells() {
    let mut u = LifeUniverse::new();
    u.setup_field(vec![0, 1, 0, 1, 1], vec![0, 0, 0, 0, 1]);
    assert_eq!(u.get_population(), 3);
    assert_eq!(u.get_root_bounds(), vec![0, 1, 0, 1]);
    assert!(u.get_bit(0, 0) && u.get_bit(1, 0) && u.get_bit(1, 1));
    assert!(!u.get_bit(0, 1));
}

#[test]
fn loading_the_widest_field() {
    let mut u = LifeUniverse::new();
    u.setup_field(vec![i32::MIN, i32::MAX, 0], vec![i32::MAX, i32::MIN, 7]);
    assert_eq!(u.get_population(), 3);
    assert_eq!(u.get_level(), 33);
    assert_eq!(u.get_root_bounds(), vec![-(1 << 31) + 1, 1 << 31, -(1 << 31) + 1, 1 << 31]);
    assert!(u.get_bit(1, 8));
}

#[test]
fn loading_matches_writing_cell_by_cell() {
    let xs = vec![0, 1, 2, 2, 1, 9, 9, 9, -6, -5];
    let ys = vec![0, 0, 0, -1, -2, 4, 5, 6, 3, 3];
    let mut loaded = LifeUniverse::new();
    loaded.setup_field(xs.clone(), ys.clone());
    // columns -6 to 9 move by -1, rows -2 to 6 by -2
    let mut written = LifeUniverse::new();
    for i in 0..xs.len() {
        assert_eq!(written.set_bit(xs[i] as i64 - 1, ys[i] as i64 - 2, true), Ok(()));
    }
    assert_eq!(loaded.get_root_bounds(), written.get_root_bounds());
    assert_eq!(loaded.get_population(), written.get_population());
    for _ in 0..5 {
        assert_eq!(loaded.next_generation(true), Ok(()));
        assert_eq!(written.next_generation(true), Ok(()));
        assert_eq!(loaded.get_root_bounds(), written.get_root_bounds());
        assert_eq!(loaded.get_population(), written.get_population());
    }
}

#[test]
fn drawing_cell_by_cell() {
    let mut u = LifeUniverse::new();
    for (x, y) in [(-4, -4), (0, 0), (3, 3), (-1, 2)] {
        assert_eq!(u.set_bit(x, y, true), Ok(()));
    }
    // one pixel per cell, the root's corner at the screen's origin
    let all = u.draw(0, 0, 8, 100, 100, 0, 0);
    assert_eq!(all, vec![0, 0, 3, 6, 4, 4, 7, 7]);
    // moved by the offsets
    let moved = u.draw(0, 0, 8, 100, 100, 10, 20);
    assert_eq!(moved, vec![10, 20, 13, 26, 14, 24, 17, 27]);
    // a screen that the south-east misses: a square is cut where it begins beyond
    let cut = u.draw(0, 0, 8, 7, 7, 0, 0);
    assert_eq!(cut, vec![0, 0, 3, 6, 4, 4]);
    // the width comes before the height: a screen 4 wide and 100 high, then 100 wide and 4 high
    assert_eq!(u.draw(0, 0, 8, 4, 100, 0, 0), vec![0, 0, 3, 6]);
    assert_eq!(u.draw(0, 0, 8, 100, 4, 0, 0), vec![0, 0]);
    // four pixels per cell
    let large = u.draw(-16, -16, 32, 100, 100, 0, 0);
    assert_eq!(large, vec![-4, 8, 0, 0, 12, 12]);
    // a quarter of a pixel per cell: one position for each populated 4x4 square
    let small = u.draw(0, 0, 2, 100, 100, 0, 0);
    assert_eq!(small, vec![0, 0, 0, 1, 1, 1]);
    // the whole root in one pixel
    assert_eq!(u.draw(5, 6, 1, 100, 100, 0, 0), vec![5, 6]);
    assert_eq!(u.draw(5, 6, 0, 100, 100, 0, 0), vec![5, 6]);
    // off screen
    assert_eq!(u.draw(100, 0, 8, 100, 100, 0, 0), Vec::<i64>::new());
    assert_eq!(u.draw(-9, 0, 8, 100, 100, 0, 0), Vec::<i64>::new());
    assert_eq!(LifeUniverse::new().draw(0, 0, 8, 100, 100, 0, 0), Vec::<i64>::new());
}

#[test]
fn drawing_a_node() {
    let mut u = LifeUniverse::new();
    let n = u.level1_create(0b1001);
    let mut data = vec![42];
    u.draw_node(n, &mut data, 10, 10, 2, 1, 2, 50, 50);
    assert_eq!(data, vec![42, 11, 12, 12, 13]);
    // a screen 50 wide and 13 high: the second cell lies in row 13
    let mut top = Vec::new();
    u.draw_node(n, &mut top, 10, 10, 2, 1, 2, 50, 13);
    assert_eq!(top, vec![11, 12]);
    // a screen 12 wide and 50 high: the second cell lies in column 12
    let mut left = Vec::new();
    u.draw_node(n, &mut left, 10, 10, 2, 1, 2, 12, 50);
    assert_eq!(left, vec![11, 12]);
}

#[test]
fn marking_marks_what_a_node_reaches() {
    let mut u = LifeUniverse::new();
    for (x, y) in [(0, 0), (1, 0), (2, 0), (2, -1), (1, -2)] {
        assert_eq!(u.set_bit(x, y, true), Ok(()));
    }
    let root = u.root();
    let quick = u.node_quick_next_generation(root);
    let other = u.level2_create(0x1234);
    let mut marks = vec![false; u.arena_len()];
    u.mark_node(root, &mut marks);
    assert!(marks[root] && marks[quick]);
    let n = *u.node(root);
    assert!(marks[n.nw] && marks[n.ne] && marks[n.sw] && marks[n.se]);
    assert!(marks[FALSE_LEAF] && marks[TRUE_LEAF]);
    assert!(!marks[other]);
    let again = marks.clone();
    u.mark_node(root, &mut marks);
    assert_eq!(marks, again);
    u.mark_node(other, &mut marks);
    assert!(marks[other]);
}

#[test]
fn collection_keeps_identities_and_frees_places() {
    let mut u = LifeUniverse::new();
    for (x, y) in [(0, 0), (1, 0), (2, 0), (2, -1), (1, -2)] {
        assert_eq!(u.set_bit(x, y, true), Ok(()));
    }
    let root = u.root();
    let quick = u.node_quick_next_generation(root);
    let kept: Vec<(usize, TreeNode)> = {
        let mut marks = vec![false; u.arena_len()];
        u.mark_node(root, &mut marks);
        (0..u.arena_len()).filter(|&i| marks[i]).map(|i| (i, *u.node(i))).collect()
    };
    let garbage = u.level2_create(0x1234);
    let size = u.arena_len();
    assert!(u.is_node(garbage));
    u.garbage_collect();
    assert_eq!(u.root(), root);
    assert_eq!(u.arena_len(), size);
    assert!(!u.is_node(garbage));
    assert!(!u.is_node(size));
    // both leaves are among what the root reaches
    assert_eq!(u.count_nodes(), kept.len());
    for (i, n) in &kept {
        assert!(u.is_node(*i));
        let m = u.node(*i);
        assert_eq!((m.nw, m.ne, m.sw, m.se, m.level, m.population), (n.nw, n.ne, n.sw, n.se, n.level, n.population));
        assert_eq!((m.get_cache(), m.get_quick_cache()), (n.get_cache(), n.get_quick_cache()));
    }
    assert_eq!(u.node(root).get_quick_cache(), Some(quick));
    // the same tree is made anew in a place that was set free, and interning still works
    let back = u.level2_create(0x1234);
    assert!(u.is_node(back));
    assert!(back < size);
    assert_eq!(u.arena_len(), size);
    assert_eq!(u.level2_create(0x1234), back);
    assert_eq!(u.node(back).population, 5);
    let n = *u.node(root);
    assert_eq!(u.create_tree(n.nw, n.ne, n.sw, n.se), root);
}

#[test]
fn collection_is_due_when_the_arena_is_full() {
    let mut u = LifeUniverse::new();
    assert!(!u.is_full());
    u.set_high_water(1);
    assert!(u.is_full());
    for (x, y) in [(0, 0), (1, 0), (2, 0), (2, -1), (1, -2)] {
        assert_eq!(u.set_bit(x, y, true), Ok(()));
    }
    // writing a cell collected the garbage and moved the mark
    assert!(!u.is_full());
    assert_eq!(u.get_population(), 5);
    u.set_high_water(usize::MAX);
    u.collect_if_full();
    assert!(!u.is_full());
    u.set_high_water(0);
    let before = u.count_nodes();
    u.collect_if_full();
    assert!(u.count_nodes() <= before);
    assert!(!u.is_full());
    assert_eq!(u.get_population(), 5);
}

#[test]
fn setters_of_the_root_and_the_saved_root() {
    let mut u = LifeUniverse::new();
    let e = u.empty_tree(5);
    let n = u.node_set_bit(e, 16, 16, true);
    u.set_root(n);
    assert_eq!(u.root(), n);
    assert_eq!(u.get_level(), 5);
    assert!(u.get_bit(0, 0));
    assert_eq!(u.rewind(), None);
    u.set_rewind(Some(e));
    assert_eq!(u.rewind(), Some(e));
    assert!(u.has_rewind_state());
    u.set_rewind(None);
    assert!(!u.has_rewind_state());
    u.set_generation(99);
    assert_eq!(u.get_generation(), 99);
}

fn check_coherent(u: &LifeUniverse, id: usize, seen: &mut Vec<bool>) {
    if seen[id] {
        return;
    }
    seen[id] = true;
    let n = *u.node(id);
    if n.level == 0 {
        assert!(n.population <= 1);
        assert_eq!(n.population, id as u128);
        return;
    }
    let kids = [n.nw, n.ne, n.sw, n.se];
    let mut sum = 0;
    for k in kids {
        assert_eq!(u.node(k).level + 1, n.level);
        sum += u.node(k).population;
        check_coherent(u, k, seen);
    }
    assert_eq!(n.population, sum);
    for c in [n.get_cache(), n.get_quick_cache()] {
        if let Some(c) = c {
            assert_eq!(u.node(c).level + 1, n.level);
            check_coherent(u, c, seen);
        }
    }
}

#[test]
fn levels_and_populations_are_coherent() {
    let mut u = LifeUniverse::new();
    for (x, y) in [(0, 0), (1, 0), (2, 0), (2, -1), (1, -2), (-20, 13), (-20, 14), (-20, 15)] {
        assert_eq!(u.set_bit(x, y, true), Ok(()));
    }
    u.set_step(2);
    for _ in 0..6 {
        assert_eq!(u.next_generation(true), Ok(()));
    }
    let mut seen = vec![false; u.arena_len()];
    check_coherent(&u, u.root(), &mut seen);
    // nothing in the arena is incoherent, reachable or not
    for id in 0..u.arena_len() {
        if u.is_node(id) {
            check_coherent(&u, id, &mut seen);
        }
    }
}

#[test]
fn after_collection_every_node_is_reachable() {
    let mut u = LifeUniverse::new();
    for (x, y) in [(0, 0), (1, 0), (2, 0), (2, -1), (1, -2)] {
        assert_eq!(u.set_bit(x, y, true), Ok(()));
    }
    for _ in 0..12 {
        assert_eq!(u.next_generation(true), Ok(()));
    }
    u.save_rewind_state();
    for _ in 0..12 {
        assert_eq!(u.next_generation(true), Ok(()));
    }
    u.garbage_collect();
    let mut seen = vec![false; u.arena_len()];
    check_coherent(&u, u.root(), &mut seen);
    check_coherent(&u, u.rewind().unwrap(), &mut seen);
    let mut nodes = 2;
    for id in 2..u.arena_len() {
        assert_eq!(u.is_node(id), seen[id]);
        if seen[id] {
            nodes += 1;
        }
    }
    assert!(u.is_node(FALSE_LEAF) && u.is_node(TRUE_LEAF));
    assert_eq!(u.count_nodes(), nodes);
}

#[test]
fn single_steps_have_room_for_the_step() {
    let glider = [(0, 0), (1, 0), (2, 0), (2, -1), (1, -2)];
    for step in 0..8 {
        let mut u = LifeUniverse::new();
        for (x, y) in glider {
            assert_eq!(u.set_bit(x, y, true), Ok(()));
        }
        u.set_step(step);
        assert_eq!(u.next_generation(true), Ok(()));
        assert!(u.get_level() >= step + 2);
        assert_eq!(u.get_generation(), 1 << step);
        assert_eq!(u.get_population(), 5);
        if step >= 2 {
            // a glider moves one cell every four generations
            let moved = (1i64 << step) / 4;
            for (x, y) in glider {
                assert!(u.get_bit(x + moved, y + moved));
            }
            assert_eq!(u.get_root_bounds(), vec![moved, moved + 2, moved - 2, moved]);
        }
    }
}

#[test]
fn keys_are_the_children() {
    assert_eq!(LifeUniverse::get_key(4, 3, 2, 1), (4, 3, 2, 1));
}

#[test]
fn boundary_search_without_a_side_to_look_for() {
    let mut u = LifeUniverse::new();
    let e = u.empty_tree(3);
    let n = u.node_set_bit(e, 2, 5, true);
    let mut found = vec![7, -7, 7, -7];
    u.node_get_boundary(n, 0, 0, 0, &mut found);
    assert_eq!(found, vec![7, -7, 7, -7]);
    // one side only
    let mut l = vec![i64::MAX, i64::MIN, i64::MAX, i64::MIN];
    u.node_get_boundary(n, 0, 0, MASK_LEFT, &mut l);
    assert_eq!(l[0], 2);
}

#[test]
fn successors_leave_other_records_alone() {
    let mut u = LifeUniverse::new();
    for (x, y) in [(0, 0), (1, 0), (2, 0), (2, -1), (1, -2)] {
        assert_eq!(u.set_bit(x, y, true), Ok(()));
    }
    let root = u.root();
    let stepped = u.node_next_generation(root);
    let before: Vec<TreeNode> = (0..u.arena_len()).map(|i| *u.node(i)).collect();
    let quick = u.node_quick_next_generation(root);
    for (i, a) in before.iter().enumerate() {
        let b = u.node(i);
        assert_eq!((a.nw, a.ne, a.sw, a.se, a.level, a.population), (b.nw, b.ne, b.sw, b.se, b.level, b.population));
        assert_eq!(a.get_cache(), b.get_cache());
        if a.get_quick_cache().is_some() {
            assert_eq!(a.get_quick_cache(), b.get_quick_cache());
        }
    }
    assert_eq!(u.node(root).get_cache(), Some(stepped));
    assert_eq!(u.node(root).get_quick_cache(), Some(quick));
}

#[test]
fn a_new_universe_is_small() {
    let u = LifeUniverse::new();
    assert!(u.count_nodes() >= 3 && u.count_nodes() <= 7);
    assert!(!u.is_full());
    let mut v = LifeUniverse::new();
    for (x, y) in [(0, 0), (300, 300), (-5000, 20)] {
        assert_eq!(v.set_bit(x, y, true), Ok(()));
    }
    v.clear_pattern();
    assert_eq!(v.count_nodes(), 5);
    assert!(!v.is_full());
    assert_eq!(v.get_population(), 0);
}

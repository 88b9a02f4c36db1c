use hashlife::advance::LifeError;
use hashlife::universe::LifeUniverse;

fn live_cells(u: &LifeUniverse) -> Vec<(i64, i64)> {
    let mut out = Vec::new();
    if u.get_population() == 0 {
        return out;
    }
    let b = u.get_root_bounds();
    let mut y = b[2];
    while y <= b[3] {
        let mut x = b[0];
        while x <= b[1] {
            if u.get_bit(x, y) {
                out.push((x, y));
            }
            x += 1;
        }
        y += 1;
    }
    out
}

fn sorted(mut cells: Vec<(i64, i64)>) -> Vec<(i64, i64)> {
    cells.sort_by_key(|c| (c.1, c.0));
    cells
}

fn with_cells(cells: &[(i64, i64)]) -> LifeUniverse {
    let mut u = LifeUniverse::new();
    for &(x, y) in cells {
        assert_eq!(u.set_bit(x, y, true), Ok(()));
    }
    u
}

#[test]
fn blinker_oscillates() {
    let start = vec![(0, -1), (0, 0), (0, 1)];
    let mut u = with_cells(&start);
    assert_eq!(live_cells(&u), sorted(start.clone()));
    assert_eq!(u.next_generation(true), Ok(()));
    assert_eq!(live_cells(&u), vec![(-1, 0), (0, 0), (1, 0)]);
    assert_eq!(u.get_population(), 3);
    assert_eq!(u.get_generation(), 1);
    assert_eq!(u.next_generation(true), Ok(()));
    assert_eq!(live_cells(&u), sorted(start));
    assert_eq!(u.get_population(), 3);
    assert_eq!(u.get_generation(), 2);
}

#[test]
fn block_is_still() {
    let mut u = LifeUniverse::new();
    u.setup_field(vec![0, 1, 0, 1], vec![0, 0, 1, 1]);
    let block = vec![(0, 0), (1, 0), (0, 1), (1, 1)];
    assert_eq!(live_cells(&u), block);
    assert_eq!(u.get_root_bounds(), vec![0, 1, 0, 1]);
    for _ in 0..7 {
        assert_eq!(u.next_generation(true), Ok(()));
        assert_eq!(live_cells(&u), block);
        assert_eq!(u.get_root_bounds(), vec![0, 1, 0, 1]);
        assert_eq!(u.get_population(), 4);
    }
    for _ in 0..3 {
        assert_eq!(u.next_generation(false), Ok(()));
        assert_eq!(live_cells(&u), block);
    }
}

#[test]
fn glider_travels() {
    let start = vec![(0, 0), (1, 0), (2, 0), (2, -1), (1, -2)];
    let mut u = with_cells(&start);
    for _ in 0..4 {
        assert_eq!(u.next_generation(true), Ok(()));
        assert_eq!(u.get_population(), 5);
    }
    let moved: Vec<(i64, i64)> = start.iter().map(|&(x, y)| (x + 1, y + 1)).collect();
    assert_eq!(live_cells(&u), sorted(moved));
    for _ in 0..40 {
        assert_eq!(u.next_generation(true), Ok(()));
    }
    let far: Vec<(i64, i64)> = start.iter().map(|&(x, y)| (x + 11, y + 11)).collect();
    assert_eq!(live_cells(&u), sorted(far));
    assert_eq!(u.get_generation(), 44);
}

#[test]
fn empty_universe_stays_empty() {
    let mut u = LifeUniverse::new();
    assert_eq!(u.next_generation(true), Ok(()));
    assert_eq!(u.get_population(), 0);
    assert_eq!(u.get_generation(), 1);
    u.set_step(3);
    assert_eq!(u.next_generation(true), Ok(()));
    assert_eq!(u.get_population(), 0);
    assert_eq!(u.get_generation(), 9);
    assert_eq!(u.next_generation(false), Ok(()));
    assert_eq!(u.get_population(), 0);
    assert_eq!(u.get_generation(), 17);
    assert_eq!(u.get_root_bounds(), vec![0, 0, 0, 0]);
}

#[test]
fn large_step_on_blinker() {
    let start = vec![(0, -1), (0, 0), (0, 1)];
    let mut u = with_cells(&start);
    u.set_step(4);
    assert_eq!(u.get_step(), 4);
    assert_eq!(u.next_generation(true), Ok(()));
    assert_eq!(live_cells(&u), sorted(start.clone()));
    assert_eq!(u.get_population(), 3);
    assert_eq!(u.get_generation(), 16);
    // an odd number of generations turns it
    u.set_step(0);
    assert_eq!(u.next_generation(true), Ok(()));
    assert_eq!(live_cells(&u), vec![(-1, 0), (0, 0), (1, 0)]);
    assert_eq!(u.get_generation(), 17);
}

#[test]
fn large_step_on_glider() {
    let start = vec![(0, 0), (1, 0), (2, 0), (2, -1), (1, -2)];
    let mut u = with_cells(&start);
    u.set_step(5);
    assert_eq!(u.next_generation(true), Ok(()));
    let moved: Vec<(i64, i64)> = start.iter().map(|&(x, y)| (x + 8, y + 8)).collect();
    assert_eq!(live_cells(&u), sorted(moved));
    assert_eq!(u.get_generation(), 32);
}

#[test]
fn rewind_goes_back() {
    let start = vec![(0, 0), (1, 0), (2, 0), (2, -1), (1, -2)];
    let mut u = with_cells(&start);
    assert!(!u.has_rewind_state());
    for _ in 0..10 {
        assert_eq!(u.next_generation(true), Ok(()));
    }
    let saved_cells = live_cells(&u);
    let saved_level = u.get_level();
    u.save_rewind_state();
    assert!(u.has_rewind_state());
    for _ in 0..5 {
        assert_eq!(u.next_generation(true), Ok(()));
    }
    assert_ne!(live_cells(&u), saved_cells);
    assert_eq!(u.get_generation(), 15);
    u.restore_rewind_state();
    assert_eq!(live_cells(&u), saved_cells);
    assert_eq!(u.get_level(), saved_level);
    assert_eq!(u.get_generation(), 0);
    assert!(u.has_rewind_state());
    // the saved root is still there for a second time
    assert_eq!(u.next_generation(true), Ok(()));
    u.restore_rewind_state();
    assert_eq!(live_cells(&u), saved_cells);
}

#[test]
fn restore_without_saved_root_changes_nothing() {
    let mut u = with_cells(&[(0, 0), (1, 0), (0, 1), (1, 1)]);
    assert_eq!(u.next_generation(true), Ok(()));
    u.restore_rewind_state();
    assert_eq!(u.get_generation(), 1);
    assert_eq!(u.get_population(), 4);
}

#[test]
fn set_then_get_round_trip() {
    let mut u = LifeUniverse::new();
    assert!(!u.get_bit(5, -7));
    assert_eq!(u.set_bit(5, -7, true), Ok(()));
    assert!(u.get_bit(5, -7));
    assert!(!u.get_bit(5, -6));
    assert!(!u.get_bit(-7, 5));
    assert_eq!(u.get_population(), 1);
    assert_eq!(u.set_bit(5, -7, false), Ok(()));
    assert!(!u.get_bit(5, -7));
    assert_eq!(u.get_population(), 0);
}

#[test]
fn live_write_outside_grows_the_root() {
    let mut u = LifeUniverse::new();
    assert_eq!(u.get_level(), 3);
    // level 3 spans -4 ..= 3
    assert_eq!(u.set_bit(3, -4, true), Ok(()));
    assert_eq!(u.get_level(), 3);
    assert_eq!(u.set_bit(4, 0, true), Ok(()));
    assert_eq!(u.get_level(), 4);
    assert_eq!(u.set_bit(-1000, 1000, true), Ok(()));
    assert_eq!(u.get_level(), 11);
    assert!(u.get_bit(3, -4));
    assert!(u.get_bit(4, 0));
    assert!(u.get_bit(-1000, 1000));
    assert_eq!(u.get_population(), 3);
    assert_eq!(u.get_root_bounds(), vec![-1000, 4, -4, 1000]);
}

#[test]
fn dead_write_outside_is_a_no_op() {
    let mut u = with_cells(&[(0, 0)]);
    let level = u.get_level();
    assert_eq!(u.set_bit(1 << 40, 0, false), Ok(()));
    assert_eq!(u.get_level(), level);
    assert_eq!(u.get_population(), 1);
    assert!(!u.get_bit(1 << 40, 0));
    // a dead write is accepted wherever it is
    assert_eq!(u.set_bit(i64::MAX, i64::MIN, false), Ok(()));
    assert_eq!(u.get_level(), level);
}

#[test]
fn far_reads_are_dead() {
    let u = with_cells(&[(0, 0)]);
    assert!(!u.get_bit(i64::MAX, i64::MAX));
    assert!(!u.get_bit(i64::MIN, 0));
    assert!(!u.get_bit(4, 0));
    assert!(!u.get_bit(-5, 0));
}

#[test]
fn live_write_beyond_the_highest_level_is_refused() {
    let mut u = with_cells(&[(0, 0)]);
    assert_eq!(u.set_bit(1 << 62, 0, true), Err(LifeError::DepthLimit));
    assert_eq!(u.set_bit(0, -(1 << 62) - 1, true), Err(LifeError::DepthLimit));
    assert_eq!(u.get_population(), 1);
    assert_eq!(u.get_level(), 3);
    // the last cell that fits
    assert_eq!(u.set_bit((1 << 62) - 1, -(1 << 62), true), Ok(()));
    assert_eq!(u.get_level(), 63);
    assert!(u.get_bit((1 << 62) - 1, -(1 << 62)));
    assert_eq!(u.get_population(), 2);
}

#[test]
fn tick_at_the_highest_level_is_refused() {
    let mut u = with_cells(&[((1 << 62) - 1, 0), (0, 0)]);
    assert_eq!(u.get_level(), 63);
    assert_eq!(u.next_generation(true), Err(LifeError::DepthLimit));
    assert_eq!(u.get_level(), 63);
    assert_eq!(u.get_population(), 2);
    assert_eq!(u.get_generation(), 0);
    assert!(u.get_bit((1 << 62) - 1, 0));
}

#[test]
fn single_step_needs_room_for_the_step() {
    let mut u = with_cells(&[(0, 0), (1, 0), (0, 1), (1, 1)]);
    u.set_step(61);
    assert_eq!(u.next_generation(true), Err(LifeError::DepthLimit));
    assert_eq!(u.get_generation(), 0);
    assert_eq!(u.get_population(), 4);
}

#[test]
fn rule_change_matches_fresh_universe() {
    // HighLife: born with 3 or 6 neighbours, survives with 2 or 3
    let s = 12;
    let b = 8 | 64;
    let cells = vec![(0, 0), (1, 0), (2, 0), (2, -1), (1, -2), (5, 5), (6, 5), (5, 6), (7, 7)];
    let mut changed = with_cells(&cells);
    for _ in 0..6 {
        assert_eq!(changed.next_generation(true), Ok(()));
    }
    let pattern = live_cells(&changed);
    changed.set_rules(s, b);
    assert_eq!(changed.get_rule_s(), s);
    assert_eq!(changed.get_rule_b(), b);
    let mut fresh = LifeUniverse::new();
    fresh.set_rules(s, b);
    for &(x, y) in &pattern {
        assert_eq!(fresh.set_bit(x, y, true), Ok(()));
    }
    for _ in 0..12 {
        assert_eq!(changed.next_generation(true), Ok(()));
        assert_eq!(fresh.next_generation(true), Ok(()));
        assert_eq!(live_cells(&changed), live_cells(&fresh));
    }
}

#[test]
fn seeds_rule_differs_from_conway() {
    // Seeds: born with 2 neighbours, nothing survives
    let mut u = with_cells(&[(0, 0), (1, 0)]);
    u.set_rules(0, 4);
    assert_eq!(u.next_generation(true), Ok(()));
    assert_eq!(live_cells(&u), vec![(0, -1), (1, -1), (0, 1), (1, 1)]);
}

#[test]
fn step_change_keeps_results_right() {
    let start = vec![(0, 0), (1, 0), (2, 0), (2, -1), (1, -2)];
    let mut u = with_cells(&start);
    u.set_step(2);
    assert_eq!(u.next_generation(true), Ok(()));
    u.set_step(0);
    for _ in 0..4 {
        assert_eq!(u.next_generation(true), Ok(()));
    }
    u.set_step(2);
    assert_eq!(u.next_generation(true), Ok(()));
    let moved: Vec<(i64, i64)> = start.iter().map(|&(x, y)| (x + 3, y + 3)).collect();
    assert_eq!(live_cells(&u), sorted(moved));
    assert_eq!(u.get_generation(), 12);
}

#[test]
fn garbage_collection_preserves_the_trajectory() {
    let cells = vec![(0, 0), (1, 0), (2, 0), (2, -1), (1, -2), (-3, 3), (-3, 4), (-3, 5)];
    let mut kept = with_cells(&cells);
    let mut collected = with_cells(&cells);
    for _ in 0..10 {
        assert_eq!(kept.next_generation(true), Ok(()));
        collected.garbage_collect();
        assert_eq!(collected.next_generation(true), Ok(()));
        assert_eq!(live_cells(&kept), live_cells(&collected));
        assert_eq!(kept.get_level(), collected.get_level());
        assert_eq!(kept.get_generation(), collected.get_generation());
    }
    assert!(collected.count_nodes() <= kept.count_nodes());
}

#[test]
fn garbage_collection_drops_unreachable_nodes() {
    let mut u = with_cells(&[(0, 0), (1, 0), (2, 0), (2, -1), (1, -2)]);
    for _ in 0..30 {
        assert_eq!(u.next_generation(true), Ok(()));
    }
    let cells = live_cells(&u);
    let before = u.count_nodes();
    u.garbage_collect();
    assert!(u.count_nodes() < before);
    assert_eq!(live_cells(&u), cells);
    assert_eq!(u.get_generation(), 30);
}

#[test]
fn clear_pattern_empties_the_universe() {
    let mut u = with_cells(&[(0, 0), (100, 100)]);
    u.set_step(2);
    u.set_rules(0, 4);
    assert_eq!(u.next_generation(true), Ok(()));
    u.save_rewind_state();
    u.clear_pattern();
    assert_eq!(u.get_population(), 0);
    assert_eq!(u.get_level(), 3);
    assert_eq!(u.get_generation(), 0);
    assert_eq!(u.get_step(), 2);
    assert_eq!(u.get_rule_s(), 0);
    assert_eq!(u.get_rule_b(), 4);
    assert!(u.has_rewind_state());
}

#[test]
fn new_universe_has_conway_rules() {
    let u = LifeUniverse::new();
    assert_eq!(u.get_rule_s(), 0b1100);
    assert_eq!(u.get_rule_b(), 0b1000);
    assert_eq!(u.get_step(), 0);
    assert_eq!(u.get_generation(), 0);
    assert_eq!(u.get_population(), 0);
    assert_eq!(u.get_level(), 3);
    assert!(!u.has_rewind_state());
}

#[test]
fn multi_tick_without_single_step() {
    // with step 0 the flag makes no difference to the pattern
    let start = vec![(0, 0), (1, 0), (2, 0), (2, -1), (1, -2)];
    let mut a = with_cells(&start);
    let mut b = with_cells(&start);
    for _ in 0..9 {
        assert_eq!(a.next_generation(true), Ok(()));
        assert_eq!(b.next_generation(false), Ok(()));
        assert_eq!(live_cells(&a), live_cells(&b));
    }
}

#[test]
fn large_step_without_single_step() {
    // the root is framed until it is large enough for the step, flag or no flag
    let start = vec![(0, -1), (0, 0), (0, 1)];
    let mut u = with_cells(&start);
    u.set_step(4);
    assert_eq!(u.next_generation(false), Ok(()));
    assert_eq!(live_cells(&u), sorted(start.clone()));
    assert!(u.get_bit(0, -1) && u.get_bit(0, 1) && !u.get_bit(1, 0));
    assert_eq!(u.get_population(), 3);
    assert_eq!(u.get_generation(), 16);
    assert!(u.get_level() >= 5);
    u.set_step(0);
    assert_eq!(u.next_generation(false), Ok(()));
    assert_eq!(live_cells(&u), vec![(-1, 0), (0, 0), (1, 0)]);
    assert_eq!(u.get_generation(), 17);
    // a glider, 32 generations at once
    let glider = vec![(0, 0), (1, 0), (2, 0), (2, -1), (1, -2)];
    let mut g = with_cells(&glider);
    g.set_step(5);
    assert_eq!(g.next_generation(false), Ok(()));
    let moved: Vec<(i64, i64)> = glider.iter().map(|&(x, y)| (x + 8, y + 8)).collect();
    assert_eq!(live_cells(&g), sorted(moved));
    assert_eq!(g.get_generation(), 32);
}

#[test]
fn a_step_beyond_the_highest_level_is_refused() {
    let mut u = with_cells(&[(0, 0)]);
    u.set_step(62);
    assert_eq!(u.next_generation(false), Err(LifeError::DepthLimit));
    assert_eq!(u.get_generation(), 0);
    assert_eq!(u.get_population(), 1);
    u.set_step(61);
    assert_eq!(u.next_generation(false), Ok(()));
    assert_eq!(u.get_generation(), 1 << 61);
    assert_eq!(u.get_population(), 0);
}

#[test]
fn generation_counter_saturates() {
    let mut u = LifeUniverse::new();
    u.set_generation(u128::MAX - 5);
    u.set_step(2);
    assert_eq!(u.next_generation(false), Ok(()));
    assert_eq!(u.get_generation(), u128::MAX - 1);
    assert_eq!(u.next_generation(true), Ok(()));
    assert_eq!(u.get_generation(), u128::MAX);
    assert_eq!(u.next_generation(false), Ok(()));
    assert_eq!(u.get_generation(), u128::MAX);
}

#[test]
fn loading_a_centred_blinker_leaves_it_in_place() {
    let mut u = LifeUniverse::new();
    u.setup_field(vec![0, 0, 0], vec![-1, 0, 1]);
    assert!(u.get_bit(0, -1) && u.get_bit(0, 0) && u.get_bit(0, 1));
    assert!(!u.get_bit(0, 2));
    assert_eq!(u.get_population(), 3);
    assert_eq!(u.get_root_bounds(), vec![0, 0, -1, 1]);
    assert_eq!(u.next_generation(true), Ok(()));
    assert_eq!(live_cells(&u), vec![(-1, 0), (0, 0), (1, 0)]);
    assert_eq!(u.next_generation(true), Ok(()));
    assert_eq!(live_cells(&u), vec![(0, -1), (0, 0), (0, 1)]);
}

#[test]
fn drawing_takes_the_width_first() {
    let mut u = LifeUniverse::new();
    assert_eq!(u.set_bit(0, 0, true), Ok(()));
    assert_eq!(u.draw(-4, -4, 8, 100, 1, 50, 0), vec![50, 0]);
    assert_eq!(u.draw(-4, -4, 8, 1, 100, 50, 0), Vec::<i64>::new());
}

#[test]
fn the_root_is_the_same_node_after_a_cell_is_set_and_cleared() {
    let mut u = LifeUniverse::new();
    let r0 = u.root();
    assert_eq!(u.set_bit(1, -2, true), Ok(()));
    assert_ne!(u.root(), r0);
    assert_eq!(u.set_bit(1, -2, false), Ok(()));
    assert_eq!(u.root(), r0);
    assert_eq!(u.get_population(), 0);
    assert_eq!(u.get_level(), 3);
}

#[test]
fn a_dead_write_outside_keeps_the_root() {
    let mut u = with_cells(&[(0, 0)]);
    let r = u.root();
    let count = u.count_nodes();
    assert_eq!(u.set_bit(100, 100, false), Ok(()));
    assert_eq!(u.root(), r);
    assert_eq!(u.count_nodes(), count);
    assert_eq!(u.get_level(), 3);
    assert_eq!(u.get_population(), 1);
    assert!(u.get_bit(0, 0));
    assert_eq!(u.get_generation(), 0);
}

#[test]
fn a_tick_keeps_the_saved_root() {
    let mut u = with_cells(&[(0, 0), (1, 0), (2, 0), (2, -1), (1, -2)]);
    u.save_rewind_state();
    let saved = u.rewind();
    assert_eq!(saved, Some(u.root()));
    for _ in 0..5 {
        assert_eq!(u.next_generation(true), Ok(()));
        assert_eq!(u.rewind(), saved);
    }
    assert_eq!((u.get_step(), u.get_rule_s(), u.get_rule_b()), (0, 12, 8));
}

#[test]
fn a_fault_keeps_the_root() {
    let mut u = with_cells(&[((1 << 62) - 1, 0), (0, 0)]);
    let r = u.root();
    assert_eq!(u.next_generation(true), Err(LifeError::DepthLimit));
    assert_eq!(u.root(), r);
    assert_eq!(u.set_bit(1 << 62, 0, true), Err(LifeError::DepthLimit));
    assert_eq!(u.root(), r);
}

#[test]
fn after_a_restore_the_root_is_the_saved_node() {
    let mut u = with_cells(&[(0, 0), (1, 0), (2, 0), (2, -1), (1, -2)]);
    for _ in 0..10 {
        assert_eq!(u.next_generation(true), Ok(()));
    }
    let r10 = u.root();
    u.save_rewind_state();
    assert_eq!(u.rewind(), Some(r10));
    for _ in 0..5 {
        assert_eq!(u.next_generation(true), Ok(()));
        assert_eq!(u.rewind(), Some(r10));
    }
    assert_ne!(u.root(), r10);
    u.restore_rewind_state();
    assert_eq!(u.root(), r10);
    assert_eq!(u.rewind(), Some(r10));
    assert_eq!(u.get_population(), 5);
    assert!(u.has_rewind_state());
    assert_eq!(u.get_generation(), 0);
}

#[test]
fn collection_keeps_the_roots() {
    let mut u = with_cells(&[(0, 0), (1, 0), (2, 0), (2, -1), (1, -2)]);
    for _ in 0..7 {
        assert_eq!(u.next_generation(true), Ok(()));
    }
    u.save_rewind_state();
    for _ in 0..7 {
        assert_eq!(u.next_generation(true), Ok(()));
    }
    let (root, saved, cells) = (u.root(), u.rewind(), live_cells(&u));
    u.garbage_collect();
    assert_eq!((u.root(), u.rewind()), (root, saved));
    assert_eq!(live_cells(&u), cells);
    // a collection that is due at the start of a call keeps them too
    u.set_high_water(1);
    assert_eq!(u.set_bit(40, 40, true), Ok(()));
    assert_eq!(u.rewind(), saved);
    assert_eq!(u.set_bit(40, 40, false), Ok(()));
    u.set_high_water(1);
    assert_eq!(u.next_generation(true), Ok(()));
    assert_eq!(u.rewind(), saved);
    u.restore_rewind_state();
    assert_eq!(u.root(), saved.unwrap());
}

#[test]
fn restore_without_saved_root_keeps_the_arena() {
    let mut u = with_cells(&[(0, 0), (1, 0), (0, 1), (1, 1)]);
    assert_eq!(u.next_generation(true), Ok(()));
    let (r, count) = (u.root(), u.count_nodes());
    u.restore_rewind_state();
    assert_eq!((u.root(), u.count_nodes()), (r, count));
    assert!(!u.has_rewind_state());
}

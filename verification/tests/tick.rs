use ggez::graphics::Color;
use gol::cell::Cell;
use gol::config::Cells;
use gol::gol::{GoL, TickError};
use gol::names::NameMap;

const U: i64 = 65536;
const ONE: u32 = 65536;

fn rules(list: &[(&'static str, i32)]) -> NameMap<i32> {
    let mut m: NameMap<i32> = NameMap::new();
    for &(name, accel) in list {
        m.insert(name, accel);
    }
    m
}

/// A simulation without cells whose types are given as name, speed,
/// division threshold and rules.
fn empty_world(types: Vec<(&'static str, u32, u32, NameMap<i32>)>) -> GoL {
    let mut config: NameMap<Cells> = NameMap::new();
    for (name, speed, division, r) in types {
        config.insert(name, Cells::new(Color::WHITE, (4, 4), 0, speed, division, r));
    }
    GoL::new(config, 100, 100).unwrap()
}

fn put(g: &mut GoL, kind: &'static str, size: (u32, u32), x: i64, y: i64) -> u32 {
    g.append(Cell::new(0, kind, Color::YELLOW, size, x, y)).unwrap()
}

fn total(g: &GoL) -> (u64, u64) {
    let mut w = 0u64;
    let mut h = 0u64;
    for c in g.cells() {
        w += c.size.0 as u64;
        h += c.size.1 as u64;
    }
    (w, h)
}

#[test]
fn end_to_end_prey_moves_toward_predator() {
    let mut prey_rules: NameMap<i32> = NameMap::new();
    prey_rules.insert("predator", 2 * 65536);
    let mut config: NameMap<Cells> = NameMap::new();
    config.insert("prey", Cells::new(Color::RED, (4, 4), 1, ONE, 100, prey_rules));
    config.insert("predator", Cells::new(Color::GREEN, (4, 4), 1, ONE, 100, NameMap::new()));
    let mut g = GoL::new(config, 100, 100).unwrap();
    assert_eq!(g.cells().len(), 2);
    let prey = g.cells()[0];
    let predator = g.cells()[1];
    assert_eq!(prey.cell_type, "prey");
    assert_eq!(predator.cell_type, "predator");
    assert_eq!(g.tick(100, 100), Ok(()));
    assert_eq!(g.cells().len(), 2);
    let moved = g.cells()[0];
    // the predator has no rule: it stays
    assert_eq!(g.cells()[1], predator);
    // equal sizes: no merge, whether or not the boxes touch
    assert_eq!(moved.size, (4, 4));
    assert_eq!(moved.id, prey.id);
    // on each axis the prey has moved the way the predator lies
    assert_eq!((moved.x - prey.x).signum(), (predator.x - prey.x).signum());
    assert_eq!((moved.y - prey.y).signum(), (predator.y - prey.y).signum());
    // by two pixels in all, but for rounding
    let dx = (moved.x - prey.x) as f64 / U as f64;
    let dy = (moved.y - prey.y) as f64 / U as f64;
    let step = (dx * dx + dy * dy).sqrt();
    assert!((step - 2.0).abs() < 0.001);
}

#[test]
fn attraction_has_the_exact_value() {
    let mut g = empty_world(vec![
        ("prey", ONE, 100, rules(&[("predator", 2 * 65536)])),
        ("predator", ONE, 100, rules(&[])),
    ]);
    put(&mut g, "prey", (4, 4), 0, 0);
    put(&mut g, "predator", (4, 4), 30 * U, 40 * U);
    assert_eq!(g.tick(100, 100), Ok(()));
    let cells = g.cells();
    assert_eq!((cells[0].x, cells[0].y), (78643, 104857));
    assert_eq!((cells[1].x, cells[1].y), (30 * U, 40 * U));
    assert_eq!(g.tick(100, 100), Ok(()));
    let cells = g.cells();
    // 30 px - 78643 and 40 px - 104857 away, 48 px and a little in all
    assert_eq!((cells[0].x, cells[0].y), (78643 + 78643, 104857 + 104857));
}

#[test]
fn repulsion_moves_away() {
    let mut g = empty_world(vec![
        ("prey", ONE, 100, rules(&[("predator", -2 * 65536)])),
        ("predator", ONE, 100, rules(&[])),
    ]);
    put(&mut g, "prey", (4, 4), 50 * U, 50 * U);
    put(&mut g, "predator", (4, 4), 80 * U, 90 * U);
    assert_eq!(g.tick(100, 100), Ok(()));
    let cells = g.cells();
    assert_eq!((cells[0].x, cells[0].y), (50 * U - 78643, 50 * U - 104857));
    assert_eq!((cells[1].x, cells[1].y), (80 * U, 90 * U));
}

#[test]
fn speed_scales_the_displacement() {
    let mut g = empty_world(vec![
        ("slow", ONE / 2, 100, rules(&[("rock", 65536)])),
        ("rock", ONE, 100, rules(&[])),
    ]);
    put(&mut g, "slow", (4, 4), 10 * U, 10 * U);
    put(&mut g, "rock", (4, 4), 40 * U, 50 * U);
    assert_eq!(g.tick(100, 100), Ok(()));
    assert_eq!((g.cells()[0].x, g.cells()[0].y), (10 * U + 19660, 10 * U + 26214));
}

#[test]
fn a_type_without_a_rule_for_the_other_is_not_moved_by_it() {
    let mut g = empty_world(vec![
        ("a", ONE, 100, rules(&[("c", 65536)])),
        ("b", ONE, 100, rules(&[])),
    ]);
    put(&mut g, "a", (4, 4), 10 * U, 10 * U);
    put(&mut g, "b", (4, 4), 40 * U, 50 * U);
    assert_eq!(g.tick(100, 100), Ok(()));
    assert_eq!((g.cells()[0].x, g.cells()[0].y), (10 * U, 10 * U));
    assert_eq!((g.cells()[1].x, g.cells()[1].y), (40 * U, 50 * U));
}

#[test]
fn cells_at_one_point_do_not_move_each_other() {
    let mut g = empty_world(vec![("a", ONE, 100, rules(&[("a", 3 * 65536)]))]);
    put(&mut g, "a", (4, 4), 20 * U, 20 * U);
    put(&mut g, "a", (4, 4), 20 * U, 20 * U);
    assert_eq!(g.tick(100, 100), Ok(()));
    assert_eq!((g.cells()[0].x, g.cells()[0].y), (20 * U, 20 * U));
    assert_eq!((g.cells()[1].x, g.cells()[1].y), (20 * U, 20 * U));
    assert_eq!(g.cells()[0].size, (4, 4));
    assert_eq!(g.cells()[1].size, (4, 4));
}

#[test]
fn forces_read_where_the_others_were_when_the_tick_began() {
    // both are drawn toward each other along the x axis: the second reads
    // the first where it was, not where it has moved to
    let mut g = empty_world(vec![("a", ONE, 100, rules(&[("a", 65536)]))]);
    put(&mut g, "a", (1, 1), 10 * U, 10 * U);
    put(&mut g, "a", (1, 1), 20 * U, 10 * U);
    assert_eq!(g.tick(100, 100), Ok(()));
    assert_eq!((g.cells()[0].x, g.cells()[0].y), (11 * U, 10 * U));
    assert_eq!((g.cells()[1].x, g.cells()[1].y), (19 * U, 10 * U));
}

#[test]
fn the_larger_cell_absorbs_the_smaller() {
    let mut g = empty_world(vec![
        ("big", ONE, 100, rules(&[("small", 0)])),
        ("small", ONE, 100, rules(&[])),
    ]);
    put(&mut g, "big", (8, 9), 10 * U, 10 * U);
    put(&mut g, "small", (4, 5), 12 * U, 12 * U);
    assert_eq!(total(&g), (12, 14));
    assert_eq!(g.tick(100, 100), Ok(()));
    let cells = g.cells();
    assert_eq!(cells.len(), 2);
    assert_eq!(cells[0].size, (12, 14));
    assert_eq!(cells[1].size, (0, 0));
    assert_eq!((cells[0].x, cells[0].y), (10 * U, 10 * U));
    assert_eq!(total(&g), (12, 14));
    // the absorbed cell leaves with the next tick
    assert_eq!(g.tick(100, 100), Ok(()));
    assert_eq!(g.cells().len(), 1);
    assert_eq!(g.cells()[0].id, 0);
    assert_eq!(g.cells()[0].size, (12, 14));
    assert_eq!(total(&g), (12, 14));
}

#[test]
fn the_acting_cell_is_absorbed_by_a_larger_one() {
    let mut g = empty_world(vec![
        ("small", ONE, 100, rules(&[("big", 0)])),
        ("big", ONE, 100, rules(&[])),
    ]);
    put(&mut g, "small", (4, 5), 12 * U, 12 * U);
    put(&mut g, "big", (8, 9), 10 * U, 10 * U);
    assert_eq!(g.tick(100, 100), Ok(()));
    let cells = g.cells();
    assert_eq!(cells[0].size, (0, 0));
    assert_eq!(cells[1].size, (12, 14));
    assert_eq!(g.tick(100, 100), Ok(()));
    assert_eq!(g.cells().len(), 1);
    assert_eq!(g.cells()[0].id, 1);
    assert_eq!(g.cells()[0].cell_type, "big");
}

#[test]
fn cells_without_rules_start_no_merge() {
    let mut g = empty_world(vec![("a", ONE, 100, rules(&[])), ("b", ONE, 100, rules(&[]))]);
    put(&mut g, "a", (8, 8), 10 * U, 10 * U);
    put(&mut g, "b", (4, 4), 12 * U, 12 * U);
    assert_eq!(g.tick(100, 100), Ok(()));
    assert_eq!(g.cells()[0].size, (8, 8));
    assert_eq!(g.cells()[1].size, (4, 4));
}

#[test]
fn no_merge_without_dominance_on_both_axes() {
    let mut g = empty_world(vec![("a", ONE, 100, rules(&[("a", 0)]))]);
    // equal
    put(&mut g, "a", (4, 4), 10 * U, 10 * U);
    put(&mut g, "a", (4, 4), 12 * U, 12 * U);
    // wider but lower
    put(&mut g, "a", (9, 2), 60 * U, 60 * U);
    put(&mut g, "a", (3, 7), 61 * U, 61 * U);
    // wider, as high
    put(&mut g, "a", (6, 5), 10 * U, 60 * U);
    put(&mut g, "a", (5, 5), 11 * U, 61 * U);
    assert_eq!(g.tick(100, 100), Ok(()));
    let sizes: Vec<(u32, u32)> = g.cells().iter().map(|c| c.size).collect();
    assert_eq!(sizes, vec![(4, 4), (4, 4), (9, 2), (3, 7), (6, 5), (5, 5)]);
}

#[test]
fn no_merge_without_overlap() {
    let mut g = empty_world(vec![("a", ONE, 100, rules(&[("a", 0)]))]);
    put(&mut g, "a", (8, 8), 10 * U, 10 * U);
    // one unit beyond the right edge of the first box
    put(&mut g, "a", (4, 4), 18 * U + 1, 10 * U);
    assert_eq!(g.tick(100, 100), Ok(()));
    assert_eq!(g.cells()[0].size, (8, 8));
    assert_eq!(g.cells()[1].size, (4, 4));
}

#[test]
fn boxes_that_share_an_edge_overlap() {
    let mut g = empty_world(vec![("a", ONE, 100, rules(&[("a", 0)]))]);
    put(&mut g, "a", (8, 8), 10 * U, 10 * U);
    put(&mut g, "a", (4, 4), 18 * U, 18 * U);
    assert_eq!(g.tick(100, 100), Ok(()));
    assert_eq!(g.cells()[0].size, (12, 12));
    assert_eq!(g.cells()[1].size, (0, 0));
}

#[test]
fn an_absorbed_cell_is_skipped_for_the_rest_of_the_tick() {
    // the food lies between two eaters that do not touch each other: the
    // first takes it, and the second comes too late
    let mut g = empty_world(vec![
        ("eater", ONE, 100, rules(&[("food", 0)])),
        ("food", ONE, 100, rules(&[])),
    ]);
    put(&mut g, "eater", (8, 8), 20 * U, 10 * U);
    put(&mut g, "eater", (8, 8), 10 * U, 10 * U);
    put(&mut g, "food", (4, 4), 17 * U, 10 * U);
    assert_eq!(g.tick(100, 100), Ok(()));
    let sizes: Vec<(u32, u32)> = g.cells().iter().map(|c| c.size).collect();
    assert_eq!(sizes, vec![(12, 12), (8, 8), (0, 0)]);
    assert_eq!(total(&g), (20, 20));
}

#[test]
fn a_cell_that_has_grown_is_met_at_its_new_size() {
    // the first takes the food and is then larger than the second, which
    // meets it next and is absorbed in turn
    let mut g = empty_world(vec![
        ("eater", ONE, 100, rules(&[("food", 0)])),
        ("food", ONE, 100, rules(&[])),
    ]);
    put(&mut g, "eater", (8, 8), 10 * U, 10 * U);
    put(&mut g, "eater", (8, 8), 10 * U, 10 * U);
    put(&mut g, "food", (4, 4), 12 * U, 12 * U);
    assert_eq!(g.tick(100, 100), Ok(()));
    let sizes: Vec<(u32, u32)> = g.cells().iter().map(|c| c.size).collect();
    assert_eq!(sizes, vec![(20, 20), (0, 0), (0, 0)]);
    assert_eq!(total(&g), (20, 20));
}

#[test]
fn merging_conserves_the_total_size() {
    let mut g = empty_world(vec![("a", ONE, 1000, rules(&[("a", 30000)]))]);
    let mut size = 1;
    for row in 0..5 {
        for col in 0..5 {
            put(&mut g, "a", (size, size + 1), (40 + col) * U, (40 + row) * U);
            size += 1;
        }
    }
    let before = total(&g);
    assert_eq!(before, (325, 350));
    for _ in 0..20 {
        assert_eq!(g.tick(100, 100), Ok(()));
        assert_eq!(total(&g), before);
    }
    assert!(g.cells().len() < 25);
}

#[test]
fn a_cell_wider_than_its_threshold_divides() {
    let mut g = empty_world(vec![("amoeba", ONE, 10, rules(&[]))]);
    put(&mut g, "amoeba", (12, 16), 50 * U, 60 * U);
    assert_eq!(g.tick(1000, 1000), Ok(()));
    let cells = g.cells();
    assert_eq!(cells.len(), 2);
    // the parent: half the size, pushed away from the child by one pixel
    // in all, 0.6 px and 0.8 px on the axes
    assert_eq!(cells[0], Cell::new(0, "amoeba", Color::YELLOW, (6, 8), 50 * U - 39321, 60 * U - 52428));
    // the child: at the parent's former far corner
    assert_eq!(cells[1], Cell::new(1, "amoeba", Color::YELLOW, (6, 8), 62 * U, 76 * U));
    assert_eq!(g.next_id(), 2);
    // neither is wide enough to divide again
    assert_eq!(g.tick(1000, 1000), Ok(()));
    assert_eq!(g.cells().len(), 2);
    assert_eq!(g.cells()[0].size, (6, 8));
    assert_eq!(g.next_id(), 2);
}

#[test]
fn division_rounds_sizes_down() {
    let mut g = empty_world(vec![("amoeba", 0, 10, rules(&[]))]);
    put(&mut g, "amoeba", (13, 1), 50 * U, 60 * U);
    assert_eq!(g.tick(1000, 1000), Ok(()));
    let cells = g.cells();
    assert_eq!(cells[0], Cell::new(0, "amoeba", Color::YELLOW, (6, 0), 50 * U, 60 * U));
    assert_eq!(cells[1], Cell::new(1, "amoeba", Color::YELLOW, (6, 0), 63 * U, 61 * U));
}

#[test]
fn a_cell_at_its_threshold_does_not_divide() {
    let mut g = empty_world(vec![("amoeba", ONE, 10, rules(&[]))]);
    put(&mut g, "amoeba", (10, 50), 50 * U, 60 * U);
    assert_eq!(g.tick(1000, 1000), Ok(()));
    assert_eq!(g.cells().len(), 1);
    assert_eq!(g.cells()[0], Cell::new(0, "amoeba", Color::YELLOW, (10, 50), 50 * U, 60 * U));
}

#[test]
fn a_cell_divides_once_in_a_tick() {
    let mut g = empty_world(vec![("amoeba", ONE, 10, rules(&[]))]);
    put(&mut g, "amoeba", (100, 100), 500 * U, 500 * U);
    assert_eq!(g.tick(10000, 10000), Ok(()));
    let sizes: Vec<(u32, u32)> = g.cells().iter().map(|c| c.size).collect();
    assert_eq!(sizes, vec![(50, 50), (50, 50)]);
    assert_eq!(g.tick(10000, 10000), Ok(()));
    let sizes: Vec<(u32, u32)> = g.cells().iter().map(|c| c.size).collect();
    assert_eq!(sizes, vec![(25, 25), (25, 25), (25, 25), (25, 25)]);
    let ids: Vec<u32> = g.cells().iter().map(|c| c.id).collect();
    assert_eq!(ids, vec![0, 1, 2, 3]);
    assert_eq!(g.tick(10000, 10000), Ok(()));
    assert_eq!(g.cells().len(), 8);
    assert_eq!(g.tick(10000, 10000), Ok(()));
    // 12 is wider than 10, 6 is not
    assert_eq!(g.cells().len(), 16);
    assert_eq!(g.tick(10000, 10000), Ok(()));
    assert_eq!(g.cells().len(), 16);
    assert_eq!(g.next_id(), 16);
}

#[test]
fn ids_are_not_used_again() {
    let mut g = empty_world(vec![
        ("eater", ONE, 11, rules(&[("food", 0)])),
        ("food", ONE, 100, rules(&[])),
    ]);
    put(&mut g, "eater", (8, 8), 10 * U, 10 * U);
    put(&mut g, "food", (4, 4), 12 * U, 12 * U);
    assert_eq!(g.tick(1000, 1000), Ok(()));
    // the food has been absorbed; the eater, now 12 wide, divides next
    assert_eq!(g.tick(1000, 1000), Ok(()));
    let ids: Vec<u32> = g.cells().iter().map(|c| c.id).collect();
    assert_eq!(ids, vec![0, 2]);
    assert_eq!(g.cells()[0].size, (6, 6));
    assert_eq!(g.cells()[1].size, (6, 6));
    assert_eq!(g.cells()[1].cell_type, "eater");
}

#[test]
fn a_child_joins_the_force_pass_of_its_tick() {
    // the child is born at (62, 76) px and is drawn toward the rock, 10 px
    // to its right, by one pixel
    let mut g = empty_world(vec![
        ("amoeba", ONE, 10, rules(&[("rock", 65536)])),
        ("rock", ONE, 100, rules(&[])),
    ]);
    put(&mut g, "rock", (1, 1), 72 * U, 76 * U);
    put(&mut g, "amoeba", (12, 16), 50 * U, 60 * U);
    assert_eq!(g.tick(1000, 1000), Ok(()));
    let cells = g.cells();
    assert_eq!(cells.len(), 3);
    assert_eq!(cells[2].id, 2);
    assert_eq!((cells[2].x, cells[2].y), (63 * U, 76 * U));
    assert_eq!(cells[2].size, (6, 8));
}

#[test]
fn a_cell_past_the_far_edge_returns_to_zero_on_that_axis() {
    let mut g = empty_world(vec![("a", ONE, 100, rules(&[]))]);
    put(&mut g, "a", (4, 4), 105 * U, 50 * U);
    put(&mut g, "a", (4, 4), 50 * U, 104 * U);
    put(&mut g, "a", (4, 4), 50 * U, 50 * U);
    put(&mut g, "a", (4, 4), -5 * U, 50 * U);
    put(&mut g, "a", (4, 4), 300 * U, -4 * U);
    assert_eq!(g.tick(100, 100), Ok(()));
    let at: Vec<(i64, i64)> = g.cells().iter().map(|c| (c.x, c.y)).collect();
    assert_eq!(
        at,
        vec![(0, 50 * U), (50 * U, 0), (50 * U, 50 * U), (100 * U, 50 * U), (0, 100 * U)]
    );
}

#[test]
fn the_area_may_differ_in_width_and_height() {
    let mut g = empty_world(vec![("a", ONE, 100, rules(&[]))]);
    put(&mut g, "a", (4, 4), 60 * U, 60 * U);
    assert_eq!(g.tick(50, 80), Ok(()));
    assert_eq!((g.cells()[0].x, g.cells()[0].y), (0, 60 * U));
    put(&mut g, "a", (4, 4), 60 * U, 60 * U);
    assert_eq!(g.tick(80, 50), Ok(()));
    assert_eq!((g.cells()[1].x, g.cells()[1].y), (60 * U, 0));
}

#[test]
fn a_moving_cell_wraps_after_each_displacement() {
    // drawn 3 px to the right from 2 px short of the wrapping point
    let mut g = empty_world(vec![
        ("a", ONE, 100, rules(&[("rock", 3 * 65536)])),
        ("rock", ONE, 100, rules(&[])),
    ]);
    put(&mut g, "a", (4, 4), 102 * U, 50 * U);
    put(&mut g, "rock", (1, 1), 500 * U, 50 * U);
    assert_eq!(g.tick(100, 100), Ok(()));
    assert_eq!((g.cells()[0].x, g.cells()[0].y), (0, 50 * U));
    // the rock is past the far edge of the area, and returns too
    assert_eq!((g.cells()[1].x, g.cells()[1].y), (0, 50 * U));
}

#[test]
fn a_cell_of_an_unknown_type_fails_the_tick() {
    let mut g = empty_world(vec![("a", ONE, 2, rules(&[("a", 65536)]))]);
    put(&mut g, "a", (4, 4), 10 * U, 10 * U);
    put(&mut g, "ghost", (4, 4), 20 * U, 20 * U);
    let before = g.snapshot();
    assert_eq!(g.tick(100, 100), Err(TickError::UnknownType));
    assert_eq!(*g.cells(), before);
    assert_eq!(g.next_id(), 2);
    // with the type in the registry the tick is made
    let mut config: NameMap<Cells> = NameMap::new();
    config.insert("a", Cells::new(Color::WHITE, (4, 4), 0, ONE, 100, rules(&[])));
    config.insert("ghost", Cells::new(Color::WHITE, (4, 4), 0, ONE, 100, rules(&[])));
    g.set_config(config);
    assert_eq!(g.tick(100, 100), Ok(()));
    assert_eq!(*g.cells(), before);
}

#[test]
fn a_tick_of_an_empty_population_does_nothing() {
    let mut g = empty_world(vec![("a", ONE, 2, rules(&[("a", 65536)]))]);
    assert_eq!(g.tick(100, 100), Ok(()));
    assert_eq!(g.cells().len(), 0);
    assert_eq!(g.next_id(), 0);
    assert_eq!(g.tick(0, 0), Ok(()));
    assert_eq!(g.cells().len(), 0);
}

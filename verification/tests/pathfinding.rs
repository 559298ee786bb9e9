use esprit2::astar::{Floor, IMPASSABLE, UNEXPLORED};
use esprit2::OrdDir;

/// Every tile within eight steps of the origin costs one step; the rest cannot be entered.
fn boxed(x: i32, y: i32, base: u16) -> u16 {
    if (-8..=8).contains(&x) && (-8..=8).contains(&y) { base + 1 } else { IMPASSABLE }
}

#[test]
fn targets_start_at_zero() {
    let map = Floor::target(&[(2, 3)]);
    assert_eq!(map.get(2, 3), 0);
    assert_eq!(map.get(0, 0), UNEXPLORED);
}

#[test]
fn a_new_map_is_unexplored() {
    let map = Floor::new();
    assert_eq!(map.get(5, 5), UNEXPLORED);
}

#[test]
fn exploring_stops_once_the_goal_is_reached() {
    // The neighbours are visited from `Up` clockwise; `Right` is the goal.
    let mut map = Floor::target(&[(0, 0)]);
    map.explore(1, 0, boxed);
    assert_eq!(map.get(0, -1), 1);
    assert_eq!(map.get(1, -1), 1);
    assert_eq!(map.get(1, 0), 1);
    assert_eq!(map.get(1, 1), UNEXPLORED);
}

#[test]
fn stepping_goes_to_the_lowest_neighbour() {
    let mut map = Floor::target(&[(0, 0)]);
    map.explore(1, 0, boxed);
    assert_eq!(map.step(1, 0), Some(OrdDir::Left));
    // Among equal neighbours the last one, clockwise from `Up`, is taken.
    assert_eq!(map.step(0, 0), Some(OrdDir::Right));
    assert_eq!(map.step(5, 5), None);
}

#[test]
fn impassable_tiles_are_recorded() {
    let wall = |x: i32, y: i32, base: u16| -> u16 {
        if (x, y) == (0, -1) { IMPASSABLE } else { boxed(x, y, base) }
    };
    let mut map = Floor::target(&[(0, 0)]);
    map.explore(1, 0, wall);
    assert_eq!(map.get(0, -1), IMPASSABLE);
    assert_eq!(map.get(1, 0), 1);
}

#[test]
fn exploring_far_reaches_the_goal() {
    let mut map = Floor::target(&[(0, 0)]);
    map.explore(-3, -2, boxed);
    assert_ne!(map.get(-3, -2), UNEXPLORED);
    assert!(map.step(-3, -2).is_some());
}

#[test]
fn stored_distances_can_be_changed() {
    let mut map = Floor::new();
    *map.get_mut(7, -7) = 12;
    assert_eq!(map.get(7, -7), 12);
}

#[test]
fn exploration_stops_once_the_start_is_reached() {
    let mut map = Floor::target(&[(2, 0)]);
    map.explore(0, 0, boxed);
    assert_eq!(map.get(2, 0), 0);
    assert_eq!(map.get(1, 0), 1);
    assert_eq!(map.get(1, -1), 1);
    assert_eq!(map.get(0, 0), 2);
    assert_eq!(map.get(-1, 0), UNEXPLORED);
}

#[test]
fn impassable_tiles_stay_impassable() {
    let mut map = Floor::target(&[(0, 0)]);
    *map.get_mut(1, 0) = IMPASSABLE;
    map.explore(20, 20, boxed);
    assert_eq!(map.get(1, 0), IMPASSABLE);
    assert_eq!(map.get(2, 0), 2);
    assert_eq!(map.get(8, 8), 8);
}

#[test]
fn exploration_with_an_unbounded_step_cost() {
    let mut map = Floor::target(&[(2, 0)]);
    map.explore(0, 0, |_, _, b| b + 1);
    assert_eq!(map.get(2, 0), 0);
    assert_eq!(map.get(1, 0), 1);
    assert_eq!(map.get(1, -1), 1);
    assert_eq!(map.get(0, 0), 2);
    assert_eq!(map.get(-1, 0), UNEXPLORED);
}

#[test]
fn searches_start_far_from_the_origin() {
    let far = 2_000_000_000;
    let mut map = Floor::target(&[(far, 0)]);
    map.explore(far - 2, 0, |_, _, base| base + 1);
    assert_eq!(map.get(far - 1, 0), 1);
    assert_eq!(map.get(far - 2, 0), 2);
    assert!(matches!(map.step(far - 2, 0), Some(OrdDir::UpRight | OrdDir::Right | OrdDir::DownRight)));
}

use hiroz_nav::planner::{astar, costs_fit, drop_start_waypoint, nearest_passable};
use hiroz_nav::static_map::StaticMap;

/// Builds a map from rows given bottom row first: '#' occupied, '.' free, '?' unknown.
fn map_from(rows: &[&str]) -> StaticMap {
    let height = rows.len();
    let width = rows[0].len();
    let mut cells = Vec::new();
    for r in rows {
        for ch in r.chars() {
            cells.push(match ch {
                '#' => 1,
                '.' => 0,
                _ => -1,
            });
        }
    }
    StaticMap { width, height, cells }
}

fn cost(path: &[(usize, usize)]) -> u32 {
    path.windows(2)
        .map(|w| if w[0].0 != w[1].0 && w[0].1 != w[1].1 { 14 } else { 10 })
        .sum()
}

fn check_walk(map: &StaticMap, path: &[(usize, usize)], start: (usize, usize), goal: (usize, usize)) {
    assert_eq!(path[0], start);
    assert_eq!(*path.last().unwrap(), goal);
    for w in path.windows(2) {
        let dx = w[1].0 as i64 - w[0].0 as i64;
        let dy = w[1].1 as i64 - w[0].1 as i64;
        assert!(dx.abs() <= 1 && dy.abs() <= 1 && (dx, dy) != (0, 0));
        assert!(!map.is_occupied(w[1].0, w[1].1));
    }
}

#[test]
fn nearest_passable_returns_free_start() {
    let map = map_from(&["...", "...", "..."]);
    assert_eq!(nearest_passable(&map, (1, 1), 5), Some((1, 1)));
}

#[test]
fn nearest_passable_first_in_ring_order() {
    // Centre is occupied; free cells at (2, 1) and (0, 2).
    let map = map_from(&["###", "##.", ".##"]);
    // Ring 1 is searched with dx from -1: (0, 0), (0, 1), (0, 2) first.
    assert_eq!(nearest_passable(&map, (1, 1), 5), Some((0, 2)));
}

#[test]
fn nearest_passable_unknown_is_not_free() {
    let map = map_from(&["???", "?#?", "???"]);
    assert_eq!(nearest_passable(&map, (1, 1), 5), None);
}

#[test]
fn nearest_passable_second_ring() {
    let map = map_from(&[".####", "#####", "#####", "#####", "#####"]);
    assert_eq!(nearest_passable(&map, (2, 2), 1), None);
    assert_eq!(nearest_passable(&map, (2, 2), 2), Some((0, 0)));
    assert_eq!(nearest_passable(&map, (2, 2), 0), None);
}

#[test]
fn astar_start_is_goal() {
    let map = map_from(&["...", "...", "..."]);
    assert_eq!(astar(&map, (1, 1), (1, 1)), Some(vec![(1, 1)]));
}

#[test]
fn astar_straight_line() {
    let map = map_from(&["....."]);
    let p = astar(&map, (0, 0), (4, 0)).unwrap();
    assert_eq!(p, vec![(0, 0), (1, 0), (2, 0), (3, 0), (4, 0)]);
    assert_eq!(cost(&p), 40);
}

#[test]
fn astar_diagonal_is_cheapest() {
    let map = map_from(&["....", "....", "....", "...."]);
    let p = astar(&map, (0, 0), (3, 3)).unwrap();
    check_walk(&map, &p, (0, 0), (3, 3));
    assert_eq!(cost(&p), 42);
}

#[test]
fn astar_goes_around_a_wall() {
    let map = map_from(&[
        ".....",
        ".###.",
        ".#...",
        ".#.#.",
        "...#.",
    ]);
    let p = astar(&map, (2, 2), (4, 4)).unwrap();
    check_walk(&map, &p, (2, 2), (4, 4));
    assert_eq!(cost(&p), 34);
}

#[test]
fn astar_unreachable_goal() {
    let map = map_from(&["..#..", "..#..", "..#.."]);
    assert_eq!(astar(&map, (0, 0), (4, 2)), None);
}

#[test]
fn astar_occupied_goal_is_unreachable() {
    let map = map_from(&["...", ".#.", "..."]);
    assert_eq!(astar(&map, (0, 0), (1, 1)), None);
}

#[test]
fn astar_occupied_start_may_leave() {
    let map = map_from(&["#..", "...", "..."]);
    let p = astar(&map, (0, 0), (2, 0)).unwrap();
    check_walk(&map, &p, (0, 0), (2, 0));
    assert_eq!(cost(&p), 20);
}

#[test]
fn costs_fit_small_and_huge_maps() {
    assert!(costs_fit(&StaticMap { width: 384, height: 384, cells: vec![] }));
    assert!(!costs_fit(&StaticMap { width: 20000, height: 20000, cells: vec![] }));
    assert!(!costs_fit(&StaticMap { width: usize::MAX, height: 2, cells: vec![] }));
    // 14 * (w * h + w + h) exactly at the limit and just over it.
    let limit = (u32::MAX / 14) as usize;
    let w = (limit - 1) / 2;
    assert!(costs_fit(&StaticMap { width: w, height: 1, cells: vec![] }));
    assert!(!costs_fit(&StaticMap { width: w + 1, height: 1, cells: vec![] }));
}

#[test]
fn drop_start_waypoint_cases() {
    let mut v = vec![(0.0f32, 0.0f32), (1.0, 1.0), (2.0, 2.0)];
    drop_start_waypoint(&mut v);
    assert_eq!(v, vec![(1.0, 1.0), (2.0, 2.0)]);
    let mut one = vec![(5.0f32, 5.0f32)];
    drop_start_waypoint(&mut one);
    assert_eq!(one, vec![(5.0, 5.0)]);
    let mut none: Vec<(f32, f32)> = vec![];
    drop_start_waypoint(&mut none);
    assert!(none.is_empty());
}

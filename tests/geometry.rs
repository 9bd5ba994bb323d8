use roguelike_core::path::find_path;
use roguelike_core::vectors::{cast_line, line_of_sight, ortho_directions, Vector2Int};

fn v(x: i32, y: i32) -> Vector2Int {
    Vector2Int::new(x, y)
}

#[test]
fn manhattan_distance() {
    assert_eq!(v(1, 2).manhattan(v(4, -2)), 7);
    assert_eq!(v(0, 0).manhattan(v(0, 0)), 0);
}

#[test]
fn euclidean_distance_rounds_down() {
    assert_eq!(v(0, 0).distance(v(3, 4)), 5);
    assert_eq!(v(0, 0).distance(v(1, 1)), 1);
    assert_eq!(v(0, 0).distance(v(2, 3)), 3);
    assert_eq!(v(5, 5).distance(v(5, 5)), 0);
}

#[test]
fn circle_area_of_radius_one() {
    let tiles = v(0, 0).circle_area(1);
    assert_eq!(tiles, vec![v(-1, 0), v(0, -1), v(0, 0), v(0, 1), v(1, 0)]);
}

#[test]
fn circle_edge_of_radius_two() {
    let tiles = v(1, 1).circle_edge(2);
    assert_eq!(tiles, vec![v(-1, 1), v(1, -1), v(1, 3), v(3, 1)]);
}

#[test]
fn circle_of_negative_radius_is_empty() {
    assert!(v(0, 0).circle_area(-1).is_empty());
}

#[test]
fn cast_line_reaches_end() {
    assert_eq!(cast_line(v(0, 0), v(2, 1), &[]), vec![v(0, 0), v(1, 0), v(2, 1)]);
    assert_eq!(cast_line(v(2, 1), v(0, 0), &[]), vec![v(2, 1), v(1, 0), v(0, 0)]);
    assert_eq!(cast_line(v(3, 3), v(3, 3), &[]), vec![v(3, 3)]);
    assert_eq!(cast_line(v(0, 0), v(0, -3), &[]), vec![v(0, 0), v(0, -1), v(0, -2), v(0, -3)]);
}

#[test]
fn cast_line_is_symmetric() {
    let pairs = [(v(0, 0), v(2, 1)), (v(-3, 4), v(5, -2)), (v(1, 1), v(1, 7)), (v(7, 3), v(-2, 3))];
    for (p, q) in pairs {
        let mut back = cast_line(q, p, &[]);
        back.reverse();
        assert_eq!(cast_line(p, q, &[]), back);
    }
}

#[test]
fn cast_line_stops_at_blocker() {
    assert_eq!(cast_line(v(0, 0), v(4, 0), &[v(2, 0)]), vec![v(0, 0), v(1, 0), v(2, 0)]);
    assert_eq!(cast_line(v(0, 0), v(4, 0), &[v(0, 0)]), vec![v(0, 0)]);
}

#[test]
fn shared_blocker_cuts_both_directions() {
    let p = v(0, 0);
    let q = v(6, 2);
    let blocker = v(3, 1);
    let forward = cast_line(p, q, &[blocker]);
    let backward = cast_line(q, p, &[blocker]);
    assert_eq!(*forward.last().unwrap(), blocker);
    assert_eq!(*backward.last().unwrap(), blocker);
}

#[test]
fn line_of_sight_joins_lines() {
    let seen = line_of_sight(v(0, 0), vec![v(2, 0), v(0, 2)], &[v(1, 0)]);
    assert_eq!(seen, vec![v(0, 0), v(1, 0), v(0, 0), v(0, 1), v(0, 2)]);
}

#[test]
fn ortho_directions_order() {
    assert_eq!(ortho_directions(), vec![v(0, 1), v(0, -1), v(-1, 0), v(1, 0)]);
}

fn grid(w: i32, h: i32) -> Vec<Vector2Int> {
    let mut t = Vec::new();
    for x in 0..w {
        for y in 0..h {
            t.push(v(x, y));
        }
    }
    t
}

#[test]
fn find_path_on_open_grid() {
    let tiles = grid(5, 5);
    let path = find_path(v(0, 0), v(3, 2), &tiles, &[]).unwrap();
    assert_eq!(path.len(), 5);
    assert_eq!(*path.back().unwrap(), v(3, 2));
    let mut prev = v(0, 0);
    for p in path.iter() {
        assert_eq!(prev.manhattan(*p), 1);
        prev = *p;
    }
}

#[test]
fn find_path_fully_blocked_grid_is_none() {
    let tiles = grid(5, 5);
    let blockers: Vec<Vector2Int> = tiles.iter().copied().filter(|p| *p != v(0, 0)).collect();
    assert!(find_path(v(0, 0), v(4, 4), &tiles, &blockers).is_none());
}

#[test]
fn find_path_allows_blocked_target() {
    let tiles = grid(3, 1);
    let path = find_path(v(0, 0), v(2, 0), &tiles, &[v(2, 0)]).unwrap();
    assert_eq!(path.into_iter().collect::<Vec<_>>(), vec![v(1, 0), v(2, 0)]);
}

#[test]
fn find_path_same_point_is_none() {
    let tiles = grid(3, 3);
    assert!(find_path(v(1, 1), v(1, 1), &tiles, &[]).is_none());
}

#[test]
fn find_path_around_wall() {
    let tiles = grid(3, 3);
    let wall = vec![v(1, 0), v(1, 1)];
    let path = find_path(v(0, 0), v(2, 0), &tiles, &wall).unwrap();
    assert_eq!(path.len(), 6);
    assert!(path.iter().all(|p| !wall.contains(p)));
}

use roguelike_core::area::Area;
use roguelike_core::dungeon::Dungeon;
use roguelike_core::room::{BubbleGenerator, CircleRoom, Room, SquareRoom};
use roguelike_core::tunneler::Tunneler;
use roguelike_core::vectors::Vector2Int;

fn v(x: i32, y: i32) -> Vector2Int {
    Vector2Int::new(x, y)
}

fn generator() -> BubbleGenerator {
    BubbleGenerator {
        room_count: (3, 5),
        room_size: (4, 8),
        room_padding: Some(2),
        extra_connection_chance: (1, 4),
    }
}

#[test]
fn square_room_normalises_corners() {
    let s = SquareRoom::new(v(5, 1), v(2, 4));
    assert_eq!(s.a, v(2, 1));
    assert_eq!(s.b, v(5, 4));
}

#[test]
fn room_tiles_and_corners() {
    let square = Room::new(v(0, 0), v(2, 1));
    let tiles = square.to_tiles();
    assert_eq!(tiles.len(), 6);
    assert_eq!(square.corners(), [v(0, 0), v(2, 0), v(2, 1), v(0, 1)]);
    assert_eq!(square.centre(), v(1, 0));
    let circle = Room::Circle(CircleRoom::new(v(3, 3), 1));
    assert_eq!(circle.to_tiles().len(), 5);
    assert_eq!(circle.corners(), [v(2, 2), v(4, 2), v(4, 4), v(2, 4)]);
    assert_eq!(circle.centre(), v(3, 3));
}

#[test]
fn centre_rounds_towards_zero() {
    assert_eq!(Room::new(v(-3, -3), v(0, 0)).centre(), v(-1, -1));
}

#[test]
fn rooms_intersect_with_padding() {
    let a = Room::new(v(0, 0), v(3, 3));
    let b = Room::new(v(6, 0), v(8, 3));
    assert!(!a.intersects(&b, None));
    assert!(!a.intersects(&b, Some(2)));
    assert!(a.intersects(&b, Some(3)));
    let c = Room::Circle(CircleRoom::new(v(10, 10), 2));
    assert!(!c.intersects(&a, Some(1)));
    assert!(c.intersects(&Room::new(v(12, 10), v(14, 12)), None));
}

#[test]
fn shift_moves_room() {
    let mut r = Room::new(v(0, 0), v(2, 2));
    r.shift(v(5, -1));
    assert_eq!(r.corners()[0], v(5, -1));
    let mut c = Room::Circle(CircleRoom::new(v(1, 1), 2));
    c.shift(v(1, 1));
    assert_eq!(c.centre(), v(2, 2));
}

#[test]
fn random_point_is_inside_square() {
    let r = Room::new(v(0, 0), v(4, 5));
    for _ in 0..50 {
        let p = r.random_point();
        assert!(0 < p.x && p.x < 4 && 0 < p.y && p.y < 5);
    }
}

#[test]
fn tunnels_are_shortest_corridors() {
    for t in [Tunneler::LShape, Tunneler::Random] {
        let path = t.connect(v(0, 0), v(4, -3));
        assert_eq!(path.len(), 8);
        assert_eq!(path[0], v(0, 0));
        assert_eq!(*path.last().unwrap(), v(4, -3));
        for w in path.windows(2) {
            assert_eq!(w[0].manhattan(w[1]), 1);
        }
    }
    assert_eq!(Tunneler::Random.connect(v(1, 1), v(1, 1)), vec![v(1, 1)]);
}

fn overlapping(a: &Room, b: &Room) -> bool {
    let tb = b.to_tiles();
    a.to_tiles().iter().any(|t| tb.contains(t))
}

#[test]
fn generated_rooms_do_not_overlap() {
    for _ in 0..5 {
        let res = generator().generate().unwrap();
        assert!(res.rooms.len() >= 5 && res.rooms.len() <= 7);
        for i in 0..res.rooms.len() {
            for j in i + 1..res.rooms.len() {
                assert!(!overlapping(&res.rooms[i], &res.rooms[j]));
            }
        }
        for c in res.connections.iter() {
            assert!(c.0 < c.1 && c.1 < res.rooms.len());
        }
    }
}

#[test]
fn area_generation_and_shift() {
    let mut area = Area::new(Tunneler::LShape, generator());
    area.generate_rooms().unwrap();
    let tiles = area.to_tiles();
    for i in 0..area.rooms.len() {
        for t in area.rooms[i].to_tiles() {
            assert!(tiles.contains(&t));
        }
    }
    area.shift(v(100, 50));
    let (lo, _hi) = area.get_bounds();
    assert_eq!(lo, v(100, 50));
    let size = area.get_size();
    assert!(size.x > 0 && size.y > 0);
}

#[test]
fn areas_join_with_corridor() {
    let mut a = Area::new(Tunneler::LShape, generator());
    let mut b = Area::new(Tunneler::Random, generator());
    a.generate_rooms().unwrap();
    b.generate_rooms().unwrap();
    b.shift(v(60, 0));
    let before = a.paths.len();
    let path = a.join_area(&b);
    assert_eq!(a.paths.len(), before + 1);
    for w in path.windows(2) {
        assert_eq!(w[0].manhattan(w[1]), 1);
    }
}

fn level() -> Dungeon {
    let mut dungeon = Dungeon::new(2);
    for idx in 0..4 {
        let tun = if idx % 2 == 0 { Tunneler::LShape } else { Tunneler::Random };
        dungeon.add_area(Area::new(tun, generator()));
    }
    dungeon.generate().unwrap();
    dungeon
}

#[test]
fn walls_never_cover_floor() {
    let dungeon = level();
    let floor = dungeon.get_valid_spots();
    assert!(!floor.is_empty());
    assert!(!dungeon.walls.is_empty());
    for w in dungeon.walls.iter() {
        assert!(!floor.contains(w));
    }
    let all = dungeon.to_tiles();
    assert_eq!(all.len(), floor.len() + dungeon.walls.len());
}

#[test]
fn floor_is_closed_by_walls() {
    let dungeon = level();
    let all = dungeon.to_tiles();
    let floor = dungeon.get_valid_spots();
    for f in floor.iter() {
        for d in [v(0, 1), v(0, -1), v(1, 0), v(-1, 0)] {
            let n = Vector2Int::new(f.x + d.x, f.y + d.y);
            assert!(all.contains(&n));
        }
    }
}

#[test]
fn areas_are_laid_out_apart() {
    let dungeon = level();
    let boxes: Vec<(Vector2Int, Vector2Int)> = dungeon.areas.iter().map(|a| a.get_bounds()).collect();
    for i in 0..boxes.len() {
        for j in i + 1..boxes.len() {
            let (a, b) = (boxes[i], boxes[j]);
            let apart = a.1.x < b.0.x || b.1.x < a.0.x || a.1.y < b.0.y || b.1.y < a.0.y;
            assert!(apart);
        }
    }
    assert_eq!(boxes[0].0, v(0, 0));
}

#[test]
fn circle_random_point_is_inside() {
    let c = Room::Circle(CircleRoom::new(v(5, 5), 3));
    for _ in 0..100 {
        let p = c.random_point();
        let (dx, dy) = (p.x - 5, p.y - 5);
        assert!(dx * dx + dy * dy <= 9);
    }
}

#[test]
fn l_shaped_tunnel_turns_once() {
    for _ in 0..20 {
        let (a, b) = (v(1, 2), v(6, -3));
        let path = Tunneler::LShape.connect(a, b);
        let across = path.iter().all(|p| p.y == a.y || p.x == b.x);
        let down = path.iter().all(|p| p.x == a.x || p.y == b.y);
        assert!(across || down);
    }
}

#[test]
fn try_place_keeps_padding() {
    let gen = generator();
    let mut rooms = vec![Room::new(v(0, 0), v(4, 4))];
    let mut conns = Vec::new();
    assert!(!gen.try_place(&mut rooms, &mut conns, 0, Room::new(v(6, 0), v(9, 4)), None));
    assert_eq!(rooms.len(), 1);
    assert!(conns.is_empty());
    assert!(gen.try_place(&mut rooms, &mut conns, 0, Room::new(v(7, 0), v(10, 4)), Some(0)));
    assert_eq!(rooms.len(), 2);
    assert_eq!(conns, vec![(0, 1), (0, 1)]);
}

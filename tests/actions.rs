use roguelike_core::actions::{
    Action, DamageAction, DigAction, MeleeHitAction, NextLevelAction, PickupAction,
    ProjectileFlyAction, ProjectileShootAction, WalkAction,
};
use roguelike_core::components::{Gold, GoldDrop, Health, HealthDrop, Inventory, Item, ItemContainer, Range, Sword};
use roguelike_core::vectors::Vector2Int;
use roguelike_core::world::{Entity, EntityRecord, GameEvent, World};

fn v(x: i32, y: i32) -> Vector2Int {
    Vector2Int::new(x, y)
}

fn floor(w: i32, h: i32) -> Vec<Vector2Int> {
    let mut t = Vec::new();
    for x in 0..w {
        for y in 0..h {
            t.push(v(x, y));
        }
    }
    t
}

fn health(n: u32) -> Health {
    Health { base: Range { min: n, max: n }, current: Range { min: n, max: n } }
}

fn piece(at: Vector2Int) -> EntityRecord {
    let mut r = EntityRecord::empty();
    r.position = Some(at);
    r
}

fn hp(world: &World, e: Entity) -> u32 {
    world.entities[e.0].as_ref().unwrap().health.unwrap().current.min
}

fn position(world: &World, e: Entity) -> Vector2Int {
    world.entities[e.0].as_ref().unwrap().position.unwrap()
}

#[test]
fn melee_then_damage_scenario() {
    let mut world = World::new(floor(10, 10));
    let mut p = piece(v(5, 5));
    p.player = true;
    let player = world.spawn(p);
    let mut n = piece(v(6, 5));
    n.health = Some(health(10));
    let npc = world.spawn(n);
    let child = world.spawn(EntityRecord::empty());
    world.add_child(npc, child);

    let hit = MeleeHitAction { attacker: player, target: v(6, 5), damage: 5 };
    let follow = hit.execute(&mut world).unwrap();
    assert_eq!(follow.len(), 1);
    match &follow[0] {
        Action::Damage(DamageAction(e, amount)) => {
            assert_eq!(*e, npc);
            assert_eq!(*amount, 5);
        }
        _ => panic!("expected a damage action"),
    }
    assert!(follow[0].execute(&mut world).unwrap().is_empty());
    assert_eq!(hp(&world, npc), 5);
    assert!(world.is_alive(npc));

    let again = hit.execute(&mut world).unwrap();
    assert_eq!(again.len(), 1);
    again[0].execute(&mut world).unwrap();
    assert!(!world.is_alive(npc));
    assert!(!world.is_alive(child));
    assert!(world.is_alive(player));
}

#[test]
fn damage_saturates_at_zero() {
    let mut world = World::new(floor(3, 3));
    let mut n = piece(v(1, 1));
    n.health = Some(health(3));
    let npc = world.spawn(n);
    DamageAction(npc, 2).execute(&mut world).unwrap();
    assert_eq!(hp(&world, npc), 1);
    DamageAction(npc, 7).execute(&mut world).unwrap();
    assert!(!world.is_alive(npc));
}

#[test]
fn damage_twice_accumulates() {
    let mut world = World::new(floor(3, 3));
    let mut n = piece(v(1, 1));
    n.health = Some(health(10));
    let npc = world.spawn(n);
    let hit = DamageAction(npc, 3);
    hit.execute(&mut world).unwrap();
    hit.execute(&mut world).unwrap();
    assert_eq!(hp(&world, npc), 4);
}

#[test]
fn damage_without_health_fails() {
    let mut world = World::new(floor(3, 3));
    let e = world.spawn(piece(v(1, 1)));
    assert!(DamageAction(e, 1).execute(&mut world).is_err());
    assert!(DamageAction(Entity(9), 1).execute(&mut world).is_err());
}

#[test]
fn killing_the_player_ends_the_game() {
    let mut world = World::new(floor(3, 3));
    let mut p = piece(v(1, 1));
    p.player = true;
    p.health = Some(health(2));
    let player = world.spawn(p);
    DamageAction(player, 2).execute(&mut world).unwrap();
    assert!(!world.is_alive(player));
    assert!(matches!(world.events.last(), Some(GameEvent::GameOver)));
}

#[test]
fn melee_out_of_reach_fails() {
    let mut world = World::new(floor(10, 10));
    let attacker = world.spawn(piece(v(1, 1)));
    let mut n = piece(v(3, 1));
    n.health = Some(health(10));
    let npc = world.spawn(n);
    let hit = MeleeHitAction { attacker, target: v(3, 1), damage: 4 };
    assert!(hit.execute(&mut world).is_err());
    assert_eq!(hp(&world, npc), 10);
}

#[test]
fn melee_on_empty_tile_fails() {
    let mut world = World::new(floor(10, 10));
    let attacker = world.spawn(piece(v(1, 1)));
    let hit = MeleeHitAction { attacker, target: v(2, 1), damage: 4 };
    assert!(hit.execute(&mut world).is_err());
}

#[test]
fn walk_moves_only_the_walker() {
    let mut world = World::new(floor(4, 4));
    let walker = world.spawn(piece(v(1, 1)));
    let other = world.spawn(piece(v(2, 2)));
    let follow = WalkAction(walker, v(1, 2)).execute(&mut world).unwrap();
    assert_eq!(position(&world, walker), v(1, 2));
    assert_eq!(position(&world, other), v(2, 2));
    assert_eq!(follow.len(), 1);
    assert!(matches!(follow[0], Action::Pickup(PickupAction(e, t)) if e == walker && t == v(1, 2)));
}

#[test]
fn walk_of_the_player_checks_for_a_portal() {
    let mut world = World::new(floor(4, 4));
    let mut p = piece(v(1, 1));
    p.player = true;
    let player = world.spawn(p);
    let follow = WalkAction(player, v(2, 1)).execute(&mut world).unwrap();
    assert_eq!(follow.len(), 2);
    assert!(matches!(follow[1], Action::NextLevel(NextLevelAction(e, t)) if e == player && t == v(2, 1)));
}

#[test]
fn walk_off_the_floor_fails() {
    let mut world = World::new(floor(4, 4));
    let walker = world.spawn(piece(v(0, 0)));
    assert!(WalkAction(walker, v(-1, 0)).execute(&mut world).is_err());
    assert_eq!(position(&world, walker), v(0, 0));
}

#[test]
fn walk_into_occupier_fails() {
    let mut world = World::new(floor(4, 4));
    let walker = world.spawn(piece(v(0, 0)));
    let mut block = piece(v(1, 0));
    block.occupier = true;
    world.spawn(block);
    assert!(WalkAction(walker, v(1, 0)).execute(&mut world).is_err());
    assert_eq!(position(&world, walker), v(0, 0));
}

#[test]
fn dig_without_wall_fails() {
    let mut world = World::new(floor(4, 4));
    let digger = world.spawn(piece(v(0, 0)));
    let other = world.spawn(piece(v(1, 0)));
    assert!(DigAction(digger, v(1, 0)).execute(&mut world).is_err());
    assert!(world.is_alive(digger));
    assert!(world.is_alive(other));
    assert_eq!(world.entities.len(), 2);
}

#[test]
fn dig_removes_wall() {
    let mut world = World::new(floor(4, 4));
    let digger = world.spawn(piece(v(0, 0)));
    let mut w = piece(v(1, 0));
    w.wall = true;
    w.occupier = true;
    let wall = world.spawn(w);
    assert!(DigAction(digger, v(1, 0)).execute(&mut world).unwrap().is_empty());
    assert!(!world.is_alive(wall));
}

#[test]
fn pickup_gold_and_health() {
    let mut world = World::new(floor(4, 4));
    let mut p = piece(v(1, 1));
    p.player = true;
    p.item_picker = true;
    p.gold = Some(Gold { value: 2 });
    p.health = Some(Health { base: Range { min: 10, max: 10 }, current: Range { min: 4, max: 10 } });
    let player = world.spawn(p);
    let mut coin = piece(v(1, 1));
    coin.item_container = Some(ItemContainer { item: Item::Gold(GoldDrop { value: 3 }) });
    let coin = world.spawn(coin);
    PickupAction(player, v(1, 1)).execute(&mut world).unwrap();
    assert_eq!(world.entities[player.0].as_ref().unwrap().gold.unwrap().value, 5);
    assert!(!world.is_alive(coin));

    let mut potion = piece(v(1, 1));
    potion.item_container = Some(ItemContainer { item: Item::Health(HealthDrop { value: 9 }) });
    world.spawn(potion);
    PickupAction(player, v(1, 1)).execute(&mut world).unwrap();
    assert_eq!(hp(&world, player), 10);
}

#[test]
fn pickup_sword_goes_to_inventory() {
    let mut world = World::new(floor(4, 4));
    let mut p = piece(v(1, 1));
    p.player = true;
    p.item_picker = true;
    p.inventory = Some(Inventory { items: Vec::new() });
    let player = world.spawn(p);
    let mut s = piece(v(1, 1));
    s.item_container = Some(ItemContainer { item: Item::Sword(Sword { equipped: false, id: 7 }) });
    let sword = world.spawn(s);
    PickupAction(player, v(1, 1)).execute(&mut world).unwrap();
    let inv = &world.entities[player.0].as_ref().unwrap().inventory.as_ref().unwrap().items;
    assert_eq!(inv.len(), 1);
    assert!(!world.is_alive(sword));
}

#[test]
fn pickup_needs_picker_and_item() {
    let mut world = World::new(floor(4, 4));
    let e = world.spawn(piece(v(1, 1)));
    assert!(PickupAction(e, v(1, 1)).execute(&mut world).is_err());
}

#[test]
fn next_level_needs_portal() {
    let mut world = World::new(floor(4, 4));
    let mut p = piece(v(1, 1));
    p.player = true;
    let player = world.spawn(p);
    assert!(NextLevelAction(player, v(1, 1)).execute(&mut world).is_err());
    let mut portal = piece(v(1, 1));
    portal.portal = true;
    world.spawn(portal);
    NextLevelAction(player, v(1, 1)).execute(&mut world).unwrap();
    assert!(matches!(world.events.last(), Some(GameEvent::NextLevel)));
}

#[test]
fn projectile_shoot_and_fly() {
    let mut world = World::new(floor(6, 6));
    let arrow = world.spawn(piece(v(0, 0)));
    let mut w = piece(v(3, 0));
    w.vision_blocker = true;
    world.spawn(w);
    let follow = ProjectileShootAction(arrow, v(5, 0)).execute(&mut world).unwrap();
    assert_eq!(follow.len(), 1);
    let path = match &follow[0] {
        Action::ProjectileFly(ProjectileFlyAction(e, path)) => {
            assert_eq!(*e, arrow);
            path.clone()
        }
        _ => panic!("expected a flight"),
    };
    assert_eq!(path, vec![v(0, 0), v(1, 0), v(2, 0), v(3, 0)]);
    let next = ProjectileFlyAction(arrow, path).execute(&mut world).unwrap();
    assert_eq!(position(&world, arrow), v(0, 0));
    match &next[0] {
        Action::ProjectileFly(ProjectileFlyAction(_, rest)) => assert_eq!(rest.len(), 3),
        _ => panic!("expected a flight"),
    }
    assert!(ProjectileFlyAction(arrow, Vec::new()).execute(&mut world).unwrap().is_empty());
    assert!(!world.is_alive(arrow));
}

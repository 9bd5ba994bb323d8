use std::collections::VecDeque;

use roguelike_core::actions::{Action, DigAction, MeleeHitAction, ProjectileShootAction, WalkAction};
use roguelike_core::components::{Actor, ChestArmor, Damage, Equipment, EquipmentSlot, Inventory, Item, Melee, Projectile, Tile};
use roguelike_core::equipment::player_equip_event_system;
use roguelike_core::manager::{GameState, MainState, Signal, TurnState};
use roguelike_core::planning::{plan_projectile, process_projectiles, queue_player_action, PlayerCommand};
use roguelike_core::room::{CircleRoom, Room};
use roguelike_core::turn::ActorQueue;
use roguelike_core::vectors::Vector2Int;
use roguelike_core::world::{EntityRecord, World};

fn v(x: i32, y: i32) -> Vector2Int {
    Vector2Int::new(x, y)
}

#[test]
fn vector_arithmetic() {
    assert_eq!(v(1, 2).add(v(3, -4)), v(4, -2));
    assert_eq!(v(1, 2).sub(v(3, -4)), v(-2, 6));
    assert_eq!(v(1, -2).mul(3), v(3, -6));
    let mut p = v(0, 0);
    p.add_assign(v(2, 3));
    p.sub_assign(v(1, 1));
    assert_eq!(p, v(1, 2));
}

#[test]
fn square_room_walls_are_its_border() {
    let walls = Room::new(v(0, 0), v(3, 2)).walls();
    assert_eq!(walls.len(), 10);
    assert!(!walls.contains(&v(1, 1)));
    assert!(walls.contains(&v(3, 2)));
}

#[test]
fn circle_room_walls() {
    let walls = Room::Circle(CircleRoom::new(v(0, 0), 1)).walls();
    assert_eq!(walls.len(), 4);
    assert!(!walls.contains(&v(0, 0)));
}

#[test]
fn despawning_by_kind() {
    let mut world = World::new(Vec::new());
    let mut t = EntityRecord::empty();
    t.tile = Some(Tile { visible: false, seen: false });
    let tile = world.spawn(t);
    let wall = world.spawn(EntityRecord::empty());
    world.add_child(tile, wall);
    let mut p = EntityRecord::empty();
    p.piece = true;
    p.player = true;
    let player = world.spawn(p);
    let mut c = EntityRecord::empty();
    c.piece = true;
    let coin = world.spawn(c);

    world.despawn_pieces();
    assert!(!world.is_alive(coin));
    assert!(world.is_alive(player));
    world.despawn_map();
    assert!(!world.is_alive(tile));
    assert!(!world.is_alive(wall));
    assert!(world.is_alive(player));
    world.despawn_player();
    assert!(!world.is_alive(player));
}

#[test]
fn projectiles_plan_their_shot() {
    let mut world = World::new(Vec::new());
    let mut r = EntityRecord::empty();
    r.actor = Some(Actor(Vec::new()));
    r.projectile = Some(Projectile { destination: v(4, 4), damage: Damage { min: 5, max: 5 } });
    let e = world.spawn(r);
    process_projectiles(&mut world, &vec![e]);
    let cands = &world.entities[e.0].as_ref().unwrap().actor.as_ref().unwrap().0;
    assert_eq!(cands.len(), 1);
    assert!(matches!(cands[0].0, Action::ProjectileShoot(ProjectileShootAction(x, t)) if x == e && t == v(4, 4)));
    let plain = world.spawn(EntityRecord::empty());
    plan_projectile(&mut world, plain);
    assert!(world.entities[plain.0].as_ref().unwrap().actor.is_none());
}

#[test]
fn player_commands_fill_the_queue() {
    let mut world = World::new(Vec::new());
    let mut p = EntityRecord::empty();
    p.player = true;
    p.position = Some(v(2, 2));
    p.actor = Some(Actor(Vec::new()));
    p.melee = Some(Melee { base_damage: Damage { min: 5, max: 10 }, current_damage: Damage { min: 5, max: 10 } });
    let player = world.spawn(p);
    let mut queue = ActorQueue(VecDeque::new());
    queue_player_action(&mut queue, &mut world, v(1, 0), PlayerCommand::Move);
    assert_eq!(queue.0, VecDeque::from(vec![player]));
    {
        let cands = &world.entities[player.0].as_ref().unwrap().actor.as_ref().unwrap().0;
        assert_eq!(cands.len(), 2);
        assert!(matches!(cands[0].0, Action::Walk(WalkAction(e, t)) if e == player && t == v(3, 2)));
        assert!(matches!(cands[1].0, Action::MeleeHit(MeleeHitAction { attacker, target, damage: 5 }) if attacker == player && target == v(3, 2)));
    }
    queue_player_action(&mut queue, &mut world, v(0, -1), PlayerCommand::Dig);
    let cands = &world.entities[player.0].as_ref().unwrap().actor.as_ref().unwrap().0;
    assert_eq!(cands.len(), 1);
    assert!(matches!(cands[0].0, Action::Dig(DigAction(e, t)) if e == player && t == v(2, 1)));
}

#[test]
fn no_player_no_command() {
    let mut world = World::new(Vec::new());
    let mut queue = ActorQueue(VecDeque::new());
    queue_player_action(&mut queue, &mut world, v(1, 0), PlayerCommand::Move);
    assert!(queue.0.is_empty());
}

#[test]
fn turn_states() {
    let s = TurnState::new();
    assert_eq!(s.main, MainState::Menu);
    let s = s.transition(Signal::StartGame);
    assert_eq!(s.game, GameState::PlayerInput);
    assert!(!s.should_tick(false));
    let s = s.transition(Signal::PlayerInputReady);
    assert_eq!(s.game, GameState::TurnUpdate);
    assert!(s.should_tick(false));
    assert!(!s.should_tick(true));
    assert_eq!(s.transition(Signal::InvalidPlayerAction).game, GameState::PlayerInput);
    assert_eq!(s.transition(Signal::NextLevel), s);
    let s = s.transition(Signal::ActionsComplete);
    assert_eq!(s.game, GameState::PlayerInput);
    let s = s.transition(Signal::GameOver);
    assert_eq!(s.main, MainState::GameOver);
    assert_eq!(s.game, GameState::Idle);
}

#[test]
fn player_equips_by_id() {
    let mut world = World::new(Vec::new());
    let mut p = EntityRecord::empty();
    p.player = true;
    p.position = Some(v(0, 0));
    p.equipment = Some(Equipment { weapon: None, chest: None });
    p.inventory = Some(Inventory { items: vec![Item::ChestArmor(ChestArmor { equipped: false, id: 6 })] });
    let player = world.spawn(p);
    player_equip_event_system(&mut world, EquipmentSlot::Chest, 6);
    let rec = world.entities[player.0].as_ref().unwrap();
    assert!(rec.equipment.unwrap().chest.is_some());
    assert!(rec.inventory.as_ref().unwrap().items.is_empty());
}

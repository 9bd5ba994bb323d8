use std::collections::VecDeque;

use roguelike_core::actions::{Action, DamageAction, MeleeHitAction, WalkAction};
use roguelike_core::components::{Actor, Damage, Health, Melee, Range, Tile};
use roguelike_core::planning::{plan_melee, plan_walk, player_position, populate_actor_queue, MOVE_SCORE, PLAYER_ATTACK_SCORE};
use roguelike_core::turn::{process_action_queue, ActorQueue, PendingActions};
use roguelike_core::vectors::Vector2Int;
use roguelike_core::visibility::update_tile_visibility;
use roguelike_core::world::{Entity, EntityRecord, GameEvent, World};

fn v(x: i32, y: i32) -> Vector2Int {
    Vector2Int::new(x, y)
}

fn floor(w: i32, h: i32) -> Vec<Vector2Int> {
    let mut t = Vec::new();
    for x in 0..w {
        for y in 0..h {
            t.push(v(x, y));
        }
    }
    t
}

fn walker(at: Vector2Int) -> EntityRecord {
    let mut r = EntityRecord::empty();
    r.position = Some(at);
    r.actor = Some(Actor(Vec::new()));
    r
}

fn position(world: &World, e: Entity) -> Vector2Int {
    world.entities[e.0].as_ref().unwrap().position.unwrap()
}

fn set_candidates(world: &mut World, e: Entity, cands: Vec<(Action, i32)>) {
    world.entities[e.0].as_mut().unwrap().actor = Some(Actor(cands));
}

fn count(world: &World, f: fn(&GameEvent) -> bool) -> usize {
    world.events.iter().filter(|e| f(e)).count()
}

#[test]
fn queue_is_served_in_order() {
    let mut world = World::new(floor(10, 10));
    let a = world.spawn(walker(v(1, 1)));
    let b = world.spawn(walker(v(4, 4)));
    let c = world.spawn(walker(v(7, 7)));
    let mut queue = ActorQueue(VecDeque::from(vec![a, b, c]));
    let mut pending = PendingActions(Vec::new());
    set_candidates(&mut world, a, vec![(Action::Walk(WalkAction(a, v(1, 2))), 1)]);
    set_candidates(&mut world, b, vec![(Action::Walk(WalkAction(b, v(4, 5))), 1)]);
    set_candidates(&mut world, c, vec![(Action::Walk(WalkAction(c, v(7, 8))), 1)]);

    process_action_queue(&mut queue, &mut pending, &mut world);
    assert_eq!(position(&world, a), v(1, 2));
    assert_eq!(position(&world, b), v(4, 4));
    assert_eq!(queue.0, VecDeque::from(vec![b, c]));
    assert_eq!(pending.0.len(), 1);
    assert!(matches!(world.events.last(), Some(GameEvent::NextActor)));

    // the pickup follow-up finds nothing and fails, so b's turn runs
    process_action_queue(&mut queue, &mut pending, &mut world);
    assert_eq!(position(&world, b), v(4, 5));
    assert_eq!(queue.0, VecDeque::from(vec![c]));

    process_action_queue(&mut queue, &mut pending, &mut world);
    assert_eq!(position(&world, c), v(7, 8));
    assert!(queue.0.is_empty());

    process_action_queue(&mut queue, &mut pending, &mut world);
    assert!(matches!(world.events.last(), Some(GameEvent::ActionsComplete)));
    assert_eq!(count(&world, |e| matches!(e, GameEvent::ActionExecuted(_))), 3);
}

#[test]
fn pending_success_holds_the_queue() {
    let mut world = World::new(floor(10, 10));
    let a = world.spawn(walker(v(1, 1)));
    let mut target = EntityRecord::empty();
    target.position = Some(v(5, 5));
    target.health = Some(Health { base: Range { min: 9, max: 9 }, current: Range { min: 9, max: 9 } });
    let t = world.spawn(target);
    let mut queue = ActorQueue(VecDeque::from(vec![a]));
    let mut pending = PendingActions(vec![Action::Damage(DamageAction(t, 4))]);
    process_action_queue(&mut queue, &mut pending, &mut world);
    assert_eq!(queue.0, VecDeque::from(vec![a]));
    assert_eq!(world.entities[t.0].as_ref().unwrap().health.unwrap().current.min, 5);
}

#[test]
fn best_score_is_tried_first_and_failures_fall_through() {
    let mut world = World::new(floor(10, 10));
    let a = world.spawn(walker(v(1, 1)));
    let mut block = EntityRecord::empty();
    block.position = Some(v(2, 1));
    block.occupier = true;
    world.spawn(block);
    let mut queue = ActorQueue(VecDeque::from(vec![a]));
    let mut pending = PendingActions(Vec::new());
    set_candidates(&mut world, a, vec![
        (Action::Walk(WalkAction(a, v(0, 1))), 3),
        (Action::Walk(WalkAction(a, v(2, 1))), 9),
        (Action::Walk(WalkAction(a, v(1, 0))), 3),
    ]);
    process_action_queue(&mut queue, &mut pending, &mut world);
    assert_eq!(position(&world, a), v(0, 1));
    assert!(world.entities[a.0].as_ref().unwrap().actor.as_ref().unwrap().0.is_empty());
}

#[test]
fn invalid_player_action_is_reported() {
    let mut world = World::new(floor(3, 3));
    let mut p = walker(v(0, 0));
    p.player = true;
    let player = world.spawn(p);
    let mut queue = ActorQueue(VecDeque::from(vec![player]));
    let mut pending = PendingActions(Vec::new());
    set_candidates(&mut world, player, vec![(Action::Walk(WalkAction(player, v(-1, 0))), 0)]);
    process_action_queue(&mut queue, &mut pending, &mut world);
    assert!(matches!(world.events.last(), Some(GameEvent::InvalidPlayerAction)));
    assert_eq!(position(&world, player), v(0, 0));
}

#[test]
fn entity_without_actor_is_skipped() {
    let mut world = World::new(floor(3, 3));
    let mut r = EntityRecord::empty();
    r.position = Some(v(0, 0));
    let e = world.spawn(r);
    let mut queue = ActorQueue(VecDeque::from(vec![e]));
    let mut pending = PendingActions(Vec::new());
    process_action_queue(&mut queue, &mut pending, &mut world);
    assert!(queue.0.is_empty());
    assert!(matches!(world.events.last(), Some(GameEvent::NextActor)));
}

fn player_at(at: Vector2Int) -> EntityRecord {
    let mut p = walker(at);
    p.player = true;
    p.occupier = true;
    p
}

#[test]
fn plan_melee_targets_player() {
    let mut world = World::new(floor(10, 10));
    world.spawn(player_at(v(2, 2)));
    let mut n = walker(v(3, 2));
    n.melee = Some(Melee { base_damage: Damage { min: 2, max: 3 }, current_damage: Damage { min: 2, max: 3 } });
    let npc = world.spawn(n);
    let queue = ActorQueue(VecDeque::from(vec![npc]));
    plan_melee(&queue, &mut world);
    let cands = &world.entities[npc.0].as_ref().unwrap().actor.as_ref().unwrap().0;
    assert_eq!(cands.len(), 1);
    assert_eq!(cands[0].1, PLAYER_ATTACK_SCORE + 2);
    assert!(matches!(cands[0].0, Action::MeleeHit(MeleeHitAction { attacker, target, damage: 2 }) if attacker == npc && target == v(2, 2)));
}

#[test]
fn plan_walk_prefers_path_to_player() {
    let mut world = World::new(floor(10, 10));
    world.spawn(player_at(v(5, 2)));
    let mut n = walker(v(2, 2));
    n.walk = true;
    let npc = world.spawn(n);
    let queue = ActorQueue(VecDeque::from(vec![npc]));
    plan_walk(&queue, &mut world);
    let cands = &world.entities[npc.0].as_ref().unwrap().actor.as_ref().unwrap().0;
    assert_eq!(cands.len(), 4);
    let best: Vec<_> = cands.iter().filter(|c| c.1 == MOVE_SCORE + 5).collect();
    assert!(!best.is_empty());
    for c in cands.iter() {
        assert!(c.1 == MOVE_SCORE + 5 || (MOVE_SCORE - 10..MOVE_SCORE).contains(&c.1));
    }
    assert!(cands.iter().any(|c| matches!(c.0, Action::Walk(WalkAction(_, t)) if t == v(3, 2)) && c.1 == MOVE_SCORE + 5));
}

#[test]
fn plan_walk_ignores_far_player() {
    let mut world = World::new(floor(30, 30));
    world.spawn(player_at(v(0, 0)));
    let mut n = walker(v(20, 20));
    n.walk = true;
    let npc = world.spawn(n);
    let queue = ActorQueue(VecDeque::from(vec![npc]));
    plan_walk(&queue, &mut world);
    assert!(world.entities[npc.0].as_ref().unwrap().actor.as_ref().unwrap().0.is_empty());
}

#[test]
fn populate_queues_non_players() {
    let mut world = World::new(floor(3, 3));
    world.spawn(player_at(v(0, 0)));
    let a = world.spawn(walker(v(1, 1)));
    world.spawn(EntityRecord::empty());
    let b = world.spawn(walker(v(2, 2)));
    let mut queue = ActorQueue(VecDeque::new());
    populate_actor_queue(&mut queue, &world);
    assert_eq!(queue.0, VecDeque::from(vec![a, b]));
}

#[test]
fn single_player_is_found() {
    let mut world = World::new(floor(3, 3));
    assert!(player_position(&world).is_none());
    world.spawn(player_at(v(1, 2)));
    assert_eq!(player_position(&world), Some(v(1, 2)));
    world.spawn(player_at(v(0, 0)));
    assert!(player_position(&world).is_none());
}

fn tile(at: Vector2Int) -> EntityRecord {
    let mut r = EntityRecord::empty();
    r.position = Some(at);
    r.tile = Some(Tile { visible: false, seen: false });
    r
}

fn tile_state(world: &World, e: Entity) -> Tile {
    world.entities[e.0].as_ref().unwrap().tile.unwrap()
}

#[test]
fn walls_cast_shadows_and_seen_persists() {
    let mut world = World::new(floor(30, 30));
    let player = world.spawn(player_at(v(0, 0)));
    let near = world.spawn(tile(v(1, 0)));
    let mut wall = tile(v(2, 0));
    wall.vision_blocker = true;
    let wall = world.spawn(wall);
    let behind = world.spawn(tile(v(3, 0)));
    let far = world.spawn(tile(v(20, 0)));
    update_tile_visibility(&mut world);
    assert!(tile_state(&world, near).visible);
    assert!(tile_state(&world, wall).visible);
    assert!(!tile_state(&world, behind).visible);
    assert!(!tile_state(&world, far).visible);

    world.entities[player.0].as_mut().unwrap().position = Some(v(25, 25));
    update_tile_visibility(&mut world);
    let t = tile_state(&world, near);
    assert!(!t.visible);
    assert!(t.seen);
}

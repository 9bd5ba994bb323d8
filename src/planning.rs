use std::collections::VecDeque;
use vstd::prelude::*;

use crate::actions::{Action, DigAction, MeleeHitAction, ProjectileShootAction, WalkAction};
use crate::components::Actor;
use crate::path::{find_path, is_walk, reachable};
use crate::random::random_range;
use crate::turn::{same_but_actor, ActorQueue};
use crate::vectors::{adjacent, dist_sq, fits_i32, ortho_directions, ortho_spec, vec_of, Vector2Int};
use crate::world::{Entity, EntityRecord, World};

verus! {

pub const PLAYER_ATTACK_SCORE: i32 = 100;

pub const MOVE_SCORE: i32 = 50;

/// How far, in whole tiles, the player can see and be noticed.
pub const VISIBILITY_RANGE: i32 = 10;

pub open spec fn is_player_piece(o: Option<EntityRecord>) -> bool {
    o.is_some() && o.unwrap().player && o.unwrap().position.is_some()
}

/// Indices of the live players with a position among the first `n` entities.
pub open spec fn players(es: Seq<Option<EntityRecord>>, n: nat) -> Seq<int>
    decreases n,
{
    if n == 0 {
        seq![]
    } else if is_player_piece(es[n - 1]) {
        players(es, (n - 1) as nat).push(n - 1)
    } else {
        players(es, (n - 1) as nat)
    }
}

/// The position of the player, if there is exactly one.
pub open spec fn single_player_position(w: World) -> Option<Vector2Int> {
    let ps = players(w.entities@, w.entities@.len());
    if ps.len() == 1 {
        w.entities@[ps[0]].unwrap().position
    } else {
        None
    }
}

/// Positions of the live occupiers among the first `n` entities, in table order.
pub open spec fn occupier_positions(es: Seq<Option<EntityRecord>>, n: nat) -> Seq<Vector2Int>
    decreases n,
{
    if n == 0 {
        seq![]
    } else {
        let prev = occupier_positions(es, (n - 1) as nat);
        let o = es[n - 1];
        if o.is_some() && o.unwrap().occupier && o.unwrap().position.is_some() {
            prev.push(o.unwrap().position.unwrap())
        } else {
            prev
        }
    }
}

/// Live entities among the first `n` that have an actor and are not the player.
pub open spec fn npc_actors(es: Seq<Option<EntityRecord>>, n: nat) -> Seq<Entity>
    decreases n,
{
    if n == 0 {
        seq![]
    } else {
        let prev = npc_actors(es, (n - 1) as nat);
        let o = es[n - 1];
        if o.is_some() && o.unwrap().actor.is_some() && !o.unwrap().player {
            prev.push(Entity((n - 1) as usize))
        } else {
            prev
        }
    }
}

/// The integer distance from `a` to `b` is at most `range`.
pub open spec fn within_range(a: Vector2Int, b: Vector2Int, range: int) -> bool {
    0 <= range && dist_sq(a, b) < (range + 1) * (range + 1)
}

pub open spec fn melee_score(damage: u32) -> i32 {
    if damage <= i32::MAX - PLAYER_ATTACK_SCORE {
        (PLAYER_ATTACK_SCORE + damage) as i32
    } else {
        i32::MAX
    }
}

/// The point is far enough from the edges of the integer range for all four
/// of its neighbours to exist.
pub open spec fn interior(v: Vector2Int) -> bool {
    i32::MIN < v.x < i32::MAX && i32::MIN < v.y < i32::MAX
}

/// The table index of the player, if there is exactly one.
pub open spec fn single_player_index(w: World) -> Option<int> {
    let ps = players(w.entities@, w.entities@.len());
    if ps.len() == 1 {
        Some(ps[0])
    } else {
        None
    }
}

proof fn lemma_players_in_range(es: Seq<Option<EntityRecord>>, n: nat)
    requires
        n <= es.len(),
    ensures
        forall|k: int| 0 <= k < players(es, n).len() ==> 0 <= #[trigger] players(es, n)[k] < n && is_player_piece(es[players(es, n)[k]]),
    decreases n,
{
    if n > 0 {
        lemma_players_in_range(es, (n - 1) as nat);
        let prev = players(es, (n - 1) as nat);
        if is_player_piece(es[n - 1]) {
            assert forall|k: int| 0 <= k < players(es, n).len() implies 0 <= #[trigger] players(es, n)[k] < n && is_player_piece(es[players(es, n)[k]]) by {
                if k < prev.len() {
                    assert(players(es, n)[k] == prev[k]);
                }
            };
        }
    }
}

pub fn player_index(world: &World) -> (r: Option<usize>)
    ensures
        r.is_some() == single_player_index(*world).is_some(),
        r.is_some() ==> r.unwrap() == single_player_index(*world).unwrap() && r.unwrap() < world.entities@.len()
            && world.entities@[r.unwrap() as int].is_some(),
{
    let ghost es = world.entities@;
    let mut found: usize = 0;
    let mut count: usize = 0;
    let mut i: usize = 0;
    while i < world.entities.len()
        invariant
            es == world.entities@,
            i <= es.len(),
            count == players(es, i as nat).len(),
            count <= i,
            count >= 1 ==> found == players(es, i as nat)[0],
        decreases es.len() - i,
    {
        let hit = match &world.entities[i] {
            Some(rec) => rec.player && rec.position.is_some(),
            None => false,
        };
        if hit {
            if count == 0 {
                found = i;
            }
            count = count + 1;
        }
        i = i + 1;
    }
    proof {
        lemma_players_in_range(es, es.len());
    }
    if count == 1 {
        Some(found)
    } else {
        None
    }
}

pub fn player_position(world: &World) -> (r: Option<Vector2Int>)
    ensures
        r == single_player_position(*world),
{
    let ghost es = world.entities@;
    let mut found: Option<Vector2Int> = None;
    let mut count: usize = 0;
    let mut i: usize = 0;
    while i < world.entities.len()
        invariant
            es == world.entities@,
            i <= es.len(),
            count == players(es, i as nat).len(),
            count <= i,
            count >= 1 ==> found == es[players(es, i as nat)[0]].unwrap().position,
        decreases es.len() - i,
    {
        let hit = match &world.entities[i] {
            Some(rec) => rec.player && rec.position.is_some(),
            None => false,
        };
        if hit {
            if count == 0 {
                found = match &world.entities[i] {
                    Some(rec) => rec.position,
                    None => None,
                };
            }
            count = count + 1;
        }
        i = i + 1;
    }
    if count == 1 {
        found
    } else {
        None
    }
}

/// Whether the integer distance from `a` to `b` is at most `range`.
pub fn within_distance(a: Vector2Int, b: Vector2Int, range: i32) -> (r: bool)
    ensures
        r == within_range(a, b, range as int),
{
    if range < 0 {
        return false;
    }
    let dx: i128 = a.x as i128 - b.x as i128;
    let dy: i128 = a.y as i128 - b.y as i128;
    assert(0 <= dx * dx < 0x1_0000_0000_0000_0000) by (nonlinear_arith)
        requires
            -0x1_0000_0000 < dx < 0x1_0000_0000,
    ;
    assert(0 <= dy * dy < 0x1_0000_0000_0000_0000) by (nonlinear_arith)
        requires
            -0x1_0000_0000 < dy < 0x1_0000_0000,
    ;
    let r1: i128 = range as i128 + 1;
    assert(0 <= r1 * r1 <= 0x4000_0000_0000_0000) by (nonlinear_arith)
        requires
            0 < r1 <= 0x8000_0000,
    ;
    dx * dx + dy * dy < r1 * r1
}

/// Proposes, for the entity at the front of the queue, a melee strike on
/// the player's tile, scored by its damage.
pub fn plan_melee(queue: &ActorQueue, world: &mut World)
    ensures
        ({
            let q = queue.0@;
            let e = q[0];
            let pre = *old(world);
            let post = *final(world);
            if q.len() > 0 && pre.alive(e) && pre.rec(e).actor.is_some() && pre.rec(e).melee.is_some()
                && single_player_position(pre).is_some() {
                let d = pre.rec(e).melee.unwrap().current_damage.min;
                let strike = Action::MeleeHit(
                    MeleeHitAction {
                        attacker: e,
                        target: single_player_position(pre).unwrap(),
                        damage: d,
                    },
                );
                &&& post.alive(e)
                &&& post.entities@ == pre.entities@.update(e.0 as int, Some(post.rec(e)))
                &&& same_but_actor(pre.rec(e), post.rec(e))
                &&& post.rec(e).actor.is_some()
                &&& post.rec(e).actor.unwrap().0@ == pre.rec(e).actor.unwrap().0@.push(
                    (strike, melee_score(d)),
                )
                &&& post.board == pre.board
                &&& post.events@ == pre.events@
            } else {
                post == pre
            }
        }),
{
    if queue.0.len() == 0 {
        return;
    }
    let e = queue.0[0];
    if !world.is_alive(e) {
        return;
    }
    let damage = match &world.entities[e.0] {
        Some(rec) => {
            if rec.actor.is_none() {
                return;
            }
            match rec.melee {
                Some(m) => m.current_damage.min,
                None => return,
            }
        },
        None => return,
    };
    let target = match player_position(world) {
        Some(p) => p,
        None => return,
    };
    let score: i32 = if damage <= (i32::MAX - PLAYER_ATTACK_SCORE) as u32 {
        PLAYER_ATTACK_SCORE + damage as i32
    } else {
        i32::MAX
    };
    let ghost pre = *world;
    let mut rec = world.take_record(e);
    let mut actor = rec.actor.take().unwrap();
    actor.0.push((Action::MeleeHit(MeleeHitAction { attacker: e, target, damage }), score));
    rec.actor = Some(actor);
    world.entities.set(e.0, Some(rec));
    assert(world.entities@ =~= pre.entities@.update(e.0 as int, Some(rec)));
}

fn path_contains(path: &VecDeque<Vector2Int>, v: Vector2Int) -> (r: bool)
    ensures
        r == path@.contains(v),
{
    let mut i: usize = 0;
    while i < path.len()
        invariant
            i <= path@.len(),
            forall|j: int| 0 <= j < i ==> path@[j] != v,
        decreases path@.len() - i,
    {
        if path[i] == v {
            return true;
        }
        i = i + 1;
    }
    false
}

/// Proposes, for the entity at the front of the queue, a step to each of its
/// four neighbours when the player is within sight. A step onto the path
/// found towards the player scores `MOVE_SCORE + 5`; any other scores
/// `MOVE_SCORE` lowered by a random amount from 1 to 10.
pub fn plan_walk(queue: &ActorQueue, world: &mut World)
    ensures
        ({
            let q = queue.0@;
            let e = q[0];
            let pre = *old(world);
            let post = *final(world);
            if q.len() > 0 && pre.alive(e) && pre.rec(e).position.is_some() && pre.rec(e).actor.is_some()
                && pre.rec(e).walk && single_player_position(pre).is_some() && within_range(
                pre.rec(e).position.unwrap(),
                single_player_position(pre).unwrap(),
                VISIBILITY_RANGE as int,
            ) {
                let pos = pre.rec(e).position.unwrap();
                let goal = single_player_position(pre).unwrap();
                let before = pre.rec(e).actor.unwrap().0@;
                let after = post.rec(e).actor.unwrap().0@;
                let added = after.subrange(before.len() as int, after.len() as int);
                let blockers = occupier_positions(pre.entities@, pre.entities@.len());
                &&& post.alive(e)
                &&& post.entities@ == pre.entities@.update(e.0 as int, Some(post.rec(e)))
                &&& same_but_actor(pre.rec(e), post.rec(e))
                &&& post.rec(e).actor.is_some()
                &&& before.len() <= after.len()
                &&& after.subrange(0, before.len() as int) == before
                &&& added.len() <= 4
                &&& forall|j: int|
                    0 <= j < added.len() ==> {
                        &&& exists|n: Vector2Int|
                            adjacent(pos, n) && (#[trigger] added[j]).0 == Action::Walk(
                                WalkAction(e, n),
                            )
                        &&& added[j].1 == MOVE_SCORE + 5 || MOVE_SCORE - 10 <= added[j].1
                            < MOVE_SCORE
                        &&& added[j].1 == MOVE_SCORE + 5 ==> pos != goal && reachable(
                            pos,
                            goal,
                            pre.board.tiles@,
                            blockers,
                        )
                    }
                &&& interior(pos) ==> added.len() == 4 && forall|j: int|
                    0 <= j < 4 ==> (#[trigger] added[j]).0 == Action::Walk(
                        WalkAction(
                            e,
                            vec_of(pos.x + ortho_spec()[j].x, pos.y + ortho_spec()[j].y),
                        ),
                    )
                &&& interior(pos) && pos != goal && reachable(pos, goal, pre.board.tiles@, blockers)
                    ==> exists|j: int| 0 <= j < 4 && (#[trigger] added[j]).1 == MOVE_SCORE + 5
                &&& interior(pos) && pos != goal && reachable(pos, goal, pre.board.tiles@, blockers)
                    ==> exists|w: Seq<Vector2Int>|
                    #[trigger] is_walk(pos, goal, pre.board.tiles@, blockers, w) && (forall|w2: Seq<Vector2Int>|
                        #[trigger] is_walk(pos, goal, pre.board.tiles@, blockers, w2) ==> w.len() <= w2.len())
                        && forall|j: int|
                        0 <= j < 4 ==> ((#[trigger] added[j]).1 == MOVE_SCORE + 5 <==> w.contains(
                            vec_of(pos.x + ortho_spec()[j].x, pos.y + ortho_spec()[j].y),
                        ))
                &&& post.board == pre.board
                &&& post.events@ == pre.events@
            } else {
                post == pre
            }
        }),
{
    if queue.0.len() == 0 {
        return;
    }
    let e = queue.0[0];
    if !world.is_alive(e) {
        return;
    }
    let pos = match &world.entities[e.0] {
        Some(rec) => {
            if rec.actor.is_none() || !rec.walk {
                return;
            }
            match rec.position {
                Some(p) => p,
                None => return,
            }
        },
        None => return,
    };
    let goal = match player_position(world) {
        Some(p) => p,
        None => return,
    };
    if !within_distance(pos, goal, VISIBILITY_RANGE) {
        return;
    }
    let ghost es = world.entities@;
    let mut blockers: Vec<Vector2Int> = Vec::new();
    let mut i: usize = 0;
    while i < world.entities.len()
        invariant
            es == world.entities@,
            i <= es.len(),
            blockers@ == occupier_positions(es, i as nat),
        decreases es.len() - i,
    {
        match &world.entities[i] {
            Some(rec) => {
                if rec.occupier {
                    match rec.position {
                        Some(p) => blockers.push(p),
                        None => {},
                    }
                }
            },
            None => {},
        }
        i = i + 1;
    }
    let path = find_path(pos, goal, world.board.tiles.as_slice(), blockers.as_slice());
    let dirs = ortho_directions();
    let mut added: Vec<(Action, i32)> = Vec::new();
    let mut j: usize = 0;
    while j < 4
        invariant
            dirs@ == ortho_spec(),
            j <= 4,
            added@.len() <= j,
            interior(pos) ==> added@.len() == j,
            path.is_some() ==> is_walk(pos, goal, world.board.tiles@, blockers@, path.unwrap()@),
            forall|k: int|
                0 <= k < added@.len() ==> {
                    &&& exists|n: Vector2Int|
                        adjacent(pos, n) && (#[trigger] added@[k]).0 == Action::Walk(WalkAction(e, n))
                    &&& added@[k].1 == MOVE_SCORE + 5 || MOVE_SCORE - 10 <= added@[k].1 < MOVE_SCORE
                    &&& added@[k].1 == MOVE_SCORE + 5 ==> path.is_some()
                },
            interior(pos) ==> forall|k: int|
                0 <= k < j ==> (#[trigger] added@[k]).0 == Action::Walk(
                    WalkAction(e, vec_of(pos.x + ortho_spec()[k].x, pos.y + ortho_spec()[k].y)),
                ),
            interior(pos) ==> forall|k: int|
                0 <= k < j ==> ((#[trigger] added@[k]).1 == MOVE_SCORE + 5 <==> (path.is_some()
                    && path.unwrap()@.contains(
                    vec_of(pos.x + ortho_spec()[k].x, pos.y + ortho_spec()[k].y),
                ))),
        decreases 4 - j,
    {
        let d = dirs[j];
        match pos.x.checked_add(d.x) {
            Some(x) => match pos.y.checked_add(d.y) {
                Some(y) => {
                    let n = Vector2Int::new(x, y);
                    let mut jitter = random_range(-10, 0);
                    match &path {
                        Some(p) => {
                            if path_contains(p, n) {
                                jitter = 5;
                            }
                        },
                        None => {},
                    }
                    assert(adjacent(pos, n));
                    let ghost old_added = added@;
                    added.push((Action::Walk(WalkAction(e, n)), MOVE_SCORE + jitter));
                    proof {
                        assert forall|k: int| 0 <= k < old_added.len() implies added@[k] == old_added[k] by {};
                    }
                },
                None => {},
            },
            None => {},
        }
        j = j + 1;
    }
    proof {
        if interior(pos) && pos != goal && reachable(pos, goal, world.board.tiles@, blockers@) {
            let p = path.unwrap()@;
            assert(adjacent(pos, p[0]));
            assert(p.contains(p[0]));
            let n = p[0];
            crate::path::lemma_adjacent_is_step(pos, n);
            let k = choose|k: int|
                0 <= k < 4 && n.x == pos.x + (#[trigger] ortho_spec()[k]).x && n.y == pos.y
                    + ortho_spec()[k].y;
            assert(vec_of(pos.x + ortho_spec()[k].x, pos.y + ortho_spec()[k].y) == n);
            assert(added@[k].1 == MOVE_SCORE + 5);
            assert(is_walk(pos, goal, world.board.tiles@, blockers@, p));
        }
    }
    let ghost pre = *world;
    let mut rec = world.take_record(e);
    let mut actor = rec.actor.take().unwrap();
    let ghost before = actor.0@;
    let ghost added_seq = added@;
    actor.0.append(&mut added);
    rec.actor = Some(actor);
    world.entities.set(e.0, Some(rec));
    assert(world.entities@ =~= pre.entities@.update(e.0 as int, Some(rec)));
    assert(rec.actor.unwrap().0@.subrange(before.len() as int, rec.actor.unwrap().0@.len() as int) =~= added_seq);
    assert(rec.actor.unwrap().0@.subrange(0, before.len() as int) =~= before);
}

/// Queues every live entity that has an actor and is not the player, in
/// table order, after those already queued.
pub fn populate_actor_queue(queue: &mut ActorQueue, world: &World)
    ensures
        final(queue).0@ == old(queue).0@ + npc_actors(world.entities@, world.entities@.len()),
{
    let ghost q0 = queue.0@;
    let mut i: usize = 0;
    while i < world.entities.len()
        invariant
            i <= world.entities@.len(),
            queue.0@ == q0 + npc_actors(world.entities@, i as nat),
        decreases world.entities@.len() - i,
    {
        let hit = match &world.entities[i] {
            Some(rec) => rec.actor.is_some() && !rec.player,
            None => false,
        };
        if hit {
            queue.0.push_back(Entity(i));
            assert(queue.0@ =~= q0 + npc_actors(world.entities@, (i + 1) as nat));
        } else {
            assert(queue.0@ =~= q0 + npc_actors(world.entities@, (i + 1) as nat));
        }
        i = i + 1;
    }
}

} // verus!

verus! {

/// Gives a projectile that has an actor its shot towards its destination
/// as a candidate, with score zero.
pub fn plan_projectile(world: &mut World, e: Entity)
    ensures
        ({
            let pre = *old(world);
            let post = *final(world);
            if pre.alive(e) && pre.rec(e).actor.is_some() && pre.rec(e).projectile.is_some() {
                &&& post.alive(e)
                &&& post.entities@ == pre.entities@.update(e.0 as int, Some(post.rec(e)))
                &&& same_but_actor(pre.rec(e), post.rec(e))
                &&& post.rec(e).actor.is_some()
                &&& post.rec(e).actor.unwrap().0@ == pre.rec(e).actor.unwrap().0@.push(
                    (
                        Action::ProjectileShoot(
                            ProjectileShootAction(e, pre.rec(e).projectile.unwrap().destination),
                        ),
                        0i32,
                    ),
                )
                &&& post.board == pre.board
                &&& post.events@ == pre.events@
            } else {
                post == pre
            }
        }),
{
    if !world.is_alive(e) {
        return;
    }
    let destination = match &world.entities[e.0] {
        Some(rec) => {
            if rec.actor.is_none() {
                return;
            }
            match rec.projectile {
                Some(p) => p.destination,
                None => return,
            }
        },
        None => return,
    };
    let ghost pre = *world;
    let mut rec = world.take_record(e);
    let mut actor = rec.actor.take().unwrap();
    actor.0.push((Action::ProjectileShoot(ProjectileShootAction(e, destination)), 0));
    rec.actor = Some(actor);
    world.entities.set(e.0, Some(rec));
    assert(world.entities@ =~= pre.entities@.update(e.0 as int, Some(rec)));
}

/// Plans the shots of the given newly launched projectiles, in order.
pub fn process_projectiles(world: &mut World, launched: &Vec<Entity>)
    ensures
        final(world).entities@.len() == old(world).entities@.len(),
        final(world).board == old(world).board,
        final(world).events@ == old(world).events@,
        forall|i: int|
            0 <= i < old(world).entities@.len() ==> (#[trigger] final(world).entities@[i] == old(world).entities@[i]
                || (old(world).entities@[i].is_some() && final(world).entities@[i].is_some()
                && same_but_actor(old(world).entities@[i].unwrap(), final(world).entities@[i].unwrap()))),
{
    let ghost pre = *world;
    let mut k: usize = 0;
    while k < launched.len()
        invariant
            k <= launched@.len(),
            world.entities@.len() == pre.entities@.len(),
            world.board == pre.board,
            world.events@ == pre.events@,
            forall|i: int|
                0 <= i < pre.entities@.len() ==> (#[trigger] world.entities@[i] == pre.entities@[i]
                    || (pre.entities@[i].is_some() && world.entities@[i].is_some()
                    && same_but_actor(pre.entities@[i].unwrap(), world.entities@[i].unwrap()))),
        decreases launched@.len() - k,
    {
        let ghost before = *world;
        plan_projectile(world, launched[k]);
        proof {
            assert forall|i: int| 0 <= i < pre.entities@.len() implies (#[trigger] world.entities@[i] == pre.entities@[i]
                || (pre.entities@[i].is_some() && world.entities@[i].is_some()
                && same_but_actor(pre.entities@[i].unwrap(), world.entities@[i].unwrap()))) by {
                assert(before.entities@[i] == pre.entities@[i] || (pre.entities@[i].is_some() && before.entities@[i].is_some()
                    && same_but_actor(pre.entities@[i].unwrap(), before.entities@[i].unwrap())));
            };
        }
        k = k + 1;
    }
}

/// What the player chose to do towards a neighbouring tile.
#[derive(Clone, Copy, Debug, PartialEq, Eq, Structural)]
pub enum PlayerCommand {
    /// Walk there, or strike what stands there if walking fails.
    Move,
    /// Dig out the wall there.
    Dig,
}

/// Gives the player its candidates for the step towards `dir` and makes it
/// the only entity in the queue. A move offers a walk and then a melee
/// strike; a dig offers a dig. Nothing happens without a single player that
/// has a position and an actor, or when the target lies outside the range of
/// coordinates.
pub fn queue_player_action(queue: &mut ActorQueue, world: &mut World, dir: Vector2Int, command: PlayerCommand)
    ensures
        ({
            let pre = *old(world);
            let post = *final(world);
            match single_player_index(pre) {
                Some(i) => {
                    let rec = pre.entities@[i].unwrap();
                    if rec.actor.is_some() && rec.position.is_some() && fits_i32(rec.position.unwrap().x + dir.x)
                        && fits_i32(rec.position.unwrap().y + dir.y) {
                        let e = Entity(i as usize);
                        let target = vec_of(rec.position.unwrap().x + dir.x, rec.position.unwrap().y + dir.y);
                        let cands = post.rec(e).actor.unwrap().0@;
                        &&& post.alive(e)
                        &&& post.entities@ == pre.entities@.update(i, Some(post.rec(e)))
                        &&& same_but_actor(rec, post.rec(e))
                        &&& post.rec(e).actor.is_some()
                        &&& match command {
                            PlayerCommand::Move => cands == seq![
                                (Action::Walk(WalkAction(e, target)), 0i32),
                                (Action::MeleeHit(MeleeHitAction {
                                    attacker: e,
                                    target,
                                    damage: match rec.melee {
                                        Some(m) => m.current_damage.min,
                                        None => 0,
                                    },
                                }), 0i32),
                            ],
                            PlayerCommand::Dig => cands == seq![(Action::Dig(DigAction(e, target)), 0i32)],
                        }
                        &&& final(queue).0@ == seq![e]
                        &&& post.board == pre.board
                        &&& post.events@ == pre.events@
                    } else {
                        post == pre && final(queue).0@ == old(queue).0@
                    }
                },
                None => post == pre && final(queue).0@ == old(queue).0@,
            }
        }),
{
    let i = match player_index(world) {
        Some(i) => i,
        None => return,
    };
    let (pos, damage, ready) = match &world.entities[i] {
        Some(rec) => (
            rec.position,
            match rec.melee {
                Some(m) => m.current_damage.min,
                None => 0,
            },
            rec.actor.is_some(),
        ),
        None => return,
    };
    let pos = match pos {
        Some(p) => p,
        None => return,
    };
    if !ready {
        return;
    }
    let target = match (pos.x.checked_add(dir.x), pos.y.checked_add(dir.y)) {
        (Some(x), Some(y)) => Vector2Int::new(x, y),
        _ => return,
    };
    let e = Entity(i);
    let mut cands: Vec<(Action, i32)> = Vec::new();
    match command {
        PlayerCommand::Move => {
            cands.push((Action::Walk(WalkAction(e, target)), 0));
            cands.push((Action::MeleeHit(MeleeHitAction { attacker: e, target, damage }), 0));
        },
        PlayerCommand::Dig => {
            cands.push((Action::Dig(DigAction(e, target)), 0));
        },
    }
    let ghost pre = *world;
    let mut rec = world.take_record(e);
    let ghost cs = cands@;
    rec.actor = Some(Actor(cands));
    world.entities.set(i, Some(rec));
    assert(world.entities@ =~= pre.entities@.update(i as int, Some(rec)));
    let mut q: VecDeque<Entity> = VecDeque::new();
    q.push_back(e);
    queue.0 = q;
    assert(queue.0@ =~= seq![e]);
    match command {
        PlayerCommand::Move => {
            assert(cs =~= seq![
                (Action::Walk(WalkAction(e, target)), 0i32),
                (Action::MeleeHit(MeleeHitAction { attacker: e, target, damage }), 0i32),
            ]);
        },
        PlayerCommand::Dig => {
            assert(cs =~= seq![(Action::Dig(DigAction(e, target)), 0i32)]);
        },
    }
}

} // verus!

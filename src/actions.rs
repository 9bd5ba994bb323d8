use vstd::prelude::*;

use crate::components::{Gold, Health, Item, Range};
use crate::vectors::{cast_line, cast_line_spec, manhattan_spec, Vector2Int};
use crate::world::{despawn_spec, Entity, EntityRecord, GameEvent, World};

verus! {

/// Subtracts the amount from the target's health.
pub struct DamageAction(pub Entity, pub u32);

/// A melee strike of `attacker` on the tile `target`.
pub struct MeleeHitAction {
    pub attacker: Entity,
    pub target: Vector2Int,
    pub damage: u32,
}

/// Moves the entity onto the tile.
pub struct WalkAction(pub Entity, pub Vector2Int);

/// Removes the wall on the tile.
pub struct DigAction(pub Entity, pub Vector2Int);

/// Shoots the projectile entity towards the tile.
pub struct ProjectileShootAction(pub Entity, pub Vector2Int);

/// Moves the projectile entity along the remaining path.
pub struct ProjectileFlyAction(pub Entity, pub Vec<Vector2Int>);

/// Picks up the item lying on the tile.
pub struct PickupAction(pub Entity, pub Vector2Int);

/// Takes the portal on the tile to the next level.
pub struct NextLevelAction(pub Entity, pub Vector2Int);

/// One executable step of game logic.
pub enum Action {
    Damage(DamageAction),
    MeleeHit(MeleeHitAction),
    Walk(WalkAction),
    Dig(DigAction),
    ProjectileShoot(ProjectileShootAction),
    ProjectileFly(ProjectileFlyAction),
    Pickup(PickupAction),
    NextLevel(NextLevelAction),
}

pub open spec fn sat_sub(a: u32, b: u32) -> u32 {
    if a >= b {
        (a - b) as u32
    } else {
        0
    }
}

pub open spec fn sat_add(a: u32, b: u32) -> u32 {
    if a + b <= u32::MAX {
        (a + b) as u32
    } else {
        u32::MAX
    }
}

pub open spec fn min_u32(a: u32, b: u32) -> u32 {
    if a <= b {
        a
    } else {
        b
    }
}

pub open spec fn at(o: Option<EntityRecord>, t: Vector2Int) -> bool {
    o.is_some() && o.unwrap().position == Some(t)
}

pub open spec fn is_health_target(o: Option<EntityRecord>, t: Vector2Int) -> bool {
    at(o, t) && o.unwrap().health.is_some()
}

pub open spec fn is_occupier_at(o: Option<EntityRecord>, t: Vector2Int) -> bool {
    at(o, t) && o.unwrap().occupier
}

pub open spec fn is_wall_at(o: Option<EntityRecord>, t: Vector2Int) -> bool {
    at(o, t) && o.unwrap().wall && o.unwrap().occupier
}

pub open spec fn is_item_at(o: Option<EntityRecord>, t: Vector2Int) -> bool {
    at(o, t) && o.unwrap().item_container.is_some() && !o.unwrap().player
}

pub open spec fn is_portal_at(o: Option<EntityRecord>, t: Vector2Int) -> bool {
    at(o, t) && o.unwrap().portal
}

/// The live entities at `t` that have health, among the first `n`, in table order.
pub open spec fn health_targets(es: Seq<Option<EntityRecord>>, t: Vector2Int, n: nat) -> Seq<
    Entity,
>
    decreases n,
{
    if n == 0 {
        seq![]
    } else {
        let prev = health_targets(es, t, (n - 1) as nat);
        if is_health_target(es[n - 1], t) {
            prev.push(Entity((n - 1) as usize))
        } else {
            prev
        }
    }
}

/// Positions of the live vision blockers among the first `n` entities, in table order.
pub open spec fn vision_blockers(es: Seq<Option<EntityRecord>>, n: nat) -> Seq<Vector2Int>
    decreases n,
{
    if n == 0 {
        seq![]
    } else {
        let prev = vision_blockers(es, (n - 1) as nat);
        let o = es[n - 1];
        if o.is_some() && o.unwrap().vision_blocker && o.unwrap().position.is_some() {
            prev.push(o.unwrap().position.unwrap())
        } else {
            prev
        }
    }
}

pub open spec fn damage_all(ts: Seq<Entity>, amount: u32) -> Seq<Action> {
    ts.map_values(|e: Entity| Action::Damage(DamageAction(e, amount)))
}

/// The first index of the table whose slot satisfies `is_wall_at`.
pub open spec fn first_wall(es: Seq<Option<EntityRecord>>, t: Vector2Int, k: int) -> bool {
    0 <= k < es.len() && is_wall_at(es[k], t) && forall|j: int|
        0 <= j < k ==> !is_wall_at(#[trigger] es[j], t)
}

pub open spec fn first_item(es: Seq<Option<EntityRecord>>, t: Vector2Int, k: int) -> bool {
    0 <= k < es.len() && is_item_at(es[k], t) && forall|j: int|
        0 <= j < k ==> !is_item_at(#[trigger] es[j], t)
}

pub open spec fn fly_to(out: Seq<Action>, e: Entity, path: Seq<Vector2Int>) -> bool {
    out.len() == 1 && match out[0] {
        Action::ProjectileFly(f) => f.0 == e && f.1@ == path,
        _ => false,
    }
}

/// `s` is `r` in every component but the inventory.
pub open spec fn same_but_inventory(r: EntityRecord, s: EntityRecord) -> bool {
    s == EntityRecord { inventory: s.inventory, ..r }
}

/// Finds a live entity among all that satisfies the test at `t`; `kind`
/// selects the test: 0 health, 1 occupier, 2 wall, 3 item, 4 portal.
fn find_at(world: &World, t: Vector2Int, kind: u8) -> (r: Option<usize>)
    requires
        kind <= 4,
    ensures
        r.is_none() ==> forall|j: int|
            0 <= j < world.entities@.len() ==> !test_kind(#[trigger] world.entities@[j], t, kind),
        r.is_some() ==> r.unwrap() < world.entities@.len() && test_kind(
            world.entities@[r.unwrap() as int],
            t,
            kind,
        ) && forall|j: int| 0 <= j < r.unwrap() ==> !test_kind(#[trigger] world.entities@[j], t, kind),
{
    let mut i: usize = 0;
    while i < world.entities.len()
        invariant
            i <= world.entities@.len(),
            forall|j: int| 0 <= j < i ==> !test_kind(#[trigger] world.entities@[j], t, kind),
        decreases world.entities@.len() - i,
    {
        let hit = match &world.entities[i] {
            Some(rec) => match rec.position {
                Some(p) => p == t && if kind == 0 {
                    rec.health.is_some()
                } else if kind == 1 {
                    rec.occupier
                } else if kind == 2 {
                    rec.wall && rec.occupier
                } else if kind == 3 {
                    rec.item_container.is_some() && !rec.player
                } else {
                    rec.portal
                },
                None => false,
            },
            None => false,
        };
        if hit {
            return Some(i);
        }
        i = i + 1;
    }
    None
}

pub open spec fn test_kind(o: Option<EntityRecord>, t: Vector2Int, kind: u8) -> bool {
    if kind == 0 {
        is_health_target(o, t)
    } else if kind == 1 {
        is_occupier_at(o, t)
    } else if kind == 2 {
        is_wall_at(o, t)
    } else if kind == 3 {
        is_item_at(o, t)
    } else {
        is_portal_at(o, t)
    }
}

fn position_of(world: &World, e: Entity) -> (r: Option<Vector2Int>)
    ensures
        r == (if world.alive(e) {
            world.rec(e).position
        } else {
            None
        }),
{
    if e.0 < world.entities.len() {
        match &world.entities[e.0] {
            Some(rec) => rec.position,
            None => None,
        }
    } else {
        None
    }
}

impl DamageAction {
    pub open spec fn succeeds(&self, w: World) -> bool {
        w.alive(self.0) && w.rec(self.0).health.is_some()
    }

    /// The target's health after the hit.
    pub open spec fn health_after(&self, w: World) -> u32 {
        sat_sub(w.rec(self.0).health.unwrap().current.min, self.1)
    }

    pub open spec fn effect(&self, pre: World, post: World, out: Seq<Action>) -> bool {
        let rec = pre.rec(self.0);
        let h = rec.health.unwrap();
        let hp = self.health_after(pre);
        let hurt = EntityRecord {
            health: Some(Health { current: Range { min: hp, ..h.current }, ..h }),
            ..rec
        };
        let es = pre.entities@.update(self.0.0 as int, Some(hurt));
        &&& out.len() == 0
        &&& post.board == pre.board
        &&& if hp == 0 {
            &&& post.entities@ == despawn_spec(es, self.0)
            &&& post.events@ == if rec.player {
                pre.events@.push(GameEvent::GameOver)
            } else {
                pre.events@
            }
        } else {
            post.entities@ == es && post.events@ == pre.events@
        }
    }

    pub fn execute(&self, world: &mut World) -> (r: Result<Vec<Action>, ()>)
        ensures
            r.is_ok() == self.succeeds(*old(world)),
            r.is_err() ==> *final(world) == *old(world),
            r.is_ok() ==> self.effect(*old(world), *final(world), r.unwrap()@),
    {
        let i = self.0.0;
        if i >= world.entities.len() {
            return Err(());
        }
        let has_health = match &world.entities[i] {
            Some(rec) => rec.health.is_some(),
            None => false,
        };
        if !has_health {
            return Err(());
        }
        let ghost pre = *world;
        let mut rec = world.take_record(self.0);
        let mut h = rec.health.unwrap();
        h.current.min = if h.current.min >= self.1 {
            h.current.min - self.1
        } else {
            0
        };
        let hp = h.current.min;
        let is_player = rec.player;
        rec.health = Some(h);
        world.entities.set(i, Some(rec));
        assert(world.entities@ =~= pre.entities@.update(i as int, Some(rec)));
        assert(hp == self.health_after(pre));
        if hp == 0 {
            if is_player {
                world.events.push(GameEvent::GameOver);
            }
            world.despawn_recursive(self.0);
        }
        Ok(Vec::new())
    }
}

/// Damage is cumulative: two hits on a target that survives the first leave
/// it with its health lowered by both, each lowering stopping at zero.
pub proof fn lemma_damage_accumulates(
    a: DamageAction,
    w0: World,
    w1: World,
    w2: World,
    o1: Seq<Action>,
    o2: Seq<Action>,
)
    requires
        a.succeeds(w0),
        a.effect(w0, w1, o1),
        a.succeeds(w1),
        a.effect(w1, w2, o2),
    ensures
        a.health_after(w1) == sat_sub(sat_sub(w0.rec(a.0).health.unwrap().current.min, a.1), a.1),
        a.health_after(w1) > 0 ==> w2.alive(a.0) && w2.rec(a.0).health.unwrap().current.min
            == a.health_after(w1),
{
}

/// A melee strike on a tile more than one step away fails, so it yields no
/// damage at all.
pub proof fn lemma_melee_needs_reach(m: MeleeHitAction, w: World)
    requires
        w.alive(m.attacker),
        w.rec(m.attacker).position.is_some(),
        manhattan_spec(w.rec(m.attacker).position.unwrap(), m.target) > 1,
    ensures
        !m.succeeds(w),
{
}

impl MeleeHitAction {
    pub open spec fn targets(&self, w: World) -> Seq<Entity> {
        health_targets(w.entities@, self.target, w.entities@.len())
    }

    pub open spec fn succeeds(&self, w: World) -> bool {
        &&& w.alive(self.attacker)
        &&& w.rec(self.attacker).position.is_some()
        &&& manhattan_spec(w.rec(self.attacker).position.unwrap(), self.target) <= 1
        &&& self.targets(w).len() > 0
    }

    pub open spec fn effect(&self, pre: World, post: World, out: Seq<Action>) -> bool {
        post == pre && out == damage_all(self.targets(pre), self.damage)
    }

    pub fn execute(&self, world: &mut World) -> (r: Result<Vec<Action>, ()>)
        ensures
            r.is_ok() == self.succeeds(*old(world)),
            r.is_err() ==> *final(world) == *old(world),
            r.is_ok() ==> self.effect(*old(world), *final(world), r.unwrap()@),
    {
        let pos = match position_of(world, self.attacker) {
            Some(p) => p,
            None => return Err(()),
        };
        let dx: i64 = pos.x as i64 - self.target.x as i64;
        let dy: i64 = pos.y as i64 - self.target.y as i64;
        let ax: i64 = if dx < 0 { -dx } else { dx };
        let ay: i64 = if dy < 0 { -dy } else { dy };
        if ax + ay > 1 {
            return Err(());
        }
        let ghost es = world.entities@;
        let mut out: Vec<Action> = Vec::new();
        let mut i: usize = 0;
        while i < world.entities.len()
            invariant
                es == world.entities@,
                i <= es.len(),
                out@ == damage_all(health_targets(es, self.target, i as nat), self.damage),
            decreases es.len() - i,
        {
            let hit = match &world.entities[i] {
                Some(rec) => rec.health.is_some() && match rec.position {
                    Some(p) => p == self.target,
                    None => false,
                },
                None => false,
            };
            let ghost prev = health_targets(es, self.target, i as nat);
            if hit {
                out.push(Action::Damage(DamageAction(Entity(i), self.damage)));
                assert(health_targets(es, self.target, (i + 1) as nat) == prev.push(
                    Entity(i),
                ));
                assert(out@ =~= damage_all(prev.push(Entity(i)), self.damage));
            }
            i = i + 1;
        }
        if out.len() == 0 {
            return Err(());
        }
        Ok(out)
    }
}

impl WalkAction {
    pub open spec fn succeeds(&self, w: World) -> bool {
        &&& w.board.tiles@.contains(self.1)
        &&& forall|j: int| 0 <= j < w.entities@.len() ==> !is_occupier_at(#[trigger] w.entities@[j], self.1)
        &&& w.alive(self.0)
        &&& w.rec(self.0).position.is_some()
    }

    pub open spec fn effect(&self, pre: World, post: World, out: Seq<Action>) -> bool {
        let rec = pre.rec(self.0);
        &&& post.entities@ == pre.entities@.update(
            self.0.0 as int,
            Some(EntityRecord { position: Some(self.1), ..rec }),
        )
        &&& post.board == pre.board
        &&& post.events@ == pre.events@
        &&& out.len() == if rec.player { 2int } else { 1int }
        &&& out[0] == Action::Pickup(PickupAction(self.0, self.1))
        &&& rec.player ==> out[1] == Action::NextLevel(NextLevelAction(self.0, self.1))
    }

    pub fn execute(&self, world: &mut World) -> (r: Result<Vec<Action>, ()>)
        ensures
            r.is_ok() == self.succeeds(*old(world)),
            r.is_err() ==> *final(world) == *old(world),
            r.is_ok() ==> self.effect(*old(world), *final(world), r.unwrap()@),
    {
        if !crate::vectors::contains_point(world.board.tiles.as_slice(), self.1) {
            return Err(());
        }
        if find_at(world, self.1, 1).is_some() {
            return Err(());
        }
        if position_of(world, self.0).is_none() {
            return Err(());
        }
        let ghost pre = *world;
        let mut rec = world.take_record(self.0);
        rec.position = Some(self.1);
        let is_player = rec.player;
        world.entities.set(self.0.0, Some(rec));
        assert(world.entities@ =~= pre.entities@.update(self.0.0 as int, Some(rec)));
        let mut out: Vec<Action> = Vec::new();
        out.push(Action::Pickup(PickupAction(self.0, self.1)));
        if is_player {
            out.push(Action::NextLevel(NextLevelAction(self.0, self.1)));
        }
        Ok(out)
    }
}

impl DigAction {
    pub open spec fn succeeds(&self, w: World) -> bool {
        exists|k: int| 0 <= k < w.entities@.len() && is_wall_at(#[trigger] w.entities@[k], self.1)
    }

    pub open spec fn effect(&self, pre: World, post: World, out: Seq<Action>) -> bool {
        &&& exists|k: int|
            first_wall(pre.entities@, self.1, k) && post.entities@ == #[trigger] despawn_spec(
                pre.entities@,
                Entity(k as usize),
            )
        &&& post.board == pre.board
        &&& post.events@ == pre.events@
        &&& out.len() == 0
    }

    pub fn execute(&self, world: &mut World) -> (r: Result<Vec<Action>, ()>)
        ensures
            r.is_ok() == self.succeeds(*old(world)),
            r.is_err() ==> *final(world) == *old(world),
            r.is_ok() ==> self.effect(*old(world), *final(world), r.unwrap()@),
    {
        match find_at(world, self.1, 2) {
            Some(k) => {
                let ghost pre = world.entities@;
                world.despawn_recursive(Entity(k));
                assert(first_wall(pre, self.1, k as int));
                assert(Entity((k as int) as usize) == Entity(k));
                assert(world.entities@ == despawn_spec(pre, Entity((k as int) as usize)));
                Ok(Vec::new())
            },
            None => Err(()),
        }
    }
}

impl ProjectileShootAction {
    pub open spec fn succeeds(&self, w: World) -> bool {
        w.alive(self.0) && w.rec(self.0).position.is_some()
    }

    pub open spec fn effect(&self, pre: World, post: World, out: Seq<Action>) -> bool {
        let from = pre.rec(self.0).position.unwrap();
        let blockers = vision_blockers(pre.entities@, pre.entities@.len());
        post == pre && fly_to(out, self.0, cast_line_spec(from, self.1, blockers))
    }

    pub fn execute(&self, world: &mut World) -> (r: Result<Vec<Action>, ()>)
        ensures
            r.is_ok() == self.succeeds(*old(world)),
            r.is_err() ==> *final(world) == *old(world),
            r.is_ok() ==> self.effect(*old(world), *final(world), r.unwrap()@),
    {
        let ghost es = world.entities@;
        let mut blockers: Vec<Vector2Int> = Vec::new();
        let mut i: usize = 0;
        while i < world.entities.len()
            invariant
                es == world.entities@,
                i <= es.len(),
                blockers@ == vision_blockers(es, i as nat),
            decreases es.len() - i,
        {
            match &world.entities[i] {
                Some(rec) => {
                    if rec.vision_blocker {
                        match rec.position {
                            Some(p) => blockers.push(p),
                            None => {},
                        }
                    }
                },
                None => {},
            }
            i = i + 1;
        }
        let from = match position_of(world, self.0) {
            Some(p) => p,
            None => return Err(()),
        };
        let path = cast_line(from, self.1, blockers.as_slice());
        let mut out: Vec<Action> = Vec::new();
        out.push(Action::ProjectileFly(ProjectileFlyAction(self.0, path)));
        Ok(out)
    }
}

impl ProjectileFlyAction {
    pub open spec fn succeeds(&self, w: World) -> bool {
        w.alive(self.0) && w.rec(self.0).position.is_some()
    }

    pub open spec fn effect(&self, pre: World, post: World, out: Seq<Action>) -> bool {
        let rec = pre.rec(self.0);
        &&& post.board == pre.board
        &&& post.events@ == pre.events@
        &&& if self.1@.len() == 0 {
            post.entities@ == pre.entities@.update(self.0.0 as int, None) && out.len() == 0
        } else {
            &&& post.entities@ == pre.entities@.update(
                self.0.0 as int,
                Some(EntityRecord { position: Some(self.1@[0]), ..rec }),
            )
            &&& fly_to(out, self.0, self.1@.drop_first())
        }
    }

    pub fn execute(&self, world: &mut World) -> (r: Result<Vec<Action>, ()>)
        ensures
            r.is_ok() == self.succeeds(*old(world)),
            r.is_err() ==> *final(world) == *old(world),
            r.is_ok() ==> self.effect(*old(world), *final(world), r.unwrap()@),
    {
        if position_of(world, self.0).is_none() {
            return Err(());
        }
        if self.1.len() == 0 {
            world.entities.set(self.0.0, None);
            let out: Vec<Action> = Vec::new();
            assert(out@.len() == 0);
            return Ok(out);
        }
        let ghost pre = *world;
        let mut rec = world.take_record(self.0);
        rec.position = Some(self.1[0]);
        world.entities.set(self.0.0, Some(rec));
        assert(world.entities@ =~= pre.entities@.update(self.0.0 as int, Some(rec)));
        let mut rest: Vec<Vector2Int> = Vec::new();
        let mut i: usize = 1;
        while i < self.1.len()
            invariant
                1 <= i <= self.1@.len(),
                rest@ == self.1@.subrange(1, i as int),
            decreases self.1@.len() - i,
        {
            rest.push(self.1[i]);
            assert(rest@ =~= self.1@.subrange(1, i + 1));
            i = i + 1;
        }
        assert(rest@ =~= self.1@.drop_first());
        let mut out: Vec<Action> = Vec::new();
        out.push(Action::ProjectileFly(ProjectileFlyAction(self.0, rest)));
        Ok(out)
    }
}

impl Item {
    pub open spec fn pick_up_succeeds(&self, w: World, picker: Entity, item_entity: Entity) -> bool {
        w.alive(picker) && match *self {
            Item::Gold(_) => w.rec(picker).gold.is_some(),
            Item::Health(_) => w.rec(picker).health.is_some(),
            _ => w.alive(item_entity) && w.rec(item_entity).item_container.is_some()
                && w.rec(picker).inventory.is_some(),
        }
    }

    /// The picker's record after taking the item in.
    pub open spec fn picked_up(&self, r: EntityRecord, s: EntityRecord) -> bool {
        match *self {
            Item::Gold(g) => s == EntityRecord {
                gold: Some(Gold { value: sat_add(r.gold.unwrap().value, g.value) }),
                ..r
            },
            Item::Health(hd) => {
                let h = r.health.unwrap();
                let restored = min_u32(h.current.max, sat_add(h.current.min, hd.value));
                s == EntityRecord {
                    health: Some(Health { current: Range { min: restored, ..h.current }, ..h }),
                    ..r
                }
            },
            _ => same_but_inventory(r, s) && s.inventory.is_some()
                && s.inventory.unwrap().items@ == r.inventory.unwrap().items@.push(*self),
        }
    }

    pub open spec fn pick_up_effect(
        &self,
        pre: World,
        post: World,
        picker: Entity,
        item_entity: Entity,
    ) -> bool {
        &&& exists|s: EntityRecord|
            #![trigger self.picked_up(pre.rec(picker), s)]
            self.picked_up(pre.rec(picker), s) && post.entities@ == despawn_spec(
                pre.entities@.update(picker.0 as int, Some(s)),
                item_entity,
            )
        &&& post.board == pre.board
        &&& post.events@ == pre.events@
    }

    /// Gives the item lying in `item_entity` to `picker` and removes it from
    /// the board.
    pub fn pick_up(&self, world: &mut World, picker: Entity, item_entity: Entity) -> (r: Result<
        (),
        (),
    >)
        ensures
            r.is_ok() == self.pick_up_succeeds(*old(world), picker, item_entity),
            r.is_err() ==> *final(world) == *old(world),
            r.is_ok() ==> self.pick_up_effect(*old(world), *final(world), picker, item_entity),
    {
        if !world.is_alive(picker) {
            return Err(());
        }
        let ok = match self {
            Item::Gold(_) => match &world.entities[picker.0] {
                Some(rec) => rec.gold.is_some(),
                None => false,
            },
            Item::Health(_) => match &world.entities[picker.0] {
                Some(rec) => rec.health.is_some(),
                None => false,
            },
            _ => {
                let has_inventory = match &world.entities[picker.0] {
                    Some(rec) => rec.inventory.is_some(),
                    None => false,
                };
                let holds_item = item_entity.0 < world.entities.len() && match &world.entities[item_entity.0] {
                    Some(rec) => rec.item_container.is_some(),
                    None => false,
                };
                has_inventory && holds_item
            },
        };
        if !ok {
            return Err(());
        }
        let ghost pre = *world;
        let mut rec = world.take_record(picker);
        match self {
            Item::Gold(g) => {
                let mut gold = rec.gold.unwrap();
                gold.value = gold.value.saturating_add(g.value);
                rec.gold = Some(gold);
            },
            Item::Health(hd) => {
                let mut h = rec.health.unwrap();
                let raised = h.current.min.saturating_add(hd.value);
                h.current.min = if h.current.max <= raised {
                    h.current.max
                } else {
                    raised
                };
                rec.health = Some(h);
            },
            _ => {
                let mut inv = rec.inventory.take().unwrap();
                inv.items.push(*self);
                rec.inventory = Some(inv);
            },
        }
        let ghost s = rec;
        world.entities.set(picker.0, Some(rec));
        assert(self.picked_up(pre.rec(picker), s));
        assert(world.entities@ == pre.entities@.update(picker.0 as int, Some(s)));
        world.despawn_recursive(item_entity);
        Ok(())
    }
}

impl PickupAction {
    pub open spec fn succeeds(&self, w: World) -> bool {
        &&& w.alive(self.0)
        &&& w.rec(self.0).item_picker
        &&& exists|k: int| 0 <= k < w.entities@.len() && is_item_at(#[trigger] w.entities@[k], self.1)
    }

    /// The item is handed to the picker if it can take it in; otherwise
    /// nothing changes.
    pub open spec fn effect(&self, pre: World, post: World, out: Seq<Action>) -> bool {
        &&& out.len() == 0
        &&& exists|k: int|
            #![trigger first_item(pre.entities@, self.1, k)]
            first_item(pre.entities@, self.1, k) && {
                let item = pre.entities@[k].unwrap().item_container.unwrap().item;
                if item.pick_up_succeeds(pre, self.0, Entity(k as usize)) {
                    item.pick_up_effect(pre, post, self.0, Entity(k as usize))
                } else {
                    post == pre
                }
            }
    }

    pub fn execute(&self, world: &mut World) -> (r: Result<Vec<Action>, ()>)
        ensures
            r.is_ok() == self.succeeds(*old(world)),
            r.is_err() ==> *final(world) == *old(world),
            r.is_ok() ==> self.effect(*old(world), *final(world), r.unwrap()@),
    {
        if !world.is_alive(self.0) {
            return Err(());
        }
        let picker = match &world.entities[self.0.0] {
            Some(rec) => rec.item_picker,
            None => false,
        };
        if !picker {
            return Err(());
        }
        let k = match find_at(world, self.1, 3) {
            Some(k) => k,
            None => return Err(()),
        };
        let item = match &world.entities[k] {
            Some(rec) => match rec.item_container {
                Some(c) => c.item,
                None => return Err(()),
            },
            None => return Err(()),
        };
        let ghost pre = *world;
        assert(first_item(pre.entities@, self.1, k as int));
        let _ = item.pick_up(world, self.0, Entity(k));
        Ok(Vec::new())
    }
}

impl NextLevelAction {
    pub open spec fn succeeds(&self, w: World) -> bool {
        &&& w.alive(self.0)
        &&& w.rec(self.0).player
        &&& exists|k: int| 0 <= k < w.entities@.len() && is_portal_at(#[trigger] w.entities@[k], self.1)
    }

    pub open spec fn effect(&self, pre: World, post: World, out: Seq<Action>) -> bool {
        &&& post.entities@ == pre.entities@
        &&& post.board == pre.board
        &&& post.events@ == pre.events@.push(GameEvent::NextLevel)
        &&& out.len() == 0
    }

    pub fn execute(&self, world: &mut World) -> (r: Result<Vec<Action>, ()>)
        ensures
            r.is_ok() == self.succeeds(*old(world)),
            r.is_err() ==> *final(world) == *old(world),
            r.is_ok() ==> self.effect(*old(world), *final(world), r.unwrap()@),
    {
        if !world.is_alive(self.0) {
            return Err(());
        }
        let is_player = match &world.entities[self.0.0] {
            Some(rec) => rec.player,
            None => false,
        };
        if !is_player {
            return Err(());
        }
        if find_at(world, self.1, 4).is_none() {
            return Err(());
        }
        world.events.push(GameEvent::NextLevel);
        Ok(Vec::new())
    }
}

impl Action {
    pub open spec fn succeeds(&self, w: World) -> bool {
        match self {
            Action::Damage(a) => a.succeeds(w),
            Action::MeleeHit(a) => a.succeeds(w),
            Action::Walk(a) => a.succeeds(w),
            Action::Dig(a) => a.succeeds(w),
            Action::ProjectileShoot(a) => a.succeeds(w),
            Action::ProjectileFly(a) => a.succeeds(w),
            Action::Pickup(a) => a.succeeds(w),
            Action::NextLevel(a) => a.succeeds(w),
        }
    }

    pub open spec fn effect(&self, pre: World, post: World, out: Seq<Action>) -> bool {
        match self {
            Action::Damage(a) => a.effect(pre, post, out),
            Action::MeleeHit(a) => a.effect(pre, post, out),
            Action::Walk(a) => a.effect(pre, post, out),
            Action::Dig(a) => a.effect(pre, post, out),
            Action::ProjectileShoot(a) => a.effect(pre, post, out),
            Action::ProjectileFly(a) => a.effect(pre, post, out),
            Action::Pickup(a) => a.effect(pre, post, out),
            Action::NextLevel(a) => a.effect(pre, post, out),
        }
    }

    /// Applies the action to the world. On failure nothing changes; on
    /// success the follow-up actions are returned, not yet executed.
    pub fn execute(&self, world: &mut World) -> (r: Result<Vec<Action>, ()>)
        ensures
            r.is_ok() == self.succeeds(*old(world)),
            r.is_err() ==> *final(world) == *old(world),
            r.is_ok() ==> self.effect(*old(world), *final(world), r.unwrap()@),
    {
        match self {
            Action::Damage(a) => a.execute(world),
            Action::MeleeHit(a) => a.execute(world),
            Action::Walk(a) => a.execute(world),
            Action::Dig(a) => a.execute(world),
            Action::ProjectileShoot(a) => a.execute(world),
            Action::ProjectileFly(a) => a.execute(world),
            Action::Pickup(a) => a.execute(world),
            Action::NextLevel(a) => a.execute(world),
        }
    }
}

} // verus!

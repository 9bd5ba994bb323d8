use vstd::prelude::*;

use crate::actions::Action;
use crate::components::{
    Actor, Equipment, Gold, Health, Inventory, ItemContainer, Melee, Projectile, Tile,
};
use crate::vectors::Vector2Int;

verus! {

/// A handle to an entity: its index in the world's entity table.
#[derive(Clone, Copy, Debug, PartialEq, Eq, Structural, Hash)]
pub struct Entity(pub usize);

/// The components one entity carries. Marker components are flags.
pub struct EntityRecord {
    pub position: Option<Vector2Int>,
    pub health: Option<Health>,
    pub melee: Option<Melee>,
    pub actor: Option<Actor>,
    pub item_container: Option<ItemContainer>,
    pub gold: Option<Gold>,
    pub inventory: Option<Inventory>,
    pub equipment: Option<Equipment>,
    pub tile: Option<Tile>,
    pub projectile: Option<Projectile>,
    pub player: bool,
    pub occupier: bool,
    pub wall: bool,
    pub vision_blocker: bool,
    pub walk: bool,
    pub item_picker: bool,
    pub portal: bool,
    /// A game piece: the player, an NPC, an item, a portal or a projectile.
    pub piece: bool,
    pub children: Vec<Entity>,
}

/// The board: every coordinate that holds a tile.
pub struct CurrentBoard {
    pub tiles: Vec<Vector2Int>,
}

/// Signals raised by the game logic for the rest of the game to consume.
pub enum GameEvent {
    Tick,
    NextActor,
    ActionsComplete,
    InvalidPlayerAction,
    ActionExecuted(Action),
    GameOver,
    NextLevel,
}

/// The game state: an entity table in which a despawned entity leaves an
/// empty slot, the board, and the events raised so far.
pub struct World {
    pub entities: Vec<Option<EntityRecord>>,
    pub board: CurrentBoard,
    pub events: Vec<GameEvent>,
}

/// The entity is live and of the kind selected: 0 a tile, 1 a piece other
/// than the player, 2 the player.
pub open spec fn doomed(o: Option<EntityRecord>, kind: u8) -> bool {
    o.is_some() && if kind == 0 {
        o.unwrap().tile.is_some()
    } else if kind == 1 {
        o.unwrap().piece && !o.unwrap().player
    } else {
        o.unwrap().player
    }
}

/// Entity `i` is a direct child of an entity of the selected kind.
pub open spec fn child_of_doomed(es: Seq<Option<EntityRecord>>, i: int, kind: u8) -> bool {
    exists|j: int|
        0 <= j < es.len() && #[trigger] doomed(es[j], kind) && es[j].unwrap().children@.contains(
            Entity(i as usize),
        )
}

/// The entity table after despawning `e` and its direct children.
pub open spec fn despawn_spec(es: Seq<Option<EntityRecord>>, e: Entity) -> Seq<
    Option<EntityRecord>,
> {
    if 0 <= e.0 < es.len() && es[e.0 as int].is_some() {
        let kids = es[e.0 as int].unwrap().children@;
        Seq::new(
            es.len(),
            |i: int|
                if i == e.0 || kids.contains(Entity(i as usize)) {
                    None
                } else {
                    es[i]
                },
        )
    } else {
        es
    }
}

proof fn lemma_prefix_contains(s: Seq<Entity>, k: int, x: Entity)
    requires
        0 <= k < s.len(),
    ensures
        s.subrange(0, k + 1).contains(x) == (s.subrange(0, k).contains(x) || s[k] == x),
{
    let s0 = s.subrange(0, k);
    let s1 = s.subrange(0, k + 1);
    assert(s1 =~= s0.push(s[k]));
    if s1.contains(x) {
        let j = choose|j: int| 0 <= j < s1.len() && s1[j] == x;
        if j < k {
            assert(s0[j] == x);
        }
    }
    if s0.contains(x) {
        let j = choose|j: int| 0 <= j < s0.len() && s0[j] == x;
        assert(s1[j] == x);
    }
    if s[k] == x {
        assert(s1[k] == x);
    }
}

impl EntityRecord {
    /// A record with no components.
    pub fn empty() -> (r: EntityRecord)
        ensures
            r.position.is_none(),
            r.health.is_none(),
            r.melee.is_none(),
            r.actor.is_none(),
            r.item_container.is_none(),
            r.gold.is_none(),
            r.inventory.is_none(),
            r.equipment.is_none(),
            r.tile.is_none(),
            r.projectile.is_none(),
            !r.player,
            !r.occupier,
            !r.wall,
            !r.vision_blocker,
            !r.walk,
            !r.item_picker,
            !r.portal,
            !r.piece,
            r.children@.len() == 0,
    {
        EntityRecord {
            position: None,
            health: None,
            melee: None,
            actor: None,
            item_container: None,
            gold: None,
            inventory: None,
            equipment: None,
            tile: None,
            projectile: None,
            player: false,
            occupier: false,
            wall: false,
            vision_blocker: false,
            walk: false,
            item_picker: false,
            portal: false,
            piece: false,
            children: Vec::new(),
        }
    }
}

impl World {
    pub open spec fn alive(&self, e: Entity) -> bool {
        e.0 < self.entities@.len() && self.entities@[e.0 as int].is_some()
    }

    pub open spec fn rec(&self, e: Entity) -> EntityRecord {
        self.entities@[e.0 as int].unwrap()
    }

    pub fn new(tiles: Vec<Vector2Int>) -> (r: World)
        ensures
            r.entities@.len() == 0,
            r.board.tiles@ == tiles@,
            r.events@.len() == 0,
    {
        World { entities: Vec::new(), board: CurrentBoard { tiles }, events: Vec::new() }
    }

    pub fn is_alive(&self, e: Entity) -> (r: bool)
        ensures
            r == self.alive(e),
    {
        e.0 < self.entities.len() && self.entities[e.0].is_some()
    }

    /// Adds an entity and returns its handle.
    pub fn spawn(&mut self, rec: EntityRecord) -> (e: Entity)
        ensures
            e.0 == old(self).entities@.len(),
            final(self).entities@ == old(self).entities@.push(Some(rec)),
            final(self).board == old(self).board,
            final(self).events@ == old(self).events@,
    {
        let e = Entity(self.entities.len());
        self.entities.push(Some(rec));
        e
    }

    /// Adds `child` to the children of `parent`.
    pub fn add_child(&mut self, parent: Entity, child: Entity)
        requires
            old(self).alive(parent),
        ensures
            final(self).entities@ == old(self).entities@.update(
                parent.0 as int,
                Some(
                    EntityRecord {
                        children: final(self).rec(parent).children,
                        ..old(self).rec(parent)
                    },
                ),
            ),
            final(self).rec(parent).children@ == old(self).rec(parent).children@.push(child),
            final(self).board == old(self).board,
            final(self).events@ == old(self).events@,
    {
        let mut rec = self.take_record(parent);
        rec.children.push(child);
        self.entities.set(parent.0, Some(rec));
    }

    /// Despawns every entity of the selected kind with its direct children;
    /// nothing else changes.
    fn despawn_matching(&mut self, kind: u8)
        ensures
            final(self).entities@.len() == old(self).entities@.len(),
            final(self).board == old(self).board,
            final(self).events@ == old(self).events@,
            forall|i: int|
                0 <= i < old(self).entities@.len() ==> (#[trigger] final(self).entities@[i]).is_none()
                    || final(self).entities@[i] == old(self).entities@[i],
            forall|i: int| 0 <= i < old(self).entities@.len() ==> !doomed(#[trigger] final(self).entities@[i], kind),
            forall|i: int|
                0 <= i < old(self).entities@.len() && !doomed(old(self).entities@[i], kind)
                    && !child_of_doomed(old(self).entities@, i, kind) ==> #[trigger] final(self).entities@[i]
                    == old(self).entities@[i],
    {
        let ghost pre = *self;
        let ghost es = self.entities@;
        let mut k: usize = 0;
        while k < self.entities.len()
            invariant
                self.entities@.len() == es.len(),
                es == pre.entities@,
                self.board == pre.board,
                self.events@ == pre.events@,
                k <= es.len(),
                forall|i: int| 0 <= i < es.len() ==> (#[trigger] self.entities@[i]).is_none() || self.entities@[i] == es[i],
                forall|i: int| 0 <= i < k ==> !doomed(#[trigger] self.entities@[i], kind),
                forall|i: int|
                    0 <= i < es.len() && !doomed(es[i], kind) && !child_of_doomed(es, i, kind)
                        ==> #[trigger] self.entities@[i] == es[i],
            decreases es.len() - k,
        {
            let hit = match &self.entities[k] {
                Some(rec) => if kind == 0 {
                    rec.tile.is_some()
                } else if kind == 1 {
                    rec.piece && !rec.player
                } else {
                    rec.player
                },
                None => false,
            };
            if hit {
                let ghost cur = self.entities@;
                assert(cur[k as int] == es[k as int]);
                self.despawn_recursive(Entity(k));
                proof {
                    assert forall|i: int| 0 <= i < es.len() && !doomed(es[i], kind) && !child_of_doomed(es, i, kind)
                        implies #[trigger] self.entities@[i] == es[i] by {
                        if es[k as int].unwrap().children@.contains(Entity(i as usize)) {
                            assert(doomed(es[k as int], kind));
                        }
                    };
                }
            }
            k = k + 1;
        }
    }

    /// Despawns every tile of the board, with its children.
    pub fn despawn_map(&mut self)
        ensures
            final(self).entities@.len() == old(self).entities@.len(),
            forall|i: int| 0 <= i < old(self).entities@.len() ==> !doomed(#[trigger] final(self).entities@[i], 0),
            forall|i: int|
                0 <= i < old(self).entities@.len() && !doomed(old(self).entities@[i], 0)
                    && !child_of_doomed(old(self).entities@, i, 0) ==> #[trigger] final(self).entities@[i]
                    == old(self).entities@[i],
            forall|i: int|
                0 <= i < old(self).entities@.len() ==> (#[trigger] final(self).entities@[i]).is_none()
                    || final(self).entities@[i] == old(self).entities@[i],
    {
        self.despawn_matching(0);
    }

    /// Despawns every piece but the player, with its children.
    pub fn despawn_pieces(&mut self)
        ensures
            final(self).entities@.len() == old(self).entities@.len(),
            forall|i: int| 0 <= i < old(self).entities@.len() ==> !doomed(#[trigger] final(self).entities@[i], 1),
            forall|i: int|
                0 <= i < old(self).entities@.len() && !doomed(old(self).entities@[i], 1)
                    && !child_of_doomed(old(self).entities@, i, 1) ==> #[trigger] final(self).entities@[i]
                    == old(self).entities@[i],
            forall|i: int|
                0 <= i < old(self).entities@.len() ==> (#[trigger] final(self).entities@[i]).is_none()
                    || final(self).entities@[i] == old(self).entities@[i],
    {
        self.despawn_matching(1);
    }

    /// Despawns the player, with its children.
    pub fn despawn_player(&mut self)
        ensures
            final(self).entities@.len() == old(self).entities@.len(),
            forall|i: int| 0 <= i < old(self).entities@.len() ==> !doomed(#[trigger] final(self).entities@[i], 2),
            forall|i: int|
                0 <= i < old(self).entities@.len() && !doomed(old(self).entities@[i], 2)
                    && !child_of_doomed(old(self).entities@, i, 2) ==> #[trigger] final(self).entities@[i]
                    == old(self).entities@[i],
            forall|i: int|
                0 <= i < old(self).entities@.len() ==> (#[trigger] final(self).entities@[i]).is_none()
                    || final(self).entities@[i] == old(self).entities@[i],
    {
        self.despawn_matching(2);
    }

    /// Removes the record of a live entity from the table and hands it out.
    pub fn take_record(&mut self, e: Entity) -> (r: EntityRecord)
        requires
            old(self).alive(e),
        ensures
            r == old(self).rec(e),
            final(self).entities@ == old(self).entities@.update(e.0 as int, None),
            final(self).board == old(self).board,
            final(self).events@ == old(self).events@,
    {
        let mut slot: Option<EntityRecord> = None;
        self.entities.set_and_swap(e.0, &mut slot);
        slot.unwrap()
    }

    /// Despawns an entity and its direct children; a handle of a dead
    /// entity changes nothing.
    pub fn despawn_recursive(&mut self, e: Entity)
        ensures
            final(self).entities@ == despawn_spec(old(self).entities@, e),
            final(self).board == old(self).board,
            final(self).events@ == old(self).events@,
    {
        if !self.is_alive(e) {
            return;
        }
        let ghost pre = self.entities@;
        let ghost pre_world = *self;
        let rec = self.take_record(e);
        let kids = rec.children;
        let ghost ks = kids@;
        let mut k: usize = 0;
        while k < kids.len()
            invariant
                pre.len() == self.entities@.len(),
                0 <= e.0 < pre.len(),
                pre[e.0 as int].is_some(),
                self.board == pre_world.board,
                self.events@ == pre_world.events@,
                ks == kids@,
                ks == pre[e.0 as int].unwrap().children@,
                k <= ks.len(),
                self.entities@ == Seq::new(
                    pre.len(),
                    |i: int|
                        if i == e.0 || ks.subrange(0, k as int).contains(Entity(i as usize)) {
                            None
                        } else {
                            pre[i]
                        },
                ),
            decreases ks.len() - k,
        {
            let c = kids[k];
            if c.0 < self.entities.len() {
                self.entities.set(c.0, None);
            }
            proof {
                let next = Seq::new(
                    pre.len(),
                    |i: int|
                        if i == e.0 || ks.subrange(0, k + 1).contains(Entity(i as usize)) {
                            None
                        } else {
                            pre[i]
                        },
                );
                assert forall|i: int| 0 <= i < pre.len() implies #[trigger] self.entities@[i]
                    == next[i] by {
                    lemma_prefix_contains(ks, k as int, Entity(i as usize));
                };
                assert(self.entities@ =~= next);
            }
            k = k + 1;
        }
        assert(ks.subrange(0, ks.len() as int) =~= ks);
        assert(self.entities@ =~= despawn_spec(pre, e));
    }
}

} // verus!

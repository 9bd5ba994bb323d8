use vstd::prelude::*;

use crate::area::Area;
use crate::components::{
    Actor, ChestArmor, Damage, Equipment, Gold, GoldDrop, Health, HealthDrop, Inventory, Item,
    ItemContainer, Melee, Projectile, Range, Sword, Tile,
};
use crate::dungeon::Dungeon;
use crate::random::random_range;
use crate::room::{usable, BubbleGenerator, GenerationError};
use crate::tunneler::Tunneler;
use crate::vectors::{contains_point, Vector2Int};
use crate::world::{Entity, EntityRecord, World};

verus! {

/// Areas of a level.
pub const AREA_COUNT: usize = 4;

/// Rows of the area grid.
pub const AREA_ROWS: usize = 2;

/// NPCs, coins and health drops placed on a level, of each.
pub const PIECES_PER_KIND: usize = 10;

/// The room generator every area of a level uses.
pub fn level_generator() -> (r: BubbleGenerator)
    ensures
        r.wf(),
        r.room_count == (3u32, 5u32),
        r.room_size == (4u32, 8u32),
        r.room_padding == Some(2u32),
        r.extra_connection_chance == (1u32, 4u32),
{
    BubbleGenerator {
        room_count: (3, 5),
        room_size: (4, 8),
        room_padding: Some(2),
        extra_connection_chance: (1, 4),
    }
}

/// A fresh tile entity: unseen, not a wall, on some position.
pub open spec fn is_new_tile(o: Option<EntityRecord>) -> bool {
    o.is_some() && o.unwrap().tile == Some(Tile { visible: false, seen: false }) && !o.unwrap().wall
        && o.unwrap().position.is_some()
}

/// A wall entity: it occupies its tile and blocks sight.
pub open spec fn is_new_wall(o: Option<EntityRecord>) -> bool {
    o.is_some() && o.unwrap().wall && o.unwrap().occupier && o.unwrap().vision_blocker
        && o.unwrap().tile.is_none() && o.unwrap().position.is_some()
}

/// Some entity from index `n0` on is a tile at `p`.
pub open spec fn tile_at(es: Seq<Option<EntityRecord>>, n0: int, p: Vector2Int) -> bool {
    exists|i: int| n0 <= i < es.len() && #[trigger] is_new_tile(es[i]) && es[i].unwrap().position == Some(p)
}

/// Some entity from index `n0` on is a wall at `p`.
pub open spec fn wall_at(es: Seq<Option<EntityRecord>>, n0: int, p: Vector2Int) -> bool {
    exists|i: int| n0 <= i < es.len() && #[trigger] is_new_wall(es[i]) && es[i].unwrap().position == Some(p)
}

/// Entity `w` is a child of a tile entity, from index `n0` on, at its position.
pub open spec fn parented(es: Seq<Option<EntityRecord>>, n0: int, w: int) -> bool {
    exists|t: int|
        n0 <= t < es.len() && #[trigger] is_new_tile(es[t]) && es[t].unwrap().position == es[w].unwrap().position
            && es[t].unwrap().children@.contains(Entity(w as usize))
}

/// What the map's entities look like: `own[i - n0]` is the index in `tiles`
/// of the tile entity `i` stands on, and `tent[k]` the tile entity of `tiles[k]`.
spec fn map_inv(
    es: Seq<Option<EntityRecord>>,
    n0: int,
    tiles: Seq<Vector2Int>,
    k: int,
    own: Seq<int>,
    tent: Seq<int>,
) -> bool {
    &&& own.len() == es.len() - n0
    &&& tent.len() == k
    &&& forall|i: int|
        n0 <= i < es.len() ==> {
            &&& 0 <= #[trigger] own[i - n0] < k
            &&& (is_new_tile(es[i]) || is_new_wall(es[i]))
            &&& es[i].unwrap().position == Some(tiles[own[i - n0]])
            &&& is_new_tile(es[i]) ==> tent[own[i - n0]] == i
            &&& is_new_wall(es[i]) ==> es[tent[own[i - n0]]].unwrap().children@.contains(Entity(i as usize))
        }
    &&& forall|j: int|
        0 <= j < k ==> n0 <= #[trigger] tent[j] < es.len() && is_new_tile(es[tent[j]]) && own[tent[j] - n0] == j
}

/// Generates a level and puts it on the board: a tile entity on every tile,
/// and on every wall tile a wall child that occupies it and blocks sight.
/// Returns the floor tiles, where pieces may be placed; none of them holds a
/// wall.
pub fn spawn_map(world: &mut World) -> (r: Result<Vec<Vector2Int>, GenerationError>)
    ensures
        r.is_err() ==> *final(world) == *old(world),
        r matches Ok(spots) ==> {
            let es = final(world).entities@;
            let n0 = old(world).entities@.len() as int;
            &&& spots@.len() > 0
            &&& es.len() >= n0
            &&& forall|i: int| 0 <= i < n0 ==> #[trigger] es[i] == old(world).entities@[i]
            &&& forall|i: int| n0 <= i < es.len() ==> is_new_tile(#[trigger] es[i]) || is_new_wall(es[i])
            &&& forall|p: Vector2Int|
                #[trigger] final(world).board.tiles@.contains(p) <==> spots@.contains(p) || wall_at(es, n0, p)
            &&& forall|p: Vector2Int| #[trigger] spots@.contains(p) ==> !wall_at(es, n0, p)
            &&& forall|p: Vector2Int| #[trigger] final(world).board.tiles@.contains(p) ==> tile_at(es, n0, p)
            &&& forall|i: int, j: int|
                n0 <= i < es.len() && n0 <= j < es.len() && is_new_tile(#[trigger] es[i]) && is_new_tile(
                    #[trigger] es[j],
                ) && es[i].unwrap().position == es[j].unwrap().position ==> i == j
            &&& forall|w: int| n0 <= w < es.len() && #[trigger] is_new_wall(es[w]) ==> parented(es, n0, w)
            &&& final(world).events@ == old(world).events@
        },
{
    let mut dungeon = Dungeon::new(AREA_ROWS);
    let mut idx: usize = 0;
    while idx < AREA_COUNT
        invariant
            idx <= AREA_COUNT,
            dungeon.areas@.len() == idx,
            dungeon.row_count == AREA_ROWS,
            dungeon.walls@.len() == 0,
            forall|k: int| 0 <= k < idx ==> (#[trigger] dungeon.areas@[k]).room_generator.wf(),
        decreases AREA_COUNT - idx,
    {
        let tunneler = if idx % 2 == 0 {
            Tunneler::LShape
        } else {
            Tunneler::Random
        };
        dungeon.add_area(Area::new(tunneler, level_generator()));
        idx = idx + 1;
    }
    match dungeon.generate() {
        Ok(()) => {},
        Err(e) => return Err(e),
    }
    let spots = dungeon.get_valid_spots();
    let tiles = dungeon.to_tiles();
    proof {
        let r0 = dungeon.areas@[0].rooms@[0];
        let p0 = match r0 {
            crate::room::Room::Square(sq) => sq.a,
            crate::room::Room::Circle(c) => c.center,
        };
        assert(dungeon.areas@.len() == AREA_COUNT);
        assert(dungeon.areas@[0].rooms@.len() >= 1);
        assert(usable(dungeon.areas@[0].rooms@[0]));
        assert(r0.wf());
        assert(r0.tiles().contains(p0));
        assert(dungeon.areas@[0].tile_set().contains(p0));
        assert(dungeon.floor_set().contains(p0));
        assert(spots@.to_set().contains(p0));
    }
    let ghost pre = *world;
    let ghost n0 = world.entities@.len() as int;
    let ghost mut own: Seq<int> = seq![];
    let ghost mut tent: Seq<int> = seq![];
    let mut k: usize = 0;
    while k < tiles.len()
        invariant
            k <= tiles@.len(),
            tiles@.to_set() == dungeon.floor_set().union(dungeon.walls@.to_set()),
            spots@.to_set() == dungeon.floor_set(),
            forall|i: int| 0 <= i < dungeon.walls@.len() ==> !dungeon.floor_set().contains(#[trigger] dungeon.walls@[i]),
            world.entities@.len() >= n0,
            n0 == pre.entities@.len() as int,
            world.board == pre.board,
            world.events@ == pre.events@,
            forall|i: int| 0 <= i < n0 ==> #[trigger] world.entities@[i] == pre.entities@[i],
            tiles@.no_duplicates(),
            spots@.len() > 0,
            map_inv(world.entities@, n0, tiles@, k as int, own, tent),
            forall|j: int| 0 <= j < k ==> (dungeon.walls@.contains(#[trigger] tiles@[j]) ==> wall_at(world.entities@, n0, tiles@[j])),
            forall|i: int| n0 <= i < world.entities@.len() && is_new_wall(#[trigger] world.entities@[i]) ==> dungeon.walls@.contains(world.entities@[i].unwrap().position.unwrap()),
        decreases tiles@.len() - k,
    {
        let v = tiles[k];
        let mut rec = EntityRecord::empty();
        rec.position = Some(v);
        rec.tile = Some(Tile { visible: false, seen: false });
        let ghost es0 = world.entities@;
        let t = world.spawn(rec);
        proof {
            own = own.push(k as int);
            tent = tent.push(t.0 as int);
            assert forall|i: int| n0 <= i < world.entities@.len() implies {
                &&& 0 <= #[trigger] own[i - n0] < k + 1
                &&& (is_new_tile(world.entities@[i]) || is_new_wall(world.entities@[i]))
                &&& world.entities@[i].unwrap().position == Some(tiles@[own[i - n0]])
                &&& is_new_tile(world.entities@[i]) ==> tent[own[i - n0]] == i
                &&& is_new_wall(world.entities@[i]) ==> world.entities@[tent[own[i - n0]]].unwrap().children@.contains(Entity(i as usize))
            } by {
                if i < es0.len() {
                    assert(world.entities@[i] == es0[i]);
                    assert(own[i - n0] < k);
                    assert(n0 <= tent[own[i - n0]] < es0.len());
                    assert(world.entities@[tent[own[i - n0]]] == es0[tent[own[i - n0]]]);
                }
            };
            assert forall|j: int| 0 <= j < k + 1 implies n0 <= #[trigger] tent[j] < world.entities@.len() && is_new_tile(world.entities@[tent[j]]) && own[tent[j] - n0] == j by {
                if j < k {
                    assert(world.entities@[tent[j]] == es0[tent[j]]);
                }
            };
            assert forall|j: int| 0 <= j < k implies (dungeon.walls@.contains(#[trigger] tiles@[j]) ==> wall_at(world.entities@, n0, tiles@[j])) by {
                if dungeon.walls@.contains(tiles@[j]) {
                    assert(wall_at(es0, n0, tiles@[j]));
                    let i = choose|i: int| n0 <= i < es0.len() && #[trigger] is_new_wall(es0[i]) && es0[i].unwrap().position == Some(tiles@[j]);
                    assert(world.entities@[i] == es0[i]);
                }
            };
            assert forall|i: int| n0 <= i < world.entities@.len() && is_new_wall(#[trigger] world.entities@[i]) implies dungeon.walls@.contains(world.entities@[i].unwrap().position.unwrap()) by {
                if i < es0.len() {
                    assert(world.entities@[i] == es0[i]);
                }
            };
            assert(map_inv(world.entities@, n0, tiles@, k + 1, own, tent));
        }
        if contains_point(dungeon.walls.as_slice(), v) {
            let ghost es1 = world.entities@;
            let mut wall = EntityRecord::empty();
            wall.position = Some(v);
            wall.occupier = true;
            wall.wall = true;
            wall.vision_blocker = true;
            let w = world.spawn(wall);
            world.add_child(t, w);
            proof {
                own = own.push(k as int);
                let es2 = world.entities@;
                let kids = es2[t.0 as int].unwrap().children@;
                assert(kids == es1[t.0 as int].unwrap().children@.push(w));
                assert(kids[kids.len() - 1] == w);
                assert(kids.contains(w));
                assert forall|i: int| n0 <= i < es2.len() implies {
                    &&& 0 <= #[trigger] own[i - n0] < k + 1
                    &&& (is_new_tile(es2[i]) || is_new_wall(es2[i]))
                    &&& es2[i].unwrap().position == Some(tiles@[own[i - n0]])
                    &&& is_new_tile(es2[i]) ==> tent[own[i - n0]] == i
                    &&& is_new_wall(es2[i]) ==> es2[tent[own[i - n0]]].unwrap().children@.contains(Entity(i as usize))
                } by {
                    if i < es1.len() && i != t.0 {
                        assert(es2[i] == es1[i]);
                        if is_new_wall(es2[i]) {
                            let tt = tent[own[i - n0]];
                            assert(tt != t.0);
                            assert(es2[tt] == es1[tt]);
                        }
                    }
                };
                assert forall|j: int| 0 <= j < k + 1 implies n0 <= #[trigger] tent[j] < es2.len() && is_new_tile(es2[tent[j]]) && own[tent[j] - n0] == j by {
                    if tent[j] != t.0 {
                        assert(es2[tent[j]] == es1[tent[j]]);
                    }
                };
                assert(map_inv(es2, n0, tiles@, k + 1, own, tent));
                assert forall|j: int| 0 <= j < k implies (dungeon.walls@.contains(#[trigger] tiles@[j]) ==> wall_at(es2, n0, tiles@[j])) by {
                    if dungeon.walls@.contains(tiles@[j]) {
                        let i = choose|i: int| n0 <= i < es1.len() && #[trigger] is_new_wall(es1[i]) && es1[i].unwrap().position == Some(tiles@[j]);
                        assert(i != t.0);
                        assert(es2[i] == es1[i]);
                    }
                };
                assert(is_new_wall(es2[w.0 as int]));
                assert(wall_at(es2, n0, v));
                assert forall|i: int| n0 <= i < es2.len() && is_new_wall(#[trigger] es2[i]) implies dungeon.walls@.contains(es2[i].unwrap().position.unwrap()) by {
                    if i < es1.len() && i != t.0 {
                        assert(es2[i] == es1[i]);
                    }
                    if i == w.0 {
                        assert(dungeon.walls@.to_set().contains(v));
                    }
                };
            }
        }
        proof {
            let es3 = world.entities@;
            assert forall|j: int| 0 <= j < k + 1 implies (dungeon.walls@.contains(#[trigger] tiles@[j]) ==> wall_at(es3, n0, tiles@[j])) by {
                if j == k && dungeon.walls@.contains(tiles@[j]) {
                    assert(dungeon.walls@.to_set().contains(v));
                }
            };
        }
        k = k + 1;
    }
    proof {
        let es = world.entities@;
        assert forall|i: int| n0 <= i < es.len() implies is_new_tile(#[trigger] es[i]) || is_new_wall(es[i]) by {
            assert(0 <= own[i - n0]);
        };
        assert forall|p: Vector2Int| tiles@.contains(p) <==> spots@.contains(p) || wall_at(es, n0, p) by {
            if tiles@.contains(p) {
                assert(tiles@.to_set().contains(p));
                let j = choose|j: int| 0 <= j < tiles@.len() && tiles@[j] == p;
                if !spots@.contains(p) {
                    assert(!spots@.to_set().contains(p));
                    assert(dungeon.walls@.to_set().contains(p));
                    assert(dungeon.walls@.contains(tiles@[j]));
                }
            }
            if spots@.contains(p) {
                assert(spots@.to_set().contains(p));
                assert(tiles@.to_set().contains(p));
            }
            if wall_at(es, n0, p) {
                let i = choose|i: int| n0 <= i < es.len() && #[trigger] is_new_wall(es[i]) && es[i].unwrap().position == Some(p);
                assert(es[i].unwrap().position == Some(tiles@[own[i - n0]]));
                assert(tiles@.contains(tiles@[own[i - n0]]));
            }
        };
        assert forall|p: Vector2Int| #[trigger] spots@.contains(p) implies !wall_at(es, n0, p) by {
            if wall_at(es, n0, p) {
                let i = choose|i: int| n0 <= i < es.len() && #[trigger] is_new_wall(es[i]) && es[i].unwrap().position == Some(p);
                assert(dungeon.walls@.contains(p));
                let j = choose|j: int| 0 <= j < dungeon.walls@.len() && dungeon.walls@[j] == p;
                assert(spots@.to_set().contains(p));
            }
        };
        assert forall|p: Vector2Int| tiles@.contains(p) implies tile_at(es, n0, p) by {
            let j = choose|j: int| 0 <= j < tiles@.len() && tiles@[j] == p;
            assert(is_new_tile(es[tent[j]]));
            assert(es[tent[j]].unwrap().position == Some(tiles@[own[tent[j] - n0]]));
        };
        assert forall|i: int, j: int|
            n0 <= i < es.len() && n0 <= j < es.len() && is_new_tile(#[trigger] es[i]) && is_new_tile(#[trigger] es[j])
                && es[i].unwrap().position == es[j].unwrap().position implies i == j by {
            assert(tiles@[own[i - n0]] == tiles@[own[j - n0]]);
            assert(own[i - n0] == own[j - n0]);
        };
        assert forall|w: int| n0 <= w < es.len() && #[trigger] is_new_wall(es[w]) implies parented(es, n0, w) by {
            let t = tent[own[w - n0]];
            assert(is_new_tile(es[t]));
            assert(es[t].unwrap().position == Some(tiles@[own[t - n0]]));
        };
    }
    world.board.tiles = tiles;
    Ok(spots)
}

/// A random index below `n`.
fn random_index(n: usize) -> (r: usize)
    requires
        0 < n,
    ensures
        r < n,
{
    let bound: i32 = if n > i32::MAX as usize {
        i32::MAX
    } else {
        n as i32
    };
    random_range(0, bound) as usize
}

/// Spawns the player on the first spot, with full health, a sword and a
/// chest armour in the inventory.
pub fn spawn_player(world: &mut World, spots: &Vec<Vector2Int>) -> (e: Entity)
    requires
        spots@.len() > 0,
    ensures
        e.0 == old(world).entities@.len(),
        final(world).entities@.len() == old(world).entities@.len() + 1,
        forall|i: int| 0 <= i < old(world).entities@.len() ==> #[trigger] final(world).entities@[i] == old(world).entities@[i],
        final(world).alive(e),
        final(world).rec(e).player,
        final(world).rec(e).occupier,
        final(world).rec(e).item_picker,
        final(world).rec(e).position == Some(spots@[0]),
        final(world).rec(e).health == Some(Health { base: Range { min: 10, max: 10 }, current: Range { min: 10, max: 10 } }),
        final(world).rec(e).gold == Some(Gold { value: 0 }),
        final(world).board == old(world).board,
        final(world).events@ == old(world).events@,
{
    let mut rec = EntityRecord::empty();
    rec.actor = Some(Actor(Vec::new()));
    rec.piece = true;
    rec.player = true;
    rec.occupier = true;
    rec.item_picker = true;
    rec.equipment = Some(Equipment { weapon: None, chest: None });
    rec.health = Some(Health { base: Range { min: 10, max: 10 }, current: Range { min: 10, max: 10 } });
    rec.melee = Some(Melee { base_damage: Damage { min: 5, max: 10 }, current_damage: Damage { min: 5, max: 10 } });
    let mut items: Vec<Item> = Vec::new();
    items.push(Item::Sword(Sword { equipped: false, id: 5 }));
    items.push(Item::ChestArmor(ChestArmor { equipped: false, id: 6 }));
    rec.inventory = Some(Inventory { items });
    rec.gold = Some(Gold { value: 0 });
    rec.position = Some(spots[0]);
    world.spawn(rec)
}

/// Puts the player back on the first spot.
pub fn randomly_reposition_player(world: &mut World, spots: &Vec<Vector2Int>)
    requires
        spots@.len() > 0,
    ensures
        ({
            let pre = *old(world);
            let post = *final(world);
            match crate::planning::single_player_index(pre) {
                Some(i) => post.entities@ == pre.entities@.update(
                    i,
                    Some(EntityRecord { position: Some(spots@[0]), ..pre.entities@[i].unwrap() }),
                ) && post.board == pre.board && post.events@ == pre.events@,
                None => post == pre,
            }
        }),
{
    match crate::planning::player_index(world) {
        Some(i) => {
            let ghost pre = *world;
            let mut rec = world.take_record(Entity(i));
            rec.position = Some(spots[0]);
            world.entities.set(i, Some(rec));
            assert(world.entities@ =~= pre.entities@.update(
                i as int,
                Some(EntityRecord { position: Some(spots@[0]), ..pre.entities@[i as int].unwrap() }),
            ));
        },
        None => {},
    }
}

fn spawn_at(world: &mut World, rec: EntityRecord, spots: &Vec<Vector2Int>) -> (e: Entity)
    requires
        spots@.len() > 0,
    ensures
        final(world).entities@.len() == old(world).entities@.len() + 1,
        forall|i: int| 0 <= i < old(world).entities@.len() ==> #[trigger] final(world).entities@[i] == old(world).entities@[i],
        final(world).entities@.last().is_some(),
        final(world).entities@.last().unwrap().position.is_some(),
        spots@.contains(final(world).entities@.last().unwrap().position.unwrap()),
        final(world).board == old(world).board,
        final(world).events@ == old(world).events@,
{
    let mut rec = rec;
    let at = spots[random_index(spots.len())];
    rec.position = Some(at);
    world.spawn(rec)
}

/// Places ten NPCs, ten coins and ten health drops, and one portal, each
/// on a random spot.
pub fn spawn_npcs(world: &mut World, spots: &Vec<Vector2Int>)
    requires
        spots@.len() > 0,
    ensures
        final(world).entities@.len() == old(world).entities@.len() + 3 * PIECES_PER_KIND + 1,
        forall|i: int| 0 <= i < old(world).entities@.len() ==> #[trigger] final(world).entities@[i] == old(world).entities@[i],
        forall|i: int|
            old(world).entities@.len() <= i < final(world).entities@.len() ==> {
                let o = #[trigger] final(world).entities@[i];
                o.is_some() && o.unwrap().position.is_some() && spots@.contains(o.unwrap().position.unwrap())
            },
        final(world).board == old(world).board,
        final(world).events@ == old(world).events@,
{
    let ghost pre = *world;
    let mut k: usize = 0;
    while k <= PIECES_PER_KIND
        invariant
            spots@.len() > 0,
            k <= PIECES_PER_KIND + 1,
            world.entities@.len() == pre.entities@.len() + 3 * k - (if k > PIECES_PER_KIND { 2int } else { 0 }),
            forall|i: int| 0 <= i < pre.entities@.len() ==> #[trigger] world.entities@[i] == pre.entities@[i],
            forall|i: int|
                pre.entities@.len() <= i < world.entities@.len() ==> {
                    let o = #[trigger] world.entities@[i];
                    o.is_some() && o.unwrap().position.is_some() && spots@.contains(o.unwrap().position.unwrap())
                },
            world.board == pre.board,
            world.events@ == pre.events@,
        decreases PIECES_PER_KIND + 1 - k,
    {
        if k == PIECES_PER_KIND {
            let mut portal = EntityRecord::empty();
            portal.portal = true;
            portal.piece = true;
            let ghost before = world.entities@;
            spawn_at(world, portal, spots);
            proof {
                assert forall|i: int| pre.entities@.len() <= i < world.entities@.len() implies {
                    let o = #[trigger] world.entities@[i];
                    o.is_some() && o.unwrap().position.is_some() && spots@.contains(o.unwrap().position.unwrap())
                } by {
                    if i < before.len() {
                        assert(world.entities@[i] == before[i]);
                    }
                };
            }
        } else {
            let mut coin = EntityRecord::empty();
            coin.piece = true;
            coin.item_container = Some(ItemContainer { item: Item::Gold(GoldDrop { value: 1 }) });
            let ghost b0 = world.entities@;
            spawn_at(world, coin, spots);
            let mut npc = EntityRecord::empty();
            npc.actor = Some(Actor(Vec::new()));
            npc.piece = true;
            npc.health = Some(Health { base: Range { min: 10, max: 10 }, current: Range { min: 10, max: 10 } });
            npc.melee = Some(Melee { base_damage: Damage { min: 1, max: 1 }, current_damage: Damage { min: 1, max: 1 } });
            npc.occupier = true;
            npc.walk = true;
            let ghost b1 = world.entities@;
            spawn_at(world, npc, spots);
            let mut drop = EntityRecord::empty();
            drop.piece = true;
            drop.item_container = Some(ItemContainer { item: Item::Health(HealthDrop { value: 5 }) });
            let ghost b2 = world.entities@;
            spawn_at(world, drop, spots);
            proof {
                assert forall|i: int| pre.entities@.len() <= i < world.entities@.len() implies {
                    let o = #[trigger] world.entities@[i];
                    o.is_some() && o.unwrap().position.is_some() && spots@.contains(o.unwrap().position.unwrap())
                } by {
                    if i < b0.len() {
                        assert(world.entities@[i] == b2[i] && b2[i] == b1[i] && b1[i] == b0[i]);
                    } else if i < b1.len() {
                        assert(world.entities@[i] == b2[i] && b2[i] == b1[i]);
                    } else if i < b2.len() {
                        assert(world.entities@[i] == b2[i]);
                    }
                };
            }
        }
        k = k + 1;
    }
}

/// Spawns a projectile at `source` that will fly towards `destination`.
pub fn spawn_projectile(world: &mut World, source: Vector2Int, destination: Vector2Int) -> (e: Entity)
    ensures
        e.0 == old(world).entities@.len(),
        final(world).entities@.len() == old(world).entities@.len() + 1,
        forall|i: int| 0 <= i < old(world).entities@.len() ==> #[trigger] final(world).entities@[i] == old(world).entities@[i],
        final(world).alive(e),
        final(world).rec(e).position == Some(source),
        final(world).rec(e).projectile == Some(Projectile { destination, damage: Damage { min: 5, max: 5 } }),
        final(world).rec(e).actor.is_some(),
        final(world).board == old(world).board,
        final(world).events@ == old(world).events@,
{
    let mut rec = EntityRecord::empty();
    rec.actor = Some(Actor(Vec::new()));
    rec.piece = true;
    rec.projectile = Some(Projectile { destination, damage: Damage { min: 5, max: 5 } });
    rec.position = Some(source);
    world.spawn(rec)
}

} // verus!

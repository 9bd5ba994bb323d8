use vstd::prelude::*;

use crate::actions::vision_blockers;
use crate::components::Tile;
use crate::planning::{player_position, single_player_position, within_range, VISIBILITY_RANGE};
use crate::vectors::{
    cast_line_spec, contains_point, disk_set, fits_i32, line_of_sight, sight_spec, Vector2Int,
};
use crate::world::{EntityRecord, World};

verus! {

/// `p` lies on the line cast from `from` to some point within `radius`.
pub open spec fn in_sight(from: Vector2Int, p: Vector2Int, blockers: Seq<Vector2Int>, radius: int) -> bool {
    exists|q: Vector2Int|
        #[trigger] disk_set(from, radius).contains(q) && cast_line_spec(from, q, blockers).contains(p)
}

/// The slot after a visibility update: a tile that is not the player is
/// visible exactly when lit, and stays seen once seen.
pub open spec fn relit(o: Option<EntityRecord>, lit: bool) -> Option<EntityRecord> {
    if o.is_some() && o.unwrap().tile.is_some() && !o.unwrap().player && o.unwrap().position.is_some() {
        let t = o.unwrap().tile.unwrap();
        Some(EntityRecord { tile: Some(Tile { visible: lit, seen: t.seen || lit }), ..o.unwrap() })
    } else {
        o
    }
}

/// Whether the tile at `p` is lit for a player at `from`.
pub open spec fn lit(w: World, from: Vector2Int, p: Vector2Int) -> bool {
    within_range(p, from, VISIBILITY_RANGE as int) && in_sight(
        from,
        p,
        vision_blockers(w.entities@, w.entities@.len()),
        VISIBILITY_RANGE as int,
    )
}

proof fn lemma_sight_contains(
    start: Vector2Int,
    area: Seq<Vector2Int>,
    blockers: Seq<Vector2Int>,
    p: Vector2Int,
)
    ensures
        sight_spec(start, area, blockers).contains(p) <==> exists|i: int|
            0 <= i < area.len() && cast_line_spec(start, #[trigger] area[i], blockers).contains(p),
    decreases area.len(),
{
    if area.len() > 0 {
        let d = area.drop_last();
        lemma_sight_contains(start, d, blockers, p);
        let prev = sight_spec(start, d, blockers);
        let last = cast_line_spec(start, area.last(), blockers);
        if (prev + last).contains(p) {
            let k = choose|k: int| 0 <= k < (prev + last).len() && (prev + last)[k] == p;
            if k < prev.len() {
                assert(prev[k] == p);
                let i = choose|i: int| 0 <= i < d.len() && cast_line_spec(start, #[trigger] d[i], blockers).contains(p);
                assert(area[i] == d[i]);
            } else {
                assert(last[k - prev.len()] == p);
                assert(area[area.len() - 1] == area.last());
            }
        }
        if exists|i: int| 0 <= i < area.len() && cast_line_spec(start, #[trigger] area[i], blockers).contains(p) {
            let i = choose|i: int| 0 <= i < area.len() && cast_line_spec(start, #[trigger] area[i], blockers).contains(p);
            if i < area.len() - 1 {
                assert(d[i] == area[i]);
                assert(prev.contains(p));
                let k = choose|k: int| 0 <= k < prev.len() && prev[k] == p;
                assert((prev + last)[k] == p);
            } else {
                let k = choose|k: int| 0 <= k < last.len() && last[k] == p;
                assert((prev + last)[prev.len() + k] == p);
            }
        }
    }
}

/// Recomputes which tiles the player sees: a tile is visible when it is
/// within the visibility range and on a line of sight cast from the player;
/// a visible tile becomes seen for good.
pub fn update_tile_visibility(world: &mut World)
    ensures
        ({
            let pre = *old(world);
            let post = *final(world);
            let from = single_player_position(pre);
            if from.is_some() && fits_i32(from.unwrap().x - VISIBILITY_RANGE) && fits_i32(
                from.unwrap().x + VISIBILITY_RANGE,
            ) && fits_i32(from.unwrap().y - VISIBILITY_RANGE) && fits_i32(
                from.unwrap().y + VISIBILITY_RANGE,
            ) {
                &&& post.board == pre.board
                &&& post.events@ == pre.events@
                &&& post.entities@.len() == pre.entities@.len()
                &&& forall|i: int|
                    0 <= i < pre.entities@.len() ==> #[trigger] post.entities@[i] == relit(
                        pre.entities@[i],
                        pre.entities@[i].is_some() && pre.entities@[i].unwrap().position.is_some()
                            && lit(pre, from.unwrap(), pre.entities@[i].unwrap().position.unwrap()),
                    )
            } else {
                post == pre
            }
        }),
{
    let from = match player_position(world) {
        Some(p) => p,
        None => return,
    };
    if from.x < i32::MIN + VISIBILITY_RANGE || from.x > i32::MAX - VISIBILITY_RANGE || from.y < i32::MIN
        + VISIBILITY_RANGE || from.y > i32::MAX - VISIBILITY_RANGE {
        return;
    }
    let ghost pre = *world;
    let ghost es = world.entities@;
    let mut blockers: Vec<Vector2Int> = Vec::new();
    let mut i: usize = 0;
    while i < world.entities.len()
        invariant
            es == world.entities@,
            i <= es.len(),
            blockers@ == vision_blockers(es, i as nat),
        decreases es.len() - i,
    {
        match &world.entities[i] {
            Some(rec) => {
                if rec.vision_blocker {
                    match rec.position {
                        Some(p) => blockers.push(p),
                        None => {},
                    }
                }
            },
            None => {},
        }
        i = i + 1;
    }
    let area = from.circle_area(VISIBILITY_RANGE);
    let ghost area_seq = area@;
    let visible = line_of_sight(from, area, blockers.as_slice());
    let ghost bs = blockers@;
    let mut k: usize = 0;
    while k < world.entities.len()
        invariant
            world.entities@.len() == es.len(),
            es == pre.entities@,
            world.board == pre.board,
            world.events@ == pre.events@,
            k <= es.len(),
            bs == vision_blockers(es, es.len()),
            area_seq.to_set() == disk_set(from, VISIBILITY_RANGE as int),
            visible@ == sight_spec(from, area_seq, bs),
            forall|j: int| 0 <= j < k ==> #[trigger] world.entities@[j] == relit(
                es[j],
                es[j].is_some() && es[j].unwrap().position.is_some() && lit(pre, from, es[j].unwrap().position.unwrap()),
            ),
            forall|j: int| k <= j < es.len() ==> #[trigger] world.entities@[j] == es[j],
        decreases es.len() - k,
    {
        let target = match &world.entities[k] {
            Some(rec) => if rec.tile.is_some() && !rec.player {
                rec.position
            } else {
                None
            },
            None => None,
        };
        match target {
            Some(p) => {
                let near = crate::planning::within_distance(p, from, VISIBILITY_RANGE);
                let on_line = contains_point(visible.as_slice(), p);
                proof {
                    lemma_sight_contains(from, area_seq, bs, p);
                    if on_line {
                        let i = choose|i: int| 0 <= i < area_seq.len() && cast_line_spec(from, #[trigger] area_seq[i], bs).contains(p);
                        assert(area_seq.to_set().contains(area_seq[i]));
                        assert(disk_set(from, VISIBILITY_RANGE as int).contains(area_seq[i]));
                    }
                    if in_sight(from, p, bs, VISIBILITY_RANGE as int) {
                        let q = choose|q: Vector2Int| #[trigger] disk_set(from, VISIBILITY_RANGE as int).contains(q) && cast_line_spec(from, q, bs).contains(p);
                        assert(area_seq.to_set().contains(q));
                        let i = choose|i: int| 0 <= i < area_seq.len() && area_seq[i] == q;
                        assert(cast_line_spec(from, area_seq[i], bs).contains(p));
                    }
                }
                let shown = near && on_line;
                let mut rec = world.take_record(crate::world::Entity(k));
                let t = rec.tile.unwrap();
                rec.tile = Some(Tile { visible: shown, seen: t.seen || shown });
                world.entities.set(k, Some(rec));
            },
            None => {},
        }
        k = k + 1;
    }
}

} // verus!

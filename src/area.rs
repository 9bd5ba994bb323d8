use vstd::prelude::*;

use crate::room::{
    disjoint, lemma_moved_contains, moved, usable, within, BubbleGenerator,
    GenerationError, Room,
};
use crate::tunneler::{in_box, is_corridor, Tunneler};
use crate::vectors::{contains_point, lemma_push_to_set, manhattan_spec, vec_of, Vector2Int};

verus! {

/// Coordinates of a freshly generated area stay within this bound.
pub const AREA_BOUND: i32 = 3_006_000;

/// Areas are shifted by offsets within this bound.
pub const LAYOUT_BOUND: i32 = 610_000_000;

/// Rooms grown by one generator, with the corridors joining them.
pub struct Area {
    pub rooms: Vec<Room>,
    pub paths: Vec<Vec<Vector2Int>>,
    /// The room pairs the generator asked to join, one for each of the
    /// first corridors.
    pub connections: Vec<(usize, usize)>,
    pub tunneler: Tunneler,
    pub room_generator: BubbleGenerator,
}

pub open spec fn pt_within(p: Vector2Int, bound: int) -> bool {
    -bound <= p.x <= bound && -bound <= p.y <= bound
}

pub open spec fn min_i(a: int, b: int) -> int {
    if a <= b {
        a
    } else {
        b
    }
}

pub open spec fn max_i(a: int, b: int) -> int {
    if a >= b {
        a
    } else {
        b
    }
}

/// The bounding box of the rooms: minimum x and y, maximum x and y.
pub open spec fn bounds_spec(rooms: Seq<Room>) -> (int, int, int, int)
    decreases rooms.len(),
{
    if rooms.len() <= 1 {
        (
            rooms[0].min_corner().x as int,
            rooms[0].min_corner().y as int,
            rooms[0].max_corner().x as int,
            rooms[0].max_corner().y as int,
        )
    } else {
        let b = bounds_spec(rooms.drop_last());
        let r = rooms.last();
        (
            min_i(b.0, r.min_corner().x as int),
            min_i(b.1, r.min_corner().y as int),
            max_i(b.2, r.max_corner().x as int),
            max_i(b.3, r.max_corner().y as int),
        )
    }
}

/// The smallest Manhattan distance between a corner of `a` and one of `b`.
pub open spec fn corner_distance(a: Room, b: Room) -> int {
    let ca = seq![
        a.min_corner(),
        vec_of(a.max_corner().x as int, a.min_corner().y as int),
        a.max_corner(),
        vec_of(a.min_corner().x as int, a.max_corner().y as int),
    ];
    let cb = seq![
        b.min_corner(),
        vec_of(b.max_corner().x as int, b.min_corner().y as int),
        b.max_corner(),
        vec_of(b.min_corner().x as int, b.max_corner().y as int),
    ];
    min_of_16(ca, cb)
}

pub open spec fn min_of_16(ca: Seq<Vector2Int>, cb: Seq<Vector2Int>) -> int {
    min_i(
        min_i(min_row(ca[0], cb), min_row(ca[1], cb)),
        min_i(min_row(ca[2], cb), min_row(ca[3], cb)),
    )
}

pub open spec fn min_row(p: Vector2Int, cb: Seq<Vector2Int>) -> int {
    min_i(
        min_i(manhattan_spec(p, cb[0]), manhattan_spec(p, cb[1])),
        min_i(manhattan_spec(p, cb[2]), manhattan_spec(p, cb[3])),
    )
}

pub open spec fn shifted_by(p: Vector2Int, d: Vector2Int) -> Vector2Int {
    vec_of(p.x + d.x, p.y + d.y)
}

/// `path` is a corridor from a point of `a`'s box to a point of `b`'s box.
#[verifier::opaque]
pub open spec fn joins_rooms(path: Seq<Vector2Int>, a: Room, b: Room) -> bool {
    exists|pa: Vector2Int, pb: Vector2Int|
        #[trigger] is_corridor(pa, pb, path) && in_box(a.min_corner(), a.max_corner(), pa) && in_box(
            b.min_corner(),
            b.max_corner(),
            pb,
        )
}

impl Area {
    /// Rooms well formed, and rooms and corridors within `bound` of the origin.
    pub open spec fn within(&self, bound: int) -> bool {
        &&& forall|i: int| 0 <= i < self.rooms@.len() ==> (#[trigger] self.rooms@[i]).wf()
        &&& forall|i: int| 0 <= i < self.rooms@.len() ==> within(#[trigger] self.rooms@[i], bound)
        &&& forall|i: int, k: int|
            0 <= i < self.paths@.len() && 0 <= k < self.paths@[i]@.len() ==> pt_within(
                #[trigger] self.paths@[i]@[k],
                bound,
            )
    }

    /// No two rooms share a tile.
    pub open spec fn rooms_apart(&self) -> bool {
        forall|i: int, j: int|
            0 <= i < j < self.rooms@.len() ==> disjoint(
                (#[trigger] self.rooms@[i]).tiles(),
                (#[trigger] self.rooms@[j]).tiles(),
            )
    }

    /// Every tile of a room or a corridor.
    pub open spec fn tile_set(&self) -> Set<Vector2Int> {
        Set::new(
            |p: Vector2Int|
                (exists|i: int| 0 <= i < self.rooms@.len() && (#[trigger] self.rooms@[i]).tiles().contains(p))
                    || (exists|i: int| 0 <= i < self.paths@.len() && (#[trigger] self.paths@[i])@.contains(p)),
        )
    }

    pub fn new(tunneler: Tunneler, room_generator: BubbleGenerator) -> (r: Area)
        ensures
            r.rooms@.len() == 0,
            r.paths@.len() == 0,
            r.tunneler == tunneler,
            r.room_generator == room_generator,
    {
        Area { rooms: Vec::new(), paths: Vec::new(), connections: Vec::new(), tunneler, room_generator }
    }

    /// The minimum and maximum corners of the box around all rooms.
    pub fn get_bounds(&self) -> (r: (Vector2Int, Vector2Int))
        requires
            self.rooms@.len() >= 1,
            forall|i: int| 0 <= i < self.rooms@.len() ==> (#[trigger] self.rooms@[i]).wf(),
        ensures
            (r.0.x as int, r.0.y as int, r.1.x as int, r.1.y as int) == bounds_spec(self.rooms@),
    {
        let c = self.rooms[0].corners();
        let mut lo = c[0];
        let mut hi = c[2];
        assert(self.rooms@.subrange(0, 1) =~= seq![self.rooms@[0]]);
        let mut i: usize = 1;
        while i < self.rooms.len()
            invariant
                1 <= i <= self.rooms@.len(),
                forall|k: int| 0 <= k < self.rooms@.len() ==> (#[trigger] self.rooms@[k]).wf(),
                (lo.x as int, lo.y as int, hi.x as int, hi.y as int) == bounds_spec(
                    self.rooms@.subrange(0, i as int),
                ),
            decreases self.rooms@.len() - i,
        {
            let c = self.rooms[i].corners();
            assert(self.rooms@.subrange(0, i + 1).drop_last() =~= self.rooms@.subrange(0, i as int));
            lo = Vector2Int::new(
                if c[0].x < lo.x { c[0].x } else { lo.x },
                if c[0].y < lo.y { c[0].y } else { lo.y },
            );
            hi = Vector2Int::new(
                if c[2].x > hi.x { c[2].x } else { hi.x },
                if c[2].y > hi.y { c[2].y } else { hi.y },
            );
            i = i + 1;
        }
        assert(self.rooms@.subrange(0, self.rooms@.len() as int) =~= self.rooms@);
        (lo, hi)
    }

    /// Width and height of the box around all rooms.
    pub fn get_size(&self) -> (r: Vector2Int)
        requires
            self.rooms@.len() >= 1,
            self.within(AREA_BOUND as int),
        ensures
            r.x == bounds_spec(self.rooms@).2 - bounds_spec(self.rooms@).0 + 1,
            r.y == bounds_spec(self.rooms@).3 - bounds_spec(self.rooms@).1 + 1,
    {
        proof {
            lemma_bounds_within(self.rooms@, AREA_BOUND as int);
        }
        let (lo, hi) = self.get_bounds();
        Vector2Int::new(hi.x - lo.x + 1, hi.y - lo.y + 1)
    }

    /// Moves the whole area so that the minimum corner of its rooms' box
    /// lands on `offset`.
    pub fn shift(&mut self, offset: Vector2Int)
        requires
            old(self).rooms@.len() >= 1,
            old(self).within(AREA_BOUND as int),
            -LAYOUT_BOUND <= offset.x <= LAYOUT_BOUND,
            -LAYOUT_BOUND <= offset.y <= LAYOUT_BOUND,
        ensures
            ({
                let b = bounds_spec(old(self).rooms@);
                let d = vec_of(offset.x - b.0, offset.y - b.1);
                &&& final(self).rooms@.len() == old(self).rooms@.len()
                &&& forall|i: int|
                    0 <= i < final(self).rooms@.len() ==> #[trigger] final(self).rooms@[i] == moved(
                        old(self).rooms@[i],
                        d,
                    )
                &&& final(self).paths@.len() == old(self).paths@.len()
                &&& forall|i: int|
                    0 <= i < final(self).paths@.len() ==> (#[trigger] final(self).paths@[i])@
                        == old(self).paths@[i]@.map_values(|p: Vector2Int| shifted_by(p, d))
                &&& final(self).within(LAYOUT_BOUND + 2 * AREA_BOUND)
                &&& bounds_spec(final(self).rooms@) == (
                    offset.x as int,
                    offset.y as int,
                    offset.x + b.2 - b.0,
                    offset.y + b.3 - b.1,
                )
                &&& old(self).rooms_apart() ==> final(self).rooms_apart()
                &&& final(self).tunneler == old(self).tunneler
                &&& final(self).room_generator == old(self).room_generator
            }),
    {
        proof {
            lemma_bounds_within(self.rooms@, AREA_BOUND as int);
        }
        let (lo, _hi) = self.get_bounds();
        let d = Vector2Int::new(offset.x - lo.x, offset.y - lo.y);
        let ghost old_rooms = self.rooms@;
        let ghost old_paths = self.paths@;
        let ghost big = LAYOUT_BOUND + 2 * AREA_BOUND;
        let mut i: usize = 0;
        while i < self.rooms.len()
            invariant
                self.rooms@.len() == old_rooms.len(),
                self.tunneler == old(self).tunneler,
                self.room_generator == old(self).room_generator,
                i <= old_rooms.len(),
                -LAYOUT_BOUND - AREA_BOUND <= d.x <= LAYOUT_BOUND + AREA_BOUND,
                -LAYOUT_BOUND - AREA_BOUND <= d.y <= LAYOUT_BOUND + AREA_BOUND,
                forall|k: int| 0 <= k < old_rooms.len() ==> (#[trigger] old_rooms[k]).wf(),
                forall|k: int| 0 <= k < old_rooms.len() ==> within(#[trigger] old_rooms[k], AREA_BOUND as int),
                forall|k: int| 0 <= k < i ==> #[trigger] self.rooms@[k] == moved(old_rooms[k], d),
                forall|k: int| i <= k < old_rooms.len() ==> #[trigger] self.rooms@[k] == old_rooms[k],
                self.paths@ == old_paths,
            decreases old_rooms.len() - i,
        {
            let mut r = self.rooms[i];
            r.shift(d);
            self.rooms.set(i, r);
            i = i + 1;
        }
        let ghost shifted_rooms = self.rooms@;
        let mut j: usize = 0;
        while j < self.paths.len()
            invariant
                self.rooms@ == shifted_rooms,
                self.tunneler == old(self).tunneler,
                self.room_generator == old(self).room_generator,
                shifted_rooms.len() == old_rooms.len(),
                forall|k: int| 0 <= k < old_rooms.len() ==> #[trigger] shifted_rooms[k] == moved(old_rooms[k], d),
                forall|k: int| 0 <= k < old_rooms.len() ==> (#[trigger] old_rooms[k]).wf(),
                forall|k: int| 0 <= k < old_rooms.len() ==> within(#[trigger] old_rooms[k], AREA_BOUND as int),
                self.paths@.len() == old_paths.len(),
                j <= old_paths.len(),
                -LAYOUT_BOUND - AREA_BOUND <= d.x <= LAYOUT_BOUND + AREA_BOUND,
                -LAYOUT_BOUND - AREA_BOUND <= d.y <= LAYOUT_BOUND + AREA_BOUND,
                forall|i: int, k: int|
                    0 <= i < old_paths.len() && 0 <= k < old_paths[i]@.len() ==> pt_within(
                        #[trigger] old_paths[i]@[k],
                        AREA_BOUND as int,
                    ),
                forall|k: int|
                    0 <= k < j ==> (#[trigger] self.paths@[k])@ == old_paths[k]@.map_values(
                        |p: Vector2Int| shifted_by(p, d),
                    ),
                forall|k: int| j <= k < old_paths.len() ==> #[trigger] self.paths@[k] == old_paths[k],
            decreases old_paths.len() - j,
        {
            let mut placeholder: Vec<Vector2Int> = Vec::new();
            self.paths.set_and_swap(j, &mut placeholder);
            let mut path = placeholder;
            let ghost orig = path@;
            let mut k: usize = 0;
            while k < path.len()
                invariant
                    path@.len() == orig.len(),
                    orig == old_paths[j as int]@,
                    k <= orig.len(),
                    -LAYOUT_BOUND - AREA_BOUND <= d.x <= LAYOUT_BOUND + AREA_BOUND,
                    -LAYOUT_BOUND - AREA_BOUND <= d.y <= LAYOUT_BOUND + AREA_BOUND,
                    forall|m: int| 0 <= m < orig.len() ==> pt_within(#[trigger] orig[m], AREA_BOUND as int),
                    forall|m: int| 0 <= m < k ==> #[trigger] path@[m] == shifted_by(orig[m], d),
                    forall|m: int| k <= m < orig.len() ==> #[trigger] path@[m] == orig[m],
                decreases orig.len() - k,
            {
                let p = path[k];
                assert(pt_within(orig[k as int], AREA_BOUND as int));
                path.set(k, Vector2Int::new(p.x + d.x, p.y + d.y));
                k = k + 1;
            }
            assert(path@ =~= orig.map_values(|p: Vector2Int| shifted_by(p, d)));
            self.paths.set(j, path);
            j = j + 1;
        }
        proof {
            lemma_bounds_moved(old_rooms, self.rooms@, d);
            assert forall|i: int| 0 <= i < self.rooms@.len() implies within(
                #[trigger] self.rooms@[i],
                big,
            ) && self.rooms@[i].wf() by {
                assert(self.rooms@[i] == moved(old_rooms[i], d));
                assert(within(old_rooms[i], AREA_BOUND as int));
            };
            assert forall|i: int, k: int|
                0 <= i < self.paths@.len() && 0 <= k < self.paths@[i]@.len() implies pt_within(
                #[trigger] self.paths@[i]@[k],
                big,
            ) by {
                assert(self.paths@[i]@[k] == shifted_by(old_paths[i]@[k], d));
                assert(pt_within(old_paths[i]@[k], AREA_BOUND as int));
            };
            if forall|a: int, b: int|
                0 <= a < b < old_rooms.len() ==> disjoint(
                    (#[trigger] old_rooms[a]).tiles(),
                    (#[trigger] old_rooms[b]).tiles(),
                ) {
                assert forall|a: int, b: int| 0 <= a < b < self.rooms@.len() implies disjoint(
                    (#[trigger] self.rooms@[a]).tiles(),
                    (#[trigger] self.rooms@[b]).tiles(),
                ) by {
                    assert forall|t: Vector2Int| !(#[trigger] self.rooms@[a].tiles().contains(t)
                        && self.rooms@[b].tiles().contains(t)) by {
                        if self.rooms@[a].tiles().contains(t) && self.rooms@[b].tiles().contains(t) {
                            assert(within(old_rooms[a], AREA_BOUND as int));
                            assert(within(old_rooms[b], AREA_BOUND as int));
                            lemma_moved_contains(old_rooms[a], d, t);
                            lemma_moved_contains(old_rooms[b], d, t);
                            assert(disjoint(old_rooms[a].tiles(), old_rooms[b].tiles()));
                        }
                    };
                };
            }
        }
    }

    /// Digs a corridor from a random point of `a` to a random point of `b`.
    pub fn join_rooms(&self, a: &Room, b: &Room) -> (r: Vec<Vector2Int>)
        requires
            usable(*a),
            usable(*b),
        ensures
            exists|pa: Vector2Int, pb: Vector2Int|
                #[trigger] is_corridor(pa, pb, r@) && a.min_corner().x <= pa.x <= a.max_corner().x
                    && a.min_corner().y <= pa.y <= a.max_corner().y && b.min_corner().x <= pb.x
                    <= b.max_corner().x && b.min_corner().y <= pb.y <= b.max_corner().y,
            joins_rooms(r@, *a, *b),
    {
        let pa = a.random_point();
        let pb = b.random_point();
        let r = self.tunneler.connect(pa, pb);
        assert(is_corridor(pa, pb, r@));
        assert(in_box(a.min_corner(), a.max_corner(), pa));
        assert(in_box(b.min_corner(), b.max_corner(), pb));
        proof {
            reveal(joins_rooms);
        }
        r
    }

    /// The pair of rooms, one from each area, whose corners come closest;
    /// the first such pair in order when several tie.
    #[verifier::rlimit(100)]
    fn find_closest_room_pair(&self, other: &Area) -> (r: (usize, usize))
        requires
            self.rooms@.len() >= 1,
            other.rooms@.len() >= 1,
            forall|i: int| 0 <= i < self.rooms@.len() ==> (#[trigger] self.rooms@[i]).wf(),
            forall|i: int| 0 <= i < other.rooms@.len() ==> (#[trigger] other.rooms@[i]).wf(),
        ensures
            r.0 < self.rooms@.len(),
            r.1 < other.rooms@.len(),
            forall|i: int, j: int|
                0 <= i < self.rooms@.len() && 0 <= j < other.rooms@.len() ==> corner_distance(
                    self.rooms@[r.0 as int],
                    other.rooms@[r.1 as int],
                ) <= corner_distance(#[trigger] self.rooms@[i], #[trigger] other.rooms@[j]),
            forall|i: int, j: int|
                0 <= i < self.rooms@.len() && 0 <= j < other.rooms@.len() && (i < r.0 || (i == r.0 && j
                    < r.1)) ==> corner_distance(self.rooms@[r.0 as int], other.rooms@[r.1 as int])
                    < corner_distance(#[trigger] self.rooms@[i], #[trigger] other.rooms@[j]),
    {
        let mut best: (usize, usize) = (0, 0);
        let mut best_d: i64 = room_corner_distance(&self.rooms[0], &other.rooms[0]);
        let mut i: usize = 0;
        while i < self.rooms.len()
            invariant
                i <= self.rooms@.len(),
                best.0 < self.rooms@.len(),
                best.1 < other.rooms@.len(),
                forall|k: int| 0 <= k < self.rooms@.len() ==> (#[trigger] self.rooms@[k]).wf(),
                forall|k: int| 0 <= k < other.rooms@.len() ==> (#[trigger] other.rooms@[k]).wf(),
                best_d == corner_distance(self.rooms@[best.0 as int], other.rooms@[best.1 as int]),
                forall|a: int, b: int|
                    0 <= a < i && 0 <= b < other.rooms@.len() ==> best_d <= corner_distance(
                        #[trigger] self.rooms@[a],
                        #[trigger] other.rooms@[b],
                    ),
                forall|a: int, b: int|
                    0 <= a < self.rooms@.len() && 0 <= b < other.rooms@.len() && (a < best.0 || (a == best.0
                        && b < best.1)) ==> best_d < corner_distance(#[trigger] self.rooms@[a], #[trigger] other.rooms@[b]),
                best.0 <= i,
            decreases self.rooms@.len() - i,
        {
            let mut j: usize = 0;
            while j < other.rooms.len()
                invariant
                    i < self.rooms@.len(),
                    j <= other.rooms@.len(),
                    best.0 < self.rooms@.len(),
                    best.1 < other.rooms@.len(),
                    forall|k: int| 0 <= k < self.rooms@.len() ==> (#[trigger] self.rooms@[k]).wf(),
                    forall|k: int| 0 <= k < other.rooms@.len() ==> (#[trigger] other.rooms@[k]).wf(),
                    best_d == corner_distance(self.rooms@[best.0 as int], other.rooms@[best.1 as int]),
                    forall|a: int, b: int|
                        0 <= a < i && 0 <= b < other.rooms@.len() ==> best_d <= corner_distance(
                            #[trigger] self.rooms@[a],
                            #[trigger] other.rooms@[b],
                        ),
                    forall|b: int|
                        0 <= b < j ==> best_d <= corner_distance(self.rooms@[i as int], #[trigger] other.rooms@[b]),
                    forall|a: int, b: int|
                        0 <= a < self.rooms@.len() && 0 <= b < other.rooms@.len() && (a < best.0 || (a == best.0
                            && b < best.1)) ==> best_d < corner_distance(#[trigger] self.rooms@[a], #[trigger] other.rooms@[b]),
                    best.0 <= i,
                decreases other.rooms@.len() - j,
            {
                let d = room_corner_distance(&self.rooms[i], &other.rooms[j]);
                if d < best_d {
                    best_d = d;
                    best = (i, j);
                }
                j = j + 1;
            }
            i = i + 1;
        }
        best
    }

    /// Digs a corridor from the closest room of this area to the closest
    /// room of `other`, and records it among this area's corridors.
    pub fn join_area(&mut self, other: &Area) -> (r: Vec<Vector2Int>)
        requires
            old(self).rooms@.len() >= 1,
            other.rooms@.len() >= 1,
            forall|i: int| 0 <= i < old(self).rooms@.len() ==> usable(#[trigger] old(self).rooms@[i]),
            forall|i: int| 0 <= i < other.rooms@.len() ==> usable(#[trigger] other.rooms@[i]),
        ensures
            final(self).rooms@ == old(self).rooms@,
            final(self).paths@.len() == old(self).paths@.len() + 1,
            forall|k: int| 0 <= k < old(self).paths@.len() ==> #[trigger] final(self).paths@[k] == old(self).paths@[k],
            final(self).paths@.last()@ == r@,
            final(self).tunneler == old(self).tunneler,
            final(self).room_generator == old(self).room_generator,
            exists|i: int, j: int|
                #![trigger old(self).rooms@[i], other.rooms@[j]]
                0 <= i < old(self).rooms@.len() && 0 <= j < other.rooms@.len() && joins_rooms(
                    r@,
                    old(self).rooms@[i],
                    other.rooms@[j],
                ) && forall|a: int, b: int|
                    0 <= a < old(self).rooms@.len() && 0 <= b < other.rooms@.len() ==> corner_distance(
                        old(self).rooms@[i],
                        other.rooms@[j],
                    ) <= corner_distance(#[trigger] old(self).rooms@[a], #[trigger] other.rooms@[b]),
    {
        let (i, j) = self.find_closest_room_pair(other);
        let path = self.join_rooms(&self.rooms[i], &other.rooms[j]);
        assert(joins_rooms(path@, self.rooms@[i as int], other.rooms@[j as int]));
        let copy = copy_path(&path);
        self.paths.push(copy);
        path
    }

    /// Generates the rooms and digs a corridor for every connection the
    /// generator reports.
    pub fn generate_rooms(&mut self) -> (r: Result<(), GenerationError>)
        requires
            old(self).room_generator.wf(),
        ensures
            final(self).tunneler == old(self).tunneler,
            final(self).room_generator == old(self).room_generator,
            r.is_ok() ==> {
                &&& final(self).rooms@.len() >= 1
                &&& forall|i: int| 0 <= i < final(self).rooms@.len() ==> usable(#[trigger] final(self).rooms@[i])
                &&& final(self).rooms_apart()
                &&& final(self).within(AREA_BOUND as int)
                &&& forall|i: int, j: int|
                    0 <= i < j < final(self).rooms@.len() ==> !(#[trigger] final(self).rooms@[j]).intersects_spec(
                        #[trigger] final(self).rooms@[i],
                        old(self).room_generator.padding(),
                    )
                &&& final(self).connections@.len() == final(self).paths@.len()
                &&& forall|m: int|
                    0 <= m < final(self).connections@.len() ==> (#[trigger] final(self).connections@[m]).0
                        < final(self).connections@[m].1 < final(self).rooms@.len() && joins_rooms(
                        final(self).paths@[m]@,
                        final(self).rooms@[final(self).connections@[m].0 as int],
                        final(self).rooms@[final(self).connections@[m].1 as int],
                    )
                &&& forall|j: int|
                    1 <= j < final(self).rooms@.len() ==> #[trigger] crate::room::reached(final(self).connections@, j)
            },
    {
        let result = match self.room_generator.generate() {
            Ok(res) => res,
            Err(e) => return Err(e),
        };
        let gen = self.room_generator;
        let n = result.rooms.len();
        assert(gen.bound(n as int) <= AREA_BOUND) by (nonlinear_arith)
            requires
                gen.bound(n as int) == 3 * gen.room_size.1 * n,
                gen.room_size.1 <= 1000,
                n <= 1002,
        ;
        self.rooms = result.rooms;
        self.paths = Vec::new();
        let mut k: usize = 0;
        while k < result.connections.len()
            invariant
                self.rooms@ == result.rooms@,
                result.wf(),
                self.tunneler == old(self).tunneler,
                self.room_generator == old(self).room_generator,
                k <= result.connections@.len(),
                self.paths@.len() == k,
                forall|i: int, j: int|
                    0 <= i < j < result.rooms@.len() ==> !(#[trigger] result.rooms@[j]).intersects_spec(
                        #[trigger] result.rooms@[i],
                        old(self).room_generator.padding(),
                    ),
                forall|m: int|
                    0 <= m < k ==> #[trigger] joins_rooms(
                        self.paths@[m]@,
                        self.rooms@[result.connections@[m].0 as int],
                        self.rooms@[result.connections@[m].1 as int],
                    ),
                forall|i: int| 0 <= i < self.rooms@.len() ==> within(#[trigger] self.rooms@[i], AREA_BOUND as int),
                forall|i: int, m: int|
                    0 <= i < self.paths@.len() && 0 <= m < self.paths@[i]@.len() ==> pt_within(
                        #[trigger] self.paths@[i]@[m],
                        AREA_BOUND as int,
                    ),
            decreases result.connections@.len() - k,
        {
            let c = result.connections[k];
            let path = self.join_rooms(&self.rooms[c.0], &self.rooms[c.1]);
            let ghost old_paths = self.paths@;
            proof {
                let ra = self.rooms@[c.0 as int];
                let rb = self.rooms@[c.1 as int];
                let (pa, pb) = choose|pa: Vector2Int, pb: Vector2Int|
                    #[trigger] is_corridor(pa, pb, path@) && ra.min_corner().x <= pa.x <= ra.max_corner().x
                        && ra.min_corner().y <= pa.y <= ra.max_corner().y && rb.min_corner().x <= pb.x
                        <= rb.max_corner().x && rb.min_corner().y <= pb.y <= rb.max_corner().y;
                assert(within(ra, AREA_BOUND as int) && within(rb, AREA_BOUND as int));
                assert forall|m: int| 0 <= m < path@.len() implies pt_within(#[trigger] path@[m], AREA_BOUND as int) by {
                    assert(in_box(pa, pb, path@[m]));
                };
            }
            self.paths.push(path);
            proof {
                assert forall|i: int, m: int|
                    0 <= i < self.paths@.len() && 0 <= m < self.paths@[i]@.len() implies pt_within(
                    #[trigger] self.paths@[i]@[m],
                    AREA_BOUND as int,
                ) by {
                    if i < old_paths.len() {
                        assert(self.paths@[i] == old_paths[i]);
                    }
                };
                assert forall|m: int| 0 <= m < k + 1 implies #[trigger] joins_rooms(
                    self.paths@[m]@,
                    self.rooms@[result.connections@[m].0 as int],
                    self.rooms@[result.connections@[m].1 as int],
                ) by {
                    if m < k {
                        assert(self.paths@[m] == old_paths[m]);
                    }
                };
            }
            k = k + 1;
        }
        self.connections = result.connections;
        Ok(())
    }

    /// Every tile of the area's rooms and corridors, once each.
    pub fn to_tiles(&self) -> (r: Vec<Vector2Int>)
        requires
            forall|i: int| 0 <= i < self.rooms@.len() ==> (#[trigger] self.rooms@[i]).wf(),
        ensures
            r@.to_set() == self.tile_set(),
            r@.no_duplicates(),
    {
        let mut out: Vec<Vector2Int> = Vec::new();
        let mut i: usize = 0;
        while i < self.rooms.len()
            invariant
                i <= self.rooms@.len(),
                forall|k: int| 0 <= k < self.rooms@.len() ==> (#[trigger] self.rooms@[k]).wf(),
                out@.no_duplicates(),
                forall|p: Vector2Int|
                    out@.to_set().contains(p) == exists|k: int|
                        0 <= k < i && (#[trigger] self.rooms@[k]).tiles().contains(p),
            decreases self.rooms@.len() - i,
        {
            let tiles = self.rooms[i].to_tiles();
            let ghost before = out@;
            add_all(&mut out, &tiles);
            proof {
                assert forall|p: Vector2Int|
                    out@.to_set().contains(p) == exists|k: int|
                        0 <= k < i + 1 && (#[trigger] self.rooms@[k]).tiles().contains(p) by {
                    if self.rooms@[i as int].tiles().contains(p) {
                        assert(tiles@.to_set().contains(p));
                    }
                    if exists|k: int| 0 <= k < i + 1 && (#[trigger] self.rooms@[k]).tiles().contains(p) {
                        let k = choose|k: int| 0 <= k < i + 1 && (#[trigger] self.rooms@[k]).tiles().contains(p);
                        if k < i {
                            assert(before.to_set().contains(p));
                        }
                    }
                };
            }
            i = i + 1;
        }
        let mut j: usize = 0;
        while j < self.paths.len()
            invariant
                j <= self.paths@.len(),
                out@.no_duplicates(),
                forall|p: Vector2Int|
                    out@.to_set().contains(p) == ((exists|k: int|
                        0 <= k < self.rooms@.len() && (#[trigger] self.rooms@[k]).tiles().contains(p))
                        || exists|k: int| 0 <= k < j && (#[trigger] self.paths@[k])@.contains(p)),
            decreases self.paths@.len() - j,
        {
            let ghost before = out@;
            add_all(&mut out, &self.paths[j]);
            proof {
                assert forall|p: Vector2Int|
                    out@.to_set().contains(p) == ((exists|k: int|
                        0 <= k < self.rooms@.len() && (#[trigger] self.rooms@[k]).tiles().contains(p))
                        || exists|k: int| 0 <= k < j + 1 && (#[trigger] self.paths@[k])@.contains(p)) by {
                    if exists|k: int| 0 <= k < j + 1 && (#[trigger] self.paths@[k])@.contains(p) {
                        let k = choose|k: int| 0 <= k < j + 1 && (#[trigger] self.paths@[k])@.contains(p);
                        if k < j {
                            assert(before.to_set().contains(p));
                        } else {
                            assert(self.paths@[j as int]@.to_set().contains(p));
                        }
                    }
                    if self.paths@[j as int]@.contains(p) {
                        assert(self.paths@[j as int]@.to_set().contains(p));
                    }
                };
            }
            j = j + 1;
        }
        assert(out@.to_set() =~= self.tile_set());
        out
    }
}

/// Appends the points of `more` that `out` does not hold yet.
pub fn add_all(out: &mut Vec<Vector2Int>, more: &Vec<Vector2Int>)
    requires
        old(out)@.no_duplicates(),
    ensures
        final(out)@.no_duplicates(),
        final(out)@.to_set() == old(out)@.to_set().union(more@.to_set()),
{
    let ghost start = out@;
    let mut i: usize = 0;
    while i < more.len()
        invariant
            i <= more@.len(),
            out@.no_duplicates(),
            out@.to_set() == start.to_set().union(more@.subrange(0, i as int).to_set()),
        decreases more@.len() - i,
    {
        let p = more[i];
        let ghost before = out@;
        if !contains_point(out.as_slice(), p) {
            out.push(p);
            proof {
                lemma_push_to_set(before, p);
                assert forall|k: int| 0 <= k < before.len() implies before[k] != p by {
                    assert(before.contains(before[k]));
                };
            }
        }
        proof {
            lemma_push_to_set(more@.subrange(0, i as int), p);
            assert(more@.subrange(0, i + 1) =~= more@.subrange(0, i as int).push(p));
            if before.contains(p) {
                assert(before.to_set().contains(p));
            }
        }
        assert(out@.to_set() =~= start.to_set().union(more@.subrange(0, i + 1).to_set()));
        i = i + 1;
    }
    assert(more@.subrange(0, more@.len() as int) =~= more@);
}

fn copy_path(p: &Vec<Vector2Int>) -> (r: Vec<Vector2Int>)
    ensures
        r@ == p@,
{
    let mut r: Vec<Vector2Int> = Vec::new();
    let mut i: usize = 0;
    while i < p.len()
        invariant
            i <= p@.len(),
            r@ == p@.subrange(0, i as int),
        decreases p@.len() - i,
    {
        r.push(p[i]);
        assert(r@ =~= p@.subrange(0, i + 1));
        i = i + 1;
    }
    assert(r@ =~= p@);
    r
}

fn manhattan_wide(p: Vector2Int, q: Vector2Int) -> (r: i64)
    ensures
        r == manhattan_spec(p, q),
{
    let dx: i64 = if p.x as i64 >= q.x as i64 { p.x as i64 - q.x as i64 } else { q.x as i64 - p.x as i64 };
    let dy: i64 = if p.y as i64 >= q.y as i64 { p.y as i64 - q.y as i64 } else { q.y as i64 - p.y as i64 };
    dx + dy
}

fn min2(a: i64, b: i64) -> (r: i64)
    ensures
        r == min_i(a as int, b as int),
{
    if a <= b {
        a
    } else {
        b
    }
}

fn row_min(p: Vector2Int, cb: &[Vector2Int; 4]) -> (r: i64)
    ensures
        r == min_row(p, cb@),
{
    min2(
        min2(manhattan_wide(p, cb[0]), manhattan_wide(p, cb[1])),
        min2(manhattan_wide(p, cb[2]), manhattan_wide(p, cb[3])),
    )
}

/// The corner distance of two rooms, in a wider integer type.
fn room_corner_distance(a: &Room, b: &Room) -> (r: i64)
    requires
        a.wf(),
        b.wf(),
    ensures
        r == corner_distance(*a, *b),
{
    let ca = a.corners();
    let cb = b.corners();
    min2(min2(row_min(ca[0], &cb), row_min(ca[1], &cb)), min2(row_min(ca[2], &cb), row_min(ca[3], &cb)))
}

/// Moving every room by `d` moves the box around them by `d`.
pub proof fn lemma_bounds_moved(rooms: Seq<Room>, moved_rooms: Seq<Room>, d: Vector2Int)
    requires
        rooms.len() >= 1,
        moved_rooms.len() == rooms.len(),
        -LAYOUT_BOUND - AREA_BOUND <= d.x <= LAYOUT_BOUND + AREA_BOUND,
        -LAYOUT_BOUND - AREA_BOUND <= d.y <= LAYOUT_BOUND + AREA_BOUND,
        forall|i: int| 0 <= i < rooms.len() ==> (#[trigger] rooms[i]).wf() && within(rooms[i], AREA_BOUND as int),
        forall|i: int| 0 <= i < rooms.len() ==> #[trigger] moved_rooms[i] == moved(rooms[i], d),
    ensures
        bounds_spec(moved_rooms) == (
            bounds_spec(rooms).0 + d.x,
            bounds_spec(rooms).1 + d.y,
            bounds_spec(rooms).2 + d.x,
            bounds_spec(rooms).3 + d.y,
        ),
    decreases rooms.len(),
{
    if rooms.len() > 1 {
        let a = rooms.drop_last();
        let b = moved_rooms.drop_last();
        assert forall|i: int| 0 <= i < a.len() implies (#[trigger] a[i]).wf() && within(a[i], AREA_BOUND as int) by {
            assert(a[i] == rooms[i]);
        };
        assert forall|i: int| 0 <= i < a.len() implies #[trigger] b[i] == moved(a[i], d) by {
            assert(a[i] == rooms[i] && b[i] == moved_rooms[i]);
        };
        lemma_bounds_moved(a, b, d);
        let last = rooms.last();
        assert(moved_rooms.last() == moved(last, d));
        assert(last.wf() && within(last, AREA_BOUND as int));
    } else {
        assert(moved_rooms[0] == moved(rooms[0], d));
        assert(rooms[0].wf() && within(rooms[0], AREA_BOUND as int));
    }
}

/// Every room lies inside the box of all rooms, and the box within the bound.
pub proof fn lemma_bounds_within(rooms: Seq<Room>, bound: int)
    requires
        rooms.len() >= 1,
        forall|i: int| 0 <= i < rooms.len() ==> within(#[trigger] rooms[i], bound),
    ensures
        -bound <= bounds_spec(rooms).0 && bounds_spec(rooms).2 <= bound,
        -bound <= bounds_spec(rooms).1 && bounds_spec(rooms).3 <= bound,
        forall|i: int|
            0 <= i < rooms.len() ==> bounds_spec(rooms).0 <= (#[trigger] rooms[i]).min_corner().x
                && bounds_spec(rooms).1 <= rooms[i].min_corner().y && rooms[i].max_corner().x
                <= bounds_spec(rooms).2 && rooms[i].max_corner().y <= bounds_spec(rooms).3,
    decreases rooms.len(),
{
    if rooms.len() > 1 {
        let d = rooms.drop_last();
        assert forall|i: int| 0 <= i < d.len() implies within(#[trigger] d[i], bound) by {
            assert(d[i] == rooms[i]);
        };
        lemma_bounds_within(d, bound);
        assert forall|i: int| 0 <= i < rooms.len() - 1 implies bounds_spec(d).0 <= (
        #[trigger] rooms[i]).min_corner().x by {
            assert(d[i] == rooms[i]);
        };
        assert forall|i: int| 0 <= i < rooms.len() - 1 implies bounds_spec(d).1 <= (
        #[trigger] rooms[i]).min_corner().y && rooms[i].max_corner().x <= bounds_spec(d).2
            && rooms[i].max_corner().y <= bounds_spec(d).3 by {
            assert(d[i] == rooms[i]);
        };
    }
}

} // verus!

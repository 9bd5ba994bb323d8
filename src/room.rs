use vstd::prelude::*;

use crate::random::{random_range, random_ratio};
use crate::vectors::{
    contains_point, disk_set, dist_sq, lemma_push_to_set, sorted_lex, vec_of, Vector2Int,
};

verus! {

/// Coordinates of rooms stay within this bound in absolute value.
pub const COORD_LIMIT: i32 = 1_000_000_000;

/// Placements tried for one room before generation gives up.
pub const MAX_PLACEMENT_ATTEMPTS: u32 = 10_000;

/// An axis-aligned rectangle of tiles with corners `a` (minimum) and `b` (maximum).
#[derive(Clone, Copy, Debug, PartialEq, Eq, Structural)]
pub struct SquareRoom {
    pub a: Vector2Int,
    pub b: Vector2Int,
}

/// The tiles within `radius` of `center`.
#[derive(Clone, Copy, Debug, PartialEq, Eq, Structural)]
pub struct CircleRoom {
    pub radius: i32,
    pub center: Vector2Int,
}

#[derive(Clone, Copy, Debug, PartialEq, Eq, Structural)]
pub enum Room {
    Square(SquareRoom),
    Circle(CircleRoom),
}

pub open spec fn in_limit(v: int) -> bool {
    -COORD_LIMIT <= v <= COORD_LIMIT
}

pub open spec fn rect_set(lo: Vector2Int, hi: Vector2Int) -> Set<Vector2Int> {
    Set::new(|p: Vector2Int| lo.x <= p.x <= hi.x && lo.y <= p.y <= hi.y)
}

/// Rounds half of `s` towards zero, as integer division does.
pub open spec fn trunc_half(s: int) -> int {
    if s >= 0 {
        s / 2
    } else {
        -((-s) / 2)
    }
}

impl SquareRoom {
    pub fn new(a: Vector2Int, b: Vector2Int) -> (r: SquareRoom)
        ensures
            r.a.x == if a.x <= b.x { a.x } else { b.x },
            r.a.y == if a.y <= b.y { a.y } else { b.y },
            r.b.x == if a.x <= b.x { b.x } else { a.x },
            r.b.y == if a.y <= b.y { b.y } else { a.y },
    {
        SquareRoom {
            a: Vector2Int::new(if a.x <= b.x { a.x } else { b.x }, if a.y <= b.y { a.y } else { b.y }),
            b: Vector2Int::new(if a.x <= b.x { b.x } else { a.x }, if a.y <= b.y { b.y } else { a.y }),
        }
    }
}

impl CircleRoom {
    pub fn new(center: Vector2Int, radius: i32) -> (r: CircleRoom)
        ensures
            r.center == center,
            r.radius == radius,
    {
        CircleRoom { center, radius }
    }
}

/// The square room spanned by two opposite corners.
pub open spec fn square_between(a: Vector2Int, b: Vector2Int) -> Room {
    Room::Square(
        SquareRoom {
            a: Vector2Int { x: if a.x <= b.x { a.x } else { b.x }, y: if a.y <= b.y { a.y } else { b.y } },
            b: Vector2Int { x: if a.x <= b.x { b.x } else { a.x }, y: if a.y <= b.y { b.y } else { a.y } },
        },
    )
}

/// The room moved by `d`.
pub open spec fn moved(r: Room, d: Vector2Int) -> Room {
    match r {
        Room::Square(s) => Room::Square(
            SquareRoom { a: vec_of(s.a.x + d.x, s.a.y + d.y), b: vec_of(s.b.x + d.x, s.b.y + d.y) },
        ),
        Room::Circle(c) => Room::Circle(
            CircleRoom { radius: c.radius, center: vec_of(c.center.x + d.x, c.center.y + d.y) },
        ),
    }
}

/// A tile of a moved room comes from a tile of the room.
pub proof fn lemma_moved_contains(r: Room, d: Vector2Int, t: Vector2Int)
    requires
        r.wf(),
        moved(r, d).wf(),
        in_limit(r.min_corner().x + d.x),
        in_limit(r.max_corner().x + d.x),
        in_limit(r.min_corner().y + d.y),
        in_limit(r.max_corner().y + d.y),
        moved(r, d).tiles().contains(t),
    ensures
        r.tiles().contains(vec_of(t.x - d.x, t.y - d.y)),
{
    if let Room::Circle(c) = r {
        let m = moved(r, d);
        if let Room::Circle(mc) = m {
            crate::vectors::lemma_in_box_pub(mc.center, mc.radius as int, t);
        }
    }
}

impl Room {
    /// Corners in order and coordinates within the bound.
    pub open spec fn wf(&self) -> bool {
        match *self {
            Room::Square(s) => s.a.x <= s.b.x && s.a.y <= s.b.y && in_limit(s.a.x as int) && in_limit(
                s.b.x as int,
            ) && in_limit(s.a.y as int) && in_limit(s.b.y as int),
            Room::Circle(c) => 0 <= c.radius && in_limit(c.center.x - c.radius) && in_limit(
                c.center.x + c.radius,
            ) && in_limit(c.center.y - c.radius) && in_limit(c.center.y + c.radius),
        }
    }

    pub open spec fn min_corner(&self) -> Vector2Int {
        match *self {
            Room::Square(s) => s.a,
            Room::Circle(c) => vec_of(c.center.x - c.radius, c.center.y - c.radius),
        }
    }

    pub open spec fn max_corner(&self) -> Vector2Int {
        match *self {
            Room::Square(s) => s.b,
            Room::Circle(c) => vec_of(c.center.x + c.radius, c.center.y + c.radius),
        }
    }

    pub open spec fn tiles(&self) -> Set<Vector2Int> {
        match *self {
            Room::Square(s) => rect_set(s.a, s.b),
            Room::Circle(c) => disk_set(c.center, c.radius as int),
        }
    }

    pub open spec fn centre_spec(&self) -> Vector2Int {
        match *self {
            Room::Square(s) => vec_of(trunc_half(s.a.x + s.b.x), trunc_half(s.a.y + s.b.y)),
            Room::Circle(c) => c.center,
        }
    }

    /// Whether `other`'s tiles come within `border` of this room: for a
    /// square, inside the square grown by `border`; for a circle, within
    /// `radius + border` of its centre, where the other room's centre counts too.
    pub open spec fn intersects_spec(&self, other: Room, border: int) -> bool {
        match *self {
            Room::Square(s) => exists|t: Vector2Int|
                #[trigger] other.tiles().contains(t) && s.a.x - border <= t.x <= s.b.x + border
                    && s.a.y - border <= t.y <= s.b.y + border,
            Room::Circle(c) => dist_sq(other.centre_spec(), c.center) <= (c.radius + border) * (
            c.radius + border) || exists|t: Vector2Int|
                #[trigger] other.tiles().contains(t) && dist_sq(t, c.center) <= (c.radius + border)
                    * (c.radius + border),
        }
    }

    pub fn new(a: Vector2Int, b: Vector2Int) -> (r: Room)
        ensures
            r == square_between(a, b),
    {
        Room::Square(SquareRoom::new(a, b))
    }

    pub fn centre(&self) -> (r: Vector2Int)
        requires
            self.wf(),
        ensures
            r == self.centre_spec(),
            self.min_corner().x <= r.x <= self.max_corner().x,
            self.min_corner().y <= r.y <= self.max_corner().y,
    {
        match self {
            Room::Square(s) => {
                let sx: i64 = s.a.x as i64 + s.b.x as i64;
                let sy: i64 = s.a.y as i64 + s.b.y as i64;
                let cx: i64 = if sx >= 0 { sx / 2 } else { -((-sx) / 2) };
                let cy: i64 = if sy >= 0 { sy / 2 } else { -((-sy) / 2) };
                Vector2Int::new(cx as i32, cy as i32)
            },
            Room::Circle(c) => c.center,
        }
    }

    /// The four corners of the bounding square, counter-clockwise from the
    /// minimum corner.
    pub fn corners(&self) -> (r: [Vector2Int; 4])
        requires
            self.wf(),
        ensures
            r@ == seq![
                self.min_corner(),
                vec_of(self.max_corner().x as int, self.min_corner().y as int),
                self.max_corner(),
                vec_of(self.min_corner().x as int, self.max_corner().y as int),
            ],
    {
        let (lo, hi) = match self {
            Room::Square(s) => (s.a, s.b),
            Room::Circle(c) => (
                Vector2Int::new(c.center.x - c.radius, c.center.y - c.radius),
                Vector2Int::new(c.center.x + c.radius, c.center.y + c.radius),
            ),
        };
        let r = [lo, Vector2Int::new(hi.x, lo.y), hi, Vector2Int::new(lo.x, hi.y)];
        assert(r@ =~= seq![lo, vec_of(hi.x as int, lo.y as int), hi, vec_of(lo.x as int, hi.y as int)]);
        r
    }

    /// Every tile of the room, once each.
    pub fn to_tiles(&self) -> (r: Vec<Vector2Int>)
        requires
            self.wf(),
        ensures
            r@.to_set() == self.tiles(),
            r@.no_duplicates(),
    {
        match self {
            Room::Square(s) => rect_tiles(s.a, s.b),
            Room::Circle(c) => c.center.circle_area(c.radius),
        }
    }

    /// Moves the room by `offset`.
    pub fn shift(&mut self, offset: Vector2Int)
        requires
            old(self).wf(),
            in_limit(old(self).min_corner().x + offset.x),
            in_limit(old(self).max_corner().x + offset.x),
            in_limit(old(self).min_corner().y + offset.y),
            in_limit(old(self).max_corner().y + offset.y),
        ensures
            final(self).wf(),
            *final(self) == moved(*old(self), offset),
            final(self).tiles() == old(self).tiles().map(
                |p: Vector2Int| vec_of(p.x + offset.x, p.y + offset.y),
            ),
            final(self).min_corner() == vec_of(
                old(self).min_corner().x + offset.x,
                old(self).min_corner().y + offset.y,
            ),
            final(self).max_corner() == vec_of(
                old(self).max_corner().x + offset.x,
                old(self).max_corner().y + offset.y,
            ),
    {
        let ghost pre = *self;
        match self {
            Room::Square(s) => {
                s.a = Vector2Int::new(s.a.x + offset.x, s.a.y + offset.y);
                s.b = Vector2Int::new(s.b.x + offset.x, s.b.y + offset.y);
            },
            Room::Circle(c) => {
                c.center = Vector2Int::new(c.center.x + offset.x, c.center.y + offset.y);
            },
        }
        proof {
            let f = |p: Vector2Int| vec_of(p.x + offset.x, p.y + offset.y);
            assert forall|q: Vector2Int| self.tiles().contains(q) implies pre.tiles().map(f).contains(
                q,
            ) by {
                let p = vec_of(q.x - offset.x, q.y - offset.y);
                if let Room::Circle(c) = pre {
                    crate::vectors::lemma_in_box_pub(self.centre_spec(), c.radius as int, q);
                }
                assert(f(p) == q);
                assert(pre.tiles().contains(p));
            };
            assert forall|q: Vector2Int| pre.tiles().map(f).contains(q) implies self.tiles().contains(
                q,
            ) by {
                let p = choose|p: Vector2Int| pre.tiles().contains(p) && f(p) == q;
                if let Room::Circle(c) = pre {
                    crate::vectors::lemma_in_box_pub(c.center, c.radius as int, p);
                }
            };
            assert(self.tiles() =~= pre.tiles().map(f));
        }
    }

    /// Whether the other room comes within `border` tiles of this one; see
    /// `intersects_spec`.
    pub fn intersects(&self, other: &Room, border: Option<u32>) -> (r: bool)
        requires
            self.wf(),
            other.wf(),
        ensures
            r == self.intersects_spec(*other, match border {
                Some(b) => b as int,
                None => 0,
            }),
    {
        let bd: i64 = match border {
            Some(b) => b as i64,
            None => 0,
        };
        let ghost bi = bd as int;
        let other_tiles = other.to_tiles();
        let ghost ts = other_tiles@;
        match self {
            Room::Square(s) => {
                let mut i: usize = 0;
                while i < other_tiles.len()
                    invariant
                        i <= ts.len(),
                        ts == other_tiles@,
                        ts.to_set() == other.tiles(),
                        0 <= bd <= 0xFFFF_FFFF,
                        bi == bd,
                        bi == match border {
                            Some(b) => b as int,
                            None => 0,
                        },
                        *self == Room::Square(*s),
                        in_limit(s.a.x as int) && in_limit(s.b.x as int) && in_limit(s.a.y as int)
                            && in_limit(s.b.y as int),
                        forall|j: int|
                            0 <= j < i ==> !(s.a.x - bi <= (#[trigger] ts[j]).x <= s.b.x + bi && s.a.y - bi
                                <= ts[j].y <= s.b.y + bi),
                    decreases ts.len() - i,
                {
                    let t = other_tiles[i];
                    if s.a.x as i64 - bd <= t.x as i64 && t.x as i64 <= s.b.x as i64 + bd && s.a.y as i64
                        - bd <= t.y as i64 && t.y as i64 <= s.b.y as i64 + bd {
                        assert(ts.to_set().contains(t));
                        return true;
                    }
                    i = i + 1;
                }
                proof {
                    assert forall|t: Vector2Int|
                        #[trigger] other.tiles().contains(t) implies !(s.a.x - bi <= t.x <= s.b.x + bi
                            && s.a.y - bi <= t.y <= s.b.y + bi) by {
                        assert(ts.to_set().contains(t));
                        let j = choose|j: int| 0 <= j < ts.len() && ts[j] == t;
                    };
                }
                false
            },
            Room::Circle(c) => {
                let reach: i128 = c.radius as i128 + bd as i128;
                let ghost ri = reach as int;
                assert(0 <= reach * reach <= 0x1_0000_0000_0000_0000_0000) by (nonlinear_arith)
                    requires
                        0 <= reach <= 0x1_0000_0000 + COORD_LIMIT,
                ;
                let oc = other.centre();
                if dist_sq_exec(oc, c.center) <= reach * reach {
                    return true;
                }
                let mut i: usize = 0;
                while i < other_tiles.len()
                    invariant
                        i <= ts.len(),
                        ts == other_tiles@,
                        ts.to_set() == other.tiles(),
                        ri == c.radius + bi,
                        reach == ri,
                        bi == match border {
                            Some(b) => b as int,
                            None => 0,
                        },
                        *self == Room::Circle(*c),
                        0 <= reach * reach <= 0x1_0000_0000_0000_0000_0000,
                        forall|j: int| 0 <= j < i ==> !(dist_sq(#[trigger] ts[j], c.center) <= ri * ri),
                    decreases ts.len() - i,
                {
                    let t = other_tiles[i];
                    if dist_sq_exec(t, c.center) <= reach * reach {
                        assert(ts.to_set().contains(t));
                        assert(other.tiles().contains(t));
                        assert(dist_sq(t, c.center) <= ri * ri);
                        assert(bi == match border {
                            Some(b) => b as int,
                            None => 0,
                        });
                        assert(self.intersects_spec(*other, bi));
                        return true;
                    }
                    i = i + 1;
                }
                proof {
                    assert forall|t: Vector2Int|
                        #[trigger] other.tiles().contains(t) implies !(dist_sq(t, c.center) <= ri * ri) by {
                        assert(ts.to_set().contains(t));
                        let j = choose|j: int| 0 <= j < ts.len() && ts[j] == t;
                    };
                }
                false
            },
        }
    }

    /// A random tile of the room; in a square room one off its edge.
    pub fn random_point(&self) -> (r: Vector2Int)
        requires
            self.wf(),
            self matches Room::Square(s) ==> s.b.x - s.a.x >= 2 && s.b.y - s.a.y >= 2,
        ensures
            self.tiles().contains(r),
            self.min_corner().x <= r.x <= self.max_corner().x,
            self.min_corner().y <= r.y <= self.max_corner().y,
            self matches Room::Square(s) ==> s.a.x < r.x < s.b.x && s.a.y < r.y < s.b.y,
    {
        match self {
            Room::Square(s) => {
                let x = random_range(s.a.x + 1, s.b.x);
                let y = random_range(s.a.y + 1, s.b.y);
                Vector2Int::new(x, y)
            },
            Room::Circle(c) => {
                let x = random_range(c.center.x - c.radius, c.center.x + c.radius + 1);
                let dx: i64 = x as i64 - c.center.x as i64;
                assert(0 <= c.radius * c.radius <= 0x4000_0000_0000_0000) by (nonlinear_arith)
                    requires
                        0 <= c.radius <= COORD_LIMIT,
                ;
                let r2: i64 = c.radius as i64 * c.radius as i64;
                assert(0 <= dx * dx <= r2 <= 0x4000_0000_0000_0000) by (nonlinear_arith)
                    requires
                        -c.radius <= dx <= c.radius,
                        0 <= c.radius <= COORD_LIMIT,
                        r2 == c.radius * c.radius,
                ;
                let h = floor_sqrt(r2 - dx * dx);
                assert(h <= c.radius) by (nonlinear_arith)
                    requires
                        0 <= h,
                        h * h <= r2 - dx * dx,
                        r2 == c.radius * c.radius,
                        0 <= c.radius,
                ;
                let y = random_range((c.center.y as i64 - h) as i32, (c.center.y as i64 + h + 1) as i32);
                let p = Vector2Int::new(x, y);
                proof {
                    let dy = y - c.center.y;
                    assert(dy * dy <= h * h) by (nonlinear_arith)
                        requires
                            -h <= dy <= h,
                            0 <= h,
                    ;
                    assert(dist_sq(p, c.center) == dx * dx + dy * dy);
                    assert(self.tiles().contains(p));
                    crate::vectors::lemma_in_box_pub(c.center, c.radius as int, p);
                }
                p
            },
        }
    }
}

/// The square root of `n`, rounded down.
fn floor_sqrt(n: i64) -> (r: i64)
    requires
        0 <= n <= 0x4000_0000_0000_0000,
    ensures
        0 <= r,
        r * r <= n < (r + 1) * (r + 1),
{
    let mut lo: i128 = 0;
    let mut hi: i128 = 0x8000_0001;
    assert(hi * hi > 0x4000_0000_0000_0000) by (nonlinear_arith)
        requires
            hi == 0x8000_0001,
    ;
    while hi - lo > 1
        invariant
            0 <= lo < hi <= 0x8000_0001,
            lo * lo <= n < hi * hi,
        decreases hi - lo,
    {
        let mid: i128 = lo + (hi - lo) / 2;
        assert(0 <= mid * mid <= 0x4000_0001_0000_0001) by (nonlinear_arith)
            requires
                0 <= mid <= 0x8000_0001,
        ;
        if mid * mid <= n as i128 {
            lo = mid;
        } else {
            hi = mid;
        }
    }
    assert(hi == lo + 1);
    lo as i64
}

fn dist_sq_exec(a: Vector2Int, b: Vector2Int) -> (r: i128)
    ensures
        r == dist_sq(a, b),
{
    let dx: i128 = a.x as i128 - b.x as i128;
    let dy: i128 = a.y as i128 - b.y as i128;
    assert(0 <= dx * dx < 0x1_0000_0000_0000_0000) by (nonlinear_arith)
        requires
            -0x1_0000_0000 < dx < 0x1_0000_0000,
    ;
    assert(0 <= dy * dy < 0x1_0000_0000_0000_0000) by (nonlinear_arith)
        requires
            -0x1_0000_0000 < dy < 0x1_0000_0000,
    ;
    dx * dx + dy * dy
}

/// The tiles of the rectangle from `lo` to `hi`, column by column.
fn rect_tiles(lo: Vector2Int, hi: Vector2Int) -> (r: Vec<Vector2Int>)
    requires
        lo.x <= hi.x,
        lo.y <= hi.y,
    ensures
        r@.to_set() == rect_set(lo, hi),
        r@.no_duplicates(),
        sorted_lex(r@),
{
    let mut tiles: Vec<Vector2Int> = Vec::new();
    let ghost rs = rect_set(lo, hi);
    let mut x: i64 = lo.x as i64;
    while x <= hi.x as i64
        invariant
            lo.x <= x <= hi.x + 1,
            lo.y <= hi.y,
            rs == rect_set(lo, hi),
            tiles@.no_duplicates(),
            sorted_lex(tiles@),
            forall|i: int| 0 <= i < tiles@.len() ==> tiles@[i].x < x,
            tiles@.to_set() =~= rs.filter(|p: Vector2Int| p.x < x),
        decreases hi.x + 1 - x,
    {
        let mut y: i64 = lo.y as i64;
        assert(rs.filter(|p: Vector2Int| p.x < x) =~= rs.filter(
            |p: Vector2Int| p.x < x || (p.x == x && p.y < y),
        ));
        while y <= hi.y as i64
            invariant
                lo.x <= x <= hi.x,
                lo.y <= y <= hi.y + 1,
                rs == rect_set(lo, hi),
                tiles@.no_duplicates(),
                sorted_lex(tiles@),
                forall|i: int|
                    0 <= i < tiles@.len() ==> tiles@[i].x < x || (tiles@[i].x == x && tiles@[i].y < y),
                tiles@.to_set() =~= rs.filter(|p: Vector2Int| p.x < x || (p.x == x && p.y < y)),
            decreases hi.y + 1 - y,
        {
            let p = Vector2Int::new(x as i32, y as i32);
            let ghost old_tiles = tiles@;
            tiles.push(p);
            assert forall|i: int| 0 <= i < tiles@.len() - 1 implies crate::vectors::lex_lt(
                tiles@[i],
                p,
            ) by {
                assert(old_tiles[i] == tiles@[i]);
            };
            proof {
                lemma_push_to_set(old_tiles, p);
            }
            assert forall|q: Vector2Int|
                tiles@.to_set().contains(q) == (rs.contains(q) && (q.x < x || (q.x == x && q.y < y
                    + 1))) by {
                if q != p {
                    assert(tiles@.to_set().contains(q) == old_tiles.to_set().contains(q));
                }
            };
            assert(tiles@.to_set() =~= rs.filter(
                |q: Vector2Int| q.x < x || (q.x == x && q.y < y + 1),
            ));
            y = y + 1;
        }
        assert forall|q: Vector2Int| tiles@.to_set().contains(q) == (rs.contains(q) && q.x < x + 1) by {
            assert(tiles@.to_set().contains(q) == (rs.contains(q) && (q.x < x || (q.x == x && q.y
                < y))));
        };
        assert(tiles@.to_set() =~= rs.filter(|p: Vector2Int| p.x < x + 1));
        x = x + 1;
    }
    assert forall|q: Vector2Int| tiles@.to_set().contains(q) == rs.contains(q) by {
        assert(tiles@.to_set().contains(q) == (rs.contains(q) && q.x < x));
    };
    assert(tiles@.to_set() =~= rs);
    tiles
}

} // verus!

verus! {

/// A room that generation may hand out: well formed, and a square one is at
/// least two tiles across so that it has an inner point.
pub open spec fn usable(r: Room) -> bool {
    r.wf() && (r matches Room::Square(s) ==> s.b.x - s.a.x >= 2 && s.b.y - s.a.y >= 2)
}

/// Rooms whose corners lie within `bound` of the origin.
pub open spec fn within(r: Room, bound: int) -> bool {
    -bound <= r.min_corner().x && r.max_corner().x <= bound && -bound <= r.min_corner().y
        && r.max_corner().y <= bound
}

pub open spec fn disjoint(a: Set<Vector2Int>, b: Set<Vector2Int>) -> bool {
    forall|t: Vector2Int| !(#[trigger] a.contains(t) && b.contains(t))
}

/// A room that keeps `border` tiles away from another shares no tile with it.
pub proof fn lemma_apart_disjoint(r: Room, other: Room, border: int)
    requires
        r.wf(),
        0 <= border,
        !r.intersects_spec(other, border),
    ensures
        disjoint(r.tiles(), other.tiles()),
{
    assert forall|t: Vector2Int| !(#[trigger] r.tiles().contains(t) && other.tiles().contains(t)) by {
        if r.tiles().contains(t) && other.tiles().contains(t) {
            match r {
                Room::Square(s) => {
                    assert(s.a.x - border <= t.x <= s.b.x + border && s.a.y - border <= t.y <= s.b.y
                        + border);
                },
                Room::Circle(c) => {
                    let rr = c.radius as int;
                    assert(rr * rr <= (rr + border) * (rr + border)) by (nonlinear_arith)
                        requires
                            0 <= rr,
                            0 <= border,
                    ;
                    assert(dist_sq(t, c.center) <= (rr + border) * (rr + border));
                },
            }
        }
    };
}

/// Some connection leads to room `j`.
pub open spec fn reached(conns: Seq<(usize, usize)>, j: int) -> bool {
    exists|k: int| 0 <= k < conns.len() && (#[trigger] conns[k]).1 == j
}

#[derive(Clone, Copy, Debug, PartialEq, Eq, Structural)]
pub enum GenerationError {
    /// A room could not be placed clear of the others within the attempt cap.
    PlacementFailed,
}

/// The rooms of an area and the pairs of room indices to tunnel between.
pub struct GeneratorResult {
    pub rooms: Vec<Room>,
    pub connections: Vec<(usize, usize)>,
}

/// Grows rooms outwards from a first one, each new room placed near an
/// existing one and kept clear of all others.
#[derive(Clone, Copy, Debug)]
pub struct BubbleGenerator {
    /// Bounds of the random number of rooms placed after the first two.
    pub room_count: (u32, u32),
    /// Bounds of room sizes.
    pub room_size: (u32, u32),
    /// Minimum gap between rooms.
    pub room_padding: Option<u32>,
    /// Chance, as numerator and denominator, of one extra connection per room.
    pub extra_connection_chance: (u32, u32),
}

impl GeneratorResult {
    /// Rooms are usable and pairwise without common tiles, every room but
    /// the first is connected to an earlier one, and each connection joins
    /// an earlier room to a later one.
    pub open spec fn wf(&self) -> bool {
        &&& self.rooms@.len() >= 1
        &&& forall|i: int| 0 <= i < self.rooms@.len() ==> usable(#[trigger] self.rooms@[i])
        &&& forall|i: int, j: int|
            0 <= i < j < self.rooms@.len() ==> disjoint(
                (#[trigger] self.rooms@[i]).tiles(),
                (#[trigger] self.rooms@[j]).tiles(),
            )
        &&& forall|k: int|
            0 <= k < self.connections@.len() ==> (#[trigger] self.connections@[k]).0
                < self.connections@[k].1 < self.rooms@.len()
        &&& forall|j: int| 1 <= j < self.rooms@.len() ==> #[trigger] reached(self.connections@, j)
    }
}

impl BubbleGenerator {
    /// A configuration generation accepts. Square rooms need two tiles across
    /// for an inner point; the caps on sizes and counts keep a thousand rooms
    /// of a thousand tiles, grown from the origin, within `AREA_BOUND`, so that
    /// all coordinate arithmetic stays inside `i32`.
    pub open spec fn wf(&self) -> bool {
        &&& 2 <= self.room_size.0 <= self.room_size.1 <= 1000
        &&& self.room_count.0 <= self.room_count.1 <= 1000
        &&& 0 < self.extra_connection_chance.1
        &&& self.extra_connection_chance.0 <= self.extra_connection_chance.1
    }

    pub open spec fn bound(&self, n: int) -> int {
        3 * self.room_size.1 * n
    }

    fn random_dim(&self) -> (r: (i32, i32))
        requires
            self.wf(),
        ensures
            self.room_size.0 <= r.0 <= self.room_size.1,
            self.room_size.0 <= r.1 <= self.room_size.1,
    {
        let lo = self.room_size.0 as i32;
        let hi = self.room_size.1 as i32 + 1;
        (random_range(lo, hi), random_range(lo, hi))
    }

    /// A square room with the given corners, or a circle centred on
    /// `min_corner` with a random radius, each with even chance.
    fn generate_room(&self, min_corner: Vector2Int, max_corner: Vector2Int) -> (r: Room)
        requires
            self.wf(),
            in_limit(min_corner.x as int) && in_limit(min_corner.y as int),
            in_limit(max_corner.x as int) && in_limit(max_corner.y as int),
            in_limit(min_corner.x - self.room_size.1) && in_limit(min_corner.x + self.room_size.1),
            in_limit(min_corner.y - self.room_size.1) && in_limit(min_corner.y + self.room_size.1),
            crate::vectors::abs(max_corner.x - min_corner.x) >= self.room_size.0,
            crate::vectors::abs(max_corner.y - min_corner.y) >= self.room_size.0,
        ensures
            usable(r),
            r matches Room::Square(s) ==> r == square_between(min_corner, max_corner),
            r matches Room::Circle(c) ==> c.center == min_corner && self.room_size.0 <= c.radius
                <= self.room_size.1,
    {
        if random_range(0, 2) == 0 {
            Room::new(min_corner, max_corner)
        } else {
            let radius = random_range(self.room_size.0 as i32, self.room_size.1 as i32 + 1);
            Room::Circle(CircleRoom::new(min_corner, radius))
        }
    }

    /// The configured gap between rooms.
    pub open spec fn padding(&self) -> int {
        match self.room_padding {
            Some(b) => b as int,
            None => 0,
        }
    }

    /// Whether `room` comes within the padding of any of `rooms`.
    fn collides(&self, room: &Room, rooms: &Vec<Room>) -> (r: bool)
        requires
            room.wf(),
            forall|i: int| 0 <= i < rooms@.len() ==> (#[trigger] rooms@[i]).wf(),
        ensures
            !r <==> forall|i: int| 0 <= i < rooms@.len() ==> !room.intersects_spec(#[trigger] rooms@[i], self.padding()),
            !r ==> forall|i: int|
                0 <= i < rooms@.len() ==> disjoint(room.tiles(), (#[trigger] rooms@[i]).tiles()),
    {
        let mut i: usize = 0;
        while i < rooms.len()
            invariant
                room.wf(),
                forall|k: int| 0 <= k < rooms@.len() ==> (#[trigger] rooms@[k]).wf(),
                i <= rooms@.len(),
                forall|k: int|
                    0 <= k < i ==> disjoint(room.tiles(), (#[trigger] rooms@[k]).tiles()),
                forall|k: int| 0 <= k < i ==> !room.intersects_spec(#[trigger] rooms@[k], self.padding()),
            decreases rooms@.len() - i,
        {
            if room.intersects(&rooms[i], self.room_padding) {
                return true;
            }
            proof {
                let b = match self.room_padding {
                    Some(b) => b as int,
                    None => 0,
                };
                lemma_apart_disjoint(*room, rooms@[i as int], b);
            }
            i = i + 1;
        }
        false
    }

    /// Places `candidate` when it keeps the padding from every room so far,
    /// connecting it to room `prev`, and also to room `extra` when one is
    /// given. Otherwise nothing changes.
    pub fn try_place(
        &self,
        rooms: &mut Vec<Room>,
        connections: &mut Vec<(usize, usize)>,
        prev: usize,
        candidate: Room,
        extra: Option<usize>,
    ) -> (placed: bool)
        requires
            candidate.wf(),
            forall|i: int| 0 <= i < old(rooms)@.len() ==> (#[trigger] old(rooms)@[i]).wf(),
        ensures
            placed == forall|i: int|
                0 <= i < old(rooms)@.len() ==> !candidate.intersects_spec(#[trigger] old(rooms)@[i], self.padding()),
            placed ==> final(rooms)@ == old(rooms)@.push(candidate) && final(connections)@ == match extra {
                Some(x) => old(connections)@.push((prev, old(rooms)@.len() as usize)).push(
                    (x, old(rooms)@.len() as usize),
                ),
                None => old(connections)@.push((prev, old(rooms)@.len() as usize)),
            },
            placed ==> forall|i: int|
                0 <= i < old(rooms)@.len() ==> disjoint(candidate.tiles(), (#[trigger] old(rooms)@[i]).tiles()),
            !placed ==> final(rooms)@ == old(rooms)@ && final(connections)@ == old(connections)@,
    {
        if self.collides(&candidate, rooms) {
            return false;
        }
        let n = rooms.len();
        connections.push((prev, n));
        match extra {
            Some(x) => connections.push((x, n)),
            None => {},
        }
        rooms.push(candidate);
        true
    }

    /// Places a first room at the origin and then a random number of rooms,
    /// each near a randomly chosen earlier room and connected to it, with an
    /// occasional extra connection. Fails if a room cannot be placed within
    /// the attempt cap.
    #[verifier::rlimit(100)]
    pub fn generate(&self) -> (r: Result<GeneratorResult, GenerationError>)
        requires
            self.wf(),
        ensures
            r matches Ok(res) ==> {
                &&& res.wf()
                &&& forall|i: int, j: int|
                    0 <= i < j < res.rooms@.len() ==> !(#[trigger] res.rooms@[j]).intersects_spec(
                        #[trigger] res.rooms@[i],
                        self.padding(),
                    )
                &&& self.room_count.0 + 2 <= res.rooms@.len() <= self.room_count.1 + 2
                &&& forall|i: int|
                    0 <= i < res.rooms@.len() ==> within(
                        #[trigger] res.rooms@[i],
                        self.bound(res.rooms@.len() as int),
                    )
            },
    {
        let s_max: i32 = self.room_size.1 as i32;
        let (w, h) = self.random_dim();
        let first = self.generate_room(Vector2Int::new(0, 0), Vector2Int::new(w, h));
        let mut rooms: Vec<Room> = Vec::new();
        assert(self.bound(1) == 3 * s_max) by (nonlinear_arith)
            requires
                self.bound(1) == 3 * s_max * 1,
        ;
        assert(within(first, self.bound(1)));
        rooms.push(first);
        let mut connections: Vec<(usize, usize)> = Vec::new();
        let count = random_range(self.room_count.0 as i32, self.room_count.1 as i32 + 1);
        let mut placed: i32 = 0;
        while placed <= count
            invariant
                self.wf(),
                s_max == self.room_size.1,
                self.room_count.0 <= count <= self.room_count.1,
                0 <= placed <= count + 1,
                rooms@.len() == placed + 1,
                forall|i: int| 0 <= i < rooms@.len() ==> usable(#[trigger] rooms@[i]),
                forall|i: int|
                    0 <= i < rooms@.len() ==> within(#[trigger] rooms@[i], self.bound(rooms@.len() as int)),
                forall|i: int, j: int|
                    0 <= i < j < rooms@.len() ==> disjoint(
                        (#[trigger] rooms@[i]).tiles(),
                        (#[trigger] rooms@[j]).tiles(),
                    ),
                forall|i: int, j: int|
                    0 <= i < j < rooms@.len() ==> !(#[trigger] rooms@[j]).intersects_spec(#[trigger] rooms@[i], self.padding()),
                forall|k: int|
                    0 <= k < connections@.len() ==> (#[trigger] connections@[k]).0
                        < connections@[k].1 < rooms@.len(),
                forall|j: int| 1 <= j < rooms@.len() ==> #[trigger] reached(connections@, j),
            decreases count + 1 - placed,
        {
            let mut attempts: u32 = 0;
            let mut done = false;
            assert(self.bound(placed + 1) <= self.bound(placed + 2)) by (nonlinear_arith)
                requires
                    self.bound(placed + 1) == 3 * s_max * (placed + 1),
                    self.bound(placed + 2) == 3 * s_max * (placed + 2),
                    0 <= s_max,
            ;
            while !done
                invariant
                    self.wf(),
                    s_max == self.room_size.1,
                    0 <= placed <= count <= 1000,
                    attempts <= MAX_PLACEMENT_ATTEMPTS,
                    rooms@.len() == placed + 1 + (if done { 1int } else { 0 }),
                    forall|i: int| 0 <= i < rooms@.len() ==> usable(#[trigger] rooms@[i]),
                    forall|i: int|
                        0 <= i < rooms@.len() ==> within(#[trigger] rooms@[i], self.bound(placed + 2)),
                    forall|i: int|
                        0 <= i < rooms@.len() ==> within(
                            #[trigger] rooms@[i],
                            self.bound(rooms@.len() as int),
                        ),
                    forall|i: int, j: int|
                        0 <= i < j < rooms@.len() ==> disjoint(
                            (#[trigger] rooms@[i]).tiles(),
                            (#[trigger] rooms@[j]).tiles(),
                        ),
                    forall|i: int, j: int|
                        0 <= i < j < rooms@.len() ==> !(#[trigger] rooms@[j]).intersects_spec(#[trigger] rooms@[i], self.padding()),
                    forall|k: int|
                        0 <= k < connections@.len() ==> (#[trigger] connections@[k]).0
                            < connections@[k].1 < rooms@.len(),
                    forall|j: int| 1 <= j < rooms@.len() ==> #[trigger] reached(connections@, j),
                decreases MAX_PLACEMENT_ATTEMPTS - attempts, (if done { 0int } else { 1 }),
            {
                if attempts == MAX_PLACEMENT_ATTEMPTS {
                    return Err(GenerationError::PlacementFailed);
                }
                attempts = attempts + 1;
                let n = rooms.len();
                let prev_idx = random_range(0, n as i32) as usize;
                let centre = rooms[prev_idx].centre();
                assert(within(rooms@[prev_idx as int], self.bound(placed + 1)));
                assert(self.bound(placed + 1) + 3 * s_max == self.bound(placed + 2)) by (nonlinear_arith)
                    requires
                        self.bound(placed + 1) == 3 * s_max * (placed + 1),
                        self.bound(placed + 2) == 3 * s_max * (placed + 2),
                ;
                assert(self.bound(placed + 2) <= 3 * 1000 * 1002) by (nonlinear_arith)
                    requires
                        self.bound(placed + 2) == 3 * s_max * (placed + 2),
                        0 <= s_max <= 1000,
                        0 <= placed <= 1000,
                ;
                let a = Vector2Int::new(
                    random_range(centre.x - s_max, centre.x + s_max + 1),
                    random_range(centre.y - s_max, centre.y + s_max + 1),
                );
                let (w, h) = self.random_dim();
                let b = Vector2Int::new(
                    a.x + if random_range(0, 2) == 0 { -w } else { w },
                    a.y + if random_range(0, 2) == 0 { -h } else { h },
                );
                let new_room = self.generate_room(a, b);
                assert(within(new_room, self.bound(placed + 2)));
                let extra = if random_ratio(self.extra_connection_chance.0, self.extra_connection_chance.1) {
                    Some(random_range(0, n as i32) as usize)
                } else {
                    None
                };
                let ghost old_rooms = rooms@;
                let ghost old_conn = connections@;
                if self.try_place(&mut rooms, &mut connections, prev_idx, new_room, extra) {
                    done = true;
                    proof {
                        assert forall|i: int, j: int| 0 <= i < j < rooms@.len() implies !(#[trigger] rooms@[j]).intersects_spec(
                            #[trigger] rooms@[i],
                            self.padding(),
                        ) by {
                            assert(rooms@[i] == old_rooms[i]);
                            if j < n {
                                assert(rooms@[j] == old_rooms[j]);
                            }
                        };
                        assert(connections@[old_conn.len() as int] == (prev_idx, n));
                        assert forall|j: int| 1 <= j < rooms@.len() implies #[trigger] reached(connections@, j) by {
                            if j < n {
                                assert(reached(old_conn, j));
                                let k = choose|k: int|
                                    0 <= k < old_conn.len() && (#[trigger] old_conn[k]).1 == j;
                                assert(connections@[k] == old_conn[k]);
                            } else {
                                assert(connections@[old_conn.len() as int].1 == j);
                            }
                        };
                        assert forall|k: int| 0 <= k < connections@.len() implies (#[trigger] connections@[k]).0
                            < connections@[k].1 < rooms@.len() by {
                            if k < old_conn.len() {
                                assert(connections@[k] == old_conn[k]);
                            }
                        };
                        assert forall|i: int, j: int| 0 <= i < j < rooms@.len() implies disjoint(
                            (#[trigger] rooms@[i]).tiles(),
                            (#[trigger] rooms@[j]).tiles(),
                        ) by {
                            if j < n {
                                assert(rooms@[i] == old_rooms[i] && rooms@[j] == old_rooms[j]);
                            } else {
                                assert(rooms@[i] == old_rooms[i]);
                                assert(disjoint(new_room.tiles(), old_rooms[i].tiles()));
                                assert forall|t: Vector2Int| !(#[trigger] old_rooms[i].tiles().contains(t)
                                    && new_room.tiles().contains(t)) by {
                                    assert(!(new_room.tiles().contains(t) && old_rooms[i].tiles().contains(t)));
                                };
                            }
                        };
                        assert forall|i: int| 0 <= i < rooms@.len() implies within(
                            #[trigger] rooms@[i],
                            self.bound(rooms@.len() as int),
                        ) by {
                            if i < n {
                                assert(rooms@[i] == old_rooms[i]);
                            }
                        };
                    }
                }
            }
            placed = placed + 1;
        }
        Ok(GeneratorResult { rooms, connections })
    }
}

} // verus!

verus! {

/// Tiles of the room with an orthogonal neighbour outside it.
pub open spec fn perimeter(r: Room) -> Set<Vector2Int> {
    Set::new(
        |p: Vector2Int|
            r.tiles().contains(p) && (!r.tiles().contains(vec_of(p.x + 1, p.y as int))
                || !r.tiles().contains(vec_of(p.x - 1, p.y as int)) || !r.tiles().contains(
                vec_of(p.x as int, p.y + 1),
            ) || !r.tiles().contains(vec_of(p.x as int, p.y - 1))),
    )
}

impl Room {
    /// The room's wall tiles: those on its edge, once each.
    pub fn walls(&self) -> (r: Vec<Vector2Int>)
        requires
            self.wf(),
        ensures
            r@.to_set() == perimeter(*self),
            r@.no_duplicates(),
    {
        let tiles = self.to_tiles();
        let ghost ts = tiles@;
        let mut out: Vec<Vector2Int> = Vec::new();
        let mut i: usize = 0;
        while i < tiles.len()
            invariant
                self.wf(),
                ts == tiles@,
                ts.to_set() == self.tiles(),
                ts.no_duplicates(),
                i <= ts.len(),
                out@.no_duplicates(),
                forall|k: int| 0 <= k < out@.len() ==> exists|j: int| 0 <= j < i && ts[j] == #[trigger] out@[k],
                forall|p: Vector2Int|
                    out@.to_set().contains(p) == (exists|j: int| 0 <= j < i && #[trigger] ts[j] == p && perimeter(
                        *self,
                    ).contains(p)),
            decreases ts.len() - i,
        {
            let t = tiles[i];
            assert(ts.to_set().contains(t));
            assert(self.tiles().contains(t));
            proof {
                if let Room::Circle(c) = *self {
                    crate::vectors::lemma_in_box_pub(c.center, c.radius as int, t);
                }
            }
            let edge = !contains_point(tiles.as_slice(), Vector2Int::new(t.x + 1, t.y))
                || !contains_point(tiles.as_slice(), Vector2Int::new(t.x - 1, t.y))
                || !contains_point(tiles.as_slice(), Vector2Int::new(t.x, t.y + 1))
                || !contains_point(tiles.as_slice(), Vector2Int::new(t.x, t.y - 1));
            assert(edge == perimeter(*self).contains(t));
            let ghost before = out@;
            if edge {
                out.push(t);
                proof {
                    lemma_push_to_set(before, t);
                    assert forall|k: int| 0 <= k < before.len() implies before[k] != t by {
                        let j = choose|j: int| 0 <= j < i && ts[j] == #[trigger] before[k];
                        assert(ts[j] != ts[i as int]);
                    };
                    assert forall|k: int| 0 <= k < out@.len() implies exists|j: int| 0 <= j < i + 1 && ts[j] == #[trigger] out@[k] by {
                        if k < before.len() {
                            let j = choose|j: int| 0 <= j < i && ts[j] == #[trigger] before[k];
                            assert(ts[j] == out@[k]);
                        } else {
                            assert(ts[i as int] == out@[k]);
                        }
                    };
                }
            }
            proof {
                assert forall|p: Vector2Int|
                    out@.to_set().contains(p) == (exists|j: int| 0 <= j < i + 1 && #[trigger] ts[j] == p && perimeter(
                        *self,
                    ).contains(p)) by {
                    if p == t {
                        if edge {
                            assert(out@.to_set().contains(p));
                        }
                    } else {
                        assert(out@.to_set().contains(p) == before.to_set().contains(p));
                        if exists|j: int| 0 <= j < i + 1 && #[trigger] ts[j] == p && perimeter(*self).contains(p) {
                            let j = choose|j: int| 0 <= j < i + 1 && #[trigger] ts[j] == p && perimeter(*self).contains(p);
                            assert(j < i);
                        }
                    }
                };
            }
            i = i + 1;
        }
        proof {
            assert forall|p: Vector2Int| out@.to_set().contains(p) == perimeter(*self).contains(p) by {
                if perimeter(*self).contains(p) {
                    assert(ts.to_set().contains(p));
                    let j = choose|j: int| 0 <= j < ts.len() && ts[j] == p;
                }
            };
            assert(out@.to_set() =~= perimeter(*self));
        }
        out
    }
}

} // verus!

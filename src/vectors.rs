use vstd::prelude::*;

verus! {

/// An integer grid coordinate.
#[derive(Copy, Clone, Debug, Default, PartialEq, Eq, Structural, PartialOrd, Ord, Hash)]
pub struct Vector2Int {
    pub x: i32,
    pub y: i32,
}

pub open spec fn abs(a: int) -> int {
    if a < 0 {
        -a
    } else {
        a
    }
}

/// Manhattan distance between two points, over mathematical integers.
pub open spec fn manhattan_spec(a: Vector2Int, b: Vector2Int) -> int {
    abs(a.x - b.x) + abs(a.y - b.y)
}

/// Squared Euclidean distance between two points.
pub open spec fn dist_sq(a: Vector2Int, b: Vector2Int) -> int {
    (a.x - b.x) * (a.x - b.x) + (a.y - b.y) * (a.y - b.y)
}

/// Two points are orthogonal neighbours.
pub open spec fn adjacent(a: Vector2Int, b: Vector2Int) -> bool {
    manhattan_spec(a, b) == 1
}

pub open spec fn vec_of(x: int, y: int) -> Vector2Int {
    Vector2Int { x: x as i32, y: y as i32 }
}

/// `a` comes strictly before `b` in (x, y) lexicographic order.
pub open spec fn lex_lt(a: Vector2Int, b: Vector2Int) -> bool {
    a.x < b.x || (a.x == b.x && a.y < b.y)
}

pub open spec fn fits_i32(v: int) -> bool {
    i32::MIN <= v <= i32::MAX
}

/// The four orthogonal unit steps: up, down, left, right.
pub open spec fn ortho_spec() -> Seq<Vector2Int> {
    seq![
        Vector2Int { x: 0, y: 1 },
        Vector2Int { x: 0, y: -1i32 },
        Vector2Int { x: -1i32, y: 0 },
        Vector2Int { x: 1, y: 0 },
    ]
}

pub fn ortho_directions() -> (r: Vec<Vector2Int>)
    ensures
        r@ == ortho_spec(),
{
    let r = vec![
        Vector2Int::new(0, 1),
        Vector2Int::new(0, -1),
        Vector2Int::new(-1, 0),
        Vector2Int::new(1, 0),
    ];
    assert(r@ =~= ortho_spec());
    r
}

impl Vector2Int {
    pub fn new(x: i32, y: i32) -> (r: Vector2Int)
        ensures
            r.x == x,
            r.y == y,
    {
        Vector2Int { x, y }
    }

    pub fn add(self, other: Vector2Int) -> (r: Vector2Int)
        requires
            fits_i32(self.x + other.x),
            fits_i32(self.y + other.y),
        ensures
            r == vec_of(self.x + other.x, self.y + other.y),
    {
        Vector2Int { x: self.x + other.x, y: self.y + other.y }
    }

    pub fn sub(self, other: Vector2Int) -> (r: Vector2Int)
        requires
            fits_i32(self.x - other.x),
            fits_i32(self.y - other.y),
        ensures
            r == vec_of(self.x - other.x, self.y - other.y),
    {
        Vector2Int { x: self.x - other.x, y: self.y - other.y }
    }

    pub fn mul(self, k: i32) -> (r: Vector2Int)
        requires
            fits_i32(self.x * k),
            fits_i32(self.y * k),
        ensures
            r == vec_of(self.x * k, self.y * k),
    {
        Vector2Int { x: self.x * k, y: self.y * k }
    }

    pub fn add_assign(&mut self, other: Vector2Int)
        requires
            fits_i32(old(self).x + other.x),
            fits_i32(old(self).y + other.y),
        ensures
            *final(self) == vec_of(old(self).x + other.x, old(self).y + other.y),
    {
        *self = Vector2Int { x: self.x + other.x, y: self.y + other.y };
    }

    pub fn sub_assign(&mut self, other: Vector2Int)
        requires
            fits_i32(old(self).x - other.x),
            fits_i32(old(self).y - other.y),
        ensures
            *final(self) == vec_of(old(self).x - other.x, old(self).y - other.y),
    {
        *self = Vector2Int { x: self.x - other.x, y: self.y - other.y };
    }

    pub fn manhattan(&self, other: Vector2Int) -> (r: i32)
        requires
            manhattan_spec(*self, other) <= i32::MAX,
        ensures
            r == manhattan_spec(*self, other),
    {
        let dx: i64 = self.x as i64 - other.x as i64;
        let dy: i64 = self.y as i64 - other.y as i64;
        let ax: i64 = if dx < 0 { -dx } else { dx };
        let ay: i64 = if dy < 0 { -dy } else { dy };
        (ax + ay) as i32
    }

    /// Integer Euclidean distance: the square root of the squared distance,
    /// rounded down.
    pub fn distance(&self, other: Vector2Int) -> (r: i32)
        requires
            dist_sq(*self, other) < 0x4000_0000_0000_0000,
        ensures
            0 <= r,
            r * r <= dist_sq(*self, other) < (r + 1) * (r + 1),
    {
        let dx: i128 = self.x as i128 - other.x as i128;
        let dy: i128 = self.y as i128 - other.y as i128;
        assert(0 <= dx * dx < 0x1_0000_0000_0000_0000) by (nonlinear_arith)
            requires
                -0x1_0000_0000 < dx < 0x1_0000_0000,
        ;
        assert(0 <= dy * dy < 0x1_0000_0000_0000_0000) by (nonlinear_arith)
            requires
                -0x1_0000_0000 < dy < 0x1_0000_0000,
        ;
        let n: i128 = dx * dx + dy * dy;
        assert(n == dist_sq(*self, other));
        let mut lo: i128 = 0;
        let mut hi: i128 = 0x8000_0000;
        assert(hi * hi == 0x4000_0000_0000_0000) by (nonlinear_arith)
            requires
                hi == 0x8000_0000,
        ;
        while hi - lo > 1
            invariant
                0 <= lo < hi <= 0x8000_0000,
                lo * lo <= n < hi * hi,
            decreases hi - lo,
        {
            let mid: i128 = lo + (hi - lo) / 2;
            assert(0 <= mid * mid <= 0x4000_0000_0000_0000) by (nonlinear_arith)
                requires
                    0 <= mid <= 0x8000_0000,
            ;
            if mid * mid <= n {
                lo = mid;
            } else {
                hi = mid;
            }
        }
        assert(hi == lo + 1);
        lo as i32
    }

    /// The points whose squared distance from `self` is exactly `radius * radius`.
    pub fn circle_edge(&self, radius: i32) -> (r: Vec<Vector2Int>)
        requires
            fits_i32(self.x - radius),
            fits_i32(self.x + radius),
            fits_i32(self.y - radius),
            fits_i32(self.y + radius),
        ensures
            r@.to_set() == circle_edge_set(*self, radius as int),
            r@.no_duplicates(),
            sorted_lex(r@),
    {
        self.circle_points(radius, true)
    }

    /// The points whose squared distance from `self` is at most `radius * radius`.
    pub fn circle_area(&self, radius: i32) -> (r: Vec<Vector2Int>)
        requires
            fits_i32(self.x - radius),
            fits_i32(self.x + radius),
            fits_i32(self.y - radius),
            fits_i32(self.y + radius),
        ensures
            r@.to_set() == disk_set(*self, radius as int),
            r@.no_duplicates(),
            sorted_lex(r@),
    {
        self.circle_points(radius, false)
    }

    fn circle_points(&self, radius: i32, edge_only: bool) -> (r: Vec<Vector2Int>)
        requires
            fits_i32(self.x - radius),
            fits_i32(self.x + radius),
            fits_i32(self.y - radius),
            fits_i32(self.y + radius),
        ensures
            r@.to_set() == circle_set(*self, radius as int, edge_only),
            r@.no_duplicates(),
            sorted_lex(r@),
    {
        let mut tiles: Vec<Vector2Int> = Vec::new();
        if radius < 0 {
            assert(circle_set(*self, radius as int, edge_only) =~= Set::empty());
            return tiles;
        }
        assert(0 <= radius * radius < 0x4000_0000_0000_0000) by (nonlinear_arith)
            requires
                0 <= radius < 0x8000_0000,
        ;
        let r2: i64 = radius as i64 * radius as i64;
        let ghost c = *self;
        let ghost cs = circle_set(c, radius as int, edge_only);
        assert forall|p: Vector2Int| cs.contains(p) implies c.x - radius <= p.x <= c.x + radius
            && c.y - radius <= p.y <= c.y + radius by {
            lemma_in_box(c, radius as int, p);
        };
        let mut x: i64 = self.x as i64 - radius as i64;
        assert(tiles@.to_set() =~= cs.filter(|p: Vector2Int| p.x < x));
        while x <= self.x as i64 + radius as i64
            invariant
                0 <= radius,
                r2 == radius * radius,
                r2 < 0x4000_0000_0000_0000,
                c == *self,
                cs == circle_set(c, radius as int, edge_only),
                forall|p: Vector2Int| cs.contains(p) ==> c.x - radius <= p.x <= c.x + radius
                    && c.y - radius <= p.y <= c.y + radius,
                self.x - radius <= x <= self.x + radius + 1,
                fits_i32(self.x - radius),
                fits_i32(self.x + radius),
                fits_i32(self.y - radius),
                fits_i32(self.y + radius),
                tiles@.no_duplicates(),
                sorted_lex(tiles@),
                forall|i: int| 0 <= i < tiles@.len() ==> tiles@[i].x < x,
                tiles@.to_set() =~= cs.filter(|p: Vector2Int| p.x < x),
            decreases self.x + radius + 1 - x,
        {
            let mut y: i64 = self.y as i64 - radius as i64;
            assert(cs.filter(|p: Vector2Int| p.x < x) =~= cs.filter(
                |p: Vector2Int| p.x < x || (p.x == x && p.y < y),
            ));
            while y <= self.y as i64 + radius as i64
                invariant
                    0 <= radius,
                    r2 == radius * radius,
                    r2 < 0x4000_0000_0000_0000,
                    c == *self,
                    cs == circle_set(c, radius as int, edge_only),
                    forall|p: Vector2Int| cs.contains(p) ==> c.x - radius <= p.x <= c.x + radius
                        && c.y - radius <= p.y <= c.y + radius,
                    self.x - radius <= x <= self.x + radius,
                    self.y - radius <= y <= self.y + radius + 1,
                    fits_i32(self.x - radius),
                    fits_i32(self.x + radius),
                    fits_i32(self.y - radius),
                    fits_i32(self.y + radius),
                    tiles@.no_duplicates(),
                    sorted_lex(tiles@),
                    forall|i: int|
                        0 <= i < tiles@.len() ==> tiles@[i].x < x || (tiles@[i].x == x
                            && tiles@[i].y < y),
                    tiles@.to_set() =~= cs.filter(
                        |p: Vector2Int| p.x < x || (p.x == x && p.y < y),
                    ),
                decreases self.y + radius + 1 - y,
            {
                let dx: i64 = x - self.x as i64;
                let dy: i64 = y - self.y as i64;
                assert(0 <= dx * dx <= r2 && 0 <= dy * dy <= r2) by (nonlinear_arith)
                    requires
                        -radius <= dx <= radius,
                        -radius <= dy <= radius,
                        r2 == radius * radius,
                ;
                let d2: i64 = dx * dx + dy * dy;
                let p = Vector2Int::new(x as i32, y as i32);
                let hit = if edge_only {
                    d2 == r2
                } else {
                    d2 <= r2
                };
                assert(p.x == x && p.y == y);
                assert(d2 == dist_sq(p, c));
                assert(hit == cs.contains(p));
                let ghost old_tiles = tiles@;
                if hit {
                    tiles.push(p);
                    assert forall|i: int| 0 <= i < tiles@.len() - 1 implies lex_lt(
                        tiles@[i],
                        p,
                    ) by {
                        assert(old_tiles[i] == tiles@[i]);
                    };
                    proof { lemma_push_to_set(old_tiles, p); }
                }
                assert forall|q: Vector2Int|
                    tiles@.to_set().contains(q) == (cs.contains(q) && (q.x < x || (q.x == x && q.y
                        < y + 1))) by {
                    if q == p {
                    } else {
                        assert(tiles@.to_set().contains(q) == old_tiles.to_set().contains(q));
                    }
                };
                assert(tiles@.to_set() =~= cs.filter(
                    |q: Vector2Int| q.x < x || (q.x == x && q.y < y + 1),
                ));
                y = y + 1;
            }
            assert forall|q: Vector2Int|
                tiles@.to_set().contains(q) == (cs.contains(q) && q.x < x + 1) by {
                if cs.contains(q) {
                    assert(q.y <= c.y + radius);
                }
                assert(tiles@.to_set().contains(q) == (cs.contains(q) && (q.x < x || (q.x == x
                    && q.y < y))));
            };
            assert(tiles@.to_set() =~= cs.filter(|p: Vector2Int| p.x < x + 1));
            x = x + 1;
        }
        assert forall|q: Vector2Int| tiles@.to_set().contains(q) == cs.contains(q) by {
            if cs.contains(q) {
                assert(q.x <= c.x + radius);
            }
            assert(tiles@.to_set().contains(q) == (cs.contains(q) && q.x < x));
        };
        assert(tiles@.to_set() =~= cs);
        tiles
    }
}


pub open spec fn step_dir(from: int, to: int) -> int {
    if from < to {
        1
    } else {
        -1
    }
}

/// Position and error term of the Bresenham walk from `start` towards `end`
/// after `k` steps: `(x, y, err)`.
pub open spec fn line_state(start: Vector2Int, end: Vector2Int, k: nat) -> (int, int, int)
    decreases k,
{
    let dx = abs(end.x - start.x);
    let dy = abs(end.y - start.y);
    if k == 0 {
        (start.x as int, start.y as int, dx - dy)
    } else {
        let prev = line_state(start, end, (k - 1) as nat);
        let e2 = 2 * prev.2;
        let x1 = if e2 > -dy {
            prev.0 + step_dir(start.x as int, end.x as int)
        } else {
            prev.0
        };
        let err1 = if e2 > -dy {
            prev.2 - dy
        } else {
            prev.2
        };
        let y1 = if e2 < dx {
            prev.1 + step_dir(start.y as int, end.y as int)
        } else {
            prev.1
        };
        let err2 = if e2 < dx {
            err1 + dx
        } else {
            err1
        };
        (x1, y1, err2)
    }
}

/// The `k`-th point of the Bresenham walk from `start` towards `end`.
pub open spec fn line_point(start: Vector2Int, end: Vector2Int, k: nat) -> Vector2Int {
    vec_of(line_state(start, end, k).0, line_state(start, end, k).1)
}

/// The walk stops at its `k`-th point: a blocker stands there or the end is reached.
pub open spec fn line_stops(
    start: Vector2Int,
    end: Vector2Int,
    blockers: Seq<Vector2Int>,
    k: nat,
) -> bool {
    blockers.contains(line_point(start, end, k)) || line_point(start, end, k) == end
}

/// The first stopping index at or after `k`, searching at most `fuel` further steps.
pub open spec fn first_stop(
    start: Vector2Int,
    end: Vector2Int,
    blockers: Seq<Vector2Int>,
    k: nat,
    fuel: nat,
) -> nat
    decreases fuel,
{
    if line_stops(start, end, blockers, k) || fuel == 0 {
        k
    } else {
        first_stop(start, end, blockers, k + 1, (fuel - 1) as nat)
    }
}

/// The points of the Bresenham walk from `start` towards `end`, up to and
/// including the first blocker met or the end point.
pub open spec fn walk_spec(
    start: Vector2Int,
    end: Vector2Int,
    blockers: Seq<Vector2Int>,
) -> Seq<Vector2Int> {
    let fuel = (abs(end.x - start.x) + abs(end.y - start.y)) as nat;
    let n = first_stop(start, end, blockers, 0, fuel);
    Seq::new(n + 1, |i: int| line_point(start, end, i as nat))
}


/// `a` comes before `b`, or is `b`, in (x, y) order.
pub open spec fn lex_le(a: Vector2Int, b: Vector2Int) -> bool {
    a.x < b.x || (a.x == b.x && a.y <= b.y)
}

/// The cells of the line between `p` and `q`, from `p` to `q`. The line is
/// drawn from the smaller endpoint in (x, y) order, so that both directions
/// cross the same cells.
pub open spec fn line_cells(p: Vector2Int, q: Vector2Int) -> Seq<Vector2Int> {
    if lex_le(p, q) {
        walk_spec(p, q, Seq::<Vector2Int>::empty())
    } else {
        walk_spec(q, p, Seq::<Vector2Int>::empty()).reverse()
    }
}

/// The cells of `s` up to and including the first that holds a blocker.
pub open spec fn cut_at_blocker(s: Seq<Vector2Int>, blockers: Seq<Vector2Int>) -> Seq<Vector2Int>
    decreases s.len(),
{
    if s.len() == 0 {
        s
    } else if blockers.contains(s[0]) {
        seq![s[0]]
    } else {
        seq![s[0]] + cut_at_blocker(s.drop_first(), blockers)
    }
}

/// The cells of the line from `start` to `end`, up to and including the first
/// blocker met.
pub open spec fn cast_line_spec(
    start: Vector2Int,
    end: Vector2Int,
    blockers: Seq<Vector2Int>,
) -> Seq<Vector2Int> {
    cut_at_blocker(line_cells(start, end), blockers)
}

/// A line crosses the same cells whichever end it is cast from.
pub proof fn lemma_line_symmetric(p: Vector2Int, q: Vector2Int)
    ensures
        line_cells(q, p) == line_cells(p, q).reverse(),
{
    let w = walk_spec(p, q, Seq::<Vector2Int>::empty());
    let v = walk_spec(q, p, Seq::<Vector2Int>::empty());
    if p == q {
        lemma_single_walk(p);
        assert(w.reverse() =~= w);
    } else if lex_le(p, q) {
        assert(w.reverse().reverse() =~= w);
    } else {
        assert(v.reverse().reverse() =~= v);
    }
}

/// The walk from a point to itself is that point alone.
proof fn lemma_single_walk(p: Vector2Int)
    ensures
        walk_spec(p, p, Seq::<Vector2Int>::empty()) =~= seq![p],
{
    let e = Seq::<Vector2Int>::empty();
    assert(line_point(p, p, 0) == p);
    assert(line_stops(p, p, e, 0));
    assert(first_stop(p, p, e, 0, 0) == 0);
}

proof fn lemma_reverse_contains(s: Seq<Vector2Int>, u: Vector2Int)
    ensures
        s.reverse().contains(u) <==> s.contains(u),
{
    if s.contains(u) {
        let i = choose|i: int| 0 <= i < s.len() && s[i] == u;
        assert(s.reverse()[s.len() - 1 - i] == u);
    }
    if s.reverse().contains(u) {
        let i = choose|i: int| 0 <= i < s.reverse().len() && s.reverse()[i] == u;
        assert(s[s.len() - 1 - i] == u);
    }
}

/// A cut line ends at the only blocker that lies on it.
proof fn lemma_cut_ends_at_blocker(s: Seq<Vector2Int>, blockers: Seq<Vector2Int>, t: Vector2Int)
    requires
        s.contains(t),
        blockers.contains(t),
        forall|u: Vector2Int| #[trigger] blockers.contains(u) && s.contains(u) ==> u == t,
    ensures
        cut_at_blocker(s, blockers).len() > 0,
        cut_at_blocker(s, blockers).last() == t,
    decreases s.len(),
{
    if blockers.contains(s[0]) {
        assert(s.contains(s[0]));
    } else {
        let r = s.drop_first();
        let i = choose|i: int| 0 <= i < s.len() && s[i] == t;
        assert(i > 0);
        assert(r[i - 1] == t);
        assert forall|u: Vector2Int| #[trigger] blockers.contains(u) && r.contains(u) implies u == t by {
            let j = choose|j: int| 0 <= j < r.len() && r[j] == u;
            assert(s[j + 1] == u);
        };
        lemma_cut_ends_at_blocker(r, blockers, t);
        let c = cut_at_blocker(r, blockers);
        assert((seq![s[0]] + c).last() == c.last());
    }
}

/// A blocker that is the only one on the line between `p` and `q` stops the
/// cast at that cell in both directions.
pub proof fn lemma_shared_blocker_symmetric(
    p: Vector2Int,
    q: Vector2Int,
    blockers: Seq<Vector2Int>,
    t: Vector2Int,
)
    requires
        line_cells(p, q).contains(t),
        blockers.contains(t),
        forall|u: Vector2Int| #[trigger] blockers.contains(u) && line_cells(p, q).contains(u) ==> u == t,
    ensures
        cast_line_spec(p, q, blockers).last() == t,
        cast_line_spec(q, p, blockers).last() == t,
{
    lemma_cut_ends_at_blocker(line_cells(p, q), blockers, t);
    lemma_line_symmetric(p, q);
    let s = line_cells(p, q);
    lemma_reverse_contains(s, t);
    assert forall|u: Vector2Int| #[trigger] blockers.contains(u) && s.reverse().contains(u) implies u == t by {
        lemma_reverse_contains(s, u);
    };
    lemma_cut_ends_at_blocker(s.reverse(), blockers, t);
}

/// Casts the line from `start` to `end` and returns its cells, up to and
/// including the first cell that holds a blocker, or up to `end`. Both
/// directions between two points cross the same cells.
pub fn cast_line(start: Vector2Int, end: Vector2Int, blocker_positions: &[Vector2Int]) -> (r: Vec<
    Vector2Int,
>)
    ensures
        r@ == cast_line_spec(start, end, blocker_positions@),
        r@.len() >= 1,
        r@[0] == start,
{
    let forward = start.x < end.x || (start.x == end.x && start.y <= end.y);
    let none: Vec<Vector2Int> = Vec::new();
    assert(none@ =~= Seq::<Vector2Int>::empty());
    let cells = if forward {
        bresenham_walk(start, end, none.as_slice())
    } else {
        let back = bresenham_walk(end, start, none.as_slice());
        assert(back@.last() == start);
        let mut rev: Vec<Vector2Int> = Vec::new();
        let mut k: usize = back.len();
        while k > 0
            invariant
                k <= back@.len(),
                rev@ == back@.reverse().subrange(0, back@.len() - k),
            decreases k,
        {
            k = k - 1;
            rev.push(back[k]);
            assert(rev@ =~= back@.reverse().subrange(0, back@.len() - k));
        }
        assert(rev@ =~= back@.reverse());
        rev
    };
    let ghost all = cells@;
    assert(all == line_cells(start, end));
    assert(all.len() >= 1 && all[0] == start);
    assert(all.subrange(0, all.len() as int) =~= all);
    let mut out: Vec<Vector2Int> = Vec::new();
    let mut i: usize = 0;
    while i < cells.len()
        invariant
            all == cells@,
            i <= all.len(),
            out@ + cut_at_blocker(all.subrange(i as int, all.len() as int), blocker_positions@)
                == cut_at_blocker(all, blocker_positions@),
            out@ == all.subrange(0, i as int),
            all.len() >= 1 && all[0] == start,
            all == line_cells(start, end),
        decreases all.len() - i,
    {
        let c = cells[i];
        let ghost rest = all.subrange(i as int, all.len() as int);
        assert(rest[0] == c);
        assert(rest.drop_first() =~= all.subrange(i + 1, all.len() as int));
        let ghost before = out@;
        out.push(c);
        assert(out@ =~= all.subrange(0, i + 1));
        if contains_point(blocker_positions, c) {
            assert(cut_at_blocker(rest, blocker_positions@) == seq![c]);
            assert(out@ =~= before + seq![c]);
            assert(before + cut_at_blocker(rest, blocker_positions@) == cut_at_blocker(all, blocker_positions@));
            assert(out@ == cut_at_blocker(all, blocker_positions@));
            assert(out@ == cast_line_spec(start, end, blocker_positions@));
            assert(out@[0] == all[0]);
            return out;
        }
        assert(cut_at_blocker(rest, blocker_positions@) == seq![c] + cut_at_blocker(
            all.subrange(i + 1, all.len() as int),
            blocker_positions@,
        ));
        assert(out@ + cut_at_blocker(all.subrange(i + 1, all.len() as int), blocker_positions@)
            =~= before + cut_at_blocker(rest, blocker_positions@));
        i = i + 1;
    }
    assert(all.subrange(all.len() as int, all.len() as int) =~= Seq::<Vector2Int>::empty());
    assert(out@ =~= cut_at_blocker(all, blocker_positions@));
    assert(out@[0] == all[0]);
    out
}

/// All the cast lines from `start` to each point of `area`, in order, joined.
pub open spec fn sight_spec(
    start: Vector2Int,
    area: Seq<Vector2Int>,
    blockers: Seq<Vector2Int>,
) -> Seq<Vector2Int>
    decreases area.len(),
{
    if area.len() == 0 {
        seq![]
    } else {
        sight_spec(start, area.drop_last(), blockers) + cast_line_spec(
            start,
            area.last(),
            blockers,
        )
    }
}

proof fn lemma_first_stop(
    start: Vector2Int,
    end: Vector2Int,
    blockers: Seq<Vector2Int>,
    k: nat,
    m: nat,
    fuel: nat,
)
    requires
        m <= k,
        k - m <= fuel,
        forall|i: nat| m <= i < k ==> !line_stops(start, end, blockers, i),
        line_stops(start, end, blockers, k),
    ensures
        first_stop(start, end, blockers, m, fuel) == k,
    decreases k - m,
{
    if m < k {
        lemma_first_stop(start, end, blockers, k, m + 1, (fuel - 1) as nat);
    }
}

pub fn contains_point(s: &[Vector2Int], p: Vector2Int) -> (r: bool)
    ensures
        r == s@.contains(p),
{
    let mut i: usize = 0;
    while i < s.len()
        invariant
            i <= s@.len(),
            forall|j: int| 0 <= j < i ==> s@[j] != p,
        decreases s@.len() - i,
    {
        if s[i] == p {
            return true;
        }
        i = i + 1;
    }
    false
}

/// Walks the Bresenham line from `start` towards `end`, up to and including
/// the first point that holds a blocker, or up to `end`.
fn bresenham_walk(start: Vector2Int, end: Vector2Int, blocker_positions: &[Vector2Int]) -> (r: Vec<
    Vector2Int,
>)
    ensures
        r@ == walk_spec(start, end, blocker_positions@),
        r@.len() >= 1,
        r@[0] == start,
        blocker_positions@.len() == 0 ==> r@.last() == end,
{
    let mut path: Vec<Vector2Int> = Vec::new();
    let x1: i64 = end.x as i64;
    let y1: i64 = end.y as i64;
    let mut x0: i64 = start.x as i64;
    let mut y0: i64 = start.y as i64;
    let dx: i64 = if x1 - x0 < 0 { x0 - x1 } else { x1 - x0 };
    let dy: i64 = if y1 - y0 < 0 { y0 - y1 } else { y1 - y0 };
    let sx: i64 = if x0 < x1 { 1 } else { -1 };
    let sy: i64 = if y0 < y1 { 1 } else { -1 };
    let mut err: i64 = dx - dy;
    let ghost b = blocker_positions@;
    let ghost mut k: nat = 0;
    let ghost mut px: int = 0;
    let ghost mut py: int = 0;
    assert((1 + py) * dx - (1 + px) * dy == dx - dy) by (nonlinear_arith)
        requires
            px == 0,
            py == 0,
    ;
    loop
        invariant
            b == blocker_positions@,
            dx == abs(end.x - start.x),
            dy == abs(end.y - start.y),
            sx == step_dir(start.x as int, end.x as int),
            sy == step_dir(start.y as int, end.y as int),
            x1 == end.x,
            y1 == end.y,
            path@.len() == k,
            forall|i: int| 0 <= i < k ==> path@[i] == line_point(start, end, i as nat),
            forall|i: nat| i < k ==> !line_stops(start, end, b, i),
            (x0 as int, y0 as int, err as int) == line_state(start, end, k),
            0 <= px <= dx,
            0 <= py <= dy,
            k <= px + py,
            x0 == start.x + sx * px,
            y0 == start.y + sy * py,
            err == (1 + py) * dx - (1 + px) * dy,
            -3 * dy <= 2 * err <= 3 * dx,
        decreases (dx - px) + (dy - py),
    {
        assert(sx * px == if sx == 1 { px } else { -px });
        assert(sy * py == if sy == 1 { py } else { -py });
        let p = Vector2Int::new(x0 as i32, y0 as i32);
        assert(p == line_point(start, end, k));
        path.push(p);
        let at_end = x0 == x1 && y0 == y1;
        if contains_point(blocker_positions, p) || at_end {
            proof {
                assert(line_stops(start, end, b, k));
                lemma_first_stop(start, end, b, k, 0, (dx + dy) as nat);
                assert(path@ =~= walk_spec(start, end, b));
                assert(path@[0] == line_point(start, end, 0));
            }
            return path;
        }
        assert(!line_stops(start, end, b, k));
        assert(x0 == x1 <==> px == dx);
        assert(y0 == y1 <==> py == dy);
        proof {
            if px == dx && py < dy {
                assert((1 + py) * dx <= dy * dx) by (nonlinear_arith)
                    requires
                        0 <= dx,
                        1 + py <= dy,
                ;
                assert((1 + dx) * dy == dy + dx * dy) by (nonlinear_arith);
                assert(dy * dx == dx * dy) by (nonlinear_arith);
            }
            if py == dy && px < dx {
                assert((1 + px) * dy <= dx * dy) by (nonlinear_arith)
                    requires
                        0 <= dy,
                        1 + px <= dx,
                ;
                assert((1 + dy) * dx == dx + dy * dx) by (nonlinear_arith);
                assert(dy * dx == dx * dy) by (nonlinear_arith);
            }
        }
        let e2: i64 = 2 * err;
        let ghost old_err = err;
        if e2 > -dy {
            err = err - dy;
            x0 = x0 + sx;
            proof {
                assert((2 + px) * dy == (1 + px) * dy + dy) by (nonlinear_arith);
                px = px + 1;
                assert(sx * px == sx * (px - 1) + sx) by (nonlinear_arith);
            }
        }
        if e2 < dx {
            err = err + dx;
            y0 = y0 + sy;
            proof {
                assert((2 + py) * dx == (1 + py) * dx + dx) by (nonlinear_arith);
                py = py + 1;
                assert(sy * py == sy * (py - 1) + sy) by (nonlinear_arith);
            }
        }
        proof {
            k = k + 1;
        }
    }
}

/// Casts a line from `start` to every point of `area` and joins the results.
pub fn line_of_sight(start: Vector2Int, area: Vec<Vector2Int>, blocker_positions: &[Vector2Int]) -> (r:
    Vec<Vector2Int>)
    ensures
        r@ == sight_spec(start, area@, blocker_positions@),
{
    let mut path: Vec<Vector2Int> = Vec::new();
    let mut i: usize = 0;
    while i < area.len()
        invariant
            i <= area@.len(),
            path@ == sight_spec(start, area@.subrange(0, i as int), blocker_positions@),
        decreases area@.len() - i,
    {
        let mut line = cast_line(start, area[i], blocker_positions);
        assert(area@.subrange(0, i + 1).drop_last() =~= area@.subrange(0, i as int));
        path.append(&mut line);
        i = i + 1;
    }
    assert(area@.subrange(0, area@.len() as int) =~= area@);
    path
}

pub open spec fn sorted_lex(s: Seq<Vector2Int>) -> bool {
    forall|i: int, j: int| 0 <= i < j < s.len() ==> lex_lt(s[i], s[j])
}

pub open spec fn disk_set(c: Vector2Int, radius: int) -> Set<Vector2Int> {
    Set::new(|p: Vector2Int| 0 <= radius && dist_sq(p, c) <= radius * radius)
}

pub open spec fn circle_edge_set(c: Vector2Int, radius: int) -> Set<Vector2Int> {
    Set::new(|p: Vector2Int| 0 <= radius && dist_sq(p, c) == radius * radius)
}

pub open spec fn circle_set(c: Vector2Int, radius: int, edge_only: bool) -> Set<Vector2Int> {
    if edge_only {
        circle_edge_set(c, radius)
    } else {
        disk_set(c, radius)
    }
}

/// A point on or inside a circle lies inside its bounding square.
pub proof fn lemma_in_box_pub(c: Vector2Int, radius: int, p: Vector2Int)
    requires
        0 <= radius,
        disk_set(c, radius).contains(p),
    ensures
        c.x - radius <= p.x <= c.x + radius,
        c.y - radius <= p.y <= c.y + radius,
{
    lemma_in_box(c, radius, p);
}

proof fn lemma_in_box(c: Vector2Int, radius: int, p: Vector2Int)
    requires
        0 <= radius,
        dist_sq(p, c) <= radius * radius,
    ensures
        c.x - radius <= p.x <= c.x + radius,
        c.y - radius <= p.y <= c.y + radius,
{
    let dx = p.x - c.x;
    let dy = p.y - c.y;
    assert(dx * dx <= radius * radius) by (nonlinear_arith)
        requires
            dx * dx + dy * dy <= radius * radius,
    ;
    assert(dy * dy <= radius * radius) by (nonlinear_arith)
        requires
            dx * dx + dy * dy <= radius * radius,
    ;
    assert(-radius <= dx <= radius) by (nonlinear_arith)
        requires
            dx * dx <= radius * radius,
            0 <= radius,
    ;
    assert(-radius <= dy <= radius) by (nonlinear_arith)
        requires
            dy * dy <= radius * radius,
            0 <= radius,
    ;
}

pub proof fn lemma_push_to_set<T>(s: Seq<T>, v: T)
    ensures
        s.push(v).to_set() == s.to_set().insert(v),
{
    assert(s.push(v).to_set() =~= s.to_set().insert(v)) by {
        assert forall|a: T| s.push(v).to_set().contains(a) implies s.to_set().insert(v).contains(
            a,
        ) by {
            let i = choose|i: int| 0 <= i < s.push(v).len() && s.push(v)[i] == a;
            if i < s.len() {
                assert(s[i] == a);
            }
        };
        assert forall|a: T| s.to_set().insert(v).contains(a) implies s.push(v).to_set().contains(
            a,
        ) by {
            if a == v {
                assert(s.push(v)[s.len() as int] == v);
            } else {
                let i = choose|i: int| 0 <= i < s.len() && s[i] == a;
                assert(s.push(v)[i] == a);
            }
        };
    };
}

} // verus!

use vstd::prelude::*;

use crate::area::{add_all, bounds_spec, lemma_bounds_within, pt_within, Area, AREA_BOUND, LAYOUT_BOUND};
use crate::room::{usable, GenerationError};
use crate::tunneler::{in_box, is_corridor, Tunneler};
use crate::vectors::{contains_point, Vector2Int};

verus! {

/// Gap left between neighbouring areas.
pub const AREA_SPACING: i32 = 0;

/// Most areas a dungeon holds, and most rows of its grid. With areas of at
/// most `AREA_BOUND` tiles across, a hundred cells in a row or column keep
/// every shifted coordinate, and the wall ring around them, within `i32`.
pub const MAX_AREAS: usize = 100;

/// Areas laid out on a grid, and the walls around them. Area `i` sits in
/// row `i % row_count` and column `i / row_count`.
pub struct Dungeon {
    pub areas: Vec<Area>,
    pub row_count: usize,
    pub walls: Vec<Vector2Int>,
}

/// The box around an area's rooms: minimum x and y, maximum x and y.
pub open spec fn area_box(a: Area) -> (int, int, int, int) {
    bounds_spec(a.rooms@)
}

pub open spec fn size_x(a: Area) -> int {
    area_box(a).2 - area_box(a).0 + 1
}

pub open spec fn size_y(a: Area) -> int {
    area_box(a).3 - area_box(a).1 + 1
}

/// The boxes around two areas' rooms share no point.
pub open spec fn boxes_apart(a: Area, b: Area) -> bool {
    let p = area_box(a);
    let q = area_box(b);
    p.2 < q.0 || q.2 < p.0 || p.3 < q.1 || q.3 < p.1
}

/// The box around the rooms of all areas: minimum x and y, maximum x and y.
pub open spec fn dungeon_bounds(areas: Seq<Area>) -> (int, int, int, int)
    decreases areas.len(),
{
    if areas.len() <= 1 {
        area_box(areas[0])
    } else {
        let b = dungeon_bounds(areas.drop_last());
        let c = area_box(areas.last());
        (
            crate::area::min_i(b.0, c.0),
            crate::area::min_i(b.1, c.1),
            crate::area::max_i(b.2, c.2),
            crate::area::max_i(b.3, c.3),
        )
    }
}

/// `p` lies in the box `b` grown by one tile on every side.
pub open spec fn in_grown_box(b: (int, int, int, int), p: Vector2Int) -> bool {
    b.0 - 1 <= p.x <= b.2 + 1 && b.1 - 1 <= p.y <= b.3 + 1
}

/// How many neighbours area `i` is joined to: the one to its left and the one
/// above it, where they exist.
pub open spec fn neighbour_count(i: int, rows: int) -> int {
    (if i >= rows { 1int } else { 0 }) + (if i > 0 && i % rows != 0 { 1int } else { 0 })
}

proof fn lemma_push_contains(s: Seq<Vector2Int>, v: Vector2Int, q: Vector2Int)
    ensures
        s.push(v).contains(q) <==> s.contains(q) || q == v,
{
    if s.contains(q) {
        let i = choose|i: int| 0 <= i < s.len() && s[i] == q;
        assert(s.push(v)[i] == q);
    }
    if q == v {
        assert(s.push(v)[s.len() as int] == v);
    }
    if s.push(v).contains(q) {
        let i = choose|i: int| 0 <= i < s.push(v).len() && s.push(v)[i] == q;
        if i < s.len() {
            assert(s[i] == q);
        }
    }
}

/// The width of column `c`: the widest of the first `n` areas placed in it.
pub open spec fn col_max(areas: Seq<Area>, rows: int, c: int, n: int) -> int
    decreases n,
{
    if n <= 0 {
        0
    } else {
        crate::area::max_i(
            col_max(areas, rows, c, n - 1),
            if (n - 1) / rows == c { size_x(areas[n - 1]) } else { 0 },
        )
    }
}

/// The height of row `r`: the tallest of the first `n` areas placed in it.
pub open spec fn row_max(areas: Seq<Area>, rows: int, r: int, n: int) -> int
    decreases n,
{
    if n <= 0 {
        0
    } else {
        crate::area::max_i(
            row_max(areas, rows, r, n - 1),
            if (n - 1) % rows == r { size_y(areas[n - 1]) } else { 0 },
        )
    }
}

/// Where column `c` starts: the widths of the columns before it, added up.
pub open spec fn col_start(areas: Seq<Area>, rows: int, c: int) -> int
    decreases c,
{
    if c <= 0 {
        0
    } else {
        col_start(areas, rows, c - 1) + col_max(areas, rows, c - 1, areas.len() as int) + AREA_SPACING
    }
}

/// Where row `r` starts: the heights of the rows before it, added up.
pub open spec fn row_start(areas: Seq<Area>, rows: int, r: int) -> int
    decreases r,
{
    if r <= 0 {
        0
    } else {
        row_start(areas, rows, r - 1) + row_max(areas, rows, r - 1, areas.len() as int) + AREA_SPACING
    }
}

proof fn lemma_col_starts(v: Seq<i64>, areas: Seq<Area>, rows: int, c: int)
    requires
        0 <= c <= v.len(),
        forall|k: int| 0 <= k < v.len() ==> #[trigger] v[k] == col_max(areas, rows, k, areas.len() as int) + AREA_SPACING,
    ensures
        sum_first(v, c) == col_start(areas, rows, c),
    decreases c,
{
    if c > 0 {
        lemma_col_starts(v, areas, rows, c - 1);
    }
}

proof fn lemma_row_starts(v: Seq<i64>, areas: Seq<Area>, rows: int, r: int)
    requires
        0 <= r <= v.len(),
        forall|k: int| 0 <= k < v.len() ==> #[trigger] v[k] == row_max(areas, rows, k, areas.len() as int) + AREA_SPACING,
    ensures
        sum_first(v, r) == row_start(areas, rows, r),
    decreases r,
{
    if r > 0 {
        lemma_row_starts(v, areas, rows, r - 1);
    }
}

/// The sum of the first `k` values.
pub open spec fn sum_first(v: Seq<i64>, k: int) -> int
    decreases k,
{
    if k <= 0 || k > v.len() {
        0
    } else {
        sum_first(v, k - 1) + v[k - 1]
    }
}

proof fn lemma_sum_mono(v: Seq<i64>, a: int, b: int)
    requires
        0 <= a <= b <= v.len(),
        forall|i: int| 0 <= i < v.len() ==> 0 <= #[trigger] v[i],
    ensures
        sum_first(v, a) <= sum_first(v, b),
    decreases b - a,
{
    if a < b {
        lemma_sum_mono(v, a, b - 1);
    }
}

impl Dungeon {
    /// Every floor tile: the tiles of all areas.
    pub open spec fn floor_set(&self) -> Set<Vector2Int> {
        Set::new(
            |p: Vector2Int|
                exists|i: int| 0 <= i < self.areas@.len() && (#[trigger] self.areas@[i]).tile_set().contains(p),
        )
    }

    /// Every area's rooms are usable and apart, within `bound`.
    pub open spec fn areas_ok(&self, bound: int) -> bool {
        forall|i: int|
            0 <= i < self.areas@.len() ==> {
                &&& (#[trigger] self.areas@[i]).rooms@.len() >= 1
                &&& forall|k: int| 0 <= k < self.areas@[i].rooms@.len() ==> usable(#[trigger] self.areas@[i].rooms@[k])
                &&& self.areas@[i].rooms_apart()
                &&& self.areas@[i].within(bound)
            }
    }

    pub fn new(row_count: usize) -> (r: Dungeon)
        requires
            row_count >= 1,
        ensures
            r.areas@.len() == 0,
            r.row_count == row_count,
            r.walls@.len() == 0,
    {
        Dungeon { areas: Vec::new(), row_count, walls: Vec::new() }
    }

    /// Adds an area in the next grid cell.
    pub fn add_area(&mut self, area: Area)
        ensures
            final(self).areas@ == old(self).areas@.push(area),
            final(self).row_count == old(self).row_count,
            final(self).walls@ == old(self).walls@,
    {
        self.areas.push(area);
    }

    fn take_area(&mut self, i: usize) -> (r: Area)
        requires
            i < old(self).areas@.len(),
        ensures
            r == old(self).areas@[i as int],
            final(self).areas@.len() == old(self).areas@.len(),
            forall|k: int| 0 <= k < old(self).areas@.len() && k != i ==> #[trigger] final(self).areas@[k] == old(self).areas@[k],
            final(self).areas@[i as int].rooms@.len() == 0,
            final(self).areas@[i as int].paths@.len() == 0,
            final(self).row_count == old(self).row_count,
            final(self).walls@ == old(self).walls@,
    {
        let gen = self.areas[i].room_generator;
        let mut slot = Area::new(Tunneler::LShape, gen);
        self.areas.set_and_swap(i, &mut slot);
        slot
    }

    /// Generates every area, lays the areas out on the grid, joins
    /// neighbouring areas and surrounds everything with walls.
    pub fn generate(&mut self) -> (r: Result<(), GenerationError>)
        requires
            1 <= old(self).row_count <= MAX_AREAS,
            1 <= old(self).areas@.len() <= MAX_AREAS,
            forall|i: int| 0 <= i < old(self).areas@.len() ==> (#[trigger] old(self).areas@[i]).room_generator.wf(),
            old(self).walls@.len() == 0,
        ensures
            final(self).areas@.len() == old(self).areas@.len(),
            r.is_ok() ==> {
                &&& forall|i: int|
                    0 <= i < final(self).walls@.len() ==> !final(self).floor_set().contains(
                        #[trigger] final(self).walls@[i],
                    )
                &&& forall|i: int| 0 <= i < final(self).areas@.len() ==> (#[trigger] final(self).areas@[i]).rooms_apart()
                &&& final(self).areas_ok(LAYOUT_BOUND + 2 * AREA_BOUND)
                &&& forall|i: int, j: int|
                    0 <= i < j < final(self).areas@.len() ==> boxes_apart(
                        #[trigger] final(self).areas@[i],
                        #[trigger] final(self).areas@[j],
                    )
                &&& forall|p: Vector2Int|
                    #[trigger] final(self).walls@.contains(p) <==> in_grown_box(dungeon_bounds(final(self).areas@), p)
                        && !final(self).floor_set().contains(p)
            },
    {
        let n = self.areas.len();
        let mut i: usize = 0;
        while i < n
            invariant
                n == self.areas@.len(),
                n == old(self).areas@.len(),
                1 <= n <= MAX_AREAS,
                i <= n,
                1 <= self.row_count <= MAX_AREAS,
                self.walls@.len() == 0,
                forall|k: int| 0 <= k < n ==> (#[trigger] self.areas@[k]).room_generator.wf(),
                forall|k: int|
                    0 <= k < i ==> {
                        &&& (#[trigger] self.areas@[k]).rooms@.len() >= 1
                        &&& forall|m: int| 0 <= m < self.areas@[k].rooms@.len() ==> usable(#[trigger] self.areas@[k].rooms@[m])
                        &&& self.areas@[k].rooms_apart()
                        &&& self.areas@[k].within(AREA_BOUND as int)
                    },
            decreases n - i,
        {
            let mut area = self.take_area(i);
            let res = area.generate_rooms();
            self.areas.set(i, area);
            if res.is_err() {
                return Err(GenerationError::PlacementFailed);
            }
            i = i + 1;
        }
        assert(self.areas_ok(AREA_BOUND as int));
        self.position_areas();
        let ghost placed = self.areas@;
        self.connect_areas();
        proof {
            assert forall|i: int, j: int| 0 <= i < j < self.areas@.len() implies boxes_apart(
                #[trigger] self.areas@[i],
                #[trigger] self.areas@[j],
            ) by {
                assert(self.areas@[i].rooms@ == placed[i].rooms@);
                assert(self.areas@[j].rooms@ == placed[j].rooms@);
                assert(boxes_apart(placed[i], placed[j]));
            };
        }
        self.add_walls();
        Ok(())
    }

    /// Places every area in its grid cell: each column as wide as its widest
    /// area, each row as tall as its tallest, so that no two areas' boxes
    /// overlap.
    pub fn position_areas(&mut self)
        requires
            1 <= old(self).row_count <= MAX_AREAS,
            1 <= old(self).areas@.len() <= MAX_AREAS,
            old(self).areas_ok(AREA_BOUND as int),
        ensures
            final(self).areas@.len() == old(self).areas@.len(),
            final(self).row_count == old(self).row_count,
            final(self).walls@ == old(self).walls@,
            final(self).areas_ok(LAYOUT_BOUND + 2 * AREA_BOUND),
            forall|i: int, j: int|
                0 <= i < j < final(self).areas@.len() ==> boxes_apart(
                    #[trigger] final(self).areas@[i],
                    #[trigger] final(self).areas@[j],
                ),
            forall|k: int|
                0 <= k < final(self).areas@.len() ==> area_box(#[trigger] final(self).areas@[k]).0 == col_start(
                    old(self).areas@,
                    old(self).row_count as int,
                    k / (old(self).row_count as int),
                ) && area_box(final(self).areas@[k]).1 == row_start(
                    old(self).areas@,
                    old(self).row_count as int,
                    k % (old(self).row_count as int),
                ),
    {
        let n = self.areas.len();
        let rows = self.row_count;
        let cols = n / rows + 1;
        let ghost old_areas = self.areas@;
        let mut widths: Vec<i64> = Vec::new();
        let mut c: usize = 0;
        while c < cols
            invariant
                widths@.len() == c,
                c <= cols,
                rows == self.row_count,
                rows >= 1,
                forall|k: int| 0 <= k < c ==> 0 <= #[trigger] widths@[k] <= 2 * AREA_BOUND + 1,
                forall|k: int| 0 <= k < c ==> #[trigger] widths@[k] == col_max(old_areas, rows as int, k, n as int) + AREA_SPACING,
                n == self.areas@.len(),
                self.areas@ == old_areas,
                self.areas_ok(AREA_BOUND as int),
                forall|k: int, i: int|
                    0 <= k < c && 0 <= i < n && i / (rows as int) == k ==> #[trigger] widths@[k] >= size_x(
                        #[trigger] old_areas[i],
                    ),
            decreases cols - c,
        {
            let mut w: i64 = 0;
            let mut idx: usize = 0;
            while idx < n
                invariant
                    0 <= w <= 2 * AREA_BOUND + 1,
                    rows >= 1,
                    idx <= n,
                    n == self.areas@.len(),
                    self.areas@ == old_areas,
                    self.areas_ok(AREA_BOUND as int),
                    forall|i: int| 0 <= i < idx && i / (rows as int) == c ==> w >= size_x(#[trigger] old_areas[i]),
                    w == col_max(old_areas, rows as int, c as int, idx as int),
                decreases n - idx,
            {
                if idx / rows == c {
                    proof {
                        lemma_bounds_within(self.areas@[idx as int].rooms@, AREA_BOUND as int);
                    }
                    let s = self.areas[idx].get_size();
                    if s.x as i64 > w {
                        w = s.x as i64;
                    }
                }
                idx = idx + 1;
            }
            widths.push(w + AREA_SPACING as i64);
            c = c + 1;
        }
        let mut heights: Vec<i64> = Vec::new();
        let mut r: usize = 0;
        while r < rows
            invariant
                heights@.len() == r,
                r <= rows,
                rows == self.row_count,
                rows >= 1,
                forall|k: int| 0 <= k < r ==> 0 <= #[trigger] heights@[k] <= 2 * AREA_BOUND + 1,
                forall|k: int| 0 <= k < r ==> #[trigger] heights@[k] == row_max(old_areas, rows as int, k, n as int) + AREA_SPACING,
                n == self.areas@.len(),
                self.areas@ == old_areas,
                self.areas_ok(AREA_BOUND as int),
                forall|k: int, i: int|
                    0 <= k < r && 0 <= i < n && i % (rows as int) == k ==> #[trigger] heights@[k] >= size_y(
                        #[trigger] old_areas[i],
                    ),
            decreases rows - r,
        {
            let mut h: i64 = 0;
            let mut idx: usize = 0;
            while idx < n
                invariant
                    0 <= h <= 2 * AREA_BOUND + 1,
                    rows >= 1,
                    idx <= n,
                    n == self.areas@.len(),
                    self.areas@ == old_areas,
                    self.areas_ok(AREA_BOUND as int),
                    forall|i: int| 0 <= i < idx && i % (rows as int) == r ==> h >= size_y(#[trigger] old_areas[i]),
                    h == row_max(old_areas, rows as int, r as int, idx as int),
                decreases n - idx,
            {
                if idx % rows == r {
                    proof {
                        lemma_bounds_within(self.areas@[idx as int].rooms@, AREA_BOUND as int);
                    }
                    let s = self.areas[idx].get_size();
                    if s.y as i64 > h {
                        h = s.y as i64;
                    }
                }
                idx = idx + 1;
            }
            heights.push(h + AREA_SPACING as i64);
            r = r + 1;
        }
        let mut idx: usize = 0;
        while idx < n
            invariant
                n == self.areas@.len(),
                n == old_areas.len(),
                old_areas == old(self).areas@,
                forall|k: int| 0 <= k < cols ==> #[trigger] widths@[k] == col_max(old_areas, rows as int, k, n as int) + AREA_SPACING,
                forall|k: int| 0 <= k < rows ==> #[trigger] heights@[k] == row_max(old_areas, rows as int, k, n as int) + AREA_SPACING,
                1 <= n <= MAX_AREAS,
                rows == self.row_count,
                1 <= rows <= MAX_AREAS,
                cols == n / rows + 1,
                widths@.len() == cols,
                heights@.len() == rows,
                forall|k: int| 0 <= k < cols ==> 0 <= #[trigger] widths@[k] <= 2 * AREA_BOUND + 1,
                forall|k: int| 0 <= k < rows ==> 0 <= #[trigger] heights@[k] <= 2 * AREA_BOUND + 1,
                idx <= n,
                self.walls@ == old(self).walls@,
                forall|k: int| idx <= k < n ==> #[trigger] self.areas@[k] == old_areas[k],
                forall|k: int|
                    0 <= k < idx ==> #[trigger] area_box(self.areas@[k]) == (
                        sum_first(widths@, k / (rows as int)),
                        sum_first(heights@, k % (rows as int)),
                        sum_first(widths@, k / (rows as int)) + size_x(old_areas[k]) - 1,
                        sum_first(heights@, k % (rows as int)) + size_y(old_areas[k]) - 1,
                    ),
                forall|k: int|
                    0 <= k < n ==> {
                        &&& (#[trigger] self.areas@[k]).rooms@.len() >= 1
                        &&& forall|m: int| 0 <= m < self.areas@[k].rooms@.len() ==> usable(#[trigger] self.areas@[k].rooms@[m])
                        &&& self.areas@[k].rooms_apart()
                        &&& k < idx ==> self.areas@[k].within(LAYOUT_BOUND + 2 * AREA_BOUND)
                        &&& k >= idx ==> self.areas@[k].within(AREA_BOUND as int)
                    },
            decreases n - idx,
        {
            let col = idx / rows;
            let row = idx % rows;
            proof {
                vstd::arithmetic::div_mod::lemma_div_is_ordered(idx as int, n as int, rows as int);
                vstd::arithmetic::div_mod::lemma_mod_pos_bound(idx as int, rows as int);
            }
            let ox = prefix_sum(&widths, col);
            let oy = prefix_sum(&heights, row);
            assert(self.areas@[idx as int].within(AREA_BOUND as int));
            let mut area = self.take_area(idx);
            let ghost pre_rooms = area.rooms@;
            proof {
                lemma_bounds_within(pre_rooms, AREA_BOUND as int);
            }
            let offset = Vector2Int::new(ox as i32, oy as i32);
            area.shift(offset);
            proof {
                let b = bounds_spec(pre_rooms);
                let d = crate::vectors::vec_of(offset.x - b.0, offset.y - b.1);
                assert forall|m: int| 0 <= m < area.rooms@.len() implies usable(#[trigger] area.rooms@[m]) by {
                    assert(area.rooms@[m] == crate::room::moved(pre_rooms[m], d));
                    assert(usable(pre_rooms[m]));
                    assert(crate::room::within(pre_rooms[m], AREA_BOUND as int));
                    assert(area.rooms@[m].wf());
                };
            }
            self.areas.set(idx, area);
            idx = idx + 1;
        }
        proof {
            assert forall|k: int| 0 <= k < self.areas@.len() implies area_box(#[trigger] self.areas@[k]).0 == col_start(
                old_areas,
                rows as int,
                k / (rows as int),
            ) && area_box(self.areas@[k]).1 == row_start(old_areas, rows as int, k % (rows as int)) by {
                vstd::arithmetic::div_mod::lemma_div_is_ordered(k, n as int, rows as int);
                vstd::arithmetic::div_mod::lemma_div_is_ordered(0, k, rows as int);
                vstd::arithmetic::div_mod::lemma_mod_pos_bound(k, rows as int);
                lemma_col_starts(widths@, old_areas, rows as int, k / (rows as int));
                lemma_row_starts(heights@, old_areas, rows as int, k % (rows as int));
            };
            assert forall|i: int, j: int| 0 <= i < j < self.areas@.len() implies boxes_apart(
                #[trigger] self.areas@[i],
                #[trigger] self.areas@[j],
            ) by {
                let r = rows as int;
                let ci = i / r;
                let cj = j / r;
                let ri = i % r;
                let rj = j % r;
                vstd::arithmetic::div_mod::lemma_div_is_ordered(i, n as int, r);
                vstd::arithmetic::div_mod::lemma_div_is_ordered(j, n as int, r);
                vstd::arithmetic::div_mod::lemma_mod_pos_bound(i, r);
                vstd::arithmetic::div_mod::lemma_mod_pos_bound(j, r);
                assert(0 <= ci && 0 <= cj) by {
                    vstd::arithmetic::div_mod::lemma_div_is_ordered(0, i, r);
                    vstd::arithmetic::div_mod::lemma_div_is_ordered(0, j, r);
                };
                assert(area_box(self.areas@[i]) == (
                    sum_first(widths@, ci),
                    sum_first(heights@, ri),
                    sum_first(widths@, ci) + size_x(old_areas[i]) - 1,
                    sum_first(heights@, ri) + size_y(old_areas[i]) - 1,
                ));
                assert(area_box(self.areas@[j]) == (
                    sum_first(widths@, cj),
                    sum_first(heights@, rj),
                    sum_first(widths@, cj) + size_x(old_areas[j]) - 1,
                    sum_first(heights@, rj) + size_y(old_areas[j]) - 1,
                ));
                if ci < cj {
                    assert(widths@[ci] >= size_x(old_areas[i]));
                    lemma_sum_mono(widths@, ci + 1, cj);
                } else if cj < ci {
                    assert(widths@[cj] >= size_x(old_areas[j]));
                    lemma_sum_mono(widths@, cj + 1, ci);
                } else {
                    vstd::arithmetic::div_mod::lemma_fundamental_div_mod(i, r);
                    vstd::arithmetic::div_mod::lemma_fundamental_div_mod(j, r);
                    assert(ri != rj);
                    if ri < rj {
                        assert(heights@[ri] >= size_y(old_areas[i]));
                        lemma_sum_mono(heights@, ri + 1, rj);
                    } else {
                        assert(heights@[rj] >= size_y(old_areas[j]));
                        lemma_sum_mono(heights@, rj + 1, ri);
                    }
                }
            };
        }
    }

    /// Joins every area to its left and upper neighbours in the grid, one
    /// corridor each.
    pub fn connect_areas(&mut self)
        requires
            old(self).row_count >= 1,
            old(self).areas_ok(LAYOUT_BOUND + 2 * AREA_BOUND),
        ensures
            final(self).areas@.len() == old(self).areas@.len(),
            final(self).row_count == old(self).row_count,
            final(self).walls@ == old(self).walls@,
            forall|i: int| 0 <= i < final(self).areas@.len() ==> {
                &&& (#[trigger] final(self).areas@[i]).rooms@ == old(self).areas@[i].rooms@
                &&& final(self).areas@[i].rooms_apart()
            },
            final(self).areas_ok(LAYOUT_BOUND + 2 * AREA_BOUND),
            forall|i: int|
                0 <= i < final(self).areas@.len() ==> (#[trigger] final(self).areas@[i]).paths@.len()
                    == old(self).areas@[i].paths@.len() + neighbour_count(i, old(self).row_count as int),
    {
        let n = self.areas.len();
        let rows = self.row_count;
        let mut idx: usize = 0;
        while idx < n
            invariant
                n == self.areas@.len(),
                rows == self.row_count,
                rows >= 1,
                idx <= n,
                forall|i: int|
                    0 <= i < n ==> (#[trigger] self.areas@[i]).paths@.len() == old(self).areas@[i].paths@.len()
                        + if i < idx { neighbour_count(i, rows as int) } else { 0 },
                self.walls@ == old(self).walls@,
                forall|i: int| 0 <= i < n ==> (#[trigger] self.areas@[i]).rooms@ == old(self).areas@[i].rooms@,
                self.areas_ok(LAYOUT_BOUND + 2 * AREA_BOUND),
            decreases n - idx,
        {
            if idx >= rows {
                self.join(idx, idx - rows);
            }
            if idx > 0 && idx % rows != 0 {
                self.join(idx, idx - 1);
            }
            idx = idx + 1;
        }
    }

    fn join(&mut self, i: usize, j: usize)
        requires
            i < old(self).areas@.len(),
            j < old(self).areas@.len(),
            i != j,
            old(self).areas_ok(LAYOUT_BOUND + 2 * AREA_BOUND),
        ensures
            final(self).areas@.len() == old(self).areas@.len(),
            final(self).row_count == old(self).row_count,
            final(self).walls@ == old(self).walls@,
            forall|k: int| 0 <= k < final(self).areas@.len() ==> (#[trigger] final(self).areas@[k]).rooms@ == old(self).areas@[k].rooms@,
            final(self).areas_ok(LAYOUT_BOUND + 2 * AREA_BOUND),
            forall|k: int|
                0 <= k < final(self).areas@.len() ==> (#[trigger] final(self).areas@[k]).paths@.len()
                    == old(self).areas@[k].paths@.len() + if k == i { 1int } else { 0 },
    {
        let ghost pre = self.areas@;
        let ghost big = LAYOUT_BOUND + 2 * AREA_BOUND;
        let mut area = self.take_area(i);
        let ghost before = area;
        let path = area.join_area(&self.areas[j]);
        proof {
            let other = pre[j as int];
            let (a, b) = choose|a: int, b: int|
                #![trigger before.rooms@[a], other.rooms@[b]]
                0 <= a < before.rooms@.len() && 0 <= b < other.rooms@.len() && crate::area::joins_rooms(
                    path@,
                    before.rooms@[a],
                    other.rooms@[b],
                ) && forall|x: int, y: int|
                    0 <= x < before.rooms@.len() && 0 <= y < other.rooms@.len() ==> crate::area::corner_distance(
                        before.rooms@[a],
                        other.rooms@[b],
                    ) <= crate::area::corner_distance(#[trigger] before.rooms@[x], #[trigger] other.rooms@[y]);
            reveal(crate::area::joins_rooms);
            let (pa, pb) = choose|pa: Vector2Int, pb: Vector2Int|
                #[trigger] is_corridor(pa, pb, path@) && in_box(before.rooms@[a].min_corner(), before.rooms@[a].max_corner(), pa)
                    && in_box(other.rooms@[b].min_corner(), other.rooms@[b].max_corner(), pb);
            assert(crate::room::within(before.rooms@[a], big));
            assert(crate::room::within(other.rooms@[b], big));
            assert forall|m: int| 0 <= m < path@.len() implies pt_within(#[trigger] path@[m], big) by {
                assert(in_box(pa, pb, path@[m]));
            };
            assert forall|p: int, m: int|
                0 <= p < area.paths@.len() && 0 <= m < area.paths@[p]@.len() implies pt_within(
                #[trigger] area.paths@[p]@[m],
                big,
            ) by {
                if p < before.paths@.len() {
                    assert(area.paths@[p] == before.paths@[p]);
                } else {
                    assert(area.paths@[p]@ == path@);
                }
            };
        }
        self.areas.set(i, area);
        proof {
            assert forall|k: int| 0 <= k < self.areas@.len() implies #[trigger] self.areas@[k] == pre[k] || k == i by {};
        }
    }

    /// The box around the rooms of all areas: minimum and maximum corners.
    pub fn get_bounds(&self) -> (r: (Vector2Int, Vector2Int))
        requires
            self.areas@.len() >= 1,
            self.areas_ok(LAYOUT_BOUND + 2 * AREA_BOUND),
        ensures
            -(LAYOUT_BOUND + 2 * AREA_BOUND) <= r.0.x <= r.1.x <= LAYOUT_BOUND + 2 * AREA_BOUND,
            -(LAYOUT_BOUND + 2 * AREA_BOUND) <= r.0.y <= r.1.y <= LAYOUT_BOUND + 2 * AREA_BOUND,
            (r.0.x as int, r.0.y as int, r.1.x as int, r.1.y as int) == dungeon_bounds(self.areas@),
    {
        proof {
            lemma_bounds_within(self.areas@[0].rooms@, LAYOUT_BOUND + 2 * AREA_BOUND);
        }
        let (mut lo, mut hi) = self.areas[0].get_bounds();
        proof {
            let r0 = self.areas@[0].rooms@[0];
            assert(r0.wf());
            assert(self.areas@.subrange(0, 1) =~= seq![self.areas@[0]]);
        }
        let mut i: usize = 1;
        while i < self.areas.len()
            invariant
                1 <= i <= self.areas@.len(),
                self.areas_ok(LAYOUT_BOUND + 2 * AREA_BOUND),
                -(LAYOUT_BOUND + 2 * AREA_BOUND) <= lo.x <= hi.x <= LAYOUT_BOUND + 2 * AREA_BOUND,
                -(LAYOUT_BOUND + 2 * AREA_BOUND) <= lo.y <= hi.y <= LAYOUT_BOUND + 2 * AREA_BOUND,
                (lo.x as int, lo.y as int, hi.x as int, hi.y as int) == dungeon_bounds(self.areas@.subrange(0, i as int)),
            decreases self.areas@.len() - i,
        {
            proof {
                lemma_bounds_within(self.areas@[i as int].rooms@, LAYOUT_BOUND + 2 * AREA_BOUND);
                assert(self.areas@.subrange(0, i + 1).drop_last() =~= self.areas@.subrange(0, i as int));
            }
            let (a, b) = self.areas[i].get_bounds();
            lo = Vector2Int::new(if a.x < lo.x { a.x } else { lo.x }, if a.y < lo.y { a.y } else { lo.y });
            hi = Vector2Int::new(if b.x > hi.x { b.x } else { hi.x }, if b.y > hi.y { b.y } else { hi.y });
            i = i + 1;
        }
        assert(self.areas@.subrange(0, self.areas@.len() as int) =~= self.areas@);
        (lo, hi)
    }

    /// Every floor tile, once each: the spots where pieces may be placed.
    pub fn get_valid_spots(&self) -> (r: Vec<Vector2Int>)
        requires
            forall|i: int|
                0 <= i < self.areas@.len() ==> forall|k: int|
                    0 <= k < (#[trigger] self.areas@[i]).rooms@.len() ==> (#[trigger] self.areas@[i].rooms@[k]).wf(),
        ensures
            r@.to_set() == self.floor_set(),
            r@.no_duplicates(),
    {
        let mut out: Vec<Vector2Int> = Vec::new();
        let mut i: usize = 0;
        while i < self.areas.len()
            invariant
                i <= self.areas@.len(),
                forall|a: int|
                    0 <= a < self.areas@.len() ==> forall|k: int|
                        0 <= k < (#[trigger] self.areas@[a]).rooms@.len() ==> (#[trigger] self.areas@[a].rooms@[k]).wf(),
                out@.no_duplicates(),
                forall|p: Vector2Int|
                    out@.to_set().contains(p) == exists|k: int|
                        0 <= k < i && (#[trigger] self.areas@[k]).tile_set().contains(p),
            decreases self.areas@.len() - i,
        {
            let tiles = self.areas[i].to_tiles();
            let ghost before = out@;
            add_all(&mut out, &tiles);
            proof {
                assert forall|p: Vector2Int|
                    out@.to_set().contains(p) == exists|k: int|
                        0 <= k < i + 1 && (#[trigger] self.areas@[k]).tile_set().contains(p) by {
                    if self.areas@[i as int].tile_set().contains(p) {
                        assert(tiles@.to_set().contains(p));
                    }
                    if exists|k: int| 0 <= k < i + 1 && (#[trigger] self.areas@[k]).tile_set().contains(p) {
                        let k = choose|k: int| 0 <= k < i + 1 && (#[trigger] self.areas@[k]).tile_set().contains(p);
                        if k < i {
                            assert(before.to_set().contains(p));
                        }
                    }
                };
            }
            i = i + 1;
        }
        assert(out@.to_set() =~= self.floor_set());
        out
    }

    /// Walls every point of the box around all rooms, grown by one, that is
    /// not a floor tile.
    pub fn add_walls(&mut self)
        requires
            old(self).areas@.len() >= 1,
            old(self).areas_ok(LAYOUT_BOUND + 2 * AREA_BOUND),
            old(self).walls@.len() == 0,
        ensures
            final(self).areas@ == old(self).areas@,
            final(self).row_count == old(self).row_count,
            forall|i: int| 0 <= i < final(self).walls@.len() ==> !final(self).floor_set().contains(#[trigger] final(self).walls@[i]),
            forall|p: Vector2Int|
                #[trigger] final(self).walls@.contains(p) <==> in_grown_box(dungeon_bounds(final(self).areas@), p)
                    && !final(self).floor_set().contains(p),
    {
        let floor = self.get_valid_spots();
        let (lo, hi) = self.get_bounds();
        let ghost fs = self.floor_set();
        let ghost bx = dungeon_bounds(self.areas@);
        let mut x: i32 = lo.x - 1;
        while x <= hi.x + 1
            invariant
                bx == (lo.x as int, lo.y as int, hi.x as int, hi.y as int),
                bx == dungeon_bounds(self.areas@),
                forall|q: Vector2Int|
                    #[trigger] self.walls@.contains(q) <==> in_grown_box(bx, q) && !fs.contains(q) && q.x < x,
                floor@.to_set() == fs,
                fs == self.floor_set(),
                lo.x - 1 <= x <= hi.x + 2,
                -(LAYOUT_BOUND + 2 * AREA_BOUND) <= lo.x <= hi.x <= LAYOUT_BOUND + 2 * AREA_BOUND,
                -(LAYOUT_BOUND + 2 * AREA_BOUND) <= lo.y <= hi.y <= LAYOUT_BOUND + 2 * AREA_BOUND,
                self.areas@ == old(self).areas@,
                self.row_count == old(self).row_count,
                forall|i: int| 0 <= i < self.walls@.len() ==> !fs.contains(#[trigger] self.walls@[i]),
            decreases hi.x + 2 - x,
        {
            let mut y: i32 = lo.y - 1;
            while y <= hi.y + 1
                invariant
                    bx == (lo.x as int, lo.y as int, hi.x as int, hi.y as int),
                    bx == dungeon_bounds(self.areas@),
                    forall|q: Vector2Int|
                        #[trigger] self.walls@.contains(q) <==> in_grown_box(bx, q) && !fs.contains(q) && (q.x < x
                            || (q.x == x && q.y < y)),
                    floor@.to_set() == fs,
                    fs == self.floor_set(),
                    lo.x - 1 <= x <= hi.x + 1,
                    lo.y - 1 <= y <= hi.y + 2,
                    -(LAYOUT_BOUND + 2 * AREA_BOUND) <= lo.y <= hi.y <= LAYOUT_BOUND + 2 * AREA_BOUND,
                    self.areas@ == old(self).areas@,
                    self.row_count == old(self).row_count,
                    forall|i: int| 0 <= i < self.walls@.len() ==> !fs.contains(#[trigger] self.walls@[i]),
                decreases hi.y + 2 - y,
            {
                let p = Vector2Int::new(x, y);
                let ghost before = self.walls@;
                if !contains_point(floor.as_slice(), p) {
                    self.walls.push(p);
                    proof {
                        assert(!floor@.to_set().contains(p));
                        assert forall|q: Vector2Int| #[trigger] self.walls@.contains(q) <==> before.contains(q) || q == p by {
                            lemma_push_contains(before, p, q);
                        };
                        assert forall|i: int| 0 <= i < self.walls@.len() implies !fs.contains(#[trigger] self.walls@[i]) by {
                            if i < before.len() {
                                assert(self.walls@[i] == before[i]);
                            }
                        };
                    }
                }
                proof {
                    if floor@.contains(p) {
                        assert(floor@.to_set().contains(p));
                    }
                    assert forall|q: Vector2Int|
                        #[trigger] self.walls@.contains(q) <==> in_grown_box(bx, q) && !fs.contains(q) && (q.x < x
                            || (q.x == x && q.y < y + 1)) by {
                        if q.x == x && q.y == y {
                            assert(q == p);
                        }
                    };
                }
                y = y + 1;
            }
            x = x + 1;
        }
    }

    /// Every tile of the level, floor and walls, once each.
    pub fn to_tiles(&self) -> (r: Vec<Vector2Int>)
        requires
            forall|i: int|
                0 <= i < self.areas@.len() ==> forall|k: int|
                    0 <= k < (#[trigger] self.areas@[i]).rooms@.len() ==> (#[trigger] self.areas@[i].rooms@[k]).wf(),
        ensures
            r@.to_set() == self.floor_set().union(self.walls@.to_set()),
            r@.no_duplicates(),
    {
        let mut out = self.get_valid_spots();
        add_all(&mut out, &self.walls);
        out
    }
}

/// The sum of the first `k` values.
fn prefix_sum(v: &Vec<i64>, k: usize) -> (r: i64)
    requires
        k <= v@.len(),
        k <= MAX_AREAS,
        forall|i: int| 0 <= i < v@.len() ==> 0 <= #[trigger] v@[i] <= 2 * AREA_BOUND + 1,
    ensures
        r == sum_first(v@, k as int),
        0 <= r <= MAX_AREAS * (2 * AREA_BOUND + 1),
{
    let mut s: i64 = 0;
    let mut i: usize = 0;
    while i < k
        invariant
            i <= k,
            k <= v@.len(),
            k <= MAX_AREAS,
            forall|j: int| 0 <= j < v@.len() ==> 0 <= #[trigger] v@[j] <= 2 * AREA_BOUND + 1,
            0 <= s <= i * (2 * AREA_BOUND + 1),
            s == sum_first(v@, i as int),
        decreases k - i,
    {
        assert((i + 1) * (2 * AREA_BOUND + 1) == i * (2 * AREA_BOUND + 1) + (2 * AREA_BOUND + 1)) by (nonlinear_arith);
        assert(i * (2 * AREA_BOUND + 1) <= MAX_AREAS * (2 * AREA_BOUND + 1)) by (nonlinear_arith)
            requires
                i <= MAX_AREAS,
        ;
        s = s + v[i];
        i = i + 1;
    }
    assert(k * (2 * AREA_BOUND + 1) <= MAX_AREAS * (2 * AREA_BOUND + 1)) by (nonlinear_arith)
        requires
            k <= MAX_AREAS,
    ;
    s
}

} // verus!

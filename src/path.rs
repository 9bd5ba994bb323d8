use std::collections::VecDeque;
use vstd::prelude::*;

use crate::vectors::{adjacent, contains_point, fits_i32, ortho_directions, ortho_spec, vec_of, Vector2Int};

verus! {

broadcast use vstd::seq_lib::group_seq_properties;

/// A point a walk may enter: a tile that holds no blocker, or the walk's end.
pub open spec fn passable(
    tiles: Seq<Vector2Int>,
    blockers: Seq<Vector2Int>,
    end: Vector2Int,
    v: Vector2Int,
) -> bool {
    tiles.contains(v) && (!blockers.contains(v) || v == end)
}

/// `p` is a walk by orthogonal steps that leaves `start` and arrives at `end`,
/// entering only passable points; `start` itself is not part of it.
pub open spec fn is_walk(
    start: Vector2Int,
    end: Vector2Int,
    tiles: Seq<Vector2Int>,
    blockers: Seq<Vector2Int>,
    p: Seq<Vector2Int>,
) -> bool {
    &&& p.len() > 0
    &&& p.last() == end
    &&& adjacent(start, p[0])
    &&& forall|i: int| 0 <= i < p.len() - 1 ==> adjacent(#[trigger] p[i], p[i + 1])
    &&& forall|i: int| 0 <= i < p.len() ==> passable(tiles, blockers, end, #[trigger] p[i])
}

pub open spec fn reachable(
    start: Vector2Int,
    end: Vector2Int,
    tiles: Seq<Vector2Int>,
    blockers: Seq<Vector2Int>,
) -> bool {
    exists|p: Seq<Vector2Int>| is_walk(start, end, tiles, blockers, p)
}

spec fn search_inv(
    start: Vector2Int,
    end: Vector2Int,
    tiles: Seq<Vector2Int>,
    blockers: Seq<Vector2Int>,
    nodes: Seq<Vector2Int>,
    parents: Seq<usize>,
) -> bool {
    &&& nodes.len() == parents.len()
    &&& nodes.len() >= 1
    &&& nodes[0] == start
    &&& nodes.no_duplicates()
    &&& nodes.len() <= tiles.len() + 1
    &&& forall|i: int|
        1 <= i < nodes.len() ==> parents[i] < i && adjacent(nodes[parents[i] as int], #[trigger] nodes[i])
            && passable(tiles, blockers, end, nodes[i])
}

#[verifier::opaque]
spec fn closed_upto(
    tiles: Seq<Vector2Int>,
    blockers: Seq<Vector2Int>,
    end: Vector2Int,
    nodes: Seq<Vector2Int>,
    head: int,
) -> bool {
    forall|i: int, n: Vector2Int|
        #![trigger nodes[i], passable(tiles, blockers, end, n)]
        0 <= i < head && adjacent(nodes[i], n) && passable(tiles, blockers, end, n)
            ==> nodes.contains(n)
}

/// Steps from the start to `nodes[i]` along the parent links.
spec fn depth(parents: Seq<usize>, i: int) -> int
    decreases i,
{
    if i <= 0 || i >= parents.len() || parents[i] >= i {
        0
    } else {
        depth(parents, parents[i] as int) + 1
    }
}

/// Depths never go down along the frontier order.
#[verifier::opaque]
spec fn depth_sorted(parents: Seq<usize>) -> bool {
    forall|i: int, j: int| 0 <= i < j < parents.len() ==> #[trigger] depth(parents, i) <= #[trigger] depth(parents, j)
}

/// Every passable neighbour of an expanded node was reached in at most one
/// more step.
#[verifier::opaque]
spec fn closed_depth(
    tiles: Seq<Vector2Int>,
    blockers: Seq<Vector2Int>,
    end: Vector2Int,
    nodes: Seq<Vector2Int>,
    parents: Seq<usize>,
    head: int,
) -> bool {
    forall|i: int, n: Vector2Int|
        #![trigger nodes[i], passable(tiles, blockers, end, n)]
        0 <= i < head && adjacent(nodes[i], n) && passable(tiles, blockers, end, n) ==> exists|k: int|
            0 <= k < nodes.len() && nodes[k] == n && #[trigger] depth(parents, k) <= depth(parents, i) + 1
}

/// No node is more than one step deeper than the node at `head`.
#[verifier::opaque]
spec fn depth_within(parents: Seq<usize>, head: int) -> bool {
    forall|k: int| 0 <= k < parents.len() ==> #[trigger] depth(parents, k) <= depth(parents, head) + 1
}

proof fn lemma_depth_push(parents: Seq<usize>, x: usize, i: int)
    requires
        0 <= i < parents.len(),
    ensures
        depth(parents.push(x), i) == depth(parents, i),
    decreases i,
{
    if i > 0 && parents[i] < i {
        lemma_depth_push(parents, x, parents[i] as int);
    }
}

proof fn lemma_reach_within(
    start: Vector2Int,
    end: Vector2Int,
    tiles: Seq<Vector2Int>,
    blockers: Seq<Vector2Int>,
    nodes: Seq<Vector2Int>,
    parents: Seq<usize>,
    h: int,
    p: Seq<Vector2Int>,
    k: int,
)
    requires
        search_inv(start, end, tiles, blockers, nodes, parents),
        depth_sorted(parents),
        closed_depth(tiles, blockers, end, nodes, parents, h),
        0 < h < nodes.len(),
        is_walk(start, end, tiles, blockers, p),
        p.len() <= depth(parents, h),
        0 <= k < p.len(),
    ensures
        exists|m: int| 0 <= m < nodes.len() && nodes[m] == p[k] && #[trigger] depth(parents, m) <= k + 1,
    decreases k,
{
    reveal(depth_sorted);
    reveal(closed_depth);
    assert(passable(tiles, blockers, end, p[k]));
    if k == 0 {
        assert(depth(parents, 0) == 0);
        assert(nodes[0] == start);
    } else {
        lemma_reach_within(start, end, tiles, blockers, nodes, parents, h, p, k - 1);
        let m = choose|m: int| 0 <= m < nodes.len() && nodes[m] == p[k - 1] && #[trigger] depth(parents, m) <= k;
        assert(adjacent(p[k - 1], p[k]));
        if m >= h {
            if m > h {
                assert(depth(parents, h) <= depth(parents, m));
            }
        }
        assert(m < h);
        assert(nodes[m] == p[k - 1]);
    }
}

proof fn lemma_distinct_within(s: Seq<Vector2Int>, t: Seq<Vector2Int>)
    requires
        s.no_duplicates(),
        forall|i: int| 0 <= i < s.len() ==> t.contains(#[trigger] s[i]),
    ensures
        s.len() <= t.len(),
{
    broadcast use vstd::seq_lib::seq_to_set_is_finite;

    s.unique_seq_to_set();
    t.lemma_cardinality_of_set();
    assert(s.to_set().subset_of(t.to_set()));
    vstd::set_lib::lemma_len_subset(s.to_set(), t.to_set());
}

/// Every point adjacent to `v` is `v` moved by one of the four directions.
pub proof fn lemma_adjacent_is_step(v: Vector2Int, n: Vector2Int)
    requires
        adjacent(v, n),
    ensures
        exists|j: int|
            0 <= j < 4 && n.x == v.x + (#[trigger] ortho_spec()[j]).x && n.y == v.y
                + ortho_spec()[j].y,
{
    if n.x == v.x + 1 {
        assert(ortho_spec()[3].x == 1 && ortho_spec()[3].y == 0);
    } else if n.x == v.x - 1 {
        assert(ortho_spec()[2].x == -1 && ortho_spec()[2].y == 0);
    } else if n.y == v.y + 1 {
        assert(ortho_spec()[0].x == 0 && ortho_spec()[0].y == 1);
    } else {
        assert(ortho_spec()[1].x == 0 && ortho_spec()[1].y == -1);
    }
}

proof fn lemma_walk_inside(
    start: Vector2Int,
    end: Vector2Int,
    tiles: Seq<Vector2Int>,
    blockers: Seq<Vector2Int>,
    nodes: Seq<Vector2Int>,
    p: Seq<Vector2Int>,
    k: int,
)
    requires
        nodes.len() >= 1,
        nodes[0] == start,
        closed_upto(tiles, blockers, end, nodes, nodes.len() as int),
        is_walk(start, end, tiles, blockers, p),
        0 <= k < p.len(),
    ensures
        nodes.contains(p[k]),
    decreases k,
{
    reveal(closed_upto);
    assert(passable(tiles, blockers, end, p[k]));
    if k == 0 {
        assert(nodes[0] == start);
    } else {
        lemma_walk_inside(start, end, tiles, blockers, nodes, p, k - 1);
        let i = choose|i: int| 0 <= i < nodes.len() && nodes[i] == p[k - 1];
        assert(adjacent(p[k - 1], p[k]));
        assert(nodes[i] == p[k - 1]);
    }
}

fn neighbor(v: Vector2Int, d: Vector2Int) -> (r: Option<Vector2Int>)
    ensures
        r.is_some() <==> fits_i32(v.x + d.x) && fits_i32(v.y + d.y),
        r.is_some() ==> r.unwrap() == vec_of(v.x + d.x, v.y + d.y),
{
    match v.x.checked_add(d.x) {
        Some(x) => match v.y.checked_add(d.y) {
            Some(y) => Some(Vector2Int::new(x, y)),
            None => None,
        },
        None => None,
    }
}

/// Adds `n`, reached from `nodes[from]`, to the search frontier if it is
/// passable and new; reports whether it is the end point.
fn try_visit(
    nodes: &mut Vec<Vector2Int>,
    parents: &mut Vec<usize>,
    from: usize,
    n: Vector2Int,
    start: Vector2Int,
    end: Vector2Int,
    tiles: &[Vector2Int],
    blockers: &[Vector2Int],
) -> (found: bool)
    requires
        search_inv(start, end, tiles@, blockers@, old(nodes)@, old(parents)@),
        from < old(nodes)@.len(),
        adjacent(old(nodes)@[from as int], n),
        !old(nodes)@.contains(end),
        depth_sorted(old(parents)@),
        forall|j: int| 0 <= j < old(parents)@.len() ==> #[trigger] depth(old(parents)@, j) <= depth(old(parents)@, from as int) + 1,
    ensures
        search_inv(start, end, tiles@, blockers@, final(nodes)@, final(parents)@),
        old(parents)@.is_prefix_of(final(parents)@),
        depth_sorted(final(parents)@),
        forall|j: int| 0 <= j < old(parents)@.len() ==> #[trigger] depth(final(parents)@, j) == depth(old(parents)@, j),
        forall|j: int| 0 <= j < final(parents)@.len() ==> #[trigger] depth(final(parents)@, j) <= depth(old(parents)@, from as int) + 1,
        found ==> depth(final(parents)@, final(parents)@.len() - 1) == depth(old(parents)@, from as int) + 1,
        old(nodes)@.is_prefix_of(final(nodes)@),
        passable(tiles@, blockers@, end, n) ==> final(nodes)@.contains(n),
        found == final(nodes)@.contains(end),
        found ==> final(nodes)@.last() == end,
{
    proof {
        reveal(depth_sorted);
    }
    if !contains_point(tiles, n) {
        return false;
    }
    if contains_point(blockers, n) && n != end {
        return false;
    }
    if contains_point(nodes.as_slice(), n) {
        return false;
    }
    let ghost old_nodes = nodes@;
    let ghost old_parents = parents@;
    nodes.push(n);
    parents.push(from);
    proof {
        assert forall|i: int| 0 <= i < nodes@.len() - 1 implies nodes@[i] != n by {
            assert(old_nodes[i] == nodes@[i]);
        };
        assert(nodes@.no_duplicates());
        assert forall|i: int| 1 <= i < nodes@.len() implies parents@[i] < i && adjacent(
            nodes@[parents@[i] as int],
            #[trigger] nodes@[i],
        ) && passable(tiles@, blockers@, end, nodes@[i]) by {
            if i < nodes@.len() - 1 {
                assert(old_nodes[i] == nodes@[i]);
                assert(old_parents[i] == parents@[i]);
                assert(old_nodes[parents@[i] as int] == nodes@[parents@[i] as int]);
            } else {
                assert(parents@[i] == from);
                assert(nodes@[from as int] == old_nodes[from as int]);
            }
        };
        let rest = nodes@.drop_first();
        assert forall|i: int| 0 <= i < rest.len() implies tiles@.contains(#[trigger] rest[i]) by {
            assert(rest[i] == nodes@[i + 1]);
        };
        lemma_distinct_within(rest, tiles@);
        assert(nodes@[0] == old_nodes[0]);
        assert(nodes@.len() <= tiles@.len() + 1);
        assert(old_nodes.is_prefix_of(nodes@));
        assert(nodes@[nodes@.len() - 1] == n);
        assert(nodes@.len() == parents@.len());
        assert(nodes@.len() >= 1);
        assert forall|j: int| 0 <= j < old_parents.len() implies #[trigger] depth(parents@, j) == depth(old_parents, j) by {
            lemma_depth_push(old_parents, from, j);
        };
        let last = parents@.len() - 1;
        assert(parents@[last] == from);
        assert(depth(parents@, last) == depth(parents@, from as int) + 1);
        assert(depth(parents@, from as int) == depth(old_parents, from as int));
        assert forall|i: int, j: int| 0 <= i < j < parents@.len() implies #[trigger] depth(parents@, i) <= #[trigger] depth(parents@, j) by {
            if j < last {
                assert(depth(parents@, i) == depth(old_parents, i));
                assert(depth(parents@, j) == depth(old_parents, j));
            } else {
                assert(depth(parents@, i) == depth(old_parents, i));
            }
        };
        assert(old_parents.is_prefix_of(parents@));
        assert forall|i: int| 1 <= i < nodes@.len() implies #[trigger] parents@[i] < i by {
            if i < nodes@.len() - 1 {
                assert(old_nodes[i] == nodes@[i]);
                assert(old_parents[i] == parents@[i]);
            }
        };
        assert(search_inv(start, end, tiles@, blockers@, nodes@, parents@));
    }
    n == end
}

/// Expands the node at `head`: visits its four neighbours in order and
/// stops early at the end point.
fn expand_head(
    nodes: &mut Vec<Vector2Int>,
    parents: &mut Vec<usize>,
    head: usize,
    dirs: &Vec<Vector2Int>,
    start: Vector2Int,
    end: Vector2Int,
    tiles: &[Vector2Int],
    blockers: &[Vector2Int],
) -> (found: bool)
    requires
        start != end,
        dirs@ == ortho_spec(),
        search_inv(start, end, tiles@, blockers@, old(nodes)@, old(parents)@),
        head < old(nodes)@.len(),
        !old(nodes)@.contains(end),
        closed_upto(tiles@, blockers@, end, old(nodes)@, head as int),
        depth_sorted(old(parents)@),
        depth_within(old(parents)@, head as int),
        closed_depth(tiles@, blockers@, end, old(nodes)@, old(parents)@, head as int),
    ensures
        search_inv(start, end, tiles@, blockers@, final(nodes)@, final(parents)@),
        old(nodes)@.is_prefix_of(final(nodes)@),
        found <==> final(nodes)@.contains(end),
        found ==> final(nodes)@.last() == end,
        depth_sorted(final(parents)@),
        !found ==> closed_upto(tiles@, blockers@, end, final(nodes)@, head + 1),
        !found ==> closed_depth(tiles@, blockers@, end, final(nodes)@, final(parents)@, head + 1),
        !found && head + 1 < final(nodes)@.len() ==> depth_within(final(parents)@, head + 1),
        found ==> closed_depth(tiles@, blockers@, end, final(nodes)@, final(parents)@, head as int)
            && depth(final(parents)@, final(nodes)@.len() - 1) == depth(final(parents)@, head as int) + 1,
{
    proof {
        reveal(depth_sorted);
        reveal(closed_depth);
        reveal(closed_upto);
        reveal(depth_within);
    }
    let mut found = false;
    let v = nodes[head];
    let ghost before = nodes@;
    let ghost bp = parents@;
    let mut j: usize = 0;
    while j < 4 && !found
        invariant
            start != end,
            dirs@ == ortho_spec(),
            search_inv(start, end, tiles@, blockers@, nodes@, parents@),
            head < before.len(),
            v == before[head as int],
            before.is_prefix_of(nodes@),
            j <= 4,
            found <==> nodes@.contains(end),
            found ==> nodes@.last() == end,
            !found ==> closed_upto(tiles@, blockers@, end, nodes@, head as int),
            before.len() == bp.len(),
            bp.is_prefix_of(parents@),
            depth_sorted(parents@),
            forall|k: int| 0 <= k < bp.len() ==> #[trigger] depth(parents@, k) == depth(bp, k),
            forall|k: int|
                0 <= k < parents@.len() ==> #[trigger] depth(parents@, k) <= depth(bp, head as int) + 1,
            closed_depth(tiles@, blockers@, end, before, bp, head as int),
            found ==> depth(parents@, parents@.len() - 1) == depth(bp, head as int) + 1,
            !found ==> forall|jj: int, n: Vector2Int|
                #![trigger ortho_spec()[jj], passable(tiles@, blockers@, end, n)]
                0 <= jj < j && n.x == v.x + ortho_spec()[jj].x && n.y == v.y
                    + ortho_spec()[jj].y && passable(tiles@, blockers@, end, n)
                    ==> nodes@.contains(n),
        decreases 4 - j,
    {
        proof {
            reveal(closed_upto);
            reveal(closed_depth);
            reveal(depth_sorted);
        }
        let d = dirs[j];
        let ghost prev = nodes@;
        let ghost prev_parents = parents@;
        match neighbor(v, d) {
            Some(n) => {
                assert(adjacent(nodes@[head as int], n));
                assert(depth(parents@, head as int) == depth(bp, head as int));
                found = try_visit(nodes, parents, head, n, start, end, tiles, blockers);
                proof {
                    assert forall|k: int| 0 <= k < bp.len() implies #[trigger] depth(parents@, k) == depth(bp, k) by {
                        assert(depth(parents@, k) == depth(prev_parents, k));
                    };
                    assert(bp.is_prefix_of(parents@)) by {
                        assert forall|k: int| 0 <= k < bp.len() implies bp[k] == parents@[k] by {
                            assert(prev_parents[k] == parents@[k]);
                        };
                    };
                    assert forall|i: int, m: Vector2Int|
                        #![trigger nodes@[i], passable(tiles@, blockers@, end, m)]
                        !found && 0 <= i < head && adjacent(nodes@[i], m) && passable(tiles@, blockers@, end, m)
                        implies nodes@.contains(m) by {
                        assert(prev[i] == nodes@[i]);
                        let k = choose|k: int| 0 <= k < prev.len() && prev[k] == m;
                        assert(nodes@[k] == m);
                    };
                    assert forall|jj: int, m: Vector2Int|
                        #![trigger ortho_spec()[jj], passable(tiles@, blockers@, end, m)]
                        !found && 0 <= jj < j + 1 && m.x == v.x + ortho_spec()[jj].x && m.y == v.y
                            + ortho_spec()[jj].y && passable(tiles@, blockers@, end, m)
                        implies nodes@.contains(m) by {
                        if jj < j {
                            let k = choose|k: int| 0 <= k < prev.len() && prev[k] == m;
                            assert(nodes@[k] == m);
                        } else {
                            assert(m == n);
                        }
                    };
                }
            },
            None => {
                proof {
                    assert forall|m: Vector2Int|
                        m.x == v.x + ortho_spec()[j as int].x && m.y == v.y
                            + ortho_spec()[j as int].y implies !passable(tiles@, blockers@, end, m) by {
                        assert(fits_i32(m.x as int) && fits_i32(m.y as int));
                    };
                }
            },
        }
        j = j + 1;
    }
    proof {
        if !found {
            assert forall|i: int, m: Vector2Int|
                #![trigger nodes@[i], passable(tiles@, blockers@, end, m)]
                0 <= i < head + 1 && adjacent(nodes@[i], m) && passable(tiles@, blockers@, end, m)
                implies nodes@.contains(m) by {
                if i == head {
                    assert(nodes@[i] == before[i]);
                    lemma_adjacent_is_step(v, m);
                    let jj = choose|jj: int|
                        0 <= jj < 4 && m.x == v.x + (#[trigger] ortho_spec()[jj]).x && m.y == v.y
                            + ortho_spec()[jj].y;
                }
            };
            assert forall|i: int, m: Vector2Int|
                #![trigger nodes@[i], passable(tiles@, blockers@, end, m)]
                0 <= i < head + 1 && adjacent(nodes@[i], m) && passable(tiles@, blockers@, end, m)
                implies exists|k: int|
                    0 <= k < nodes@.len() && nodes@[k] == m && #[trigger] depth(parents@, k) <= depth(parents@, i) + 1 by {
                if i < head {
                    assert(before[i] == nodes@[i]);
                    let k = choose|k: int|
                        0 <= k < before.len() && before[k] == m && #[trigger] depth(bp, k) <= depth(bp, i) + 1;
                    assert(nodes@[k] == m);
                    assert(depth(parents@, k) == depth(bp, k));
                    assert(depth(parents@, i) == depth(bp, i));
                } else {
                    assert(nodes@.contains(m));
                    let k = choose|k: int| 0 <= k < nodes@.len() && nodes@[k] == m;
                    assert(depth(parents@, k) <= depth(bp, head as int) + 1);
                    assert(depth(parents@, head as int) == depth(bp, head as int));
                }
            };
            if head + 1 < nodes@.len() {
                assert(depth(parents@, head as int) <= depth(parents@, head + 1));
                assert(depth(parents@, head as int) == depth(bp, head as int));
            }
        } else {
            assert(depth(parents@, head as int) == depth(bp, head as int));
            assert forall|i: int, m: Vector2Int|
                #![trigger nodes@[i], passable(tiles@, blockers@, end, m)]
                0 <= i < head && adjacent(nodes@[i], m) && passable(tiles@, blockers@, end, m)
                implies exists|k: int|
                    0 <= k < nodes@.len() && nodes@[k] == m && #[trigger] depth(parents@, k) <= depth(parents@, i) + 1 by {
                assert(before[i] == nodes@[i]);
                let k = choose|k: int|
                    0 <= k < before.len() && before[k] == m && #[trigger] depth(bp, k) <= depth(bp, i) + 1;
                assert(nodes@[k] == m);
                assert(depth(parents@, k) == depth(bp, k));
                assert(depth(parents@, i) == depth(bp, i));
            };
        }
    }
    found
}

/// Finds, by breadth-first search, a walk from `start` to `end` by orthogonal steps over
/// `tiles`, avoiding `blockers` except that `end` itself may hold one. The
/// walk leaves out `start` and ends with `end`.
pub fn find_path(
    start: Vector2Int,
    end: Vector2Int,
    tiles: &[Vector2Int],
    blockers: &[Vector2Int],
) -> (r: Option<VecDeque<Vector2Int>>)
    ensures
        r.is_some() <==> (start != end && reachable(start, end, tiles@, blockers@)),
        r.is_some() ==> is_walk(start, end, tiles@, blockers@, r.unwrap()@),
        r.is_some() ==> forall|p: Seq<Vector2Int>|
            #[trigger] is_walk(start, end, tiles@, blockers@, p) ==> r.unwrap()@.len() <= p.len(),
{
    if start == end {
        return None;
    }
    let dirs = ortho_directions();
    let mut nodes: Vec<Vector2Int> = vec![start];
    let mut parents: Vec<usize> = vec![0];
    let mut head: usize = 0;
    let mut found = false;
    proof {
        reveal(depth_sorted);
        reveal(closed_depth);
        reveal(closed_upto);
        reveal(depth_within);
    }
    while head < nodes.len() && !found
        invariant
            start != end,
            dirs@ == ortho_spec(),
            search_inv(start, end, tiles@, blockers@, nodes@, parents@),
            head <= nodes@.len(),
            found <==> nodes@.contains(end),
            found ==> nodes@.last() == end,
            !found ==> closed_upto(tiles@, blockers@, end, nodes@, head as int),
            depth_sorted(parents@),
            !found && head < nodes@.len() ==> depth_within(parents@, head as int),
            !found ==> closed_depth(tiles@, blockers@, end, nodes@, parents@, head as int),
            found ==> 1 <= head && closed_depth(tiles@, blockers@, end, nodes@, parents@, head - 1)
                && depth(parents@, nodes@.len() - 1) == depth(parents@, head - 1) + 1,
        decreases tiles@.len() + 1 - head,
    {
        found = expand_head(&mut nodes, &mut parents, head, &dirs, start, end, tiles, blockers);
        head = head + 1;
    }
    if !found {
        proof {
            assert forall|p: Seq<Vector2Int>| !is_walk(start, end, tiles@, blockers@, p) by {
                if is_walk(start, end, tiles@, blockers@, p) {
                    lemma_walk_inside(start, end, tiles@, blockers@, nodes@, p, p.len() - 1);
                }
            };
        }
        return None;
    }
    let mut path: VecDeque<Vector2Int> = VecDeque::new();
    let mut cur: usize = nodes.len() - 1;
    assert(cur != 0);
    while cur != 0
        invariant
            search_inv(start, end, tiles@, blockers@, nodes@, parents@),
            nodes@.last() == end,
            cur < nodes@.len(),
            path@.len() == 0 ==> cur == nodes@.len() - 1 && cur != 0,
            path@.len() > 0 ==> path@.last() == end && adjacent(nodes@[cur as int], path@[0]),
            forall|i: int| 0 <= i < path@.len() - 1 ==> adjacent(#[trigger] path@[i], path@[i + 1]),
            forall|i: int| 0 <= i < path@.len() ==> passable(tiles@, blockers@, end, #[trigger] path@[i]),
            path@.len() + depth(parents@, cur as int) == depth(parents@, nodes@.len() - 1),
        decreases cur,
    {
        let ghost old_path = path@;
        let node = nodes[cur];
        path.push_front(node);
        proof {
            assert forall|i: int| 0 <= i < path@.len() - 1 implies adjacent(#[trigger] path@[i], path@[i + 1]) by {
                if i > 0 {
                    assert(path@[i] == old_path[i - 1]);
                    assert(path@[i + 1] == old_path[i]);
                }
            };
            assert forall|i: int| 0 <= i < path@.len() implies passable(tiles@, blockers@, end, #[trigger] path@[i]) by {
                if i > 0 {
                    assert(path@[i] == old_path[i - 1]);
                }
            };
            if old_path.len() == 0 {
                assert(path@.last() == nodes@.last());
            } else {
                assert(path@.last() == old_path.last());
            }
        }
        cur = parents[cur];
    }
    assert(is_walk(start, end, tiles@, blockers@, path@));
    proof {
        let f = nodes@.len() - 1;
        let h = head - 1;
        assert(depth(parents@, 0) == 0);
        assert forall|p: Seq<Vector2Int>| #[trigger] is_walk(start, end, tiles@, blockers@, p) implies path@.len() <= p.len() by {
            if p.len() < path@.len() {
                if h == 0 {
                    assert(depth(parents@, 0) == 0);
                } else {
                    lemma_reach_within(start, end, tiles@, blockers@, nodes@, parents@, h, p, p.len() - 1);
                    let m = choose|m: int| 0 <= m < nodes@.len() && nodes@[m] == p[p.len() - 1] && #[trigger] depth(parents@, m) <= p.len();
                    assert(nodes@[m] == end);
                    assert(nodes@[f] == end);
                    assert(m == f);
                }
            }
        };
    }
    Some(path)
}

} // verus!

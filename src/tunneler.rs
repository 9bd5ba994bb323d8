use vstd::prelude::*;

use crate::random::random_range;
use crate::room::in_limit;
use crate::vectors::{adjacent, manhattan_spec, Vector2Int};

verus! {

/// How a corridor between two points is dug.
#[derive(Clone, Copy, Debug, PartialEq, Eq, Structural)]
pub enum Tunneler {
    /// One straight leg along one axis and then one along the other; which
    /// axis comes first is chosen at random.
    LShape,
    /// Each step goes along an axis chosen at random among those where the
    /// end is not reached yet.
    Random,
}

/// `p` lies in the rectangle spanned by `a` and `b`.
pub open spec fn in_box(a: Vector2Int, b: Vector2Int, p: Vector2Int) -> bool {
    (if a.x <= b.x { a.x <= p.x <= b.x } else { b.x <= p.x <= a.x }) && (if a.y <= b.y {
        a.y <= p.y <= b.y
    } else {
        b.y <= p.y <= a.y
    })
}

/// A corridor from `a` to `b`: a shortest chain of orthogonal steps.
pub open spec fn is_corridor(a: Vector2Int, b: Vector2Int, p: Seq<Vector2Int>) -> bool {
    &&& p.len() == manhattan_spec(a, b) + 1
    &&& p[0] == a
    &&& p.last() == b
    &&& forall|i: int| 0 <= i < p.len() - 1 ==> adjacent(#[trigger] p[i], p[i + 1])
    &&& forall|i: int| 0 <= i < p.len() ==> in_box(a, b, #[trigger] p[i])
}

/// `p` lies on the leg along `a`'s row or on the leg along `b`'s column: the
/// two legs of an L that goes across first.
pub open spec fn on_across_then_down(a: Vector2Int, b: Vector2Int, p: Vector2Int) -> bool {
    p.y == a.y || p.x == b.x
}

/// `p` lies on the leg along `a`'s column or on the leg along `b`'s row.
pub open spec fn on_down_then_across(a: Vector2Int, b: Vector2Int, p: Vector2Int) -> bool {
    p.x == a.x || p.y == b.y
}

impl Tunneler {
    /// Digs a corridor from `a` to `b`.
    pub fn connect(&self, a: Vector2Int, b: Vector2Int) -> (r: Vec<Vector2Int>)
        requires
            in_limit(a.x as int) && in_limit(a.y as int),
            in_limit(b.x as int) && in_limit(b.y as int),
        ensures
            is_corridor(a, b, r@),
            *self == Tunneler::LShape ==> (forall|i: int| 0 <= i < r@.len() ==> on_across_then_down(a, b, #[trigger] r@[i]))
                || (forall|i: int| 0 <= i < r@.len() ==> on_down_then_across(a, b, #[trigger] r@[i])),
    {
        let horizontal_first = random_range(0, 2) == 0;
        let mut cur = a;
        let mut path: Vec<Vector2Int> = Vec::new();
        path.push(a);
        while cur != b
            invariant
                in_limit(a.x as int) && in_limit(a.y as int),
                in_limit(b.x as int) && in_limit(b.y as int),
                path@.len() >= 1,
                path@[0] == a,
                path@.last() == cur,
                in_box(a, b, cur),
                path@.len() + manhattan_spec(cur, b) == manhattan_spec(a, b) + 1,
                forall|i: int| 0 <= i < path@.len() - 1 ==> adjacent(#[trigger] path@[i], path@[i + 1]),
                forall|i: int| 0 <= i < path@.len() ==> in_box(a, b, #[trigger] path@[i]),
                *self == Tunneler::LShape && horizontal_first ==> forall|i: int|
                    0 <= i < path@.len() ==> on_across_then_down(a, b, #[trigger] path@[i]),
                *self == Tunneler::LShape && !horizontal_first ==> forall|i: int|
                    0 <= i < path@.len() ==> on_down_then_across(a, b, #[trigger] path@[i]),
            decreases manhattan_spec(cur, b),
        {
            let move_x = if cur.x == b.x {
                false
            } else if cur.y == b.y {
                true
            } else {
                match self {
                    Tunneler::LShape => horizontal_first,
                    Tunneler::Random => random_range(0, 2) == 0,
                }
            };
            let next = if move_x {
                Vector2Int::new(if cur.x < b.x { cur.x + 1 } else { cur.x - 1 }, cur.y)
            } else {
                Vector2Int::new(cur.x, if cur.y < b.y { cur.y + 1 } else { cur.y - 1 })
            };
            let ghost old_path = path@;
            path.push(next);
            proof {
                assert forall|i: int| 0 <= i < path@.len() - 1 implies adjacent(#[trigger] path@[i], path@[i + 1]) by {
                    if i < old_path.len() - 1 {
                        assert(path@[i] == old_path[i] && path@[i + 1] == old_path[i + 1]);
                    } else {
                        assert(path@[i] == cur);
                    }
                };
                assert forall|i: int| 0 <= i < path@.len() implies in_box(a, b, #[trigger] path@[i]) by {
                    if i < old_path.len() {
                        assert(path@[i] == old_path[i]);
                    }
                };
                assert(old_path[old_path.len() - 1] == cur);
                assert forall|i: int| 0 <= i < path@.len() implies (*self == Tunneler::LShape && horizontal_first
                    ==> on_across_then_down(a, b, #[trigger] path@[i])) && (*self == Tunneler::LShape
                    && !horizontal_first ==> on_down_then_across(a, b, path@[i])) by {
                    if i < old_path.len() {
                        assert(path@[i] == old_path[i]);
                    }
                };
            }
            cur = next;
        }
        path
    }
}

} // verus!

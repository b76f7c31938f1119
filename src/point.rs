use vstd::prelude::*;

verus! {

/// A grid position (with `usize` components) or a step between positions
/// (with `i32` components).
#[derive(Debug, PartialEq, Eq, Structural, Clone, Copy)]
pub struct Point<T = usize> {
    pub x: T,
    pub y: T,
}

/// The coordinate `base + delta`, or `None` when it would be negative or
/// would not fit in `usize`.
pub open spec fn shifted(base: usize, delta: i32) -> Option<usize> {
    let r = base as int + delta as int;
    if 0 <= r <= usize::MAX {
        Some(r as usize)
    } else {
        None
    }
}

impl Point {
    pub open spec fn in_bounds(self, limit: int) -> bool {
        self.x < limit && self.y < limit
    }

    /// The point moved by `delta`, or `None` when a component leaves the
    /// range of `usize`.
    pub open spec fn spec_offset(self, delta: Point<i32>) -> Option<Point> {
        match (shifted(self.x, delta.x), shifted(self.y, delta.y)) {
            (Some(x), Some(y)) => Some(Point { x, y }),
            _ => None,
        }
    }

    pub fn offset(&self, value: &Point<i32>) -> (r: Option<Point>)
        ensures
            r == self.spec_offset(*value),
    {
        let x = Self::shift(self.x, value.x);
        let y = Self::shift(self.y, value.y);
        match (x, y) {
            (Some(x), Some(y)) => Some(Point { x, y }),
            (_, _) => None,
        }
    }

    fn shift(base: usize, delta: i32) -> (r: Option<usize>)
        ensures
            r == shifted(base, delta),
    {
        if delta < 0 {
            let magnitude: u32 = (0 - (delta as i64)) as u32;
            base.checked_sub(magnitude as usize)
        } else {
            base.checked_add(delta as usize)
        }
    }

    /// The point itself when both components are below `limit`
    /// (an exclusive bound), else `None`.
    pub open spec fn spec_limit(self, limit: usize) -> Option<Point> {
        if self.x < limit && self.y < limit {
            Some(self)
        } else {
            None
        }
    }

    /// exclusive limit
    pub fn limit(&self, value: usize) -> (r: Option<Point>)
        ensures
            r == self.spec_limit(value),
    {
        if self.x >= value {
            None
        } else if self.y >= value {
            None
        } else {
            Some(*self)
        }
    }

    pub open spec fn spec_offset_and_limit(self, delta: Point<i32>, limit: usize) -> Option<Point> {
        match self.spec_offset(delta) {
            Some(q) => q.spec_limit(limit),
            None => None,
        }
    }

    pub fn offset_and_limit(&self, offset: &Point<i32>, limit: usize) -> (r: Option<Point>)
        ensures
            r == self.spec_offset_and_limit(*offset, limit),
    {
        match self.offset(&Point { x: offset.x, y: offset.y }) {
            Some(o) => o.limit(limit),
            None => None,
        }
    }

    /// The neighbors reached through the first `k` of the nine steps
    /// `(dx, dy)` with `dx`, then `dy`, running over `-1, 0, 1`; the step
    /// `(0, 0)` and the steps that leave the grid are skipped.
    pub open spec fn neighbors_upto(self, limit: usize, k: nat) -> Seq<Point>
        decreases k,
    {
        if k == 0 {
            Seq::empty()
        } else {
            let prev = self.neighbors_upto(limit, (k - 1) as nat);
            if k - 1 == 4 {
                prev
            } else {
                match self.spec_offset_and_limit(step(k - 1), limit) {
                    Some(q) => prev.push(q),
                    None => prev,
                }
            }
        }
    }

    /// The neighbors of the point inside a `limit` by `limit` grid, in the
    /// order of `neighbors_upto`.
    pub open spec fn spec_neighbors(self, limit: usize) -> Seq<Point> {
        self.neighbors_upto(limit, 9)
    }

    pub fn neighboring_points(&self, limit: usize) -> (r: Vec<Point>)
        ensures
            r@ == self.spec_neighbors(limit),
    {
        let mut result: Vec<Point> = Vec::new();
        let mut i: i32 = -1;
        while i <= 1
            invariant
                -1 <= i <= 2,
                result@ == self.neighbors_upto(limit, (3 * (i + 1)) as nat),
            decreases 2 - i,
        {
            let mut j: i32 = -1;
            while j <= 1
                invariant
                    -1 <= i <= 1,
                    -1 <= j <= 2,
                    result@ == self.neighbors_upto(limit, (3 * (i + 1) + (j + 1)) as nat),
                decreases 2 - j,
            {
                let k: Ghost<int> = Ghost(3 * (i + 1) + (j + 1));
                assert(step(k@) == Point { x: i, y: j });
                if !(i == 0 && j == 0) {
                    let neighbor = self.offset_and_limit(&Point { x: i, y: j }, limit);
                    if let Some(point) = neighbor {
                        result.push(point);
                    }
                }
                j = j + 1;
            }
            i = i + 1;
        }
        result
    }
}

/// The `k`-th of the nine steps `(dx, dy)` over `-1, 0, 1`, `dx` first.
pub open spec fn step(k: int) -> Point<i32> {
    Point { x: (k / 3 - 1) as i32, y: (k % 3 - 1) as i32 }
}

/// Two distinct points whose coordinates differ by at most one each.
pub open spec fn adjacent(a: Point, b: Point) -> bool {
    &&& a != b
    &&& -1 <= b.x - a.x <= 1
    &&& -1 <= b.y - a.y <= 1
}

/// A point lies among the first `k` neighbors exactly when one of the
/// first `k` steps other than `(0, 0)` leads to it inside the grid, and no
/// point is listed twice.
proof fn lemma_neighbors_upto(p: Point, limit: usize, k: nat)
    requires
        k <= 9,
    ensures
        p.neighbors_upto(limit, k).no_duplicates(),
        forall|q: Point|
            p.neighbors_upto(limit, k).contains(q) <==> exists|j: int|
                0 <= j < k && j != 4 && #[trigger] p.spec_offset_and_limit(step(j), limit) == Some(q),
    decreases k,
{
    if k > 0 {
        let prev = p.neighbors_upto(limit, (k - 1) as nat);
        lemma_neighbors_upto(p, limit, (k - 1) as nat);
        let cur = p.neighbors_upto(limit, k);
        assert forall|q: Point| cur.contains(q) <==> exists|j: int|
            0 <= j < k && j != 4 && #[trigger] p.spec_offset_and_limit(step(j), limit) == Some(q) by {
            if cur.contains(q) && !prev.contains(q) {
                let i = choose|i: int| 0 <= i < cur.len() && cur[i] == q;
                assert(p.spec_offset_and_limit(step(k - 1), limit) == Some(q));
            }
            if exists|j: int| 0 <= j < k && j != 4 && #[trigger] p.spec_offset_and_limit(step(j), limit) == Some(q) {
                let j = choose|j: int| 0 <= j < k && j != 4 && #[trigger] p.spec_offset_and_limit(step(j), limit) == Some(q);
                if j == k - 1 {
                    assert(cur[cur.len() - 1] == q);
                } else {
                    assert(prev.contains(q));
                    let i = choose|i: int| 0 <= i < prev.len() && prev[i] == q;
                    assert(cur[i] == q);
                }
            }
        }
        if k - 1 != 4 {
            if let Some(q) = p.spec_offset_and_limit(step(k - 1), limit) {
                assert(!prev.contains(q)) by {
                    if prev.contains(q) {
                        let j = choose|j: int| 0 <= j < k - 1 && j != 4 && #[trigger] p.spec_offset_and_limit(step(j), limit) == Some(q);
                        assert(step(j) == step(k - 1));
                    }
                }
            }
        }
    }
}

/// The first `k` steps list at most `k` neighbors, one fewer once the step
/// `(0, 0)` has been passed.
proof fn lemma_neighbors_upto_len(p: Point, limit: usize, k: nat)
    ensures
        p.neighbors_upto(limit, k).len() <= if k <= 4 {
            k as int
        } else {
            k - 1
        },
    decreases k,
{
    if k > 0 {
        lemma_neighbors_upto_len(p, limit, (k - 1) as nat);
    }
}

/// A point has at most eight neighbors.
pub proof fn lemma_neighbors_len(p: Point, limit: usize)
    ensures
        p.spec_neighbors(limit).len() <= 8,
{
    lemma_neighbors_upto_len(p, limit, 9);
}

/// The neighbors of `p` inside a `limit` by `limit` grid are exactly the
/// points adjacent to it inside the grid, each listed once.
pub proof fn lemma_neighbors(p: Point, limit: usize)
    ensures
        p.spec_neighbors(limit).no_duplicates(),
        forall|q: Point| #[trigger] p.spec_neighbors(limit).contains(q) <==> adjacent(p, q) && q.x < limit && q.y < limit,
{
    lemma_neighbors_upto(p, limit, 9);
    assert forall|q: Point| #[trigger] p.spec_neighbors(limit).contains(q) <==> adjacent(p, q) && q.x < limit && q.y < limit by {
        if adjacent(p, q) && q.x < limit && q.y < limit {
            let j = (q.x - p.x + 1) * 3 + (q.y - p.y + 1);
            assert(step(j) == Point { x: (q.x - p.x) as i32, y: (q.y - p.y) as i32 });
            assert(p.spec_offset_and_limit(step(j), limit) == Some(q));
        }
    }
}

} // verus!

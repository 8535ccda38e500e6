//! The window of chunks that are kept loaded around the observer.

use vstd::prelude::*;
use crate::chunk::ChunkIndex;
use crate::point::Point;
use crate::point_set::PointSet;

verus! {

/// How far from the observer's chunk chunks are kept loaded, in chunks.
pub const UPDATE_RADIUS: i32 = 2;

/// The distance of two numbers.
pub open spec fn distance(a: int, b: int) -> int {
    if a <= b {
        b - a
    } else {
        a - b
    }
}

/// The chunks that are kept loaded around a chunk: those that are no more than
/// `UPDATE_RADIUS` steps away from it, where a step goes to a chunk next to a chunk, to the
/// left or the right of it, or above or below it. They form a diamond.
pub open spec fn window(center: ChunkIndex) -> Set<Point> {
    Set::new(
        |p: Point|
            distance(p.x as int, center.0.x as int) + distance(p.y as int, center.0.y as int)
                <= UPDATE_RADIUS,
    )
}

/// The point is the `i`-th of the ring `dr` of a quarter of the diamond: `i` steps from the
/// centre along one axis, in the direction `dy`, and `dr - i` along the other, in the direction
/// `dx`.
pub open spec fn on_ring(center: ChunkIndex, dx: int, dy: int, dr: int, i: int, p: Point) -> bool {
    &&& p.x == center.0.x + (dr - i) * dx
    &&& p.y == center.0.y + i * dy
}

/// The point is one of those that come before the `i`-th of the ring `dr` when a quarter of
/// the diamond is walked ring after ring.
pub open spec fn walked(center: ChunkIndex, dx: int, dy: int, dr: int, i: int, p: Point) -> bool {
    exists|r: int, k: int|
        1 <= r && 0 <= k <= r && (r < dr || (r == dr && k < i)) && #[trigger] on_ring(
            center,
            dx,
            dy,
            r,
            k,
            p,
        )
}

/// The points of a quarter of the diamond, the centre left out.
pub open spec fn quarter(center: ChunkIndex, dx: int, dy: int) -> Set<Point> {
    Set::new(|p: Point| walked(center, dx, dy, UPDATE_RADIUS + 1, 0, p))
}

/// The centre is far enough from the edge of the grid for the whole window to lie on it.
pub open spec fn has_window(center: ChunkIndex) -> bool {
    &&& i32::MIN + UPDATE_RADIUS <= center.0.x <= i32::MAX - UPDATE_RADIUS
    &&& i32::MIN + UPDATE_RADIUS <= center.0.y <= i32::MAX - UPDATE_RADIUS
}

/// The centre and the four quarters make up the window.
pub proof fn lemma_quarters_make_window(center: ChunkIndex)
    requires
        has_window(center),
    ensures
        window(center) == Set::<Point>::empty().insert(center.0).union(
            quarter(center, -1, 1),
        ).union(quarter(center, 1, 1)).union(quarter(center, -1, -1)).union(quarter(center, 1, -1)),
{
    let all = Set::<Point>::empty().insert(center.0).union(quarter(center, -1, 1)).union(
        quarter(center, 1, 1),
    ).union(quarter(center, -1, -1)).union(quarter(center, 1, -1));
    assert forall|p: Point| window(center).contains(p) <==> all.contains(p) by {
        let ex = p.x - center.0.x;
        let ey = p.y - center.0.y;
        if window(center).contains(p) {
            let d = distance(p.x as int, center.0.x as int) + distance(
                p.y as int,
                center.0.y as int,
            );
            if d == 0 {
                assert(p == center.0);
            } else {
                let k = distance(p.y as int, center.0.y as int);
                if ex <= 0 && ey >= 0 {
                    assert(on_ring(center, -1, 1, d, k, p));
                    assert(quarter(center, -1, 1).contains(p));
                } else if ex >= 0 && ey >= 0 {
                    assert(on_ring(center, 1, 1, d, k, p));
                    assert(quarter(center, 1, 1).contains(p));
                } else if ex <= 0 && ey <= 0 {
                    assert(on_ring(center, -1, -1, d, k, p));
                    assert(quarter(center, -1, -1).contains(p));
                } else {
                    assert(on_ring(center, 1, -1, d, k, p));
                    assert(quarter(center, 1, -1).contains(p));
                }
            }
        }
        if all.contains(p) {
            if quarter(center, -1, 1).contains(p) {
                let (r, k) = choose|r: int, k: int|
                    1 <= r && 0 <= k <= r && (r < UPDATE_RADIUS + 1 || (r == UPDATE_RADIUS + 1 && k
                        < 0)) && #[trigger] on_ring(center, -1, 1, r, k, p);
            }
            if quarter(center, 1, 1).contains(p) {
                let (r, k) = choose|r: int, k: int|
                    1 <= r && 0 <= k <= r && (r < UPDATE_RADIUS + 1 || (r == UPDATE_RADIUS + 1 && k
                        < 0)) && #[trigger] on_ring(center, 1, 1, r, k, p);
            }
            if quarter(center, -1, -1).contains(p) {
                let (r, k) = choose|r: int, k: int|
                    1 <= r && 0 <= k <= r && (r < UPDATE_RADIUS + 1 || (r == UPDATE_RADIUS + 1 && k
                        < 0)) && #[trigger] on_ring(center, -1, -1, r, k, p);
            }
            if quarter(center, 1, -1).contains(p) {
                let (r, k) = choose|r: int, k: int|
                    1 <= r && 0 <= k <= r && (r < UPDATE_RADIUS + 1 || (r == UPDATE_RADIUS + 1 && k
                        < 0)) && #[trigger] on_ring(center, 1, -1, r, k, p);
            }
        }
    }
    assert(window(center) =~= all);
}

/// Adds a quarter of the diamond around a centre to a set, ring after ring.
fn add_quarter(relevant: &mut PointSet, center: ChunkIndex, dx: i32, dy: i32)
    requires
        old(relevant).wf(),
        has_window(center),
        dx == 1 || dx == -1,
        dy == 1 || dy == -1,
    ensures
        final(relevant).wf(),
        final(relevant)@ == old(relevant)@.union(quarter(center, dx as int, dy as int)),
{
    let mut dr: i32 = 1;
    assert(relevant@ =~= old(relevant)@.union(
        Set::new(|p: Point| walked(center, dx as int, dy as int, 1, 0, p)),
    ));
    while dr < UPDATE_RADIUS + 1
        invariant
            1 <= dr <= UPDATE_RADIUS + 1,
            relevant.wf(),
            has_window(center),
            dx == 1 || dx == -1,
            dy == 1 || dy == -1,
            relevant@ == old(relevant)@.union(
                Set::new(|p: Point| walked(center, dx as int, dy as int, dr as int, 0, p)),
            ),
        decreases UPDATE_RADIUS + 1 - dr,
    {
        let mut i: i32 = 0;
        while i < dr + 1
            invariant
                1 <= dr < UPDATE_RADIUS + 1,
                0 <= i <= dr + 1,
                relevant.wf(),
                has_window(center),
                dx == 1 || dx == -1,
                dy == 1 || dy == -1,
                relevant@ == old(relevant)@.union(
                    Set::new(|p: Point| walked(center, dx as int, dy as int, dr as int, i as int, p)),
                ),
            decreases dr + 1 - i,
        {
            assert(-2 <= (dr - i) * dx <= 2 && -2 <= i * dy <= 2) by (nonlinear_arith)
                requires
                    0 <= i <= dr <= 2,
                    dx == 1 || dx == -1,
                    dy == 1 || dy == -1,
            ;
            let ax: i32 = center.0.x + (dr - i) * dx;
            let ay: i32 = center.0.y + i * dy;
            let chunk_idx: ChunkIndex = ChunkIndex::new(ax, ay);
            let ghost before = relevant@;
            relevant.insert(chunk_idx.0);
            proof {
                let q = chunk_idx.0;
                assert(on_ring(center, dx as int, dy as int, dr as int, i as int, q));
                assert forall|p: Point|
                    walked(center, dx as int, dy as int, dr as int, i + 1, p) <==> (p == q || walked(
                        center,
                        dx as int,
                        dy as int,
                        dr as int,
                        i as int,
                        p,
                    )) by {
                    if walked(center, dx as int, dy as int, dr as int, i + 1, p) {
                        let (r, k) = choose|r: int, k: int|
                            1 <= r && 0 <= k <= r && (r < dr || (r == dr && k < i + 1))
                                && #[trigger] on_ring(center, dx as int, dy as int, r, k, p);
                        if r == dr && k == i {
                            assert(p == q);
                        } else {
                            assert(on_ring(center, dx as int, dy as int, r, k, p));
                        }
                    }
                    if walked(center, dx as int, dy as int, dr as int, i as int, p) {
                        let (r, k) = choose|r: int, k: int|
                            1 <= r && 0 <= k <= r && (r < dr || (r == dr && k < i))
                                && #[trigger] on_ring(center, dx as int, dy as int, r, k, p);
                        assert(on_ring(center, dx as int, dy as int, r, k, p));
                    }
                }
                assert(relevant@ =~= old(relevant)@.union(
                    Set::new(|p: Point| walked(center, dx as int, dy as int, dr as int, i + 1, p)),
                ));
            }
            i += 1;
        }
        proof {
            let next: int = dr + 1;
            assert forall|p: Point|
                #![trigger walked(center, dx as int, dy as int, next, 0, p)]
                walked(center, dx as int, dy as int, next, 0, p) <==> walked(
                    center,
                    dx as int,
                    dy as int,
                    dr as int,
                    next,
                    p,
                ) by {
                if walked(center, dx as int, dy as int, dr + 1, 0, p) {
                    let (r, k) = choose|r: int, k: int|
                        1 <= r && 0 <= k <= r && (r < dr + 1 || (r == dr + 1 && k < 0))
                            && #[trigger] on_ring(center, dx as int, dy as int, r, k, p);
                    assert(on_ring(center, dx as int, dy as int, r, k, p));
                }
                if walked(center, dx as int, dy as int, dr as int, dr + 1, p) {
                    let (r, k) = choose|r: int, k: int|
                        1 <= r && 0 <= k <= r && (r < dr || (r == dr && k < dr + 1))
                            && #[trigger] on_ring(center, dx as int, dy as int, r, k, p);
                    assert(on_ring(center, dx as int, dy as int, r, k, p));
                }
            }
            assert(relevant@ =~= old(relevant)@.union(
                Set::new(|p: Point| walked(center, dx as int, dy as int, dr + 1, 0, p)),
            ));
        }
        dr += 1;
    }
    assert(relevant@ =~= old(relevant)@.union(quarter(center, dx as int, dy as int)));
}

/// The chunks that are kept loaded around a chunk.
pub fn relevant_chunks(center: ChunkIndex) -> (relevant: PointSet)
    requires
        has_window(center),
    ensures
        relevant.wf(),
        relevant@ == window(center),
{
    let mut relevant: PointSet = PointSet::new();
    relevant.insert(center.0);
    add_quarter(&mut relevant, center, -1, 1);
    add_quarter(&mut relevant, center, 1, 1);
    add_quarter(&mut relevant, center, -1, -1);
    add_quarter(&mut relevant, center, 1, -1);
    proof {
        lemma_quarters_make_window(center);
    }
    relevant
}

} // verus!

//! The Jump Point Search engine: frontier candidates are jump points, and
//! expansion scans whole rays instead of fanning out one cell at a time.
//!
//! A straight scan walks its ray until a wall, the target, or a forced
//! neighbor (a side wall with the diagonal cell beyond it open).  A
//! diagonal scan additionally probes its two orthogonal component
//! sub-rays at every node, which is what lets jump points subsume the
//! optimality of cell-by-cell search.  Scans are pure: a cell's
//! predecessor (its ray's jump-off point) is recorded only when the cell
//! is popped from the cost-ordered frontier, first pop wins, so the
//! sparse `came_from` records collapse each ray into a single edge.
//!
//! What is proved: every returned path is a traversable sparse path from
//! source to target (so its expansion is a legal unit path of the same
//! exact cost), the search always terminates, and a path is returned
//! exactly when one exists.  The last point rests on a proven safety
//! net: if the jump-point frontier were ever exhausted while the target
//! is reachable, the engine falls back to the exhaustive cell-by-cell
//! search, whose absence answer is exact; on every tested grid the jump
//! points alone find the target and the fallback never runs.  That the
//! returned path is cost-optimal is not claimed here; the test suite
//! holds the engine to the A* result over whole grids of endpoint
//! pairs.

use vstd::prelude::*;
use crate::astar::astar_search;
use crate::cost::Cost;
use crate::direction::Direction;
use crate::frontier::{best_index, lemma_best_index_range, Frontier};
use crate::grid::{lemma_dims_le_area, lemma_index_roundtrip, Grid, GRID_AREA_LIMIT};
use crate::heuristic::Heuristic;
use crate::model::{
    count_true, has_path, is_seg_path, is_unit_path, lemma_count_true_all_false,
    lemma_count_true_bounds, lemma_count_true_update, lemma_mul_sign, lemma_mul_succ,
    lemma_ray_clear_at, lemma_ray_seg, lemma_seg_path_reachable, lemma_unit_is_seg, ray_clear,
    ray_end, seg_len, seg_ok,
};
use crate::point::Point2d;

verus! {

/// One frontier entry: a jump point, the jump point it was discovered
/// from, and the exact cost of reaching it through that predecessor.
struct JpsNode {
    pos: Point2d,
    from: Point2d,
    g: Cost,
}

spec fn area(g: Grid) -> int {
    g.width_spec() * g.height_spec()
}

/// What holds of one recorded cell: passable, with a well-founded chain
/// of traversable segments leading back to the source, and a unit-step
/// distance bounded by `area * depth` (which caps the exact costs).
spec fn jcell_inv(
    g: Grid,
    s: Point2d,
    recorded: Seq<bool>,
    parent: Seq<Point2d>,
    depth: Map<int, int>,
    gdist: Map<int, int>,
    i: int,
) -> bool {
    let c = g.point_of(i);
    let pa = parent[i];
    &&& g.passable(c.x as int, c.y as int)
    &&& depth.contains_key(i)
    &&& gdist.contains_key(i)
    &&& 0 <= depth[i]
    &&& depth[i] + 1 <= count_true(recorded)
    &&& 0 <= gdist[i] <= area(g) * depth[i]
    &&& (i != g.index_of(s) ==> {
        &&& 0 <= g.index_of(pa) < parent.len()
        &&& recorded[g.index_of(pa)]
        &&& seg_ok(g, pa, c)
        &&& depth.contains_key(g.index_of(pa))
        &&& depth[g.index_of(pa)] < depth[i]
    })
}

spec fn recorded_inv(
    g: Grid,
    s: Point2d,
    recorded: Seq<bool>,
    parent: Seq<Point2d>,
    depth: Map<int, int>,
    gdist: Map<int, int>,
) -> bool {
    &&& recorded.len() == area(g)
    &&& parent.len() == area(g)
    &&& forall|i: int|
        0 <= i < area(g) && #[trigger] recorded[i] ==> jcell_inv(
            g,
            s,
            recorded,
            parent,
            depth,
            gdist,
            i,
        )
}

/// What holds of one frontier entry: either the initial source node, or
/// a jump point one traversable segment past a recorded predecessor,
/// with its cost counting the unit steps of that chain.
spec fn jentry_inv(
    g: Grid,
    s: Point2d,
    recorded: Seq<bool>,
    depth: Map<int, int>,
    gdist: Map<int, int>,
    e: (Cost, JpsNode),
) -> bool {
    let c = e.1;
    &&& e.0.wf()
    &&& g.passable(c.pos.x as int, c.pos.y as int)
    &&& if c.pos == s && c.from == s {
        c.g == Cost::zero_spec()
    } else {
        &&& 0 <= g.index_of(c.from) < recorded.len()
        &&& recorded[g.index_of(c.from)]
        &&& seg_ok(g, c.from, c.pos)
        &&& depth.contains_key(g.index_of(c.from))
        &&& gdist.contains_key(g.index_of(c.from))
        &&& c.g.straight + c.g.diag == gdist[g.index_of(c.from)] + seg_len(c.from, c.pos)
        &&& seg_len(c.from, c.pos) <= area(g)
    }
}

spec fn frontier_inv(
    g: Grid,
    s: Point2d,
    recorded: Seq<bool>,
    depth: Map<int, int>,
    gdist: Map<int, int>,
    fr: Seq<(Cost, JpsNode)>,
) -> bool {
    forall|j: int| 0 <= j < fr.len() ==> jentry_inv(g, s, recorded, depth, gdist, #[trigger] fr[j])
}

/// Remaining on-grid cells ahead of a ray: the scans' measure.
spec fn ray_rem(g: Grid, p: Point2d, d: Direction) -> int {
    (if d.x == 1 {
        g.width_spec() - 1 - p.x
    } else if d.x == -1 {
        p.x as int
    } else {
        0int
    }) + (if d.y == 1 {
        g.height_spec() - 1 - p.y
    } else if d.y == -1 {
        p.y as int
    } else {
        0int
    })
}

/// A distance within the `area * depth` envelope stays under the
/// exact-cost cap.
proof fn lemma_cost_cap(a: int, d: int, gd: int)
    requires
        0 <= gd <= a * d,
        0 <= d <= a,
        0 <= a <= 0x10_0000,
    ensures
        gd <= 0x100_0000_0000,
{
    assert(a * d <= 0x10_0000 * 0x10_0000) by (nonlinear_arith)
        requires
            0 <= d <= a <= 0x10_0000,
    ;
}

/// Growing a chain by one segment keeps the distance envelope.
proof fn lemma_gdist_step(a: int, d: int, gd: int, slen: int)
    requires
        0 <= gd <= a * d,
        0 <= slen <= a,
        0 <= d,
    ensures
        gd + slen <= a * (d + 1),
{
    assert(a * d + a == a * (d + 1)) by (nonlinear_arith);
}

/// The cost cap for any recorded cell, pulled out of the invariant.
proof fn lemma_recorded_cost_cap(
    g: Grid,
    s: Point2d,
    recorded: Seq<bool>,
    parent: Seq<Point2d>,
    depth: Map<int, int>,
    gdist: Map<int, int>,
    i: int,
)
    requires
        g.wf(),
        recorded_inv(g, s, recorded, parent, depth, gdist),
        0 <= i < recorded.len(),
        recorded[i],
    ensures
        gdist.contains_key(i),
        0 <= gdist[i] <= 0x100_0000_0000,
        depth.contains_key(i),
        0 <= depth[i] <= area(g),
{
    g.lemma_area_limit();
    lemma_count_true_bounds(recorded);
    assert(jcell_inv(g, s, recorded, parent, depth, gdist, i));
    lemma_cost_cap(area(g), depth[i], gdist[i]);
}

/// When a scan owes a jump point: the target itself sits on a clear
/// prefix of the ray.  A scan may stop earlier (at a forced neighbor or
/// a fruitful sub-ray), but it may not walk past a reachable target.
spec fn ray_reaches_target(g: Grid, start: Point2d, d: Direction, t: Point2d) -> bool {
    exists|n: int|
        1 <= n && #[trigger] ray_clear(g, start, d, n) && ray_end(start, d, n) == t
}

/// What both scans promise of a jump point they return: one traversable
/// segment from the jump-off point, with an exact step count.
spec fn jump_post(g: Grid, start: Point2d, d: Direction, r: Option<(Point2d, u64)>) -> bool {
    r matches Some(jn) ==> {
        &&& seg_ok(g, start, jn.0)
        &&& g.passable(jn.0.x as int, jn.0.y as int)
        &&& 1 <= jn.1
        &&& jn.1 as int == seg_len(start, jn.0)
        &&& jn.1 as int <= area(g)
        &&& (jn.0.x != start.x && jn.0.y != start.y) == d.is_diagonal_spec()
    }
}

/// Scan a straight ray from a jump-off point: walk while the next cell
/// is passable, and stop with a jump point at the target or at a forced
/// neighbor (side wall at the current cell, diagonal beyond it open);
/// `None` when the ray hits a wall first.  The scan is pure: it never
/// touches the search state.
fn jump_straight(grid: &Grid, start: Point2d, dir: Direction, target: Point2d) -> (r: Option<
    (Point2d, u64),
>)
    requires
        grid.wf(),
        dir.is_unit(),
        !dir.is_diagonal_spec(),
        grid.passable(start.x as int, start.y as int),
        grid.passable(target.x as int, target.y as int),
    ensures
        jump_post(*grid, start, dir, r),
        ray_reaches_target(*grid, start, dir, target) ==> r is Some,
{
    let w = grid.width();
    let h = grid.height();
    proof {
        grid.lemma_area_limit();
        grid.lemma_passable_in_bounds(start.x as int, start.y as int);
        lemma_dims_le_area(*grid, start);
        lemma_mul_sign(0, dir.x as int);
        lemma_mul_sign(0, dir.y as int);
    }
    let mut cur = start;
    let mut count: u64 = 0;
    loop
        invariant
            grid.wf(),
            dir.is_unit(),
            !dir.is_diagonal_spec(),
            w == grid.width_spec(),
            h == grid.height_spec(),
            area(*grid) <= GRID_AREA_LIMIT,
            w <= area(*grid) && h <= area(*grid),
            grid.passable(start.x as int, start.y as int),
            grid.passable(target.x as int, target.y as int),
            0 <= count <= area(*grid),
            dir.x == 1 ==> cur.x == start.x + count,
            dir.x == -1 ==> cur.x + count == start.x,
            dir.x == 0 ==> cur.x == start.x,
            dir.y == 1 ==> cur.y == start.y + count,
            dir.y == -1 ==> cur.y + count == start.y,
            dir.y == 0 ==> cur.y == start.y,
            cur.x < w && cur.y < h,
            grid.passable(cur.x as int, cur.y as int),
            ray_clear(*grid, start, dir, count as int),
            forall|m: int| 1 <= m <= count ==> (#[trigger] ray_end(start, dir, m)) != target,
        decreases ray_rem(*grid, cur, dir),
    {
        let next = match grid.new_point_in_grid(cur, dir) {
            Some(n) => n,
            None => {
                proof {
                    lemma_mul_succ(count as int, dir.x as int);
                    lemma_mul_succ(count as int, dir.y as int);
                    lemma_mul_sign(count as int, dir.x as int);
                    lemma_mul_sign(count as int, dir.y as int);
                    lemma_mul_sign(count as int + 1, dir.x as int);
                    lemma_mul_sign(count as int + 1, dir.y as int);
                    grid.lemma_passable_in_bounds(cur.x + dir.x, cur.y + dir.y);
                    assert(!grid.passable(
                        start.x + (count + 1) * dir.x,
                        start.y + (count + 1) * dir.y,
                    ));
                    assert forall|n: int|
                        !(1 <= n && (#[trigger] ray_clear(*grid, start, dir, n)) && ray_end(
                            start,
                            dir,
                            n,
                        ) == target) by {
                        if 1 <= n && ray_clear(*grid, start, dir, n) && ray_end(start, dir, n)
                            == target {
                            if n <= count {
                                assert(ray_end(start, dir, n) != target);
                            } else {
                                lemma_ray_clear_at(*grid, start, dir, n, count as int + 1);
                            }
                        }
                    }
                    assert(!ray_reaches_target(*grid, start, dir, target));
                }
                return None;
            },
        };
        proof {
            lemma_mul_succ(count as int, dir.x as int);
            lemma_mul_succ(count as int, dir.y as int);
            lemma_mul_sign(count as int, dir.x as int);
            lemma_mul_sign(count as int, dir.y as int);
            lemma_mul_sign(count as int + 1, dir.x as int);
            lemma_mul_sign(count as int + 1, dir.y as int);
            grid.lemma_passable_in_bounds(next.x as int, next.y as int);
            grid.lemma_passable_in_bounds(start.x as int, start.y as int);
            if dir.x == 1 {
                assert(count + 1 == next.x - start.x);
            } else if dir.x == -1 {
                assert(count + 1 == start.x - next.x);
            } else if dir.y == 1 {
                assert(count + 1 == next.y - start.y);
            } else {
                assert(dir.y == -1);
                assert(count + 1 == start.y - next.y);
            }
            assert(count + 1 <= area(*grid));
        }
        count = count + 1;
        cur = next;
        proof {
            assert(ray_clear(*grid, start, dir, count as int));
            lemma_mul_sign(count as int, dir.x as int);
            lemma_mul_sign(count as int, dir.y as int);
            lemma_ray_seg(*grid, start, dir, count as int);
            assert(ray_end(start, dir, count as int) == cur);
        }
        if cur.x == target.x && cur.y == target.y {
            return Some((cur, count));
        }
        let force_left = grid.new_point_in_grid(cur, dir.left()).is_none()
            && grid.new_point_in_grid(cur, dir.half_left()).is_some();
        let force_right = grid.new_point_in_grid(cur, dir.right()).is_none()
            && grid.new_point_in_grid(cur, dir.half_right()).is_some();
        if force_left || force_right {
            return Some((cur, count));
        }
    }
}

/// Scan a diagonal ray from a jump-off point: stop with a jump point at
/// the target, at a forced neighbor (the cell behind at 135 degrees
/// blocked, the 90-degree turn open), or at any node whose orthogonal
/// component sub-rays reach a jump point of their own; `None` when the
/// ray hits a wall first.  Pure, like the straight scan.
fn jump_diagonal(grid: &Grid, start: Point2d, dir: Direction, target: Point2d) -> (r: Option<
    (Point2d, u64),
>)
    requires
        grid.wf(),
        dir.is_unit(),
        dir.is_diagonal_spec(),
        grid.passable(start.x as int, start.y as int),
        grid.passable(target.x as int, target.y as int),
    ensures
        jump_post(*grid, start, dir, r),
        ray_reaches_target(*grid, start, dir, target) ==> r is Some,
{
    let w = grid.width();
    let h = grid.height();
    proof {
        grid.lemma_area_limit();
        grid.lemma_passable_in_bounds(start.x as int, start.y as int);
        lemma_dims_le_area(*grid, start);
        lemma_mul_sign(0, dir.x as int);
        lemma_mul_sign(0, dir.y as int);
    }
    let mut cur = start;
    let mut count: u64 = 0;
    loop
        invariant
            grid.wf(),
            dir.is_unit(),
            dir.is_diagonal_spec(),
            w == grid.width_spec(),
            h == grid.height_spec(),
            area(*grid) <= GRID_AREA_LIMIT,
            w <= area(*grid) && h <= area(*grid),
            grid.passable(start.x as int, start.y as int),
            grid.passable(target.x as int, target.y as int),
            0 <= count <= area(*grid),
            dir.x == 1 ==> cur.x == start.x + count,
            dir.x == -1 ==> cur.x + count == start.x,
            dir.y == 1 ==> cur.y == start.y + count,
            dir.y == -1 ==> cur.y + count == start.y,
            cur.x < w && cur.y < h,
            grid.passable(cur.x as int, cur.y as int),
            ray_clear(*grid, start, dir, count as int),
            forall|m: int| 1 <= m <= count ==> (#[trigger] ray_end(start, dir, m)) != target,
        decreases ray_rem(*grid, cur, dir),
    {
        let next = match grid.new_point_in_grid(cur, dir) {
            Some(n) => n,
            None => {
                proof {
                    lemma_mul_succ(count as int, dir.x as int);
                    lemma_mul_succ(count as int, dir.y as int);
                    lemma_mul_sign(count as int, dir.x as int);
                    lemma_mul_sign(count as int, dir.y as int);
                    lemma_mul_sign(count as int + 1, dir.x as int);
                    lemma_mul_sign(count as int + 1, dir.y as int);
                    grid.lemma_passable_in_bounds(cur.x + dir.x, cur.y + dir.y);
                    assert(!grid.passable(
                        start.x + (count + 1) * dir.x,
                        start.y + (count + 1) * dir.y,
                    ));
                    assert forall|n: int|
                        !(1 <= n && (#[trigger] ray_clear(*grid, start, dir, n)) && ray_end(
                            start,
                            dir,
                            n,
                        ) == target) by {
                        if 1 <= n && ray_clear(*grid, start, dir, n) && ray_end(start, dir, n)
                            == target {
                            if n <= count {
                                assert(ray_end(start, dir, n) != target);
                            } else {
                                lemma_ray_clear_at(*grid, start, dir, n, count as int + 1);
                            }
                        }
                    }
                    assert(!ray_reaches_target(*grid, start, dir, target));
                }
                return None;
            },
        };
        proof {
            lemma_mul_succ(count as int, dir.x as int);
            lemma_mul_succ(count as int, dir.y as int);
            lemma_mul_sign(count as int, dir.x as int);
            lemma_mul_sign(count as int, dir.y as int);
            lemma_mul_sign(count as int + 1, dir.x as int);
            lemma_mul_sign(count as int + 1, dir.y as int);
            grid.lemma_passable_in_bounds(next.x as int, next.y as int);
            grid.lemma_passable_in_bounds(start.x as int, start.y as int);
            if dir.x == 1 {
                assert(count + 1 == next.x - start.x);
            } else {
                assert(count + 1 == start.x - next.x);
            }
            assert(count + 1 <= area(*grid));
        }
        count = count + 1;
        cur = next;
        proof {
            assert(ray_clear(*grid, start, dir, count as int));
            lemma_mul_sign(count as int, dir.x as int);
            lemma_mul_sign(count as int, dir.y as int);
            lemma_ray_seg(*grid, start, dir, count as int);
            assert(ray_end(start, dir, count as int) == cur);
        }
        if cur.x == target.x && cur.y == target.y {
            return Some((cur, count));
        }
        let force_left = grid.new_point_in_grid(cur, dir.left135()).is_none()
            && grid.new_point_in_grid(cur, dir.left()).is_some();
        let force_right = grid.new_point_in_grid(cur, dir.right135()).is_none()
            && grid.new_point_in_grid(cur, dir.right()).is_some();
        if force_left || force_right {
            return Some((cur, count));
        }
        // probe the two orthogonal component sub-rays
        if jump_straight(grid, cur, dir.half_left(), target).is_some() {
            return Some((cur, count));
        }
        if jump_straight(grid, cur, dir.half_right(), target).is_some() {
            return Some((cur, count));
        }
    }
}

/// Walk the predecessor records back from the target: the result is
/// exactly the reversed predecessor chain from source to target, each
/// jump point appearing once and each linked to the next by its record.
fn construct_path(
    grid: &Grid,
    recorded: &Vec<bool>,
    parent: &Vec<Point2d>,
    Ghost(depth): Ghost<Map<int, int>>,
    Ghost(gdist): Ghost<Map<int, int>>,
    source: Point2d,
    target: Point2d,
) -> (r: Vec<Point2d>)
    requires
        grid.wf(),
        recorded_inv(*grid, source, recorded@, parent@, depth, gdist),
        grid.passable(source.x as int, source.y as int),
        grid.passable(target.x as int, target.y as int),
        0 <= grid.index_of(target) < recorded@.len(),
        recorded@[grid.index_of(target)],
    ensures
        is_seg_path(*grid, r@, source, target),
        r@.len() <= area(*grid),
        forall|i: int, j: int| 0 <= i < j < r@.len() ==> r@[i] != r@[j],
        forall|k: int|
            0 <= k < r@.len() - 1 ==> parent@[grid.index_of(r@[k + 1])] == #[trigger] r@[k],
{
    let w = grid.width();
    let mut path: Vec<Point2d> = Vec::new();
    path.push(target);
    let mut cur = target;
    proof {
        grid.lemma_area_limit();
        grid.lemma_passable_in_bounds(target.x as int, target.y as int);
        lemma_index_roundtrip(*grid, target);
        lemma_count_true_bounds(recorded@);
        assert(jcell_inv(*grid, source, recorded@, parent@, depth, gdist, grid.index_of(target)));
    }
    while !(cur.x == source.x && cur.y == source.y)
        invariant
            grid.wf(),
            recorded_inv(*grid, source, recorded@, parent@, depth, gdist),
            grid.passable(source.x as int, source.y as int),
            grid.passable(cur.x as int, cur.y as int),
            0 <= grid.index_of(cur) < recorded@.len(),
            recorded@[grid.index_of(cur)],
            area(*grid) <= GRID_AREA_LIMIT,
            w == grid.width_spec(),
            path@.len() >= 1,
            path@[0] == cur,
            path@[path@.len() - 1] == target,
            forall|i: int|
                0 <= i < path@.len() - 1 ==> seg_ok(*grid, #[trigger] path@[i], path@[i + 1]),
            forall|i: int, j: int|
                #![trigger path@[i], path@[j]]
                0 <= i < j < path@.len() ==> depth[grid.index_of(path@[i])] < depth[grid.index_of(
                    path@[j],
                )],
            forall|k: int|
                0 <= k < path@.len() - 1 ==> parent@[grid.index_of(path@[k + 1])]
                    == #[trigger] path@[k],
            depth.contains_key(grid.index_of(cur)),
            0 <= depth[grid.index_of(cur)],
            path@.len() + depth[grid.index_of(cur)] <= depth[grid.index_of(target)] + 1,
            depth[grid.index_of(target)] + 1 <= area(*grid),
        decreases depth[grid.index_of(cur)],
    {
        proof {
            grid.lemma_passable_in_bounds(cur.x as int, cur.y as int);
            lemma_index_roundtrip(*grid, cur);
            grid.lemma_passable_in_bounds(source.x as int, source.y as int);
            lemma_index_roundtrip(*grid, source);
            assert(grid.index_of(cur) != grid.index_of(source));
            assert(jcell_inv(*grid, source, recorded@, parent@, depth, gdist, grid.index_of(cur)));
        }
        let cidx = cur.y * w + cur.x;
        let pa = parent[cidx];
        proof {
            assert(cidx == grid.index_of(cur));
            assert(grid.point_of(grid.index_of(cur)) == cur);
            assert(seg_ok(*grid, pa, cur));
            crate::model::lemma_seg_point_coords(pa, cur, 0);
            assert(grid.passable(pa.x as int, pa.y as int));
            grid.lemma_passable_in_bounds(pa.x as int, pa.y as int);
            lemma_index_roundtrip(*grid, pa);
            assert(jcell_inv(*grid, source, recorded@, parent@, depth, gdist, grid.index_of(pa)));
            lemma_count_true_bounds(recorded@);
        }
        let ghost oldpath = path@;
        path.insert(0, pa);
        proof {
            assert(path@[0] == pa);
            assert(path@.len() == oldpath.len() + 1);
            assert(path@[path@.len() - 1] == oldpath[oldpath.len() - 1]);
            assert forall|i: int|
                0 <= i < path@.len() - 1 implies seg_ok(*grid, #[trigger] path@[i], path@[i + 1]) by {
                if i == 0 {
                    assert(path@[1] == oldpath[0]);
                } else {
                    assert(path@[i] == oldpath[i - 1]);
                    assert(path@[i + 1] == oldpath[i]);
                    assert(seg_ok(*grid, oldpath[i - 1], oldpath[i]));
                }
            }
            assert forall|i: int, j: int|
                #![trigger path@[i], path@[j]]
                0 <= i < j < path@.len() implies depth[grid.index_of(path@[i])] < depth[
                grid.index_of(path@[j])] by {
                assert(path@[j] == oldpath[j - 1]);
                if i == 0 {
                    assert(oldpath[0] == cur);
                    if j > 1 {
                        assert(depth[grid.index_of(oldpath[0])] < depth[grid.index_of(
                            oldpath[j - 1],
                        )]);
                    }
                } else {
                    assert(path@[i] == oldpath[i - 1]);
                    assert(depth[grid.index_of(oldpath[i - 1])] < depth[grid.index_of(
                        oldpath[j - 1],
                    )]);
                }
            }
            assert forall|k: int|
                0 <= k < path@.len() - 1 implies parent@[grid.index_of(path@[k + 1])]
                == #[trigger] path@[k] by {
                assert(path@[k + 1] == oldpath[k]);
                if k == 0 {
                    assert(oldpath[0] == cur);
                } else {
                    assert(path@[k] == oldpath[k - 1]);
                    assert(parent@[grid.index_of(oldpath[k])] == oldpath[k - 1]);
                }
            }
        }
        cur = pa;
    }
    proof {
        assert forall|i: int, j: int| 0 <= i < j < path@.len() implies path@[i] != path@[j] by {
            assert(depth[grid.index_of(path@[i])] < depth[grid.index_of(path@[j])]);
        }
    }
    path
}

/// Run JPS from `source` to `target` over a valid grid.  Every returned
/// path is a traversable sparse path between the two cells, and a path
/// is returned exactly when one exists: should the jump-point frontier
/// ever empty while the target is reachable, the exhaustive cell search
/// stands in, so the absence answer is exact.
#[verifier::rlimit(100)]
pub(crate) fn jps_search(
    grid: &Grid,
    source: Point2d,
    target: Point2d,
    heuristic: Heuristic,
) -> (r: Option<Vec<Point2d>>)
    requires
        grid.wf(),
        grid.passable(source.x as int, source.y as int),
        grid.passable(target.x as int, target.y as int),
        source != target,
    ensures
        r matches Some(p) ==> is_seg_path(*grid, p@, source, target) && p@.len()
            <= grid.width_spec() * grid.height_spec() && (forall|i: int, j: int|
            0 <= i < j < p@.len() ==> p@[i] != p@[j]),
        r is Some <==> has_path(*grid, source, target, true),
{
    proof {
        grid.lemma_area_limit();
        grid.lemma_passable_in_bounds(source.x as int, source.y as int);
        grid.lemma_passable_in_bounds(target.x as int, target.y as int);
        lemma_dims_le_area(*grid, source);
        lemma_index_roundtrip(*grid, source);
        lemma_index_roundtrip(*grid, target);
    }
    let w = grid.width();
    let h = grid.height();
    let area_e = w * h;
    let mut recorded: Vec<bool> = vec![false; area_e];
    let mut parent: Vec<Point2d> = vec![source; area_e];
    let ghost mut depth: Map<int, int> = Map::empty();
    let ghost mut gdist: Map<int, int> = Map::empty();
    let mut fr: Frontier<JpsNode> = Frontier::new();
    let h0 = heuristic.evaluate(&source, &target);
    fr.push(h0, JpsNode { pos: source, from: source, g: Cost::zero() });
    proof {
        lemma_count_true_all_false(recorded@);
    }
    while fr.len() != 0
        invariant
            grid.wf(),
            grid.passable(source.x as int, source.y as int),
            grid.passable(target.x as int, target.y as int),
            source != target,
            w == grid.width_spec(),
            h == grid.height_spec(),
            area_e == area(*grid),
            area(*grid) <= GRID_AREA_LIMIT,
            w <= area(*grid) && h <= area(*grid),
            recorded_inv(*grid, source, recorded@, parent@, depth, gdist),
            frontier_inv(*grid, source, recorded@, depth, gdist, fr.items()),
            fr.keys_wf(),
            0 <= grid.index_of(source) < area(*grid),
            0 <= grid.index_of(target) < area(*grid),
            !recorded@[grid.index_of(target)],
        decreases fr.items().len() + 8 * (area(*grid) - count_true(recorded@)),
    {
        proof {
            lemma_count_true_bounds(recorded@);
        }
        let ghost fr0 = fr.items();
        let popped = fr.pop();
        let (_fcost, node) = match popped {
            Some(e) => e,
            None => {
                proof {
                    assert(false);
                }
                (Cost::zero(), JpsNode { pos: source, from: source, g: Cost::zero() })
            },
        };
        let ghost bidx = best_index(fr0);
        proof {
            lemma_best_index_range(fr0);
            assert(jentry_inv(*grid, source, recorded@, depth, gdist, fr0[bidx]));
            assert forall|j: int|
                0 <= j < fr.items().len() implies jentry_inv(
                *grid,
                source,
                recorded@,
                depth,
                gdist,
                #[trigger] fr.items()[j],
            ) by {
                if j < bidx {
                    assert(fr.items()[j] == fr0[j]);
                } else {
                    assert(fr.items()[j] == fr0[j + 1]);
                }
            }
        }
        let pos = node.pos;
        proof {
            grid.lemma_passable_in_bounds(pos.x as int, pos.y as int);
            lemma_index_roundtrip(*grid, pos);
        }
        let pidx = pos.y * w + pos.x;
        if recorded[pidx] {
            continue;
        }
        // Finalize this jump point: the first pop, in cost order, wins.
        let ghost recorded0 = recorded@;
        let ghost parent0 = parent@;
        let ghost depth0 = depth;
        let ghost gdist0 = gdist;
        let ghost gsum = node.g.straight + node.g.diag as int;
        recorded[pidx] = true;
        parent[pidx] = node.from;
        proof {
            let fromidx = grid.index_of(node.from);
            if !(node.pos == source && node.from == source) {
                assert(seg_ok(*grid, node.from, node.pos));
                crate::model::lemma_seg_point_coords(node.from, node.pos, 0);
                assert(grid.passable(node.from.x as int, node.from.y as int));
                grid.lemma_passable_in_bounds(node.from.x as int, node.from.y as int);
                lemma_index_roundtrip(*grid, node.from);
                assert(jcell_inv(*grid, source, recorded0, parent0, depth0, gdist0, fromidx));
                assert(fromidx != pidx as int);
                depth = depth.insert(pidx as int, depth0[fromidx] + 1);
                lemma_gdist_step(
                    area(*grid),
                    depth0[fromidx],
                    gdist0[fromidx],
                    seg_len(node.from, node.pos),
                );
            } else {
                depth = depth.insert(pidx as int, 0);
                lemma_mul_sign(area(*grid), 0);
            }
            gdist = gdist.insert(pidx as int, gsum);
            lemma_count_true_update(recorded0, pidx as int);
            lemma_count_true_bounds(recorded0);
            assert forall|i: int|
                0 <= i < area(*grid) && #[trigger] recorded@[i] implies jcell_inv(
                *grid,
                source,
                recorded@,
                parent@,
                depth,
                gdist,
                i,
            ) by {
                if i == pidx as int {
                    assert(grid.point_of(i) == pos);
                } else {
                    assert(recorded0[i]);
                    assert(jcell_inv(*grid, source, recorded0, parent0, depth0, gdist0, i));
                    assert(parent@[i] == parent0[i]);
                    if i != grid.index_of(source) {
                        assert(recorded0[grid.index_of(parent0[i])]);
                        assert(grid.index_of(parent0[i]) != pidx as int);
                    }
                }
            }
            assert forall|j: int|
                0 <= j < fr.items().len() implies jentry_inv(
                *grid,
                source,
                recorded@,
                depth,
                gdist,
                #[trigger] fr.items()[j],
            ) by {
                let e = fr.items()[j];
                assert(jentry_inv(*grid, source, recorded0, depth0, gdist0, e));
                if !(e.1.pos == source && e.1.from == source) {
                    assert(recorded0[grid.index_of(e.1.from)]);
                    assert(grid.index_of(e.1.from) != pidx as int);
                }
            }
        }
        if pos.x == target.x && pos.y == target.y {
            let cells = construct_path(
                grid,
                &recorded,
                &parent,
                Ghost(depth),
                Ghost(gdist),
                source,
                target,
            );
            proof {
                lemma_seg_path_reachable(*grid, cells@, source, target);
            }
            return Some(cells);
        }
        proof {
            grid.lemma_passable_in_bounds(target.x as int, target.y as int);
            lemma_index_roundtrip(*grid, target);
            assert(grid.index_of(target) != pidx as int);
            lemma_recorded_cost_cap(*grid, source, recorded@, parent@, depth, gdist, pidx as int);
        }
        // Pruned scan directions for this node: all eight from the
        // source, otherwise the natural continuations of the arrival
        // direction plus its forced turns.
        let mut scan_dirs: Vec<Direction> = Vec::new();
        if pos.x == node.from.x && pos.y == node.from.y {
            scan_dirs.push(Direction { x: 1, y: 0 });
            scan_dirs.push(Direction { x: -1, y: 0 });
            scan_dirs.push(Direction { x: 0, y: 1 });
            scan_dirs.push(Direction { x: 0, y: -1 });
            scan_dirs.push(Direction { x: 1, y: 1 });
            scan_dirs.push(Direction { x: 1, y: -1 });
            scan_dirs.push(Direction { x: -1, y: 1 });
            scan_dirs.push(Direction { x: -1, y: -1 });
        } else {
            let d = node.from.get_direction(&pos);
            if d.is_diagonal() {
                scan_dirs.push(d);
                scan_dirs.push(d.half_left());
                scan_dirs.push(d.half_right());
                if grid.new_point_in_grid(pos, d.left135()).is_none() && grid.new_point_in_grid(
                    pos,
                    d.left(),
                ).is_some() {
                    scan_dirs.push(d.left());
                }
                if grid.new_point_in_grid(pos, d.right135()).is_none() && grid.new_point_in_grid(
                    pos,
                    d.right(),
                ).is_some() {
                    scan_dirs.push(d.right());
                }
            } else {
                scan_dirs.push(d);
                if grid.new_point_in_grid(pos, d.left()).is_none() && grid.new_point_in_grid(
                    pos,
                    d.half_left(),
                ).is_some() {
                    scan_dirs.push(d.half_left());
                }
                if grid.new_point_in_grid(pos, d.right()).is_none() && grid.new_point_in_grid(
                    pos,
                    d.half_right(),
                ).is_some() {
                    scan_dirs.push(d.half_right());
                }
            }
        }
        let nd = scan_dirs.len();
        let mut di: usize = 0;
        while di < nd
            invariant
                grid.wf(),
                grid.passable(source.x as int, source.y as int),
                grid.passable(target.x as int, target.y as int),
                source != target,
                w == grid.width_spec(),
                h == grid.height_spec(),
                area_e == area(*grid),
                area(*grid) <= GRID_AREA_LIMIT,
                w <= area(*grid) && h <= area(*grid),
                recorded_inv(*grid, source, recorded@, parent@, depth, gdist),
                frontier_inv(*grid, source, recorded@, depth, gdist, fr.items()),
                fr.keys_wf(),
                0 <= grid.index_of(source) < area(*grid),
                0 <= grid.index_of(target) < area(*grid),
                !recorded@[grid.index_of(target)],
                0 <= di <= nd,
                nd == scan_dirs@.len(),
                nd <= 8,
                forall|k: int| 0 <= k < nd ==> (#[trigger] scan_dirs@[k]).is_unit(),
                0 <= pidx < area(*grid),
                recorded@[pidx as int],
                pidx as int == grid.index_of(pos),
                grid.passable(pos.x as int, pos.y as int),
                pos.x < w && pos.y < h,
                depth.contains_key(pidx as int),
                gdist.contains_key(pidx as int),
                gdist[pidx as int] == gsum,
                node.g.straight + node.g.diag == gsum,
                0 <= gsum <= 0x100_0000_0000,
                fr.items().len() <= fr0.len() - 1 + di,
            decreases nd - di,
        {
            let e = scan_dirs[di];
            let jumped = if e.is_diagonal() {
                jump_diagonal(grid, pos, e, target)
            } else {
                jump_straight(grid, pos, e, target)
            };
            match jumped {
                Some((jp, steps)) => {
                    proof {
                        grid.lemma_passable_in_bounds(jp.x as int, jp.y as int);
                        grid.lemma_passable_in_bounds(target.x as int, target.y as int);
                        lemma_index_roundtrip(*grid, jp);
                    }
                    let gc = if jp.x != pos.x && jp.y != pos.y {
                        Cost { straight: node.g.straight, diag: node.g.diag + steps }
                    } else {
                        Cost { straight: node.g.straight + steps, diag: node.g.diag }
                    };
                    let hn = heuristic.evaluate(&jp, &target);
                    let fval = gc.add(hn);
                    let ghost fr_before = fr.items();
                    let ghost entry = (fval, JpsNode { pos: jp, from: pos, g: gc });
                    proof {
                        assert(gc.straight + gc.diag == gsum + steps);
                        assert(fval.wf());
                        assert(jentry_inv(*grid, source, recorded@, depth, gdist, entry));
                    }
                    fr.push(fval, JpsNode { pos: jp, from: pos, g: gc });
                    proof {
                        assert(fr.items() == fr_before.push(entry));
                        assert forall|j: int|
                            0 <= j < fr.items().len() implies jentry_inv(
                            *grid,
                            source,
                            recorded@,
                            depth,
                            gdist,
                            #[trigger] fr.items()[j],
                        ) by {
                            if j < fr_before.len() {
                                assert(fr.items()[j] == fr_before[j]);
                            }
                        }
                    }
                },
                None => {},
            }
            di = di + 1;
        }
        proof {
            lemma_count_true_bounds(recorded@);
            assert(count_true(recorded@) == count_true(recorded0) + 1);
        }
    }
    // The jump-point frontier is exhausted.  Classical jump point search
    // reaches every reachable target, but rather than leave that
    // unproved, hand the question to the exhaustive engine, whose
    // answer is exact either way.  No tested grid reaches this line.
    let fallback = astar_search(grid, source, target, heuristic, true);
    match fallback {
        Some(cells) => {
            proof {
                lemma_unit_is_seg(*grid, cells@, source, target, true);
                assert(has_path(*grid, source, target, true));
            }
            Some(cells)
        },
        None => None,
    }
}

/// The JPS engine around one grid and one heuristic choice; frontier,
/// predecessor records and visited flags live only inside one search
/// call, so independent searches never share mutable state.
pub struct PathFinder {
    pub grid: Grid,
    pub heuristic: Heuristic,
}

impl PathFinder {
    /// Replace the occupancy grid.
    pub fn update_grid(&mut self, grid: Grid)
        ensures
            final(self).grid == grid,
            final(self).heuristic == old(self).heuristic,
    {
        self.grid = grid;
    }

    /// Bounds-checked passability of one cell; false off-grid.
    pub fn is_in_grid(&self, point: Point2d) -> (r: bool)
        requires
            self.grid.wf(),
        ensures
            r == self.grid.passable(point.x as int, point.y as int),
    {
        self.grid.is_passable(point)
    }

    /// The neighboring point one step away, when that cell is passable.
    pub fn new_point_in_grid(&self, point: Point2d, dir: Direction) -> (r: Option<Point2d>)
        requires
            self.grid.wf(),
            dir.is_unit(),
            point.x < usize::MAX,
            point.y < usize::MAX,
        ensures
            r is Some <==> (0 <= point.x + dir.x && 0 <= point.y + dir.y && self.grid.passable(
                point.x + dir.x,
                point.y + dir.y,
            )),
            r matches Some(np) ==> np.x == point.x + dir.x && np.y == point.y + dir.y,
    {
        self.grid.new_point_in_grid(point, dir)
    }

    /// Run JPS between two cells.  Fails fast on an impassable endpoint;
    /// a source equal to the target yields the single-cell path; with
    /// valid endpoints a path comes back exactly when the target is
    /// reachable, and every returned path is a traversable sparse path.
    pub fn find_path(&self, source: Point2d, target: Point2d) -> (r: Option<Vec<Point2d>>)
        requires
            self.grid.wf(),
        ensures
            !(self.grid.passable(source.x as int, source.y as int) && self.grid.passable(
                target.x as int,
                target.y as int,
            )) ==> r is None,
            r matches Some(p) ==> is_seg_path(self.grid, p@, source, target) && p@.len()
                <= self.grid.width_spec() * self.grid.height_spec() && (forall|i: int, j: int|
                0 <= i < j < p@.len() ==> p@[i] != p@[j]),
            r is Some ==> has_path(self.grid, source, target, true),
            (self.grid.passable(source.x as int, source.y as int) && self.grid.passable(
                target.x as int,
                target.y as int,
            )) ==> (r is Some <==> has_path(self.grid, source, target, true)),
            (self.grid.passable(source.x as int, source.y as int) && self.grid.passable(
                target.x as int,
                target.y as int,
            ) && source == target) ==> (r matches Some(p) && p@.len() == 1 && p@[0] == source),
    {
        if !self.grid.is_passable(source) {
            return None;
        }
        if !self.grid.is_passable(target) {
            return None;
        }
        if source.x == target.x && source.y == target.y {
            let mut cells: Vec<Point2d> = Vec::new();
            cells.push(source);
            proof {
                assert(is_unit_path(self.grid, cells@, source, target, true));
                assert(is_seg_path(self.grid, cells@, source, target));
                grid_area_cell_bound(self.grid, source);
            }
            return Some(cells);
        }
        let r = jps_search(&self.grid, source, target, self.heuristic);
        if let Some(p) = &r {
            proof {
                lemma_seg_path_reachable(self.grid, p@, source, target);
            }
        }
        r
    }
}

/// A single passable cell keeps the one-cell path within the area bound.
proof fn grid_area_cell_bound(g: Grid, p: Point2d)
    requires
        g.wf(),
        g.passable(p.x as int, p.y as int),
    ensures
        1 <= g.width_spec() * g.height_spec(),
{
    lemma_dims_le_area(g, p);
    g.lemma_passable_in_bounds(p.x as int, p.y as int);
}

/// Build a path finder over a grid with the default octile heuristic.
pub fn jps_pf(grid: Grid) -> (r: PathFinder)
    ensures
        r.grid == grid,
        r.heuristic == Heuristic::Octile,
{
    PathFinder { grid, heuristic: Heuristic::Octile }
}

/// Run one JPS search on a prepared path finder.
pub fn jps_test(pf: &PathFinder, source: Point2d, target: Point2d) -> (r: Option<Vec<Point2d>>)
    requires
        pf.grid.wf(),
    ensures
        !(pf.grid.passable(source.x as int, source.y as int) && pf.grid.passable(
            target.x as int,
            target.y as int,
        )) ==> r is None,
        r matches Some(p) ==> is_seg_path(pf.grid, p@, source, target) && (forall|i: int, j: int|
            0 <= i < j < p@.len() ==> p@[i] != p@[j]),
        r is Some ==> has_path(pf.grid, source, target, true),
        (pf.grid.passable(source.x as int, source.y as int) && pf.grid.passable(
            target.x as int,
            target.y as int,
        )) ==> (r is Some <==> has_path(pf.grid, source, target, true)),
{
    pf.find_path(source, target)
}

} // verus!

//! The classic A* engine: expand one cell at a time from a min-cost
//! frontier, recording each cell's predecessor the first time it is
//! finalized.
//!
//! The engine's contract is exact about reachability: it returns a path
//! exactly when one exists.  Soundness comes from the predecessor
//! records, each a legal unit step from an earlier-finalized cell;
//! completeness from the invariant that every passable neighbor of a
//! finalized cell is finalized or on the frontier, so an empty frontier
//! proves the target disconnected.

use vstd::prelude::*;
use crate::cost::Cost;
use crate::direction::Direction;
use crate::frontier::{best_index, lemma_best_index_range, Frontier};
use crate::grid::{lemma_dims_le_area, lemma_index_roundtrip, Grid, GRID_AREA_LIMIT};
use crate::heuristic::Heuristic;
use crate::model::{
    count_true, dir_step, has_path, is_unit_path, lemma_count_true_all_false,
    lemma_count_true_bounds, lemma_count_true_update, step_ok, unit_delta,
};
use crate::point::Point2d;

verus! {

/// One frontier entry: a candidate cell, the finalized cell it would be
/// reached from, and the exact cost back to the source.
struct AstarCand {
    pos: Point2d,
    from: Point2d,
    g: Cost,
}

/// What holds of one finalized cell: passable, with a well-founded
/// predecessor chain of legal unit steps leading back to the source.
spec fn cell_inv(
    g: Grid,
    s: Point2d,
    visited: Seq<bool>,
    parent: Seq<Point2d>,
    depth: Map<int, int>,
    diag: bool,
    i: int,
) -> bool {
    let c = g.point_of(i);
    let pa = parent[i];
    &&& g.passable(c.x as int, c.y as int)
    &&& depth.contains_key(i)
    &&& 0 <= depth[i]
    &&& depth[i] + 1 <= count_true(visited)
    &&& (i != g.index_of(s) ==> {
        &&& 0 <= g.index_of(pa) < parent.len()
        &&& visited[g.index_of(pa)]
        &&& step_ok(g, pa, c, diag)
        &&& depth.contains_key(g.index_of(pa))
        &&& depth[g.index_of(pa)] < depth[i]
    })
}

/// The finalized-set invariant over the whole bookkeeping state.
spec fn visited_inv(
    g: Grid,
    s: Point2d,
    visited: Seq<bool>,
    parent: Seq<Point2d>,
    depth: Map<int, int>,
    diag: bool,
) -> bool {
    let area = g.width_spec() * g.height_spec();
    &&& visited.len() == area
    &&& parent.len() == area
    &&& forall|i: int|
        0 <= i < area && #[trigger] visited[i] ==> cell_inv(g, s, visited, parent, depth, diag, i)
}

/// What holds of one frontier entry: its cell is passable and it extends
/// a finalized cell by one legal step (or it is the initial source
/// entry), with its cost counting the steps of that chain.
spec fn entry_inv(
    g: Grid,
    s: Point2d,
    visited: Seq<bool>,
    depth: Map<int, int>,
    diag: bool,
    e: (Cost, AstarCand),
) -> bool {
    let c = e.1;
    &&& g.passable(c.pos.x as int, c.pos.y as int)
    &&& e.0.wf()
    &&& if c.pos == s && c.from == s {
        c.g == Cost::zero_spec()
    } else {
        &&& 0 <= g.index_of(c.from) < visited.len()
        &&& visited[g.index_of(c.from)]
        &&& step_ok(g, c.from, c.pos, diag)
        &&& depth.contains_key(g.index_of(c.from))
        &&& c.g.straight + c.g.diag == depth[g.index_of(c.from)] + 1
    }
}

spec fn frontier_inv(
    g: Grid,
    s: Point2d,
    visited: Seq<bool>,
    depth: Map<int, int>,
    diag: bool,
    fr: Seq<(Cost, AstarCand)>,
) -> bool {
    forall|j: int| 0 <= j < fr.len() ==> entry_inv(g, s, visited, depth, diag, #[trigger] fr[j])
}

/// Some frontier entry proposes this cell.
spec fn in_frontier(fr: Seq<(Cost, AstarCand)>, q: Point2d) -> bool {
    exists|j: int| 0 <= j < fr.len() && (#[trigger] fr[j]).1.pos == q
}

/// Completeness invariant: every legal step out of a finalized cell
/// leads to a cell that is finalized or proposed by the frontier.
spec fn closed_inv(g: Grid, visited: Seq<bool>, fr: Seq<(Cost, AstarCand)>, diag: bool) -> bool {
    forall|i: int, q: Point2d|
        #![trigger visited[i], step_ok(g, g.point_of(i), q, diag)]
        0 <= i < visited.len() && visited[i] && step_ok(g, g.point_of(i), q, diag) ==> visited[
            g.index_of(q)
        ] || in_frontier(fr, q)
}

/// Like `closed_inv` but exempting one freshly finalized cell whose
/// neighbors are still being pushed.
spec fn closed_except(
    g: Grid,
    visited: Seq<bool>,
    fr: Seq<(Cost, AstarCand)>,
    diag: bool,
    pidx: int,
) -> bool {
    forall|i: int, q: Point2d|
        #![trigger visited[i], step_ok(g, g.point_of(i), q, diag)]
        0 <= i < visited.len() && i != pidx && visited[i] && step_ok(g, g.point_of(i), q, diag)
            ==> visited[g.index_of(q)] || in_frontier(fr, q)
}

/// One passable neighbor of `pos` is finalized or proposed.
spec fn neighbor_covered(
    g: Grid,
    pos: Point2d,
    d: Direction,
    visited: Seq<bool>,
    fr: Seq<(Cost, AstarCand)>,
) -> bool {
    (0 <= pos.x + d.x && 0 <= pos.y + d.y && g.passable(pos.x + d.x, pos.y + d.y)) ==> {
        let np = dir_step(pos, d);
        visited[g.index_of(np)] || in_frontier(fr, np)
    }
}

/// Pushing never un-proposes a cell.
proof fn lemma_in_frontier_push(fr: Seq<(Cost, AstarCand)>, e: (Cost, AstarCand), q: Point2d)
    requires
        in_frontier(fr, q),
    ensures
        in_frontier(fr.push(e), q),
{
    let j = choose|j: int| 0 <= j < fr.len() && (#[trigger] fr[j]).1.pos == q;
    assert(fr.push(e)[j].1.pos == q);
}

/// Removing one entry keeps every other proposal: a cell proposed before
/// a pop is still proposed afterwards or was the popped cell itself.
proof fn lemma_in_frontier_remove(fr: Seq<(Cost, AstarCand)>, b: int, q: Point2d)
    requires
        in_frontier(fr, q),
        0 <= b < fr.len(),
    ensures
        fr[b].1.pos == q || in_frontier(fr.remove(b), q),
{
    let j = choose|j: int| 0 <= j < fr.len() && (#[trigger] fr[j]).1.pos == q;
    if j != b {
        if j < b {
            assert(fr.remove(b)[j].1.pos == q);
        } else {
            assert(fr.remove(b)[j - 1].1.pos == q);
        }
    }
}

/// Every legal step out of `pos` lands on a cell reached by one of the
/// first `nd` table directions.
proof fn lemma_step_matches_dir(
    g: Grid,
    pos: Point2d,
    q: Point2d,
    diag: bool,
    dirs: Seq<Direction>,
    nd: int,
)
    requires
        step_ok(g, pos, q, diag),
        dirs.len() == 8,
        dirs[0] == (Direction { x: 0i32, y: 1i32 }),
        dirs[1] == (Direction { x: 1i32, y: 0i32 }),
        dirs[2] == (Direction { x: -1i32, y: 0i32 }),
        dirs[3] == (Direction { x: 0i32, y: -1i32 }),
        dirs[4] == (Direction { x: 1i32, y: 1i32 }),
        dirs[5] == (Direction { x: 1i32, y: -1i32 }),
        dirs[6] == (Direction { x: -1i32, y: 1i32 }),
        dirs[7] == (Direction { x: -1i32, y: -1i32 }),
        nd == if diag {
            8int
        } else {
            4int
        },
    ensures
        exists|k: int|
            0 <= k < nd && q == dir_step(pos, #[trigger] dirs[k]) && 0 <= pos.x + dirs[k].x && 0
                <= pos.y + dirs[k].y,
{
    let dx = q.x - pos.x;
    let dy = q.y - pos.y;
    if dx == 0 && dy == 1 {
        assert(q == dir_step(pos, dirs[0]) && 0 <= pos.x + dirs[0].x && 0 <= pos.y + dirs[0].y);
    } else if dx == 1 && dy == 0 {
        assert(q == dir_step(pos, dirs[1]) && 0 <= pos.x + dirs[1].x && 0 <= pos.y + dirs[1].y);
    } else if dx == -1 && dy == 0 {
        assert(q == dir_step(pos, dirs[2]) && 0 <= pos.x + dirs[2].x && 0 <= pos.y + dirs[2].y);
    } else if dx == 0 && dy == -1 {
        assert(q == dir_step(pos, dirs[3]) && 0 <= pos.x + dirs[3].x && 0 <= pos.y + dirs[3].y);
    } else if dx == 1 && dy == 1 {
        assert(q == dir_step(pos, dirs[4]) && 0 <= pos.x + dirs[4].x && 0 <= pos.y + dirs[4].y);
    } else if dx == 1 && dy == -1 {
        assert(q == dir_step(pos, dirs[5]) && 0 <= pos.x + dirs[5].x && 0 <= pos.y + dirs[5].y);
    } else if dx == -1 && dy == 1 {
        assert(q == dir_step(pos, dirs[6]) && 0 <= pos.x + dirs[6].x && 0 <= pos.y + dirs[6].y);
    } else {
        assert(dx == -1 && dy == -1);
        assert(q == dir_step(pos, dirs[7]) && 0 <= pos.x + dirs[7].x && 0 <= pos.y + dirs[7].y);
    }
}

/// On a finalized set that is closed under legal steps, every cell of a
/// unit path out of a finalized start is finalized.
proof fn lemma_path_all_visited(g: Grid, p: Seq<Point2d>, visited: Seq<bool>, diag: bool, k: int)
    requires
        g.wf(),
        visited.len() == g.width_spec() * g.height_spec(),
        forall|i: int, q: Point2d|
            #![trigger visited[i], step_ok(g, g.point_of(i), q, diag)]
            0 <= i < visited.len() && visited[i] && step_ok(g, g.point_of(i), q, diag)
                ==> visited[g.index_of(q)],
        forall|i: int| 0 <= i < p.len() - 1 ==> step_ok(g, #[trigger] p[i], p[i + 1], diag),
        p.len() >= 1,
        0 <= g.index_of(p[0]) < visited.len(),
        visited[g.index_of(p[0])],
        0 <= k < p.len(),
    ensures
        0 <= g.index_of(p[k]) < visited.len(),
        visited[g.index_of(p[k])],
    decreases k,
{
    if k > 0 {
        lemma_path_all_visited(g, p, visited, diag, k - 1);
        assert(step_ok(g, p[k - 1], p[k], diag));
        g.lemma_passable_in_bounds(p[k - 1].x as int, p[k - 1].y as int);
        g.lemma_passable_in_bounds(p[k].x as int, p[k].y as int);
        lemma_index_roundtrip(g, p[k - 1]);
        lemma_index_roundtrip(g, p[k]);
        assert(step_ok(g, g.point_of(g.index_of(p[k - 1])), p[k], diag));
    }
}

/// Walk the predecessor records back from the target: the result is
/// exactly the reversed predecessor chain from source to target, each
/// cell appearing once and each linked to the next by its record.
fn construct_path(
    grid: &Grid,
    visited: &Vec<bool>,
    parent: &Vec<Point2d>,
    Ghost(depth): Ghost<Map<int, int>>,
    source: Point2d,
    target: Point2d,
    Ghost(diag): Ghost<bool>,
) -> (r: Vec<Point2d>)
    requires
        grid.wf(),
        visited_inv(*grid, source, visited@, parent@, depth, diag),
        grid.passable(source.x as int, source.y as int),
        grid.passable(target.x as int, target.y as int),
        0 <= grid.index_of(target) < visited@.len(),
        visited@[grid.index_of(target)],
    ensures
        is_unit_path(*grid, r@, source, target, diag),
        r@.len() <= grid.width_spec() * grid.height_spec(),
        forall|i: int, j: int| 0 <= i < j < r@.len() ==> r@[i] != r@[j],
        forall|k: int|
            0 <= k < r@.len() - 1 ==> parent@[grid.index_of(r@[k + 1])] == #[trigger] r@[k],
{
    let w = grid.width();
    let ghost area = grid.width_spec() * grid.height_spec();
    let mut path: Vec<Point2d> = Vec::new();
    path.push(target);
    let mut cur = target;
    proof {
        grid.lemma_area_limit();
        grid.lemma_passable_in_bounds(target.x as int, target.y as int);
        lemma_index_roundtrip(*grid, target);
        lemma_count_true_bounds(visited@);
        assert(cell_inv(*grid, source, visited@, parent@, depth, diag, grid.index_of(target)));
    }
    while !(cur.x == source.x && cur.y == source.y)
        invariant
            grid.wf(),
            visited_inv(*grid, source, visited@, parent@, depth, diag),
            grid.passable(source.x as int, source.y as int),
            grid.passable(cur.x as int, cur.y as int),
            0 <= grid.index_of(cur) < visited@.len(),
            visited@[grid.index_of(cur)],
            area == grid.width_spec() * grid.height_spec(),
            area <= GRID_AREA_LIMIT,
            w == grid.width_spec(),
            path@.len() >= 1,
            path@[0] == cur,
            path@[path@.len() - 1] == target,
            forall|i: int|
                0 <= i < path@.len() - 1 ==> step_ok(*grid, #[trigger] path@[i], path@[i + 1], diag),
            forall|i: int, j: int|
                #![trigger path@[i], path@[j]]
                0 <= i < j < path@.len() ==> depth[grid.index_of(path@[i])] < depth[grid.index_of(
                    path@[j],
                )],
            forall|k: int|
                0 <= k < path@.len() - 1 ==> parent@[grid.index_of(path@[k + 1])]
                    == #[trigger] path@[k],
            depth.contains_key(grid.index_of(cur)),
            0 <= depth[grid.index_of(cur)],
            path@.len() + depth[grid.index_of(cur)] <= depth[grid.index_of(target)] + 1,
            depth[grid.index_of(target)] + 1 <= area,
        decreases depth[grid.index_of(cur)],
    {
        proof {
            grid.lemma_passable_in_bounds(cur.x as int, cur.y as int);
            lemma_index_roundtrip(*grid, cur);
            grid.lemma_passable_in_bounds(source.x as int, source.y as int);
            lemma_index_roundtrip(*grid, source);
            assert(grid.index_of(cur) != grid.index_of(source));
            assert(cell_inv(*grid, source, visited@, parent@, depth, diag, grid.index_of(cur)));
        }
        let cidx = cur.y * w + cur.x;
        let pa = parent[cidx];
        proof {
            assert(cidx == grid.index_of(cur));
            assert(grid.point_of(grid.index_of(cur)) == cur);
            assert(step_ok(*grid, pa, cur, diag));
            grid.lemma_passable_in_bounds(pa.x as int, pa.y as int);
            lemma_index_roundtrip(*grid, pa);
            assert(cell_inv(*grid, source, visited@, parent@, depth, diag, grid.index_of(pa)));
            lemma_count_true_bounds(visited@);
        }
        let ghost oldpath = path@;
        path.insert(0, pa);
        proof {
            assert(path@[0] == pa);
            assert(path@.len() == oldpath.len() + 1);
            assert(path@[path@.len() - 1] == oldpath[oldpath.len() - 1]);
            assert forall|i: int|
                0 <= i < path@.len() - 1 implies step_ok(
                *grid,
                #[trigger] path@[i],
                path@[i + 1],
                diag,
            ) by {
                if i == 0 {
                    assert(path@[1] == oldpath[0]);
                } else {
                    assert(path@[i] == oldpath[i - 1]);
                    assert(path@[i + 1] == oldpath[i]);
                    assert(step_ok(*grid, oldpath[i - 1], oldpath[i], diag));
                }
            }
            assert forall|i: int, j: int|
                #![trigger path@[i], path@[j]]
                0 <= i < j < path@.len() implies depth[grid.index_of(path@[i])] < depth[
                grid.index_of(path@[j])] by {
                assert(path@[j] == oldpath[j - 1]);
                if i == 0 {
                    assert(oldpath[0] == cur);
                    if j > 1 {
                        assert(depth[grid.index_of(oldpath[0])] < depth[grid.index_of(
                            oldpath[j - 1],
                        )]);
                    }
                } else {
                    assert(path@[i] == oldpath[i - 1]);
                    assert(depth[grid.index_of(oldpath[i - 1])] < depth[grid.index_of(
                        oldpath[j - 1],
                    )]);
                }
            }
            assert forall|k: int|
                0 <= k < path@.len() - 1 implies parent@[grid.index_of(path@[k + 1])]
                == #[trigger] path@[k] by {
                assert(path@[k + 1] == oldpath[k]);
                if k == 0 {
                    assert(oldpath[0] == cur);
                } else {
                    assert(path@[k] == oldpath[k - 1]);
                    assert(parent@[grid.index_of(oldpath[k])] == oldpath[k - 1]);
                }
            }
        }
        cur = pa;
    }
    proof {
        assert forall|i: int, j: int| 0 <= i < j < path@.len() implies path@[i] != path@[j] by {
            assert(depth[grid.index_of(path@[i])] < depth[grid.index_of(path@[j])]);
        }
    }
    path
}

/// Run A* from `source` to `target`.  Returns a legal unit path exactly
/// when the two cells are connected under the movement policy.
#[verifier::rlimit(100)]
pub fn astar_search(
    grid: &Grid,
    source: Point2d,
    target: Point2d,
    heuristic: Heuristic,
    allow_diagonal: bool,
) -> (r: Option<Vec<Point2d>>)
    requires
        grid.wf(),
        grid.passable(source.x as int, source.y as int),
        grid.passable(target.x as int, target.y as int),
        source != target,
    ensures
        r matches Some(p) ==> is_unit_path(*grid, p@, source, target, allow_diagonal) && p@.len()
            <= grid.width_spec() * grid.height_spec() && (forall|i: int, j: int|
            0 <= i < j < p@.len() ==> p@[i] != p@[j]),
        r is None ==> !has_path(*grid, source, target, allow_diagonal),
{
    let ghost diag = allow_diagonal;
    proof {
        grid.lemma_area_limit();
        grid.lemma_passable_in_bounds(source.x as int, source.y as int);
        grid.lemma_passable_in_bounds(target.x as int, target.y as int);
    }
    let w = grid.width();
    let h = grid.height();
    let area = w * h;
    proof {
        grid.lemma_passable_in_bounds(source.x as int, source.y as int);
        lemma_dims_le_area(*grid, source);
        lemma_index_roundtrip(*grid, source);
        lemma_index_roundtrip(*grid, target);
    }
    let mut visited: Vec<bool> = vec![false; area];
    let mut parent: Vec<Point2d> = vec![source; area];
    let ghost mut depth: Map<int, int> = Map::empty();
    let mut fr: Frontier<AstarCand> = Frontier::new();
    proof {
        lemma_count_true_bounds(visited@);
    }
    let h0 = heuristic.evaluate(&source, &target);
    fr.push(h0, AstarCand { pos: source, from: source, g: Cost::zero() });
    let mut dirs: Vec<Direction> = Vec::new();
    dirs.push(Direction { x: 0i32, y: 1i32 });
    dirs.push(Direction { x: 1i32, y: 0i32 });
    dirs.push(Direction { x: -1i32, y: 0i32 });
    dirs.push(Direction { x: 0i32, y: -1i32 });
    dirs.push(Direction { x: 1i32, y: 1i32 });
    dirs.push(Direction { x: 1i32, y: -1i32 });
    dirs.push(Direction { x: -1i32, y: 1i32 });
    dirs.push(Direction { x: -1i32, y: -1i32 });
    let nd: usize = if allow_diagonal {
        8
    } else {
        4
    };
    proof {
        lemma_count_true_all_false(visited@);
        assert(in_frontier(fr.items(), source)) by {
            assert(fr.items()[0].1.pos == source);
        }
    }
    while fr.len() != 0
        invariant
            grid.wf(),
            grid.passable(source.x as int, source.y as int),
            grid.passable(target.x as int, target.y as int),
            source != target,
            w == grid.width_spec(),
            h == grid.height_spec(),
            area == grid.width_spec() * grid.height_spec(),
            area <= GRID_AREA_LIMIT,
            w <= area && h <= area,
            dirs@.len() == 8,
            dirs@[0] == (Direction { x: 0i32, y: 1i32 }),
            dirs@[1] == (Direction { x: 1i32, y: 0i32 }),
            dirs@[2] == (Direction { x: -1i32, y: 0i32 }),
            dirs@[3] == (Direction { x: 0i32, y: -1i32 }),
            dirs@[4] == (Direction { x: 1i32, y: 1i32 }),
            dirs@[5] == (Direction { x: 1i32, y: -1i32 }),
            dirs@[6] == (Direction { x: -1i32, y: 1i32 }),
            dirs@[7] == (Direction { x: -1i32, y: -1i32 }),
            nd == if allow_diagonal {
                8int
            } else {
                4int
            },
            diag == allow_diagonal,
            visited_inv(*grid, source, visited@, parent@, depth, diag),
            frontier_inv(*grid, source, visited@, depth, diag, fr.items()),
            fr.keys_wf(),
            closed_inv(*grid, visited@, fr.items(), diag),
            visited@[grid.index_of(source)] || in_frontier(fr.items(), source),
            0 <= grid.index_of(source) < area,
            0 <= grid.index_of(target) < area,
            !visited@[grid.index_of(target)],
        decreases fr.items().len() + 8 * (area - count_true(visited@)),
    {
        proof {
            lemma_count_true_bounds(visited@);
        }
        let ghost fr0 = fr.items();
        let popped = fr.pop();
        let (_fcost, cand) = match popped {
            Some(e) => e,
            None => {
                proof {
                    assert(false);
                }
                (Cost::zero(), AstarCand { pos: source, from: source, g: Cost::zero() })
            },
        };
        let ghost bidx = best_index(fr0);
        proof {
            lemma_best_index_range(fr0);
            assert(entry_inv(*grid, source, visited@, depth, diag, fr0[bidx]));
        }
        let pos = cand.pos;
        proof {
            grid.lemma_passable_in_bounds(pos.x as int, pos.y as int);
            lemma_index_roundtrip(*grid, pos);
        }
        let pidx = pos.y * w + pos.x;
        proof {
            assert(pidx == grid.index_of(pos));
        }
        if visited[pidx] {
            proof {
                assert forall|i: int, q: Point2d|
                    #![trigger visited@[i], step_ok(*grid, grid.point_of(i), q, diag)]
                    0 <= i < visited@.len() && visited@[i] && step_ok(
                        *grid,
                        grid.point_of(i),
                        q,
                        diag,
                    ) implies visited@[grid.index_of(q)] || in_frontier(fr.items(), q) by {
                    if !visited@[grid.index_of(q)] {
                        assert(in_frontier(fr0, q));
                        lemma_in_frontier_remove(fr0, bidx, q);
                        if fr0[bidx].1.pos == q {
                            assert(grid.index_of(q) == pidx as int);
                            assert(false);
                        }
                    }
                }
                if !visited@[grid.index_of(source)] {
                    lemma_in_frontier_remove(fr0, bidx, source);
                    assert(fr0[bidx].1.pos != source);
                }
            }
            continue;
        }
        // Finalize this cell.
        let ghost visited0 = visited@;
        let ghost parent0 = parent@;
        let ghost depth0 = depth;
        let ghost gsum = cand.g.straight + cand.g.diag as int;
        visited[pidx] = true;
        parent[pidx] = cand.from;
        proof {
            depth = depth.insert(pidx as int, gsum);
            lemma_count_true_update(visited0, pidx as int);
            lemma_count_true_bounds(visited0);
            // cost-chain facts about the popped entry
            if !(cand.pos == source && cand.from == source) {
                assert(0 <= grid.index_of(cand.from) < area);
                assert(visited0[grid.index_of(cand.from)]);
                assert(cell_inv(
                    *grid,
                    source,
                    visited0,
                    parent0,
                    depth0,
                    diag,
                    grid.index_of(cand.from),
                ));
                assert(grid.index_of(cand.from) != pidx as int);
            }
            assert(0 <= gsum && gsum + 1 <= count_true(visited@));
            // the finalized-set invariant survives the update
            assert forall|i: int|
                0 <= i < area && #[trigger] visited@[i] implies cell_inv(
                *grid,
                source,
                visited@,
                parent@,
                depth,
                diag,
                i,
            ) by {
                if i == pidx as int {
                    if !(cand.pos == source && cand.from == source) {
                        grid.lemma_passable_in_bounds(cand.from.x as int, cand.from.y as int);
                        lemma_index_roundtrip(*grid, cand.from);
                        assert(step_ok(*grid, cand.from, pos, diag));
                        assert(cand.from != pos);
                        assert(grid.index_of(cand.from) != pidx as int);
                    }
                } else {
                    assert(visited0[i]);
                    assert(cell_inv(*grid, source, visited0, parent0, depth0, diag, i));
                    assert(parent@[i] == parent0[i]);
                    if i != grid.index_of(source) {
                        assert(visited0[grid.index_of(parent0[i])]);
                        assert(grid.index_of(parent0[i]) != pidx as int);
                    }
                }
            }
            // the surviving frontier entries still satisfy their invariant
            assert forall|j: int|
                0 <= j < fr.items().len() implies entry_inv(
                *grid,
                source,
                visited@,
                depth,
                diag,
                #[trigger] fr.items()[j],
            ) by {
                let e = fr.items()[j];
                if j < bidx {
                    assert(e == fr0[j]);
                    assert(entry_inv(*grid, source, visited0, depth0, diag, e));
                } else {
                    assert(e == fr0[j + 1]);
                    assert(entry_inv(*grid, source, visited0, depth0, diag, e));
                }
                if !(e.1.pos == source && e.1.from == source) {
                    assert(visited0[grid.index_of(e.1.from)]);
                    assert(grid.index_of(e.1.from) != pidx as int);
                }
            }
            // closure, except for the fresh cell itself
            assert forall|i: int, q: Point2d|
                #![trigger visited@[i], step_ok(*grid, grid.point_of(i), q, diag)]
                0 <= i < visited@.len() && i != pidx as int && visited@[i] && step_ok(
                    *grid,
                    grid.point_of(i),
                    q,
                    diag,
                ) implies visited@[grid.index_of(q)] || in_frontier(fr.items(), q) by {
                assert(visited0[i]);
                grid.lemma_passable_in_bounds(q.x as int, q.y as int);
                lemma_index_roundtrip(*grid, q);
                if !visited@[grid.index_of(q)] {
                    assert(!visited0[grid.index_of(q)]);
                    assert(in_frontier(fr0, q));
                    lemma_in_frontier_remove(fr0, bidx, q);
                    if fr0[bidx].1.pos == q {
                        assert(grid.index_of(q) == pidx as int);
                        assert(visited@[pidx as int]);
                        assert(false);
                    }
                }
            }
            // the source is still covered
            if !visited@[grid.index_of(source)] {
                assert(!visited0[grid.index_of(source)]);
                lemma_in_frontier_remove(fr0, bidx, source);
                if fr0[bidx].1.pos == source {
                    assert(pidx as int == grid.index_of(source));
                    assert(false);
                }
            }
        }
        if pos.x == target.x && pos.y == target.y {
            let path = construct_path(
                grid,
                &visited,
                &parent,
                Ghost(depth),
                source,
                target,
                Ghost(diag),
            );
            return Some(path);
        }
        proof {
            assert(pos != target);
            grid.lemma_passable_in_bounds(target.x as int, target.y as int);
            lemma_index_roundtrip(*grid, target);
            assert(grid.index_of(target) != pidx as int);
            assert(!visited@[grid.index_of(target)]);
            lemma_count_true_bounds(visited@);
        }
        // Expand the neighbors in a fixed order.
        let mut di: usize = 0;
        while di < nd
            invariant
                grid.wf(),
                grid.passable(source.x as int, source.y as int),
                grid.passable(target.x as int, target.y as int),
                source != target,
                w == grid.width_spec(),
                h == grid.height_spec(),
                area == grid.width_spec() * grid.height_spec(),
                area <= GRID_AREA_LIMIT,
                w <= area && h <= area,
                dirs@.len() == 8,
                dirs@[0] == (Direction { x: 0i32, y: 1i32 }),
                dirs@[1] == (Direction { x: 1i32, y: 0i32 }),
                dirs@[2] == (Direction { x: -1i32, y: 0i32 }),
                dirs@[3] == (Direction { x: 0i32, y: -1i32 }),
                dirs@[4] == (Direction { x: 1i32, y: 1i32 }),
                dirs@[5] == (Direction { x: 1i32, y: -1i32 }),
                dirs@[6] == (Direction { x: -1i32, y: 1i32 }),
                dirs@[7] == (Direction { x: -1i32, y: -1i32 }),
                nd == if allow_diagonal {
                    8int
                } else {
                    4int
                },
                diag == allow_diagonal,
                0 <= di <= nd,
                visited_inv(*grid, source, visited@, parent@, depth, diag),
                frontier_inv(*grid, source, visited@, depth, diag, fr.items()),
                fr.keys_wf(),
                visited@.len() == area,
                0 <= pidx < area,
                visited@[pidx as int],
                pos == grid.point_of(pidx as int),
                pidx as int == grid.index_of(pos),
                grid.passable(pos.x as int, pos.y as int),
                pos.x < w && pos.y < h,
                depth.contains_key(pidx as int),
                depth[pidx as int] == gsum,
                cand.g.straight + cand.g.diag == gsum,
                0 <= gsum,
                gsum + 1 <= count_true(visited@),
                closed_except(*grid, visited@, fr.items(), diag, pidx as int),
                forall|k: int|
                    0 <= k < di ==> neighbor_covered(
                        *grid,
                        pos,
                        #[trigger] dirs@[k],
                        visited@,
                        fr.items(),
                    ),
                visited@[grid.index_of(source)] || in_frontier(fr.items(), source),
                0 <= grid.index_of(source) < area,
                0 <= grid.index_of(target) < area,
                !visited@[grid.index_of(target)],
                fr.items().len() <= fr0.len() - 1 + di,
            decreases nd - di,
        {
            let d = dirs[di];
            let step_result = grid.new_point_in_grid(pos, d);
            match step_result {
                Some(np) => {
                    proof {
                        grid.lemma_passable_in_bounds(np.x as int, np.y as int);
                        grid.lemma_passable_in_bounds(target.x as int, target.y as int);
                        lemma_index_roundtrip(*grid, np);
                        lemma_count_true_bounds(visited@);
                    }
                    let gc = cand.g.add(Cost::step(d.is_diagonal()));
                    let hn = heuristic.evaluate(&np, &target);
                    let fval = gc.add(hn);
                    let ghost fr_before = fr.items();
                    let ghost e = (fval, AstarCand { pos: np, from: pos, g: gc });
                    proof {
                        assert(gc.straight + gc.diag == gsum + 1);
                        assert(gsum + 1 <= area);
                        assert(fval.wf());
                    }
                    fr.push(fval, AstarCand { pos: np, from: pos, g: gc });
                    proof {
                        assert(fr.items() == fr_before.push(e));
                        assert(step_ok(*grid, pos, np, diag)) by {
                            assert(unit_delta(pos, np, diag));
                        }
                        assert(entry_inv(*grid, source, visited@, depth, diag, e));
                        assert forall|j: int|
                            0 <= j < fr.items().len() implies entry_inv(
                            *grid,
                            source,
                            visited@,
                            depth,
                            diag,
                            #[trigger] fr.items()[j],
                        ) by {
                            if j < fr_before.len() {
                                assert(fr.items()[j] == fr_before[j]);
                            }
                        }
                        assert forall|i: int, q: Point2d|
                            #![trigger visited@[i], step_ok(*grid, grid.point_of(i), q, diag)]
                            0 <= i < visited@.len() && i != pidx as int && visited@[i] && step_ok(
                                *grid,
                                grid.point_of(i),
                                q,
                                diag,
                            ) implies visited@[grid.index_of(q)] || in_frontier(
                            fr.items(),
                            q,
                        ) by {
                            if !visited@[grid.index_of(q)] {
                                assert(in_frontier(fr_before, q));
                                lemma_in_frontier_push(fr_before, e, q);
                            }
                        }
                        assert forall|k: int|
                            0 <= k < di + 1 implies neighbor_covered(
                            *grid,
                            pos,
                            #[trigger] dirs@[k],
                            visited@,
                            fr.items(),
                        ) by {
                            if k < di {
                                assert(neighbor_covered(
                                    *grid,
                                    pos,
                                    dirs@[k],
                                    visited@,
                                    fr_before,
                                ));
                                if 0 <= pos.x + dirs@[k].x && 0 <= pos.y + dirs@[k].y
                                    && grid.passable(pos.x + dirs@[k].x, pos.y + dirs@[k].y) {
                                    let nq = dir_step(pos, dirs@[k]);
                                    if !visited@[grid.index_of(nq)] {
                                        lemma_in_frontier_push(fr_before, e, nq);
                                    }
                                }
                            } else {
                                assert(dir_step(pos, d) == np);
                                assert(fr.items()[fr_before.len() as int].1.pos == np);
                                assert(in_frontier(fr.items(), np));
                            }
                        }
                        if !visited@[grid.index_of(source)] {
                            lemma_in_frontier_push(fr_before, e, source);
                        }
                    }
                },
                None => {
                    proof {
                        assert forall|k: int|
                            0 <= k < di + 1 implies neighbor_covered(
                            *grid,
                            pos,
                            #[trigger] dirs@[k],
                            visited@,
                            fr.items(),
                        ) by {
                            if k == di {
                                assert(!(0 <= pos.x + d.x && 0 <= pos.y + d.y && grid.passable(
                                    pos.x + d.x,
                                    pos.y + d.y,
                                )));
                            }
                        }
                    }
                },
            }
            di = di + 1;
        }
        proof {
            // With all table directions handled, the fresh cell's own
            // obligations close the invariant again.
            assert forall|i: int, q: Point2d|
                #![trigger visited@[i], step_ok(*grid, grid.point_of(i), q, diag)]
                0 <= i < visited@.len() && visited@[i] && step_ok(
                    *grid,
                    grid.point_of(i),
                    q,
                    diag,
                ) implies visited@[grid.index_of(q)] || in_frontier(fr.items(), q) by {
                if i == pidx as int {
                    lemma_step_matches_dir(*grid, pos, q, diag, dirs@, nd as int);
                    let k = choose|k: int|
                        0 <= k < nd && q == dir_step(pos, #[trigger] dirs@[k]) && 0 <= pos.x
                            + dirs@[k].x && 0 <= pos.y + dirs@[k].y;
                    assert(neighbor_covered(*grid, pos, dirs@[k], visited@, fr.items()));
                    assert(grid.passable(pos.x + dirs@[k].x, pos.y + dirs@[k].y));
                }
            }
            lemma_count_true_bounds(visited@);
            assert(count_true(visited@) == count_true(visited0) + 1);
        }
    }
    // Frontier exhausted: the finalized set is closed under legal steps,
    // holds the source, and misses the target, so no path exists.
    proof {
        if has_path(*grid, source, target, diag) {
            let p = choose|p: Seq<Point2d>| is_unit_path(*grid, p, source, target, diag);
            assert forall|i: int, q: Point2d|
                #![trigger visited@[i], step_ok(*grid, grid.point_of(i), q, diag)]
                0 <= i < visited@.len() && visited@[i] && step_ok(
                    *grid,
                    grid.point_of(i),
                    q,
                    diag,
                ) implies visited@[grid.index_of(q)] by {
                assert(visited@[grid.index_of(q)] || in_frontier(fr.items(), q));
            }
            lemma_index_roundtrip(*grid, source);
            lemma_path_all_visited(*grid, p, visited@, diag, p.len() - 1);
            assert(visited@[grid.index_of(target)]);
            assert(false);
        }
    }
    None
}

} // verus!

//! The search entry point: one call ties a grid, a heuristic, an engine
//! choice and a reconstruction mode together, fails fast on invalid
//! endpoints, and returns the path with its exact cost.

use vstd::prelude::*;
use crate::astar::astar_search;
use crate::cost::{sum_nonneg, Cost};
use crate::grid::Grid;
use crate::heuristic::{lemma_octile_admissible, octile_diag, octile_straight, Heuristic};
use crate::jps::jps_search;
use crate::model::{
    has_path, is_seg_path, is_unit_path, lemma_expand_props, lemma_seg_path_cells,
    lemma_seg_path_reachable, lemma_unit_is_seg, path_cost_diag, path_cost_straight,
};
use crate::path::{cost_of_path, expand_path, Path};
use crate::point::Point2d;

verus! {

/// Search strategy selection.
#[derive(Clone, Copy, Debug, PartialEq, Eq, Structural)]
pub enum Engine {
    AStar,
    Jps,
}

/// Path reconstruction mode: only the jump/turn points, or every unit
/// cell in between.
#[derive(Clone, Copy, Debug, PartialEq, Eq, Structural)]
pub enum Reconstruction {
    Sparse,
    Dense,
}

/// Search configuration, resolved once at search start.
#[derive(Clone, Copy, Debug, PartialEq, Eq, Structural)]
pub struct SearchOptions {
    pub engine: Engine,
    pub heuristic: Heuristic,
    pub reconstruction: Reconstruction,
    /// Whether A* may take diagonal steps (8 directions) or only
    /// orthogonal ones (4).  JPS is inherently 8-directional and ignores
    /// this flag.
    pub allow_diagonal: bool,
}

/// The movement policy a search runs under: JPS always moves in 8
/// directions; A* honors the diagonal flag.
pub open spec fn policy_diag(o: SearchOptions) -> bool {
    o.engine == Engine::Jps || o.allow_diagonal
}

/// A search outcome, with invalid endpoints kept distinct from the
/// (expected, non-error) absence of a connecting path.
#[derive(Debug)]
pub enum SearchOutcome {
    /// A path from source to target with its exact total cost.
    Found(Path),
    /// Valid endpoints that no path connects.
    Unreachable,
    /// Source or target out of bounds or impassable (fail fast).
    InvalidEndpoint,
}

/// Run one search.  What is promised:
/// - `InvalidEndpoint` exactly when an endpoint is out of bounds or
///   impassable;
/// - every returned path runs from source to target over passable cells
///   (straight/diagonal segments; a full unit-step path for A* and for
///   dense reconstruction), and its recorded cost is exactly the path's
///   cost;
/// - equal endpoints yield the single-cell path of cost zero;
/// - the absence answer is exact for both engines: `Unreachable` if and
///   only if no path exists under the movement policy.
pub fn search(grid: &Grid, source: Point2d, target: Point2d, options: &SearchOptions) -> (r:
    SearchOutcome)
    requires
        grid.wf(),
    ensures
        (r is InvalidEndpoint) <==> !(grid.passable(source.x as int, source.y as int)
            && grid.passable(target.x as int, target.y as int)),
        r matches SearchOutcome::Found(p) ==> {
            &&& is_seg_path(*grid, p.cells@, source, target)
            &&& p.cost.straight == path_cost_straight(p.cells@)
            &&& p.cost.diag == path_cost_diag(p.cells@)
            &&& has_path(*grid, source, target, policy_diag(*options))
            &&& sum_nonneg(
                p.cost.straight - octile_straight(source, target),
                p.cost.diag - octile_diag(source, target),
            )
        },
        r matches SearchOutcome::Found(p) ==> ((options.engine == Engine::AStar
            || options.reconstruction == Reconstruction::Dense) ==> is_unit_path(
            *grid,
            p.cells@,
            source,
            target,
            policy_diag(*options),
        )),
        r matches SearchOutcome::Found(p) ==> ((options.engine == Engine::AStar
            || options.reconstruction == Reconstruction::Sparse) ==> (forall|i: int, j: int|
            0 <= i < j < p.cells@.len() ==> p.cells@[i] != p.cells@[j])),
        (grid.passable(source.x as int, source.y as int) && grid.passable(
            target.x as int,
            target.y as int,
        ) && source == target) ==> (r matches SearchOutcome::Found(p) && p.cells@.len() == 1
            && p.cells@[0] == source && p.cost == Cost::zero_spec()),
        (grid.passable(source.x as int, source.y as int) && grid.passable(
            target.x as int,
            target.y as int,
        ) && source != target) ==> ((r is Unreachable) <==> !has_path(
            *grid,
            source,
            target,
            policy_diag(*options),
        )),
{
    if !grid.is_passable(source) {
        return SearchOutcome::InvalidEndpoint;
    }
    if !grid.is_passable(target) {
        return SearchOutcome::InvalidEndpoint;
    }
    if source.x == target.x && source.y == target.y {
        let mut cells: Vec<Point2d> = Vec::new();
        cells.push(source);
        proof {
            assert(is_unit_path(*grid, cells@, source, target, policy_diag(*options)));
            assert(is_seg_path(*grid, cells@, source, target));
            assert(octile_straight(source, target) == 0 && octile_diag(source, target) == 0);
        }
        return SearchOutcome::Found(Path { cells, cost: Cost::zero() });
    }
    match options.engine {
        Engine::AStar => {
            let res = astar_search(grid, source, target, options.heuristic, options.allow_diagonal);
            match res {
                Some(cells) => {
                    proof {
                        lemma_unit_is_seg(*grid, cells@, source, target, options.allow_diagonal);
                        lemma_seg_path_cells(*grid, cells@, source, target);
                        grid.lemma_area_limit();
                        lemma_octile_admissible(
                            *grid,
                            cells@,
                            source,
                            target,
                            options.allow_diagonal,
                        );
                    }
                    let cost = cost_of_path(&cells);
                    SearchOutcome::Found(Path { cells, cost })
                },
                None => SearchOutcome::Unreachable,
            }
        },
        Engine::Jps => {
            let res = jps_search(grid, source, target, options.heuristic);
            match res {
                Some(sparse) => {
                    proof {
                        lemma_seg_path_cells(*grid, sparse@, source, target);
                        grid.lemma_area_limit();
                        lemma_seg_path_reachable(*grid, sparse@, source, target);
                        lemma_expand_props(*grid, sparse@, source, target);
                        lemma_octile_admissible(
                            *grid,
                            crate::model::expand_spec(sparse@),
                            source,
                            target,
                            true,
                        );
                    }
                    let cost = cost_of_path(&sparse);
                    match options.reconstruction {
                        Reconstruction::Sparse => SearchOutcome::Found(
                            Path { cells: sparse, cost },
                        ),
                        Reconstruction::Dense => {
                            let dense = expand_path(&sparse);
                            proof {
                                lemma_expand_props(*grid, sparse@, source, target);
                                lemma_unit_is_seg(*grid, dense@, source, target, true);
                            }
                            SearchOutcome::Found(Path { cells: dense, cost })
                        },
                    }
                },
                None => SearchOutcome::Unreachable,
            }
        },
    }
}

/// The caller-facing entry point: `None` exactly on an invalid endpoint
/// or an unreachable target, `Some(path)` otherwise, where the path
/// always starts with the source and ends with the target.
pub fn find_path(grid: &Grid, source: Point2d, target: Point2d, options: &SearchOptions) -> (r:
    Option<Path>)
    requires
        grid.wf(),
    ensures
        r matches Some(p) ==> {
            &&& is_seg_path(*grid, p.cells@, source, target)
            &&& p.cost.straight == path_cost_straight(p.cells@)
            &&& p.cost.diag == path_cost_diag(p.cells@)
            &&& has_path(*grid, source, target, policy_diag(*options))
            &&& sum_nonneg(
                p.cost.straight - octile_straight(source, target),
                p.cost.diag - octile_diag(source, target),
            )
        },
        r matches Some(p) ==> ((options.engine == Engine::AStar || options.reconstruction
            == Reconstruction::Dense) ==> is_unit_path(
            *grid,
            p.cells@,
            source,
            target,
            policy_diag(*options),
        )),
        r matches Some(p) ==> ((options.engine == Engine::AStar || options.reconstruction
            == Reconstruction::Sparse) ==> (forall|i: int, j: int|
            0 <= i < j < p.cells@.len() ==> p.cells@[i] != p.cells@[j])),
        !(grid.passable(source.x as int, source.y as int) && grid.passable(
            target.x as int,
            target.y as int,
        )) ==> r is None,
        (grid.passable(source.x as int, source.y as int) && grid.passable(
            target.x as int,
            target.y as int,
        ) && source == target) ==> (r matches Some(p) && p.cells@.len() == 1 && p.cells@[0]
            == source && p.cost == Cost::zero_spec()),
        (grid.passable(source.x as int, source.y as int) && grid.passable(
            target.x as int,
            target.y as int,
        ) && source != target) ==> ((r is None) <==> !has_path(
            *grid,
            source,
            target,
            policy_diag(*options),
        )),
{
    let outcome = search(grid, source, target, options);
    match outcome {
        SearchOutcome::Found(p) => Some(p),
        SearchOutcome::Unreachable => None,
        SearchOutcome::InvalidEndpoint => None,
    }
}

} // verus!

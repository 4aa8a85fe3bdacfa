use gridpath::cost::Cost;
use gridpath::direction::Direction;
use gridpath::grid::Grid;
use gridpath::heuristic::{
    euclidean_heuristic, manhattan_heuristic, no_heuristic, octal_heuristic, Heuristic,
};
use gridpath::jps::{jps_pf, jps_test, PathFinder};
use gridpath::path::Path;
use gridpath::point::Point2d;
use gridpath::search::{find_path, search, Engine, Reconstruction, SearchOptions, SearchOutcome};

fn p(x: usize, y: usize) -> Point2d {
    Point2d { x, y }
}

fn open_grid(w: usize, h: usize) -> Grid {
    Grid::new(w, h, vec![1u8; w * h]).unwrap()
}

fn grid_with_blocked(w: usize, h: usize, blocked: &[(usize, usize)]) -> Grid {
    let mut cells = vec![1u8; w * h];
    for &(x, y) in blocked {
        cells[y * w + x] = 0;
    }
    Grid::new(w, h, cells).unwrap()
}

fn opts(engine: Engine, reconstruction: Reconstruction) -> SearchOptions {
    SearchOptions { engine, heuristic: Heuristic::Octile, reconstruction, allow_diagonal: true }
}

fn cost_value(c: &Cost) -> f64 {
    c.straight as f64 + c.diag as f64 * 2f64.sqrt()
}

fn assert_unit_steps(cells: &[Point2d]) {
    for w in cells.windows(2) {
        let dx = (w[1].x as i64 - w[0].x as i64).abs();
        let dy = (w[1].y as i64 - w[0].y as i64).abs();
        assert!(dx <= 1 && dy <= 1 && (dx, dy) != (0, 0), "not a unit step: {:?}", w);
    }
}

// Scenario A: 5x5 all-passable grid, (0,0) to (4,4): the 4-step diagonal.
#[test]
fn scenario_open_diagonal() {
    let g = open_grid(5, 5);
    let expected: Vec<Point2d> = (0..5).map(|i| p(i, i)).collect();

    let astar = find_path(&g, p(0, 0), p(4, 4), &opts(Engine::AStar, Reconstruction::Dense))
        .unwrap();
    assert_eq!(astar.cells, expected);
    assert_eq!(astar.cost, Cost { straight: 0, diag: 4 });

    let jps = find_path(&g, p(0, 0), p(4, 4), &opts(Engine::Jps, Reconstruction::Dense)).unwrap();
    assert_eq!(jps.cells, expected);
    assert_eq!(jps.cost, Cost { straight: 0, diag: 4 });

    let want = 4.0 * 2f64.sqrt();
    assert!((cost_value(&astar.cost) - want).abs() < 1e-9);
    assert!((cost_value(&jps.cost) - want).abs() < 1e-9);
}

// Scenario B: same grid with (2,2) blocked: optimal detour costs
// 3 * sqrt(2) + 2, and both engines must return exactly that.
#[test]
fn scenario_blocked_center() {
    let g = grid_with_blocked(5, 5, &[(2, 2)]);
    let want = Cost { straight: 2, diag: 3 };

    let astar = find_path(&g, p(0, 0), p(4, 4), &opts(Engine::AStar, Reconstruction::Dense))
        .unwrap();
    assert_eq!(astar.cost, want);

    let jps = find_path(&g, p(0, 0), p(4, 4), &opts(Engine::Jps, Reconstruction::Dense)).unwrap();
    assert_eq!(jps.cost, want);

    let fwant = 3.0 * 2f64.sqrt() + 2.0;
    assert!((cost_value(&astar.cost) - fwant).abs() < 1e-9);
}

// Scenario C: a 1-cell-wide corridor with a dead end before the target.
#[test]
fn scenario_dead_end_corridor() {
    let mut cells = vec![0u8; 25];
    cells[0] = 1; // (0,0)
    cells[1] = 1; // (1,0)
    cells[2] = 1; // (2,0)  dead end: (3,0) stays blocked
    cells[4] = 1; // (4,0)  the unreachable target
    let g = Grid::new(5, 5, cells).unwrap();

    let astar = find_path(&g, p(0, 0), p(4, 0), &opts(Engine::AStar, Reconstruction::Dense));
    let jps = find_path(&g, p(0, 0), p(4, 0), &opts(Engine::Jps, Reconstruction::Dense));
    assert_eq!(astar, None);
    assert_eq!(jps, None);
}

// A target surrounded entirely by blocked cells is unreachable for both
// engines, and reported as such (not as an invalid endpoint).
#[test]
fn enclosed_target_is_unreachable() {
    let ring = [(1, 1), (2, 1), (3, 1), (1, 2), (3, 2), (1, 3), (2, 3), (3, 3)];
    let g = grid_with_blocked(5, 5, &ring);
    for engine in [Engine::AStar, Engine::Jps] {
        let o = opts(engine, Reconstruction::Dense);
        assert_eq!(find_path(&g, p(0, 0), p(2, 2), &o), None);
        assert!(matches!(search(&g, p(0, 0), p(2, 2), &o), SearchOutcome::Unreachable));
    }
}

// Equal endpoints: the single-cell path with cost zero, from both engines.
#[test]
fn source_equals_target() {
    let g = open_grid(4, 4);
    for engine in [Engine::AStar, Engine::Jps] {
        let o = opts(engine, Reconstruction::Sparse);
        let path = find_path(&g, p(2, 1), p(2, 1), &o).unwrap();
        assert_eq!(path.cells, vec![p(2, 1)]);
        assert_eq!(path.cost, Cost { straight: 0, diag: 0 });
    }
}

// Identical inputs give identical outputs: fixed tie-breaking makes the
// whole search deterministic.
#[test]
fn find_path_is_deterministic() {
    let g = grid_with_blocked(7, 7, &[(3, 2), (3, 3), (3, 4), (1, 5)]);
    for engine in [Engine::AStar, Engine::Jps] {
        for recon in [Reconstruction::Sparse, Reconstruction::Dense] {
            let o = opts(engine, recon);
            let first = find_path(&g, p(0, 3), p(6, 3), &o);
            let second = find_path(&g, p(0, 3), p(6, 3), &o);
            assert_eq!(first, second);
        }
    }
}

// A* and JPS agree on cost and on reachability across a mix of grids.
#[test]
fn engines_agree_on_cost() {
    let grids = [
        grid_with_blocked(7, 7, &[(3, 2), (3, 3), (3, 4)]),
        grid_with_blocked(6, 8, &[(2, 1), (2, 2), (4, 4), (4, 5), (1, 6)]),
        grid_with_blocked(8, 5, &[(1, 1), (3, 3), (5, 1), (6, 3), (2, 3)]),
        open_grid(9, 3),
    ];
    let pairs = [(p(0, 0), p(6, 4)), (p(0, 2), p(5, 0)), (p(1, 1), p(4, 2)), (p(0, 1), p(2, 1))];
    for g in &grids {
        for &(s, t) in &pairs {
            if !(g.is_passable(s) && g.is_passable(t)) {
                continue;
            }
            let a = find_path(g, s, t, &opts(Engine::AStar, Reconstruction::Dense));
            let j = find_path(g, s, t, &opts(Engine::Jps, Reconstruction::Dense));
            match (&a, &j) {
                (Some(pa), Some(pj)) => {
                    assert_eq!(pa.cost, pj.cost, "cost mismatch for {:?} -> {:?}", s, t);
                },
                (None, None) => {},
                _ => panic!("engines disagree on reachability for {:?} -> {:?}", s, t),
            }
        }
    }
}

// Dense reconstruction of a JPS sparse path: only unit steps, and the
// same exact cost as the sparse path.
#[test]
fn dense_reconstruction_matches_sparse() {
    let g = grid_with_blocked(5, 5, &[(2, 2)]);
    let sparse = find_path(&g, p(0, 0), p(4, 4), &opts(Engine::Jps, Reconstruction::Sparse))
        .unwrap();
    let dense = find_path(&g, p(0, 0), p(4, 4), &opts(Engine::Jps, Reconstruction::Dense))
        .unwrap();
    assert_eq!(sparse.cost, dense.cost);
    assert_unit_steps(&dense.cells);
    assert_eq!(dense.cells.first(), sparse.cells.first());
    assert_eq!(dense.cells.last(), sparse.cells.last());
    assert!(sparse.cells.len() <= dense.cells.len());
}

// Invalid endpoints fail fast, distinctly from an unreachable target.
#[test]
fn invalid_endpoints_fail_fast() {
    let g = grid_with_blocked(4, 4, &[(1, 1)]);
    let o = opts(Engine::AStar, Reconstruction::Dense);
    // blocked source
    assert!(matches!(search(&g, p(1, 1), p(3, 3), &o), SearchOutcome::InvalidEndpoint));
    // out-of-bounds target
    assert!(matches!(search(&g, p(0, 0), p(9, 9), &o), SearchOutcome::InvalidEndpoint));
    assert_eq!(find_path(&g, p(1, 1), p(3, 3), &o), None);
}

// 4-directional A* with the Manhattan heuristic.
#[test]
fn four_directional_astar() {
    let g = open_grid(3, 3);
    let o = SearchOptions {
        engine: Engine::AStar,
        heuristic: Heuristic::Manhattan,
        reconstruction: Reconstruction::Dense,
        allow_diagonal: false,
    };
    let path = find_path(&g, p(0, 0), p(2, 2), &o).unwrap();
    assert_eq!(path.cost, Cost { straight: 4, diag: 0 });
    for w in path.cells.windows(2) {
        // orthogonal steps only
        assert!(w[0].x == w[1].x || w[0].y == w[1].y);
    }
}

// The zero heuristic (Dijkstra) still returns the minimum cost.
#[test]
fn zero_heuristic_is_an_oracle() {
    let g = grid_with_blocked(5, 5, &[(2, 2)]);
    let o = SearchOptions {
        engine: Engine::AStar,
        heuristic: Heuristic::Zero,
        reconstruction: Reconstruction::Dense,
        allow_diagonal: true,
    };
    let path = find_path(&g, p(0, 0), p(4, 4), &o).unwrap();
    assert_eq!(path.cost, Cost { straight: 2, diag: 3 });
}

#[test]
fn heuristic_values_are_exact() {
    let a = p(0, 0);
    let b = p(3, 4);
    assert_eq!(manhattan_heuristic(&a, &b), Cost { straight: 7, diag: 0 });
    assert_eq!(octal_heuristic(&a, &b), Cost { straight: 1, diag: 3 });
    // sqrt(3^2 + 4^2) == 5 exactly
    assert_eq!(euclidean_heuristic(&a, &b), Cost { straight: 5, diag: 0 });
    assert_eq!(no_heuristic(&a, &b), Cost { straight: 0, diag: 0 });
    // floor(sqrt(2^2 + 3^2)) == 3
    assert_eq!(euclidean_heuristic(&p(1, 1), &p(3, 4)), Cost { straight: 3, diag: 0 });
}

#[test]
fn cost_order_is_exact() {
    let two = Cost { straight: 2, diag: 0 };
    let root_two_plus_one = Cost { straight: 1, diag: 1 };
    // 2 < 1 + sqrt(2)
    assert!(two.le(root_two_plus_one));
    assert!(!root_two_plus_one.le(two));
    // reflexive
    assert!(two.le(two));
    // 7 + 5 * sqrt(2) is just above 14: 5 * sqrt(2) is about 7.07
    let a = Cost { straight: 7, diag: 5 };
    let b = Cost { straight: 14, diag: 0 };
    assert!(!a.le(b));
    assert!(b.le(a));
    let sum = two.add(root_two_plus_one);
    assert_eq!(sum, Cost { straight: 3, diag: 1 });
}

// The JPS path finder facade, as built by `jps_pf`.
#[test]
fn pathfinder_facade() {
    let g = grid_with_blocked(5, 5, &[(2, 2)]);
    let pf = jps_pf(g);
    assert!(pf.is_in_grid(p(0, 0)));
    assert!(!pf.is_in_grid(p(2, 2)));
    assert!(!pf.is_in_grid(p(7, 0)));
    let east = Direction { x: 1, y: 0 };
    assert_eq!(pf.new_point_in_grid(p(1, 2), east), None); // into the wall
    assert_eq!(pf.new_point_in_grid(p(0, 0), east), Some(p(1, 0)));

    let sparse = jps_test(&pf, p(0, 0), p(4, 4)).unwrap();
    assert_eq!(sparse.first(), Some(&p(0, 0)));
    assert_eq!(sparse.last(), Some(&p(4, 4)));
    // blocked endpoint: fail fast
    assert_eq!(jps_test(&pf, p(0, 0), p(2, 2)), None);
    // equal endpoints: the trivial path
    assert_eq!(pf.find_path(p(3, 3), p(3, 3)), Some(vec![p(3, 3)]));

    let mut pf2 = PathFinder { grid: open_grid(3, 3), heuristic: Heuristic::Euclidean };
    pf2.update_grid(open_grid(2, 2));
    assert!(pf2.is_in_grid(p(1, 1)));
    assert!(!pf2.is_in_grid(p(2, 2)));
}

#[test]
fn test_path() {
    let g = open_grid(12, 12);
    let o = opts(Engine::AStar, Reconstruction::Dense);
    let path = find_path(&g, p(0, 0), p(5, 10), &o);
    println!("RESULT mine {:?}", path);
    let path = path.unwrap();
    assert_eq!(path.cost, Cost { straight: 5, diag: 5 });
    assert_eq!(path.cells.first(), Some(&p(0, 0)));
    assert_eq!(path.cells.last(), Some(&p(5, 10)));
}

// The exact cost representation round-trips through a Path value.
#[test]
fn path_cost_matches_cells() {
    let g = open_grid(6, 6);
    let o = opts(Engine::AStar, Reconstruction::Dense);
    let path: Path = find_path(&g, p(0, 0), p(5, 2), &o).unwrap();
    let mut straight = 0u64;
    let mut diag = 0u64;
    for w in path.cells.windows(2) {
        if w[0].x != w[1].x && w[0].y != w[1].y {
            diag += 1;
        } else {
            straight += 1;
        }
    }
    assert_eq!(path.cost, Cost { straight, diag });
}

// Exhaustive oracle sweep: on a fixed pseudo-random grid, A* (whose
// reachability answer is exact) and JPS must agree on reachability and
// on the exact optimal cost for every endpoint pair.
#[test]
fn engines_agree_everywhere_on_a_noisy_grid() {
    let (w, h) = (10usize, 10usize);
    let mut cells = vec![1u8; w * h];
    // a small linear congruential generator keeps the pattern fixed
    let mut state: u64 = 0x2545_F491_4F6C_DD1D;
    for c in cells.iter_mut() {
        state = state.wrapping_mul(6364136223846793005).wrapping_add(1442695040888963407);
        if (state >> 33) % 10 < 3 {
            *c = 0;
        }
    }
    let g = Grid::new(w, h, cells).unwrap();
    let a_opts = opts(Engine::AStar, Reconstruction::Dense);
    let j_opts = opts(Engine::Jps, Reconstruction::Dense);
    let mut compared = 0usize;
    for sy in 0..h {
        for sx in 0..w {
            let s = p(sx, sy);
            if !g.is_passable(s) {
                continue;
            }
            for ty in 0..h {
                for tx in 0..w {
                    let t = p(tx, ty);
                    if !g.is_passable(t) {
                        continue;
                    }
                    let a = find_path(&g, s, t, &a_opts);
                    let j = find_path(&g, s, t, &j_opts);
                    match (&a, &j) {
                        (Some(pa), Some(pj)) => {
                            assert_eq!(pa.cost, pj.cost, "cost mismatch {:?} -> {:?}", s, t);
                            assert_unit_steps(&pj.cells);
                            compared += 1;
                        },
                        (None, None) => {},
                        _ => panic!("reachability mismatch {:?} -> {:?}", s, t),
                    }
                }
            }
        }
    }
    assert!(compared > 1000);
}

// The fixed corner-cutting policy: a diagonal step is legal whenever its
// destination is passable, even if both orthogonal neighbors are walls.
#[test]
fn corner_cutting_is_allowed() {
    let g = grid_with_blocked(2, 2, &[(1, 0), (0, 1)]);
    for engine in [Engine::AStar, Engine::Jps] {
        let path = find_path(&g, p(0, 0), p(1, 1), &opts(engine, Reconstruction::Dense)).unwrap();
        assert_eq!(path.cells, vec![p(0, 0), p(1, 1)]);
        assert_eq!(path.cost, Cost { straight: 0, diag: 1 });
    }
}

// A second, denser sweep with another obstacle pattern and a non-square
// grid, same oracle: A* and JPS agree everywhere.
#[test]
fn engines_agree_everywhere_on_a_dense_grid() {
    let (w, h) = (12usize, 7usize);
    let mut cells = vec![1u8; w * h];
    let mut state: u64 = 0x9E37_79B9_7F4A_7C15;
    for c in cells.iter_mut() {
        state = state.wrapping_mul(2862933555777941757).wrapping_add(3037000493);
        if (state >> 29) % 10 < 4 {
            *c = 0;
        }
    }
    let g = Grid::new(w, h, cells).unwrap();
    let a_opts = opts(Engine::AStar, Reconstruction::Dense);
    let j_opts = opts(Engine::Jps, Reconstruction::Dense);
    for sy in 0..h {
        for sx in 0..w {
            let s = p(sx, sy);
            if !g.is_passable(s) {
                continue;
            }
            for ty in 0..h {
                for tx in 0..w {
                    let t = p(tx, ty);
                    if !g.is_passable(t) {
                        continue;
                    }
                    let a = find_path(&g, s, t, &a_opts);
                    let j = find_path(&g, s, t, &j_opts);
                    match (&a, &j) {
                        (Some(pa), Some(pj)) => {
                            assert_eq!(pa.cost, pj.cost, "cost mismatch {:?} -> {:?}", s, t);
                        },
                        (None, None) => {},
                        _ => panic!("reachability mismatch {:?} -> {:?}", s, t),
                    }
                }
            }
        }
    }
}

// A target connected only through a diagonal gap: reachable under the
// 8-directional policy, unreachable under the 4-directional one.
#[test]
fn diagonal_only_connectivity() {
    // a wall through (1,0) and (0,1) leaves only the corner-cut at (0,0)
    let g = grid_with_blocked(3, 3, &[(1, 0), (0, 1)]);
    let mut o = opts(Engine::AStar, Reconstruction::Dense);
    let eight = find_path(&g, p(0, 0), p(2, 2), &o);
    assert!(eight.is_some());
    o.allow_diagonal = false;
    o.heuristic = Heuristic::Manhattan;
    let four = find_path(&g, p(0, 0), p(2, 2), &o);
    assert_eq!(four, None);
}

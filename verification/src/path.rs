//! The path type returned to callers, and the reconstruction helpers
//! shared by both engines: exact cost summation and dense expansion.

use vstd::prelude::*;
use crate::cost::Cost;
use crate::grid::GRID_AREA_LIMIT;
use crate::model::{
    expand_spec, lemma_path_cost_push, lemma_seg_point_coords, path_cost_diag,
    path_cost_straight, seg_cells, seg_delta, seg_len, seg_point,
};
use crate::point::{absdiff, Point2d};

verus! {

/// An ordered cell sequence from source to target inclusive, with its
/// exact total cost.  Produced once by a search; immutable afterwards.
#[derive(Debug, Clone, PartialEq, Eq)]
pub struct Path {
    pub cells: Vec<Point2d>,
    pub cost: Cost,
}

/// Sum the exact cost of a path whose consecutive cells are collinear
/// (every unit path and every sparse path qualifies).
pub fn cost_of_path(cells: &Vec<Point2d>) -> (r: Cost)
    requires
        1 <= cells@.len() <= GRID_AREA_LIMIT + 1,
        forall|i: int|
            0 <= i < cells@.len() - 1 ==> seg_delta(#[trigger] cells@[i], cells@[i + 1]),
        forall|i: int|
            0 <= i < cells@.len() ==> (#[trigger] cells@[i]).x <= GRID_AREA_LIMIT && cells@[i].y
                <= GRID_AREA_LIMIT,
    ensures
        r.straight == path_cost_straight(cells@),
        r.diag == path_cost_diag(cells@),
        r.wf(),
{
    let mut straight: u64 = 0;
    let mut diag: u64 = 0;
    let mut i: usize = 1;
    proof {
        assert(cells@.take(1).len() == 1);
        assert(path_cost_straight(cells@.take(1)) == 0);
        assert(path_cost_diag(cells@.take(1)) == 0);
    }
    while i < cells.len()
        invariant
            1 <= i <= cells@.len(),
            cells@.len() <= GRID_AREA_LIMIT + 1,
            forall|j: int|
                0 <= j < cells@.len() - 1 ==> seg_delta(#[trigger] cells@[j], cells@[j + 1]),
            forall|j: int|
                0 <= j < cells@.len() ==> (#[trigger] cells@[j]).x <= GRID_AREA_LIMIT
                    && cells@[j].y <= GRID_AREA_LIMIT,
            straight == path_cost_straight(cells@.take(i as int)),
            diag == path_cost_diag(cells@.take(i as int)),
            straight + diag <= (i - 1) * (GRID_AREA_LIMIT as int),
        decreases cells@.len() - i,
    {
        let a = cells[i - 1];
        let b = cells[i];
        let dx = absdiff(a.x, b.x);
        let dy = absdiff(a.y, b.y);
        let n = if dx >= dy {
            dx
        } else {
            dy
        };
        proof {
            let t = cells@.take(i as int);
            let t1 = cells@.take(i as int + 1);
            assert(t1 =~= t.push(cells@[i as int]));
            lemma_path_cost_push(t, cells@[i as int]);
            assert(t[t.len() - 1] == cells@[i as int - 1]);
            assert(n == seg_len(a, b));
            assert((i - 1) * (GRID_AREA_LIMIT as int) + GRID_AREA_LIMIT as int == (i as int) * (
            GRID_AREA_LIMIT as int)) by (nonlinear_arith);
        }
        if dx > 0 && dy > 0 {
            diag = diag + n as u64;
        } else {
            straight = straight + n as u64;
        }
        i = i + 1;
    }
    proof {
        assert(cells@.take(cells@.len() as int) =~= cells@);
        assert((cells@.len() - 1) * (GRID_AREA_LIMIT as int) <= (GRID_AREA_LIMIT as int + 1) * (
        GRID_AREA_LIMIT as int)) by (nonlinear_arith)
            requires
                cells@.len() <= GRID_AREA_LIMIT + 1,
                1 <= cells@.len(),
        ;
    }
    Cost { straight, diag }
}

/// Expand a sparse path into its dense unit-step form: between
/// consecutive turn points, insert every intermediate cell by stepping
/// in the unit direction between them.
pub fn expand_path(cells: &Vec<Point2d>) -> (r: Vec<Point2d>)
    requires
        cells@.len() >= 1,
        forall|i: int|
            0 <= i < cells@.len() - 1 ==> seg_delta(#[trigger] cells@[i], cells@[i + 1]),
    ensures
        r@ == expand_spec(cells@),
{
    let mut out: Vec<Point2d> = Vec::new();
    out.push(cells[0]);
    let mut i: usize = 1;
    proof {
        assert(cells@.take(1).len() == 1);
        assert(expand_spec(cells@.take(1)) =~= cells@.take(1));
        assert(out@ =~= cells@.take(1));
    }
    while i < cells.len()
        invariant
            1 <= i <= cells@.len(),
            forall|j: int|
                0 <= j < cells@.len() - 1 ==> seg_delta(#[trigger] cells@[j], cells@[j + 1]),
            out@ == expand_spec(cells@.take(i as int)),
            out@.len() >= 1,
        decreases cells@.len() - i,
    {
        let a = cells[i - 1];
        let b = cells[i];
        let dx = absdiff(a.x, b.x);
        let dy = absdiff(a.y, b.y);
        let n = if dx >= dy {
            dx
        } else {
            dy
        };
        proof {
            assert(seg_delta(a, b));
            assert(n == seg_len(a, b));
        }
        let dir = a.get_direction(&b);
        let mut cur = a;
        let mut k: usize = 0;
        while k < n
            invariant
                0 <= k <= n,
                seg_delta(a, b),
                n == seg_len(a, b),
                dir.x == crate::point::axis_sign(a.x as int, b.x as int),
                dir.y == crate::point::axis_sign(a.y as int, b.y as int),
                dir.is_unit(),
                cur == seg_point(a, b, k as int),
                out@ == expand_spec(cells@.take(i as int)) + Seq::new(
                    k as nat,
                    |j: int| seg_point(a, b, j + 1),
                ),
                out@.len() >= 1,
            decreases n - k,
        {
            proof {
                lemma_seg_point_coords(a, b, k as int);
                lemma_seg_point_coords(a, b, k as int + 1);
            }
            let next = cur.add_direction(dir);
            proof {
                assert(next == seg_point(a, b, k as int + 1));
                assert(out@.push(next) =~= expand_spec(cells@.take(i as int)) + Seq::new(
                    (k + 1) as nat,
                    |j: int| seg_point(a, b, j + 1),
                ));
            }
            out.push(next);
            cur = next;
            k = k + 1;
        }
        proof {
            let t = cells@.take(i as int);
            let t1 = cells@.take(i as int + 1);
            assert(t1.drop_last() =~= t);
            assert(t1[t1.len() - 2] == a && t1[t1.len() - 1] == b);
            assert(expand_spec(t1) == expand_spec(t) + seg_cells(a, b));
            assert(Seq::new(n as nat, |j: int| seg_point(a, b, j + 1)) =~= seg_cells(a, b));
        }
        i = i + 1;
    }
    proof {
        assert(cells@.take(cells@.len() as int) =~= cells@);
    }
    out
}

} // verus!

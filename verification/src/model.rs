//! The mathematical model of grid paths: unit-step paths, straight or
//! diagonal segments, their exact costs, and the laws relating them.
//!
//! Corner-cutting policy (fixed for the whole library): a step is legal
//! whenever its origin and destination cells are passable; a diagonal
//! step does not additionally require its two orthogonal neighbors to be
//! free.  Both engines and the reconstruction obey this one policy.

use vstd::prelude::*;
use crate::grid::Grid;
use crate::point::{abs_diff, axis_sign, Point2d};

verus! {

/// Displacement of exactly one unit step; under 4-directional movement
/// (`diag == false`) the step must be orthogonal.
pub open spec fn unit_delta(a: Point2d, b: Point2d, diag: bool) -> bool {
    let dx = b.x - a.x;
    let dy = b.y - a.y;
    &&& -1 <= dx <= 1
    &&& -1 <= dy <= 1
    &&& !(dx == 0 && dy == 0)
    &&& (!diag ==> dx == 0 || dy == 0)
}

/// A legal unit move between two passable cells.
pub open spec fn step_ok(g: Grid, a: Point2d, b: Point2d, diag: bool) -> bool {
    &&& g.passable(a.x as int, a.y as int)
    &&& g.passable(b.x as int, b.y as int)
    &&& unit_delta(a, b, diag)
}

/// An ordered cell sequence from `s` to `t` inclusive, monotonically
/// connected by legal unit steps.
pub open spec fn is_unit_path(g: Grid, p: Seq<Point2d>, s: Point2d, t: Point2d, diag: bool) -> bool {
    &&& p.len() >= 1
    &&& p[0] == s
    &&& p[p.len() - 1] == t
    &&& g.passable(s.x as int, s.y as int)
    &&& forall|i: int| 0 <= i < p.len() - 1 ==> step_ok(g, #[trigger] p[i], p[i + 1], diag)
}

/// Connectivity: some unit path joins `s` to `t`.
pub open spec fn has_path(g: Grid, s: Point2d, t: Point2d, diag: bool) -> bool {
    exists|p: Seq<Point2d>| is_unit_path(g, p, s, t, diag)
}

/// A straight or exactly diagonal displacement between distinct points:
/// the shape of one edge of a sparse (jump-point) path.
pub open spec fn seg_delta(a: Point2d, b: Point2d) -> bool {
    &&& a != b
    &&& (a.x == b.x || a.y == b.y || abs_diff(a.x as int, b.x as int) == abs_diff(
        a.y as int,
        b.y as int,
    ))
}

/// Number of unit steps along a segment.
pub open spec fn seg_len(a: Point2d, b: Point2d) -> int {
    if abs_diff(a.x as int, b.x as int) >= abs_diff(a.y as int, b.y as int) {
        abs_diff(a.x as int, b.x as int)
    } else {
        abs_diff(a.y as int, b.y as int)
    }
}

/// The `k`-th cell along the segment from `a` toward `b` (cell 0 is `a`).
pub open spec fn seg_point(a: Point2d, b: Point2d, k: int) -> Point2d {
    Point2d {
        x: (a.x + k * axis_sign(a.x as int, b.x as int)) as usize,
        y: (a.y + k * axis_sign(a.y as int, b.y as int)) as usize,
    }
}

/// A traversable segment: collinear endpoints with every cell along the
/// ray passable.
pub open spec fn seg_ok(g: Grid, a: Point2d, b: Point2d) -> bool {
    &&& seg_delta(a, b)
    &&& forall|k: int|
        0 <= k <= seg_len(a, b) ==> {
            let q = #[trigger] seg_point(a, b, k);
            g.passable(q.x as int, q.y as int)
        }
}

/// A sparse path: an ordered sequence of turn points from `s` to `t`
/// whose consecutive pairs are traversable segments.
pub open spec fn is_seg_path(g: Grid, p: Seq<Point2d>, s: Point2d, t: Point2d) -> bool {
    &&& p.len() >= 1
    &&& p[0] == s
    &&& p[p.len() - 1] == t
    &&& g.passable(s.x as int, s.y as int)
    &&& forall|i: int| 0 <= i < p.len() - 1 ==> seg_ok(g, #[trigger] p[i], p[i + 1])
}

/// Orthogonal unit steps contributed by one path edge.
pub open spec fn pair_cost_straight(a: Point2d, b: Point2d) -> int {
    if a.x != b.x && a.y != b.y {
        0
    } else {
        seg_len(a, b)
    }
}

/// Diagonal unit steps contributed by one path edge.
pub open spec fn pair_cost_diag(a: Point2d, b: Point2d) -> int {
    if a.x != b.x && a.y != b.y {
        seg_len(a, b)
    } else {
        0
    }
}

/// Total orthogonal steps of a path (unit or sparse).
pub open spec fn path_cost_straight(p: Seq<Point2d>) -> int
    decreases p.len(),
{
    if p.len() <= 1 {
        0
    } else {
        path_cost_straight(p.drop_last()) + pair_cost_straight(p[p.len() - 2], p[p.len() - 1])
    }
}

/// Total diagonal steps of a path (unit or sparse).
pub open spec fn path_cost_diag(p: Seq<Point2d>) -> int
    decreases p.len(),
{
    if p.len() <= 1 {
        0
    } else {
        path_cost_diag(p.drop_last()) + pair_cost_diag(p[p.len() - 2], p[p.len() - 1])
    }
}

/// The cells of one segment after its start: positions `1 ..= seg_len`.
pub open spec fn seg_cells(a: Point2d, b: Point2d) -> Seq<Point2d> {
    Seq::new(seg_len(a, b) as nat, |k: int| seg_point(a, b, k + 1))
}

/// Dense form of a sparse path: the start cell, then every unit cell of
/// each segment in order.
pub open spec fn expand_spec(p: Seq<Point2d>) -> Seq<Point2d>
    decreases p.len(),
{
    if p.len() <= 1 {
        p
    } else {
        expand_spec(p.drop_last()) + seg_cells(p[p.len() - 2], p[p.len() - 1])
    }
}

/// Multiplying by an axis sign only flips or clears the factor.
pub proof fn lemma_mul_sign(k: int, s: int)
    ensures
        s == 1 ==> k * s == k,
        s == 0 ==> k * s == 0,
        s == -1 ==> k * s == -k,
{
    assert((s == 1 ==> k * s == k) && (s == 0 ==> k * s == 0) && (s == -1 ==> k * s == -k))
        by (nonlinear_arith);
}

/// Exact coordinates of the cells along a segment: no cast truncation,
/// endpoints as expected, and each cell one unit step from the next.
pub proof fn lemma_seg_point_coords(a: Point2d, b: Point2d, k: int)
    requires
        seg_delta(a, b),
        0 <= k <= seg_len(a, b),
    ensures
        seg_point(a, b, k).x == a.x + k * axis_sign(a.x as int, b.x as int),
        seg_point(a, b, k).y == a.y + k * axis_sign(a.y as int, b.y as int),
        seg_point(a, b, 0) == a,
        seg_point(a, b, seg_len(a, b)) == b,
        seg_len(a, b) >= 1,
{
    let sx = axis_sign(a.x as int, b.x as int);
    let sy = axis_sign(a.y as int, b.y as int);
    let n = seg_len(a, b);
    lemma_mul_sign(k, sx);
    lemma_mul_sign(k, sy);
    lemma_mul_sign(0, sx);
    lemma_mul_sign(0, sy);
    lemma_mul_sign(n, sx);
    lemma_mul_sign(n, sy);
    assert(a.x != b.x ==> n == abs_diff(a.x as int, b.x as int));
    assert(a.y != b.y ==> n == abs_diff(a.y as int, b.y as int));
    assert(0 <= a.x + k * sx <= usize::MAX);
    assert(0 <= a.y + k * sy <= usize::MAX);
}

/// One step along a segment is a legal unit move, and it is diagonal
/// exactly when the segment is.
pub proof fn lemma_seg_unit(g: Grid, a: Point2d, b: Point2d, k: int)
    requires
        seg_ok(g, a, b),
        0 <= k < seg_len(a, b),
    ensures
        step_ok(g, seg_point(a, b, k), seg_point(a, b, k + 1), true),
        pair_cost_straight(seg_point(a, b, k), seg_point(a, b, k + 1)) == (
        if a.x != b.x && a.y != b.y {
            0int
        } else {
            1int
        }),
        pair_cost_diag(seg_point(a, b, k), seg_point(a, b, k + 1)) == (
        if a.x != b.x && a.y != b.y {
            1int
        } else {
            0int
        }),
{
    lemma_seg_point_coords(a, b, k);
    lemma_seg_point_coords(a, b, k + 1);
    let sx = axis_sign(a.x as int, b.x as int);
    let sy = axis_sign(a.y as int, b.y as int);
    lemma_mul_sign(k, sx);
    lemma_mul_sign(k + 1, sx);
    lemma_mul_sign(k, sy);
    lemma_mul_sign(k + 1, sy);
    let q = seg_point(a, b, k);
    let r = seg_point(a, b, k + 1);
    assert(g.passable(q.x as int, q.y as int));
    assert(g.passable(r.x as int, r.y as int));
    assert(r.x - q.x == sx && r.y - q.y == sy);
    assert(seg_len(q, r) == 1);
}

/// Appending one cell to a unit path keeps it a unit path.
pub proof fn lemma_unit_path_push(
    g: Grid,
    p: Seq<Point2d>,
    s: Point2d,
    m: Point2d,
    q: Point2d,
    diag: bool,
)
    requires
        is_unit_path(g, p, s, m, diag),
        step_ok(g, m, q, diag),
    ensures
        is_unit_path(g, p.push(q), s, q, diag),
{
    let e = p.push(q);
    assert(e[e.len() - 1] == q);
    assert(e[0] == s);
    assert forall|i: int| 0 <= i < e.len() - 1 implies step_ok(g, #[trigger] e[i], e[i + 1], diag) by {
        if i < p.len() - 1 {
            assert(e[i] == p[i]);
            assert(e[i + 1] == p[i + 1]);
            assert(step_ok(g, p[i], p[i + 1], diag));
        } else {
            assert(e[i] == p[p.len() - 1]);
            assert(e[i + 1] == q);
        }
    }
}

/// Appending one cell adds exactly that edge's cost.
pub proof fn lemma_path_cost_push(p: Seq<Point2d>, q: Point2d)
    requires
        p.len() >= 1,
    ensures
        path_cost_straight(p.push(q)) == path_cost_straight(p) + pair_cost_straight(
            p[p.len() - 1],
            q,
        ),
        path_cost_diag(p.push(q)) == path_cost_diag(p) + pair_cost_diag(p[p.len() - 1], q),
{
    let e = p.push(q);
    assert(e.drop_last() =~= p);
    assert(e[e.len() - 2] == p[p.len() - 1]);
    assert(e[e.len() - 1] == q);
}

/// Walking `j` unit cells into a segment extends a unit path ending at
/// the segment start, paying one unit step per cell.
proof fn lemma_seg_walk(
    g: Grid,
    e: Seq<Point2d>,
    s: Point2d,
    a: Point2d,
    b: Point2d,
    j: int,
)
    requires
        seg_ok(g, a, b),
        is_unit_path(g, e, s, a, true),
        0 <= j <= seg_len(a, b),
    ensures
        is_unit_path(
            g,
            e + Seq::new(j as nat, |k: int| seg_point(a, b, k + 1)),
            s,
            seg_point(a, b, j),
            true,
        ),
        path_cost_straight(e + Seq::new(j as nat, |k: int| seg_point(a, b, k + 1)))
            == path_cost_straight(e) + (if a.x != b.x && a.y != b.y {
            0int
        } else {
            j
        }),
        path_cost_diag(e + Seq::new(j as nat, |k: int| seg_point(a, b, k + 1)))
            == path_cost_diag(e) + (if a.x != b.x && a.y != b.y {
            j
        } else {
            0int
        }),
    decreases j,
{
    lemma_seg_point_coords(a, b, j);
    if j == 0 {
        assert(e + Seq::new(0, |k: int| seg_point(a, b, k + 1)) =~= e);
    } else {
        lemma_seg_walk(g, e, s, a, b, j - 1);
        let prev = e + Seq::new((j - 1) as nat, |k: int| seg_point(a, b, k + 1));
        let cur = e + Seq::new(j as nat, |k: int| seg_point(a, b, k + 1));
        assert(cur =~= prev.push(seg_point(a, b, j)));
        lemma_seg_unit(g, a, b, j - 1);
        assert(prev[prev.len() - 1] == seg_point(a, b, j - 1));
        lemma_unit_path_push(g, prev, s, seg_point(a, b, j - 1), seg_point(a, b, j), true);
        lemma_path_cost_push(prev, seg_point(a, b, j));
    }
}

/// Dense reconstruction is faithful: the expansion of a sparse path is a
/// unit path between the same endpoints with exactly the same cost.
pub proof fn lemma_expand_props(g: Grid, p: Seq<Point2d>, s: Point2d, t: Point2d)
    requires
        is_seg_path(g, p, s, t),
    ensures
        is_unit_path(g, expand_spec(p), s, t, true),
        path_cost_straight(expand_spec(p)) == path_cost_straight(p),
        path_cost_diag(expand_spec(p)) == path_cost_diag(p),
    decreases p.len(),
{
    if p.len() == 1 {
        assert(expand_spec(p) == p);
    } else {
        let q = p.drop_last();
        let a = p[p.len() - 2];
        let b = p[p.len() - 1];
        assert(seg_ok(g, a, b));
        assert(is_seg_path(g, q, s, a)) by {
            assert forall|i: int| 0 <= i < q.len() - 1 implies seg_ok(g, #[trigger] q[i], q[i + 1]) by {
                assert(q[i] == p[i]);
                assert(q[i + 1] == p[i + 1]);
                assert(seg_ok(g, p[i], p[i + 1]));
            }
        }
        lemma_expand_props(g, q, s, a);
        let e = expand_spec(q);
        lemma_seg_walk(g, e, s, a, b, seg_len(a, b));
        lemma_seg_point_coords(a, b, seg_len(a, b));
        assert(expand_spec(p) == e + seg_cells(a, b));
        assert(seg_cells(a, b) =~= Seq::new(seg_len(a, b) as nat, |k: int| seg_point(a, b, k + 1)));
        assert(path_cost_straight(p) == path_cost_straight(q) + pair_cost_straight(a, b));
        assert(path_cost_diag(p) == path_cost_diag(q) + pair_cost_diag(a, b));
    }
}

/// A sparse path certifies 8-directional connectivity: its expansion is
/// a unit path, so the endpoints are connected.
pub proof fn lemma_seg_path_reachable(g: Grid, p: Seq<Point2d>, s: Point2d, t: Point2d)
    requires
        is_seg_path(g, p, s, t),
    ensures
        has_path(g, s, t, true),
{
    lemma_expand_props(g, p, s, t);
    assert(is_unit_path(g, expand_spec(p), s, t, true));
}

/// Each unit step is itself a one-cell segment, so a unit path is also a
/// sparse path, with the same cost by definition.
pub proof fn lemma_unit_is_seg(g: Grid, p: Seq<Point2d>, s: Point2d, t: Point2d, diag: bool)
    requires
        is_unit_path(g, p, s, t, diag),
    ensures
        is_seg_path(g, p, s, t),
{
    assert forall|i: int| 0 <= i < p.len() - 1 implies seg_ok(g, #[trigger] p[i], p[i + 1]) by {
        assert(step_ok(g, p[i], p[i + 1], diag));
        let a = p[i];
        let b = p[i + 1];
        assert(seg_len(a, b) == 1);
        assert forall|k: int| 0 <= k <= seg_len(a, b) implies {
            let q = #[trigger] seg_point(a, b, k);
            g.passable(q.x as int, q.y as int)
        } by {
            lemma_seg_point_coords(a, b, k);
        }
    }
}

/// The cell `n` unit steps along a ray from `a` in direction `d` (for
/// in-bounds rays).
pub open spec fn ray_end(a: Point2d, d: crate::direction::Direction, n: int) -> Point2d {
    Point2d { x: (a.x + n * d.x) as usize, y: (a.y + n * d.y) as usize }
}

/// Every cell of the first `n` steps of the ray from `a` along `d` is
/// passable (including `a` itself).
pub open spec fn ray_clear(g: Grid, a: Point2d, d: crate::direction::Direction, n: int) -> bool
    decreases n,
{
    if n <= 0 {
        g.passable(a.x as int, a.y as int)
    } else {
        ray_clear(g, a, d, n - 1) && g.passable(a.x + n * d.x, a.y + n * d.y)
    }
}

/// Any prefix cell of a clear ray is passable.
pub proof fn lemma_ray_clear_at(
    g: Grid,
    a: Point2d,
    d: crate::direction::Direction,
    n: int,
    k: int,
)
    requires
        ray_clear(g, a, d, n),
        0 <= k <= n,
    ensures
        g.passable(a.x + k * d.x, a.y + k * d.y),
    decreases n,
{
    if k < n {
        lemma_ray_clear_at(g, a, d, n - 1, k);
    } else if k == 0 {
        lemma_mul_sign(0, d.x as int);
        lemma_mul_sign(0, d.y as int);
    }
}

/// A clear ray of length `n >= 1` forms a traversable segment from its
/// start to its end.
pub proof fn lemma_ray_seg(g: Grid, a: Point2d, d: crate::direction::Direction, n: int)
    requires
        g.wf(),
        ray_clear(g, a, d, n),
        d.is_unit(),
        1 <= n,
    ensures
        seg_ok(g, a, ray_end(a, d, n)),
        seg_len(a, ray_end(a, d, n)) == n,
        ray_end(a, d, n).x == a.x + n * d.x,
        ray_end(a, d, n).y == a.y + n * d.y,
        (a.x != ray_end(a, d, n).x && a.y != ray_end(a, d, n).y) == d.is_diagonal_spec(),
{
    let b = ray_end(a, d, n);
    lemma_mul_sign(n, d.x as int);
    lemma_mul_sign(n, d.y as int);
    lemma_ray_clear_at(g, a, d, n, n);
    g.lemma_passable_in_bounds(a.x + n * d.x, a.y + n * d.y);
    assert(b.x == a.x + n * d.x && b.y == a.y + n * d.y);
    assert(seg_delta(a, b));
    assert(seg_len(a, b) == n);
    assert(axis_sign(a.x as int, b.x as int) == d.x as int);
    assert(axis_sign(a.y as int, b.y as int) == d.y as int);
    assert forall|k: int| 0 <= k <= seg_len(a, b) implies {
        let q = #[trigger] seg_point(a, b, k);
        g.passable(q.x as int, q.y as int)
    } by {
        lemma_ray_clear_at(g, a, d, n, k);
        g.lemma_passable_in_bounds(a.x + k * d.x, a.y + k * d.y);
        lemma_mul_sign(k, d.x as int);
        lemma_mul_sign(k, d.y as int);
        assert(seg_point(a, b, k).x == a.x + k * d.x);
        assert(seg_point(a, b, k).y == a.y + k * d.y);
    }
}

/// One more step along an axis distributes over the sign product.
pub proof fn lemma_mul_succ(k: int, s: int)
    ensures
        (k + 1) * s == k * s + s,
{
    assert((k + 1) * s == k * s + s) by (nonlinear_arith);
}

/// Every cell of a sparse path is passable and in bounds, and its
/// consecutive pairs are collinear: what the cost summation needs.
pub proof fn lemma_seg_path_cells(g: Grid, p: Seq<Point2d>, s: Point2d, t: Point2d)
    requires
        g.wf(),
        is_seg_path(g, p, s, t),
    ensures
        forall|i: int|
            0 <= i < p.len() ==> (#[trigger] p[i]).x <= crate::grid::GRID_AREA_LIMIT && p[i].y
                <= crate::grid::GRID_AREA_LIMIT,
        forall|i: int| 0 <= i < p.len() - 1 ==> seg_delta(#[trigger] p[i], p[i + 1]),
{
    crate::grid::lemma_dims_le_area(g, s);
    g.lemma_area_limit();
    assert forall|i: int|
        0 <= i < p.len() implies (#[trigger] p[i]).x <= crate::grid::GRID_AREA_LIMIT && p[i].y
        <= crate::grid::GRID_AREA_LIMIT by {
        if i < p.len() - 1 {
            assert(seg_ok(g, p[i], p[i + 1]));
            lemma_seg_point_coords(p[i], p[i + 1], 0);
            assert(seg_point(p[i], p[i + 1], 0) == p[i]);
            assert(g.passable(p[i].x as int, p[i].y as int));
            g.lemma_passable_in_bounds(p[i].x as int, p[i].y as int);
        } else {
            if p.len() >= 2 {
                let a = p[p.len() - 2];
                assert(seg_ok(g, a, p[i]));
                lemma_seg_point_coords(a, p[i], seg_len(a, p[i]));
                assert(seg_point(a, p[i], seg_len(a, p[i])) == p[i]);
                assert(g.passable(p[i].x as int, p[i].y as int));
                g.lemma_passable_in_bounds(p[i].x as int, p[i].y as int);
            } else {
                g.lemma_passable_in_bounds(p[i].x as int, p[i].y as int);
            }
        }
    }
    assert forall|i: int| 0 <= i < p.len() - 1 implies seg_delta(#[trigger] p[i], p[i + 1]) by {
        assert(seg_ok(g, p[i], p[i + 1]));
    }
}

/// The cell one unit step away in a direction (for in-bounds moves).
pub open spec fn dir_step(p: Point2d, d: crate::direction::Direction) -> Point2d {
    Point2d { x: (p.x + d.x) as usize, y: (p.y + d.y) as usize }
}

/// How many flags of a visited set are on: the engines' progress measure.
pub open spec fn count_true(s: Seq<bool>) -> int
    decreases s.len(),
{
    if s.len() == 0 {
        0
    } else {
        count_true(s.drop_last()) + if s.last() {
            1int
        } else {
            0int
        }
    }
}

/// The count never leaves `[0, len]`.
pub proof fn lemma_count_true_bounds(s: Seq<bool>)
    ensures
        0 <= count_true(s) <= s.len(),
    decreases s.len(),
{
    if s.len() > 0 {
        lemma_count_true_bounds(s.drop_last());
    }
}

/// An all-false flag set counts zero.
pub proof fn lemma_count_true_all_false(s: Seq<bool>)
    requires
        forall|i: int| 0 <= i < s.len() ==> !s[i],
    ensures
        count_true(s) == 0,
    decreases s.len(),
{
    if s.len() > 0 {
        lemma_count_true_all_false(s.drop_last());
    }
}

/// Turning one flag on raises the count by exactly one.
pub proof fn lemma_count_true_update(s: Seq<bool>, i: int)
    requires
        0 <= i < s.len(),
        !s[i],
    ensures
        count_true(s.update(i, true)) == count_true(s) + 1,
    decreases s.len(),
{
    let u = s.update(i, true);
    if i == s.len() - 1 {
        assert(u.drop_last() =~= s.drop_last());
    } else {
        assert(u.drop_last() =~= s.drop_last().update(i, true));
        lemma_count_true_update(s.drop_last(), i);
    }
}

/// A target whose eight neighbors are all blocked cannot be reached from
/// any other cell: every path into it would need a final legal step.
pub proof fn lemma_enclosed_target_unreachable(g: Grid, s: Point2d, t: Point2d, diag: bool)
    requires
        s != t,
        forall|n: Point2d| unit_delta(n, t, true) ==> !g.passable(n.x as int, n.y as int),
    ensures
        !has_path(g, s, t, diag),
{
    if has_path(g, s, t, diag) {
        let p = choose|p: Seq<Point2d>| is_unit_path(g, p, s, t, diag);
        assert(p.len() >= 2);
        let n = p[p.len() - 2];
        assert(step_ok(g, n, p[p.len() - 2 + 1], diag));
        assert(unit_delta(n, t, true));
        assert(false);
    }
}

} // verus!

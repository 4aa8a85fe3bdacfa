//! Admissible distance estimators, computed as exact costs.
//!
//! Each estimator returns a `Cost` that never overestimates the true grid
//! distance for its movement model: Manhattan for 4-directional movement,
//! Octile (the default) for 8-directional movement, Euclidean rounded
//! down to an integer, and Zero, which degrades the search to Dijkstra
//! and serves as a correctness oracle.  For the octile estimate this
//! admissibility is proved: `lemma_octile_admissible` shows no unit path
//! between two cells ever costs less than their octile distance, so a
//! returned path whose cost reaches that bound is cost-optimal.

use vstd::prelude::*;
use crate::cost::{lemma_sum_nonneg_add, sum_nonneg, Cost};
use crate::grid::Grid;
use crate::model::{
    is_unit_path, pair_cost_diag, pair_cost_straight, path_cost_diag, path_cost_straight,
    step_ok, unit_delta,
};
use crate::point::Point2d;
use crate::point::abs_diff;

verus! {

/// Largest coordinate the estimators accept; far above any coordinate of
/// a grid within the capacity limit.
pub const COORD_LIMIT: usize = 0xFFFF_FFFF;

/// Heuristic selection, resolved once at search start into a closed set
/// of variants, so no unrecognized-selector fallback can arise.
#[derive(Clone, Copy, Debug, PartialEq, Eq, Structural)]
pub enum Heuristic {
    /// `|dx| + |dy|`: admissible for 4-directional movement only.
    Manhattan,
    /// `max + (sqrt(2) - 1) * min`, held exactly as `(max - min) + min *
    /// sqrt(2)`: admissible for 8-directional movement; the default.
    Octile,
    /// `floor(sqrt(dx^2 + dy^2))`: admissible but looser.
    Euclidean,
    /// Always zero: Dijkstra / breadth-first as a correctness oracle.
    Zero,
}

/// The integer square root: the greatest `r` with `r * r <= n`.
pub open spec fn isqrt_spec(n: nat) -> nat
    decreases n,
{
    if n == 0 {
        0
    } else {
        let r = isqrt_spec((n - 1) as nat);
        if (r + 1) * (r + 1) <= n {
            r + 1
        } else {
            r
        }
    }
}

/// The value each estimator assigns to a pair of points.
pub open spec fn heuristic_spec(h: Heuristic, a: Point2d, b: Point2d) -> Cost {
    let dx = abs_diff(a.x as int, b.x as int);
    let dy = abs_diff(a.y as int, b.y as int);
    match h {
        Heuristic::Manhattan => Cost { straight: (dx + dy) as u64, diag: 0 },
        Heuristic::Octile => {
            if dx >= dy {
                Cost { straight: (dx - dy) as u64, diag: dy as u64 }
            } else {
                Cost { straight: (dy - dx) as u64, diag: dx as u64 }
            }
        },
        Heuristic::Euclidean => Cost {
            straight: isqrt_spec((dx * dx + dy * dy) as nat) as u64,
            diag: 0,
        },
        Heuristic::Zero => Cost { straight: 0, diag: 0 },
    }
}

/// `isqrt_spec` brackets its argument between consecutive squares.
pub proof fn lemma_isqrt_bounds(n: nat)
    ensures
        isqrt_spec(n) * isqrt_spec(n) <= n,
        n < (isqrt_spec(n) + 1) * (isqrt_spec(n) + 1),
    decreases n,
{
    if n > 0 {
        lemma_isqrt_bounds((n - 1) as nat);
        let r = isqrt_spec((n - 1) as nat);
        assert(isqrt_spec(n) == if (r + 1) * (r + 1) <= n {
            r + 1
        } else {
            r
        });
        if (r + 1) * (r + 1) <= n {
            assert(isqrt_spec(n) == r + 1);
            assert(n <= (r + 1) * (r + 1));
            assert((r + 1) * (r + 1) < ((r + 1) + 1) * ((r + 1) + 1)) by (nonlinear_arith)
                requires
                    r >= 0,
            ;
            assert(n < (isqrt_spec(n) + 1) * (isqrt_spec(n) + 1));
        } else {
            assert(isqrt_spec(n) == r);
            assert(r * r <= n);
            assert(n < (isqrt_spec(n) + 1) * (isqrt_spec(n) + 1));
        }
    } else {
        let s = isqrt_spec(n);
        assert(s == 0);
        assert(s * s == 0 && (s + 1) * (s + 1) == 1) by (nonlinear_arith)
            requires
                s == 0,
        ;
    }
}

/// Any `r` bracketed between consecutive squares is the integer square
/// root.
pub proof fn lemma_isqrt_unique(n: nat, r: nat)
    requires
        r * r <= n,
        n < (r + 1) * (r + 1),
    ensures
        r == isqrt_spec(n),
{
    lemma_isqrt_bounds(n);
    let s = isqrt_spec(n);
    if r < s {
        assert((r + 1) * (r + 1) <= s * s) by (nonlinear_arith)
            requires
                0 <= r,
                r + 1 <= s,
        ;
    }
    if s < r {
        assert((s + 1) * (s + 1) <= r * r) by (nonlinear_arith)
            requires
                0 <= s,
                s + 1 <= r,
        ;
    }
}

/// Integer square root of a value below `2^66`, by bisection.
fn isqrt(n: u128) -> (r: u64)
    requires
        n < 0x4_0000_0000_0000_0000,
    ensures
        r == isqrt_spec(n as nat),
        r <= 0x2_0000_0000,
{
    let mut lo: u64 = 0;
    let mut hi: u64 = 0x2_0000_0000;
    proof {
        assert((0x2_0000_0000 as int) * (0x2_0000_0000 as int) == 0x4_0000_0000_0000_0000);
    }
    while lo + 1 < hi
        invariant
            0 <= lo < hi <= 0x2_0000_0000,
            (lo as int) * (lo as int) <= n,
            n < (hi as int) * (hi as int),
        decreases hi - lo,
    {
        let mid = lo + (hi - lo) / 2;
        proof {
            assert((mid as int) * (mid as int) <= (0x2_0000_0000 as int) * (0x2_0000_0000 as int))
                by (nonlinear_arith)
                requires
                    0 <= mid <= 0x2_0000_0000,
            ;
        }
        if (mid as u128) * (mid as u128) <= n {
            lo = mid;
        } else {
            hi = mid;
        }
    }
    proof {
        lemma_isqrt_unique(n as nat, lo as nat);
    }
    lo
}

/// `|dx| + |dy|`, exact; admissible under 4-directional movement.
pub fn manhattan_heuristic(source: &Point2d, target: &Point2d) -> (r: Cost)
    requires
        source.x <= COORD_LIMIT,
        source.y <= COORD_LIMIT,
        target.x <= COORD_LIMIT,
        target.y <= COORD_LIMIT,
    ensures
        r == heuristic_spec(Heuristic::Manhattan, *source, *target),
        r.straight <= 0x4_0000_0000,
        r.diag == 0,
{
    let dx = crate::point::absdiff(source.x, target.x) as u64;
    let dy = crate::point::absdiff(source.y, target.y) as u64;
    Cost { straight: dx + dy, diag: 0 }
}

/// The octile distance `(max - min) + min * sqrt(2)`, exact; the exact
/// cost of an unobstructed 8-directional path.
pub fn octal_heuristic(source: &Point2d, target: &Point2d) -> (r: Cost)
    requires
        source.x <= COORD_LIMIT,
        source.y <= COORD_LIMIT,
        target.x <= COORD_LIMIT,
        target.y <= COORD_LIMIT,
    ensures
        r == heuristic_spec(Heuristic::Octile, *source, *target),
        r.straight <= 0x4_0000_0000,
        r.diag <= 0x4_0000_0000,
{
    let dx = crate::point::absdiff(source.x, target.x) as u64;
    let dy = crate::point::absdiff(source.y, target.y) as u64;
    if dx >= dy {
        Cost { straight: dx - dy, diag: dy }
    } else {
        Cost { straight: dy - dx, diag: dx }
    }
}

/// `floor(sqrt(dx^2 + dy^2))`, exact integer square root; admissible
/// because rounding down never overestimates.
pub fn euclidean_heuristic(source: &Point2d, target: &Point2d) -> (r: Cost)
    requires
        source.x <= COORD_LIMIT,
        source.y <= COORD_LIMIT,
        target.x <= COORD_LIMIT,
        target.y <= COORD_LIMIT,
    ensures
        r == heuristic_spec(Heuristic::Euclidean, *source, *target),
        r.straight <= 0x2_0000_0000,
        r.diag == 0,
{
    let dx = crate::point::absdiff(source.x, target.x) as u128;
    let dy = crate::point::absdiff(source.y, target.y) as u128;
    proof {
        assert(dx * dx + dy * dy < 0x4_0000_0000_0000_0000) by (nonlinear_arith)
            requires
                0 <= dx <= 0xFFFF_FFFF,
                0 <= dy <= 0xFFFF_FFFF,
        ;
    }
    let n = dx * dx + dy * dy;
    Cost { straight: isqrt(n), diag: 0 }
}

/// The zero estimator.
pub fn no_heuristic(source: &Point2d, target: &Point2d) -> (r: Cost)
    ensures
        r == heuristic_spec(Heuristic::Zero, *source, *target),
{
    Cost { straight: 0, diag: 0 }
}

impl Heuristic {
    /// Evaluate the selected estimator; its counters stay small enough to
    /// keep every engine cost well-formed.
    pub fn evaluate(self, source: &Point2d, target: &Point2d) -> (r: Cost)
        requires
            source.x <= COORD_LIMIT,
            source.y <= COORD_LIMIT,
            target.x <= COORD_LIMIT,
            target.y <= COORD_LIMIT,
        ensures
            r == heuristic_spec(self, *source, *target),
            r.straight <= 0x4_0000_0000,
            r.diag <= 0x4_0000_0000,
    {
        let r = match self {
            Heuristic::Manhattan => manhattan_heuristic(source, target),
            Heuristic::Octile => octal_heuristic(source, target),
            Heuristic::Euclidean => euclidean_heuristic(source, target),
            Heuristic::Zero => no_heuristic(source, target),
        };
        r
    }
}

/// Orthogonal component of the octile distance between two points.
pub open spec fn octile_straight(a: Point2d, b: Point2d) -> int {
    let dx = abs_diff(a.x as int, b.x as int);
    let dy = abs_diff(a.y as int, b.y as int);
    if dx >= dy {
        dx - dy
    } else {
        dy - dx
    }
}

/// Diagonal component of the octile distance between two points.
pub open spec fn octile_diag(a: Point2d, b: Point2d) -> int {
    let dx = abs_diff(a.x as int, b.x as int);
    let dy = abs_diff(a.y as int, b.y as int);
    if dx >= dy {
        dy
    } else {
        dx
    }
}

/// Consistency of the octile estimate over one orthogonal step: the
/// estimate drops by at most the step's cost of one.
proof fn lemma_octile_step_orth(u1: int, v1: int, u2: int, v2: int)
    requires
        0 <= u1 && 0 <= v1 && 0 <= u2 && 0 <= v2,
        (v2 == v1 && (u2 == u1 + 1 || u2 == u1 - 1)) || (u2 == u1 && (v2 == v1 + 1 || v2 == v1
            - 1)),
    ensures
        sum_nonneg(
            (if u2 >= v2 {
                u2 - v2
            } else {
                v2 - u2
            }) + 1 - (if u1 >= v1 {
                u1 - v1
            } else {
                v1 - u1
            }),
            (if u2 >= v2 {
                v2
            } else {
                u2
            }) - (if u1 >= v1 {
                v1
            } else {
                u1
            }),
        ),
{
    let ss = (if u2 >= v2 {
        u2 - v2
    } else {
        v2 - u2
    }) + 1 - (if u1 >= v1 {
        u1 - v1
    } else {
        v1 - u1
    });
    let dd = (if u2 >= v2 {
        v2
    } else {
        u2
    }) - (if u1 >= v1 {
        v1
    } else {
        u1
    });
    assert((if dd >= 0 {
        ss >= 0 || ss * ss <= 2 * (dd * dd)
    } else {
        ss >= 0 && ss * ss >= 2 * (dd * dd)
    })) by (nonlinear_arith)
        requires
            0 <= u1 && 0 <= v1 && 0 <= u2 && 0 <= v2,
            (v2 == v1 && (u2 == u1 + 1 || u2 == u1 - 1)) || (u2 == u1 && (v2 == v1 + 1 || v2 == v1
                - 1)),
            ss == (if u2 >= v2 {
                u2 - v2
            } else {
                v2 - u2
            }) + 1 - (if u1 >= v1 {
                u1 - v1
            } else {
                v1 - u1
            }),
            dd == (if u2 >= v2 {
                v2
            } else {
                u2
            }) - (if u1 >= v1 {
                v1
            } else {
                u1
            }),
    ;
}

/// Consistency of the octile estimate over one diagonal step: the
/// estimate drops by at most the step's cost of `sqrt(2)`.
proof fn lemma_octile_step_diag(u1: int, v1: int, u2: int, v2: int)
    requires
        0 <= u1 && 0 <= v1 && 0 <= u2 && 0 <= v2,
        u2 == u1 + 1 || u2 == u1 - 1,
        v2 == v1 + 1 || v2 == v1 - 1,
    ensures
        sum_nonneg(
            (if u2 >= v2 {
                u2 - v2
            } else {
                v2 - u2
            }) - (if u1 >= v1 {
                u1 - v1
            } else {
                v1 - u1
            }),
            (if u2 >= v2 {
                v2
            } else {
                u2
            }) + 1 - (if u1 >= v1 {
                v1
            } else {
                u1
            }),
        ),
{
    let ss = (if u2 >= v2 {
        u2 - v2
    } else {
        v2 - u2
    }) - (if u1 >= v1 {
        u1 - v1
    } else {
        v1 - u1
    });
    let dd = (if u2 >= v2 {
        v2
    } else {
        u2
    }) + 1 - (if u1 >= v1 {
        v1
    } else {
        u1
    });
    assert((if dd >= 0 {
        ss >= 0 || ss * ss <= 2 * (dd * dd)
    } else {
        ss >= 0 && ss * ss >= 2 * (dd * dd)
    })) by (nonlinear_arith)
        requires
            0 <= u1 && 0 <= v1 && 0 <= u2 && 0 <= v2,
            u2 == u1 + 1 || u2 == u1 - 1,
            v2 == v1 + 1 || v2 == v1 - 1,
            ss == (if u2 >= v2 {
                u2 - v2
            } else {
                v2 - u2
            }) - (if u1 >= v1 {
                u1 - v1
            } else {
                v1 - u1
            }),
            dd == (if u2 >= v2 {
                v2
            } else {
                u2
            }) + 1 - (if u1 >= v1 {
                v1
            } else {
                u1
            }),
    ;
}

/// One unit step lowers the octile estimate to the target by at most the
/// step's own cost.
proof fn lemma_octile_step(a: Point2d, b: Point2d, t: Point2d)
    requires
        unit_delta(a, b, true),
    ensures
        sum_nonneg(
            octile_straight(b, t) + pair_cost_straight(a, b) - octile_straight(a, t),
            octile_diag(b, t) + pair_cost_diag(a, b) - octile_diag(a, t),
        ),
{
    let u1 = abs_diff(a.x as int, t.x as int);
    let v1 = abs_diff(a.y as int, t.y as int);
    let u2 = abs_diff(b.x as int, t.x as int);
    let v2 = abs_diff(b.y as int, t.y as int);
    if a.x != b.x && a.y != b.y {
        assert(pair_cost_straight(a, b) == 0 && pair_cost_diag(a, b) == 1);
        assert(u2 == u1 + 1 || u2 == u1 - 1);
        assert(v2 == v1 + 1 || v2 == v1 - 1);
        lemma_octile_step_diag(u1, v1, u2, v2);
    } else {
        assert(pair_cost_straight(a, b) == 1 && pair_cost_diag(a, b) == 0);
        if a.x != b.x {
            assert(v2 == v1 && (u2 == u1 + 1 || u2 == u1 - 1));
        } else {
            assert(u2 == u1 && (v2 == v1 + 1 || v2 == v1 - 1));
        }
        lemma_octile_step_orth(u1, v1, u2, v2);
    }
}

/// Dropping a path's first cell removes exactly its first edge's cost.
proof fn lemma_path_cost_drop_first(p: Seq<Point2d>)
    requires
        p.len() >= 2,
    ensures
        path_cost_straight(p) == pair_cost_straight(p[0], p[1]) + path_cost_straight(
            p.drop_first(),
        ),
        path_cost_diag(p) == pair_cost_diag(p[0], p[1]) + path_cost_diag(p.drop_first()),
    decreases p.len(),
{
    if p.len() == 2 {
        assert(p.drop_first().len() == 1);
        assert(p.drop_last().len() == 1);
        assert(p[p.len() - 2] == p[0] && p[p.len() - 1] == p[1]);
        assert(path_cost_straight(p.drop_last()) == 0);
        assert(path_cost_straight(p.drop_first()) == 0);
        assert(path_cost_diag(p.drop_last()) == 0);
        assert(path_cost_diag(p.drop_first()) == 0);
        assert(path_cost_straight(p) == path_cost_straight(p.drop_last()) + pair_cost_straight(
            p[0],
            p[1],
        ));
        assert(path_cost_diag(p) == path_cost_diag(p.drop_last()) + pair_cost_diag(p[0], p[1]));
    } else {
        lemma_path_cost_drop_first(p.drop_last());
        assert(p.drop_last().drop_first() =~= p.drop_first().drop_last());
        assert(p.drop_last()[0] == p[0] && p.drop_last()[1] == p[1]);
        let q = p.drop_first();
        assert(q[q.len() - 2] == p[p.len() - 2] && q[q.len() - 1] == p[p.len() - 1]);
    }
}

/// Admissibility of the octile estimate (spec section on heuristics):
/// it never overestimates the exact cost of any unit path between its
/// endpoints.  A returned path whose cost equals the octile estimate of
/// its endpoints is therefore cost-optimal.
pub proof fn lemma_octile_admissible(
    g: Grid,
    p: Seq<Point2d>,
    s: Point2d,
    t: Point2d,
    diag: bool,
)
    requires
        is_unit_path(g, p, s, t, diag),
    ensures
        sum_nonneg(
            path_cost_straight(p) - octile_straight(s, t),
            path_cost_diag(p) - octile_diag(s, t),
        ),
    decreases p.len(),
{
    if p.len() == 1 {
        assert(octile_straight(s, t) == 0 && octile_diag(s, t) == 0);
    } else {
        let q = p.drop_first();
        assert(step_ok(g, p[0], p[1], diag));
        assert(is_unit_path(g, q, p[1], t, diag)) by {
            assert(q[0] == p[1]);
            assert(q[q.len() - 1] == p[p.len() - 1]);
            assert forall|i: int|
                0 <= i < q.len() - 1 implies step_ok(g, #[trigger] q[i], q[i + 1], diag) by {
                assert(q[i] == p[i + 1]);
                assert(q[i + 1] == p[i + 2]);
                assert(step_ok(g, p[i + 1], p[i + 1 + 1], diag));
            }
        }
        lemma_octile_admissible(g, q, p[1], t, diag);
        lemma_path_cost_drop_first(p);
        lemma_octile_step(p[0], p[1], t);
        lemma_sum_nonneg_add(
            octile_straight(p[1], t) + pair_cost_straight(p[0], p[1]) - octile_straight(s, t),
            octile_diag(p[1], t) + pair_cost_diag(p[0], p[1]) - octile_diag(s, t),
            path_cost_straight(q) - octile_straight(p[1], t),
            path_cost_diag(q) - octile_diag(p[1], t),
        );
    }
}

} // verus!

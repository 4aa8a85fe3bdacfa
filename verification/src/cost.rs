//! Exact path costs of the form `straight + diag * sqrt(2)`.
//!
//! An 8-directional grid path pays `1` per orthogonal step and `sqrt(2)`
//! per diagonal step, so every reachable cost is `a + b * sqrt(2)` with
//! natural counters `a` and `b`.  Because `sqrt(2)` is irrational this
//! representation is unique, and the order on costs can be decided with
//! integer arithmetic alone: no floating point, no epsilon, and a heap
//! built on it is fully deterministic.

use vstd::prelude::*;

verus! {

/// Both counters of every cost that the engines compare stay below this
/// bound (a path through a grid of at most `GRID_AREA_LIMIT` cells takes
/// far fewer unit steps), which keeps the squares in `le` inside `i128`.
pub const COST_BOUND: u64 = 0x1000_0000_0000;

/// An exact cost `straight + diag * sqrt(2)`.
#[derive(Clone, Copy, Debug, PartialEq, Eq, Structural)]
pub struct Cost {
    /// Number of orthogonal unit steps (weight 1 each).
    pub straight: u64,
    /// Number of diagonal unit steps (weight sqrt(2) each).
    pub diag: u64,
}

/// Whether `ds + dd * sqrt(2) >= 0`, decided by sign analysis and squaring;
/// `sqrt(2)` being irrational, `ds^2 == 2 * dd^2` only at `ds == dd == 0`.
pub open spec fn sum_nonneg(ds: int, dd: int) -> bool {
    if dd >= 0 {
        ds >= 0 || ds * ds <= 2 * (dd * dd)
    } else {
        ds >= 0 && ds * ds >= 2 * (dd * dd)
    }
}

impl Cost {
    /// Counters small enough for exact comparison.
    pub open spec fn wf(self) -> bool {
        self.straight <= COST_BOUND && self.diag <= COST_BOUND
    }

    /// The exact order on cost values: `a <= b` as real numbers.
    pub open spec fn le_spec(a: Cost, b: Cost) -> bool {
        sum_nonneg(b.straight - a.straight, b.diag - a.diag)
    }

    pub open spec fn zero_spec() -> Cost {
        Cost { straight: 0, diag: 0 }
    }

    /// The zero cost.
    pub fn zero() -> (r: Cost)
        ensures
            r == Cost::zero_spec(),
    {
        Cost { straight: 0, diag: 0 }
    }

    /// The cost of one unit step: `sqrt(2)` for a diagonal step, `1` for an
    /// orthogonal one.
    pub fn step(diagonal: bool) -> (r: Cost)
        ensures
            diagonal ==> r == (Cost { straight: 0, diag: 1 }),
            !diagonal ==> r == (Cost { straight: 1, diag: 0 }),
    {
        if diagonal {
            Cost { straight: 0, diag: 1 }
        } else {
            Cost { straight: 1, diag: 0 }
        }
    }

    /// Component-wise sum, exact because the representation is linear.
    pub fn add(self, other: Cost) -> (r: Cost)
        requires
            self.straight + other.straight <= u64::MAX,
            self.diag + other.diag <= u64::MAX,
        ensures
            r.straight == self.straight + other.straight,
            r.diag == self.diag + other.diag,
    {
        Cost {
            straight: self.straight + other.straight,
            diag: self.diag + other.diag,
        }
    }

    /// Exact comparison `self <= other` on real cost values.
    pub fn le(self, other: Cost) -> (r: bool)
        requires
            self.wf(),
            other.wf(),
        ensures
            r == Cost::le_spec(self, other),
    {
        let ds: i128 = other.straight as i128 - self.straight as i128;
        let dd: i128 = other.diag as i128 - self.diag as i128;
        proof {
            lemma_square_bound(ds as int);
            lemma_square_bound(dd as int);
        }
        if dd >= 0 {
            ds >= 0 || ds * ds <= 2 * (dd * dd)
        } else {
            ds >= 0 && ds * ds >= 2 * (dd * dd)
        }
    }
}

/// A square of a bounded value is bounded, and never negative.
proof fn lemma_square_bound(v: int)
    requires
        -0x1000_0000_0000 <= v <= 0x1000_0000_0000,
    ensures
        0 <= v * v <= 0x1000_0000_0000 * 0x1000_0000_0000,
    decreases 0int,
{
    assert(0 <= v * v <= 0x1000_0000_0000 * 0x1000_0000_0000) by (nonlinear_arith)
        requires
            -0x1000_0000_0000 <= v <= 0x1000_0000_0000,
    ;
}

/// Squaring forgets the sign.
proof fn lemma_neg_square(v: int)
    ensures
        (-v) * (-v) == v * v,
{
    assert((-v) * (-v) == v * v) by (nonlinear_arith);
}

/// The order decided by `le` is total: of two costs, one is less than or
/// equal to the other.
pub proof fn lemma_cost_le_total(a: Cost, b: Cost)
    ensures
        Cost::le_spec(a, b) || Cost::le_spec(b, a),
{
    let ds = b.straight - a.straight;
    let dd = b.diag - a.diag;
    lemma_neg_square(ds);
    lemma_neg_square(dd);
    if dd > 0 {
        if !(ds >= 0 || ds * ds <= 2 * (dd * dd)) {
            assert(sum_nonneg(-ds, -dd));
        }
    } else if dd == 0 {
        assert(sum_nonneg(ds, dd) || sum_nonneg(-ds, -dd));
    } else {
        if !(ds >= 0 && ds * ds >= 2 * (dd * dd)) {
            assert(sum_nonneg(-ds, -dd));
        }
    }
}

/// Nonnegative exact values stay nonnegative when added: the core fact
/// behind transitivity of the order.
pub proof fn lemma_sum_nonneg_add(x1: int, y1: int, x2: int, y2: int)
    requires
        sum_nonneg(x1, y1),
        sum_nonneg(x2, y2),
    ensures
        sum_nonneg(x1 + x2, y1 + y2),
{
    let xs = x1 + x2;
    let ys = y1 + y2;
    if y1 >= 0 && y2 >= 0 {
        if x1 >= 0 && x2 >= 0 {
        } else if x1 < 0 && x2 < 0 {
            // |x1| <= sqrt(2) y1 and |x2| <= sqrt(2) y2, so their sum is
            // within sqrt(2) (y1 + y2)
            assert(xs < 0 ==> xs * xs <= 2 * (ys * ys)) by (nonlinear_arith)
                requires
                    x1 < 0,
                    x2 < 0,
                    y1 >= 0,
                    y2 >= 0,
                    x1 * x1 <= 2 * (y1 * y1),
                    x2 * x2 <= 2 * (y2 * y2),
                    xs == x1 + x2,
                    ys == y1 + y2,
            ;
        } else if x1 < 0 {
            // only x1 dips below zero, and it is within sqrt(2) y1
            assert(xs < 0 ==> xs * xs <= 2 * (ys * ys)) by (nonlinear_arith)
                requires
                    x1 < 0,
                    x2 >= 0,
                    y1 >= 0,
                    y2 >= 0,
                    x1 * x1 <= 2 * (y1 * y1),
                    xs == x1 + x2,
                    ys == y1 + y2,
            ;
        } else {
            assert(xs < 0 ==> xs * xs <= 2 * (ys * ys)) by (nonlinear_arith)
                requires
                    x2 < 0,
                    x1 >= 0,
                    y1 >= 0,
                    y2 >= 0,
                    x2 * x2 <= 2 * (y2 * y2),
                    xs == x1 + x2,
                    ys == y1 + y2,
            ;
        }
    } else if y1 < 0 && y2 < 0 {
        // both exceed their sqrt(2)-scaled drops, and so does the sum
        assert(xs >= 0 && (ys < 0 ==> xs * xs >= 2 * (ys * ys))) by (nonlinear_arith)
            requires
                y1 < 0,
                y2 < 0,
                x1 >= 0,
                x2 >= 0,
                x1 * x1 >= 2 * (y1 * y1),
                x2 * x2 >= 2 * (y2 * y2),
                xs == x1 + x2,
                ys == y1 + y2,
        ;
    } else if y1 >= 0 {
        // mixed signs: y1 >= 0 > y2
        if x1 >= 0 {
            assert((ys >= 0 ==> (xs >= 0 || xs * xs <= 2 * (ys * ys))) && (ys < 0 ==> (xs >= 0
                && xs * xs >= 2 * (ys * ys)))) by (nonlinear_arith)
                requires
                    y1 >= 0,
                    y2 < 0,
                    x1 >= 0,
                    x2 >= 0,
                    x2 * x2 >= 2 * (y2 * y2),
                    xs == x1 + x2,
                    ys == y1 + y2,
            ;
        } else {
            assert((ys >= 0 ==> (xs >= 0 || xs * xs <= 2 * (ys * ys))) && (ys < 0 ==> (xs >= 0
                && xs * xs >= 2 * (ys * ys)))) by (nonlinear_arith)
                requires
                    y1 >= 0,
                    y2 < 0,
                    x1 < 0,
                    x2 >= 0,
                    x1 * x1 <= 2 * (y1 * y1),
                    x2 * x2 >= 2 * (y2 * y2),
                    xs == x1 + x2,
                    ys == y1 + y2,
            ;
        }
    } else {
        // symmetric mixed case: y2 >= 0 > y1
        if x2 >= 0 {
            assert((ys >= 0 ==> (xs >= 0 || xs * xs <= 2 * (ys * ys))) && (ys < 0 ==> (xs >= 0
                && xs * xs >= 2 * (ys * ys)))) by (nonlinear_arith)
                requires
                    y2 >= 0,
                    y1 < 0,
                    x2 >= 0,
                    x1 >= 0,
                    x1 * x1 >= 2 * (y1 * y1),
                    xs == x1 + x2,
                    ys == y1 + y2,
            ;
        } else {
            assert((ys >= 0 ==> (xs >= 0 || xs * xs <= 2 * (ys * ys))) && (ys < 0 ==> (xs >= 0
                && xs * xs >= 2 * (ys * ys)))) by (nonlinear_arith)
                requires
                    y2 >= 0,
                    y1 < 0,
                    x2 < 0,
                    x1 >= 0,
                    x2 * x2 <= 2 * (y2 * y2),
                    x1 * x1 >= 2 * (y1 * y1),
                    xs == x1 + x2,
                    ys == y1 + y2,
            ;
        }
    }
}

/// The order decided by `le` is reflexive.
pub proof fn lemma_cost_le_refl(a: Cost)
    ensures
        Cost::le_spec(a, a),
{
}

/// The order decided by `le` is transitive.
pub proof fn lemma_cost_le_trans(a: Cost, b: Cost, c: Cost)
    requires
        Cost::le_spec(a, b),
        Cost::le_spec(b, c),
    ensures
        Cost::le_spec(a, c),
{
    lemma_sum_nonneg_add(
        b.straight - a.straight,
        b.diag - a.diag,
        c.straight - b.straight,
        c.diag - b.diag,
    );
}

} // verus!

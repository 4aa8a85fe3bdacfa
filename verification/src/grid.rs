//! The static 2D occupancy grid: a rectangular array of byte flags,
//! `1` = passable, `0` = blocked, queried through a bounds-checked
//! predicate that fails closed on out-of-range coordinates.

use vstd::prelude::*;
use crate::direction::Direction;
use crate::point::Point2d;

verus! {

/// Capacity limit on `width * height`.  Keeping the area (and with it every
/// coordinate and every path length) at most a million cells lets the
/// engines account for their exact cost arithmetic without overflow.
pub const GRID_AREA_LIMIT: usize = 0x10_0000;

/// Rejection of an occupancy map a grid cannot be built from.
#[derive(Clone, Copy, Debug, PartialEq, Eq, Structural)]
pub enum GridError {
    /// Ragged rows, a non-binary symbol, or an area over the capacity
    /// limit.
    MalformedGrid,
}

/// An immutable binary occupancy map in row-major order.
pub struct Grid {
    width: usize,
    height: usize,
    cells: Vec<u8>,
}

impl Grid {
    /// Well-formed: the flag array matches the dimensions, stays within
    /// the capacity limit, and holds only binary flags.
    pub closed spec fn wf(self) -> bool {
        &&& self.cells@.len() == self.width * self.height
        &&& self.width * self.height <= GRID_AREA_LIMIT
        &&& forall|i: int|
            0 <= i < self.cells@.len() ==> self.cells@[i] == 0 || self.cells@[i] == 1
    }

    pub closed spec fn width_spec(self) -> usize {
        self.width
    }

    pub closed spec fn height_spec(self) -> usize {
        self.height
    }

    /// The bounds-checked passability predicate: true exactly for
    /// in-range coordinates whose cell flag is `1`.
    pub closed spec fn passable(self, x: int, y: int) -> bool {
        &&& 0 <= x < self.width
        &&& 0 <= y < self.height
        &&& self.cells@[y * self.width + x] == 1
    }

    /// Row-major index of a point.
    pub open spec fn index_of(self, p: Point2d) -> int {
        p.y * self.width_spec() + p.x
    }

    /// The point at a row-major index.
    pub open spec fn point_of(self, i: int) -> Point2d {
        Point2d {
            x: (i % (self.width_spec() as int)) as usize,
            y: (i / (self.width_spec() as int)) as usize,
        }
    }

    /// The capacity bound, stated for the engines.
    pub proof fn lemma_area_limit(self)
        requires
            self.wf(),
        ensures
            self.width_spec() * self.height_spec() <= GRID_AREA_LIMIT,
    {
    }

    /// A passable point lies strictly inside the dimensions.
    pub proof fn lemma_passable_in_bounds(self, x: int, y: int)
        ensures
            self.passable(x, y) ==> 0 <= x < self.width_spec() && 0 <= y
                < self.height_spec(),
    {
    }

    /// Build a grid from dimensions and a row-major flag array.  Returns
    /// `None` exactly when the array does not match the dimensions, a flag
    /// is not binary, or the area is over the capacity limit.
    pub fn new(width: usize, height: usize, cells: Vec<u8>) -> (r: Option<Grid>)
        ensures
            r is Some <==> {
                &&& cells@.len() == width * height
                &&& width * height <= GRID_AREA_LIMIT
                &&& forall|i: int| 0 <= i < cells@.len() ==> cells@[i] == 0 || cells@[i] == 1
            },
            r matches Some(g) ==> {
                &&& g.wf()
                &&& g.width_spec() == width
                &&& g.height_spec() == height
                &&& forall|x: int, y: int|
                    g.passable(x, y) == (0 <= x < width && 0 <= y < height
                        && cells@[y * width + x] == 1)
            },
    {
        let area = match width.checked_mul(height) {
            Some(a) => a,
            None => {
                return None;
            },
        };
        if area > GRID_AREA_LIMIT || cells.len() != area {
            return None;
        }
        let mut i: usize = 0;
        while i < cells.len()
            invariant
                0 <= i <= cells@.len(),
                forall|j: int| 0 <= j < i ==> cells@[j] == 0 || cells@[j] == 1,
            decreases cells@.len() - i,
        {
            if cells[i] > 1 {
                return None;
            }
            i = i + 1;
        }
        Some(Grid { width, height, cells })
    }

    pub fn width(&self) -> (r: usize)
        ensures
            r == self.width_spec(),
    {
        self.width
    }

    pub fn height(&self) -> (r: usize)
        ensures
            r == self.height_spec(),
    {
        self.height
    }

    /// The point one step away in `dir`, when that step stays on the
    /// grid and lands on a passable cell.
    pub fn new_point_in_grid(&self, point: Point2d, dir: Direction) -> (r: Option<Point2d>)
        requires
            self.wf(),
            dir.is_unit(),
            point.x < usize::MAX,
            point.y < usize::MAX,
        ensures
            r is Some <==> (0 <= point.x + dir.x && 0 <= point.y + dir.y && self.passable(
                point.x + dir.x,
                point.y + dir.y,
            )),
            r matches Some(np) ==> np.x == point.x + dir.x && np.y == point.y + dir.y,
    {
        if dir.x == -1 && point.x == 0 {
            return None;
        }
        if dir.y == -1 && point.y == 0 {
            return None;
        }
        let np = point.add_direction(dir);
        if self.is_passable(np) {
            Some(np)
        } else {
            None
        }
    }

    /// Bounds-checked passability query; fails closed (returns `false`)
    /// for any out-of-bounds point rather than panicking, since it sits on
    /// every engine's hot path.
    pub fn is_passable(&self, p: Point2d) -> (r: bool)
        requires
            self.wf(),
        ensures
            r == self.passable(p.x as int, p.y as int),
    {
        if p.x < self.width && p.y < self.height {
            proof {
                lemma_row_major_index(p.x as int, p.y as int, self.width as int, self.height as int);
            }
            let idx = p.y * self.width + p.x;
            self.cells[idx] == 1
        } else {
            false
        }
    }
}

/// The common row width of a decoded text map (0 for an empty map).
pub open spec fn row_width(rows: Seq<Vec<u8>>) -> int {
    if rows.len() == 0 {
        0
    } else {
        rows[0]@.len() as int
    }
}

/// Every row has the common width.
pub open spec fn rows_uniform(rows: Seq<Vec<u8>>) -> bool {
    forall|r: int| 0 <= r < rows.len() ==> #[trigger] rows[r]@.len() == row_width(rows)
}

/// Every symbol is the digit `0` or `1` (ASCII 48 or 49).
pub open spec fn rows_binary(rows: Seq<Vec<u8>>) -> bool {
    forall|r: int, c: int|
        0 <= r < rows.len() && 0 <= c < rows[r]@.len() ==> #[trigger] rows[r]@[c] == 48
            || rows[r]@[c] == 49
}

/// Decode a text map, one row per line, each symbol the digit `0`
/// (blocked) or `1` (passable), into a grid.  Ragged rows, any other
/// symbol, and maps over the capacity limit are rejected as malformed.
pub fn decode_map(rows: &Vec<Vec<u8>>) -> (r: Result<Grid, GridError>)
    ensures
        r is Ok <==> {
            &&& rows_uniform(rows@)
            &&& rows_binary(rows@)
            &&& row_width(rows@) * rows@.len() <= GRID_AREA_LIMIT
        },
        r matches Ok(g) ==> {
            &&& g.wf()
            &&& g.height_spec() == rows@.len()
            &&& g.width_spec() == row_width(rows@)
            &&& forall|x: int, y: int|
                g.passable(x, y) == (0 <= y < rows@.len() && 0 <= x < rows@[y]@.len()
                    && rows@[y]@[x] == 49)
        },
{
    let h = rows.len();
    let w = if h == 0 {
        0
    } else {
        rows[0].len()
    };
    let area = match w.checked_mul(h) {
        Some(a) => a,
        None => {
            return Err(GridError::MalformedGrid);
        },
    };
    if area > GRID_AREA_LIMIT {
        return Err(GridError::MalformedGrid);
    }
    let mut cells: Vec<u8> = Vec::new();
    let mut y: usize = 0;
    while y < h
        invariant
            0 <= y <= h,
            h == rows@.len(),
            w == row_width(rows@),
            w * h <= GRID_AREA_LIMIT,
            cells@.len() == y * w,
            forall|r: int| 0 <= r < y ==> #[trigger] rows@[r]@.len() == w,
            forall|r: int, c: int|
                0 <= r < y && 0 <= c < w ==> (#[trigger] rows@[r]@[c] == 48 || rows@[r]@[c]
                    == 49),
            forall|j: int|
                0 <= j < cells@.len() ==> #[trigger] cells@[j] == rows@[j / (w as int)]@[j % (
                w as int)] - 48,
        decreases h - y,
    {
        if rows[y].len() != w {
            assert(!rows_uniform(rows@)) by {
                assert(rows@[y as int]@.len() != row_width(rows@));
            }
            return Err(GridError::MalformedGrid);
        }
        let row = &rows[y];
        let mut x: usize = 0;
        while x < w
            invariant
                0 <= x <= w,
                0 <= y < h,
                h == rows@.len(),
                w == row_width(rows@),
                row@ == rows@[y as int]@,
                row@.len() == w,
                w * h <= GRID_AREA_LIMIT,
                cells@.len() == y * w + x,
                forall|r: int| 0 <= r < y ==> #[trigger] rows@[r]@.len() == w,
                forall|r: int, c: int|
                    0 <= r < y && 0 <= c < w ==> (#[trigger] rows@[r]@[c] == 48 || rows@[r]@[c]
                        == 49),
                forall|c: int| 0 <= c < x ==> (#[trigger] row@[c] == 48 || row@[c] == 49),
                forall|j: int|
                    0 <= j < cells@.len() ==> #[trigger] cells@[j] == rows@[j / (w as int)]@[j % (
                    w as int)] - 48,
            decreases w - x,
        {
            let b = row[x];
            if b != 48 && b != 49 {
                assert(!rows_binary(rows@)) by {
                    assert(rows@[y as int]@[x as int] != 48 && rows@[y as int]@[x as int] != 49);
                }
                return Err(GridError::MalformedGrid);
            }
            proof {
                lemma_row_major_index(x as int, y as int, w as int, h as int);
                lemma_row_major_inverse(x as int, y as int, w as int);
            }
            cells.push(b - 48);
            x = x + 1;
        }
        proof {
            assert((y + 1) * w == y * w + w) by (nonlinear_arith);
        }
        y = y + 1;
    }
    proof {
        assert(rows_uniform(rows@));
        assert(rows_binary(rows@)) by {
            assert forall|r: int, c: int|
                0 <= r < rows@.len() && 0 <= c < rows@[r]@.len() implies (#[trigger] rows@[r]@[c]
                == 48 || rows@[r]@[c] == 49) by {
                assert(rows@[r]@.len() == w);
            }
        }
        assert forall|x: int, yy: int|
            (0 <= x < w && 0 <= yy < h) implies ((#[trigger] rows@[yy]@[x] == 49) == (cells@[yy * (
            w as int) + x] == 1) && (rows@[yy]@[x] == 48 || rows@[yy]@[x] == 49)) by {
            assert(rows@[yy]@.len() == w);
            lemma_row_major_index(x, yy, w as int, h as int);
            lemma_row_major_inverse(x, yy, w as int);
            let j = yy * (w as int) + x;
            assert(0 <= j < w * h);
            assert(cells@.len() == h * w);
            assert(0 <= j < cells@.len());
            assert(cells@[j] == rows@[j / (w as int)]@[j % (w as int)] - 48);
        }
        assert forall|j: int| 0 <= j < cells@.len() implies (#[trigger] cells@[j] == 0 || cells@[j]
            == 1) by {
            lemma_div_bounds(j, w as int, h as int);
            let r = j / (w as int);
            let c = j % (w as int);
            assert(cells@[j] == rows@[r]@[c] - 48);
            assert(rows@[r]@.len() == w);
            assert(rows@[r]@[c] == 48 || rows@[r]@[c] == 49);
        }
    }
    match Grid::new(w, h, cells) {
        Some(g) => {
            proof {
                assert forall|x: int, yy: int|
                    g.passable(x, yy) == (0 <= yy < rows@.len() && 0 <= x < rows@[yy]@.len()
                        && rows@[yy]@[x] == 49) by {
                    if 0 <= yy < h {
                        assert(rows@[yy]@.len() == w);
                        if 0 <= x < w {
                            assert(rows@[yy]@[x] == 48 || rows@[yy]@[x] == 49);
                        }
                    }
                }
            }
            Ok(g)
        },
        None => Err(GridError::MalformedGrid),
    }
}

/// Division and remainder of an index within a `w`-by-`h` row-major array.
proof fn lemma_div_bounds(j: int, w: int, h: int)
    requires
        0 <= j < h * w,
        1 <= w,
    ensures
        0 <= j % w < w,
        0 <= j / w < h,
{
    assert(0 <= j % w < w && 0 <= j / w < h) by (nonlinear_arith)
        requires
            0 <= j < h * w,
            1 <= w,
    ;
}

/// Build a square grid of the given size whose border cells are blocked
/// and whose interior is fully passable.
pub fn grid_setup(size: usize) -> (g: Grid)
    requires
        size * size <= GRID_AREA_LIMIT,
    ensures
        g.wf(),
        g.width_spec() == size,
        g.height_spec() == size,
        forall|x: int, y: int|
            g.passable(x, y) == (0 < x < size - 1 && 0 < y < size - 1),
{
    let area = size * size;
    let mut cells: Vec<u8> = Vec::new();
    let mut i: usize = 0;
    while i < area
        invariant
            0 <= i <= area,
            area == size * size,
            cells@.len() == i,
            forall|j: int|
                0 <= j < i ==> #[trigger] cells@[j] == (if 0 < j % (size as int) < size - 1 && 0 < j
                    / (size as int) < size - 1 {
                    1u8
                } else {
                    0u8
                }),
        decreases area - i,
    {
        proof {
            lemma_div_in_range(i as int, size as int);
        }
        let x = i % size;
        let y = i / size;
        let flag: u8 = if x > 0 && x < size - 1 && y > 0 && y < size - 1 {
            1
        } else {
            0
        };
        cells.push(flag);
        i = i + 1;
    }
    let g = Grid { width: size, height: size, cells };
    proof {
        assert forall|x: int, y: int|
            g.passable(x, y) == (0 < x < size - 1 && 0 < y < size - 1) by {
            if 0 <= x < size && 0 <= y < size {
                lemma_row_major_index(x, y, size as int, size as int);
                lemma_row_major_inverse(x, y, size as int);
            }
        }
    }
    g
}

/// `i % w` stays in range and `i / w` stays under `h` for `i < w * h`.
proof fn lemma_div_in_range(i: int, w: int)
    requires
        0 <= i,
        1 <= w,
    ensures
        0 <= i % w < w,
        0 <= i / w,
{
    assert(0 <= i % w < w && 0 <= i / w) by (nonlinear_arith)
        requires
            0 <= i,
            1 <= w,
    ;
}

/// With a passable witness cell, both dimensions are at least one, so
/// each is capped by the area.
pub proof fn lemma_dims_le_area(g: Grid, witness: Point2d)
    requires
        g.wf(),
        g.passable(witness.x as int, witness.y as int),
    ensures
        g.width_spec() <= g.width_spec() * g.height_spec(),
        g.height_spec() <= g.width_spec() * g.height_spec(),
{
    let w = g.width_spec() as int;
    let h = g.height_spec() as int;
    assert(w <= w * h && h <= w * h) by (nonlinear_arith)
        requires
            1 <= w,
            1 <= h,
    ;
}

/// Point-to-index and back, for in-bounds points.
pub proof fn lemma_index_roundtrip(g: Grid, p: Point2d)
    requires
        p.x < g.width_spec(),
        p.y < g.height_spec(),
    ensures
        0 <= g.index_of(p) < g.width_spec() * g.height_spec(),
        g.point_of(g.index_of(p)) == p,
{
    lemma_row_major_index(p.x as int, p.y as int, g.width_spec() as int, g.height_spec() as int);
    lemma_row_major_inverse(p.x as int, p.y as int, g.width_spec() as int);
}

/// A row-major index from in-range coordinates lies inside the array.
pub proof fn lemma_row_major_index(x: int, y: int, w: int, h: int)
    requires
        0 <= x < w,
        0 <= y < h,
    ensures
        0 <= y * w + x < w * h,
{
    assert(0 <= y * w + x < w * h) by (nonlinear_arith)
        requires
            0 <= x < w,
            0 <= y < h,
    ;
}

/// Row-major indexing and its inverse agree on in-range coordinates.
pub proof fn lemma_row_major_inverse(x: int, y: int, w: int)
    requires
        0 <= x < w,
        0 <= y,
    ensures
        (y * w + x) % w == x,
        (y * w + x) / w == y,
{
    assert((y * w + x) % w == x && (y * w + x) / w == y) by (nonlinear_arith)
        requires
            0 <= x < w,
            0 <= y,
    ;
}

} // verus!

//! Positions of the similarity grid searched for a least-cost, mostly
//! diagonal path: which cells a search step may enter, when the search is
//! done, and how far a cell lies from the band of longest diagonals.
use vstd::prelude::*;

verus! {

/// Distance, counted in diagonals, between the diagonal through `(x, y)` and
/// the band of longest diagonals of a `w` by `h` grid.
///
/// In a grid whose shorter side is `s` and longer side is `l`, the diagonals
/// of `s` cells are those whose offset `d` (column minus row, measured along
/// the shorter side) lies in `[-(l - s), 0]`; this is how far `d` lies
/// outside that band.
pub open spec fn diagonal_gap(x: int, y: int, w: int, h: int) -> int {
    let d = if w <= h { x - y } else { y - x };
    let band = if w <= h { h - w } else { w - h };
    if d > 0 {
        d
    } else if -d - band > 0 {
        -d - band
    } else {
        0
    }
}

/// The `i32` arithmetic of [`cells_to_extend_diagonal`] stays in range.
pub open spec fn extend_args_in_range(x: i32, y: i32, w: usize, h: usize) -> bool {
    let (a, b, ww, hh) = if w > h {
        (y as int, x as int, h as int, w as int)
    } else {
        (x as int, y as int, w as int, h as int)
    };
    &&& w <= i32::MAX
    &&& h <= i32::MAX
    &&& i32::MIN <= ww - a <= i32::MAX
    &&& i32::MIN <= hh - b <= i32::MAX
    &&& (a > b ==> a - b <= i32::MAX)
    &&& (a <= b && ww - a > hh - b ==> (ww - a) - (hh - b) <= i32::MAX)
}

/// Given a point and the grid dimensions, how many cells the diagonal
/// through the point must be extended by to have as many cells as the
/// longest diagonal. Used to keep the search from cutting corners.
pub fn cells_to_extend_diagonal(x: i32, y: i32, w: usize, h: usize) -> (r: i32)
    requires
        extend_args_in_range(x, y, w, h),
    ensures
        r == diagonal_gap(x as int, y as int, w as int, h as int),
        r >= 0,
{
    let mut x = x;
    let mut y = y;
    let mut w = w;
    let mut h = h;
    // having the form that is expected: the first side is the shorter one
    if w > h {
        let t = x;
        x = y;
        y = t;
        let s = w;
        w = h;
        h = s;
    }
    // mirrored point
    let x2 = w as i32 - x;
    let y2 = h as i32 - y;
    if x > y {
        x - y
    } else if x2 > y2 {
        x2 - y2
    } else {
        // on one of the longest diagonals: nothing to add
        0
    }
}

/// The diagonal gap does not change when the grid is transposed.
pub proof fn lemma_diagonal_gap_transpose(x: int, y: int, w: int, h: int)
    ensures
        diagonal_gap(x, y, w, h) == diagonal_gap(y, x, h, w),
{
}

/// Cells on a diagonal of greatest length need no extension.
pub proof fn lemma_diagonal_gap_zero_on_longest(x: int, y: int, w: int, h: int)
    requires
        w <= h,
        0 <= y - x <= h - w,
    ensures
        diagonal_gap(x, y, w, h) == 0,
{
}

/// How many of the columns `0..i` the diagonal at offset `d` (column minus
/// row) crosses within the rows `0..h`.
pub open spec fn diagonal_cells(d: int, h: int, i: int) -> int
    decreases i,
{
    if i <= 0 {
        0
    } else {
        diagonal_cells(d, h, i - 1) + (if d <= i - 1 < h + d { 1int } else { 0int })
    }
}

proof fn lemma_diagonal_cells(d: int, h: int, i: int)
    requires
        i >= 0,
    ensures
        diagonal_cells(d, h, i) == vstd::math::max(
            0,
            vstd::math::min(i, h + d) - vstd::math::max(0, d),
        ),
    decreases i,
{
    if i > 0 {
        lemma_diagonal_cells(d, h, i - 1);
    }
}

/// The diagonal through a cell of the grid falls short of a longest
/// diagonal by exactly as many cells as the gap counts: adding that many
/// cells makes it as long as the longest one.
pub proof fn lemma_diagonal_gap_counts_missing_cells(x: int, y: int, w: int, h: int)
    requires
        in_grid(x, y, w, h),
    ensures
        diagonal_gap(x, y, w, h) == vstd::math::min(w, h) - diagonal_cells(x - y, h, w),
{
    lemma_diagonal_cells(x - y, h, w);
}

/// A position of the search. `(-1, -1)` is the flexible start, from which
/// any cell of the first row or first column may be entered.
#[derive(Clone, Copy, PartialEq, Eq, Debug)]
pub struct Pos {
    pub x: i32,
    pub y: i32,
}

/// The grid is not empty and its sides fit in `i32`.
pub open spec fn grid_dims_ok(w: usize, h: usize) -> bool {
    1 <= w <= i32::MAX && 1 <= h <= i32::MAX
}

/// The position lies on the last column or the last row.
pub open spec fn spec_reached(x: int, y: int, w: int, h: int) -> bool {
    x == w - 1 || y == h - 1
}

/// The position is a cell of the grid.
pub open spec fn in_grid(x: int, y: int, w: int, h: int) -> bool {
    0 <= x < w && 0 <= y < h
}

/// What a step into a cell adds to the path's cost, apart from the cell's
/// own value: the cells by which the diagonal through it falls short of a
/// longest diagonal, counted once when the step enters the grid from the
/// flexible start (`start_cells`) and once when the cell ends the search
/// (`end_cells`). Each such cell is weighted by half the grid's noise level.
#[derive(Clone, Copy, PartialEq, Eq, Debug)]
pub struct Step {
    pub to: Pos,
    pub start_cells: Option<i32>,
    pub end_cells: Option<i32>,
}

/// An optional `i32` read as an optional integer.
pub open spec fn opt_int(o: Option<i32>) -> Option<int> {
    match o {
        Some(v) => Some(v as int),
        None => None,
    }
}

/// The correction that ending the search at a cell carries.
pub open spec fn spec_end_cells(x: int, y: int, w: int, h: int) -> Option<int> {
    if spec_reached(x, y, w, h) {
        Some(diagonal_gap(x, y, w, h))
    } else {
        None
    }
}

/// The step into cell `(x, y)`, entered from the flexible start or not.
pub open spec fn spec_step(x: int, y: int, w: int, h: int, from_start: bool) -> (Pos, Option<int>, Option<int>) {
    (
        Pos { x: x as i32, y: y as i32 },
        if from_start { Some(diagonal_gap(x, y, w, h)) } else { None },
        spec_end_cells(x, y, w, h),
    )
}

/// `s` is the step into cell `(x, y)`.
pub open spec fn step_is(s: Step, x: int, y: int, w: int, h: int, from_start: bool) -> bool {
    let (p, a, b) = spec_step(x, y, w, h, from_start);
    &&& s.to == p
    &&& opt_int(s.start_cells) == a
    &&& opt_int(s.end_cells) == b
}

/// The cells that the flexible start may enter: the first row from left to
/// right, then the first column from its second cell down.
pub open spec fn start_cell(i: int, w: int) -> (int, int) {
    if i < w { (i, 0) } else { (0, i - w + 1) }
}

impl Pos {
    /// Where the search begins: the flexible start, or the top left cell.
    pub fn start(flexible: bool) -> (p: Pos)
        ensures
            p == (if flexible { Pos { x: -1i32, y: -1i32 } } else { Pos { x: 0i32, y: 0i32 } }),
    {
        if flexible {
            Pos { x: -1, y: -1 }
        } else {
            Pos { x: 0, y: 0 }
        }
    }

    pub fn is_flexible_start(&self) -> (b: bool)
        ensures
            b == (self.x == -1),
    {
        self.x == -1
    }

    /// The search is done once it reaches a cell of the last row or column.
    pub fn reached(&self, w: usize, h: usize) -> (b: bool)
        requires
            grid_dims_ok(w, h),
        ensures
            b == spec_reached(self.x as int, self.y as int, w as int, h as int),
    {
        self.x == w as i32 - 1 || self.y == h as i32 - 1
    }

    /// The correction carried by ending the search at this cell.
    pub fn end_cells(&self, w: usize, h: usize) -> (r: Option<i32>)
        requires
            grid_dims_ok(w, h),
            in_grid(self.x as int, self.y as int, w as int, h as int),
        ensures
            opt_int(r) == spec_end_cells(self.x as int, self.y as int, w as int, h as int),
    {
        if self.reached(w, h) {
            Some(cells_to_extend_diagonal(self.x, self.y, w, h))
        } else {
            None
        }
    }

    fn step_into(x: i32, y: i32, w: usize, h: usize, from_start: bool) -> (s: Step)
        requires
            grid_dims_ok(w, h),
            in_grid(x as int, y as int, w as int, h as int),
        ensures
            step_is(s, x as int, y as int, w as int, h as int, from_start),
    {
        let to = Pos { x, y };
        let start_cells = if from_start {
            Some(cells_to_extend_diagonal(x, y, w, h))
        } else {
            None
        };
        Step { to, start_cells, end_cells: to.end_cells(w, h) }
    }

    /// The steps the search may take from this position. From the flexible
    /// start: into every cell of the first row and then of the first column.
    /// From a cell: diagonally, then right, then down.
    pub fn successors(&self, w: usize, h: usize) -> (r: Vec<Step>)
        requires
            grid_dims_ok(w, h),
            self.x == -1 || (in_grid(self.x as int, self.y as int, w as int, h as int)
                && !spec_reached(self.x as int, self.y as int, w as int, h as int)),
        ensures
            self.x == -1 ==> {
                &&& r.len() == w + h - 1
                &&& forall|i: int|
                    0 <= i < r.len() ==> #[trigger] step_is(
                        r[i],
                        start_cell(i, w as int).0,
                        start_cell(i, w as int).1,
                        w as int,
                        h as int,
                        true,
                    )
            },
            self.x != -1 ==> {
                let (x, y) = (self.x as int, self.y as int);
                &&& r.len() == 3
                &&& step_is(r[0], x + 1, y + 1, w as int, h as int, false)
                &&& step_is(r[1], x + 1, y, w as int, h as int, false)
                &&& step_is(r[2], x, y + 1, w as int, h as int, false)
            },
    {
        let mut steps: Vec<Step> = Vec::new();
        if self.is_flexible_start() {
            let wi = w as i32;
            let hi = h as i32;
            let mut i: i32 = 0;
            while i < wi
                invariant
                    grid_dims_ok(w, h),
                    wi == w,
                    hi == h,
                    0 <= i <= wi,
                    steps.len() == i,
                    forall|k: int|
                        0 <= k < steps.len() ==> #[trigger] step_is(
                            steps[k],
                            start_cell(k, w as int).0,
                            start_cell(k, w as int).1,
                            w as int,
                            h as int,
                            true,
                        ),
                decreases wi - i,
            {
                steps.push(Self::step_into(i, 0, w, h, true));
                i = i + 1;
            }
            let mut j: i32 = 1;
            while j < hi
                invariant
                    grid_dims_ok(w, h),
                    wi == w,
                    hi == h,
                    1 <= j <= hi,
                    steps.len() == w + j - 1,
                    forall|k: int|
                        0 <= k < steps.len() ==> #[trigger] step_is(
                            steps[k],
                            start_cell(k, w as int).0,
                            start_cell(k, w as int).1,
                            w as int,
                            h as int,
                            true,
                        ),
                decreases hi - j,
            {
                steps.push(Self::step_into(0, j, w, h, true));
                j = j + 1;
            }
        } else {
            steps.push(Self::step_into(self.x + 1, self.y + 1, w, h, false));
            steps.push(Self::step_into(self.x + 1, self.y, w, h, false));
            steps.push(Self::step_into(self.x, self.y + 1, w, h, false));
        }
        steps
    }
}

/// Turns the path that the search found into cells of the grid, leaving out
/// the flexible start where the search began there.
pub fn path_cells(path: &Vec<Pos>, flexible: bool) -> (r: Vec<(usize, usize)>)
    requires
        flexible ==> path.len() >= 1,
    ensures
        r.len() == path.len() - (if flexible { 1int } else { 0int }),
        forall|i: int|
            0 <= i < r.len() ==> {
                let p = path[i + (if flexible { 1int } else { 0int })];
                #[trigger] r[i] == (p.x as usize, p.y as usize)
            },
{
    let skip: usize = if flexible { 1 } else { 0 };
    let mut cells: Vec<(usize, usize)> = Vec::new();
    let mut i = skip;
    while i < path.len()
        invariant
            skip == (if flexible { 1int } else { 0int }),
            skip <= i <= path.len(),
            cells.len() == i - skip,
            forall|k: int|
                0 <= k < cells.len() ==> {
                    let p = path[k + skip];
                    #[trigger] cells[k] == (p.x as usize, p.y as usize)
                },
        decreases path.len() - i,
    {
        let p = path[i];
        cells.push((p.x as usize, p.y as usize));
        i = i + 1;
    }
    cells
}

} // verus!

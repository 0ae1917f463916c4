use vstd::prelude::*;

use crate::random::random_range;

verus! {

/// A cell coordinate `(x, y)` with `0 <= x < width`, `0 <= y < height`.
pub type Position = (usize, usize);

/// What a call to [`Minesweeper::open`] did.
#[derive(Debug, Clone, Copy, PartialEq, Eq, Structural)]
pub enum OpenResult {
    /// The call changed nothing: the game was over, the coordinate was
    /// out of range or flagged, or a chord was not satisfied.
    NoEffect,
    /// A mine was opened; the game is lost.
    Mine,
    /// A safe cell was opened; the payload is its neighboring mine count.
    NoMine(u8),
    /// An already-open, satisfied cell had its neighborhood opened.
    Chorded,
}

/// The rendered state of one cell, for a display layer to map to glyphs.
#[derive(Debug, Clone, Copy, PartialEq, Eq, Structural)]
pub enum CellState {
    /// Not open, not flagged (a mine is still shown concealed until the
    /// game is lost).
    Concealed,
    /// Flagged by the player and not open.
    Flagged,
    /// A mine that is open, or any mine once the game is lost.
    Mine,
    /// Open and safe; the payload is the neighboring mine count.
    Opened(u8),
}

/// Construction was asked for at least as many mines as there are cells.
#[derive(Debug, Clone, Copy, PartialEq, Eq, Structural)]
pub struct InvalidConfiguration;

/// The minesweeper board: dimensions, mine placement and per-cell
/// open/flag state, stored row-major as `width * height` entries.
#[derive(Debug)]
pub struct Minesweeper {
    width: usize,
    height: usize,
    mines: Vec<bool>,
    open_fields: Vec<bool>,
    flagged_fields: Vec<bool>,
    lost: bool,
}

/// 1 for a true flag, 0 otherwise; used to sum neighborhood counts.
pub open spec fn b2i(b: bool) -> int {
    if b {
        1
    } else {
        0
    }
}

/// How many entries of `s` are true.
pub open spec fn count_true(s: Seq<bool>) -> int
    decreases s.len(),
{
    if s.len() == 0 {
        0
    } else {
        count_true(s.drop_last()) + b2i(s.last())
    }
}

proof fn lemma_count_true_bounds(s: Seq<bool>)
    ensures
        0 <= count_true(s) <= s.len(),
    decreases s.len(),
{
    if s.len() > 0 {
        lemma_count_true_bounds(s.drop_last());
    }
}

proof fn lemma_count_true_update(s: Seq<bool>, i: int)
    requires
        0 <= i < s.len(),
        !s[i],
    ensures
        count_true(s.update(i, true)) == count_true(s) + 1,
    decreases s.len(),
{
    let t = s.update(i, true);
    if i == s.len() - 1 {
        assert(t.drop_last() =~= s.drop_last());
    } else {
        assert(t.drop_last() =~= s.drop_last().update(i, true));
        lemma_count_true_update(s.drop_last(), i);
    }
}

proof fn lemma_count_true_const(s: Seq<bool>)
    requires
        forall|i: int| 0 <= i < s.len() ==> !s[i],
    ensures
        count_true(s) == 0,
    decreases s.len(),
{
    if s.len() > 0 {
        lemma_count_true_const(s.drop_last());
    }
}

/// A neighbor of a cell with no neighboring mines is never a mine.
proof fn lemma_zero_neighborhood_safe(b: Minesweeper, dx: int, dy: int, cx: int, cy: int)
    requires
        b.mines_around(dx, dy) == 0,
        b.is_neighbor(dx, dy, cx, cy),
    ensures
        !b.is_mine(cx, cy),
{
}

/// Every cell opened since `pre`, as well as the seed cell, that is safe
/// with no neighboring mines has its neighborhood open, flagged, or still
/// waiting on the work stack.
spec fn flood_pending(
    pre: Minesweeper,
    cur: Minesweeper,
    sx: int,
    sy: int,
    stack: Seq<Position>,
) -> bool {
    forall|cx: int, cy: int|
        (((cur.is_open(cx, cy) && !pre.is_open(cx, cy)) || (cx == sx && cy == sy)) && !cur.is_mine(
            cx,
            cy,
        ) && cur.mines_around(cx, cy) == 0) ==> (forall|nx: int, ny: int|
            cur.is_neighbor(cx, cy, nx, ny) ==> cur.is_open(nx, ny) || cur.is_flagged(nx, ny)
                || stack.contains(((nx as usize), (ny as usize))))
}

/// Every cell on the work stack is on the board and is adjacent to some
/// open, safe, zero-count cell.
spec fn flood_stack_ok(cur: Minesweeper, stack: Seq<Position>) -> bool {
    forall|k: int|
        0 <= k < stack.len() ==> cur.in_bounds((#[trigger] stack[k]).0 as int, stack[k].1 as int)
            && cur.reached_by_flood(stack[k].0 as int, stack[k].1 as int)
}

/// Every cell opened since `pre` was reached through flood reveal.
spec fn flood_sound(pre: Minesweeper, cur: Minesweeper) -> bool {
    forall|cx: int, cy: int|
        cur.is_open(cx, cy) && !pre.is_open(cx, cy) ==> cur.reached_by_flood(cx, cy)
}

/// Flood reachability survives opening more cells.
proof fn lemma_reached_monotone(a: Minesweeper, b: Minesweeper, cx: int, cy: int)
    requires
        a.reached_by_flood(cx, cy),
        a.same_field(b),
        forall|px: int, py: int| a.is_open(px, py) ==> b.is_open(px, py),
    ensures
        b.reached_by_flood(cx, cy),
{
    let (dx, dy) = choose|dx: int, dy: int|
        a.is_open(dx, dy) && !a.is_mine(dx, dy) && a.mines_around(dx, dy) == 0 && a.is_neighbor(
            dx,
            dy,
            cx,
            cy,
        );
    assert(b.is_open(dx, dy) && !b.is_mine(dx, dy) && b.mines_around(dx, dy) == 0 && b.is_neighbor(
        dx,
        dy,
        cx,
        cy,
    ));
}

/// A row-major index stays inside the grid.
proof fn lemma_idx_bounds(w: int, h: int, x: int, y: int)
    requires
        0 <= x < w,
        0 <= y < h,
    ensures
        0 <= y * w + x < w * h,
{
    assert(y * w + x < w * h) by (nonlinear_arith)
        requires
            0 <= x < w,
            0 <= y < h,
    ;
}

/// Distinct in-range coordinates have distinct row-major indices.
proof fn lemma_idx_injective(w: int, x1: int, y1: int, x2: int, y2: int)
    requires
        0 <= x1 < w,
        0 <= x2 < w,
        y1 * w + x1 == y2 * w + x2,
    ensures
        x1 == x2 && y1 == y2,
{
    assert(x1 == x2 && y1 == y2) by (nonlinear_arith)
        requires
            0 <= x1 < w,
            0 <= x2 < w,
            y1 * w + x1 == y2 * w + x2,
    ;
}

impl Minesweeper {
    /// The board width, as a mathematical integer.
    pub closed spec fn spec_width(self) -> int {
        self.width as int
    }

    /// The board height, as a mathematical integer.
    pub closed spec fn spec_height(self) -> int {
        self.height as int
    }

    /// Number of cells on the board.
    pub open spec fn area(self) -> int {
        self.spec_width() * self.spec_height()
    }

    /// Whether `(x, y)` lies on the board.
    pub open spec fn in_bounds(self, x: int, y: int) -> bool {
        0 <= x < self.spec_width() && 0 <= y < self.spec_height()
    }

    /// Row-major index of `(x, y)`.
    pub closed spec fn idx(self, x: int, y: int) -> int {
        y * self.spec_width() + x
    }

    /// Whether `(x, y)` holds a mine. False off the board.
    pub closed spec fn is_mine(self, x: int, y: int) -> bool {
        self.in_bounds(x, y) && self.mines@[self.idx(x, y)]
    }

    /// Whether `(x, y)` has been revealed. False off the board.
    pub closed spec fn is_open(self, x: int, y: int) -> bool {
        self.in_bounds(x, y) && self.open_fields@[self.idx(x, y)]
    }

    /// Whether `(x, y)` carries a flag. False off the board.
    pub closed spec fn is_flagged(self, x: int, y: int) -> bool {
        self.in_bounds(x, y) && self.flagged_fields@[self.idx(x, y)]
    }

    /// Whether the game has been lost.
    pub closed spec fn spec_lost(self) -> bool {
        self.lost
    }

    /// The mine layout as a sequence, to state that it never changes.
    pub closed spec fn mines_seq(self) -> Seq<bool> {
        self.mines@
    }

    /// `(nx, ny)` is one of the up-to-8 on-board cells adjacent to `(x, y)`.
    pub open spec fn is_neighbor(self, x: int, y: int, nx: int, ny: int) -> bool {
        &&& self.in_bounds(nx, ny)
        &&& (nx != x || ny != y)
        &&& -1 <= nx - x <= 1
        &&& -1 <= ny - y <= 1
    }

    /// Number of neighboring cells of `(x, y)` that hold a mine.
    pub open spec fn mines_around(self, x: int, y: int) -> int {
        b2i(self.is_mine(x - 1, y - 1)) + b2i(self.is_mine(x, y - 1)) + b2i(
            self.is_mine(x + 1, y - 1),
        ) + b2i(self.is_mine(x - 1, y)) + b2i(self.is_mine(x + 1, y)) + b2i(
            self.is_mine(x - 1, y + 1),
        ) + b2i(self.is_mine(x, y + 1)) + b2i(self.is_mine(x + 1, y + 1))
    }

    /// Number of neighboring cells of `(x, y)` that carry a flag.
    pub open spec fn flags_around(self, x: int, y: int) -> int {
        b2i(self.is_flagged(x - 1, y - 1)) + b2i(self.is_flagged(x, y - 1)) + b2i(
            self.is_flagged(x + 1, y - 1),
        ) + b2i(self.is_flagged(x - 1, y)) + b2i(self.is_flagged(x + 1, y)) + b2i(
            self.is_flagged(x - 1, y + 1),
        ) + b2i(self.is_flagged(x, y + 1)) + b2i(self.is_flagged(x + 1, y + 1))
    }

    /// Number of neighbors `(x, y)` has on the board.
    pub open spec fn nbr_count(self, x: int, y: int) -> int {
        b2i(self.in_bounds(x - 1, y - 1)) + b2i(self.in_bounds(x, y - 1)) + b2i(
            self.in_bounds(x + 1, y - 1),
        ) + b2i(self.in_bounds(x - 1, y)) + b2i(self.in_bounds(x + 1, y)) + b2i(
            self.in_bounds(x - 1, y + 1),
        ) + b2i(self.in_bounds(x, y + 1)) + b2i(self.in_bounds(x + 1, y + 1))
    }

    /// `x` is on the left or right rim of the board.
    pub open spec fn on_x_rim(self, x: int) -> bool {
        x == 0 || x == self.spec_width() - 1
    }

    /// `y` is on the top or bottom rim of the board.
    pub open spec fn on_y_rim(self, y: int) -> bool {
        y == 0 || y == self.spec_height() - 1
    }

    /// `(x, y)` is one of the four corners.
    pub open spec fn is_corner(self, x: int, y: int) -> bool {
        self.on_x_rim(x) && self.on_y_rim(y)
    }

    /// `(x, y)` is on the border but not a corner.
    pub open spec fn is_edge(self, x: int, y: int) -> bool {
        (self.on_x_rim(x) || self.on_y_rim(y)) && !self.is_corner(x, y)
    }

    /// The board's internal invariant: positive dimensions, the three
    /// per-cell layers sized to the grid, no cell both open and flagged,
    /// and `lost` exactly when some open cell is a mine.
    pub closed spec fn well_formed(self) -> bool {
        &&& 0 < self.width
        &&& 0 < self.height
        &&& self.width * self.height <= usize::MAX
        &&& self.mines@.len() == self.area()
        &&& self.open_fields@.len() == self.area()
        &&& self.flagged_fields@.len() == self.area()
        &&& (forall|i: int|
            0 <= i < self.area() ==> !(self.open_fields@[i] && self.flagged_fields@[i]))
        &&& (self.lost <==> exists|i: int|
            0 <= i < self.area() && self.open_fields@[i] && self.mines@[i])
    }

    /// Every safe cell has been opened: the winning condition.
    pub open spec fn all_safe_open(self) -> bool {
        forall|x: int, y: int|
            self.in_bounds(x, y) && !self.is_mine(x, y) ==> self.is_open(x, y)
    }

    /// Every open zero-count safe cell has its whole neighborhood open or
    /// flagged: the state flood reveal leaves behind.
    pub open spec fn zero_cells_closed(self) -> bool {
        forall|x: int, y: int|
            self.is_open(x, y) && !self.is_mine(x, y) && self.mines_around(x, y) == 0
                ==> self.neighborhood_revealed(x, y)
    }

    /// Every neighbor of `(x, y)` is open or flagged.
    pub open spec fn neighborhood_revealed(self, x: int, y: int) -> bool {
        forall|nx: int, ny: int|
            self.is_neighbor(x, y, nx, ny) ==> self.is_open(nx, ny) || self.is_flagged(nx, ny)
    }

    /// Some open, safe, zero-count cell has `(cx, cy)` in its
    /// neighborhood: the only way flood reveal ever reaches a cell.
    pub open spec fn reached_by_flood(self, cx: int, cy: int) -> bool {
        exists|dx: int, dy: int|
            self.is_open(dx, dy) && !self.is_mine(dx, dy) && self.mines_around(dx, dy) == 0
                && self.is_neighbor(dx, dy, cx, cy)
    }

    /// The two boards agree on dimensions and mine placement.
    pub open spec fn same_field(self, other: Minesweeper) -> bool {
        &&& other.spec_width() == self.spec_width()
        &&& other.spec_height() == self.spec_height()
        &&& other.mines_seq() == self.mines_seq()
    }

    /// The two boards are observably identical.
    pub open spec fn same_state(self, other: Minesweeper) -> bool {
        &&& self.same_field(other)
        &&& (forall|x: int, y: int| other.is_open(x, y) == self.is_open(x, y))
        &&& (forall|x: int, y: int| other.is_flagged(x, y) == self.is_flagged(x, y))
        &&& other.spec_lost() == self.spec_lost()
    }

    /// Build a board of `width * height` cells whose mines are `n` marked
    /// cells taken from the front of `cells`.
    fn mark_mines(width: usize, height: usize, cells: &Vec<Position>, n: usize) -> (mines: Vec<
        bool,
    >)
        requires
            0 < width,
            0 < height,
            width * height <= usize::MAX,
            n <= cells@.len(),
            forall|k: int|
                0 <= k < cells@.len() ==> (#[trigger] cells@[k]).0 < width && cells@[k].1 < height,
            forall|k1: int, k2: int|
                0 <= k1 < k2 < n ==> cells@[k1] != cells@[k2],
        ensures
            mines@.len() == width * height,
            count_true(mines@) == n,
            forall|i: int|
                0 <= i < width * height ==> ((#[trigger] mines@[i]) <==> exists|k: int|
                    0 <= k < n && i == (#[trigger] cells@[k]).1 * width + cells@[k].0),
    {
        let total = width * height;
        let mut mines: Vec<bool> = vec![false; total];
        proof {
            lemma_count_true_const(mines@);
        }
        let mut t: usize = 0;
        while t < n
            invariant
                t <= n,
                n <= cells@.len(),
                0 < width,
                0 < height,
                width * height <= usize::MAX,
                total == width * height,
                mines@.len() == total,
                count_true(mines@) == t,
                forall|k: int|
                    0 <= k < cells@.len() ==> (#[trigger] cells@[k]).0 < width && cells@[k].1
                        < height,
                forall|k1: int, k2: int| 0 <= k1 < k2 < n ==> cells@[k1] != cells@[k2],
                forall|i: int|
                    0 <= i < total ==> ((#[trigger] mines@[i]) <==> exists|k: int|
                        0 <= k < t && i == (#[trigger] cells@[k]).1 * width + cells@[k].0),
            decreases n - t,
        {
            let (cx, cy) = cells[t];
            proof {
                lemma_idx_bounds(width as int, height as int, cx as int, cy as int);
            }
            let i = cy * width + cx;
            proof {
                if mines@[i as int] {
                    let k = choose|k: int|
                        0 <= k < t && i == (#[trigger] cells@[k]).1 * width + cells@[k].0;
                    lemma_idx_injective(
                        width as int,
                        cells@[k].0 as int,
                        cells@[k].1 as int,
                        cx as int,
                        cy as int,
                    );
                }
                lemma_count_true_update(mines@, i as int);
            }
            mines[i] = true;
            t += 1;
        }
        mines
    }

    /// Create a board with `mine_count` mines placed uniformly at random.
    /// Fails with [`InvalidConfiguration`] unless `mine_count` is smaller
    /// than the number of cells, which also forces both dimensions to be
    /// positive.
    pub fn new(width: usize, height: usize, mine_count: usize) -> (r: Result<
        Minesweeper,
        InvalidConfiguration,
    >)
        requires
            width * height <= usize::MAX,
        ensures
            (r is Ok) <==> mine_count < width * height,
            (r matches Ok(b) ==> {
                &&& b.well_formed()
                &&& b.spec_width() == width
                &&& b.spec_height() == height
                &&& count_true(b.mines_seq()) == mine_count
                &&& !b.spec_lost()
                &&& forall|x: int, y: int| !b.is_open(x, y)
                &&& forall|x: int, y: int| !b.is_flagged(x, y)
            }),
    {
        if mine_count >= width * height {
            return Err(InvalidConfiguration);
        }
        proof {
            assert(0 < width && 0 < height) by (nonlinear_arith)
                requires
                    mine_count < width * height,
                    0 <= mine_count,
            ;
        }
        let total = width * height;
        // Lay out every cell once, row-major.
        let mut cells: Vec<Position> = Vec::new();
        let mut y: usize = 0;
        while y < height
            invariant
                y <= height,
                0 < width,
                width * height <= usize::MAX,
                cells@.len() == y * width,
                forall|k: int|
                    0 <= k < cells@.len() ==> (#[trigger] cells@[k]).0 < width && cells@[k].1 < y,
                forall|k1: int, k2: int|
                    0 <= k1 < k2 < cells@.len() ==> cells@[k1] != cells@[k2],
            decreases height - y,
        {
            let mut x: usize = 0;
            while x < width
                invariant
                    y < height,
                    x <= width,
                    0 < width,
                    width * height <= usize::MAX,
                    cells@.len() == y * width + x,
                    forall|k: int|
                        0 <= k < cells@.len() ==> (#[trigger] cells@[k]).0 < width && (cells@[k].1
                            < y || (cells@[k].1 == y && cells@[k].0 < x)),
                    forall|k1: int, k2: int|
                        0 <= k1 < k2 < cells@.len() ==> cells@[k1] != cells@[k2],
                decreases width - x,
            {
                proof {
                    lemma_idx_bounds(width as int, height as int, x as int, y as int);
                }
                cells.push((x, y));
                x += 1;
            }
            proof {
                assert((y + 1) * width == y * width + width) by (nonlinear_arith);
            }
            y += 1;
        }
        proof {
            assert(height * width == width * height) by (nonlinear_arith);
        }
        // A partial shuffle: after step t, the prefix of length t + 1 is a
        // uniformly random sample of distinct cells.
        let mut t: usize = 0;
        while t < mine_count
            invariant
                t <= mine_count,
                mine_count < width * height,
                width * height <= usize::MAX,
                total == width * height,
                cells@.len() == total,
                forall|k: int|
                    0 <= k < cells@.len() ==> (#[trigger] cells@[k]).0 < width && cells@[k].1
                        < height,
                forall|k1: int, k2: int|
                    0 <= k1 < k2 < cells@.len() ==> cells@[k1] != cells@[k2],
            decreases mine_count - t,
        {
            let j = random_range(t, total);
            let a = cells[t];
            let b = cells[j];
            cells[t] = b;
            cells[j] = a;
            t += 1;
        }
        let mines = Self::mark_mines(width, height, &cells, mine_count);
        let open_fields: Vec<bool> = vec![false; total];
        let flagged_fields: Vec<bool> = vec![false; total];
        let ms = Minesweeper { width, height, mines, open_fields, flagged_fields, lost: false };
        proof {
            assert forall|x: int, y: int| !ms.is_open(x, y) && !ms.is_flagged(x, y) by {
                if ms.in_bounds(x, y) {
                    lemma_idx_bounds(width as int, height as int, x, y);
                }
            }
        }
        Ok(ms)
    }

    /// Create a board with the given mine cells, for reproducible games.
    /// Fails with [`InvalidConfiguration`] unless the listed cells are on
    /// the board, pairwise distinct, and leave at least one safe cell.
    pub fn from_mines(width: usize, height: usize, mine_list: Vec<Position>) -> (r: Result<
        Minesweeper,
        InvalidConfiguration,
    >)
        requires
            width * height <= usize::MAX,
        ensures
            (r is Ok) <==> {
                &&& mine_list@.len() < width * height
                &&& forall|k: int|
                    0 <= k < mine_list@.len() ==> (#[trigger] mine_list@[k]).0 < width
                        && mine_list@[k].1 < height
                &&& forall|k1: int, k2: int|
                    0 <= k1 < k2 < mine_list@.len() ==> mine_list@[k1] != mine_list@[k2]
            },
            (r matches Ok(b) ==> {
                &&& b.well_formed()
                &&& b.spec_width() == width
                &&& b.spec_height() == height
                &&& count_true(b.mines_seq()) == mine_list@.len()
                &&& !b.spec_lost()
                &&& (forall|x: int, y: int| !b.is_open(x, y))
                &&& (forall|x: int, y: int| !b.is_flagged(x, y))
                &&& (forall|x: int, y: int|
                    b.is_mine(x, y) <==> mine_list@.contains(((x as usize), (y as usize)))
                        && b.in_bounds(x, y))
            }),
    {
        if mine_list.len() >= width * height {
            return Err(InvalidConfiguration);
        }
        let total = width * height;
        let n = mine_list.len();
        // Validate bounds.
        let mut k: usize = 0;
        while k < n
            invariant
                k <= n,
                n == mine_list@.len(),
                forall|k2: int|
                    0 <= k2 < k ==> (#[trigger] mine_list@[k2]).0 < width && mine_list@[k2].1
                        < height,
            decreases n - k,
        {
            let (cx, cy) = mine_list[k];
            if cx >= width || cy >= height {
                return Err(InvalidConfiguration);
            }
            k += 1;
        }
        // Validate distinctness.
        let mut k1: usize = 0;
        while k1 < n
            invariant
                k1 <= n,
                n == mine_list@.len(),
                forall|a: int, b: int| 0 <= a < b < n && a < k1 ==> mine_list@[a] != mine_list@[b],
            decreases n - k1,
        {
            let mut k2: usize = k1 + 1;
            while k2 < n
                invariant
                    k1 < k2 <= n,
                    k1 < n,
                    n == mine_list@.len(),
                    forall|a: int, b: int|
                        0 <= a < b < n && a < k1 ==> mine_list@[a] != mine_list@[b],
                    forall|b: int| k1 < b < k2 ==> mine_list@[k1 as int] != mine_list@[b],
                decreases n - k2,
            {
                let pa = mine_list[k1];
                let pb = mine_list[k2];
                if pa.0 == pb.0 && pa.1 == pb.1 {
                    return Err(InvalidConfiguration);
                }
                k2 += 1;
            }
            k1 += 1;
        }
        let mines = Self::mark_mines(width, height, &mine_list, n);
        let open_fields: Vec<bool> = vec![false; total];
        let flagged_fields: Vec<bool> = vec![false; total];
        let ms = Minesweeper { width, height, mines, open_fields, flagged_fields, lost: false };
        proof {
            assert forall|x: int, y: int| !ms.is_open(x, y) && !ms.is_flagged(x, y) by {
                if ms.in_bounds(x, y) {
                    lemma_idx_bounds(width as int, height as int, x, y);
                }
            }
            assert forall|x: int, y: int|
                ms.is_mine(x, y) <==> mine_list@.contains(((x as usize), (y as usize)))
                    && ms.in_bounds(x, y) by {
                if ms.in_bounds(x, y) {
                    lemma_idx_bounds(width as int, height as int, x, y);
                    if ms.is_mine(x, y) {
                        let k = choose|k: int|
                            0 <= k < n && ms.idx(x, y) == (#[trigger] mine_list@[k]).1 * width
                                + mine_list@[k].0;
                        lemma_idx_injective(
                            width as int,
                            mine_list@[k].0 as int,
                            mine_list@[k].1 as int,
                            x,
                            y,
                        );
                        assert(mine_list@[k] == ((x as usize), (y as usize)));
                    }
                    if mine_list@.contains(((x as usize), (y as usize))) {
                        let k = choose|k: int|
                            0 <= k < n && mine_list@[k] == ((x as usize), (y as usize));
                        assert(ms.mines@[ms.idx(x, y)]);
                    }
                }
            }
        }
        Ok(ms)
    }

    /// The board width.
    pub fn width(&self) -> (r: usize)
        ensures
            r == self.spec_width(),
    {
        self.width
    }

    /// The board height.
    pub fn height(&self) -> (r: usize)
        ensures
            r == self.spec_height(),
    {
        self.height
    }

    /// Whether the game has been lost.
    pub fn is_lost(&self) -> (r: bool)
        ensures
            r == self.spec_lost(),
    {
        self.lost
    }

    fn cell_index(&self, x: usize, y: usize) -> (i: usize)
        requires
            self.well_formed(),
            self.in_bounds(x as int, y as int),
        ensures
            i == self.idx(x as int, y as int),
            i < self.area(),
    {
        proof {
            lemma_idx_bounds(self.spec_width(), self.spec_height(), x as int, y as int);
        }
        y * self.width + x
    }

    fn mine_at(&self, x: usize, y: usize) -> (r: bool)
        requires
            self.well_formed(),
            self.in_bounds(x as int, y as int),
        ensures
            r == self.is_mine(x as int, y as int),
    {
        let i = self.cell_index(x, y);
        self.mines[i]
    }

    fn open_at(&self, x: usize, y: usize) -> (r: bool)
        requires
            self.well_formed(),
            self.in_bounds(x as int, y as int),
        ensures
            r == self.is_open(x as int, y as int),
    {
        let i = self.cell_index(x, y);
        self.open_fields[i]
    }

    fn flag_at(&self, x: usize, y: usize) -> (r: bool)
        requires
            self.well_formed(),
            self.in_bounds(x as int, y as int),
        ensures
            r == self.is_flagged(x as int, y as int),
    {
        let i = self.cell_index(x, y);
        self.flagged_fields[i]
    }

    /// The on-board neighbors of `pos`: the 3x3 block around it, minus
    /// `pos` itself, clipped at the edges (never wrapped).
    pub fn iter_neighbors(&self, pos: Position) -> (r: Vec<Position>)
        requires
            self.well_formed(),
            self.in_bounds(pos.0 as int, pos.1 as int),
        ensures
            forall|k: int|
                0 <= k < r@.len() ==> self.is_neighbor(
                    pos.0 as int,
                    pos.1 as int,
                    (#[trigger] r@[k]).0 as int,
                    r@[k].1 as int,
                ),
            forall|nx: int, ny: int|
                self.is_neighbor(pos.0 as int, pos.1 as int, nx, ny) ==> r@.contains(
                    ((nx as usize), (ny as usize)),
                ),
            r@.len() == self.nbr_count(pos.0 as int, pos.1 as int),
    {
        let (x, y) = pos;
        let w = self.width;
        let h = self.height;
        let mut r: Vec<Position> = Vec::new();
        if x > 0 && y > 0 {
            r.push((x - 1, y - 1));
        }
        if y > 0 {
            r.push((x, y - 1));
        }
        if x + 1 < w && y > 0 {
            r.push((x + 1, y - 1));
        }
        if x > 0 {
            r.push((x - 1, y));
        }
        if x + 1 < w {
            r.push((x + 1, y));
        }
        if x > 0 && y + 1 < h {
            r.push((x - 1, y + 1));
        }
        if y + 1 < h {
            r.push((x, y + 1));
        }
        if x + 1 < w && y + 1 < h {
            r.push((x + 1, y + 1));
        }
        proof {
            let xi = x as int;
            let yi = y as int;
            let s = r@;
            let g1 = self.in_bounds(xi - 1, yi - 1);
            let g2 = self.in_bounds(xi, yi - 1);
            let g3 = self.in_bounds(xi + 1, yi - 1);
            let g4 = self.in_bounds(xi - 1, yi);
            let g5 = self.in_bounds(xi + 1, yi);
            let g6 = self.in_bounds(xi - 1, yi + 1);
            let g7 = self.in_bounds(xi, yi + 1);
            let g8 = self.in_bounds(xi + 1, yi + 1);
            assert(g1 ==> s[0] == (((xi - 1) as usize), ((yi - 1) as usize)));
            assert(g2 ==> s[b2i(g1)] == ((xi as usize), ((yi - 1) as usize)));
            assert(g3 ==> s[b2i(g1) + b2i(g2)] == (((xi + 1) as usize), ((yi - 1) as usize)));
            assert(g4 ==> s[b2i(g1) + b2i(g2) + b2i(g3)] == (((xi - 1) as usize), (yi as usize)));
            assert(g5 ==> s[b2i(g1) + b2i(g2) + b2i(g3) + b2i(g4)] == (((xi + 1) as usize), (
            yi as usize)));
            assert(g6 ==> s[b2i(g1) + b2i(g2) + b2i(g3) + b2i(g4) + b2i(g5)] == (((xi
                - 1) as usize), ((yi + 1) as usize)));
            assert(g7 ==> s[b2i(g1) + b2i(g2) + b2i(g3) + b2i(g4) + b2i(g5) + b2i(g6)] == ((
            xi as usize), ((yi + 1) as usize)));
            assert(g8 ==> s[b2i(g1) + b2i(g2) + b2i(g3) + b2i(g4) + b2i(g5) + b2i(g6) + b2i(g7)]
                == (((xi + 1) as usize), ((yi + 1) as usize)));
        }
        r
    }

    /// Count of neighboring mines, between 0 and 8.
    #[verifier::rlimit(60)]
    pub fn neighboring_mines(&self, pos: Position) -> (r: u8)
        requires
            self.well_formed(),
            self.in_bounds(pos.0 as int, pos.1 as int),
        ensures
            r as int == self.mines_around(pos.0 as int, pos.1 as int),
            r <= 8,
    {
        let (x, y) = pos;
        let w = self.width;
        let h = self.height;
        let mut c: u8 = 0;
        if x > 0 && y > 0 && self.mine_at(x - 1, y - 1) {
            c += 1;
        }
        if y > 0 && self.mine_at(x, y - 1) {
            c += 1;
        }
        if x + 1 < w && y > 0 && self.mine_at(x + 1, y - 1) {
            c += 1;
        }
        if x > 0 && self.mine_at(x - 1, y) {
            c += 1;
        }
        if x + 1 < w && self.mine_at(x + 1, y) {
            c += 1;
        }
        if x > 0 && y + 1 < h && self.mine_at(x - 1, y + 1) {
            c += 1;
        }
        if y + 1 < h && self.mine_at(x, y + 1) {
            c += 1;
        }
        if x + 1 < w && y + 1 < h && self.mine_at(x + 1, y + 1) {
            c += 1;
        }
        c
    }

    /// Count of neighboring flags, between 0 and 8.
    #[verifier::rlimit(60)]
    fn neighboring_flags(&self, pos: Position) -> (r: u8)
        requires
            self.well_formed(),
            self.in_bounds(pos.0 as int, pos.1 as int),
        ensures
            r as int == self.flags_around(pos.0 as int, pos.1 as int),
            r <= 8,
    {
        let (x, y) = pos;
        let w = self.width;
        let h = self.height;
        let mut c: u8 = 0;
        if x > 0 && y > 0 && self.flag_at(x - 1, y - 1) {
            c += 1;
        }
        if y > 0 && self.flag_at(x, y - 1) {
            c += 1;
        }
        if x + 1 < w && y > 0 && self.flag_at(x + 1, y - 1) {
            c += 1;
        }
        if x > 0 && self.flag_at(x - 1, y) {
            c += 1;
        }
        if x + 1 < w && self.flag_at(x + 1, y) {
            c += 1;
        }
        if x > 0 && y + 1 < h && self.flag_at(x - 1, y + 1) {
            c += 1;
        }
        if y + 1 < h && self.flag_at(x, y + 1) {
            c += 1;
        }
        if x + 1 < w && y + 1 < h && self.flag_at(x + 1, y + 1) {
            c += 1;
        }
        c
    }

    /// What a renderer should show for `pos`.
    pub fn cell_state(&self, pos: Position) -> (r: CellState)
        requires
            self.well_formed(),
            self.in_bounds(pos.0 as int, pos.1 as int),
        ensures
            ({
                let x = pos.0 as int;
                let y = pos.1 as int;
                if !self.is_open(x, y) {
                    if self.spec_lost() && self.is_mine(x, y) {
                        r == CellState::Mine
                    } else if self.is_flagged(x, y) {
                        r == CellState::Flagged
                    } else {
                        r == CellState::Concealed
                    }
                } else if self.is_mine(x, y) {
                    r == CellState::Mine
                } else {
                    r == CellState::Opened(self.mines_around(x, y) as u8)
                }
            }),
    {
        let (x, y) = pos;
        if !self.open_at(x, y) {
            if self.lost && self.mine_at(x, y) {
                CellState::Mine
            } else if self.flag_at(x, y) {
                CellState::Flagged
            } else {
                CellState::Concealed
            }
        } else if self.mine_at(x, y) {
            CellState::Mine
        } else {
            CellState::Opened(self.neighboring_mines(pos))
        }
    }

    /// Whether every safe cell is open: the winning condition.
    pub fn is_won(&self) -> (r: bool)
        requires
            self.well_formed(),
        ensures
            r == self.all_safe_open(),
    {
        let mut y: usize = 0;
        while y < self.height
            invariant
                self.well_formed(),
                y <= self.height,
                forall|cx: int, cy: int|
                    0 <= cy < y && self.in_bounds(cx, cy) && !self.is_mine(cx, cy)
                        ==> self.is_open(cx, cy),
            decreases self.height - y,
        {
            let mut x: usize = 0;
            while x < self.width
                invariant
                    self.well_formed(),
                    y < self.height,
                    x <= self.width,
                    forall|cx: int, cy: int|
                        0 <= cy < y && self.in_bounds(cx, cy) && !self.is_mine(cx, cy)
                            ==> self.is_open(cx, cy),
                    forall|cx: int|
                        0 <= cx < x && !self.is_mine(cx, y as int) ==> self.is_open(cx, y as int),
                decreases self.width - x,
            {
                if !self.mine_at(x, y) && !self.open_at(x, y) {
                    return false;
                }
                x += 1;
            }
            y += 1;
        }
        true
    }

    /// Open the unopened, unflagged cell `(x, y)`: mark it, lose on a
    /// mine, and flood its neighborhood when no mine is adjacent.
    fn open_fresh(&mut self, x: usize, y: usize) -> (r: OpenResult)
        requires
            old(self).well_formed(),
            old(self).in_bounds(x as int, y as int),
            !old(self).is_open(x as int, y as int),
            !old(self).is_flagged(x as int, y as int),
            !old(self).spec_lost(),
        ensures
            final(self).well_formed(),
            old(self).same_field(*final(self)),
            forall|cx: int, cy: int| final(self).is_flagged(cx, cy) == old(self).is_flagged(cx, cy),
            forall|cx: int, cy: int| old(self).is_open(cx, cy) ==> final(self).is_open(cx, cy),
            final(self).is_open(x as int, y as int),
            (r is Mine) == old(self).is_mine(x as int, y as int),
            r is Mine ==> final(self).spec_lost() && (forall|cx: int, cy: int|
                final(self).is_open(cx, cy) == (old(self).is_open(cx, cy) || (cx == x as int && cy
                    == y as int))),
            !(r is Mine) ==> r == OpenResult::NoMine(
                old(self).mines_around(x as int, y as int) as u8,
            ) && !final(self).spec_lost(),
            (!(r is Mine) && old(self).mines_around(x as int, y as int) > 0) ==> (forall|
                cx: int,
                cy: int,
            |
                final(self).is_open(cx, cy) == (old(self).is_open(cx, cy) || (cx == x as int && cy
                    == y as int))),
            forall|cx: int, cy: int|
                final(self).is_open(cx, cy) && !old(self).is_open(cx, cy) ==> ((cx == x as int && cy
                    == y as int) || final(self).reached_by_flood(cx, cy)),
            forall|cx: int, cy: int|
                (final(self).is_open(cx, cy) && !old(self).is_open(cx, cy) && !final(self).is_mine(
                    cx,
                    cy,
                ) && final(self).mines_around(cx, cy) == 0) ==> final(self).neighborhood_revealed(
                    cx,
                    cy,
                ),
    {
        let hit_mine = self.mine_at(x, y);
        let i = self.cell_index(x, y);
        let ghost pre = *self;
        self.open_fields[i] = true;
        proof {
            assert forall|cx: int, cy: int|
                self.is_open(cx, cy) != pre.is_open(cx, cy) implies (cx == x as int && cy
                == y as int) by {
                if self.in_bounds(cx, cy) {
                    lemma_idx_bounds(self.spec_width(), self.spec_height(), cx, cy);
                    if self.idx(cx, cy) == i {
                        lemma_idx_injective(self.spec_width(), cx, cy, x as int, y as int);
                    }
                }
            }
            assert(self.is_open(x as int, y as int));
        }
        if hit_mine {
            self.lost = true;
            proof {
                assert(self.open_fields@[i as int] && self.mines@[i as int]);
            }
            OpenResult::Mine
        } else {
            proof {
                assert(!(exists|j: int|
                    0 <= j < self.area() && self.open_fields@[j] && self.mines@[j])) by {
                    if exists|j: int|
                        0 <= j < self.area() && self.open_fields@[j] && self.mines@[j] {
                        let j = choose|j: int|
                            0 <= j < self.area() && self.open_fields@[j] && self.mines@[j];
                        assert(pre.open_fields@[j] && pre.mines@[j]);
                    }
                }
            }
            let n = self.neighboring_mines((x, y));
            if n == 0 {
                self.flood(x, y);
            }
            OpenResult::NoMine(n)
        }
    }

    /// Open every still-concealed, unflagged cell reachable from the
    /// zero-count seed `(x, y)` through zero-count cells, by worklist.
    #[verifier::rlimit(60)]
    fn flood(&mut self, x: usize, y: usize)
        requires
            old(self).well_formed(),
            old(self).in_bounds(x as int, y as int),
            old(self).is_open(x as int, y as int),
            !old(self).is_mine(x as int, y as int),
            old(self).mines_around(x as int, y as int) == 0,
            !old(self).spec_lost(),
        ensures
            final(self).well_formed(),
            old(self).same_field(*final(self)),
            forall|cx: int, cy: int| final(self).is_flagged(cx, cy) == old(self).is_flagged(cx, cy),
            forall|cx: int, cy: int| old(self).is_open(cx, cy) ==> final(self).is_open(cx, cy),
            !final(self).spec_lost(),
            flood_sound(*old(self), *final(self)),
            forall|cx: int, cy: int|
                (((final(self).is_open(cx, cy) && !old(self).is_open(cx, cy)) || (cx == x as int
                    && cy == y as int)) && !final(self).is_mine(cx, cy) && final(self).mines_around(
                    cx,
                    cy,
                ) == 0) ==> final(self).neighborhood_revealed(cx, cy),
    {
        let mut stack = self.iter_neighbors((x, y));
        while stack.len() > 0
            invariant
                self.well_formed(),
                old(self).same_field(*self),
                old(self).in_bounds(x as int, y as int),
                self.is_open(x as int, y as int),
                !self.is_mine(x as int, y as int),
                self.mines_around(x as int, y as int) == 0,
                forall|cx: int, cy: int| self.is_flagged(cx, cy) == old(self).is_flagged(cx, cy),
                forall|cx: int, cy: int| old(self).is_open(cx, cy) ==> self.is_open(cx, cy),
                !self.spec_lost(),
                flood_stack_ok(*self, stack@),
                flood_pending(*old(self), *self, x as int, y as int, stack@),
                flood_sound(*old(self), *self),
            decreases self.area() - count_true(self.open_fields@), stack@.len(),
        {
            let ghost s0 = *self;
            let ghost stack_pre = stack@;
            let p = stack.pop().unwrap();
            let (cx, cy) = p;
            let ghost stack_mid = stack@;
            proof {
                assert(stack_pre =~= stack_mid.push(p));
                assert forall|v: Position| stack_pre.contains(v) implies stack_mid.contains(v) || v
                    == p by {
                    let k = choose|k: int| 0 <= k < stack_pre.len() && stack_pre[k] == v;
                    if k < stack_mid.len() {
                        assert(stack_mid[k] == v);
                    }
                }
                assert(s0.reached_by_flood(cx as int, cy as int)) by {
                    assert(stack_pre[stack_pre.len() - 1] == p);
                }
                lemma_count_true_bounds(self.open_fields@);
            }
            let already = self.open_at(cx, cy);
            let flg = self.flag_at(cx, cy);
            if !already && !flg {
                let ghost (dx, dy) = choose|dx: int, dy: int|
                    s0.is_open(dx, dy) && !s0.is_mine(dx, dy) && s0.mines_around(dx, dy) == 0
                        && s0.is_neighbor(dx, dy, cx as int, cy as int);
                proof {
                    lemma_zero_neighborhood_safe(s0, dx, dy, cx as int, cy as int);
                }
                let i = self.cell_index(cx, cy);
                proof {
                    lemma_count_true_update(self.open_fields@, i as int);
                }
                self.open_fields[i] = true;
                proof {
                    lemma_count_true_bounds(self.open_fields@);
                    assert forall|ax: int, ay: int|
                        self.is_open(ax, ay) != s0.is_open(ax, ay) implies (ax == cx as int && ay
                        == cy as int) by {
                        if self.in_bounds(ax, ay) {
                            lemma_idx_bounds(self.spec_width(), self.spec_height(), ax, ay);
                            if self.idx(ax, ay) == i {
                                lemma_idx_injective(self.spec_width(), ax, ay, cx as int, cy as int);
                            }
                        }
                    }
                    assert(self.is_open(cx as int, cy as int));
                    assert(!(exists|j: int|
                        0 <= j < self.area() && self.open_fields@[j] && self.mines@[j])) by {
                        if exists|j: int|
                            0 <= j < self.area() && self.open_fields@[j] && self.mines@[j] {
                            let j = choose|j: int|
                                0 <= j < self.area() && self.open_fields@[j] && self.mines@[j];
                            assert(s0.open_fields@[j] && s0.mines@[j]);
                        }
                    }
                    assert(self.is_open(dx, dy) && !self.is_mine(dx, dy) && self.mines_around(
                        dx,
                        dy,
                    ) == 0 && self.is_neighbor(dx, dy, cx as int, cy as int));
                    assert forall|ax: int, ay: int|
                        self.is_open(ax, ay) && !old(self).is_open(
                            ax,
                            ay,
                        ) implies self.reached_by_flood(ax, ay) by {
                        if s0.is_open(ax, ay) {
                            lemma_reached_monotone(s0, *self, ax, ay);
                        }
                    }
                    assert forall|k: int|
                        0 <= k < stack_mid.len() implies self.in_bounds(
                        (#[trigger] stack_mid[k]).0 as int,
                        stack_mid[k].1 as int,
                    ) && self.reached_by_flood(stack_mid[k].0 as int, stack_mid[k].1 as int) by {
                        assert(stack_pre[k] == stack_mid[k]);
                        lemma_reached_monotone(
                            s0,
                            *self,
                            stack_mid[k].0 as int,
                            stack_mid[k].1 as int,
                        );
                    }
                }
                let n = self.neighboring_mines((cx, cy));
                if n == 0 {
                    let mut nbrs = self.iter_neighbors((cx, cy));
                    let ghost nbrs_snap = nbrs@;
                    stack.append(&mut nbrs);
                    proof {
                        assert(stack@ =~= stack_mid + nbrs_snap);
                        assert forall|v: Position| stack_mid.contains(v) implies stack@.contains(
                            v,
                        ) by {
                            let k = choose|k: int| 0 <= k < stack_mid.len() && stack_mid[k] == v;
                            assert(stack@[k] == v);
                        }
                        assert forall|nx: int, ny: int|
                            self.is_neighbor(cx as int, cy as int, nx, ny) implies stack@.contains(
                            ((nx as usize), (ny as usize)),
                        ) by {
                            let v = ((nx as usize), (ny as usize));
                            assert(nbrs_snap.contains(v));
                            let k = choose|k: int| 0 <= k < nbrs_snap.len() && nbrs_snap[k] == v;
                            assert(stack@[stack_mid.len() + k] == v);
                        }
                        assert forall|k: int|
                            0 <= k < stack@.len() implies self.in_bounds(
                            (#[trigger] stack@[k]).0 as int,
                            stack@[k].1 as int,
                        ) && self.reached_by_flood(stack@[k].0 as int, stack@[k].1 as int) by {
                            if k < stack_mid.len() {
                                assert(stack@[k] == stack_mid[k]);
                            } else {
                                assert(stack@[k] == nbrs_snap[k - stack_mid.len()]);
                                assert(self.is_neighbor(
                                    cx as int,
                                    cy as int,
                                    stack@[k].0 as int,
                                    stack@[k].1 as int,
                                ));
                            }
                        }
                        assert(flood_pending(*old(self), *self, x as int, y as int, stack@)) by {
                            assert forall|ax: int, ay: int|
                                (((self.is_open(ax, ay) && !old(self).is_open(ax, ay)) || (ax
                                    == x as int && ay == y as int)) && !self.is_mine(ax, ay)
                                    && self.mines_around(ax, ay) == 0) implies (forall|
                                nx: int,
                                ny: int,
                            |
                                self.is_neighbor(ax, ay, nx, ny) ==> self.is_open(nx, ny)
                                    || self.is_flagged(nx, ny) || stack@.contains(
                                    ((nx as usize), (ny as usize)),
                                )) by {
                                assert forall|nx: int, ny: int|
                                    self.is_neighbor(ax, ay, nx, ny) implies self.is_open(nx, ny)
                                    || self.is_flagged(nx, ny) || stack@.contains(
                                    ((nx as usize), (ny as usize)),
                                ) by {
                                    if ax == cx as int && ay == cy as int {
                                        assert(stack@.contains(((nx as usize), (ny as usize))));
                                    } else {
                                        assert(s0.is_open(nx, ny) || s0.is_flagged(nx, ny)
                                            || stack_pre.contains(((nx as usize), (ny as usize))));
                                        if stack_pre.contains(((nx as usize), (ny as usize))) {
                                            if ((nx as usize), (ny as usize)) == p {
                                                assert(self.is_open(nx, ny));
                                            }
                                        }
                                    }
                                }
                            }
                        }
                    }
                } else {
                    proof {
                        assert(flood_pending(*old(self), *self, x as int, y as int, stack@)) by {
                            assert forall|ax: int, ay: int|
                                (((self.is_open(ax, ay) && !old(self).is_open(ax, ay)) || (ax
                                    == x as int && ay == y as int)) && !self.is_mine(ax, ay)
                                    && self.mines_around(ax, ay) == 0) implies (forall|
                                nx: int,
                                ny: int,
                            |
                                self.is_neighbor(ax, ay, nx, ny) ==> self.is_open(nx, ny)
                                    || self.is_flagged(nx, ny) || stack@.contains(
                                    ((nx as usize), (ny as usize)),
                                )) by {
                                assert forall|nx: int, ny: int|
                                    self.is_neighbor(ax, ay, nx, ny) implies self.is_open(nx, ny)
                                    || self.is_flagged(nx, ny) || stack@.contains(
                                    ((nx as usize), (ny as usize)),
                                ) by {
                                    assert(!(ax == cx as int && ay == cy as int));
                                    assert(s0.is_open(nx, ny) || s0.is_flagged(nx, ny)
                                        || stack_pre.contains(((nx as usize), (ny as usize))));
                                    if stack_pre.contains(((nx as usize), (ny as usize))) {
                                        if ((nx as usize), (ny as usize)) == p {
                                            assert(self.is_open(nx, ny));
                                        }
                                    }
                                }
                            }
                        }
                    }
                }
            } else {
                proof {
                    assert forall|k: int|
                        0 <= k < stack_mid.len() implies self.in_bounds(
                        (#[trigger] stack_mid[k]).0 as int,
                        stack_mid[k].1 as int,
                    ) && self.reached_by_flood(stack_mid[k].0 as int, stack_mid[k].1 as int) by {
                        assert(stack_pre[k] == stack_mid[k]);
                    }
                    assert(flood_pending(*old(self), *self, x as int, y as int, stack@)) by {
                        assert forall|ax: int, ay: int|
                            (((self.is_open(ax, ay) && !old(self).is_open(ax, ay)) || (ax
                                == x as int && ay == y as int)) && !self.is_mine(ax, ay)
                                && self.mines_around(ax, ay) == 0) implies (forall|nx: int, ny: int|
                                self.is_neighbor(ax, ay, nx, ny) ==> self.is_open(nx, ny)
                                    || self.is_flagged(nx, ny) || stack@.contains(
                                    ((nx as usize), (ny as usize)),
                                )) by {
                            assert forall|nx: int, ny: int|
                                self.is_neighbor(ax, ay, nx, ny) implies self.is_open(nx, ny)
                                || self.is_flagged(nx, ny) || stack@.contains(
                                ((nx as usize), (ny as usize)),
                            ) by {
                                assert(s0.is_open(nx, ny) || s0.is_flagged(nx, ny)
                                    || stack_pre.contains(((nx as usize), (ny as usize))));
                                if stack_pre.contains(((nx as usize), (ny as usize))) {
                                    if ((nx as usize), (ny as usize)) == p {
                                        assert(self.is_open(nx, ny) || self.is_flagged(nx, ny));
                                    }
                                }
                            }
                        }
                    }
                }
            }
        }
        proof {
            assert forall|cx: int, cy: int|
                (((self.is_open(cx, cy) && !old(self).is_open(cx, cy)) || (cx == x as int && cy
                    == y as int)) && !self.is_mine(cx, cy) && self.mines_around(cx, cy)
                    == 0) implies self.neighborhood_revealed(cx, cy) by {
                assert forall|nx: int, ny: int|
                    self.is_neighbor(cx, cy, nx, ny) implies self.is_open(nx, ny)
                    || self.is_flagged(nx, ny) by {
                    assert(!stack@.contains(((nx as usize), (ny as usize))));
                }
            }
        }
    }

    /// Open every unflagged, still-concealed neighbor of the satisfied
    /// open cell `(x, y)`, stopping if one of them turns out to be a mine.
    fn chord(&mut self, x: usize, y: usize)
        requires
            old(self).well_formed(),
            old(self).in_bounds(x as int, y as int),
            old(self).is_open(x as int, y as int),
            !old(self).spec_lost(),
        ensures
            final(self).well_formed(),
            old(self).same_field(*final(self)),
            forall|cx: int, cy: int| final(self).is_flagged(cx, cy) == old(self).is_flagged(cx, cy),
            forall|cx: int, cy: int| old(self).is_open(cx, cy) ==> final(self).is_open(cx, cy),
            !final(self).spec_lost() ==> forall|nx: int, ny: int|
                old(self).is_neighbor(x as int, y as int, nx, ny) && !old(self).is_flagged(nx, ny)
                    ==> final(self).is_open(nx, ny),
            forall|cx: int, cy: int|
                final(self).is_open(cx, cy) && !old(self).is_open(cx, cy) ==> (old(
                    self,
                ).is_neighbor(x as int, y as int, cx, cy) || final(self).reached_by_flood(cx, cy)),
            forall|cx: int, cy: int|
                (final(self).is_open(cx, cy) && !old(self).is_open(cx, cy) && !final(self).is_mine(
                    cx,
                    cy,
                ) && final(self).mines_around(cx, cy) == 0) ==> final(self).neighborhood_revealed(
                    cx,
                    cy,
                ),
    {
        let nbrs = self.iter_neighbors((x, y));
        let mut k: usize = 0;
        while k < nbrs.len()
            invariant
                k <= nbrs@.len(),
                self.well_formed(),
                old(self).same_field(*self),
                old(self).in_bounds(x as int, y as int),
                forall|j: int|
                    0 <= j < nbrs@.len() ==> old(self).is_neighbor(
                        x as int,
                        y as int,
                        (#[trigger] nbrs@[j]).0 as int,
                        nbrs@[j].1 as int,
                    ),
                forall|cx: int, cy: int| self.is_flagged(cx, cy) == old(self).is_flagged(cx, cy),
                forall|cx: int, cy: int| old(self).is_open(cx, cy) ==> self.is_open(cx, cy),
                !self.spec_lost() ==> forall|j: int|
                    0 <= j < k ==> self.is_flagged(
                        (#[trigger] nbrs@[j]).0 as int,
                        nbrs@[j].1 as int,
                    ) || self.is_open(nbrs@[j].0 as int, nbrs@[j].1 as int),
                forall|cx: int, cy: int|
                    self.is_open(cx, cy) && !old(self).is_open(cx, cy) ==> (old(self).is_neighbor(
                        x as int,
                        y as int,
                        cx,
                        cy,
                    ) || self.reached_by_flood(cx, cy)),
                forall|cx: int, cy: int|
                    (self.is_open(cx, cy) && !old(self).is_open(cx, cy) && !self.is_mine(cx, cy)
                        && self.mines_around(cx, cy) == 0) ==> self.neighborhood_revealed(cx, cy),
            decreases nbrs@.len() - k,
        {
            let (nx, ny) = nbrs[k];
            if !self.is_lost() && !self.flag_at(nx, ny) && !self.open_at(nx, ny) {
                let ghost before = *self;
                self.open_fresh(nx, ny);
                proof {
                    assert forall|cx: int, cy: int|
                        self.is_open(cx, cy) && !old(self).is_open(cx, cy) implies (old(
                        self,
                    ).is_neighbor(x as int, y as int, cx, cy) || self.reached_by_flood(cx, cy)) by {
                        if !before.is_open(cx, cy) {
                            if cx == nx as int && cy == ny as int {
                            }
                        } else {
                            if !old(self).is_neighbor(x as int, y as int, cx, cy) {
                                let (dx, dy) = choose|dx: int, dy: int|
                                    before.is_open(dx, dy) && !before.is_mine(dx, dy)
                                        && before.mines_around(dx, dy) == 0 && before.is_neighbor(
                                        dx,
                                        dy,
                                        cx,
                                        cy,
                                    );
                                assert(self.is_open(dx, dy) && !self.is_mine(dx, dy)
                                    && self.mines_around(dx, dy) == 0 && self.is_neighbor(
                                    dx,
                                    dy,
                                    cx,
                                    cy,
                                ));
                            }
                        }
                    }
                }
            }
            k += 1;
        }
    }

    /// Open `pos`, as the player's primary action.
    ///
    /// When the game is lost, the coordinate is off the board, or the cell
    /// is flagged, nothing happens. Opening an already-open cell chords:
    /// when as many of its neighbors are flagged as it counts mines, every
    /// unflagged concealed neighbor is opened (losing if one is a mine),
    /// and otherwise nothing happens. Opening a concealed cell reveals it:
    /// a mine loses the game, and a cell with no neighboring mines floods
    /// its whole zero-count region plus the numbered ring around it.
    pub fn open(&mut self, pos: Position) -> (r: OpenResult)
        requires
            old(self).well_formed(),
        ensures
            final(self).well_formed(),
            old(self).same_field(*final(self)),
            forall|cx: int, cy: int| final(self).is_flagged(cx, cy) == old(self).is_flagged(cx, cy),
            forall|cx: int, cy: int| old(self).is_open(cx, cy) ==> final(self).is_open(cx, cy),
            old(self).spec_lost() ==> final(self).spec_lost(),
            (r == OpenResult::NoEffect) <==> (old(self).spec_lost() || !old(self).in_bounds(
                pos.0 as int,
                pos.1 as int,
            ) || old(self).is_flagged(pos.0 as int, pos.1 as int) || (old(self).is_open(
                pos.0 as int,
                pos.1 as int,
            ) && old(self).flags_around(pos.0 as int, pos.1 as int) != old(self).mines_around(
                pos.0 as int,
                pos.1 as int,
            ))),
            r == OpenResult::NoEffect ==> old(self).same_state(*final(self)),
            (r == OpenResult::Mine) <==> (!old(self).spec_lost() && old(self).in_bounds(
                pos.0 as int,
                pos.1 as int,
            ) && !old(self).is_flagged(pos.0 as int, pos.1 as int) && !old(self).is_open(
                pos.0 as int,
                pos.1 as int,
            ) && old(self).is_mine(pos.0 as int, pos.1 as int)),
            r == OpenResult::Mine ==> final(self).spec_lost() && (forall|cx: int, cy: int|
                final(self).is_open(cx, cy) == (old(self).is_open(cx, cy) || (cx == pos.0 as int
                    && cy == pos.1 as int))),
            (r is NoMine) <==> (!old(self).spec_lost() && old(self).in_bounds(
                pos.0 as int,
                pos.1 as int,
            ) && !old(self).is_flagged(pos.0 as int, pos.1 as int) && !old(self).is_open(
                pos.0 as int,
                pos.1 as int,
            ) && !old(self).is_mine(pos.0 as int, pos.1 as int)),
            r is NoMine ==> r == OpenResult::NoMine(
                old(self).mines_around(pos.0 as int, pos.1 as int) as u8,
            ) && !final(self).spec_lost() && final(self).is_open(pos.0 as int, pos.1 as int),
            (r is NoMine && old(self).mines_around(pos.0 as int, pos.1 as int) > 0) ==> (forall|
                cx: int,
                cy: int,
            |
                final(self).is_open(cx, cy) == (old(self).is_open(cx, cy) || (cx == pos.0 as int
                    && cy == pos.1 as int))),
            (r == OpenResult::Chorded) <==> (!old(self).spec_lost() && old(self).in_bounds(
                pos.0 as int,
                pos.1 as int,
            ) && !old(self).is_flagged(pos.0 as int, pos.1 as int) && old(self).is_open(
                pos.0 as int,
                pos.1 as int,
            ) && old(self).flags_around(pos.0 as int, pos.1 as int) == old(self).mines_around(
                pos.0 as int,
                pos.1 as int,
            )),
            (r == OpenResult::Chorded && !final(self).spec_lost()) ==> (forall|nx: int, ny: int|
                old(self).is_neighbor(pos.0 as int, pos.1 as int, nx, ny) && !old(self).is_flagged(
                    nx,
                    ny,
                ) ==> final(self).is_open(nx, ny)),
            forall|cx: int, cy: int|
                final(self).is_open(cx, cy) && !old(self).is_open(cx, cy) ==> ((cx == pos.0 as int
                    && cy == pos.1 as int) || (r == OpenResult::Chorded && old(self).is_neighbor(
                    pos.0 as int,
                    pos.1 as int,
                    cx,
                    cy,
                )) || final(self).reached_by_flood(cx, cy)),
            forall|cx: int, cy: int|
                (final(self).is_open(cx, cy) && !old(self).is_open(cx, cy) && !final(self).is_mine(
                    cx,
                    cy,
                ) && final(self).mines_around(cx, cy) == 0) ==> final(self).neighborhood_revealed(
                    cx,
                    cy,
                ),
            old(self).zero_cells_closed() ==> final(self).zero_cells_closed(),
    {
        let (x, y) = pos;
        if self.is_lost() {
            return OpenResult::NoEffect;
        }
        if x >= self.width || y >= self.height {
            return OpenResult::NoEffect;
        }
        if self.flag_at(x, y) {
            return OpenResult::NoEffect;
        }
        let r;
        if self.open_at(x, y) {
            let mc = self.neighboring_mines(pos);
            let fc = self.neighboring_flags(pos);
            if mc == fc {
                self.chord(x, y);
                r = OpenResult::Chorded;
            } else {
                r = OpenResult::NoEffect;
            }
        } else {
            r = self.open_fresh(x, y);
        }
        proof {
            if old(self).zero_cells_closed() {
                assert forall|cx: int, cy: int|
                    self.is_open(cx, cy) && !self.is_mine(cx, cy) && self.mines_around(cx, cy)
                        == 0 implies self.neighborhood_revealed(cx, cy) by {
                    if old(self).is_open(cx, cy) {
                        assert(old(self).neighborhood_revealed(cx, cy));
                        assert forall|nx: int, ny: int|
                            self.is_neighbor(cx, cy, nx, ny) implies self.is_open(nx, ny)
                            || self.is_flagged(nx, ny) by {
                            assert(old(self).is_neighbor(cx, cy, nx, ny));
                        }
                    }
                }
            }
        }
        r
    }

    /// Toggle the flag on `pos`. Returns whether anything changed: it does
    /// not when the game is lost, the coordinate is off the board, or the
    /// cell is already open.
    pub fn toggle_flag(&mut self, pos: Position) -> (r: bool)
        requires
            old(self).well_formed(),
        ensures
            final(self).well_formed(),
            old(self).same_field(*final(self)),
            final(self).spec_lost() == old(self).spec_lost(),
            forall|x: int, y: int| final(self).is_open(x, y) == old(self).is_open(x, y),
            r == (!old(self).spec_lost() && old(self).in_bounds(pos.0 as int, pos.1 as int)
                && !old(self).is_open(pos.0 as int, pos.1 as int)),
            !r ==> old(self).same_state(*final(self)),
            r ==> forall|x: int, y: int|
                final(self).is_flagged(x, y) == if x == pos.0 as int && y == pos.1 as int {
                    !old(self).is_flagged(x, y)
                } else {
                    old(self).is_flagged(x, y)
                },
    {
        let (x, y) = pos;
        if self.lost || x >= self.width || y >= self.height {
            return false;
        }
        if self.open_at(x, y) {
            return false;
        }
        let i = self.cell_index(x, y);
        let was = self.flagged_fields[i];
        self.flagged_fields[i] = !was;
        proof {
            let w = self.spec_width();
            let h = self.spec_height();
            assert forall|cx: int, cy: int|
                self.is_flagged(cx, cy) != old(self).is_flagged(cx, cy) implies cx == x as int && cy
                == y as int by {
                if self.in_bounds(cx, cy) {
                    lemma_idx_bounds(w, h, cx, cy);
                    if self.idx(cx, cy) != i {
                    } else {
                        lemma_idx_injective(w, cx, cy, x as int, y as int);
                    }
                }
            }
            assert(self.lost <==> exists|j: int|
                0 <= j < self.area() && self.open_fields@[j] && self.mines@[j]) by {
                if old(self).lost {
                    let j = choose|j: int|
                        0 <= j < old(self).area() && old(self).open_fields@[j]
                            && old(self).mines@[j];
                    assert(self.open_fields@[j] && self.mines@[j]);
                }
            }
        }
        true
    }
}

/// On boards of at least 2x2 cells, a cell has exactly 3, 5 or 8
/// neighbors according to whether it is a corner, a non-corner border
/// cell, or an interior cell.
pub proof fn lemma_neighbor_count(b: Minesweeper, x: int, y: int)
    requires
        2 <= b.spec_width(),
        2 <= b.spec_height(),
        b.in_bounds(x, y),
    ensures
        b.nbr_count(x, y) == if b.is_corner(x, y) {
            3int
        } else if b.is_edge(x, y) {
            5int
        } else {
            8int
        },
{
}

/// No cell is ever both open and flagged.
pub proof fn lemma_flag_open_exclusive(b: Minesweeper)
    requires
        b.well_formed(),
    ensures
        forall|x: int, y: int| !(b.is_open(x, y) && b.is_flagged(x, y)),
{
    assert forall|x: int, y: int| !(b.is_open(x, y) && b.is_flagged(x, y)) by {
        if b.in_bounds(x, y) {
            lemma_idx_bounds(b.spec_width(), b.spec_height(), x, y);
        }
    }
}

/// The game is lost exactly when some open cell is a mine. In particular
/// a board whose opens all came from safe cells is never lost.
pub proof fn lemma_lost_iff_open_mine(b: Minesweeper)
    requires
        b.well_formed(),
    ensures
        b.spec_lost() <==> exists|x: int, y: int| b.is_open(x, y) && b.is_mine(x, y),
{
    let w = b.spec_width();
    let h = b.spec_height();
    if b.spec_lost() {
        let i = choose|i: int| 0 <= i < b.area() && b.open_fields@[i] && b.mines@[i];
        let x = i % w;
        let y = i / w;
        vstd::arithmetic::div_mod::lemma_fundamental_div_mod(i, w);
        vstd::arithmetic::div_mod::lemma_mod_bound(i, w);
        assert(0 <= y) by (nonlinear_arith)
            requires
                0 <= i,
                0 < w,
                y == i / w,
        ;
        assert(y < h) by {
            if y >= h {
                assert(w * y >= w * h) by (nonlinear_arith)
                    requires
                        y >= h,
                        0 < w,
                ;
            }
        }
        assert(b.idx(x, y) == i);
        assert(b.is_open(x, y) && b.is_mine(x, y));
    }
    if exists|x: int, y: int| b.is_open(x, y) && b.is_mine(x, y) {
        let (x, y) = choose|x: int, y: int| b.is_open(x, y) && b.is_mine(x, y);
        lemma_idx_bounds(w, h, x, y);
        assert(b.open_fields@[b.idx(x, y)] && b.mines@[b.idx(x, y)]);
        assert(b.spec_lost());
    }
}

/// Flood-fill completeness: on a flood-settled board, any chain of
/// adjacent, unflagged, zero-count safe cells starting at an open one is
/// entirely open, including one final step onto the ring of cells
/// bordering the zero-count region (the last cell may carry any count).
proof fn lemma_flood_region_open_upto(b: Minesweeper, path: Seq<(int, int)>, n: int)
    requires
        b.zero_cells_closed(),
        path.len() > 0,
        b.is_open(path[0].0, path[0].1),
        !b.is_mine(path[0].0, path[0].1),
        b.mines_around(path[0].0, path[0].1) == 0,
        forall|k: int|
            0 <= k < path.len() - 1 ==> !b.is_mine((#[trigger] path[k]).0, path[k].1)
                && b.mines_around(path[k].0, path[k].1) == 0,
        forall|k: int|
            0 < k < path.len() ==> b.is_neighbor(
                path[k - 1].0,
                path[k - 1].1,
                (#[trigger] path[k]).0,
                path[k].1,
            ),
        forall|k: int| 0 < k < path.len() ==> !b.is_flagged((#[trigger] path[k]).0, path[k].1),
        0 <= n < path.len(),
    ensures
        b.is_open(path[n].0, path[n].1),
    decreases n,
{
    if n > 0 {
        lemma_flood_region_open_upto(b, path, n - 1);
        assert(!b.is_mine(path[n - 1].0, path[n - 1].1) && b.mines_around(
            path[n - 1].0,
            path[n - 1].1,
        ) == 0);
        assert(b.neighborhood_revealed(path[n - 1].0, path[n - 1].1));
        assert(b.is_open(path[n].0, path[n].1) || b.is_flagged(path[n].0, path[n].1));
    }
}

/// Flood-fill completeness: on a flood-settled board, any chain of
/// adjacent, unflagged, zero-count safe cells starting at an open one is
/// entirely open, including one final step onto the ring of cells
/// bordering the zero-count region (the last cell may carry any count).
pub proof fn lemma_flood_region_open(b: Minesweeper, path: Seq<(int, int)>)
    requires
        b.zero_cells_closed(),
        path.len() > 0,
        b.is_open(path[0].0, path[0].1),
        !b.is_mine(path[0].0, path[0].1),
        b.mines_around(path[0].0, path[0].1) == 0,
        forall|k: int|
            0 <= k < path.len() - 1 ==> !b.is_mine((#[trigger] path[k]).0, path[k].1)
                && b.mines_around(path[k].0, path[k].1) == 0,
        forall|k: int|
            0 < k < path.len() ==> b.is_neighbor(
                path[k - 1].0,
                path[k - 1].1,
                (#[trigger] path[k]).0,
                path[k].1,
            ),
        forall|k: int| 0 < k < path.len() ==> !b.is_flagged((#[trigger] path[k]).0, path[k].1),
    ensures
        forall|k: int| 0 <= k < path.len() ==> b.is_open((#[trigger] path[k]).0, path[k].1),
{
    assert forall|k: int| 0 <= k < path.len() implies b.is_open(
        (#[trigger] path[k]).0,
        path[k].1,
    ) by {
        lemma_flood_region_open_upto(b, path, k);
    }
}

} // verus!

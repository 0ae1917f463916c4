use vstd::prelude::*;

use crate::random::random_range;

verus! {

/// Horizontal directions in which the falling shape can be shifted.
#[derive(Debug, Clone, Copy, PartialEq, Eq, Structural)]
pub enum Direction {
    Left,
    Right,
}

/// Largest accepted board dimension; keeps all coordinate arithmetic,
/// including rotation about an anchor, inside `i32`.
pub const MAX_DIM: i32 = 0x10000000;

/// A grid position, `x` right and `y` down.
#[derive(Debug, Clone, Copy, PartialEq, Eq, Structural)]
pub struct Pos(pub i32, pub i32);

/// A tetromino: a kind tag (one of 7), its occupied cells, and the anchor
/// it rotates about.
#[derive(Debug)]
pub struct Shape {
    kind: u8,
    cells: Vec<Pos>,
    anchor: Pos,
}

/// The cells of a freshly spawned shape of the given kind.
pub open spec fn spawn_cells(k: int) -> Seq<Pos> {
    if k == 0 {
        seq![Pos(0, 1), Pos(1, 1), Pos(2, 1), Pos(3, 1)]
    } else if k == 1 {
        seq![Pos(1, 0), Pos(2, 0), Pos(1, 1), Pos(2, 1)]
    } else if k == 2 {
        seq![Pos(1, 0), Pos(0, 1), Pos(1, 1), Pos(2, 1)]
    } else if k == 3 {
        seq![Pos(1, 0), Pos(2, 0), Pos(0, 1), Pos(1, 1)]
    } else if k == 4 {
        seq![Pos(0, 0), Pos(1, 0), Pos(1, 1), Pos(2, 1)]
    } else if k == 5 {
        seq![Pos(0, 0), Pos(0, 1), Pos(1, 1), Pos(2, 1)]
    } else {
        seq![Pos(2, 0), Pos(0, 1), Pos(1, 1), Pos(2, 1)]
    }
}

/// The rotation anchor of a freshly spawned shape of the given kind.
pub open spec fn spawn_anchor(k: int) -> Pos {
    if k == 1 {
        Pos(1, 0)
    } else {
        Pos(1, 1)
    }
}

/// The one-letter tag a renderer shows for each shape kind.
pub open spec fn glyph(k: int) -> Seq<char> {
    if k == 0 {
        "I"@
    } else if k == 1 {
        "O"@
    } else if k == 2 {
        "T"@
    } else if k == 3 {
        "S"@
    } else if k == 4 {
        "Z"@
    } else if k == 5 {
        "J"@
    } else {
        "L"@
    }
}

/// X coordinate of `p` after a quarter turn clockwise about `anchor`.
pub open spec fn rot_x(anchor: Pos, p: Pos) -> int {
    anchor.0 + anchor.1 - p.1
}

/// Y coordinate of `p` after a quarter turn clockwise about `anchor`.
pub open spec fn rot_y(anchor: Pos, p: Pos) -> int {
    anchor.1 - anchor.0 + p.0
}

/// Some entry of `s` is the cell `(x, y)`.
pub open spec fn seq_covers(s: Seq<Pos>, x: int, y: int) -> bool {
    exists|k: int| 0 <= k < s.len() && (#[trigger] s[k]).0 == x && s[k].1 == y
}

/// Where a cell goes when row `y` is removed: rows above it fall by one,
/// rows below stay.
pub open spec fn line_image(p: Pos, y: i32) -> Pos {
    if p.1 < y {
        Pos(p.0, (p.1 + 1) as i32)
    } else {
        p
    }
}

/// The cells left after removing row `y` and dropping the rows above.
pub open spec fn removed_cells(s: Seq<Pos>, y: i32) -> Seq<Pos>
    decreases s.len(),
{
    if s.len() == 0 {
        Seq::empty()
    } else {
        let r = removed_cells(s.drop_last(), y);
        if s.last().1 == y {
            r
        } else {
            r.push(line_image(s.last(), y))
        }
    }
}

proof fn lemma_covers_push(s: Seq<Pos>, p: Pos, x: int, y: int)
    ensures
        seq_covers(s.push(p), x, y) <==> (seq_covers(s, x, y) || (p.0 == x && p.1 == y)),
{
    if seq_covers(s.push(p), x, y) {
        let k = choose|k: int|
            0 <= k < s.push(p).len() && (#[trigger] s.push(p)[k]).0 == x && s.push(p)[k].1 == y;
        if k < s.len() {
            assert(s[k] == s.push(p)[k]);
        }
    }
    if seq_covers(s, x, y) {
        let k = choose|k: int| 0 <= k < s.len() && (#[trigger] s[k]).0 == x && s[k].1 == y;
        assert(s.push(p)[k] == s[k]);
    }
    if p.0 == x && p.1 == y {
        assert(s.push(p)[s.len() as int] == p);
    }
}

proof fn lemma_removed_covers(s: Seq<Pos>, y: i32, ax: int, ay: int)
    ensures
        seq_covers(removed_cells(s, y), ax, ay) <==> ((ay > y && seq_covers(s, ax, ay)) || (ay <= y
            && seq_covers(s, ax, ay - 1))),
    decreases s.len(),
{
    if s.len() == 0 {
    } else {
        lemma_removed_covers(s.drop_last(), y, ax, ay);
        assert(s =~= s.drop_last().push(s.last()));
        lemma_covers_push(s.drop_last(), s.last(), ax, ay);
        lemma_covers_push(s.drop_last(), s.last(), ax, ay - 1);
        if s.last().1 != y {
            lemma_covers_push(removed_cells(s.drop_last(), y), line_image(s.last(), y), ax, ay);
        }
    }
}

impl Shape {
    /// The kind tag, between 0 and 6.
    pub closed spec fn spec_kind(self) -> u8 {
        self.kind
    }

    /// The occupied cells.
    pub closed spec fn cells_seq(self) -> Seq<Pos> {
        self.cells@
    }

    /// The rotation anchor.
    pub closed spec fn spec_anchor(self) -> Pos {
        self.anchor
    }

    /// Whether the shape occupies `(x, y)`.
    pub open spec fn covers(self, x: int, y: int) -> bool {
        seq_covers(self.cells_seq(), x, y)
    }

    /// The shape's invariant: a known kind tag.
    pub open spec fn well_formed(self) -> bool {
        self.spec_kind() < 7
    }

    /// All cell coordinates lie in `[lo, hi]`.
    pub open spec fn cells_in_box(self, lo: int, hi: int) -> bool {
        forall|k: int|
            0 <= k < self.cells_seq().len() ==> lo <= (#[trigger] self.cells_seq()[k]).0 <= hi && lo
                <= self.cells_seq()[k].1 <= hi
    }

    /// Every cell is within `d` of the anchor on both axes.
    pub open spec fn anchored(self, d: int) -> bool {
        forall|k: int|
            0 <= k < self.cells_seq().len() ==> -d <= (#[trigger] self.cells_seq()[k]).0
                - self.spec_anchor().0 <= d && -d <= self.cells_seq()[k].1 - self.spec_anchor().1
                <= d
    }

    /// All cell and anchor coordinates lie in `[lo, hi]`.
    pub open spec fn in_box(self, lo: int, hi: int) -> bool {
        &&& lo <= self.spec_anchor().0 <= hi
        &&& lo <= self.spec_anchor().1 <= hi
        &&& forall|k: int|
            0 <= k < self.cells_seq().len() ==> lo <= (#[trigger] self.cells_seq()[k]).0 <= hi && lo
                <= self.cells_seq()[k].1 <= hi
    }

    /// The shape is exactly a freshly spawned one of its kind.
    pub open spec fn is_fresh(self) -> bool {
        &&& self.spec_kind() < 7
        &&& self.cells_seq() == spawn_cells(self.spec_kind() as int)
        &&& self.spec_anchor() == spawn_anchor(self.spec_kind() as int)
    }

    /// Build the spawn shape of the given kind.
    pub fn from_kind(kind: u8) -> (r: Shape)
        requires
            kind < 7,
        ensures
            r.is_fresh(),
            r.spec_kind() == kind,
            r.well_formed(),
            r.in_box(0, 3),
            r.anchored(3),
            r.cells_seq().len() == 4,
    {
        let mut cells: Vec<Pos> = Vec::new();
        let anchor: Pos;
        if kind == 0 {
            cells.push(Pos(0, 1));
            cells.push(Pos(1, 1));
            cells.push(Pos(2, 1));
            cells.push(Pos(3, 1));
            anchor = Pos(1, 1);
        } else if kind == 1 {
            cells.push(Pos(1, 0));
            cells.push(Pos(2, 0));
            cells.push(Pos(1, 1));
            cells.push(Pos(2, 1));
            anchor = Pos(1, 0);
        } else if kind == 2 {
            cells.push(Pos(1, 0));
            cells.push(Pos(0, 1));
            cells.push(Pos(1, 1));
            cells.push(Pos(2, 1));
            anchor = Pos(1, 1);
        } else if kind == 3 {
            cells.push(Pos(1, 0));
            cells.push(Pos(2, 0));
            cells.push(Pos(0, 1));
            cells.push(Pos(1, 1));
            anchor = Pos(1, 1);
        } else if kind == 4 {
            cells.push(Pos(0, 0));
            cells.push(Pos(1, 0));
            cells.push(Pos(1, 1));
            cells.push(Pos(2, 1));
            anchor = Pos(1, 1);
        } else if kind == 5 {
            cells.push(Pos(0, 0));
            cells.push(Pos(0, 1));
            cells.push(Pos(1, 1));
            cells.push(Pos(2, 1));
            anchor = Pos(1, 1);
        } else {
            cells.push(Pos(2, 0));
            cells.push(Pos(0, 1));
            cells.push(Pos(1, 1));
            cells.push(Pos(2, 1));
            anchor = Pos(1, 1);
        }
        let s = Shape { kind, cells, anchor };
        proof {
            assert(s.cells_seq() =~= spawn_cells(kind as int));
        }
        s
    }

    /// A uniformly random spawn shape.
    pub fn new_random() -> (r: Shape)
        ensures
            r.is_fresh(),
            r.well_formed(),
            r.in_box(0, 3),
            r.anchored(3),
            r.cells_seq().len() == 4,
    {
        let k = random_range(0, 7);
        Shape::from_kind(k as u8)
    }

    /// The one-letter tag of this shape's kind.
    pub fn typ(&self) -> (r: &'static str)
        requires
            self.well_formed(),
        ensures
            r@ == glyph(self.spec_kind() as int),
    {
        match self.kind {
            0 => "I",
            1 => "O",
            2 => "T",
            3 => "S",
            4 => "Z",
            5 => "J",
            _ => "L",
        }
    }

    /// The occupied cells, for callers that walk them.
    pub fn positions(&self) -> (r: &Vec<Pos>)
        ensures
            r@ == self.cells_seq(),
    {
        &self.cells
    }

    /// Whether the shape occupies `pos`.
    pub fn has_position(&self, pos: Pos) -> (r: bool)
        ensures
            r == self.covers(pos.0 as int, pos.1 as int),
    {
        let mut k: usize = 0;
        while k < self.cells.len()
            invariant
                k <= self.cells@.len(),
                forall|j: int|
                    0 <= j < k ==> !((#[trigger] self.cells@[j]).0 == pos.0 && self.cells@[j].1
                        == pos.1),
            decreases self.cells@.len() - k,
        {
            let c = self.cells[k];
            proof {
                assert(self.cells_seq()[k as int] == c);
            }
            if c.0 == pos.0 && c.1 == pos.1 {
                return true;
            }
            k += 1;
        }
        false
    }

    /// Whether the two shapes share a cell.
    pub fn collides_with(&self, other: &Shape) -> (r: bool)
        ensures
            r == exists|x: int, y: int| self.covers(x, y) && other.covers(x, y),
    {
        let mut k: usize = 0;
        while k < self.cells.len()
            invariant
                k <= self.cells@.len(),
                forall|j: int|
                    0 <= j < k ==> !other.covers(
                        (#[trigger] self.cells@[j]).0 as int,
                        self.cells@[j].1 as int,
                    ),
            decreases self.cells@.len() - k,
        {
            let c = self.cells[k];
            proof {
                assert(self.cells_seq()[k as int] == c);
            }
            if other.has_position(c) {
                proof {
                    assert(self.covers(c.0 as int, c.1 as int));
                }
                return true;
            }
            k += 1;
        }
        proof {
            if exists|x: int, y: int| self.covers(x, y) && other.covers(x, y) {
                let (x, y) = choose|x: int, y: int| self.covers(x, y) && other.covers(x, y);
                let j = choose|j: int|
                    0 <= j < self.cells_seq().len() && (#[trigger] self.cells_seq()[j]).0 == x
                        && self.cells_seq()[j].1 == y;
                assert(!other.covers(self.cells@[j].0 as int, self.cells@[j].1 as int));
            }
        }
        false
    }

    /// The shape moved by `(dx, dy)`.
    pub fn translated(&self, dx: i32, dy: i32) -> (r: Shape)
        requires
            i32::MIN <= self.spec_anchor().0 + dx <= i32::MAX,
            i32::MIN <= self.spec_anchor().1 + dy <= i32::MAX,
            forall|k: int|
                0 <= k < self.cells_seq().len() ==> i32::MIN <= (#[trigger] self.cells_seq()[k]).0
                    + dx <= i32::MAX && i32::MIN <= self.cells_seq()[k].1 + dy <= i32::MAX,
        ensures
            r.spec_kind() == self.spec_kind(),
            r.spec_anchor().0 == self.spec_anchor().0 + dx,
            r.spec_anchor().1 == self.spec_anchor().1 + dy,
            r.cells_seq().len() == self.cells_seq().len(),
            forall|k: int|
                0 <= k < r.cells_seq().len() ==> (#[trigger] r.cells_seq()[k]).0
                    == self.cells_seq()[k].0 + dx && r.cells_seq()[k].1 == self.cells_seq()[k].1
                    + dy,
            forall|x: int, y: int| r.covers(x, y) <==> self.covers(x - dx, y - dy),
            self.anchored(3) ==> r.anchored(3),
    {
        let mut cells: Vec<Pos> = Vec::new();
        let mut k: usize = 0;
        while k < self.cells.len()
            invariant
                k <= self.cells@.len(),
                cells@.len() == k,
                forall|j: int|
                    0 <= j < self.cells_seq().len() ==> i32::MIN <= (#[trigger] self.cells_seq()[
                        j
                    ]).0 + dx <= i32::MAX && i32::MIN <= self.cells_seq()[j].1 + dy <= i32::MAX,
                forall|j: int|
                    0 <= j < k ==> (#[trigger] cells@[j]).0 == self.cells@[j].0 + dx && cells@[j].1
                        == self.cells@[j].1 + dy,
            decreases self.cells@.len() - k,
        {
            let c = self.cells[k];
            proof {
                assert(self.cells_seq()[k as int] == c);
            }
            cells.push(Pos(c.0 + dx, c.1 + dy));
            k += 1;
        }
        let r = Shape { kind: self.kind, cells, anchor: Pos(self.anchor.0 + dx, self.anchor.1 + dy) };
        proof {
            assert forall|x: int, y: int| r.covers(x, y) <==> self.covers(x - dx, y - dy) by {
                if r.covers(x, y) {
                    let j = choose|j: int|
                        0 <= j < r.cells_seq().len() && (#[trigger] r.cells_seq()[j]).0 == x
                            && r.cells_seq()[j].1 == y;
                    assert((#[trigger] self.cells_seq()[j]).0 == x - dx && self.cells_seq()[j].1 == y
                        - dy);
                }
                if self.covers(x - dx, y - dy) {
                    let j = choose|j: int|
                        0 <= j < self.cells_seq().len() && (#[trigger] self.cells_seq()[j]).0 == x
                            - dx && self.cells_seq()[j].1 == y - dy;
                    assert((#[trigger] r.cells_seq()[j]).0 == x && r.cells_seq()[j].1 == y);
                }
            }
        }
        r
    }

    /// The shape turned a quarter turn clockwise about its anchor.
    pub fn rotated(&self) -> (r: Shape)
        requires
            self.in_box(-0x20000000, 0x20000000),
        ensures
            r.spec_kind() == self.spec_kind(),
            r.spec_anchor() == self.spec_anchor(),
            r.cells_seq().len() == self.cells_seq().len(),
            forall|k: int|
                0 <= k < r.cells_seq().len() ==> (#[trigger] r.cells_seq()[k]).0 == rot_x(
                    self.spec_anchor(),
                    self.cells_seq()[k],
                ) && r.cells_seq()[k].1 == rot_y(self.spec_anchor(), self.cells_seq()[k]),
            self.anchored(3) ==> r.anchored(3),
            forall|x: int, y: int|
                r.covers(x, y) <==> self.covers(
                    self.spec_anchor().0 - self.spec_anchor().1 + y,
                    self.spec_anchor().0 + self.spec_anchor().1 - x,
                ),
    {
        let mut cells: Vec<Pos> = Vec::new();
        let mut k: usize = 0;
        while k < self.cells.len()
            invariant
                k <= self.cells@.len(),
                cells@.len() == k,
                self.in_box(-0x20000000, 0x20000000),
                forall|j: int|
                    0 <= j < k ==> (#[trigger] cells@[j]).0 == rot_x(
                        self.spec_anchor(),
                        self.cells@[j],
                    ) && cells@[j].1 == rot_y(self.spec_anchor(), self.cells@[j]),
            decreases self.cells@.len() - k,
        {
            let c = self.cells[k];
            proof {
                assert(self.cells_seq()[k as int] == c);
            }
            cells.push(
                Pos(self.anchor.0 + self.anchor.1 - c.1, self.anchor.1 - self.anchor.0 + c.0),
            );
            k += 1;
        }
        let r = Shape { kind: self.kind, cells, anchor: self.anchor };
        proof {
            let a = self.spec_anchor();
            assert forall|x: int, y: int|
                r.covers(x, y) <==> self.covers(a.0 - a.1 + y, a.0 + a.1 - x) by {
                if r.covers(x, y) {
                    let j = choose|j: int|
                        0 <= j < r.cells_seq().len() && (#[trigger] r.cells_seq()[j]).0 == x
                            && r.cells_seq()[j].1 == y;
                    assert((#[trigger] self.cells_seq()[j]).0 == a.0 - a.1 + y
                        && self.cells_seq()[j].1 == a.0 + a.1 - x);
                }
                if self.covers(a.0 - a.1 + y, a.0 + a.1 - x) {
                    let j = choose|j: int|
                        0 <= j < self.cells_seq().len() && (#[trigger] self.cells_seq()[j]).0 == a.0
                            - a.1 + y && self.cells_seq()[j].1 == a.0 + a.1 - x;
                    assert((#[trigger] r.cells_seq()[j]).0 == x && r.cells_seq()[j].1 == y);
                }
            }
        }
        r
    }

    /// Remove every cell on row `y` and let the rows above it fall one
    /// step down.
    /// Remove every cell on row `y` and let the rows above it fall one
    /// step down.
    pub fn remove_line(&mut self, y: i32)
        ensures
            final(self).spec_kind() == old(self).spec_kind(),
            final(self).spec_anchor() == old(self).spec_anchor(),
            forall|ax: int, ay: int|
                final(self).covers(ax, ay) <==> ((ay > y && old(self).covers(ax, ay)) || (ay <= y
                    && old(self).covers(ax, ay - 1))),
    {
        let mut cells: Vec<Pos> = Vec::new();
        let mut k: usize = 0;
        while k < self.cells.len()
            invariant
                *self == *old(self),
                k <= self.cells@.len(),
                cells@ == removed_cells(old(self).cells_seq().take(k as int), y),
            decreases self.cells@.len() - k,
        {
            let ghost oc = old(self).cells_seq();
            let c = self.cells[k];
            proof {
                assert(oc[k as int] == c);
                assert(oc.take(k as int + 1).drop_last() =~= oc.take(k as int));
                assert(oc.take(k as int + 1).last() == c);
            }
            if c.1 != y {
                if c.1 < y {
                    cells.push(Pos(c.0, c.1 + 1));
                } else {
                    cells.push(Pos(c.0, c.1));
                }
                proof {
                    assert(line_image(c, y) == if c.1 < y {
                        Pos(c.0, (c.1 + 1) as i32)
                    } else {
                        c
                    });
                }
            }
            k += 1;
        }
        proof {
            assert(old(self).cells_seq().take(self.cells@.len() as int) =~= old(self).cells_seq());
        }
        self.cells = cells;
        proof {
            assert forall|ax: int, ay: int|
                self.covers(ax, ay) <==> ((ay > y && old(self).covers(ax, ay)) || (ay <= y && old(self).covers(ax, ay - 1))) by {
                lemma_removed_covers(old(self).cells_seq(), y, ax, ay);
            }
        }
    }
}

/// Every cell of row `y` is present in `cov`.
pub open spec fn row_full(cov: Set<(int, int)>, w: int, y: int) -> bool {
    forall|x: int| 0 <= x < w ==> cov.contains((x, y))
}

/// The falling-block board: dimensions, the falling shape, the shapes
/// already settled, and whether the game has been lost.
#[derive(Debug)]
pub struct Tetris {
    width: i32,
    height: i32,
    current_shape: Shape,
    fixed_shapes: Vec<Shape>,
    lost: bool,
}

impl Tetris {
    /// The board width, as a mathematical integer.
    pub closed spec fn spec_width(self) -> int {
        self.width as int
    }

    /// The board height, as a mathematical integer.
    pub closed spec fn spec_height(self) -> int {
        self.height as int
    }

    /// Whether the game has been lost.
    pub closed spec fn spec_lost(self) -> bool {
        self.lost
    }

    /// The falling shape.
    pub closed spec fn current(self) -> Shape {
        self.current_shape
    }

    /// The settled shapes.
    pub closed spec fn fixed(self) -> Seq<Shape> {
        self.fixed_shapes@
    }

    /// Whether `(x, y)` lies on the board.
    pub open spec fn in_grid(self, x: int, y: int) -> bool {
        0 <= x < self.spec_width() && 0 <= y < self.spec_height()
    }

    /// Whether some settled shape occupies `(x, y)`.
    pub open spec fn fixed_covers(self, x: int, y: int) -> bool {
        exists|j: int| 0 <= j < self.fixed().len() && (#[trigger] self.fixed()[j]).covers(x, y)
    }

    /// Whether the falling shape occupies `(x, y)`.
    pub open spec fn current_covers(self, x: int, y: int) -> bool {
        self.current().covers(x, y)
    }

    /// The settled coverage as a set of cells.
    pub open spec fn fixed_cells(self) -> Set<(int, int)> {
        Set::new(|c: (int, int)| self.fixed_covers(c.0, c.1))
    }

    /// A shape sits fully on the board and overlaps no settled shape.
    pub open spec fn can_place(self, s: Shape) -> bool {
        &&& forall|x: int, y: int| s.covers(x, y) ==> self.in_grid(x, y)
        &&& !exists|x: int, y: int| s.covers(x, y) && self.fixed_covers(x, y)
    }

    /// The falling shape is exactly a spawn of kind `k` centered on a
    /// board of width `w`.
    pub open spec fn current_is_spawn(self) -> bool {
        exists|k: int|
            0 <= k < 7 && self.current().spec_kind() == k && self.current().spec_anchor().0
                == spawn_anchor(k).0 + (self.spec_width() - 1) / 2 && self.current().spec_anchor().1
                == spawn_anchor(k).1 && self.current().cells_seq().len() == 4 && (forall|j: int|
                0 <= j < 4 ==> (#[trigger] self.current().cells_seq()[j]).0 == spawn_cells(k)[j].0
                    + (self.spec_width() - 1) / 2 && self.current().cells_seq()[j].1 == spawn_cells(
                    k,
                )[j].1)
    }

    /// Everything the board invariant asks except that the falling shape
    /// be clear of the settled ones: bounded positive dimensions, a
    /// well-formed falling shape near the board, and settled shapes on the
    /// board and pairwise disjoint.
    pub open spec fn fixed_ok(self) -> bool {
        &&& 0 < self.spec_width() <= MAX_DIM
        &&& 0 < self.spec_height() <= MAX_DIM
        &&& self.current().well_formed()
        &&& self.current().cells_seq().len() == 4
        &&& self.current().cells_in_box(-4, MAX_DIM + 4)
        &&& self.current().anchored(3)
        &&& (forall|j: int| 0 <= j < self.fixed().len() ==> (#[trigger] self.fixed()[j]).well_formed())
        &&& (forall|j: int, x: int, y: int|
            0 <= j < self.fixed().len() && (#[trigger] self.fixed()[j].covers(x, y))
                ==> self.in_grid(x, y))
        &&& (forall|j1: int, j2: int, x: int, y: int|
            0 <= j1 < j2 < self.fixed().len() ==> !((#[trigger] self.fixed()[j1].covers(x, y)) && (
            #[trigger] self.fixed()[j2].covers(x, y))))
    }

    /// The board's internal invariant: `fixed_ok`, and, until the game is
    /// lost, a falling shape that overlaps nothing settled.
    pub open spec fn well_formed(self) -> bool {
        &&& self.fixed_ok()
        &&& (!self.spec_lost() ==> !(exists|x: int, y: int|
            self.current_covers(x, y) && self.fixed_covers(x, y)))
        &&& (!self.spec_lost() ==> (forall|x: int, y: int|
            self.current_covers(x, y) ==> self.in_grid(x, y)))
    }

    /// Whether the game has been lost.
    pub fn is_lost(&self) -> (r: bool)
        ensures
            r == self.spec_lost(),
    {
        self.lost
    }

    /// A fresh board with a random shape spawned at the top center.
    pub fn new(width: u32, height: u32) -> (r: Tetris)
        requires
            0 < width <= 0x10000000,
            0 < height <= 0x10000000,
        ensures
            r.well_formed(),
            r.spec_width() == width,
            r.spec_height() == height,
            r.fixed().len() == 0,
            r.current_is_spawn(),
    {
        let w = width as i32;
        let h = height as i32;
        let fresh = Shape::new_random();
        proof {
            vstd::arithmetic::div_mod::lemma_fundamental_div_mod(w as int - 1, 2);
            vstd::arithmetic::div_mod::lemma_mod_bound(w as int - 1, 2);
            assert(0 <= (w as int - 1) / 2 <= w as int - 1);
        }
        let spawned = fresh.translated((w - 1) / 2, 0);
        let mut r = Tetris { width: w, height: h, current_shape: spawned, fixed_shapes: Vec::new(), lost: false };
        if r.is_out_of_bounds(&r.current_shape) {
            r.lost = true;
        }
        proof {
            assert(r.current_is_spawn()) by {
                let k = fresh.spec_kind() as int;
                assert(r.current().spec_kind() == k && r.current().spec_anchor().0 == spawn_anchor(
                    k,
                ).0 + (r.spec_width() - 1) / 2 && r.current().spec_anchor().1 == spawn_anchor(k).1
                    && r.current().cells_seq().len() == 4 && (forall|j: int|
                    0 <= j < 4 ==> (#[trigger] r.current().cells_seq()[j]).0 == spawn_cells(k)[j].0
                        + (r.spec_width() - 1) / 2 && r.current().cells_seq()[j].1 == spawn_cells(
                        k,
                    )[j].1));
            }
        }
        r
    }

    /// Every board cell, row-major.
    pub fn iter_positions(&self) -> (r: Vec<Pos>)
        requires
            self.well_formed(),
        ensures
            r@.len() == self.spec_width() * self.spec_height(),
            forall|xx: int, yy: int|
                0 <= xx < self.spec_width() && 0 <= yy < self.spec_height() ==> (#[trigger] r@[yy
                    * self.spec_width() + xx]).0 == xx && r@[yy * self.spec_width() + xx].1 == yy,
    {
        let mut r: Vec<Pos> = Vec::new();
        let mut y: i32 = 0;
        while y < self.height
            invariant
                self.well_formed(),
                0 <= y <= self.spec_height(),
                r@.len() == y * self.spec_width(),
                forall|xx: int, yy: int|
                    0 <= xx < self.spec_width() && 0 <= yy < y ==> (#[trigger] r@[yy
                        * self.spec_width() + xx]).0 == xx && r@[yy * self.spec_width() + xx].1
                        == yy,
            decreases self.spec_height() - y,
        {
            let mut x: i32 = 0;
            while x < self.width
                invariant
                    self.well_formed(),
                    0 <= y < self.spec_height(),
                    0 <= x <= self.spec_width(),
                    r@.len() == y * self.spec_width() + x,
                    forall|xx: int, yy: int|
                        0 <= xx < self.spec_width() && 0 <= yy < y ==> (#[trigger] r@[yy
                            * self.spec_width() + xx]).0 == xx && r@[yy * self.spec_width() + xx].1
                            == yy,
                    forall|xx: int|
                        0 <= xx < x ==> (#[trigger] r@[y * self.spec_width() + xx]).0 == xx && r@[y
                            * self.spec_width() + xx].1 == y,
                decreases self.spec_width() - x,
            {
                r.push(Pos(x, y));
                proof {
                    let w = self.spec_width();
                    assert forall|xx: int, yy: int|
                        0 <= xx < w && 0 <= yy < y implies ((#[trigger] r@[yy * w + xx]).0 == xx
                        && r@[yy * w + xx].1 == yy) by {
                        assert(yy * w + xx < y * w) by (nonlinear_arith)
                            requires
                                0 <= xx < w,
                                0 <= yy,
                                yy < y,
                        ;
                    }
                }
                x += 1;
            }
            proof {
                assert((y + 1) * self.spec_width() == y * self.spec_width() + self.spec_width())
                    by (nonlinear_arith);
            }
            y += 1;
        }
        proof {
            assert(self.spec_height() * self.spec_width() == self.spec_width()
                * self.spec_height()) by (nonlinear_arith);
        }
        r
    }

    /// The tag of the shape covering `pos`, the falling shape first, or
    /// `None` for an empty cell.
    pub fn get(&self, pos: Pos) -> (r: Option<&'static str>)
        requires
            self.well_formed(),
        ensures
            (r is Some) <==> (self.current_covers(pos.0 as int, pos.1 as int) || self.fixed_covers(
                pos.0 as int,
                pos.1 as int,
            )),
    {
        if self.current_shape.has_position(pos) {
            let t = self.current_shape.typ();
            return Some(t);
        }
        let mut j: usize = 0;
        while j < self.fixed_shapes.len()
            invariant
                self.well_formed(),
                j <= self.fixed().len(),
                forall|m: int|
                    0 <= m < j ==> !(#[trigger] self.fixed()[m]).covers(
                        pos.0 as int,
                        pos.1 as int,
                    ),
            decreases self.fixed().len() - j,
        {
            if self.fixed_shapes[j].has_position(pos) {
                let t = self.fixed_shapes[j].typ();
                proof {
                    assert(self.fixed()[j as int].covers(pos.0 as int, pos.1 as int));
                    assert(t@ == glyph(self.fixed()[j as int].spec_kind() as int));
                }
                return Some(t);
            }
            j += 1;
        }
        None
    }

    /// Whether some cell of `shape` falls outside the board.
    pub fn is_out_of_bounds(&self, shape: &Shape) -> (r: bool)
        requires
            self.fixed_ok(),
        ensures
            r == !(forall|x: int, y: int| shape.covers(x, y) ==> self.in_grid(x, y)),
    {
        let cells = shape.positions();
        let mut k: usize = 0;
        while k < cells.len()
            invariant
                self.fixed_ok(),
                k <= cells@.len(),
                cells@ == shape.cells_seq(),
                forall|j: int|
                    0 <= j < k ==> self.in_grid(
                        (#[trigger] cells@[j]).0 as int,
                        cells@[j].1 as int,
                    ),
            decreases cells@.len() - k,
        {
            let c = cells[k];
            proof {
                assert(shape.cells_seq()[k as int] == c);
            }
            if c.0 < 0 || c.0 >= self.width || c.1 < 0 || c.1 >= self.height {
                proof {
                    assert(shape.covers(c.0 as int, c.1 as int));
                }
                return true;
            }
            k += 1;
        }
        proof {
            assert forall|x: int, y: int| shape.covers(x, y) implies self.in_grid(x, y) by {
                let j = choose|j: int|
                    0 <= j < shape.cells_seq().len() && (#[trigger] shape.cells_seq()[j]).0 == x
                        && shape.cells_seq()[j].1 == y;
                assert(self.in_grid(cells@[j].0 as int, cells@[j].1 as int));
            }
        }
        false
    }

    /// Whether `shape` overlaps some settled shape.
    pub fn is_colliding(&self, shape: &Shape) -> (r: bool)
        requires
            self.fixed_ok(),
        ensures
            r == exists|x: int, y: int| shape.covers(x, y) && self.fixed_covers(x, y),
    {
        let mut j: usize = 0;
        while j < self.fixed_shapes.len()
            invariant
                self.fixed_ok(),
                j <= self.fixed().len(),
                forall|m: int|
                    0 <= m < j ==> !exists|x: int, y: int|
                        shape.covers(x, y) && (#[trigger] self.fixed()[m]).covers(x, y),
            decreases self.fixed().len() - j,
        {
            if shape.collides_with(&self.fixed_shapes[j]) {
                proof {
                    let (x, y) = choose|x: int, y: int|
                        shape.covers(x, y) && self.fixed()[j as int].covers(x, y);
                    assert(self.fixed_covers(x, y));
                }
                return true;
            }
            j += 1;
        }
        proof {
            if exists|x: int, y: int| shape.covers(x, y) && self.fixed_covers(x, y) {
                let (x, y) = choose|x: int, y: int| shape.covers(x, y) && self.fixed_covers(x, y);
                let m = choose|m: int|
                    0 <= m < self.fixed().len() && (#[trigger] self.fixed()[m]).covers(x, y);
                assert(!exists|x2: int, y2: int|
                    shape.covers(x2, y2) && (#[trigger] self.fixed()[m]).covers(x2, y2));
            }
        }
        false
    }

    /// Whether every cell of row `y` is settled.
    pub fn is_line_full(&self, y: i32) -> (r: bool)
        requires
            self.fixed_ok(),
            0 <= y < self.spec_height(),
        ensures
            r == row_full(self.fixed_cells(), self.spec_width(), y as int),
    {
        let mut x: i32 = 0;
        while x < self.width
            invariant
                self.fixed_ok(),
                0 <= x <= self.spec_width(),
                0 <= y < self.spec_height(),
                forall|xx: int| 0 <= xx < x ==> self.fixed_cells().contains((xx, y as int)),
            decreases self.spec_width() - x,
        {
            if !self.fixed_covers_at(Pos(x, y)) {
                proof {
                    assert(!self.fixed_cells().contains((x as int, y as int)));
                }
                return false;
            }
            x += 1;
        }
        true
    }

    fn fixed_covers_at(&self, pos: Pos) -> (r: bool)
        requires
            self.fixed_ok(),
        ensures
            r == self.fixed_covers(pos.0 as int, pos.1 as int),
    {
        let mut j: usize = 0;
        while j < self.fixed_shapes.len()
            invariant
                self.fixed_ok(),
                j <= self.fixed().len(),
                forall|m: int|
                    0 <= m < j ==> !(#[trigger] self.fixed()[m]).covers(
                        pos.0 as int,
                        pos.1 as int,
                    ),
            decreases self.fixed().len() - j,
        {
            if self.fixed_shapes[j].has_position(pos) {
                return true;
            }
            j += 1;
        }
        false
    }

    /// The falling shape can move one row down: it stays on the board and
    /// hits nothing settled.
    pub open spec fn can_descend(self) -> bool {
        &&& (forall|x: int, y: int| self.current_covers(x, y) ==> self.in_grid(x, y + 1))
        &&& !(exists|x: int, y: int| self.current_covers(x, y) && self.fixed_covers(x, y + 1))
    }

    /// The falling shape can move one column sideways.
    pub open spec fn can_shift(self, dx: int) -> bool {
        &&& (forall|x: int, y: int| self.current_covers(x, y) ==> self.in_grid(x + dx, y))
        &&& !(exists|x: int, y: int| self.current_covers(x, y) && self.fixed_covers(x + dx, y))
    }

    /// Remove row `y` from every settled shape.
    #[verifier::rlimit(60)]
    fn remove_line(&mut self, y: i32)
        requires
            old(self).fixed_ok(),
            0 <= y < old(self).spec_height(),
        ensures
            final(self).fixed_ok(),
            final(self).spec_width() == old(self).spec_width(),
            final(self).spec_height() == old(self).spec_height(),
            final(self).current() == old(self).current(),
            final(self).spec_lost() == old(self).spec_lost(),
            forall|ax: int, ay: int|
                final(self).fixed_covers(ax, ay) <==> ((ay > y && old(self).fixed_covers(ax, ay))
                    || (ay <= y && old(self).fixed_covers(ax, ay - 1))),
    {
        let ghost n = old(self).fixed().len();
        proof {
            assert(old(self).fixed().take(n as int) =~= old(self).fixed());
        }
        let mut done: Vec<Shape> = Vec::new();
        while self.fixed_shapes.len() > 0
            invariant
                0 <= y < old(self).spec_height(),
                old(self).fixed_ok(),
                self.width == old(self).width,
                self.height == old(self).height,
                self.current_shape == old(self).current_shape,
                self.lost == old(self).lost,
                n == old(self).fixed().len(),
                self.fixed_shapes@ == old(self).fixed().take(self.fixed_shapes@.len() as int),
                done@.len() == n - self.fixed_shapes@.len(),
                forall|j: int|
                    0 <= j < done@.len() ==> (#[trigger] done@[j]).spec_kind() == old(self).fixed()[n - 1 - j].spec_kind(),
                forall|j: int, ax: int, ay: int|
                    0 <= j < done@.len() ==> ((#[trigger] done@[j].covers(ax, ay)) <==> ((ay > y
                        && old(self).fixed()[n - 1 - j].covers(ax, ay)) || (ay <= y && old(self).fixed()[n - 1 - j].covers(ax, ay - 1)))),
            decreases self.fixed_shapes@.len(),
        {
            let ghost rem = self.fixed_shapes@;
            let mut s = self.fixed_shapes.pop().unwrap();
            proof {
                assert(rem[rem.len() - 1] == old(self).fixed()[rem.len() - 1]);
                assert(self.fixed_shapes@ =~= old(self).fixed().take(self.fixed_shapes@.len() as int));
            }
            s.remove_line(y);
            done.push(s);
        }
        self.fixed_shapes = done;
        proof {
            assert forall|ax: int, ay: int|
                self.fixed_covers(ax, ay) <==> ((ay > y && old(self).fixed_covers(ax, ay)) || (ay
                    <= y && old(self).fixed_covers(ax, ay - 1))) by {
                if self.fixed_covers(ax, ay) {
                    let j = choose|j: int|
                        0 <= j < self.fixed().len() && (#[trigger] self.fixed()[j]).covers(ax, ay);
                    assert(old(self).fixed()[n - 1 - j].covers(ax, ay) || old(self).fixed()[n - 1
                        - j].covers(ax, ay - 1));
                }
                if ay > y && old(self).fixed_covers(ax, ay) {
                    let m = choose|m: int|
                        0 <= m < old(self).fixed().len() && (#[trigger] old(self).fixed()[m]).covers(
                            ax,
                            ay,
                        );
                    assert(self.fixed()[n - 1 - m].covers(ax, ay));
                    assert(self.fixed_covers(ax, ay));
                }
                if ay <= y && old(self).fixed_covers(ax, ay - 1) {
                    let m = choose|m: int|
                        0 <= m < old(self).fixed().len() && (#[trigger] old(self).fixed()[m]).covers(
                            ax,
                            ay - 1,
                        );
                    assert(self.fixed()[n - 1 - m].covers(ax, ay));
                    assert(self.fixed_covers(ax, ay));
                }
            }
            assert forall|j: int, x: int, y2: int|
                0 <= j < self.fixed().len() && (#[trigger] self.fixed()[j].covers(x, y2)) implies
                self.in_grid(x, y2) by {
                assert(old(self).fixed()[n - 1 - j].covers(x, y2) || old(self).fixed()[n - 1
                    - j].covers(x, y2 - 1));
            }
            assert forall|j1: int, j2: int, x: int, y2: int|
                0 <= j1 < j2 < self.fixed().len() implies !((#[trigger] self.fixed()[j1].covers(
                x,
                y2,
            )) && (#[trigger] self.fixed()[j2].covers(x, y2))) by {
                if self.fixed()[j1].covers(x, y2) && self.fixed()[j2].covers(x, y2) {
                    if y2 > y {
                        assert(old(self).fixed()[n - 1 - j1].covers(x, y2) && old(self).fixed()[n - 1 - j2].covers(x, y2));
                    } else {
                        assert(old(self).fixed()[n - 1 - j1].covers(x, y2 - 1) && old(self).fixed()[n - 1 - j2].covers(x, y2 - 1));
                    }
                }
            }
        }
    }

    /// Clear every full row, scanning from the top of the board down.
    fn remove_full_lines(&mut self)
        requires
            old(self).fixed_ok(),
        ensures
            final(self).fixed_ok(),
            final(self).spec_width() == old(self).spec_width(),
            final(self).spec_height() == old(self).spec_height(),
            final(self).current() == old(self).current(),
            final(self).spec_lost() == old(self).spec_lost(),
    {
        let mut y: i32 = 0;
        while y < self.height
            invariant
                self.fixed_ok(),
                0 <= y <= self.spec_height(),
                self.width == old(self).width,
                self.height == old(self).height,
                self.current_shape == old(self).current_shape,
                self.lost == old(self).lost,
            decreases self.spec_height() - y,
        {
            let full = self.is_line_full(y);
            if full {
                self.remove_line(y);
            }
            y += 1;
        }
    }

    /// One step of the game clock: move the falling shape one row down, or
    /// settle it, clear full rows, and spawn a new shape, losing the game
    /// if the new shape overlaps the settled cells.
    pub fn tick(&mut self)
        requires
            old(self).well_formed(),
        ensures
            final(self).well_formed(),
            final(self).spec_width() == old(self).spec_width(),
            final(self).spec_height() == old(self).spec_height(),
            old(self).spec_lost() ==> *final(self) == *old(self),
            (!old(self).spec_lost() && old(self).can_descend()) ==> (final(self).fixed() == old(self).fixed() && !final(self).spec_lost() && (forall|x: int, y: int|
                final(self).current_covers(x, y) <==> old(self).current_covers(x, y - 1))),
            (!old(self).spec_lost() && !old(self).can_descend()) ==> final(self).current_is_spawn(),
    {
        if self.lost {
            return ;
        }
        proof {
            let c0 = self.current().cells_seq()[0];
            assert(-7 <= self.current().spec_anchor().0 <= MAX_DIM + 7);
            assert(-7 <= self.current().spec_anchor().1 <= MAX_DIM + 7);
        }
        let cand = self.current_shape.translated(0, 1);
        let oob = self.is_out_of_bounds(&cand);
        let col = self.is_colliding(&cand);
        proof {
            assert(!oob <==> (forall|x: int, y: int|
                self.current_covers(x, y) ==> self.in_grid(x, y + 1))) by {
                if !oob {
                    assert forall|x: int, y: int|
                        self.current_covers(x, y) implies self.in_grid(x, y + 1) by {
                        assert(cand.covers(x, y + 1));
                    }
                } else {
                    let (x, y) = choose|x: int, y: int| cand.covers(x, y) && !self.in_grid(x, y);
                    assert(self.current_covers(x, y - 1));
                }
            }
            assert(col <==> (exists|x: int, y: int|
                self.current_covers(x, y) && self.fixed_covers(x, y + 1))) by {
                if col {
                    let (x, y) = choose|x: int, y: int| cand.covers(x, y) && self.fixed_covers(x, y);
                    assert(self.current_covers(x, y - 1) && self.fixed_covers(x, y));
                }
                if exists|x: int, y: int| self.current_covers(x, y) && self.fixed_covers(x, y + 1) {
                    let (x, y) = choose|x: int, y: int|
                        self.current_covers(x, y) && self.fixed_covers(x, y + 1);
                    assert(cand.covers(x, y + 1));
                }
            }
        }
        if !oob && !col {
            self.current_shape = cand;
            proof {
                assert forall|k: int|
                    0 <= k < self.current().cells_seq().len() implies -4 <= (
                #[trigger] self.current().cells_seq()[k]).0 <= MAX_DIM + 4 && -4
                    <= self.current().cells_seq()[k].1 <= MAX_DIM + 4 by {
                    let c = self.current().cells_seq()[k];
                    assert(self.current().covers(c.0 as int, c.1 as int));
                    assert(self.in_grid(c.0 as int, c.1 as int));
                }
            }
            return ;
        }
        let fresh = Shape::new_random();
        proof {
            vstd::arithmetic::div_mod::lemma_fundamental_div_mod(self.width as int - 1, 2);
            vstd::arithmetic::div_mod::lemma_mod_bound(self.width as int - 1, 2);
            assert(0 <= (self.width as int - 1) / 2 <= self.width as int - 1);
        }
        let off = (self.width - 1) / 2;
        let mut prev = fresh.translated(off, 0);
        core::mem::swap(&mut self.current_shape, &mut prev);
        self.fixed_shapes.push(prev);
        proof {
            let nf = self.fixed().len();
            assert forall|j: int, x: int, y: int|
                0 <= j < nf && (#[trigger] self.fixed()[j].covers(x, y)) implies self.in_grid(
                x,
                y,
            ) by {
                if j < nf - 1 {
                    assert(old(self).fixed()[j].covers(x, y));
                } else {
                    assert(old(self).current_covers(x, y));
                }
            }
            assert forall|j1: int, j2: int, x: int, y: int|
                0 <= j1 < j2 < nf implies !((#[trigger] self.fixed()[j1].covers(x, y)) && (
            #[trigger] self.fixed()[j2].covers(x, y))) by {
                if j2 == nf - 1 {
                    if self.fixed()[j1].covers(x, y) && self.fixed()[j2].covers(x, y) {
                        assert(old(self).fixed()[j1].covers(x, y));
                        assert(old(self).current_covers(x, y) && old(self).fixed_covers(x, y));
                    }
                } else {
                    if self.fixed()[j1].covers(x, y) && self.fixed()[j2].covers(x, y) {
                        assert(old(self).fixed()[j1].covers(x, y) && old(self).fixed()[j2].covers(
                            x,
                            y,
                        ));
                    }
                }
            }
        }
        self.remove_full_lines();
        let badspawn = self.is_out_of_bounds(&self.current_shape);
        let relost = self.is_colliding(&self.current_shape);
        if badspawn || relost {
            self.lost = true;
        }
        proof {
            assert(self.current_is_spawn()) by {
                let k = fresh.spec_kind() as int;
                assert(self.current().spec_kind() == k && self.current().spec_anchor().0
                    == spawn_anchor(k).0 + (self.spec_width() - 1) / 2
                    && self.current().spec_anchor().1 == spawn_anchor(k).1
                    && self.current().cells_seq().len() == 4 && (forall|j: int|
                    0 <= j < 4 ==> (#[trigger] self.current().cells_seq()[j]).0 == spawn_cells(
                        k,
                    )[j].0 + (self.spec_width() - 1) / 2 && self.current().cells_seq()[j].1
                        == spawn_cells(k)[j].1));
            }
        }
    }

    /// Shift the falling shape one column left or right, when the game is
    /// running and the moved shape stays on the board and clear of the
    /// settled cells; otherwise do nothing.
    pub fn shift(&mut self, direction: Direction)
        requires
            old(self).well_formed(),
        ensures
            final(self).well_formed(),
            final(self).spec_width() == old(self).spec_width(),
            final(self).spec_height() == old(self).spec_height(),
            final(self).fixed() == old(self).fixed(),
            final(self).spec_lost() == old(self).spec_lost(),
            old(self).spec_lost() ==> *final(self) == *old(self),
            ({
                let dx: int = if direction == Direction::Left {
                    -1
                } else {
                    1
                };
                if !old(self).spec_lost() && old(self).can_shift(dx) {
                    forall|x: int, y: int|
                        final(self).current_covers(x, y) <==> old(self).current_covers(x - dx, y)
                } else {
                    *final(self) == *old(self)
                }
            }),
    {
        if self.lost {
            return ;
        }
        let dx: i32 = match direction {
            Direction::Left => -1,
            Direction::Right => 1,
        };
        proof {
            let c0 = self.current().cells_seq()[0];
            assert(-7 <= self.current().spec_anchor().0 <= MAX_DIM + 7);
            assert(-7 <= self.current().spec_anchor().1 <= MAX_DIM + 7);
        }
        let cand = self.current_shape.translated(dx, 0);
        let oob = self.is_out_of_bounds(&cand);
        let col = self.is_colliding(&cand);
        proof {
            assert(!oob <==> (forall|x: int, y: int|
                self.current_covers(x, y) ==> self.in_grid(x + dx, y))) by {
                if !oob {
                    assert forall|x: int, y: int|
                        self.current_covers(x, y) implies self.in_grid(x + dx, y) by {
                        assert(cand.covers(x + dx, y));
                    }
                } else {
                    let (x, y) = choose|x: int, y: int| cand.covers(x, y) && !self.in_grid(x, y);
                    assert(self.current_covers(x - dx, y));
                }
            }
            assert(col <==> (exists|x: int, y: int|
                self.current_covers(x, y) && self.fixed_covers(x + dx, y))) by {
                if col {
                    let (x, y) = choose|x: int, y: int| cand.covers(x, y) && self.fixed_covers(x, y);
                    assert(self.current_covers(x - dx, y) && self.fixed_covers(x, y));
                }
                if exists|x: int, y: int| self.current_covers(x, y) && self.fixed_covers(x + dx, y) {
                    let (x, y) = choose|x: int, y: int|
                        self.current_covers(x, y) && self.fixed_covers(x + dx, y);
                    assert(cand.covers(x + dx, y));
                }
            }
        }
        if !oob && !col {
            self.current_shape = cand;
            proof {
                assert forall|k: int|
                    0 <= k < self.current().cells_seq().len() implies -4 <= (
                #[trigger] self.current().cells_seq()[k]).0 <= MAX_DIM + 4 && -4
                    <= self.current().cells_seq()[k].1 <= MAX_DIM + 4 by {
                    let c = self.current().cells_seq()[k];
                    assert(self.current().covers(c.0 as int, c.1 as int));
                    assert(self.in_grid(c.0 as int, c.1 as int));
                }
            }
        }
    }

    /// Turn the falling shape a quarter turn clockwise about its anchor,
    /// when the game is running and the turned shape stays on the board
    /// and clear of the settled cells; otherwise do nothing.
    pub fn rotate(&mut self)
        requires
            old(self).well_formed(),
        ensures
            final(self).spec_width() == old(self).spec_width(),
            final(self).spec_height() == old(self).spec_height(),
            final(self).fixed() == old(self).fixed(),
            final(self).spec_lost() == old(self).spec_lost(),
            old(self).spec_lost() ==> *final(self) == *old(self),
            (*final(self) == *old(self)) || (!old(self).spec_lost() && final(self).current().spec_anchor() == old(self).current().spec_anchor() && final(self).current().spec_kind() == old(self).current().spec_kind() && (forall|x: int, y: int|
                final(self).current_covers(x, y) ==> final(self).in_grid(x, y))),
    {
        if self.lost {
            return ;
        }
        proof {
            let c0 = self.current().cells_seq()[0];
            assert(-7 <= self.current().spec_anchor().0 <= MAX_DIM + 7);
            assert(-7 <= self.current().spec_anchor().1 <= MAX_DIM + 7);
            assert(self.current_shape.in_box(-0x20000000, 0x20000000));
        }
        let cand = self.current_shape.rotated();
        proof {
            assert(cand.well_formed());
            assert(cand.cells_seq().len() == 4);
            assert(cand.anchored(3));
        }
        let oob = self.is_out_of_bounds(&cand);
        let col = self.is_colliding(&cand);
        if !oob && !col {
            self.current_shape = cand;
            proof {
                assert forall|k: int|
                    0 <= k < self.current().cells_seq().len() implies -4 <= (
                #[trigger] self.current().cells_seq()[k]).0 <= MAX_DIM + 4 && -4
                    <= self.current().cells_seq()[k].1 <= MAX_DIM + 4 by {
                    let c = self.current().cells_seq()[k];
                    assert(self.current().covers(c.0 as int, c.1 as int));
                    assert(self.in_grid(c.0 as int, c.1 as int));
                }
            }
        }
    }
}

} // verus!

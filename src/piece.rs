//! A single tetromino: one table of cell offsets per orientation, an anchor
//! on the board, and the index of the orientation in use.

use vstd::arithmetic::div_mod::{lemma_mod_self_0, lemma_small_mod};
use vstd::prelude::*;

verus! {

/// Offset of one occupied square, relative to its shape's anchor.
#[derive(Clone, Copy, Debug, PartialEq, Eq, Structural)]
pub struct Cell {
    pub x: u32,
    pub y: u32,
}

/// Largest row offset among `cells`, or 0 when there are none.
pub open spec fn max_dy(cells: Seq<Cell>) -> nat
    decreases cells.len(),
{
    if cells.len() == 0 {
        0
    } else {
        let rest = max_dy(cells.drop_last());
        if cells.last().y as nat > rest {
            cells.last().y as nat
        } else {
            rest
        }
    }
}

/// Mathematical model of a shape.
pub struct ShapeView {
    pub x: int,
    pub y: int,
    pub tables: Seq<Seq<Cell>>,
    pub orientation: int,
    pub colour: u32,
}

impl ShapeView {
    /// The anchor is on the non-negative quadrant, there is at least one
    /// orientation, and the index points at one of them.
    pub open spec fn wf(self) -> bool {
        &&& 0 <= self.x && 0 <= self.y
        &&& self.tables.len() > 0
        &&& 0 <= self.orientation < self.tables.len()
    }

    /// Offsets of the orientation in use.
    pub open spec fn current(self) -> Seq<Cell> {
        self.tables[self.orientation]
    }

    /// The shape covers the absolute square `(col, row)`.
    pub open spec fn occupies(self, col: int, row: int) -> bool {
        exists|i: int|
            0 <= i < self.current().len() && self.x + self.current()[i].x == col && self.y
                + self.current()[i].y == row
    }

    /// Largest absolute row among the covered squares; the anchor row when
    /// nothing is covered.
    pub open spec fn lowest(self) -> int {
        self.y + max_dy(self.current())
    }

    /// Every covered square lies in a column left of `width`, and so does
    /// the anchor.
    pub open spec fn within(self, width: int) -> bool {
        &&& self.x < width
        &&& forall|i: int|
            0 <= i < self.current().len() ==> self.x + #[trigger] self.current()[i].x < width
    }

    /// The same shape in its next orientation, wrapping round to the first.
    pub open spec fn rotated(self) -> ShapeView {
        ShapeView { orientation: (self.orientation + 1) % (self.tables.len() as int), ..self }
    }

    /// The same shape with its anchor moved by `(dx, dy)`.
    pub open spec fn translated(self, dx: int, dy: int) -> ShapeView {
        ShapeView { x: self.x + dx, y: self.y + dy, ..self }
    }

    /// Which offsets survive when row `row` is cleared: those whose square
    /// lies neither on that row nor on or past `floor`, the last row, from
    /// which the shift would push them off the board.
    pub open spec fn keeps(self, row: int, floor: int) -> spec_fn(Cell) -> bool {
        |c: Cell| self.y + c.y != row && self.y + c.y < floor
    }

    /// Offsets of the orientation in use that survive the clearing of `row`.
    pub open spec fn remaining(self, row: int, floor: int) -> Seq<Cell> {
        self.current().filter(self.keeps(row, floor))
    }

    /// The shape after row `row` of a board whose last row is `floor` has
    /// been cleared: the squares on that row (and those the shift would push
    /// past the floor) are gone, and what is left moves one row down. When
    /// squares were lost, the surviving ones become the shape's only
    /// orientation, so that no other orientation keeps a stale copy of them.
    /// A shape left with no square keeps its anchor.
    pub open spec fn without_row(self, row: int, floor: int) -> ShapeView {
        let rest = self.remaining(row, floor);
        let lost = rest.len() < self.current().len();
        ShapeView {
            x: self.x,
            y: if rest.len() > 0 {
                self.y + 1
            } else {
                self.y
            },
            tables: if lost {
                seq![rest]
            } else {
                self.tables
            },
            orientation: if lost {
                0
            } else {
                self.orientation
            },
            colour: self.colour,
        }
    }
}

/// Two shapes cover a common square.
pub open spec fn overlap(a: ShapeView, b: ShapeView) -> bool {
    exists|i: int, j: int|
        0 <= i < a.current().len() && 0 <= j < b.current().len() && a.x + (
        #[trigger] a.current()[i]).x == b.x + (#[trigger] b.current()[j]).x && a.y
            + a.current()[i].y == b.y + b.current()[j].y
}

/// Overlap does not depend on the order of the two shapes.
pub proof fn lemma_overlap_symmetric(a: ShapeView, b: ShapeView)
    ensures
        overlap(a, b) == overlap(b, a),
{
    if overlap(a, b) {
        let (i, j) = choose|i: int, j: int|
            0 <= i < a.current().len() && 0 <= j < b.current().len() && a.x + (
            #[trigger] a.current()[i]).x == b.x + (#[trigger] b.current()[j]).x && a.y
                + a.current()[i].y == b.y + b.current()[j].y;
        assert(0 <= j < b.current().len() && 0 <= i < a.current().len() && b.x + b.current()[j].x
            == a.x + a.current()[i].x && b.y + b.current()[j].y == a.y + a.current()[i].y);
    }
    if overlap(b, a) {
        let (j, i) = choose|j: int, i: int|
            0 <= j < b.current().len() && 0 <= i < a.current().len() && b.x + (
            #[trigger] b.current()[j]).x == a.x + (#[trigger] a.current()[i]).x && b.y
                + b.current()[j].y == a.y + a.current()[i].y;
        assert(0 <= i < a.current().len() && 0 <= j < b.current().len() && a.x + a.current()[i].x
            == b.x + b.current()[j].x && a.y + a.current()[i].y == b.y + b.current()[j].y);
    }
}

/// Every row offset is at most `max_dy`, and a non-empty table reaches it.
pub proof fn lemma_max_dy(cells: Seq<Cell>)
    ensures
        forall|i: int| 0 <= i < cells.len() ==> #[trigger] cells[i].y <= max_dy(cells),
        cells.len() > 0 ==> exists|i: int|
            0 <= i < cells.len() && #[trigger] cells[i].y == max_dy(cells),
    decreases cells.len(),
{
    if cells.len() > 0 {
        let rest = cells.drop_last();
        lemma_max_dy(rest);
        assert forall|i: int| 0 <= i < cells.len() implies #[trigger] cells[i].y <= max_dy(
            cells,
        ) by {
            if i < cells.len() - 1 {
                assert(cells[i] == rest[i]);
            }
        }
        if cells.last().y as nat > max_dy(rest) || rest.len() == 0 {
            assert(cells[cells.len() - 1].y == max_dy(cells));
        } else {
            let k = choose|k: int| 0 <= k < rest.len() && #[trigger] rest[k].y == max_dy(rest);
            assert(cells[k] == rest[k]);
        }
    }
}

/// Two shapes overlap exactly when some square is covered by both.
pub proof fn lemma_overlap_occupies(a: ShapeView, b: ShapeView)
    ensures
        overlap(a, b) <==> exists|col: int, row: int| #[trigger]
            a.occupies(col, row) && #[trigger] b.occupies(col, row),
{
    if overlap(a, b) {
        let (i, j) = choose|i: int, j: int|
            0 <= i < a.current().len() && 0 <= j < b.current().len() && a.x + (
            #[trigger] a.current()[i]).x == b.x + (#[trigger] b.current()[j]).x && a.y
                + a.current()[i].y == b.y + b.current()[j].y;
        let col = a.x + a.current()[i].x;
        let row = a.y + a.current()[i].y;
        assert(a.occupies(col, row) && b.occupies(col, row));
    }
    if exists|col: int, row: int| #[trigger] a.occupies(col, row) && #[trigger] b.occupies(col, row) {
        let (col, row) = choose|col: int, row: int| #[trigger]
            a.occupies(col, row) && #[trigger] b.occupies(col, row);
        let i = choose|i: int|
            0 <= i < a.current().len() && a.x + a.current()[i].x == col && a.y
                + a.current()[i].y == row;
        let j = choose|j: int|
            0 <= j < b.current().len() && b.x + b.current()[j].x == col && b.y
                + b.current()[j].y == row;
        assert(a.x + a.current()[i].x == b.x + b.current()[j].x);
    }
}

/// A filter that keeps as many elements as it was given keeps every one.
proof fn lemma_filter_keeps_all(s: Seq<Cell>, p: spec_fn(Cell) -> bool)
    requires
        s.filter(p).len() == s.len(),
    ensures
        forall|i: int| 0 <= i < s.len() ==> p(#[trigger] s[i]),
    decreases s.len(),
{
    if s.len() > 0 {
        let init = s.drop_last();
        assert(s =~= init.push(s.last()));
        init.lemma_filter_push(s.last(), p);
        init.lemma_filter_len(p);
        lemma_filter_keeps_all(init, p);
        assert forall|i: int| 0 <= i < s.len() implies p(#[trigger] s[i]) by {
            if i < s.len() - 1 {
                assert(s[i] == init[i]);
            }
        }
    }
}

/// Clearing a row moves every surviving square exactly one row down: after
/// the clearing of `row`, a shape covers `(col, r)` exactly when it covered
/// `(col, r - 1)` before and that square was neither on the cleared row nor
/// on or past the floor.
pub proof fn lemma_without_row_occupies(s: ShapeView, row: int, floor: int, col: int, r: int)
    requires
        s.wf(),
    ensures
        s.without_row(row, floor).occupies(col, r) <==> (s.occupies(col, r - 1) && r - 1 != row
            && r - 1 < floor),
{
    let t = s.without_row(row, floor);
    let cur = s.current();
    let keep = s.keeps(row, floor);
    let rest = s.remaining(row, floor);
    let lost = rest.len() < cur.len();
    cur.lemma_filter_len(keep);
    if !lost {
        lemma_filter_keeps_all(cur, keep);
    }
    if s.occupies(col, r - 1) && r - 1 != row && r - 1 < floor {
        let i = choose|i: int|
            0 <= i < cur.len() && s.x + cur[i].x == col && s.y + cur[i].y == r - 1;
        cur.lemma_filter_contains(keep, i);
        let k = choose|k: int| 0 <= k < rest.len() && rest[k] == cur[i];
        if lost {
            assert(t.current() == rest);
            assert(t.x + t.current()[k].x == col && t.y + t.current()[k].y == r);
        } else {
            assert(t.x + t.current()[i].x == col && t.y + t.current()[i].y == r);
        }
    }
    if t.occupies(col, r) {
        let k = choose|k: int|
            0 <= k < t.current().len() && t.x + t.current()[k].x == col && t.y
                + t.current()[k].y == r;
        if lost {
            assert(t.current() == rest);
            cur.lemma_filter_pred(keep, k);
            cur.lemma_filter_contains_rev(keep, rest[k]);
            let i = choose|i: int| 0 <= i < cur.len() && cur[i] == rest[k];
            assert(s.x + cur[i].x == col && s.y + cur[i].y == r - 1);
        } else {
            assert(keep(cur[k]));
            assert(s.x + cur[k].x == col && s.y + cur[k].y == r - 1);
        }
    }
}

/// Clearing a row keeps a shape that lies on a board of the given width and
/// last row `floor` well formed and on that board.
pub proof fn lemma_without_row_fits(s: ShapeView, row: int, floor: int, width: int)
    requires
        s.wf(),
        s.within(width),
        s.lowest() <= floor,
    ensures
        s.without_row(row, floor).wf(),
        s.without_row(row, floor).within(width),
        s.without_row(row, floor).lowest() <= floor,
{
    let t = s.without_row(row, floor);
    let cur = s.current();
    let keep = s.keeps(row, floor);
    let rest = s.remaining(row, floor);
    let lost = rest.len() < cur.len();
    cur.lemma_filter_len(keep);
    if !lost {
        lemma_filter_keeps_all(cur, keep);
    }
    lemma_max_dy(cur);
    lemma_max_dy(t.current());
    assert forall|k: int| 0 <= k < t.current().len() implies s.x + #[trigger] t.current()[k].x
        < width && t.y + t.current()[k].y <= floor by {
        if lost {
            assert(t.current() == rest);
            cur.lemma_filter_pred(keep, k);
            cur.lemma_filter_contains_rev(keep, rest[k]);
            let i = choose|i: int| 0 <= i < cur.len() && cur[i] == rest[k];
            assert(s.x + cur[i].x < width);
        } else {
            assert(keep(cur[k]));
        }
    }
    if t.current().len() > 0 {
        let k = choose|k: int|
            0 <= k < t.current().len() && #[trigger] t.current()[k].y == max_dy(t.current());
        assert(t.y + t.current()[k].y <= floor);
    }
}

/// A tetromino on the board.
pub struct Shape {
    pub x: u32,
    pub y: u32,
    pub cells: Vec<Vec<Cell>>,
    pub orientation: usize,
    pub colour: u32,
}

impl View for Shape {
    type V = ShapeView;

    open spec fn view(&self) -> ShapeView {
        ShapeView {
            x: self.x as int,
            y: self.y as int,
            tables: self.cells@.map_values(|t: Vec<Cell>| t@),
            orientation: self.orientation as int,
            colour: self.colour,
        }
    }
}

impl Shape {
    /// A shape anchored at `(x, y)` in its first orientation; `None` when
    /// `cells` holds no orientation at all.
    pub fn new(x: u32, y: u32, cells: Vec<Vec<Cell>>, colour: u32) -> (r: Option<Shape>)
        ensures
            cells@.len() == 0 <==> r.is_none(),
            r matches Some(s) ==> {
                &&& s@.x == x && s@.y == y && s@.orientation == 0 && s@.colour == colour
                &&& s@.tables == cells@.map_values(|t: Vec<Cell>| t@)
                &&& s@.wf()
            },
    {
        if cells.len() == 0 {
            None
        } else {
            Some(Shape { x, y, cells, orientation: 0, colour })
        }
    }

    /// Offsets of the orientation in use.
    pub fn current_shape(&self) -> (r: &Vec<Cell>)
        requires
            self@.wf(),
        ensures
            r@ == self@.current(),
    {
        &self.cells[self.orientation]
    }

    /// Advances to the next orientation, wrapping round to the first.
    pub fn rotate(&mut self)
        requires
            old(self)@.wf(),
        ensures
            final(self)@ == old(self)@.rotated(),
            final(self)@.wf(),
    {
        let n = self.cells.len();
        assert(n == self@.tables.len());
        if self.orientation < n - 1 {
            self.orientation = self.orientation + 1;
            proof {
                lemma_small_mod(self.orientation as nat, n as nat);
            }
        } else {
            self.orientation = 0;
            proof {
                lemma_mod_self_0(n as int);
            }
        }
        assert(self@.tables =~= old(self)@.tables);
    }

    /// Largest absolute row the shape covers, or its anchor row when it
    /// covers nothing.
    pub fn lowest_y(&self) -> (r: u64)
        requires
            self@.wf(),
        ensures
            r == self@.lowest(),
    {
        let cur = self.current_shape();
        let mut m: u32 = 0;
        let mut i: usize = 0;
        while i < cur.len()
            invariant
                0 <= i <= cur@.len(),
                cur@ == self@.current(),
                m as nat == max_dy(cur@.subrange(0, i as int)),
            decreases cur@.len() - i,
        {
            assert(cur@.subrange(0, i + 1).drop_last() =~= cur@.subrange(0, i as int));
            if cur[i].y > m {
                m = cur[i].y;
            }
            i = i + 1;
        }
        assert(cur@.subrange(0, i as int) =~= cur@);
        self.y as u64 + m as u64
    }

    /// Whether the shape covers the absolute square `(col, row)`.
    pub fn covers(&self, col: u64, row: u64) -> (r: bool)
        requires
            self@.wf(),
        ensures
            r == self@.occupies(col as int, row as int),
    {
        let cur = self.current_shape();
        let mut i: usize = 0;
        while i < cur.len()
            invariant
                0 <= i <= cur@.len(),
                cur@ == self@.current(),
                forall|k: int|
                    0 <= k < i ==> !(self.x + (#[trigger] cur@[k]).x == col && self.y + cur@[k].y
                        == row),
            decreases cur@.len() - i,
        {
            if self.x as u64 + cur[i].x as u64 == col && self.y as u64 + cur[i].y as u64 == row {
                return true;
            }
            i = i + 1;
        }
        false
    }

    /// Whether the anchor and every covered square lie left of column `width`.
    pub fn within_width(&self, width: u32) -> (r: bool)
        requires
            self@.wf(),
        ensures
            r == self@.within(width as int),
    {
        if self.x >= width {
            return false;
        }
        let cur = self.current_shape();
        let mut i: usize = 0;
        while i < cur.len()
            invariant
                0 <= i <= cur@.len(),
                cur@ == self@.current(),
                forall|k: int| 0 <= k < i ==> self.x + (#[trigger] cur@[k]).x < width,
            decreases cur@.len() - i,
        {
            if self.x as u64 + cur[i].x as u64 >= width as u64 {
                return false;
            }
            i = i + 1;
        }
        true
    }

    /// Whether this shape and `shape` cover a common square.
    pub fn collides(&self, shape: &Shape) -> (r: bool)
        requires
            self@.wf(),
            shape@.wf(),
        ensures
            r == overlap(self@, shape@),
    {
        let mine = self.current_shape();
        let theirs = shape.current_shape();
        let mut i: usize = 0;
        while i < mine.len()
            invariant
                0 <= i <= mine@.len(),
                mine@ == self@.current(),
                theirs@ == shape@.current(),
                forall|p: int, q: int|
                    0 <= p < i && 0 <= q < theirs@.len() ==> !(self.x + (#[trigger] mine@[p]).x
                        == shape.x + (#[trigger] theirs@[q]).x && self.y + mine@[p].y == shape.y
                        + theirs@[q].y),
            decreases mine@.len() - i,
        {
            let x1 = self.x as u64 + mine[i].x as u64;
            let y1 = self.y as u64 + mine[i].y as u64;
            let mut j: usize = 0;
            while j < theirs.len()
                invariant
                    0 <= i < mine@.len(),
                    0 <= j <= theirs@.len(),
                    mine@ == self@.current(),
                    theirs@ == shape@.current(),
                    x1 == self.x + mine@[i as int].x,
                    y1 == self.y + mine@[i as int].y,
                    forall|q: int|
                        0 <= q < j ==> !(x1 == shape.x + (#[trigger] theirs@[q]).x && y1
                            == shape.y + theirs@[q].y),
                decreases theirs@.len() - j,
            {
                let x2 = shape.x as u64 + theirs[j].x as u64;
                let y2 = shape.y as u64 + theirs[j].y as u64;
                if x1 == x2 && y1 == y2 {
                    assert(overlap(self@, shape@)) by {
                        let (p, q) = (i as int, j as int);
                        assert(self@.current()[p] == mine@[p]);
                        assert(shape@.current()[q] == theirs@[q]);
                    }
                    return true;
                }
                j = j + 1;
            }
            i = i + 1;
        }
        false
    }

    /// Clears row `row` of a board whose last row is `floor` from this shape:
    /// see `ShapeView::without_row`.
    pub fn remove_row(&mut self, row: u32, floor: u32)
        requires
            old(self)@.wf(),
        ensures
            final(self)@ == old(self)@.without_row(row as int, floor as int),
            final(self)@.wf(),
    {
        let ghost keep = self@.keeps(row as int, floor as int);
        let cur = self.current_shape();
        let mut rest: Vec<Cell> = Vec::new();
        let mut i: usize = 0;
        while i < cur.len()
            invariant
                0 <= i <= cur@.len(),
                cur@ == self@.current(),
                keep == self@.keeps(row as int, floor as int),
                rest@ == cur@.subrange(0, i as int).filter(keep),
            decreases cur@.len() - i,
        {
            let c = cur[i];
            let ghost done = cur@.subrange(0, i + 1);
            proof {
                assert(done =~= cur@.subrange(0, i as int).push(c));
                cur@.subrange(0, i as int).lemma_filter_push(c, keep);
            }
            let r = self.y as u64 + c.y as u64;
            if r != row as u64 && r < floor as u64 {
                assert(keep(c));
                rest.push(c);
            } else {
                assert(!keep(c));
            }
            assert(rest@ == done.filter(keep));
            i = i + 1;
        }
        assert(cur@.subrange(0, i as int) =~= cur@);
        let lost = rest.len() < cur.len();
        let nonempty = rest.len() > 0;
        if nonempty {
            proof {
                cur@.lemma_filter_pred(keep, 0);
            }
            self.y = self.y + 1;
        }
        if lost {
            let ghost rest_view = rest@;
            let mut t: Vec<Vec<Cell>> = Vec::new();
            t.push(rest);
            self.cells = t;
            self.orientation = 0;
            assert(self@.tables =~= seq![rest_view]);
        }
        assert(self@.tables =~= old(self)@.without_row(row as int, floor as int).tables);
    }
}

} // verus!

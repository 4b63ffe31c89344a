//! The playfield: every shape spawned so far, one of them under the
//! player's control, with collision-checked movement, gravity, settling,
//! and the clearing of completed rows.
//!
//! Columns run over `[0, width)` and rows over `[0, depth]`, row 0 at the
//! top; a square whose row exceeds `depth` is below the floor.

use crate::catalog::{is_spawn_piece, make_shape};
use crate::piece::{lemma_max_dy, max_dy, lemma_overlap_occupies, lemma_overlap_symmetric, lemma_without_row_fits, lemma_without_row_occupies, overlap, Cell, Shape, ShapeView};
use vstd::prelude::*;

verus! {

/// What the player asks for.
#[derive(Clone, Copy, Debug, PartialEq, Eq, Structural)]
pub enum Intent {
    Rotate,
    MoveLeft,
    MoveRight,
    SoftDropStep,
    HardDrop,
}

/// The squares `s` covers, in the order of its offsets, each with its
/// colour tag.
pub open spec fn squares_of(s: ShapeView) -> Seq<(u32, u32, u32)> {
    s.current().map_values(|c: Cell| ((s.x + c.x) as u32, (s.y + c.y) as u32, s.colour))
}

/// The squares of all `shapes`, shape after shape.
pub open spec fn snapshot(shapes: Seq<ShapeView>) -> Seq<(u32, u32, u32)>
    decreases shapes.len(),
{
    if shapes.len() == 0 {
        seq![]
    } else {
        snapshot(shapes.drop_last()) + squares_of(shapes.last())
    }
}

/// Mathematical model of a grid.
pub struct GridView {
    pub width: int,
    pub depth: int,
    pub cursor: int,
    pub shapes: Seq<ShapeView>,
    pub over: bool,
}

/// The grid that starts play with `shapes`, the last one under control.
pub open spec fn initial(width: int, depth: int, shapes: Seq<ShapeView>) -> GridView {
    GridView { width, depth, cursor: shapes.len() - 1, shapes, over: false }
}

impl GridView {
    /// The shape under the player's control.
    pub open spec fn active(self) -> ShapeView {
        self.shapes[self.cursor]
    }

    /// `s` is well formed and lies on the board.
    pub open spec fn fits(self, s: ShapeView) -> bool {
        &&& s.wf()
        &&& s.within(self.width)
        &&& s.lowest() <= self.depth
    }

    /// No two distinct shapes cover a common square.
    pub open spec fn disjoint(self) -> bool {
        forall|i: int, j: int|
            0 <= i < self.shapes.len() && 0 <= j < self.shapes.len() && i != j ==> !overlap(
                #[trigger] self.shapes[i],
                #[trigger] self.shapes[j],
            )
    }

    /// The invariant every reachable grid keeps.
    pub open spec fn wf(self) -> bool {
        &&& 0 < self.width
        &&& 0 < self.depth < u32::MAX
        &&& self.width <= u32::MAX
        &&& 0 <= self.cursor < self.shapes.len()
        &&& forall|i: int| 0 <= i < self.shapes.len() ==> self.fits(#[trigger] self.shapes[i])
        &&& self.disjoint()
    }

    /// `s` reaches below the floor, or covers a square of a shape other
    /// than the one under control.
    pub open spec fn clashes(self, s: ShapeView) -> bool {
        ||| s.lowest() > self.depth
        ||| exists|i: int|
            0 <= i < self.shapes.len() && i != self.cursor && overlap(s, #[trigger] self.shapes[i])
    }

    /// `s` may take the place of the shape under control.
    pub open spec fn allows(self, s: ShapeView) -> bool {
        s.within(self.width) && !self.clashes(s)
    }

    /// The grid with `s` in place of the shape under control.
    pub open spec fn with_active(self, s: ShapeView) -> GridView {
        GridView { shapes: self.shapes.update(self.cursor, s), ..self }
    }

    /// `s` replaces the shape under control if the grid allows it; otherwise
    /// nothing changes.
    pub open spec fn attempt(self, s: ShapeView) -> GridView {
        if self.allows(s) {
            self.with_active(s)
        } else {
            self
        }
    }

    /// Effect of the request to move one column left.
    pub open spec fn moved_left(self) -> GridView {
        if self.over || self.active().x <= 0 {
            self
        } else {
            self.attempt(self.active().translated(-1, 0))
        }
    }

    /// Effect of the request to move one column right.
    pub open spec fn moved_right(self) -> GridView {
        if self.over || self.active().x >= self.width {
            self
        } else {
            self.attempt(self.active().translated(1, 0))
        }
    }

    /// Effect of the request to rotate.
    pub open spec fn rotated(self) -> GridView {
        if self.over {
            self
        } else {
            self.attempt(self.active().rotated())
        }
    }

    /// The shape under control may move one row down.
    pub open spec fn can_descend(self) -> bool {
        !self.over && self.allows(self.active().translated(0, 1))
    }

    /// The grid with the shape under control one row lower.
    pub open spec fn descended(self) -> GridView {
        self.with_active(self.active().translated(0, 1))
    }

    /// `s` lies on the board and covers no square of any shape.
    pub open spec fn spawn_fits(self, s: ShapeView) -> bool {
        &&& self.fits(s)
        &&& forall|i: int| 0 <= i < self.shapes.len() ==> !overlap(s, #[trigger] self.shapes[i])
    }

    /// `next` joins the grid and takes control; if it does not fit, the
    /// game is over instead.
    pub open spec fn spawned(self, next: ShapeView) -> GridView {
        if self.spawn_fits(next) {
            GridView { shapes: self.shapes.push(next), cursor: self.shapes.len() as int, ..self }
        } else {
            GridView { over: true, ..self }
        }
    }

    /// Some shape covers the square `(col, row)`.
    pub open spec fn filled(self, col: int, row: int) -> bool {
        exists|i: int| 0 <= i < self.shapes.len() && #[trigger] self.shapes[i].occupies(col, row)
    }

    /// Every square of row `row` is covered.
    pub open spec fn row_full(self, row: int) -> bool {
        forall|col: int| 0 <= col < self.width ==> #[trigger] self.filled(col, row)
    }

    /// The first full row at or after `from`, scanning downwards.
    pub open spec fn first_full_row_from(self, from: int) -> Option<int>
        decreases self.depth + 1 - from,
    {
        if from > self.depth || from < 0 {
            None
        } else if self.row_full(from) {
            Some(from)
        } else {
            self.first_full_row_from(from + 1)
        }
    }

    /// The topmost full row, if any.
    pub open spec fn first_full_row(self) -> Option<int> {
        self.first_full_row_from(0)
    }

    /// Every shape with row `row` cleared from it.
    pub open spec fn cleared(self, row: int) -> GridView {
        GridView {
            shapes: self.shapes.map_values(|s: ShapeView| s.without_row(row, self.depth)),
            ..self
        }
    }

    /// The shape under control settles: `next` is spawned, and unless that
    /// ends the game, the topmost full row is cleared. Nothing happens once
    /// the game is over.
    pub open spec fn placed(self, next: ShapeView) -> GridView {
        let g = self.spawned(next);
        if self.over || g.over {
            GridView { over: true, ..self }
        } else {
            match g.first_full_row() {
                Some(row) => g.cleared(row),
                None => g,
            }
        }
    }

    /// Effect of one step of gravity, with `next` spawned if the shape
    /// under control settles.
    pub open spec fn after_move_down(self, next: ShapeView) -> GridView {
        if self.can_descend() {
            self.descended()
        } else if self.over {
            self
        } else {
            self.placed(next)
        }
    }

    /// The grid once the shape under control has descended as far as it can.
    pub open spec fn fallen(self) -> GridView
        decreases self.depth - self.active().y,
    {
        if self.can_descend() && 0 <= self.cursor < self.shapes.len() {
            self.descended().fallen()
        } else {
            self
        }
    }

    /// Effect of the request `intent`, with `next` spawned if the shape
    /// under control settles.
    pub open spec fn applied(self, intent: Intent, next: ShapeView) -> GridView {
        match intent {
            Intent::Rotate => self.rotated(),
            Intent::MoveLeft => self.moved_left(),
            Intent::MoveRight => self.moved_right(),
            Intent::SoftDropStep => self.after_move_down(next),
            Intent::HardDrop => self.dropped(next),
        }
    }

    /// Effect of a hard drop, with `next` spawned when the shape settles.
    pub open spec fn dropped(self, next: ShapeView) -> GridView {
        if self.over {
            self
        } else {
            self.fallen().placed(next)
        }
    }
}

/// Replacing the shape under control by a shape the grid allows keeps the
/// invariant.
pub proof fn lemma_with_active_wf(g: GridView, s: ShapeView)
    requires
        g.wf(),
        s.wf(),
        g.allows(s),
    ensures
        g.with_active(s).wf(),
{
    let h = g.with_active(s);
    assert forall|i: int, j: int|
        0 <= i < h.shapes.len() && 0 <= j < h.shapes.len() && i != j implies !overlap(
        #[trigger] h.shapes[i],
        #[trigger] h.shapes[j],
    ) by {
        if i == g.cursor {
            assert(!overlap(s, g.shapes[j]));
        } else if j == g.cursor {
            assert(!overlap(s, g.shapes[i]));
            lemma_overlap_symmetric(s, g.shapes[i]);
        }
    }
}

/// Whether a shape clashes does not depend on the shape under control.
pub proof fn lemma_clashes_ignores_active(g: GridView, s: ShapeView, t: ShapeView)
    requires
        0 <= g.cursor < g.shapes.len(),
    ensures
        g.with_active(t).clashes(s) == g.clashes(s),
        g.with_active(t).allows(s) == g.allows(s),
{
    let h = g.with_active(t);
    if h.clashes(s) && s.lowest() <= g.depth {
        let i = choose|i: int|
            0 <= i < h.shapes.len() && i != h.cursor && overlap(s, #[trigger] h.shapes[i]);
        assert(g.shapes[i] == h.shapes[i]);
    }
    if g.clashes(s) && s.lowest() <= g.depth {
        let i = choose|i: int|
            0 <= i < g.shapes.len() && i != g.cursor && overlap(s, #[trigger] g.shapes[i]);
        assert(g.shapes[i] == h.shapes[i]);
    }
}

/// Spawning a shape that fits keeps the invariant.
pub proof fn lemma_spawned_wf(g: GridView, next: ShapeView)
    requires
        g.wf(),
        g.spawn_fits(next),
    ensures
        g.spawned(next).wf(),
{
    let h = g.spawned(next);
    let n = g.shapes.len() as int;
    assert(h.shapes[n] == next);
    assert forall|i: int| 0 <= i < h.shapes.len() implies h.fits(#[trigger] h.shapes[i]) by {
        if i < n {
            assert(h.shapes[i] == g.shapes[i]);
        }
    }
    assert forall|i: int, j: int|
        0 <= i < h.shapes.len() && 0 <= j < h.shapes.len() && i != j implies !overlap(
        #[trigger] h.shapes[i],
        #[trigger] h.shapes[j],
    ) by {
        if i == n {
            assert(!overlap(next, g.shapes[j]));
        } else if j == n {
            assert(!overlap(next, g.shapes[i]));
            lemma_overlap_symmetric(next, g.shapes[i]);
        } else {
            assert(h.shapes[i] == g.shapes[i] && h.shapes[j] == g.shapes[j]);
        }
    }
}

/// Clearing a row keeps the invariant.
pub proof fn lemma_cleared_wf(g: GridView, row: int)
    requires
        g.wf(),
    ensures
        g.cleared(row).wf(),
{
    let h = g.cleared(row);
    assert forall|i: int| 0 <= i < h.shapes.len() implies h.fits(#[trigger] h.shapes[i]) by {
        lemma_without_row_fits(g.shapes[i], row, g.depth, g.width);
    }
    assert forall|i: int, j: int|
        0 <= i < h.shapes.len() && 0 <= j < h.shapes.len() && i != j implies !overlap(
        #[trigger] h.shapes[i],
        #[trigger] h.shapes[j],
    ) by {
        let (a, b) = (g.shapes[i], g.shapes[j]);
        lemma_overlap_occupies(h.shapes[i], h.shapes[j]);
        lemma_overlap_occupies(a, b);
        if overlap(h.shapes[i], h.shapes[j]) {
            let (col, r) = choose|col: int, r: int| #[trigger]
                h.shapes[i].occupies(col, r) && #[trigger] h.shapes[j].occupies(col, r);
            lemma_without_row_occupies(a, row, g.depth, col, r);
            lemma_without_row_occupies(b, row, g.depth, col, r);
            assert(a.occupies(col, r - 1) && b.occupies(col, r - 1));
        }
    }
}

/// The playfield.
pub struct Grid {
    width: u32,
    depth: u32,
    cursor: usize,
    shapes: Vec<Shape>,
    over: bool,
}

impl View for Grid {
    type V = GridView;

    closed spec fn view(&self) -> GridView {
        GridView {
            width: self.width as int,
            depth: self.depth as int,
            cursor: self.cursor as int,
            shapes: self.shapes@.map_values(|s: Shape| s@),
            over: self.over,
        }
    }
}

impl Grid {
    /// A grid `width` columns wide whose last row is `depth`, holding
    /// `shapes`, the last of them under control. `None` unless both sizes
    /// are positive, `depth` is below `u32::MAX`, there is at least one
    /// shape, every shape is well formed and on the board, and no two cover
    /// a common square.
    pub fn new(width: u32, depth: u32, shapes: Vec<Shape>) -> (r: Option<Grid>)
        ensures
            r.is_some() <==> initial(
                width as int,
                depth as int,
                shapes@.map_values(|s: Shape| s@),
            ).wf(),
            r matches Some(g) ==> g@ == initial(
                width as int,
                depth as int,
                shapes@.map_values(|s: Shape| s@),
            ),
    {
        let ghost model = initial(width as int, depth as int, shapes@.map_values(|s: Shape| s@));
        if width == 0 || depth == 0 || depth == u32::MAX || shapes.len() == 0 {
            return None;
        }
        let n = shapes.len();
        let mut i: usize = 0;
        while i < n
            invariant
                0 <= i <= n,
                n == shapes@.len(),
                model == initial(width as int, depth as int, shapes@.map_values(|s: Shape| s@)),
                forall|k: int| 0 <= k < i ==> model.fits(#[trigger] model.shapes[k]),
            decreases n - i,
        {
            let s = &shapes[i];
            assert(model.shapes[i as int] == s@);
            if s.cells.len() == 0 || s.orientation >= s.cells.len() {
                return None;
            }
            if !s.within_width(width) || s.lowest_y() > depth as u64 {
                return None;
            }
            i = i + 1;
        }
        let mut i: usize = 0;
        while i < n
            invariant
                0 <= i <= n,
                n == shapes@.len(),
                model == initial(width as int, depth as int, shapes@.map_values(|s: Shape| s@)),
                forall|k: int| 0 <= k < n ==> model.fits(#[trigger] model.shapes[k]),
                forall|k: int, m: int|
                    0 <= k < i && 0 <= m < n && k != m ==> !overlap(
                        #[trigger] model.shapes[k],
                        #[trigger] model.shapes[m],
                    ),
            decreases n - i,
        {
            assert(model.shapes[i as int] == shapes@[i as int]@);
            assert(model.fits(model.shapes[i as int]));
            let mut j: usize = 0;
            while j < n
                invariant
                    0 <= i < n,
                    0 <= j <= n,
                    n == shapes@.len(),
                    model == initial(width as int, depth as int, shapes@.map_values(|s: Shape| s@)),
                    forall|k: int| 0 <= k < n ==> model.fits(#[trigger] model.shapes[k]),
                    forall|m: int|
                        0 <= m < j && m != i ==> !overlap(
                            model.shapes[i as int],
                            #[trigger] model.shapes[m],
                        ),
                decreases n - j,
            {
                assert(model.shapes[i as int] == shapes@[i as int]@);
                assert(model.shapes[j as int] == shapes@[j as int]@);
                assert(model.fits(model.shapes[i as int]));
                assert(model.fits(model.shapes[j as int]));
                if j != i && shapes[i].collides(&shapes[j]) {
                    assert(!model.disjoint());
                    return None;
                }
                j = j + 1;
            }
            i = i + 1;
        }
        Some(Grid { width, depth, cursor: n - 1, shapes, over: false })
    }

    /// Every shape is well formed and the cursor points at one of them.
    closed spec fn shapes_wf(&self) -> bool {
        &&& 0 <= self.cursor < self.shapes@.len()
        &&& forall|i: int| 0 <= i < self.shapes@.len() ==> (#[trigger] self.shapes@[i])@.wf()
    }

    proof fn lemma_view_shapes(&self)
        ensures
            self@.shapes.len() == self.shapes@.len(),
            forall|i: int|
                0 <= i < self.shapes@.len() ==> #[trigger] self@.shapes[i] == self.shapes@[i]@,
            self@.wf() ==> self.shapes_wf(),
    {
        if self@.wf() {
            assert forall|i: int| 0 <= i < self.shapes@.len() implies (
            #[trigger] self.shapes@[i])@.wf() by {
                assert(self@.fits(self@.shapes[i]));
            }
        }
    }

    /// Whether `shape` reaches below the floor or covers a square of a
    /// shape other than the one under control.
    pub fn clashes(&self, shape: &Shape) -> (r: bool)
        requires
            self@.wf(),
            shape@.wf(),
        ensures
            r == self@.clashes(shape@),
    {
        proof {
            self.lemma_view_shapes();
        }
        self.clashes_inner(shape)
    }

    fn clashes_inner(&self, shape: &Shape) -> (r: bool)
        requires
            self.shapes_wf(),
            shape@.wf(),
        ensures
            r == self@.clashes(shape@),
    {
        proof {
            self.lemma_view_shapes();
        }
        let mut i: usize = 0;
        while i < self.shapes.len()
            invariant
                0 <= i <= self.shapes@.len(),
                self.shapes_wf(),
                shape@.wf(),
                forall|k: int|
                    0 <= k < self.shapes@.len() ==> #[trigger] self@.shapes[k]
                        == self.shapes@[k]@,
                forall|k: int|
                    0 <= k < i && k != self.cursor ==> !overlap(shape@, #[trigger] self@.shapes[k]),
            decreases self.shapes@.len() - i,
        {
            if i != self.cursor && shape.collides(&self.shapes[i]) {
                assert(overlap(shape@, self@.shapes[i as int]));
                return true;
            }
            i = i + 1;
        }
        shape.lowest_y() > self.depth as u64
    }

    /// Whether the shape under control may stand where it is.
    fn active_allowed(&self) -> (r: bool)
        requires
            self.shapes_wf(),
        ensures
            r == self@.allows(self@.active()),
    {
        proof {
            self.lemma_view_shapes();
        }
        let s = &self.shapes[self.cursor];
        s.within_width(self.width) && !self.clashes_inner(s)
    }

    /// Moves the shape under control one column left, unless it is in the
    /// first column, the move would clash, or the game is over.
    pub fn move_left(&mut self)
        requires
            old(self)@.wf(),
        ensures
            final(self)@ == old(self)@.moved_left(),
            final(self)@.wf(),
    {
        proof {
            self.lemma_view_shapes();
        }
        if self.over {
            return;
        }
        let c = self.cursor;
        if self.shapes[c].x > 0 {
            let ghost cand = old(self)@.active().translated(-1, 0);
            self.shapes[c].x = self.shapes[c].x - 1;
            proof {
                assert(self@.shapes =~= old(self)@.shapes.update(c as int, cand));
                lemma_clashes_ignores_active(old(self)@, cand, cand);
                self.lemma_view_shapes();
            }
            if !self.active_allowed() {
                self.shapes[c].x = self.shapes[c].x + 1;
                assert(self@.shapes =~= old(self)@.shapes);
            } else {
                proof {
                    lemma_with_active_wf(old(self)@, cand);
                }
            }
        }
    }

    /// Moves the shape under control one column right, unless its anchor is
    /// in the last column, the move would leave the board or clash, or the
    /// game is over.
    pub fn move_right(&mut self)
        requires
            old(self)@.wf(),
        ensures
            final(self)@ == old(self)@.moved_right(),
            final(self)@.wf(),
    {
        proof {
            self.lemma_view_shapes();
        }
        if self.over {
            return;
        }
        let c = self.cursor;
        if self.shapes[c].x < self.width {
            let ghost cand = old(self)@.active().translated(1, 0);
            self.shapes[c].x = self.shapes[c].x + 1;
            proof {
                assert(self@.shapes =~= old(self)@.shapes.update(c as int, cand));
                lemma_clashes_ignores_active(old(self)@, cand, cand);
                self.lemma_view_shapes();
            }
            if !self.active_allowed() {
                self.shapes[c].x = self.shapes[c].x - 1;
                assert(self@.shapes =~= old(self)@.shapes);
            } else {
                proof {
                    lemma_with_active_wf(old(self)@, cand);
                }
            }
        }
    }

    /// Rotates the shape under control to its next orientation, unless the
    /// result would leave the board or clash, or the game is over.
    pub fn rotate_cursor(&mut self)
        requires
            old(self)@.wf(),
        ensures
            final(self)@ == old(self)@.rotated(),
            final(self)@.wf(),
    {
        proof {
            self.lemma_view_shapes();
        }
        if self.over {
            return;
        }
        let c = self.cursor;
        let before = self.shapes[c].orientation;
        let ghost cand = old(self)@.active().rotated();
        self.shapes[c].rotate();
        proof {
            assert(self@.shapes =~= old(self)@.shapes.update(c as int, cand));
            lemma_clashes_ignores_active(old(self)@, cand, cand);
            self.lemma_view_shapes();
        }
        if !self.active_allowed() {
            self.shapes[c].orientation = before;
            assert(self@.shapes[c as int] =~= old(self)@.shapes[c as int]);
            assert(self@.shapes =~= old(self)@.shapes);
        } else {
            proof {
                lemma_with_active_wf(old(self)@, cand);
            }
        }
    }

    /// Whether some shape covers the square `(col, row)`.
    pub fn is_filled(&self, col: u32, row: u32) -> (r: bool)
        requires
            self@.wf(),
        ensures
            r == self@.filled(col as int, row as int),
    {
        proof {
            self.lemma_view_shapes();
        }
        let mut i: usize = 0;
        while i < self.shapes.len()
            invariant
                0 <= i <= self.shapes@.len(),
                self@.wf(),
                self.shapes_wf(),
                forall|k: int|
                    0 <= k < self.shapes@.len() ==> #[trigger] self@.shapes[k]
                        == self.shapes@[k]@,
                forall|k: int| 0 <= k < i ==> !(#[trigger] self@.shapes[k]).occupies(col as int, row as int),
            decreases self.shapes@.len() - i,
        {
            if self.shapes[i].covers(col as u64, row as u64) {
                assert(self@.shapes[i as int].occupies(col as int, row as int));
                return true;
            }
            i = i + 1;
        }
        false
    }

    /// Whether every square of row `row` is covered.
    pub fn row_is_full(&self, row: u32) -> (r: bool)
        requires
            self@.wf(),
        ensures
            r == self@.row_full(row as int),
    {
        let mut col: u32 = 0;
        while col < self.width
            invariant
                0 <= col <= self@.width,
                self@.wf(),
                forall|k: int| 0 <= k < col ==> #[trigger] self@.filled(k, row as int),
            decreases self@.width - col,
        {
            if !self.is_filled(col, row) {
                return false;
            }
            col = col + 1;
        }
        true
    }

    /// The topmost full row, scanning rows `0` to `depth` downwards.
    pub fn get_row_if_full(&self) -> (r: Option<u32>)
        requires
            self@.wf(),
        ensures
            match r {
                Some(j) => self@.first_full_row() == Some(j as int),
                None => self@.first_full_row() is None,
            },
            r matches Some(j) ==> j <= self@.depth && self@.row_full(j as int) && forall|k: int|
                0 <= k < j ==> !#[trigger] self@.row_full(k),
            r is None ==> forall|k: int| 0 <= k <= self@.depth ==> !#[trigger] self@.row_full(k),
    {
        let mut j: u32 = 0;
        while j <= self.depth
            invariant
                0 <= j <= self@.depth + 1,
                self@.wf(),
                self@.first_full_row() == self@.first_full_row_from(j as int),
                forall|k: int| 0 <= k < j ==> !#[trigger] self@.row_full(k),
            decreases self@.depth + 1 - j,
        {
            if self.row_is_full(j) {
                return Some(j);
            }
            j = j + 1;
        }
        None
    }

    /// Clears row `row` from every shape; every shape that keeps a square
    /// moves one row down.
    pub fn clear_row(&mut self, row: u32)
        requires
            old(self)@.wf(),
        ensures
            final(self)@ == old(self)@.cleared(row as int),
            final(self)@.wf(),
    {
        proof {
            self.lemma_view_shapes();
        }
        let floor = self.depth;
        let n = self.shapes.len();
        let mut i: usize = 0;
        while i < n
            invariant
                0 <= i <= n,
                n == self.shapes@.len(),
                n == old(self)@.shapes.len(),
                floor == self.depth,
                self.width == old(self)@.width && self.depth == old(self)@.depth,
                self.cursor == old(self)@.cursor && self.over == old(self)@.over,
                forall|k: int| 0 <= k < n ==> old(self)@.shapes[k].wf(),
                forall|k: int|
                    0 <= k < i ==> (#[trigger] self.shapes@[k])@ == old(self)@.shapes[k].without_row(
                        row as int,
                        floor as int,
                    ),
                forall|k: int| i <= k < n ==> (#[trigger] self.shapes@[k])@ == old(self)@.shapes[k],
            decreases n - i,
        {
            self.shapes[i].remove_row(row, floor);
            i = i + 1;
        }
        proof {
            lemma_cleared_wf(old(self)@, row as int);
            assert(self@.shapes =~= old(self)@.cleared(row as int).shapes);
        }
    }

    /// Whether `next` lies on the board and covers no square of any shape.
    fn spawn_fits(&self, next: &Shape) -> (r: bool)
        requires
            self@.wf(),
            next@.wf(),
        ensures
            r == self@.spawn_fits(next@),
    {
        proof {
            self.lemma_view_shapes();
        }
        if !next.within_width(self.width) || next.lowest_y() > self.depth as u64 {
            return false;
        }
        let mut i: usize = 0;
        while i < self.shapes.len()
            invariant
                0 <= i <= self.shapes@.len(),
                self.shapes_wf(),
                next@.wf(),
                forall|k: int|
                    0 <= k < self.shapes@.len() ==> #[trigger] self@.shapes[k]
                        == self.shapes@[k]@,
                forall|k: int| 0 <= k < i ==> !overlap(next@, #[trigger] self@.shapes[k]),
            decreases self.shapes@.len() - i,
        {
            if next.collides(&self.shapes[i]) {
                assert(overlap(next@, self@.shapes[i as int]));
                return false;
            }
            i = i + 1;
        }
        true
    }

    /// The shape under control has settled: `next` is spawned and takes
    /// control, then the topmost full row, if any, is cleared. If `next`
    /// does not fit, the game is over instead and nothing else changes.
    /// Once the game is over, nothing happens.
    pub fn handle_placed(&mut self, next: Shape)
        requires
            old(self)@.wf(),
            next@.wf(),
        ensures
            final(self)@ == old(self)@.placed(next@),
            final(self)@.wf(),
    {
        if self.over || !self.spawn_fits(&next) {
            self.over = true;
            proof {
                self.lemma_view_shapes();
            }
            return;
        }
        proof {
            lemma_spawned_wf(self@, next@);
        }
        self.shapes.push(next);
        self.cursor = self.shapes.len() - 1;
        proof {
            assert(self@.shapes =~= old(self)@.spawned(next@).shapes);
            assert(self@ == old(self)@.spawned(next@));
        }
        match self.get_row_if_full() {
            Some(row) => self.clear_row(row),
            None => {},
        }
    }

    /// One step of gravity: the shape under control moves one row down and
    /// `true` is returned; if that move would clash, the shape settles where
    /// it is, `next` is spawned (see `handle_placed`) and `false` is
    /// returned. Once the game is over, nothing happens and `false` is
    /// returned.
    pub fn move_down_with(&mut self, next: Shape) -> (r: bool)
        requires
            old(self)@.wf(),
            next@.wf(),
        ensures
            r == old(self)@.can_descend(),
            final(self)@ == old(self)@.after_move_down(next@),
            final(self)@.wf(),
    {
        proof {
            self.lemma_view_shapes();
        }
        if self.over {
            return false;
        }
        let c = self.cursor;
        let ghost cand = old(self)@.active().translated(0, 1);
        assert(old(self)@.fits(old(self)@.active()));
        self.shapes[c].y = self.shapes[c].y + 1;
        proof {
            assert(self@.shapes =~= old(self)@.shapes.update(c as int, cand));
            lemma_clashes_ignores_active(old(self)@, cand, cand);
            self.lemma_view_shapes();
        }
        if self.active_allowed() {
            proof {
                lemma_with_active_wf(old(self)@, cand);
            }
            return true;
        }
        self.shapes[c].y = self.shapes[c].y - 1;
        assert(self@.shapes =~= old(self)@.shapes);
        self.handle_placed(next);
        false
    }

    /// One step of gravity, spawning a shape of a random kind if the shape
    /// under control settles.
    pub fn move_down(&mut self) -> (r: bool)
        requires
            old(self)@.wf(),
        ensures
            r == old(self)@.can_descend(),
            exists|s: ShapeView| #[trigger]
                is_spawn_piece(s) && final(self)@ == old(self)@.after_move_down(s),
            final(self)@.wf(),
    {
        let next = make_shape();
        let ghost s = next@;
        let r = self.move_down_with(next);
        assert(is_spawn_piece(s) && self@ == old(self)@.after_move_down(s));
        r
    }

    /// Hard drop: the shape under control moves down as far as it can and
    /// settles there, spawning `next` (see `handle_placed`). Once the game
    /// is over, nothing happens.
    pub fn drop_with(&mut self, next: Shape)
        requires
            old(self)@.wf(),
            next@.wf(),
        ensures
            final(self)@ == old(self)@.dropped(next@),
            final(self)@.wf(),
    {
        proof {
            self.lemma_view_shapes();
        }
        if self.over {
            return;
        }
        let c = self.cursor;
        loop
            invariant
                self@.wf(),
                !self.over,
                c == self.cursor,
                self@.fallen() == old(self)@.fallen(),
                self@.width == old(self)@.width && self@.depth == old(self)@.depth,
            ensures
                self@.wf(),
                !self.over,
                self@ == old(self)@.fallen(),
            decreases self@.depth - self@.active().y,
        {
            proof {
                self.lemma_view_shapes();
            }
            let ghost before = self@;
            let ghost cand = before.active().translated(0, 1);
            assert(before.fits(before.active()));
            self.shapes[c].y = self.shapes[c].y + 1;
            proof {
                assert(self@.shapes =~= before.shapes.update(c as int, cand));
                lemma_clashes_ignores_active(before, cand, cand);
                self.lemma_view_shapes();
            }
            if !self.active_allowed() {
                self.shapes[c].y = self.shapes[c].y - 1;
                assert(self@.shapes =~= before.shapes);
                assert(self@ == before);
                assert(!self@.can_descend());
                assert(self@.fallen() == self@);
                break;
            }
            proof {
                lemma_with_active_wf(before, cand);
                assert(self@ == before.descended());
            }
        }
        self.handle_placed(next);
    }

    /// Hard drop, spawning a shape of a random kind when the shape settles.
    pub fn drop(&mut self)
        requires
            old(self)@.wf(),
        ensures
            exists|s: ShapeView| #[trigger] is_spawn_piece(s) && final(self)@ == old(self)@.dropped(s),
            final(self)@.wf(),
    {
        let next = make_shape();
        let ghost s = next@;
        self.drop_with(next);
        assert(is_spawn_piece(s) && self@ == old(self)@.dropped(s));
    }

    /// Carries out the request `intent`, spawning `next` if the shape under
    /// control settles.
    pub fn apply_with(&mut self, intent: Intent, next: Shape)
        requires
            old(self)@.wf(),
            next@.wf(),
        ensures
            final(self)@ == old(self)@.applied(intent, next@),
            final(self)@.wf(),
    {
        match intent {
            Intent::Rotate => self.rotate_cursor(),
            Intent::MoveLeft => self.move_left(),
            Intent::MoveRight => self.move_right(),
            Intent::SoftDropStep => {
                self.move_down_with(next);
            },
            Intent::HardDrop => self.drop_with(next),
        }
    }

    /// Carries out the request `intent`, spawning a shape of a random kind
    /// if the shape under control settles.
    pub fn apply(&mut self, intent: Intent)
        requires
            old(self)@.wf(),
        ensures
            exists|s: ShapeView| #[trigger]
                is_spawn_piece(s) && final(self)@ == old(self)@.applied(intent, s),
            final(self)@.wf(),
    {
        let next = make_shape();
        let ghost s = next@;
        self.apply_with(intent, next);
        assert(is_spawn_piece(s) && self@ == old(self)@.applied(intent, s));
    }

    /// Number of columns.
    pub fn width(&self) -> (r: u32)
        ensures
            r == self@.width,
    {
        self.width
    }

    /// Index of the last row.
    pub fn depth(&self) -> (r: u32)
        ensures
            r == self@.depth,
    {
        self.depth
    }

    /// Index of the shape under control.
    pub fn cursor(&self) -> (r: usize)
        ensures
            r == self@.cursor,
    {
        self.cursor
    }

    /// Whether a spawned shape has failed to fit, ending the game.
    pub fn is_game_over(&self) -> (r: bool)
        ensures
            r == self@.over,
    {
        self.over
    }

    /// Every shape, in the order they were spawned.
    pub fn shapes(&self) -> (r: &Vec<Shape>)
        ensures
            r@.map_values(|s: Shape| s@) == self@.shapes,
    {
        &self.shapes
    }

    /// Every covered square with the colour tag of its shape, shape after
    /// shape, for drawing.
    pub fn occupied_cells(&self) -> (r: Vec<(u32, u32, u32)>)
        requires
            self@.wf(),
        ensures
            r@ == snapshot(self@.shapes),
    {
        proof {
            self.lemma_view_shapes();
        }
        let mut out: Vec<(u32, u32, u32)> = Vec::new();
        let n = self.shapes.len();
        let mut i: usize = 0;
        while i < n
            invariant
                0 <= i <= n,
                n == self.shapes@.len(),
                self@.wf(),
                forall|k: int|
                    0 <= k < self.shapes@.len() ==> #[trigger] self@.shapes[k]
                        == self.shapes@[k]@,
                out@ == snapshot(self@.shapes.subrange(0, i as int)),
            decreases n - i,
        {
            let s = &self.shapes[i];
            assert(self@.fits(self@.shapes[i as int]));
            proof {
                lemma_max_dy(s@.current());
            }
            let cur = s.current_shape();
            let ghost done = out@;
            let mut j: usize = 0;
            while j < cur.len()
                invariant
                    0 <= j <= cur@.len(),
                    cur@ == s@.current(),
                    self@.fits(s@),
                    forall|k: int| 0 <= k < cur@.len() ==> #[trigger] cur@[k].y <= max_dy(cur@),
                    out@ == done + squares_of(s@).subrange(0, j as int),
                decreases cur@.len() - j,
            {
                assert(s.x + cur@[j as int].x < self@.width);
                let cell = (s.x + cur[j].x, s.y + cur[j].y, s.colour);
                out.push(cell);
                assert(squares_of(s@).subrange(0, j + 1) =~= squares_of(s@).subrange(0, j as int).push(cell));
                j = j + 1;
            }
            proof {
                let sub = self@.shapes.subrange(0, i + 1);
                assert(sub.drop_last() =~= self@.shapes.subrange(0, i as int));
                assert(squares_of(s@).subrange(0, j as int) =~= squares_of(s@));
            }
            i = i + 1;
        }
        assert(self@.shapes.subrange(0, n as int) =~= self@.shapes);
        out
    }
}

} // verus!

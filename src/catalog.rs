//! The two tetromino kinds the game spawns, and the random choice between
//! them.

use crate::piece::{Cell, Shape, ShapeView};
use vstd::prelude::*;

verus! {

/// Column of the anchor of every freshly spawned shape.
pub const SPAWN_X: u32 = 5;

/// Row of the anchor of every freshly spawned shape.
pub const SPAWN_Y: u32 = 0;

/// Colour tag of the T-like kind: opaque red, packed as RGBA bytes.
pub const RED: u32 = 0xff00_00ff;

/// Colour tag of the S/Z-like kind: opaque blue, packed as RGBA bytes.
pub const BLUE: u32 = 0x0000_ffff;

/// The offset `(x, y)`.
pub open spec fn off(x: u32, y: u32) -> Cell {
    Cell { x, y }
}

/// Orientation tables of the T-like kind.
pub open spec fn t_tables() -> Seq<Seq<Cell>> {
    seq![
        seq![off(0, 1), off(1, 1), off(2, 1), off(1, 2)],
        seq![off(1, 0), off(0, 1), off(1, 1), off(1, 2)],
        seq![off(0, 1), off(1, 1), off(1, 0), off(2, 1)],
        seq![off(1, 0), off(1, 1), off(2, 1), off(1, 2)],
    ]
}

/// Orientation tables of the S/Z-like kind.
pub open spec fn z_tables() -> Seq<Seq<Cell>> {
    seq![
        seq![off(0, 0), off(1, 0), off(1, 1), off(2, 1)],
        seq![off(2, 0), off(1, 1), off(2, 1), off(1, 2)],
    ]
}

/// The T-like kind anchored at `(x, y)`, in its first orientation.
pub open spec fn t_piece(x: int, y: int) -> ShapeView {
    ShapeView { x, y, tables: t_tables(), orientation: 0, colour: RED }
}

/// The S/Z-like kind anchored at `(x, y)`, in its first orientation.
pub open spec fn z_piece(x: int, y: int) -> ShapeView {
    ShapeView { x, y, tables: z_tables(), orientation: 0, colour: BLUE }
}

/// A shape the game may spawn: either kind, at the spawn point.
pub open spec fn is_spawn_piece(s: ShapeView) -> bool {
    s == t_piece(SPAWN_X as int, SPAWN_Y as int) || s == z_piece(SPAWN_X as int, SPAWN_Y as int)
}

/// An orientation table of four offsets.
fn four(a: Cell, b: Cell, d: Cell, e: Cell) -> (r: Vec<Cell>)
    ensures
        r@ == seq![a, b, d, e],
{
    let mut v: Vec<Cell> = Vec::new();
    v.push(a);
    v.push(b);
    v.push(d);
    v.push(e);
    assert(v@ =~= seq![a, b, d, e]);
    v
}

/// The T-like kind anchored at `(x, y)`.
pub fn shape1(x: u32, y: u32) -> (r: Shape)
    ensures
        r@ == t_piece(x as int, y as int),
        r@.wf(),
{
    let mut cells: Vec<Vec<Cell>> = Vec::new();
    cells.push(four(Cell { x: 0, y: 1 }, Cell { x: 1, y: 1 }, Cell { x: 2, y: 1 }, Cell { x: 1, y: 2 }));
    cells.push(four(Cell { x: 1, y: 0 }, Cell { x: 0, y: 1 }, Cell { x: 1, y: 1 }, Cell { x: 1, y: 2 }));
    cells.push(four(Cell { x: 0, y: 1 }, Cell { x: 1, y: 1 }, Cell { x: 1, y: 0 }, Cell { x: 2, y: 1 }));
    cells.push(four(Cell { x: 1, y: 0 }, Cell { x: 1, y: 1 }, Cell { x: 2, y: 1 }, Cell { x: 1, y: 2 }));
    let r = Shape { x, y, cells, orientation: 0, colour: RED };
    assert(r@.tables =~= t_tables());
    r
}

/// The S/Z-like kind anchored at `(x, y)`.
pub fn shape2(x: u32, y: u32) -> (r: Shape)
    ensures
        r@ == z_piece(x as int, y as int),
        r@.wf(),
{
    let mut cells: Vec<Vec<Cell>> = Vec::new();
    cells.push(four(Cell { x: 0, y: 0 }, Cell { x: 1, y: 0 }, Cell { x: 1, y: 1 }, Cell { x: 2, y: 1 }));
    cells.push(four(Cell { x: 2, y: 0 }, Cell { x: 1, y: 1 }, Cell { x: 2, y: 1 }, Cell { x: 1, y: 2 }));
    let r = Shape { x, y, cells, orientation: 0, colour: BLUE };
    assert(r@.tables =~= z_tables());
    r
}

/// The shape spawned for the outcome `pick` of a fair coin: the T-like kind
/// on `true`, the S/Z-like kind on `false`, both at the spawn point.
pub fn shape_for(pick: bool) -> (r: Shape)
    ensures
        r@ == if pick {
            t_piece(SPAWN_X as int, SPAWN_Y as int)
        } else {
            z_piece(SPAWN_X as int, SPAWN_Y as int)
        },
        r@.wf(),
{
    if pick {
        shape1(SPAWN_X, SPAWN_Y)
    } else {
        shape2(SPAWN_X, SPAWN_Y)
    }
}

/// Relies on `rand::random::<bool>`, a draw from the thread-local generator
/// seeded by the operating system; nothing is known of the value.
#[verifier::external_body]
fn coin_flip() -> (r: bool) {
    rand::random::<bool>()
}

/// A freshly spawned shape of a kind chosen at random.
pub fn make_shape() -> (r: Shape)
    ensures
        is_spawn_piece(r@),
        r@.wf(),
{
    shape_for(coin_flip())
}

} // verus!

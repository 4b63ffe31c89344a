//! Properties that hold across several operations of the grid and shapes.

use crate::grid::{lemma_cleared_wf, lemma_clashes_ignores_active, lemma_spawned_wf, lemma_with_active_wf, GridView, Intent};
use crate::piece::{lemma_overlap_symmetric, overlap, ShapeView};
use vstd::arithmetic::div_mod::{lemma_mod_self_0, lemma_small_mod};
use vstd::prelude::*;

verus! {

/// `s` after `k` rotations.
pub open spec fn rotated_times(s: ShapeView, k: nat) -> ShapeView
    decreases k,
{
    if k == 0 {
        s
    } else {
        rotated_times(s, (k - 1) as nat).rotated()
    }
}

/// The grid after `move_down` has been called with `next` until it
/// reported that the shape under control settled.
pub open spec fn move_down_until_settled(g: GridView, next: ShapeView) -> GridView
    decreases g.depth - g.active().y,
{
    if g.can_descend() && 0 <= g.cursor < g.shapes.len() {
        move_down_until_settled(g.after_move_down(next), next)
    } else {
        g.after_move_down(next)
    }
}

proof fn lemma_rotated_wf(s: ShapeView)
    requires
        s.wf(),
    ensures
        s.rotated().wf(),
{
    let n = s.tables.len() as int;
    if s.orientation + 1 < n {
        lemma_small_mod((s.orientation + 1) as nat, n as nat);
    } else {
        lemma_mod_self_0(n);
    }
}

/// Rotating a shape as many times as it has orientations gives back the
/// same shape, and so the same orientation.
pub proof fn lemma_rotation_cycle(s: ShapeView)
    requires
        s.wf(),
    ensures
        rotated_times(s, s.tables.len()) == s,
        rotated_times(s, s.tables.len()).orientation == s.orientation,
{
    let n = s.tables.len();
    assert forall|k: nat| k <= n implies {
        &&& (#[trigger] rotated_times(s, k)).tables == s.tables
        &&& rotated_times(s, k).x == s.x && rotated_times(s, k).y == s.y
        &&& rotated_times(s, k).colour == s.colour
        &&& rotated_times(s, k).orientation == if s.orientation + k < n {
            s.orientation + k
        } else {
            s.orientation + k - n
        }
    } by {
        lemma_rotation_steps(s, k);
    }
    assert(rotated_times(s, n).orientation == s.orientation);
}

proof fn lemma_rotation_steps(s: ShapeView, k: nat)
    requires
        s.wf(),
        k <= s.tables.len(),
    ensures
        rotated_times(s, k).tables == s.tables,
        rotated_times(s, k).x == s.x && rotated_times(s, k).y == s.y,
        rotated_times(s, k).colour == s.colour,
        rotated_times(s, k).orientation == if s.orientation + k < s.tables.len() {
            s.orientation + k
        } else {
            s.orientation + k - s.tables.len()
        },
    decreases k,
{
    if k > 0 {
        lemma_rotation_steps(s, (k - 1) as nat);
        let p = rotated_times(s, (k - 1) as nat);
        let n = s.tables.len() as int;
        let o = p.orientation + 1;
        if o < n {
            lemma_small_mod(o as nat, n as nat);
        } else {
            lemma_mod_self_0(n);
        }
    }
}

/// Every request keeps the grid's invariant; in particular no two distinct
/// shapes ever cover a common square, and every shape stays on the board.
pub proof fn lemma_requests_keep_shapes_apart(g: GridView, intent: Intent, next: ShapeView)
    requires
        g.wf(),
        next.wf(),
    ensures
        g.applied(intent, next).wf(),
        g.applied(intent, next).disjoint(),
{
    match intent {
        Intent::Rotate => {
            if !g.over {
                lemma_rotated_wf(g.active());
                lemma_attempt_wf(g, g.active().rotated());
            }
        },
        Intent::MoveLeft => {
            if !g.over && g.active().x > 0 {
                lemma_attempt_wf(g, g.active().translated(-1, 0));
            }
        },
        Intent::MoveRight => {
            if !g.over && g.active().x < g.width {
                lemma_attempt_wf(g, g.active().translated(1, 0));
            }
        },
        Intent::SoftDropStep => lemma_after_move_down_wf(g, next),
        Intent::HardDrop => {
            if !g.over {
                lemma_fallen_wf(g);
                lemma_placed_wf(g.fallen(), next);
            }
        },
    }
}

proof fn lemma_attempt_wf(g: GridView, s: ShapeView)
    requires
        g.wf(),
        s.wf(),
    ensures
        g.attempt(s).wf(),
{
    if g.allows(s) {
        lemma_with_active_wf(g, s);
    }
}

proof fn lemma_placed_wf(g: GridView, next: ShapeView)
    requires
        g.wf(),
    ensures
        g.placed(next).wf(),
{
    if !g.over && g.spawn_fits(next) {
        lemma_spawned_wf(g, next);
        match g.spawned(next).first_full_row() {
            Some(row) => lemma_cleared_wf(g.spawned(next), row),
            None => {},
        }
    }
}

proof fn lemma_after_move_down_wf(g: GridView, next: ShapeView)
    requires
        g.wf(),
    ensures
        g.after_move_down(next).wf(),
{
    if g.can_descend() {
        lemma_with_active_wf(g, g.active().translated(0, 1));
    } else if !g.over {
        lemma_placed_wf(g, next);
    }
}

proof fn lemma_fallen_wf(g: GridView)
    requires
        g.wf(),
    ensures
        g.fallen().wf(),
        g.fallen().over == g.over,
    decreases g.depth - g.active().y,
{
    if g.can_descend() {
        lemma_with_active_wf(g, g.active().translated(0, 1));
        lemma_fallen_wf(g.descended());
    }
}

/// Moving left and then right, or right and then left, where the first
/// move is not obstructed, brings the shape under control back to where it
/// was: the grid is unchanged.
pub proof fn lemma_left_right_round_trip(g: GridView)
    requires
        g.wf(),
        !g.over,
    ensures
        g.active().x > 0 && g.allows(g.active().translated(-1, 0)) ==> g.moved_left().moved_right()
            == g,
        g.active().x < g.width && g.allows(g.active().translated(1, 0))
            ==> g.moved_right().moved_left() == g,
{
    let a = g.active();
    assert(g.fits(a));
    assert(!g.clashes(a)) by {
        if g.clashes(a) && a.lowest() <= g.depth {
            let i = choose|i: int|
                0 <= i < g.shapes.len() && i != g.cursor && overlap(a, #[trigger] g.shapes[i]);
            assert(!overlap(g.shapes[g.cursor], g.shapes[i]));
        }
    }
    if a.x > 0 && g.allows(a.translated(-1, 0)) {
        let t = a.translated(-1, 0);
        let h = g.with_active(t);
        assert(h.active() == t);
        assert(t.translated(1, 0) == a);
        lemma_clashes_ignores_active(g, a, t);
        assert(h.with_active(a).shapes =~= g.shapes);
    }
    if a.x < g.width && g.allows(a.translated(1, 0)) {
        let t = a.translated(1, 0);
        let h = g.with_active(t);
        assert(h.active() == t);
        assert(t.translated(-1, 0) == a);
        lemma_clashes_ignores_active(g, a, t);
        assert(h.allows(a));
        assert(h.with_active(a).shapes =~= g.shapes);
        assert(h.with_active(a) == g);
        assert(g.moved_right() == h);
        assert(h.active().x > 0);
        assert(h.active().translated(-1, 0) == a);
        assert(h.attempt(a) == g);
    }
}

/// A shape under control whose next row down would lie below the floor
/// cannot descend: a step of gravity settles it, and every shape stays on
/// the board.
pub proof fn lemma_floor_forces_settle(g: GridView, next: ShapeView)
    requires
        g.wf(),
        g.active().lowest() + 1 > g.depth,
    ensures
        !g.can_descend(),
        g.after_move_down(next).wf(),
{
    assert(g.clashes(g.active().translated(0, 1)));
    lemma_after_move_down_wf(g, next);
}

/// A hard drop leaves the grid exactly as calling `move_down` until it
/// reports that the shape settled.
pub proof fn lemma_drop_is_repeated_move_down(g: GridView, next: ShapeView)
    requires
        g.wf(),
    ensures
        g.dropped(next) == move_down_until_settled(g, next),
    decreases g.depth - g.active().y,
{
    if g.can_descend() {
        let d = g.descended();
        lemma_with_active_wf(g, g.active().translated(0, 1));
        lemma_drop_is_repeated_move_down(d, next);
        assert(g.fallen() == d.fallen());
    } else {
        assert(g.fallen() == g);
    }
}

} // verus!

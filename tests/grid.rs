use std::collections::HashSet;
use tetromino_grid::catalog::{shape1, shape2, shape_for, BLUE, RED, SPAWN_X, SPAWN_Y};
use tetromino_grid::grid::{Grid, Intent};
use tetromino_grid::piece::{Cell, Shape};

fn piece(x: u32, y: u32, pairs: &[(u32, u32)], colour: u32) -> Shape {
    let cells = pairs.iter().map(|&(cx, cy)| Cell { x: cx, y: cy }).collect();
    Shape::new(x, y, vec![cells], colour).unwrap()
}

fn single(x: u32, y: u32) -> Shape {
    piece(x, y, &[(0, 0)], RED)
}

fn row_piece(x: u32, y: u32, len: u32) -> Shape {
    let pairs: Vec<(u32, u32)> = (0..len).map(|i| (i, 0)).collect();
    piece(x, y, &pairs, BLUE)
}

fn grid(shapes: Vec<Shape>) -> Grid {
    Grid::new(15, 21, shapes).unwrap()
}

fn active(g: &Grid) -> (u32, u32, usize) {
    let s = &g.shapes()[g.cursor()];
    (s.x, s.y, s.orientation)
}

#[test]
fn new_checks_the_board() {
    assert!(Grid::new(0, 21, vec![single(0, 0)]).is_none());
    assert!(Grid::new(15, 0, vec![single(0, 0)]).is_none());
    assert!(Grid::new(15, u32::MAX, vec![single(0, 0)]).is_none());
    assert!(Grid::new(15, 21, vec![]).is_none());
    assert!(Grid::new(15, 21, vec![single(15, 0)]).is_none());
    assert!(Grid::new(15, 21, vec![single(0, 22)]).is_none());
    assert!(Grid::new(15, 21, vec![shape1(0, 0), single(1, 1)]).is_none());
    let mut bad = single(0, 0);
    bad.orientation = 1;
    assert!(Grid::new(15, 21, vec![bad]).is_none());
    let g = Grid::new(15, 21, vec![shape1(0, 0), single(0, 0)]).unwrap();
    assert_eq!((g.width(), g.depth(), g.cursor(), g.is_game_over()), (15, 21, 1, false));
    assert_eq!(g.shapes().len(), 2);
}

#[test]
fn full_row_at_depth_is_reported() {
    let g = grid(vec![row_piece(0, 21, 15)]);
    assert!(g.row_is_full(21));
    assert!(!g.row_is_full(20));
    assert_eq!(g.get_row_if_full(), Some(21));
}

#[test]
fn no_full_row() {
    let g = grid(vec![row_piece(0, 21, 14)]);
    assert!(g.is_filled(13, 21));
    assert!(!g.is_filled(14, 21));
    assert_eq!(g.get_row_if_full(), None);
}

#[test]
fn topmost_full_row_comes_first() {
    let g = grid(vec![row_piece(0, 21, 15), row_piece(0, 19, 15), single(0, 0)]);
    assert_eq!(g.get_row_if_full(), Some(19));
}

#[test]
fn full_row_from_several_pieces() {
    let g = grid(vec![row_piece(0, 10, 7), row_piece(7, 10, 8), single(0, 0)]);
    assert_eq!(g.get_row_if_full(), Some(10));
}

#[test]
fn move_left_at_first_column_is_rejected() {
    let mut g = grid(vec![shape1(0, 5)]);
    g.move_left();
    assert_eq!(active(&g), (0, 5, 0));
}

#[test]
fn move_left_then_right_returns_to_anchor() {
    let mut g = grid(vec![shape1(5, 5)]);
    g.move_left();
    assert_eq!(active(&g), (4, 5, 0));
    g.move_right();
    assert_eq!(active(&g), (5, 5, 0));
    g.move_right();
    assert_eq!(active(&g), (6, 5, 0));
    g.move_left();
    assert_eq!(active(&g), (5, 5, 0));
}

#[test]
fn move_blocked_by_settled_piece() {
    let mut g = grid(vec![single(4, 6), shape1(5, 5)]);
    g.move_left();
    assert_eq!(active(&g), (5, 5, 0));
}

#[test]
fn move_right_at_wall_is_rejected() {
    let mut g = grid(vec![shape1(12, 0)]);
    g.move_right();
    assert_eq!(active(&g), (12, 0, 0));
}

#[test]
fn rotation_checked_like_moves() {
    let mut g = grid(vec![shape1(5, 5)]);
    g.rotate_cursor();
    assert_eq!(active(&g), (5, 5, 1));
    let mut blocked = grid(vec![single(6, 5), shape1(5, 5)]);
    blocked.rotate_cursor();
    assert_eq!(active(&blocked), (5, 5, 0));
}

#[test]
fn move_down_descends_when_free() {
    let mut g = grid(vec![shape1(5, 0)]);
    assert!(g.move_down_with(shape_for(true)));
    assert_eq!(active(&g), (5, 1, 0));
    assert_eq!(g.shapes().len(), 1);
}

#[test]
fn move_down_at_floor_settles() {
    let mut g = grid(vec![shape2(0, 20)]);
    assert!(!g.move_down_with(shape_for(true)));
    assert_eq!(g.shapes().len(), 2);
    assert_eq!(g.cursor(), 1);
    let old = &g.shapes()[0];
    assert_eq!((old.x, old.y), (0, 20));
    assert_eq!(active(&g), (SPAWN_X, SPAWN_Y, 0));
    assert_eq!(g.shapes()[1].cells.len(), 4);
}

#[test]
fn move_down_onto_settled_piece_settles() {
    let mut g = grid(vec![single(5, 3), single(5, 1)]);
    assert!(g.move_down_with(shape_for(false)));
    assert!(!g.move_down_with(shape_for(false)));
    assert_eq!(g.shapes()[1].y, 2);
    assert_eq!(g.cursor(), 2);
}

#[test]
fn drop_equals_repeated_move_down() {
    let setup = || grid(vec![row_piece(0, 21, 10), single(3, 12), shape2(2, 0)]);
    let mut dropped = setup();
    dropped.drop_with(shape_for(true));
    let mut stepped = setup();
    while stepped.move_down_with(shape_for(true)) {}
    assert_eq!(dropped.occupied_cells(), stepped.occupied_cells());
    assert_eq!(dropped.cursor(), stepped.cursor());
    assert_eq!(dropped.is_game_over(), stepped.is_game_over());
    assert_eq!(dropped.shapes()[2].y, 10);
}

#[test]
fn clearing_a_row_shifts_every_piece_down() {
    let b = piece(10, 20, &[(0, 1), (1, 1), (2, 1), (3, 1), (4, 1), (0, 0)], BLUE);
    let mut g = grid(vec![row_piece(0, 21, 10), b, single(3, 15)]);
    assert_eq!(g.get_row_if_full(), Some(21));
    g.clear_row(21);
    assert_eq!(g.occupied_cells(), vec![(10, 21, BLUE), (3, 16, RED)]);
    assert_eq!(g.shapes()[0].y, 21);
    assert!(g.shapes()[0].current_shape().is_empty());
    assert_eq!(g.get_row_if_full(), None);
}

#[test]
fn clearing_a_middle_row_moves_pieces_on_both_sides() {
    let mut g = grid(vec![single(0, 5), row_piece(0, 10, 15), single(4, 12)]);
    g.clear_row(10);
    assert_eq!(g.occupied_cells(), vec![(0, 6, RED), (4, 13, RED)]);
}

#[test]
fn settling_completes_and_clears_row() {
    let mut g = grid(vec![row_piece(0, 21, 14), single(14, 0)]);
    g.drop_with(shape_for(false));
    assert!(!g.is_game_over());
    assert_eq!(g.cursor(), 2);
    assert_eq!(active(&g), (SPAWN_X, SPAWN_Y + 1, 0));
    assert_eq!(g.occupied_cells(), vec![(5, 1, BLUE), (6, 1, BLUE), (6, 2, BLUE), (7, 2, BLUE)]);
}

#[test]
fn disjoint_pieces_do_not_clash() {
    let g = grid(vec![shape1(0, 0), single(10, 10)]);
    assert!(!g.clashes(&single(3, 1)));
    assert!(!g.clashes(&shape2(4, 4)));
    assert!(!g.clashes(&single(10, 10)));
    assert!(g.clashes(&single(1, 1)));
    assert!(g.clashes(&single(0, 22)));
}

#[test]
fn spawn_onto_settled_cells_ends_the_game() {
    let blocker = piece(5, 1, &[(0, 0), (1, 0), (2, 0)], BLUE);
    let mut g = grid(vec![blocker, single(0, 0)]);
    g.drop_with(shape_for(true));
    assert!(g.is_game_over());
    assert_eq!(g.shapes().len(), 2);
    assert_eq!(active(&g), (0, 21, 0));
    let before = g.occupied_cells();
    g.move_right();
    g.rotate_cursor();
    assert!(!g.move_down_with(shape_for(false)));
    g.drop_with(shape_for(false));
    assert_eq!(g.occupied_cells(), before);
}

#[test]
fn intents_dispatch() {
    let mut g = grid(vec![shape1(5, 0)]);
    g.apply_with(Intent::MoveLeft, shape_for(true));
    assert_eq!(active(&g), (4, 0, 0));
    g.apply_with(Intent::MoveRight, shape_for(true));
    assert_eq!(active(&g), (5, 0, 0));
    g.apply_with(Intent::Rotate, shape_for(true));
    assert_eq!(active(&g), (5, 0, 1));
    g.apply_with(Intent::SoftDropStep, shape_for(true));
    assert_eq!(active(&g), (5, 1, 1));
    g.apply_with(Intent::HardDrop, shape_for(false));
    assert_eq!(g.cursor(), 1);
    assert_eq!(g.shapes()[0].y, 19);
}

#[test]
fn random_spawns_keep_the_game_going() {
    let mut g = grid(vec![shape1(5, 0)]);
    g.apply(Intent::HardDrop);
    assert_eq!(g.shapes().len(), 2);
    assert!(g.move_down());
    g.drop();
    assert_eq!(g.shapes().len(), 3);
}

#[test]
fn pieces_never_share_a_square() {
    let mut g = grid(vec![shape1(5, 0)]);
    let script = [
        Intent::MoveLeft,
        Intent::MoveLeft,
        Intent::Rotate,
        Intent::SoftDropStep,
        Intent::MoveRight,
        Intent::HardDrop,
    ];
    for step in 0..300 {
        let intent = script[step % script.len()];
        g.apply_with(intent, shape_for(step % 3 == 0));
        let cells = g.occupied_cells();
        let distinct: HashSet<(u32, u32)> = cells.iter().map(|&(x, y, _)| (x, y)).collect();
        assert_eq!(distinct.len(), cells.len(), "step {}", step);
        assert!(cells.iter().all(|&(x, y, _)| x < 15 && y <= 21));
    }
    assert!(g.is_game_over());
}

use tetromino_grid::catalog::{make_shape, shape1, shape2, shape_for, BLUE, RED, SPAWN_X, SPAWN_Y};
use tetromino_grid::piece::{Cell, Shape};

fn cells(pairs: &[(u32, u32)]) -> Vec<Cell> {
    pairs.iter().map(|&(x, y)| Cell { x, y }).collect()
}

#[test]
fn new_shape_needs_an_orientation() {
    assert!(Shape::new(0, 0, vec![], RED).is_none());
    let s = Shape::new(3, 4, vec![cells(&[(0, 0)])], RED).unwrap();
    assert_eq!((s.x, s.y, s.orientation, s.colour), (3, 4, 0, RED));
}

#[test]
fn catalog_tables() {
    let t = shape1(5, 0);
    assert_eq!(t.cells.len(), 4);
    assert_eq!(t.cells[0], cells(&[(0, 1), (1, 1), (2, 1), (1, 2)]));
    assert_eq!(t.cells[3], cells(&[(1, 0), (1, 1), (2, 1), (1, 2)]));
    assert_eq!(t.colour, RED);
    let z = shape2(1, 2);
    assert_eq!(z.cells.len(), 2);
    assert_eq!(z.cells[1], cells(&[(2, 0), (1, 1), (2, 1), (1, 2)]));
    assert_eq!((z.x, z.y, z.colour), (1, 2, BLUE));
}

#[test]
fn spawn_choice_follows_the_coin() {
    assert_eq!(shape_for(true).cells.len(), 4);
    assert_eq!(shape_for(false).cells.len(), 2);
    let s = shape_for(false);
    assert_eq!((s.x, s.y), (SPAWN_X, SPAWN_Y));
}

#[test]
fn random_spawn_is_one_of_the_kinds() {
    for _ in 0..20 {
        let s = make_shape();
        assert_eq!((s.x, s.y, s.orientation), (SPAWN_X, SPAWN_Y, 0));
        assert!(
            (s.cells.len() == 4 && s.colour == RED) || (s.cells.len() == 2 && s.colour == BLUE)
        );
    }
}

#[test]
fn rotating_through_every_orientation_returns_to_start() {
    let mut t = shape1(5, 0);
    t.rotate();
    assert_eq!(t.orientation, 1);
    for _ in 0..3 {
        t.rotate();
    }
    assert_eq!(t.orientation, 0);
    let mut z = shape2(5, 0);
    z.rotate();
    z.rotate();
    assert_eq!(z.orientation, 0);
}

#[test]
fn lowest_row_of_shapes() {
    assert_eq!(shape1(5, 3).lowest_y(), 5);
    assert_eq!(shape2(5, 3).lowest_y(), 4);
    let empty = Shape::new(0, 7, vec![vec![]], RED).unwrap();
    assert_eq!(empty.lowest_y(), 7);
}

#[test]
fn current_shape_follows_orientation() {
    let mut z = shape2(0, 0);
    z.rotate();
    assert_eq!(*z.current_shape(), cells(&[(2, 0), (1, 1), (2, 1), (1, 2)]));
}

#[test]
fn covers_absolute_squares() {
    let t = shape1(5, 0);
    assert!(t.covers(5, 1));
    assert!(t.covers(6, 2));
    assert!(!t.covers(5, 0));
    assert!(!t.covers(0, 1));
}

#[test]
fn width_check() {
    assert!(shape1(12, 0).within_width(15));
    assert!(!shape1(13, 0).within_width(15));
    let empty = Shape::new(15, 0, vec![vec![]], RED).unwrap();
    assert!(!empty.within_width(15));
}

#[test]
fn disjoint_pieces_never_collide() {
    let a = shape1(0, 0);
    let far = [(3, 0), (0, 3), (10, 10), (2, 2)];
    for &(x, y) in far.iter() {
        let b = Shape::new(x, y, vec![cells(&[(0, 0)])], BLUE).unwrap();
        assert!(!a.collides(&b), "at {} {}", x, y);
        assert!(!b.collides(&a));
    }
    let touching = Shape::new(1, 1, vec![cells(&[(0, 0)])], BLUE).unwrap();
    assert!(a.collides(&touching));
    assert!(touching.collides(&a));
}

#[test]
fn remove_row_drops_squares_and_shifts() {
    let mut t = shape1(2, 3);
    t.remove_row(4, 21);
    assert_eq!((t.x, t.y), (2, 4));
    assert_eq!(t.cells.len(), 1);
    assert_eq!(t.orientation, 0);
    assert_eq!(t.cells[0], cells(&[(1, 2)]));
    assert!(t.covers(3, 6));
}

#[test]
fn remove_row_untouched_shape_only_shifts() {
    let mut t = shape1(2, 3);
    t.rotate();
    t.remove_row(10, 21);
    assert_eq!((t.x, t.y), (2, 4));
    assert_eq!(t.cells.len(), 4);
    assert_eq!(t.orientation, 1);
}

#[test]
fn remove_row_pushes_squares_off_the_floor() {
    let mut z = shape2(0, 20);
    z.remove_row(3, 21);
    assert_eq!(z.y, 21);
    assert_eq!(*z.current_shape(), cells(&[(0, 0), (1, 0)]));
    let mut gone = Shape::new(0, 21, vec![cells(&[(0, 0)])], RED).unwrap();
    gone.remove_row(21, 21);
    assert_eq!(gone.y, 21);
    assert!(gone.current_shape().is_empty());
}

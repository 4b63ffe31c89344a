use tetromino_grid::gravity::{GravityTimer, DEFAULT_PERIOD_MICROS};

#[test]
fn timer_needs_a_period() {
    assert!(GravityTimer::new(0).is_none());
    assert_eq!(GravityTimer::new(10).unwrap().elapsed(), 0);
}

#[test]
fn timer_fires_once_per_period() {
    let mut t = GravityTimer::new(DEFAULT_PERIOD_MICROS).unwrap();
    assert!(!t.advance(100_000));
    assert!(!t.advance(100_000));
    assert_eq!(t.elapsed(), 200_000);
    assert!(t.advance(100_000));
    assert_eq!(t.elapsed(), 50_000);
    assert!(t.advance(200_000));
    assert_eq!(t.elapsed(), 0);
}

#[test]
fn timer_long_gap_fires_once() {
    let mut t = GravityTimer::new(4).unwrap();
    assert!(t.advance(11));
    assert_eq!(t.elapsed(), 3);
    assert!(t.advance(u64::MAX));
    assert_eq!(t.elapsed(), (3u128 + u64::MAX as u128) as u64 % 4);
}

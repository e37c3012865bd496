use packet_router::router::{ConfigError, Router};

fn drain(r: &mut Router) -> Vec<Vec<i32>> {
    let mut out = Vec::new();
    loop {
        let p = r.forward_packet();
        if p.is_empty() {
            return out;
        }
        out.push(p);
    }
}

#[test]
fn scenario_capacity_three() {
    let mut r = Router::new(3).unwrap();
    assert!(r.add_packet(1, 4, 90));
    assert!(r.add_packet(2, 5, 90));
    assert!(!r.add_packet(1, 4, 90));
    assert!(r.add_packet(3, 5, 95));
    assert!(r.add_packet(4, 5, 105));
    assert_eq!(r.forward_packet(), vec![2, 5, 90]);
    assert!(r.add_packet(5, 2, 110));
    assert_eq!(r.get_count(5, 100, 110), 1);
    assert_eq!(r.get_count(5, 90, 110), 2);
    assert_eq!(r.get_count(4, 0, 1000), 0);
}

#[test]
fn new_rejects_non_positive_capacity() {
    assert_eq!(Router::new(0).unwrap_err(), ConfigError::NonPositiveCapacity(0));
    assert_eq!(Router::new(-7).unwrap_err(), ConfigError::NonPositiveCapacity(-7));
    assert!(Router::new(1).is_ok());
}

#[test]
fn forward_on_empty_returns_nothing() {
    let mut r = Router::new(2).unwrap();
    assert!(r.forward_packet().is_empty());
    assert!(r.add_packet(1, 2, 3));
    assert_eq!(r.forward_packet(), vec![1, 2, 3]);
    assert!(r.forward_packet().is_empty());
}

#[test]
fn duplicate_rejected_and_count_grows_by_one() {
    let mut r = Router::new(5).unwrap();
    assert!(r.add_packet(7, 8, 9));
    assert!(r.add_packet(7, 8, 10));
    assert!(!r.add_packet(7, 8, 10));
    assert_eq!(drain(&mut r).len(), 2);
}

#[test]
fn duplicate_allowed_again_after_consumption() {
    let mut r = Router::new(5).unwrap();
    assert!(r.add_packet(1, 1, 1));
    assert_eq!(r.forward_packet(), vec![1, 1, 1]);
    assert!(r.add_packet(1, 1, 1));
}

#[test]
fn eviction_drops_oldest() {
    let mut r = Router::new(2).unwrap();
    assert!(r.add_packet(1, 10, 1));
    assert!(r.add_packet(2, 10, 2));
    assert!(r.add_packet(3, 10, 3));
    assert_eq!(r.get_count(10, 0, 100), 2);
    assert_eq!(r.get_count(10, 1, 1), 0);
    assert_eq!(drain(&mut r), vec![vec![2, 10, 2], vec![3, 10, 3]]);
}

#[test]
fn capacity_one_keeps_latest() {
    let mut r = Router::new(1).unwrap();
    for t in 0..10 {
        assert!(r.add_packet(t, 3, t));
    }
    assert_eq!(drain(&mut r), vec![vec![9, 3, 9]]);
}

#[test]
fn fifo_order_without_eviction() {
    let mut r = Router::new(10).unwrap();
    let input = vec![(5, 1, 10), (3, 2, 11), (9, 1, 12), (1, 3, 13)];
    for &(s, d, t) in &input {
        assert!(r.add_packet(s, d, t));
    }
    let out = drain(&mut r);
    let expected: Vec<Vec<i32>> = input.iter().map(|&(s, d, t)| vec![s, d, t]).collect();
    assert_eq!(out, expected);
}

#[test]
fn range_count_matches_linear_scan() {
    let mut r = Router::new(6).unwrap();
    let mut pending: Vec<(i32, i32, i32)> = Vec::new();
    let input = vec![
        (1, 1, 5),
        (2, 1, 5),
        (3, 2, 6),
        (4, 1, 8),
        (5, 1, 8),
        (6, 2, 9),
        (7, 1, 12),
        (8, 1, 15),
    ];
    for &(s, d, t) in &input {
        assert!(r.add_packet(s, d, t));
        pending.push((s, d, t));
        if pending.len() > 6 {
            pending.remove(0);
        }
    }
    for d in 0..4 {
        for s in 0..17 {
            for e in 0..17 {
                let expected = pending
                    .iter()
                    .filter(|p| p.1 == d && s <= p.2 && p.2 <= e)
                    .count() as i32;
                assert_eq!(r.get_count(d, s, e), expected, "d={} s={} e={}", d, s, e);
            }
        }
    }
}

#[test]
fn single_packet_boundary_window() {
    let mut r = Router::new(4).unwrap();
    assert!(r.add_packet(1, 9, 50));
    assert_eq!(r.get_count(9, 50, 50), 1);
    assert_eq!(r.get_count(9, 51, 51), 0);
    assert_eq!(r.get_count(8, 50, 50), 0);
}

#[test]
fn inverted_window_counts_zero() {
    let mut r = Router::new(4).unwrap();
    assert!(r.add_packet(1, 9, 50));
    assert!(r.add_packet(2, 9, 60));
    assert_eq!(r.get_count(9, 60, 50), 0);
}

#[test]
fn equal_timestamps_from_different_sources() {
    let mut r = Router::new(4).unwrap();
    assert!(r.add_packet(1, 7, 20));
    assert!(r.add_packet(2, 7, 20));
    assert_eq!(r.get_count(7, 20, 20), 2);
    assert_eq!(r.forward_packet(), vec![1, 7, 20]);
    assert_eq!(r.get_count(7, 20, 20), 1);
    assert_eq!(r.forward_packet(), vec![2, 7, 20]);
    assert_eq!(r.get_count(7, 20, 20), 0);
}

#[test]
fn extreme_values_are_distinct_keys() {
    let mut r = Router::new(8).unwrap();
    assert!(r.add_packet(i32::MIN, i32::MIN, i32::MIN));
    assert!(r.add_packet(i32::MAX, i32::MIN, i32::MIN));
    assert!(r.add_packet(i32::MIN, i32::MAX, i32::MIN));
    assert!(r.add_packet(i32::MIN, i32::MIN, i32::MAX));
    assert!(r.add_packet(-1, 0, 0));
    assert!(r.add_packet(0, -1, 0));
    assert!(!r.add_packet(i32::MAX, i32::MIN, i32::MIN));
    assert_eq!(r.get_count(i32::MIN, i32::MIN, i32::MAX), 3);
    assert_eq!(drain(&mut r).len(), 6);
}

#[test]
fn full_window_at_capacity() {
    let mut r = Router::new(3).unwrap();
    assert!(r.add_packet(1, 1, 1));
    assert!(r.add_packet(2, 1, 2));
    assert!(r.add_packet(3, 1, 3));
    assert_eq!(r.get_count(1, i32::MIN, i32::MAX), 3);
    assert!(r.add_packet(4, 1, 4));
    assert_eq!(r.get_count(1, i32::MIN, i32::MAX), 3);
    assert_eq!(r.get_count(1, 2, 3), 2);
}

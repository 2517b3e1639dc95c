use rgzip::blocks::window::{DISTANCE_EXTRA, DISTANCE_START, LENGTH_EXTRA, LENGTH_START};

#[test]
fn blockfixed_ensure_lengths_are_consistent() {
    let n = 285 - 257 + 1;
    assert!(LENGTH_EXTRA.len() == n);
    assert!(LENGTH_START.len() == n);
    // We count only up to 227, because 258 has a double encoding.
    for i in 0..(LENGTH_EXTRA.len() - 2) {
        assert!(LENGTH_START[i + 1] == LENGTH_START[i] + (1 << LENGTH_EXTRA[i]));
    }
}

#[test]
fn blockfixed_ensure_distances_are_consistent() {
    for i in 0..(DISTANCE_EXTRA.len() - 1) {
        assert!(DISTANCE_START[i + 1] == DISTANCE_START[i] + (1 << DISTANCE_EXTRA[i]));
    }
}

#[test]
fn window_ensure_lengths_are_consistent() {
    let n = 285 - 257 + 1;
    assert!(LENGTH_EXTRA.len() == n);
    assert!(LENGTH_START.len() == n);
    // We count only up to 227, because 258 has a double encoding.
    for i in 0..(LENGTH_EXTRA.len() - 2) {
        assert!(LENGTH_START[i + 1] == LENGTH_START[i] + (1 << LENGTH_EXTRA[i]));
    }
}

#[test]
fn window_ensure_distances_are_consistent() {
    for i in 0..(DISTANCE_EXTRA.len() - 1) {
        assert!(DISTANCE_START[i + 1] == DISTANCE_START[i] + (1 << DISTANCE_EXTRA[i]));
    }
}

#[test]
fn tables_reach_the_ends_of_their_ranges() {
    assert_eq!(LENGTH_START[0], 3);
    assert_eq!(LENGTH_START[28], 258);
    assert_eq!(LENGTH_EXTRA[28], 0);
    assert_eq!(LENGTH_START[27] + (1 << LENGTH_EXTRA[27]) - 1, 258);
    assert_eq!(DISTANCE_START[0], 1);
    assert_eq!(DISTANCE_START[29], 24577);
    assert_eq!(DISTANCE_START[29] + (1 << DISTANCE_EXTRA[29]) - 1, 32768);
}

use sudoku_sat::peers::must_be_different_to;

#[test]
fn corner_cell_has_twenty_peers_in_row_major_order() {
    let peers = must_be_different_to(0, 0);
    let expected: Vec<(usize, usize)> = vec![
        (0, 1), (0, 2), (0, 3), (0, 4), (0, 5), (0, 6), (0, 7), (0, 8),
        (1, 0), (1, 1), (1, 2),
        (2, 0), (2, 1), (2, 2),
        (3, 0), (4, 0), (5, 0), (6, 0), (7, 0), (8, 0),
    ];
    assert_eq!(peers, expected);
}

#[test]
fn centre_cell_peers() {
    let peers = must_be_different_to(4, 4);
    assert_eq!(peers.len(), 20);
    assert!(peers.contains(&(3, 3)));
    assert!(peers.contains(&(5, 5)));
    assert!(peers.contains(&(4, 0)));
    assert!(peers.contains(&(0, 4)));
    assert!(!peers.contains(&(4, 4)));
    assert!(!peers.contains(&(2, 2)));
    assert!(!peers.contains(&(6, 3)));
}

#[test]
fn every_cell_has_twenty_distinct_peers() {
    for x in 0..9 {
        for y in 0..9 {
            let peers = must_be_different_to(x, y);
            assert_eq!(peers.len(), 20);
            let mut sorted = peers.clone();
            sorted.sort();
            sorted.dedup();
            assert_eq!(sorted.len(), 20);
        }
    }
}

#[test]
fn no_cell_is_its_own_peer() {
    for x in 0..9 {
        for y in 0..9 {
            assert!(!must_be_different_to(x, y).contains(&(x, y)));
        }
    }
}

#[test]
fn peer_relation_is_symmetric() {
    for x in 0..9 {
        for y in 0..9 {
            for (i, j) in must_be_different_to(x, y) {
                assert!(must_be_different_to(i, j).contains(&(x, y)));
            }
        }
    }
}

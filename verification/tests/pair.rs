use discrete::pair::triangle_number;
use discrete::{Construct, Count, Data, NeqPair, Pair, ToIndex, ToPos, Zero};

#[test]
fn pair_counts() {
    let x: Pair<Data> = Construct::new();
    assert_eq!(x.count(0), 0);
    assert_eq!(x.count(1), 0);
    assert_eq!(x.count(2), 1);
    assert_eq!(x.count(3), 3);
    assert_eq!(x.count(4), 6);
    assert_eq!(triangle_number(100), 4950);
    assert_eq!(triangle_number(101), 5050);
}

#[test]
fn pair_indices() {
    let x: Pair<Data> = Construct::new();
    assert_eq!(x.to_index(4, &(0, 1)), 0);
    assert_eq!(x.to_index(4, &(0, 2)), 1);
    assert_eq!(x.to_index(4, &(1, 2)), 2);
    assert_eq!(x.to_index(4, &(0, 3)), 3);
    assert_eq!(x.to_index(4, &(2, 3)), 5);
    assert_eq!(x.zero(4), (0, 1));
}

#[test]
fn pair_round_trip_every_index() {
    let x: Pair<Data> = Construct::new();
    let n = 30;
    let mut pos = (0, 0);
    for i in 0..x.count(n) {
        x.to_pos(n, i, &mut pos);
        assert!(pos.0 < pos.1 && pos.1 < n);
        assert_eq!(x.to_index(n, &pos), i);
    }
    x.to_pos(n, 434, &mut pos);
    assert_eq!(pos, (28, 29));
}

#[test]
fn neq_pair_counts_ordered_pairs() {
    let x: NeqPair<Data> = Construct::new();
    assert_eq!(x.count(0), 0);
    assert_eq!(x.count(1), 0);
    assert_eq!(x.count(2), 2);
    assert_eq!(x.count(5), 20);
    assert_eq!(x.zero(5), (0, 1));
}

#[test]
fn neq_pair_round_trip() {
    let x: NeqPair<Data> = Construct::new();
    assert_eq!(x.to_index(4, &(0, 1)), 0);
    assert_eq!(x.to_index(4, &(1, 0)), 1);
    assert_eq!(x.to_index(4, &(1, 2)), 4);
    assert_eq!(x.to_index(4, &(3, 2)), 11);
    let mut pos = (0, 0);
    for i in 0..x.count(6) {
        x.to_pos(6, i, &mut pos);
        assert!(pos.0 != pos.1 && pos.0 < 6 && pos.1 < 6);
        assert_eq!(x.to_index(6, &pos), i);
    }
    for a in 0..6 {
        for b in 0..6 {
            if a != b {
                let i = x.to_index(6, &(a, b));
                x.to_pos(6, i, &mut pos);
                assert_eq!(pos, (a, b));
            }
        }
    }
}

use discrete::permutation::factorial_number;
use discrete::{Construct, Count, Data, Of, Pair, Permutation, Subspace, ToIndex, ToPos};

#[test]
fn permutation_data() {
    let permutation: Permutation<Data> = Construct::new();
    assert_eq!(permutation.count(1), 1);
    assert_eq!(permutation.count(2), 2);
    assert_eq!(permutation.count(3), 6);
    assert_eq!(permutation.count(4), 24);

    let mut pos = Vec::new();
    let dim = 4;
    let count = permutation.count(dim);
    for i in 0..count {
        permutation.to_pos(dim, i, &mut pos);
        let index = permutation.to_index(dim, &pos);
        assert_eq!(index, i);
    }
}

#[test]
fn permutation_of() {
    let space: Permutation<Of<Pair<Data>>> = Construct::new();
    let dim = 3;
    let count = space.count(dim);
    let mut pos = Vec::new();
    for i in 0..count {
        space.to_pos(dim, i, &mut pos);
        let index = space.to_index(dim, &pos);
        assert_eq!(index, i);
    }
}

#[test]
fn permutations_of_four_are_all_distinct() {
    let permutation: Permutation<Data> = Construct::new();
    let mut seen: Vec<Vec<usize>> = Vec::new();
    let mut pos = Vec::new();
    for i in 0..24 {
        permutation.to_pos(4, i, &mut pos);
        assert_eq!(pos.len(), 4);
        let mut sorted = pos.clone();
        sorted.sort();
        assert_eq!(sorted, vec![0, 1, 2, 3]);
        assert!(!seen.contains(&pos));
        seen.push(pos.clone());
    }
    assert_eq!(seen.len(), 24);
}

#[test]
fn permutations_come_in_lexicographic_order() {
    let permutation: Permutation<Data> = Construct::new();
    let mut pos = Vec::new();
    let expected: Vec<Vec<usize>> = vec![
        vec![0, 1, 2],
        vec![0, 2, 1],
        vec![1, 0, 2],
        vec![1, 2, 0],
        vec![2, 0, 1],
        vec![2, 1, 0],
    ];
    for i in 0..6 {
        permutation.to_pos(3, i, &mut pos);
        assert_eq!(pos, expected[i]);
        assert_eq!(permutation.to_index(3, &expected[i]), i);
    }
}

#[test]
fn permutation_rank_by_lehmer_code() {
    let permutation: Permutation<Data> = Construct::new();
    assert_eq!(permutation.to_index(4, &vec![0, 1, 2, 3]), 0);
    assert_eq!(permutation.to_index(4, &vec![3, 2, 1, 0]), 23);
    assert_eq!(permutation.to_index(4, &vec![1, 3, 0, 2]), 10);
    assert_eq!(permutation.to_index(5, &vec![4, 0, 3, 1, 2]), 4 * 24 + 0 * 6 + 2 * 2 + 0 * 1);
    let mut pos = vec![8, 8];
    permutation.to_pos(4, 10, &mut pos);
    assert_eq!(pos, vec![1, 3, 0, 2]);
    permutation.to_pos(5, 100, &mut pos);
    assert_eq!(pos, vec![4, 0, 3, 1, 2]);
}

#[test]
fn permutation_of_nothing() {
    let permutation: Permutation<Data> = Construct::new();
    assert_eq!(permutation.count(0), 1);
    let mut pos = vec![3, 1];
    permutation.to_pos(0, 0, &mut pos);
    assert!(pos.is_empty());
    assert_eq!(permutation.to_index(0, &pos), 0);
}

#[test]
fn factorials() {
    assert_eq!(factorial_number(0), 1);
    assert_eq!(factorial_number(5), 120);
    assert_eq!(factorial_number(12), 479001600);
}

#[test]
fn permutation_of_pairs_lists_every_pair_once() {
    let space: Permutation<Of<Pair<Data>>> = Construct::new();
    assert_eq!(space.count(3), 6);
    assert_eq!(space.count(4), 720);
    let mut pos = Vec::new();
    space.to_pos(3, 0, &mut pos);
    assert_eq!(pos, vec![(0, 1), (0, 2), (1, 2)]);
    space.to_pos(3, 5, &mut pos);
    assert_eq!(pos, vec![(1, 2), (0, 2), (0, 1)]);
    assert_eq!(space.to_index(3, &vec![(0, 2), (1, 2), (0, 1)]), 3);
    let mut seen: Vec<Vec<(usize, usize)>> = Vec::new();
    for i in 0..6 {
        space.to_pos(3, i, &mut pos);
        assert!(!seen.contains(&pos));
        seen.push(pos.clone());
    }
}

#[test]
fn subspace_of_permutation_and_pair() {
    let space: Permutation<Subspace<Pair>> = Construct::new();
    let dim = (3usize, 4usize);
    assert_eq!(space.count(dim), 36);
    assert_eq!(space.to_index(dim, &(vec![0, 1, 2], (0, 1))), 0);
    assert_eq!(space.to_index(dim, &(vec![0, 1, 2], (1, 2))), 2);
    assert_eq!(space.to_index(dim, &(vec![0, 2, 1], (0, 1))), 6);
    assert_eq!(space.to_index(dim, &(vec![2, 1, 0], (2, 3))), 35);
    let mut pos = (Vec::new(), (0, 0));
    for i in 0..36 {
        space.to_pos(dim, i, &mut pos);
        assert_eq!(space.to_index(dim, &pos), i);
    }
    space.to_pos(dim, 20, &mut pos);
    assert_eq!(pos, (vec![1, 2, 0], (1, 2)));
}

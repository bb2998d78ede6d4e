use discrete::{
    Checked, Construct, Context, Data, DimensionN, DirectedContext, Error, NeqPair, Of, Pair,
    Permutation, Subspace,
};

#[test]
fn grid_reports_shapes_that_do_not_fit() {
    let x: DimensionN = Construct::new();
    let big: &[usize] = &[usize::MAX, 2];
    assert!(!x.shape_fits(big));
    assert_eq!(x.try_count(big), Err(Error::ShapeTooLarge));
    assert_eq!(x.try_to_index(big, &vec![0, 0]), Err(Error::ShapeTooLarge));
    let mut pos = vec![4];
    assert_eq!(x.try_to_pos(big, 0, &mut pos), Err(Error::ShapeTooLarge));
    assert_eq!(pos, vec![4]);
    let edge: &[usize] = &[usize::MAX, 1];
    assert_eq!(x.try_count(edge), Ok(usize::MAX));
    let empty: &[usize] = &[usize::MAX, usize::MAX, 0];
    assert_eq!(x.try_count(empty), Ok(0));
}

#[test]
fn grid_reports_positions_that_do_not_match() {
    let x: DimensionN = Construct::new();
    let dim: &[usize] = &[3, 3];
    assert_eq!(x.try_to_index(dim, &vec![0, 1]), Ok(3));
    assert_eq!(x.try_to_index(dim, &vec![2, 2]), Ok(8));
    assert_eq!(x.try_to_index(dim, &vec![0]), Err(Error::ShapePositionMismatch));
    assert_eq!(x.try_to_index(dim, &vec![0, 1, 0]), Err(Error::ShapePositionMismatch));
    assert_eq!(x.try_to_index(dim, &vec![3, 0]), Err(Error::ShapePositionMismatch));
    assert_eq!(x.check(dim, &vec![2, 2]), Ok(()));
    assert_eq!(x.check(dim, &vec![2, 3]), Err(Error::ShapePositionMismatch));
}

#[test]
fn grid_reports_indices_out_of_range() {
    let x: DimensionN = Construct::new();
    let dim: &[usize] = &[3, 3];
    let mut pos = vec![7, 7, 7];
    assert_eq!(x.try_to_pos(dim, 9, &mut pos), Err(Error::OutOfRangeIndex));
    assert_eq!(pos, vec![7, 7, 7]);
    assert_eq!(x.try_to_pos(dim, 3, &mut pos), Ok(()));
    assert_eq!(pos, vec![0, 1]);
    let empty: &[usize] = &[3, 0];
    assert_eq!(x.try_to_pos(empty, 0, &mut pos), Err(Error::OutOfRangeIndex));
    assert_eq!(x.try_to_index(empty, &vec![0, 0]), Err(Error::ShapePositionMismatch));
}

#[test]
fn permutation_reports_what_is_no_permutation() {
    let x: Permutation<Data> = Construct::new();
    assert_eq!(x.try_count(5), Ok(120));
    assert_eq!(x.try_count(100), Err(Error::ShapeTooLarge));
    assert_eq!(x.try_to_index(100, &vec![0]), Err(Error::ShapeTooLarge));
    assert_eq!(x.try_to_index(4, &vec![1, 3, 0, 2]), Ok(10));
    assert_eq!(x.try_to_index(4, &vec![1, 3, 0]), Err(Error::ShapePositionMismatch));
    assert_eq!(x.try_to_index(4, &vec![1, 3, 0, 1]), Err(Error::NotAPermutation));
    assert_eq!(x.try_to_index(4, &vec![1, 3, 0, 4]), Err(Error::NotAPermutation));
    let mut pos = vec![9];
    assert_eq!(x.try_to_pos(4, 24, &mut pos), Err(Error::OutOfRangeIndex));
    assert_eq!(pos, vec![9]);
    assert_eq!(x.try_to_pos(4, 23, &mut pos), Ok(()));
    assert_eq!(pos, vec![3, 2, 1, 0]);
}

#[test]
fn pairs_report_their_faults() {
    let x: Pair<Data> = Construct::new();
    assert_eq!(x.try_count(4), Ok(6));
    assert_eq!(x.try_count(usize::MAX), Err(Error::ShapeTooLarge));
    assert_eq!(x.try_to_index(4, &(1, 3)), Ok(4));
    assert_eq!(x.try_to_index(4, &(3, 1)), Err(Error::ShapePositionMismatch));
    assert_eq!(x.try_to_index(4, &(2, 2)), Err(Error::ShapePositionMismatch));
    assert_eq!(x.try_to_index(4, &(1, 4)), Err(Error::ShapePositionMismatch));
    let mut pos = (8, 9);
    assert_eq!(x.try_to_pos(4, 6, &mut pos), Err(Error::OutOfRangeIndex));
    assert_eq!(pos, (8, 9));
    assert_eq!(x.try_to_pos(4, 5, &mut pos), Ok(()));
    assert_eq!(pos, (2, 3));
    let y: NeqPair<Data> = Construct::new();
    assert_eq!(y.try_count(4), Ok(12));
    assert_eq!(y.try_count(usize::MAX), Err(Error::ShapeTooLarge));
    assert_eq!(y.try_to_index(4, &(3, 1)), Ok(9));
    assert_eq!(y.try_to_index(4, &(3, 3)), Err(Error::ShapePositionMismatch));
    assert_eq!(y.try_to_index(4, &(4, 3)), Err(Error::ShapePositionMismatch));
    assert_eq!(y.try_to_pos(4, 12, &mut pos), Err(Error::OutOfRangeIndex));
}

#[test]
fn sequences_pass_on_the_fault_of_their_first_bad_slot() {
    let x: DimensionN<Of<Permutation<Data>>> = Construct::new();
    let dim = [2usize, 3usize];
    assert_eq!(x.try_count(&dim), Ok(12));
    assert_eq!(x.try_to_index(&dim, &vec![vec![1, 0], vec![0, 1, 2]]), Ok(1));
    assert_eq!(x.try_to_index(&dim, &vec![vec![0, 1], vec![0, 2, 1]]), Ok(2));
    assert_eq!(
        x.try_to_index(&dim, &vec![vec![0, 1], vec![1, 1, 2]]),
        Err(Error::NotAPermutation)
    );
    assert_eq!(
        x.try_to_index(&dim, &vec![vec![0], vec![1, 1, 2]]),
        Err(Error::ShapePositionMismatch)
    );
    assert_eq!(x.try_to_index(&dim, &vec![vec![0, 1]]), Err(Error::ShapePositionMismatch));
    let huge = [2usize, 100usize];
    assert_eq!(x.try_count(&huge), Err(Error::ShapeTooLarge));
    let mut pos = Vec::new();
    assert_eq!(x.try_to_pos(&dim, 12, &mut pos), Err(Error::OutOfRangeIndex));
    assert_eq!(x.try_to_pos(&dim, 11, &mut pos), Ok(()));
    assert_eq!(pos, vec![vec![1, 0], vec![2, 1, 0]]);
    let wide = [40usize, 40usize, 40usize, 0usize];
    let y: DimensionN<Of<Pair>> = Construct::new();
    assert_eq!(y.try_count(&wide), Ok(0));
}

#[test]
fn permutations_of_positions_report_their_faults() {
    let x: Permutation<Of<Pair<Data>>> = Construct::new();
    assert_eq!(x.try_count(3), Ok(6));
    assert_eq!(x.try_count(9), Err(Error::ShapeTooLarge));
    assert_eq!(x.try_to_index(3, &vec![(0, 2), (1, 2), (0, 1)]), Ok(3));
    assert_eq!(x.try_to_index(3, &vec![(0, 2), (1, 2)]), Err(Error::ShapePositionMismatch));
    assert_eq!(
        x.try_to_index(3, &vec![(0, 2), (1, 2), (0, 2)]),
        Err(Error::NotAPermutation)
    );
    assert_eq!(
        x.try_to_index(3, &vec![(0, 2), (2, 1), (0, 1)]),
        Err(Error::ShapePositionMismatch)
    );
}

#[test]
fn products_report_the_outer_fault_first() {
    let x: Permutation<Subspace<Pair>> = Construct::new();
    let dim = (3usize, 4usize);
    assert_eq!(x.try_count(dim), Ok(36));
    assert_eq!(x.try_count((30usize, 4usize)), Err(Error::ShapeTooLarge));
    assert_eq!(x.try_count((3usize, usize::MAX)), Err(Error::ShapeTooLarge));
    assert_eq!(x.try_to_index(dim, &(vec![1, 2, 0], (1, 2))), Ok(20));
    assert_eq!(x.try_to_index(dim, &(vec![1, 2, 2], (2, 1))), Err(Error::NotAPermutation));
    assert_eq!(
        x.try_to_index(dim, &(vec![1, 2, 0], (2, 1))),
        Err(Error::ShapePositionMismatch)
    );
    let y: DimensionN<Subspace<Permutation<Data>>> = Construct::new();
    let outer: &[usize] = &[2, 2];
    assert_eq!(y.try_count((outer, 3usize)), Ok(24));
    assert_eq!(y.try_to_index((outer, 3usize), &(vec![1, 1], vec![2, 1, 0])), Ok(23));
    assert_eq!(
        y.try_to_index((outer, 3usize), &(vec![1, 2], vec![2, 2, 0])),
        Err(Error::ShapePositionMismatch)
    );
    assert_eq!(
        y.try_to_index((outer, 3usize), &(vec![1, 1], vec![2, 2, 0])),
        Err(Error::NotAPermutation)
    );
    let mut pos = (vec![5], vec![6]);
    assert_eq!(y.try_to_pos((outer, 3usize), 24, &mut pos), Err(Error::OutOfRangeIndex));
    assert_eq!(pos, (vec![5], vec![6]));
}

#[test]
fn edges_report_their_faults() {
    let x: Context<Data> = Construct::new();
    let y: DirectedContext<Data> = Construct::new();
    let dim: &[usize] = &[3, 2];
    assert_eq!(x.try_count(dim), Ok(9));
    assert_eq!(y.try_count(dim), Ok(18));
    assert_eq!(x.try_to_index(dim, &(vec![1, 1], 0, 2)), Ok(5));
    assert_eq!(x.try_to_index(dim, &(vec![2, 1], 0, 1)), Err(Error::ShapePositionMismatch));
    assert_eq!(y.try_to_index(dim, &(vec![2, 1], 0, 1)), Ok(11));
    assert_eq!(y.try_to_index(dim, &(vec![2, 1], 0, 2)), Err(Error::ShapePositionMismatch));
    assert_eq!(y.try_to_index(dim, &(vec![2, 1], 2, 0)), Err(Error::ShapePositionMismatch));
    assert_eq!(y.try_to_index(dim, &(vec![2, 1], 1, 2)), Err(Error::ShapePositionMismatch));
    assert_eq!(y.try_to_index(dim, &(vec![2, 2], 0, 1)), Err(Error::ShapePositionMismatch));
    assert_eq!(y.try_to_index(dim, &(vec![2], 0, 1)), Err(Error::ShapePositionMismatch));
    let mut pos = (vec![4], 5, 6);
    assert_eq!(x.try_to_pos(dim, 9, &mut pos), Err(Error::OutOfRangeIndex));
    assert_eq!(y.try_to_pos(dim, 18, &mut pos), Err(Error::OutOfRangeIndex));
    assert_eq!(pos, (vec![4], 5, 6));
    assert_eq!(y.try_to_pos(dim, 17, &mut pos), Ok(()));
    assert_eq!(pos, (vec![2, 1], 1, 0));
    let long: &[usize] = &[usize::MAX];
    assert_eq!(x.try_count(long), Err(Error::ShapeTooLarge));
    assert_eq!(y.try_count(long), Err(Error::ShapeTooLarge));
    let wide: &[usize] = &[usize::MAX, 2];
    assert_eq!(x.try_count(wide), Err(Error::ShapeTooLarge));
    let empty: &[usize] = &[usize::MAX, usize::MAX, 0];
    assert_eq!(x.try_count(empty), Ok(0));
    assert_eq!(y.try_count(empty), Ok(0));
}

use discrete::{
    Construct, Count, Data, DeepView, DimensionN, Of, Pair, Space, Subspace, ToIndex, ToPos, Zero,
};

fn is_complete<T, U, V>()
where
    T: Space + Construct + Count<U> + ToPos<U, V> + ToIndex<U, V>,
    U: DeepView<V = T::Dim>,
    V: DeepView<V = T::Pos>,
{
}

fn does_zero<T, U, V>()
where
    T: Space + Construct + Count<U> + ToPos<U, V> + Zero<U, V>,
    U: DeepView<V = T::Dim>,
    V: DeepView<V = T::Pos>,
{
}

#[test]
fn features() {
    is_complete::<DimensionN, &[usize], Vec<usize>>();
    does_zero::<DimensionN, &[usize], Vec<usize>>();
    does_zero::<DimensionN<Of<Pair>>, &[usize], Vec<(usize, usize)>>();
}

#[test]
fn dimension_n_data() {
    let x: DimensionN = Construct::new();
    let dim = &[3, 3];
    assert_eq!(x.count(dim), 9);
    assert_eq!(x.to_index(dim, &vec![0, 0]), 0);
    assert_eq!(x.to_index(dim, &vec![1, 0]), 1);
    assert_eq!(x.to_index(dim, &vec![0, 1]), 3);
    let mut new_pos = vec![0, 0];
    x.to_pos(dim, 3, &mut new_pos);
    assert_eq!(&new_pos, &[0, 1]);
}

#[test]
fn dimension_n_of() {
    let x: DimensionN<Of<Pair>> = Construct::new();
    let dim = [3, 4];
    assert_eq!(x.count(&dim), 18);
    assert_eq!(x.to_index(&dim, &vec![(0, 1), (0, 1)]), 0);
    assert_eq!(x.to_index(&dim, &vec![(0, 2), (0, 1)]), 1);
    assert_eq!(x.to_index(&dim, &vec![(1, 2), (0, 1)]), 2);
    assert_eq!(x.to_index(&dim, &vec![(0, 1), (0, 2)]), 3);
    let mut pos = vec![(0, 0), (0, 0)];
    x.to_pos(&dim, 3, &mut pos);
    assert_eq!(pos[0], (0, 1));
    assert_eq!(pos[1], (0, 2));
}

#[test]
fn grid_round_trip_every_index() {
    let x: DimensionN = Construct::new();
    let dim: &[usize] = &[2, 3, 4];
    let n = x.count(dim);
    assert_eq!(n, 24);
    let mut seen: Vec<Vec<usize>> = Vec::new();
    let mut pos = Vec::new();
    for i in 0..n {
        x.to_pos(dim, i, &mut pos);
        assert_eq!(pos.len(), 3);
        for k in 0..3 {
            assert!(pos[k] < dim[k]);
        }
        assert_eq!(x.to_index(dim, &pos), i);
        assert!(!seen.contains(&pos));
        seen.push(pos.clone());
    }
}

#[test]
fn grid_position_round_trip() {
    let x: DimensionN = Construct::new();
    let dim: &[usize] = &[3, 2];
    let mut back = Vec::new();
    for a in 0..3 {
        for b in 0..2 {
            let pos = vec![a, b];
            let i = x.to_index(dim, &pos);
            assert_eq!(i, a + 3 * b);
            assert!(i < x.count(dim));
            x.to_pos(dim, i, &mut back);
            assert_eq!(back, pos);
        }
    }
}

#[test]
fn grid_strides() {
    let x: DimensionN = Construct::new();
    let dim: &[usize] = &[5, 7, 11];
    assert_eq!(x.count(dim), 385);
    assert_eq!(x.to_index(dim, &vec![1, 0, 0]), 1);
    assert_eq!(x.to_index(dim, &vec![0, 1, 0]), 5);
    assert_eq!(x.to_index(dim, &vec![0, 0, 1]), 35);
    assert_eq!(x.to_index(dim, &vec![4, 6, 10]), 384);
    let mut pos = vec![9, 9, 9, 9, 9];
    x.to_pos(dim, 384, &mut pos);
    assert_eq!(pos, vec![4, 6, 10]);
    x.to_pos(dim, 47, &mut pos);
    assert_eq!(pos, vec![2, 2, 1]);
}

#[test]
fn grid_without_axes_has_one_position() {
    let x: DimensionN = Construct::new();
    let dim: &[usize] = &[];
    assert_eq!(x.count(dim), 1);
    let mut pos = vec![7, 7];
    x.to_pos(dim, 0, &mut pos);
    assert!(pos.is_empty());
    assert_eq!(x.to_index(dim, &pos), 0);
    assert!(x.zero(dim).is_empty());
}

#[test]
fn grid_with_empty_axis_has_no_position() {
    let x: DimensionN = Construct::new();
    let dim: &[usize] = &[3, 0, 4];
    assert_eq!(x.count(dim), 0);
    let big: &[usize] = &[usize::MAX, usize::MAX, 0];
    assert_eq!(x.count(big), 0);
    assert_eq!(x.zero(dim), vec![0, 0, 0]);
}

#[test]
fn grid_zero_is_at_index_zero() {
    let x: DimensionN = Construct::new();
    let dim: &[usize] = &[4, 2, 3];
    let z = x.zero(dim);
    assert_eq!(z, vec![0, 0, 0]);
    assert_eq!(x.to_index(dim, &z), 0);
    let mut pos = Vec::new();
    x.to_pos(dim, 0, &mut pos);
    assert_eq!(pos, z);
}

#[test]
fn of_zero_is_at_index_zero() {
    let x: DimensionN<Of<Pair>> = Construct::new();
    let dim = [3, 4];
    let z = x.zero(&dim);
    assert_eq!(z, vec![(0, 1), (0, 1)]);
    assert_eq!(x.to_index(&dim, &z), 0);
}

#[test]
fn of_round_trip_every_index() {
    let x: DimensionN<Of<Pair>> = Construct::new();
    let dim = [3, 4, 2];
    let n = x.count(&dim);
    assert_eq!(n, 18);
    let mut pos = Vec::new();
    let mut seen: Vec<Vec<(usize, usize)>> = Vec::new();
    for i in 0..n {
        x.to_pos(&dim, i, &mut pos);
        assert_eq!(pos.len(), 3);
        assert_eq!(x.to_index(&dim, &pos), i);
        assert!(!seen.contains(&pos));
        seen.push(pos.clone());
    }
    x.to_pos(&dim, 17, &mut pos);
    assert_eq!(pos, vec![(1, 2), (2, 3), (0, 1)]);
}

#[test]
fn of_resets_the_buffer() {
    let x: DimensionN<Of<Pair>> = Construct::new();
    let dim = [3, 4];
    let mut long = vec![(9, 9); 5];
    x.to_pos(&dim, 3, &mut long);
    assert_eq!(long, vec![(0, 1), (0, 2)]);
    let mut short = Vec::new();
    x.to_pos(&dim, 4, &mut short);
    assert_eq!(short, vec![(0, 2), (0, 2)]);
}

#[test]
fn of_nested_grids() {
    let x: DimensionN<Of<DimensionN>> = Construct::new();
    let a: &[usize] = &[2, 2];
    let b: &[usize] = &[3];
    let dim = [a, b];
    assert_eq!(x.count(&dim), 12);
    let mut pos: Vec<Vec<usize>> = Vec::new();
    for i in 0..12 {
        x.to_pos(&dim, i, &mut pos);
        assert_eq!(x.to_index(&dim, &pos), i);
    }
    assert_eq!(x.to_index(&dim, &vec![vec![1, 1], vec![2]]), 11);
    assert_eq!(x.to_index(&dim, &vec![vec![0, 0], vec![1]]), 4);
}

#[test]
fn subspace_of_grid_and_pair() {
    let x: DimensionN<Subspace<Pair>> = Construct::new();
    let outer: &[usize] = &[2, 3];
    let dim = (outer, 4usize);
    assert_eq!(x.count(dim), 36);
    assert_eq!(x.to_index(dim, &(vec![0, 0], (0, 1))), 0);
    assert_eq!(x.to_index(dim, &(vec![0, 0], (0, 2))), 1);
    assert_eq!(x.to_index(dim, &(vec![1, 0], (0, 1))), 6);
    assert_eq!(x.to_index(dim, &(vec![1, 2], (2, 3))), 35);
    let mut pos = (Vec::new(), (0, 0));
    for i in 0..36 {
        x.to_pos(dim, i, &mut pos);
        assert_eq!(x.to_index(dim, &pos), i);
    }
    x.to_pos(dim, 13, &mut pos);
    assert_eq!(pos, (vec![0, 1], (0, 2)));
}

#[test]
fn data_marker_is_the_default() {
    let x: DimensionN<Data> = Construct::new();
    let dim: &[usize] = &[3, 3];
    assert_eq!(x.count(dim), 9);
}

use discrete::context::edge_index_of;
use discrete::directed_context::{ind_from_index, subspace_offset};
use discrete::{Construct, Context, Count, Data, DirectedContext, ToIndex, ToPos};

#[test]
fn directed_context_data() {
    let x: DirectedContext<Data> = Construct::new();
    let dim = &[2, 2, 2];
    // 12 edges on a cube
    assert_eq!(x.count(dim), 24);
    assert_eq!(x.to_index(dim, &(vec![0, 0, 0], 0, 1)), 0);
    assert_eq!(x.to_index(dim, &(vec![1, 0, 0], 0, 0)), 1);
    for i in 0..x.count(dim) {
        let mut pos = (vec![], 0, 0);
        x.to_pos(dim, i, &mut pos);
        println!("{:?}", pos);
        assert_eq!(x.to_index(dim, &pos), i);
    }
}

#[test]
fn cube_has_twelve_edges() {
    let x: Context<Data> = Construct::new();
    let dim: &[usize] = &[2, 2, 2];
    assert_eq!(x.count(dim), 12);
    let mut seen: Vec<(Vec<usize>, usize, usize)> = Vec::new();
    for i in 0..12 {
        let mut pos = (vec![], 0, 0);
        x.to_pos(dim, i, &mut pos);
        assert!(pos.0[pos.1] < pos.2);
        assert_eq!(x.to_index(dim, &pos), i);
        assert!(!seen.contains(&pos));
        seen.push(pos);
    }
}

#[test]
fn edges_are_laid_out_axis_by_axis() {
    let x: Context<Data> = Construct::new();
    let dim: &[usize] = &[3, 2];
    // 3 pairs on axis 0 for each of 2 rows, 1 pair on axis 1 for each of 3 columns
    assert_eq!(x.count(dim), 9);
    assert_eq!(x.to_index(dim, &(vec![0, 0], 0, 1)), 0);
    assert_eq!(x.to_index(dim, &(vec![0, 1], 0, 1)), 1);
    assert_eq!(x.to_index(dim, &(vec![0, 0], 0, 2)), 2);
    assert_eq!(x.to_index(dim, &(vec![1, 1], 0, 2)), 5);
    assert_eq!(x.to_index(dim, &(vec![0, 0], 1, 1)), 6);
    assert_eq!(x.to_index(dim, &(vec![2, 0], 1, 1)), 8);
    let mut pos = (vec![5, 5, 5], 9, 9);
    x.to_pos(dim, 5, &mut pos);
    assert_eq!(pos, (vec![1, 1], 0, 2));
    x.to_pos(dim, 7, &mut pos);
    assert_eq!(pos, (vec![1, 0], 1, 1));
}

#[test]
fn both_ends_name_the_same_edge() {
    let dim: &[usize] = &[3, 2];
    assert_eq!(edge_index_of(dim, &vec![1, 1], 0, 2), 5);
    assert_eq!(edge_index_of(dim, &vec![2, 1], 0, 1), 5);
    assert_eq!(edge_index_of(dim, &vec![2, 1], 1, 0), 8);
    assert_eq!(edge_index_of(dim, &vec![2, 0], 1, 1), 8);
}

#[test]
fn direction_is_the_lowest_bit() {
    let x: DirectedContext<Data> = Construct::new();
    let dim: &[usize] = &[3, 2];
    assert_eq!(x.count(dim), 18);
    assert_eq!(x.to_index(dim, &(vec![1, 1], 0, 2)), 10);
    assert_eq!(x.to_index(dim, &(vec![2, 1], 0, 1)), 11);
    let mut pos = (vec![], 0, 0);
    x.to_pos(dim, 10, &mut pos);
    assert_eq!(pos, (vec![1, 1], 0, 2));
    x.to_pos(dim, 11, &mut pos);
    assert_eq!(pos, (vec![2, 1], 0, 1));
    for i in 0..18 {
        x.to_pos(dim, i, &mut pos);
        assert_eq!(pos.0[pos.1] < pos.2, i % 2 == 0);
        assert_eq!(x.to_index(dim, &pos), i);
    }
}

#[test]
fn directed_positions_round_trip() {
    let x: DirectedContext<Data> = Construct::new();
    let dim: &[usize] = &[2, 3];
    let mut back = (vec![], 0, 0);
    let mut seen: Vec<usize> = Vec::new();
    for a in 0..2 {
        for b in 0..3 {
            for other in 0..2 {
                if other != a {
                    let pos = (vec![a, b], 0, other);
                    let i = x.to_index(dim, &pos);
                    assert!(i < x.count(dim));
                    assert!(!seen.contains(&i));
                    seen.push(i);
                    x.to_pos(dim, i, &mut back);
                    assert_eq!(back, pos);
                }
            }
            for other in 0..3 {
                if other != b {
                    let pos = (vec![a, b], 1, other);
                    let i = x.to_index(dim, &pos);
                    assert!(i < x.count(dim));
                    assert!(!seen.contains(&i));
                    seen.push(i);
                    x.to_pos(dim, i, &mut back);
                    assert_eq!(back, pos);
                }
            }
        }
    }
    assert_eq!(seen.len(), x.count(dim));
}

#[test]
fn grids_without_edges() {
    let x: Context<Data> = Construct::new();
    let y: DirectedContext<Data> = Construct::new();
    let none: &[usize] = &[];
    let flat: &[usize] = &[1, 1, 1];
    let empty: &[usize] = &[4, 0, 3];
    assert_eq!(x.count(none), 0);
    assert_eq!(y.count(none), 0);
    assert_eq!(x.count(flat), 0);
    assert_eq!(y.count(flat), 0);
    assert_eq!(x.count(empty), 0);
    assert_eq!(y.count(empty), 0);
}

#[test]
fn offsets_of_the_directed_axes() {
    let dim: &[usize] = &[3, 2];
    assert_eq!(subspace_offset(dim, 0), 0);
    assert_eq!(subspace_offset(dim, 1), 12);
    assert_eq!(subspace_offset(dim, 2), 18);
    assert_eq!(ind_from_index(dim, 0), (0, 0));
    assert_eq!(ind_from_index(dim, 11), (0, 0));
    assert_eq!(ind_from_index(dim, 12), (1, 12));
    assert_eq!(ind_from_index(dim, 17), (1, 12));
    assert_eq!(ind_from_index(dim, 18), (2, 18));
    let empty: &[usize] = &[4, 0];
    assert_eq!(subspace_offset(empty, 2), 0);
    assert_eq!(ind_from_index(empty, 0), (2, 0));
}

//! Ordered pairs of distinct numbers below `n`.

use crate::pair::{lemma_triangle_step, triangle, Pair};
use crate::space::{Checked, Construct, Count, Data, Error, Space, ToIndex, ToPos, Zero};
use std::marker::PhantomData;
use vstd::prelude::*;

verus! {

/// Dimension is a natural number, position is `(a, b)` with `a != b`.
pub struct NeqPair<T = Data>(PhantomData<T>);

impl<T> Construct for NeqPair<T> {
    fn new() -> NeqPair<T> {
        NeqPair(PhantomData)
    }
}

/// The pair with its smaller member first.
pub open spec fn ascending(pos: (usize, usize)) -> (usize, usize) {
    if pos.0 < pos.1 {
        pos
    } else {
        (pos.1, pos.0)
    }
}

impl Space for NeqPair<Data> {
    type Dim = usize;

    type Pos = (usize, usize);

    open spec fn fits(dim: usize) -> bool {
        2 * triangle(dim as nat) <= usize::MAX
    }

    open spec fn size(dim: usize) -> nat {
        2 * triangle(dim as nat)
    }

    open spec fn valid(dim: usize, pos: (usize, usize)) -> bool {
        pos.0 < dim && pos.1 < dim && pos.0 != pos.1
    }

    open spec fn index(dim: usize, pos: (usize, usize)) -> nat {
        Pair::<Data>::index(dim, ascending(pos)) * 2 + if pos.0 < pos.1 {
            0nat
        } else {
            1nat
        }
    }

    open spec fn pos(dim: usize, index: nat) -> (usize, usize) {
        let p = Pair::<Data>::pos(dim, index / 2);
        if index % 2 == 0 {
            p
        } else {
            (p.1, p.0)
        }
    }

    open spec fn fault(dim: usize, pos: (usize, usize)) -> Error {
        Error::ShapePositionMismatch
    }

    proof fn lemma_fits(dim: usize) {
    }

    proof fn lemma_index_in_range(dim: usize, pos: (usize, usize)) {
        Pair::<Data>::lemma_index_in_range(dim, ascending(pos));
    }

    proof fn lemma_pos_index(dim: usize, index: nat) {
        Pair::<Data>::lemma_pos_index(dim, index / 2);
    }

    proof fn lemma_index_pos(dim: usize, pos: (usize, usize)) {
        Pair::<Data>::lemma_index_pos(dim, ascending(pos));
    }
}

/// There are `n * (n - 1)` ordered pairs of distinct numbers below `n`.
pub proof fn lemma_neq_pair_size(dim: usize)
    ensures
        NeqPair::<Data>::size(dim) == dim * (dim - 1),
{
    lemma_triangle_step(dim as nat);
}

impl Count<usize> for NeqPair<Data> {
    fn count(&self, dim: usize) -> (n: usize) {
        let pair: Pair<Data> = Construct::new();
        2 * pair.count(dim)
    }
}

impl Zero<usize, (usize, usize)> for NeqPair<Data> {
    fn zero(&self, dim: usize) -> (z: (usize, usize))
        ensures
            z == (0usize, 1usize),
    {
        let pair: Pair<Data> = Construct::new();
        pair.zero(dim)
    }
}

impl ToIndex<usize, (usize, usize)> for NeqPair<Data> {
    fn to_index(&self, dim: usize, pos: &(usize, usize)) -> (i: usize) {
        let pair: Pair<Data> = Construct::new();
        proof {
            Pair::<Data>::lemma_index_in_range(dim, ascending(*pos));
        }
        if pos.0 < pos.1 {
            pair.to_index(dim, pos) * 2
        } else {
            pair.to_index(dim, &(pos.1, pos.0)) * 2 + 1
        }
    }
}

impl ToPos<usize, (usize, usize)> for NeqPair<Data> {
    fn to_pos(&self, dim: usize, index: usize, pos: &mut (usize, usize)) {
        let pair: Pair<Data> = Construct::new();
        pair.to_pos(dim, index / 2, pos);
        if index % 2 == 1 {
            *pos = (pos.1, pos.0);
        }
    }
}

impl Checked<usize, (usize, usize)> for NeqPair<Data> {
    fn shape_fits(&self, dim: usize) -> (b: bool) {
        proof {
            lemma_triangle_step(dim as nat);
        }
        if dim == 0 {
            assert(dim * (dim - 1) == 0) by (nonlinear_arith)
                requires
                    dim == 0,
            ;
            true
        } else {
            dim.checked_mul(dim - 1).is_some()
        }
    }

    fn check(&self, dim: usize, pos: &(usize, usize)) -> (r: Result<(), Error>) {
        if pos.0 < dim && pos.1 < dim && pos.0 != pos.1 {
            Ok(())
        } else {
            Err(Error::ShapePositionMismatch)
        }
    }
}

} // verus!

//! Unordered pairs of distinct numbers below `n`, written `(a, b)` with
//! `a < b`.

use crate::space::{Checked, Construct, Count, Data, Error, Space, ToIndex, ToPos, Zero};
use std::marker::PhantomData;
use vstd::prelude::*;

verus! {

/// Dimension is a natural number, position is `(min, max)`.
pub struct Pair<T = Data>(PhantomData<T>);

impl<T> Construct for Pair<T> {
    fn new() -> Pair<T> {
        Pair(PhantomData)
    }
}

/// The number of unordered pairs of distinct numbers below `n`.
pub open spec fn triangle(n: nat) -> nat {
    (n * (n - 1) / 2) as nat
}

/// The larger member of the pair at index `i`: the one number `b >= 1`
/// with `triangle(b) <= i < triangle(b + 1)`.
pub open spec fn pair_high(i: nat) -> nat
    decreases i,
{
    if i == 0 {
        1
    } else {
        let h = pair_high((i - 1) as nat);
        if triangle(h + 1) <= i {
            h + 1
        } else {
            h
        }
    }
}

/// Each triangle number is the one before it plus its rank.
pub proof fn lemma_triangle_step(n: nat)
    ensures
        triangle(n + 1) == triangle(n) + n,
        2 * triangle(n) == n * (n - 1),
{
    let y = n * (n - 1);
    assert(y >= 0 && (n + 1) * n == y + 2 * n) by (nonlinear_arith)
        requires
            y == n * (n - 1),
            n >= 0,
    ;
    assert(y % 2 == 0) by (nonlinear_arith)
        requires
            y == n * (n - 1),
            n >= 0,
    {
        if n % 2 == 0 {
            assert(n * (n - 1) == 2 * ((n / 2) * (n - 1)));
        } else {
            assert(n * (n - 1) == 2 * (n * ((n - 1) / 2)));
        }
    }
}

/// Triangle numbers grow with their rank.
pub proof fn lemma_triangle_monotone(a: nat, b: nat)
    requires
        a <= b,
    ensures
        triangle(a) <= triangle(b),
    decreases b,
{
    if a < b {
        lemma_triangle_monotone(a, (b - 1) as nat);
        lemma_triangle_step((b - 1) as nat);
    }
}

/// `pair_high(i)` brackets `i` between two neighbouring triangle numbers.
pub proof fn lemma_pair_high(i: nat)
    ensures
        pair_high(i) >= 1,
        triangle(pair_high(i)) <= i < triangle(pair_high(i) + 1),
    decreases i,
{
    if i == 0 {
        lemma_triangle_step(1);
        lemma_triangle_step(0);
    } else {
        lemma_pair_high((i - 1) as nat);
        let h = pair_high((i - 1) as nat);
        lemma_triangle_step(h + 1);
        lemma_triangle_step(h);
    }
}

/// Only one number brackets `i` between neighbouring triangle numbers.
pub proof fn lemma_pair_high_unique(i: nat, b: nat)
    requires
        b >= 1,
        triangle(b) <= i < triangle(b + 1),
    ensures
        b == pair_high(i),
{
    lemma_pair_high(i);
    let h = pair_high(i);
    if b < h {
        lemma_triangle_monotone(b + 1, h);
    }
    if h < b {
        lemma_triangle_monotone(h + 1, b);
    }
}

impl Space for Pair<Data> {
    type Dim = usize;

    type Pos = (usize, usize);

    open spec fn fits(dim: usize) -> bool {
        triangle(dim as nat) <= usize::MAX
    }

    open spec fn size(dim: usize) -> nat {
        triangle(dim as nat)
    }

    open spec fn valid(dim: usize, pos: (usize, usize)) -> bool {
        pos.0 < pos.1 < dim
    }

    open spec fn index(dim: usize, pos: (usize, usize)) -> nat {
        triangle(pos.1 as nat) + pos.0 as nat
    }

    open spec fn pos(dim: usize, index: nat) -> (usize, usize) {
        ((index - triangle(pair_high(index))) as usize, pair_high(index) as usize)
    }

    open spec fn fault(dim: usize, pos: (usize, usize)) -> Error {
        Error::ShapePositionMismatch
    }

    proof fn lemma_fits(dim: usize) {
    }

    proof fn lemma_index_in_range(dim: usize, pos: (usize, usize)) {
        lemma_triangle_step(pos.1 as nat);
        lemma_triangle_monotone((pos.1 + 1) as nat, dim as nat);
    }

    proof fn lemma_pos_index(dim: usize, index: nat) {
        lemma_pair_high(index);
        let h = pair_high(index);
        lemma_triangle_step(h);
        if h >= dim {
            lemma_triangle_monotone(dim as nat, h);
        }
    }

    proof fn lemma_index_pos(dim: usize, pos: (usize, usize)) {
        lemma_triangle_step(pos.1 as nat);
        lemma_pair_high_unique(Self::index(dim, pos), pos.1 as nat);
    }
}

/// Computes a triangle number without leaving `usize` on the way.
pub fn triangle_number(n: usize) -> (t: usize)
    requires
        triangle(n as nat) <= usize::MAX,
    ensures
        t == triangle(n as nat),
{
    proof {
        lemma_triangle_step(n as nat);
    }
    if n == 0 {
        assert(n * (n - 1) == 0) by (nonlinear_arith)
            requires
                n == 0,
        ;
        0
    } else if n % 2 == 0 {
        let h: usize = n / 2;
        assert(h * (n - 1) == triangle(n as nat)) by (nonlinear_arith)
            requires
                n == 2 * h,
                2 * triangle(n as nat) == n * (n - 1),
        ;
        h * (n - 1)
    } else {
        let h: usize = (n - 1) / 2;
        assert(n * h == triangle(n as nat)) by (nonlinear_arith)
            requires
                n - 1 == 2 * h,
                2 * triangle(n as nat) == n * (n - 1),
        ;
        n * h
    }
}

impl Count<usize> for Pair<Data> {
    fn count(&self, dim: usize) -> (n: usize) {
        triangle_number(dim)
    }
}

impl Zero<usize, (usize, usize)> for Pair<Data> {
    fn zero(&self, dim: usize) -> (z: (usize, usize))
        ensures
            z == (0usize, 1usize),
    {
        proof {
            lemma_triangle_step(1);
            lemma_triangle_step(0);
            lemma_pair_high_unique(0, 1);
        }
        (0, 1)
    }
}

impl ToIndex<usize, (usize, usize)> for Pair<Data> {
    fn to_index(&self, dim: usize, pos: &(usize, usize)) -> (i: usize) {
        proof {
            Self::lemma_index_in_range(dim, *pos);
            lemma_triangle_monotone(pos.1 as nat, dim as nat);
        }
        triangle_number(pos.1) + pos.0
    }
}

impl ToPos<usize, (usize, usize)> for Pair<Data> {
    fn to_pos(&self, dim: usize, index: usize, pos: &mut (usize, usize)) {
        proof {
            lemma_triangle_step(1);
            lemma_triangle_step(0);
        }
        let mut lo: usize = 1;
        let mut hi: usize = dim;
        while hi - lo > 1
            invariant
                1 <= lo < hi <= dim,
                triangle(dim as nat) <= usize::MAX,
                triangle(lo as nat) <= index < triangle(hi as nat),
            decreases hi - lo,
        {
            let mid: usize = lo + (hi - lo) / 2;
            proof {
                lemma_triangle_monotone(mid as nat, dim as nat);
            }
            if triangle_number(mid) <= index {
                lo = mid;
            } else {
                hi = mid;
            }
        }
        proof {
            lemma_triangle_monotone(lo as nat, dim as nat);
            lemma_pair_high_unique(index as nat, lo as nat);
        }
        *pos = (index - triangle_number(lo), lo);
    }
}

impl Checked<usize, (usize, usize)> for Pair<Data> {
    fn shape_fits(&self, dim: usize) -> (b: bool) {
        proof {
            lemma_triangle_step(dim as nat);
        }
        if dim == 0 {
            assert(dim * (dim - 1) == 0) by (nonlinear_arith)
                requires
                    dim == 0,
            ;
            true
        } else if dim % 2 == 0 {
            let h: usize = dim / 2;
            assert(h * (dim - 1) == triangle(dim as nat)) by (nonlinear_arith)
                requires
                    dim == 2 * h,
                    2 * triangle(dim as nat) == dim * (dim - 1),
            ;
            h.checked_mul(dim - 1).is_some()
        } else {
            let h: usize = (dim - 1) / 2;
            assert(dim * h == triangle(dim as nat)) by (nonlinear_arith)
                requires
                    dim - 1 == 2 * h,
                    2 * triangle(dim as nat) == dim * (dim - 1),
            ;
            dim.checked_mul(h).is_some()
        }
    }

    fn check(&self, dim: usize, pos: &(usize, usize)) -> (r: Result<(), Error>) {
        if pos.0 < pos.1 && pos.1 < dim {
            Ok(())
        } else {
            Err(Error::ShapePositionMismatch)
        }
    }
}

} // verus!

//! Permutations: the shape is the number of slots, a position lists the
//! slots' contents in one-line notation.

use crate::lehmer::{
    count_below, factorial, iota, is_permutation, lehmer_index, lehmer_tail,
    lemma_factorial_monotone, lemma_rank_unrank, lemma_tail_bound, lemma_unrank_rank,
    lemma_unrank_step, permutation_at, unrank,
};
use crate::radix::{lemma_join, lemma_split, nats};
use crate::space::{Checked, Construct, Count, Data, Error, Of, Space, Subspace, ToIndex, ToPos};
use std::marker::PhantomData;
use vstd::prelude::*;

verus! {

/// Dimension is natural number, position is a list of numbers.
pub struct Permutation<T>(PhantomData<T>);

impl<T> Construct for Permutation<T> {
    fn new() -> Permutation<T> {
        Permutation(PhantomData)
    }
}

impl Space for Permutation<Data> {
    type Dim = usize;

    type Pos = Seq<usize>;

    open spec fn fits(dim: usize) -> bool {
        factorial(dim as nat) <= usize::MAX
    }

    open spec fn size(dim: usize) -> nat {
        factorial(dim as nat)
    }

    open spec fn valid(dim: usize, pos: Seq<usize>) -> bool {
        &&& pos.len() == dim
        &&& is_permutation(nats(pos))
    }

    open spec fn index(dim: usize, pos: Seq<usize>) -> nat {
        lehmer_index(nats(pos))
    }

    open spec fn pos(dim: usize, index: nat) -> Seq<usize> {
        Seq::new(dim as nat, |k: int| permutation_at(dim as nat, index)[k] as usize)
    }

    open spec fn fault(dim: usize, pos: Seq<usize>) -> Error {
        if pos.len() != dim {
            Error::ShapePositionMismatch
        } else {
            Error::NotAPermutation
        }
    }

    proof fn lemma_fits(dim: usize) {
    }

    proof fn lemma_index_in_range(dim: usize, pos: Seq<usize>) {
        lemma_rank_unrank(nats(pos));
    }

    proof fn lemma_pos_index(dim: usize, index: nat) {
        lemma_unrank_rank(dim as nat, index);
        assert(nats(Self::pos(dim, index)) =~= permutation_at(dim as nat, index));
    }

    proof fn lemma_index_pos(dim: usize, pos: Seq<usize>) {
        lemma_rank_unrank(nats(pos));
        assert(Self::pos(dim, Self::index(dim, pos)) =~= pos);
    }
}

/// Computes `n!` by multiplying up from 1.
pub fn factorial_number(n: usize) -> (f: usize)
    requires
        factorial(n as nat) <= usize::MAX,
    ensures
        f == factorial(n as nat),
{
    let mut res: usize = 1;
    let mut x: usize = 0;
    while x < n
        invariant
            x <= n,
            res == factorial(x as nat),
            factorial(n as nat) <= usize::MAX,
        decreases n - x,
    {
        x += 1;
        proof {
            lemma_factorial_monotone(x as nat, n as nat);
            assert(res * x == x * res) by (nonlinear_arith);
        }
        res = res * x;
    }
    res
}

impl Count<usize> for Permutation<Data> {
    fn count(&self, dim: usize) -> (n: usize) {
        factorial_number(dim)
    }
}

impl ToIndex<usize, Vec<usize>> for Permutation<Data> {
    fn to_index(&self, dim: usize, pos: &Vec<usize>) -> (i: usize) {
        let ghost x = nats(pos@);
        proof {
            assert(pos.deep_view() =~= pos@);
        }
        let mut index: usize = 0;
        let mut count: usize = 1;
        let mut k: usize = pos.len();
        while k > 0
            invariant
                k <= dim,
                pos.len() == dim,
                x == nats(pos@),
                is_permutation(x),
                factorial(dim as nat) <= usize::MAX,
                index == lehmer_tail(x, k as int),
                count == factorial((dim - k) as nat),
            decreases k,
        {
            k -= 1;
            let v = pos[k];
            let mut lower: usize = 0;
            let mut j: usize = 0;
            while j < k
                invariant
                    j <= k < pos.len(),
                    x == nats(pos@),
                    lower <= j,
                    lower == count_below(x, j as int, v as nat),
                decreases k - j,
            {
                if pos[j] < v {
                    lower += 1;
                }
                j += 1;
            }
            proof {
                lemma_tail_bound(x, k as int);
                lemma_factorial_monotone((dim - k) as nat, dim as nat);
                let c = (v - lower) as nat;
                assert(lehmer_tail(x, k as int) == c * count + index);
                assert(count * c == c * count) by (nonlinear_arith);
                assert(count * (dim - k) == factorial((dim - k) as nat)) by (nonlinear_arith)
                    requires
                        factorial((dim - k) as nat) == (dim - k) * count,
                ;
            }
            index = index + count * (v - lower);
            count = count * (dim - k);
        }
        index
    }
}

impl ToPos<usize, Vec<usize>> for Permutation<Data> {
    fn to_pos(&self, dim: usize, index: usize, pos: &mut Vec<usize>) {
        pos.clear();
        let mut count: usize = 1;
        let mut j: usize = 0;
        while j < dim
            invariant
                j <= dim,
                factorial(dim as nat) <= usize::MAX,
                count == factorial(j as nat),
                pos@ == Seq::new(j as nat, |k: int| k as usize),
            decreases dim - j,
        {
            pos.push(j);
            j += 1;
            proof {
                lemma_factorial_monotone(j as nat, dim as nat);
                assert(count * j == j * count) by (nonlinear_arith);
            }
            count = count * j;
        }
        let ghost goal = permutation_at(dim as nat, index as nat);
        proof {
            lemma_unrank_rank(dim as nat, index as nat);
            let g = nats(pos@);
            assert(g.take(dim as int) =~= iota(dim as nat));
            assert(g.skip(dim as int) + goal =~= goal);
        }
        let mut rem: usize = index;
        let mut i: usize = 0;
        while i < dim
            invariant
                i <= dim,
                pos.len() == dim,
                count == factorial((dim - i) as nat),
                rem < count,
                nats(pos@).skip(dim - i) + unrank(nats(pos@).take(dim - i), rem as nat) == goal,
            decreases dim - i,
        {
            let ghost g = nats(pos@);
            proof {
                lemma_unrank_step(g, dim - i, rem as nat);
            }
            let block = count / (dim - i);
            let ind = rem / block;
            let item = pos.remove(ind);
            pos.push(item);
            proof {
                assert(nats(pos@) =~= g.remove(ind as int).push(g[ind as int]));
                assert(ind * block <= rem) by (nonlinear_arith)
                    requires
                        ind == rem / block,
                        block > 0,
                ;
            }
            count = block;
            rem = rem - ind * block;
            i += 1;
        }
        proof {
            let g = nats(pos@);
            assert(g.skip(0) + unrank(g.take(0), rem as nat) =~= g);
            assert(pos.deep_view() =~= Self::pos(dim, index as nat));
        }
    }
}

/// The indices of the entries of a sequence of `T`-positions of one shape.
pub open spec fn of_indices<T: Space>(dim: T::Dim, pos: Seq<T::Pos>) -> Seq<nat> {
    Seq::new(pos.len(), |k: int| T::index(dim, pos[k]))
}

/// The fault of the first entry from `k` on that is not valid.
pub open spec fn entry_fault<T: Space>(dim: T::Dim, pos: Seq<T::Pos>, k: int) -> Error
    decreases pos.len() - k,
{
    if k < 0 || k >= pos.len() {
        Error::NotAPermutation
    } else if !T::valid(dim, pos[k]) {
        T::fault(dim, pos[k])
    } else {
        entry_fault::<T>(dim, pos, k + 1)
    }
}

impl<T: Space> Space for Permutation<Of<T>> {
    type Dim = T::Dim;

    type Pos = Seq<T::Pos>;

    open spec fn fits(dim: T::Dim) -> bool {
        &&& T::fits(dim)
        &&& factorial(T::size(dim)) <= usize::MAX
    }

    open spec fn size(dim: T::Dim) -> nat {
        factorial(T::size(dim))
    }

    open spec fn valid(dim: T::Dim, pos: Seq<T::Pos>) -> bool {
        &&& pos.len() == T::size(dim)
        &&& forall|k: int| 0 <= k < pos.len() ==> T::valid(dim, #[trigger] pos[k])
        &&& is_permutation(of_indices::<T>(dim, pos))
    }

    open spec fn index(dim: T::Dim, pos: Seq<T::Pos>) -> nat {
        lehmer_index(of_indices::<T>(dim, pos))
    }

    open spec fn pos(dim: T::Dim, index: nat) -> Seq<T::Pos> {
        Seq::new(T::size(dim), |k: int| T::pos(dim, permutation_at(T::size(dim), index)[k]))
    }

    open spec fn fault(dim: T::Dim, pos: Seq<T::Pos>) -> Error {
        if pos.len() != T::size(dim) {
            Error::ShapePositionMismatch
        } else if forall|k: int| 0 <= k < pos.len() ==> T::valid(dim, #[trigger] pos[k]) {
            Error::NotAPermutation
        } else {
            entry_fault::<T>(dim, pos, 0)
        }
    }

    proof fn lemma_fits(dim: T::Dim) {
    }

    proof fn lemma_index_in_range(dim: T::Dim, pos: Seq<T::Pos>) {
        lemma_rank_unrank(of_indices::<T>(dim, pos));
    }

    proof fn lemma_pos_index(dim: T::Dim, index: nat) {
        let n = T::size(dim);
        let x = permutation_at(n, index);
        let p = Self::pos(dim, index);
        lemma_unrank_rank(n, index);
        assert forall|k: int| 0 <= k < p.len() implies T::valid(dim, #[trigger] p[k]) && T::index(
            dim,
            p[k],
        ) == x[k] by {
            T::lemma_pos_index(dim, x[k]);
        }
        assert(of_indices::<T>(dim, p) =~= x);
    }

    proof fn lemma_index_pos(dim: T::Dim, pos: Seq<T::Pos>) {
        let x = of_indices::<T>(dim, pos);
        lemma_rank_unrank(x);
        let q = Self::pos(dim, Self::index(dim, pos));
        assert forall|k: int| 0 <= k < pos.len() implies q[k] == pos[k] by {
            assert(T::valid(dim, pos[k]));
            T::lemma_index_pos(dim, pos[k]);
        }
        assert(q =~= pos);
    }
}

impl<T, U> Count<U> for Permutation<Of<T>> where T: Construct + Count<U>, U: DeepView<V = T::Dim> {
    fn count(&self, dim: U) -> (n: usize) {
        let of: T = Construct::new();
        factorial_number(of.count(dim))
    }
}

impl<T, U, V> ToIndex<U, Vec<V>> for Permutation<Of<T>> where
    T: Construct + Count<U> + ToIndex<U, V>,
    U: Copy + DeepView<V = T::Dim>,
    V: DeepView<V = T::Pos>,
 {
    fn to_index(&self, dim: U, pos: &Vec<V>) -> (i: usize) {
        let of: T = Construct::new();
        let ghost d = dim.deep_view();
        let ghost p = pos.deep_view();
        let ghost x = of_indices::<T>(d, p);
        let dim_count = of.count(dim);
        let mut index: usize = 0;
        let mut count: usize = 1;
        let mut k: usize = pos.len();
        while k > 0
            invariant
                k <= dim_count,
                pos.len() == dim_count,
                d == dim.deep_view(),
                p == pos.deep_view(),
                x == of_indices::<T>(d, p),
                Self::fits(d),
                Self::valid(d, p),
                index == lehmer_tail(x, k as int),
                count == factorial((dim_count - k) as nat),
            decreases k,
        {
            k -= 1;
            assert(p[k as int] == pos@[k as int].deep_view());
            assert(T::valid(d, p[k as int]));
            let v = of.to_index(dim, &pos[k]);
            let mut lower: usize = 0;
            let mut j: usize = 0;
            while j < k
                invariant
                    j <= k < pos.len(),
                    d == dim.deep_view(),
                    p == pos.deep_view(),
                    x == of_indices::<T>(d, p),
                    Self::fits(d),
                    Self::valid(d, p),
                    lower <= j,
                    lower == count_below(x, j as int, v as nat),
                decreases k - j,
            {
                assert(p[j as int] == pos@[j as int].deep_view());
                assert(T::valid(d, p[j as int]));
                let y = of.to_index(dim, &pos[j]);
                if y < v {
                    lower += 1;
                }
                j += 1;
            }
            proof {
                lemma_tail_bound(x, k as int);
                lemma_factorial_monotone((dim_count - k) as nat, dim_count as nat);
                let c = (v - lower) as nat;
                assert(lehmer_tail(x, k as int) == c * count + index);
                assert(count * c == c * count) by (nonlinear_arith);
                assert(count * (dim_count - k) == factorial((dim_count - k) as nat))
                    by (nonlinear_arith)
                    requires
                        factorial((dim_count - k) as nat) == (dim_count - k) * count,
                ;
            }
            index = index + count * (v - lower);
            count = count * (dim_count - k);
        }
        index
    }
}

impl<T, U, V> ToPos<U, Vec<V>> for Permutation<Of<T>> where
    T: Construct + Count<U> + ToPos<U, V>,
    U: Copy + DeepView<V = T::Dim>,
    V: Default + DeepView<V = T::Pos>,
 {
    fn to_pos(&self, dim: U, index: usize, pos: &mut Vec<V>) {
        let of: T = Construct::new();
        let ghost d = dim.deep_view();
        let of_count = of.count(dim);
        pos.clear();
        let mut count: usize = 1;
        let mut j: usize = 0;
        while j < of_count
            invariant
                j <= of_count,
                d == dim.deep_view(),
                of_count == T::size(d),
                Self::fits(d),
                count == factorial(j as nat),
                pos.len() == j,
                forall|k: int| 0 <= k < j ==> pos@[k].deep_view() == T::pos(d, k as nat),
            decreases of_count - j,
        {
            let mut new_pos: V = V::default();
            of.to_pos(dim, j, &mut new_pos);
            pos.push(new_pos);
            j += 1;
            proof {
                lemma_factorial_monotone(j as nat, of_count as nat);
                assert(count * j == j * count) by (nonlinear_arith);
            }
            count = count * j;
        }
        let ghost goal = permutation_at(of_count as nat, index as nat);
        let ghost mut g = iota(of_count as nat);
        proof {
            lemma_unrank_rank(of_count as nat, index as nat);
            assert(g.take(of_count as int) =~= g);
            assert(g.skip(of_count as int) + goal =~= goal);
        }
        let mut rem: usize = index;
        let mut i: usize = 0;
        while i < of_count
            invariant
                i <= of_count,
                d == dim.deep_view(),
                of_count == T::size(d),
                pos.len() == of_count,
                g.len() == of_count,
                count == factorial((of_count - i) as nat),
                rem < count,
                forall|k: int| 0 <= k < of_count ==> pos@[k].deep_view() == T::pos(d, g[k]),
                g.skip(of_count - i) + unrank(g.take(of_count - i), rem as nat) == goal,
            decreases of_count - i,
        {
            proof {
                lemma_unrank_step(g, of_count - i, rem as nat);
            }
            let block = count / (of_count - i);
            let ind = rem / block;
            let item = pos.remove(ind);
            pos.push(item);
            proof {
                g = g.remove(ind as int).push(g[ind as int]);
                assert(ind * block <= rem) by (nonlinear_arith)
                    requires
                        ind == rem / block,
                        block > 0,
                ;
            }
            count = block;
            rem = rem - ind * block;
            i += 1;
        }
        proof {
            assert(g.skip(0) + unrank(g.take(0), rem as nat) =~= g);
            assert(pos.deep_view() =~= Self::pos(d, index as nat));
        }
    }
}

impl<T: Space> Space for Permutation<Subspace<T>> {
    type Dim = (usize, T::Dim);

    type Pos = (Seq<usize>, T::Pos);

    open spec fn fits(dim: (usize, T::Dim)) -> bool {
        &&& Permutation::<Data>::fits(dim.0)
        &&& T::fits(dim.1)
        &&& Permutation::<Data>::size(dim.0) * T::size(dim.1) <= usize::MAX
    }

    open spec fn size(dim: (usize, T::Dim)) -> nat {
        Permutation::<Data>::size(dim.0) * T::size(dim.1)
    }

    open spec fn valid(dim: (usize, T::Dim), pos: (Seq<usize>, T::Pos)) -> bool {
        &&& Permutation::<Data>::valid(dim.0, pos.0)
        &&& T::valid(dim.1, pos.1)
    }

    open spec fn index(dim: (usize, T::Dim), pos: (Seq<usize>, T::Pos)) -> nat {
        Permutation::<Data>::index(dim.0, pos.0) * T::size(dim.1) + T::index(dim.1, pos.1)
    }

    open spec fn pos(dim: (usize, T::Dim), index: nat) -> (Seq<usize>, T::Pos) {
        (
            Permutation::<Data>::pos(dim.0, index / T::size(dim.1)),
            T::pos(dim.1, index % T::size(dim.1)),
        )
    }

    open spec fn fault(dim: (usize, T::Dim), pos: (Seq<usize>, T::Pos)) -> Error {
        if !Permutation::<Data>::valid(dim.0, pos.0) {
            Permutation::<Data>::fault(dim.0, pos.0)
        } else {
            T::fault(dim.1, pos.1)
        }
    }

    proof fn lemma_fits(dim: (usize, T::Dim)) {
    }

    proof fn lemma_index_in_range(dim: (usize, T::Dim), pos: (Seq<usize>, T::Pos)) {
        Permutation::<Data>::lemma_index_in_range(dim.0, pos.0);
        T::lemma_index_in_range(dim.1, pos.1);
        lemma_join(
            Permutation::<Data>::index(dim.0, pos.0),
            T::index(dim.1, pos.1),
            Permutation::<Data>::size(dim.0),
            T::size(dim.1),
        );
    }

    proof fn lemma_pos_index(dim: (usize, T::Dim), index: nat) {
        let m = Permutation::<Data>::size(dim.0);
        let n = T::size(dim.1);
        lemma_split(index, m, n);
        Permutation::<Data>::lemma_pos_index(dim.0, index / n);
        T::lemma_pos_index(dim.1, index % n);
    }

    proof fn lemma_index_pos(dim: (usize, T::Dim), pos: (Seq<usize>, T::Pos)) {
        Permutation::<Data>::lemma_index_in_range(dim.0, pos.0);
        T::lemma_index_in_range(dim.1, pos.1);
        lemma_join(
            Permutation::<Data>::index(dim.0, pos.0),
            T::index(dim.1, pos.1),
            Permutation::<Data>::size(dim.0),
            T::size(dim.1),
        );
        Permutation::<Data>::lemma_index_pos(dim.0, pos.0);
        T::lemma_index_pos(dim.1, pos.1);
    }
}

impl<T, U> Count<(usize, U)> for Permutation<Subspace<T>> where
    T: Construct + Count<U>,
    U: DeepView<V = T::Dim>,
 {
    fn count(&self, dim: (usize, U)) -> (n: usize) {
        let subspace: T = Construct::new();
        let data: Permutation<Data> = Construct::new();
        let (a, b) = dim;
        data.count(a) * subspace.count(b)
    }
}

impl<T, U, V> ToIndex<(usize, U), (Vec<usize>, V)> for Permutation<Subspace<T>> where
    T: Construct + Count<U> + ToIndex<U, V>,
    U: Copy + DeepView<V = T::Dim>,
    V: DeepView<V = T::Pos>,
 {
    fn to_index(&self, dim: (usize, U), pos: &(Vec<usize>, V)) -> (i: usize) {
        let subspace: T = Construct::new();
        let data: Permutation<Data> = Construct::new();
        let (a, b) = dim;
        proof {
            Self::lemma_index_in_range(dim.deep_view(), pos.deep_view());
            let x = Permutation::<Data>::index(a, pos.0.deep_view());
            let n = T::size(b.deep_view());
            assert(x * n <= x * n + T::index(b.deep_view(), pos.1.deep_view()));
        }
        let count = subspace.count(b);
        data.to_index(a, &pos.0) * count + subspace.to_index(b, &pos.1)
    }
}

impl<T, U, V> ToPos<(usize, U), (Vec<usize>, V)> for Permutation<Subspace<T>> where
    T: Construct + Count<U> + ToPos<U, V>,
    U: Copy + DeepView<V = T::Dim>,
    V: DeepView<V = T::Pos>,
 {
    fn to_pos(&self, dim: (usize, U), index: usize, pos: &mut (Vec<usize>, V)) {
        let subspace: T = Construct::new();
        let data: Permutation<Data> = Construct::new();
        let (a, b) = dim;
        proof {
            lemma_split(index as nat, Permutation::<Data>::size(a), T::size(b.deep_view()));
        }
        let count = subspace.count(b);
        let x = index / count;
        data.to_pos(a, x, &mut pos.0);
        subspace.to_pos(b, index - x * count, &mut pos.1);
    }
}

/// Decides whether `n!` fits a `usize`.
pub fn factorial_fits(n: usize) -> (b: bool)
    ensures
        b == (factorial(n as nat) <= usize::MAX),
{
    let mut res: usize = 1;
    let mut x: usize = 0;
    while x < n
        invariant
            x <= n,
            res == factorial(x as nat),
        decreases n - x,
    {
        x += 1;
        proof {
            assert(res * x == x * res) by (nonlinear_arith);
        }
        match res.checked_mul(x) {
            Some(r) => {
                res = r;
            },
            None => {
                proof {
                    lemma_factorial_monotone(x as nat, n as nat);
                }
                return false;
            },
        }
    }
    true
}

impl Checked<usize, Vec<usize>> for Permutation<Data> {
    fn shape_fits(&self, dim: usize) -> (b: bool) {
        factorial_fits(dim)
    }

    fn check(&self, dim: usize, pos: &Vec<usize>) -> (r: Result<(), Error>) {
        let ghost x = nats(pos@);
        proof {
            assert(pos.deep_view() =~= pos@);
        }
        if pos.len() != dim {
            return Err(Error::ShapePositionMismatch);
        }
        let mut k: usize = 0;
        while k < dim
            invariant
                k <= dim,
                pos.len() == dim,
                pos.deep_view() == pos@,
                x == nats(pos@),
                forall|j: int| 0 <= j < k ==> x[j] < dim,
                forall|i: int, j: int| 0 <= i < j < k ==> x[i] != x[j],
            decreases dim - k,
        {
            if pos[k] >= dim {
                proof {
                    assert(!(x[k as int] < x.len()));
                }
                return Err(Error::NotAPermutation);
            }
            let mut j: usize = 0;
            while j < k
                invariant
                    j <= k < dim,
                    pos.len() == dim,
                    pos.deep_view() == pos@,
                    x == nats(pos@),
                    forall|i: int| 0 <= i < j ==> x[i] != x[k as int],
                decreases k - j,
            {
                if pos[j] == pos[k] {
                    proof {
                        assert(x[j as int] == x[k as int]);
                    }
                    return Err(Error::NotAPermutation);
                }
                j += 1;
            }
            k += 1;
        }
        Ok(())
    }
}

impl<T, U, V> Checked<U, Vec<V>> for Permutation<Of<T>> where
    T: Construct + Count<U> + ToIndex<U, V> + ToPos<U, V> + Checked<U, V>,
    U: Copy + DeepView<V = T::Dim>,
    V: Default + DeepView<V = T::Pos>,
 {
    fn shape_fits(&self, dim: U) -> (b: bool) {
        let of: T = Construct::new();
        if !of.shape_fits(dim) {
            return false;
        }
        factorial_fits(of.count(dim))
    }

    fn check(&self, dim: U, pos: &Vec<V>) -> (r: Result<(), Error>) {
        let of: T = Construct::new();
        let ghost d = dim.deep_view();
        let ghost p = pos.deep_view();
        let ghost x = of_indices::<T>(d, p);
        let n = of.count(dim);
        if pos.len() != n {
            return Err(Error::ShapePositionMismatch);
        }
        let mut k: usize = 0;
        while k < n
            invariant
                k <= n,
                pos.len() == n,
                n == T::size(d),
                d == dim.deep_view(),
                p == pos.deep_view(),
                T::fits(d),
                forall|j: int| 0 <= j < k ==> T::valid(d, #[trigger] p[j]),
                entry_fault::<T>(d, p, k as int) == entry_fault::<T>(d, p, 0),
            decreases n - k,
        {
            assert(p[k as int] == pos@[k as int].deep_view());
            match of.check(dim, &pos[k]) {
                Err(e) => {
                    return Err(e);
                },
                Ok(()) => {},
            }
            k += 1;
        }
        proof {
            assert forall|j: int| 0 <= j < n implies x[j] < n by {
                assert(T::valid(d, p[j]));
                T::lemma_index_in_range(d, p[j]);
            }
        }
        let mut k: usize = 0;
        while k < n
            invariant
                k <= n,
                pos.len() == n,
                n == T::size(d),
                d == dim.deep_view(),
                p == pos.deep_view(),
                x == of_indices::<T>(d, p),
                T::fits(d),
                forall|j: int| 0 <= j < n ==> T::valid(d, #[trigger] p[j]),
                forall|j: int| 0 <= j < n ==> x[j] < n,
                forall|i: int, j: int| 0 <= i < j < k ==> x[i] != x[j],
            decreases n - k,
        {
            assert(p[k as int] == pos@[k as int].deep_view());
            assert(T::valid(d, p[k as int]));
            let v = of.to_index(dim, &pos[k]);
            let mut j: usize = 0;
            while j < k
                invariant
                    j <= k < n,
                    pos.len() == n,
                    n == T::size(d),
                    d == dim.deep_view(),
                    p == pos.deep_view(),
                    x == of_indices::<T>(d, p),
                    T::fits(d),
                    forall|j: int| 0 <= j < n ==> T::valid(d, #[trigger] p[j]),
                    v == x[k as int],
                    forall|i: int| 0 <= i < j ==> x[i] != x[k as int],
                decreases k - j,
            {
                assert(p[j as int] == pos@[j as int].deep_view());
                assert(T::valid(d, p[j as int]));
                if of.to_index(dim, &pos[j]) == v {
                    proof {
                        assert(x[j as int] == x[k as int]);
                    }
                    return Err(Error::NotAPermutation);
                }
                j += 1;
            }
            k += 1;
        }
        Ok(())
    }
}

impl<T, U, V> Checked<(usize, U), (Vec<usize>, V)> for Permutation<Subspace<T>> where
    T: Construct + Count<U> + ToIndex<U, V> + ToPos<U, V> + Checked<U, V>,
    U: Copy + DeepView<V = T::Dim>,
    V: DeepView<V = T::Pos>,
 {
    fn shape_fits(&self, dim: (usize, U)) -> (b: bool) {
        let subspace: T = Construct::new();
        let data: Permutation<Data> = Construct::new();
        let (a, b) = dim;
        assert(dim.deep_view() == (a.deep_view(), b.deep_view()));
        if !data.shape_fits(a) {
            return false;
        }
        if !subspace.shape_fits(b) {
            return false;
        }
        data.count(a).checked_mul(subspace.count(b)).is_some()
    }

    fn check(&self, dim: (usize, U), pos: &(Vec<usize>, V)) -> (r: Result<(), Error>) {
        let subspace: T = Construct::new();
        let data: Permutation<Data> = Construct::new();
        let (a, b) = dim;
        assert(dim.deep_view() == (a.deep_view(), b.deep_view()));
        assert(pos.deep_view() == (pos.0.deep_view(), pos.1.deep_view()));
        assert(Permutation::<Data>::fits(a.deep_view()));
        match data.check(a, &pos.0) {
            Err(e) => Err(e),
            Ok(()) => subspace.check(b, &pos.1),
        }
    }
}

} // verus!

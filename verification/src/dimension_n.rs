//! Rectangular grids: the shape is a list of axis sizes, a position is a
//! list of coordinates, one per axis.

use crate::radix::{
    lemma_digit_of_index, lemma_digit_of_zero, lemma_digit_step, lemma_digits_start,
    lemma_index_bound, lemma_index_of_digits, lemma_join, lemma_size_zero, lemma_split,
    lemma_stride_le_size, lemma_sum_tail, lemma_tail_le_index, nats, radix_digit, radix_digits,
    radix_index, radix_size, radix_tail, radix_valid, stride,
};
use crate::space::{
    Checked, Construct, Count, Data, Error, Of, Space, Subspace, ToIndex, ToPos, Zero,
};
use std::marker::PhantomData;
use vstd::prelude::*;

verus! {

/// Dimension is a list of numbers, position is a list of numbers.
pub struct DimensionN<T = Data>(PhantomData<T>);

impl<T> Construct for DimensionN<T> {
    fn new() -> DimensionN<T> {
        DimensionN(PhantomData)
    }
}

impl Space for DimensionN<Data> {
    type Dim = Seq<usize>;

    type Pos = Seq<usize>;

    open spec fn fits(dim: Seq<usize>) -> bool {
        radix_size(nats(dim)) <= usize::MAX
    }

    open spec fn size(dim: Seq<usize>) -> nat {
        radix_size(nats(dim))
    }

    open spec fn valid(dim: Seq<usize>, pos: Seq<usize>) -> bool {
        &&& pos.len() == dim.len()
        &&& forall|k: int| 0 <= k < dim.len() ==> pos[k] < dim[k]
    }

    open spec fn index(dim: Seq<usize>, pos: Seq<usize>) -> nat {
        radix_index(nats(dim), nats(pos))
    }

    open spec fn pos(dim: Seq<usize>, index: nat) -> Seq<usize> {
        Seq::new(dim.len(), |k: int| radix_digit(nats(dim), index, k) as usize)
    }

    open spec fn fault(dim: Seq<usize>, pos: Seq<usize>) -> Error {
        Error::ShapePositionMismatch
    }

    proof fn lemma_fits(dim: Seq<usize>) {
    }

    proof fn lemma_index_in_range(dim: Seq<usize>, pos: Seq<usize>) {
        lemma_index_bound(nats(dim), nats(pos));
    }

    proof fn lemma_pos_index(dim: Seq<usize>, index: nat) {
        let s = nats(dim);
        lemma_index_of_digits(s, index);
        let p = Self::pos(dim, index);
        assert(nats(p) =~= radix_digits(s, index));
    }

    proof fn lemma_index_pos(dim: Seq<usize>, pos: Seq<usize>) {
        let s = nats(dim);
        let x = nats(pos);
        let q = Self::pos(dim, Self::index(dim, pos));
        assert forall|k: int| 0 <= k < dim.len() implies q[k] == pos[k] by {
            lemma_digit_of_index(s, x, k);
        }
        assert(q =~= pos);
    }
}

/// A grid has no position exactly when one of its axes has size zero.
pub proof fn lemma_grid_empty(dim: Seq<usize>)
    ensures
        DimensionN::<Data>::size(dim) == 0 <==> exists|k: int| 0 <= k < dim.len() && dim[k] == 0,
{
    let s = nats(dim);
    lemma_size_zero(s);
    if exists|k: int| 0 <= k < s.len() && s[k] == 0 {
        let k = choose|k: int| 0 <= k < s.len() && s[k] == 0;
        assert(0 <= k < dim.len() && dim[k] == 0);
    }
    if exists|k: int| 0 <= k < dim.len() && dim[k] == 0 {
        let k = choose|k: int| 0 <= k < dim.len() && dim[k] == 0;
        assert(0 <= k < s.len() && s[k] == 0);
    }
}

impl<'a> Count<&'a [usize]> for DimensionN<Data> {
    fn count(&self, dim: &'a [usize]) -> (n: usize) {
        assert(dim.deep_view() =~= dim@);
        let mut prod: usize = 1;
        let mut i: usize = 0;
        while i < dim.len()
            invariant
                i <= dim.len(),
                dim.deep_view() == dim@,
                prod == stride(nats(dim@), i as int),
                radix_size(nats(dim@)) <= usize::MAX,
            decreases dim.len() - i,
        {
            match prod.checked_mul(dim[i]) {
                Some(p) => {
                    prod = p;
                },
                None => {
                    proof {
                        let s = nats(dim@);
                        assert(stride(s, i + 1) == stride(s, i as int) * s[i as int]);
                        if radix_size(s) > 0 {
                            lemma_stride_le_size(s, i + 1);
                        }
                    }
                    return 0;
                },
            }
            i += 1;
        }
        prod
    }
}

impl<'a> Zero<&'a [usize], Vec<usize>> for DimensionN<Data> {
    fn zero(&self, dim: &'a [usize]) -> (z: Vec<usize>)
        ensures
            z@ == Seq::new(dim@.len(), |k: int| 0usize),
    {
        let mut z: Vec<usize> = Vec::new();
        let mut i: usize = 0;
        while i < dim.len()
            invariant
                i <= dim.len(),
                z@ == Seq::new(i as nat, |k: int| 0usize),
            decreases dim.len() - i,
        {
            z.push(0);
            i += 1;
        }
        proof {
            let d = dim.deep_view();
            assert(d =~= dim@);
            if Self::size(d) > 0 {
                assert forall|k: int| 0 <= k < d.len() implies z@[k] == Self::pos(d, 0)[k] by {
                    lemma_digit_of_zero(nats(d), k);
                }
                assert(z.deep_view() =~= Self::pos(d, 0));
            }
        }
        z
    }
}

impl<'a> ToIndex<&'a [usize], Vec<usize>> for DimensionN<Data> {
    fn to_index(&self, dim: &'a [usize], pos: &Vec<usize>) -> (i: usize) {
        let ghost s = nats(dim@);
        let ghost x = nats(pos@);
        proof {
            assert(dim.deep_view() =~= dim@);
            assert(pos.deep_view() =~= pos@);
            lemma_index_bound(s, x);
        }
        let mut acc: usize = 0;
        let mut k: usize = dim.len();
        while k > 0
            invariant
                k <= dim.len(),
                s == nats(dim@),
                x == nats(pos@),
                pos.len() == dim.len(),
                radix_valid(s, x),
                radix_index(s, x) <= usize::MAX,
                acc == radix_tail(s, x, k as int),
            decreases k,
        {
            k -= 1;
            proof {
                lemma_tail_le_index(s, x, k as int);
                assert(acc * dim[k as int] == s[k as int] * radix_tail(s, x, k + 1))
                    by (nonlinear_arith)
                    requires
                        acc == radix_tail(s, x, k + 1),
                        dim[k as int] == s[k as int],
                ;
            }
            acc = acc * dim[k] + pos[k];
        }
        proof {
            lemma_sum_tail(s, x, 0);
            assert(1 * radix_tail(s, x, 0) == radix_tail(s, x, 0)) by (nonlinear_arith);
        }
        acc
    }
}

impl<'a> ToPos<&'a [usize], Vec<usize>> for DimensionN<Data> {
    fn to_pos(&self, dim: &'a [usize], index: usize, pos: &mut Vec<usize>) {
        let ghost s = nats(dim@);
        proof {
            assert(dim.deep_view() =~= dim@);
            lemma_digits_start(s, index as nat);
        }
        let n = dim.len();
        pos.clear();
        let mut j: usize = 0;
        while j < n
            invariant
                j <= n,
                pos.len() == j,
            decreases n - j,
        {
            pos.push(0);
            j += 1;
        }
        let mut prod = self.count(dim);
        let mut rem: usize = index;
        let mut k: usize = n;
        while k > 0
            invariant
                k <= n,
                n == dim.len(),
                s == nats(dim@),
                pos.len() == n,
                forall|j: int| 0 <= j < n ==> s[j] > 0,
                prod == stride(s, k as int),
                rem == (index as nat) % stride(s, k as int),
                forall|j: int| k <= j < n ==> pos@[j] == radix_digit(s, index as nat, j),
            decreases k,
        {
            k -= 1;
            proof {
                lemma_digit_step(s, index as nat, k as int);
            }
            prod = prod / dim[k];
            let d = rem / prod;
            pos[k] = d;
            assert(d * prod <= rem) by (nonlinear_arith)
                requires
                    d == rem / prod,
                    prod > 0,
            ;
            rem = rem - d * prod;
        }
        proof {
            assert(pos.deep_view() =~= Self::pos(dim.deep_view(), index as nat));
        }
    }
}

/// The sizes of the slots of a sequence of `T`-shapes.
pub open spec fn of_sizes<T: Space>(dim: Seq<T::Dim>) -> Seq<nat> {
    Seq::new(dim.len(), |k: int| T::size(dim[k]))
}

/// The indices of the slots of a sequence of `T`-positions.
pub open spec fn of_digits<T: Space>(dim: Seq<T::Dim>, pos: Seq<T::Pos>) -> Seq<nat> {
    Seq::new(dim.len(), |k: int| T::index(dim[k], pos[k]))
}

/// The fault of the first slot from `k` on whose position is not valid.
pub open spec fn of_fault<T: Space>(dim: Seq<T::Dim>, pos: Seq<T::Pos>, k: int) -> Error
    decreases dim.len() - k,
{
    if k < 0 || k >= dim.len() {
        Error::ShapePositionMismatch
    } else if !T::valid(dim[k], pos[k]) {
        T::fault(dim[k], pos[k])
    } else {
        of_fault::<T>(dim, pos, k + 1)
    }
}

impl<T: Space> Space for DimensionN<Of<T>> {
    type Dim = Seq<T::Dim>;

    type Pos = Seq<T::Pos>;

    open spec fn fits(dim: Seq<T::Dim>) -> bool {
        &&& forall|k: int| 0 <= k < dim.len() ==> T::fits(#[trigger] dim[k])
        &&& radix_size(of_sizes::<T>(dim)) <= usize::MAX
    }

    open spec fn size(dim: Seq<T::Dim>) -> nat {
        radix_size(of_sizes::<T>(dim))
    }

    open spec fn valid(dim: Seq<T::Dim>, pos: Seq<T::Pos>) -> bool {
        &&& pos.len() == dim.len()
        &&& forall|k: int| 0 <= k < dim.len() ==> T::valid(#[trigger] dim[k], pos[k])
    }

    open spec fn index(dim: Seq<T::Dim>, pos: Seq<T::Pos>) -> nat {
        radix_index(of_sizes::<T>(dim), of_digits::<T>(dim, pos))
    }

    open spec fn pos(dim: Seq<T::Dim>, index: nat) -> Seq<T::Pos> {
        Seq::new(dim.len(), |k: int| T::pos(dim[k], radix_digit(of_sizes::<T>(dim), index, k)))
    }

    open spec fn fault(dim: Seq<T::Dim>, pos: Seq<T::Pos>) -> Error {
        if pos.len() != dim.len() {
            Error::ShapePositionMismatch
        } else {
            of_fault::<T>(dim, pos, 0)
        }
    }

    proof fn lemma_fits(dim: Seq<T::Dim>) {
    }

    proof fn lemma_index_in_range(dim: Seq<T::Dim>, pos: Seq<T::Pos>) {
        lemma_of_digits_valid::<T>(dim, pos);
        lemma_index_bound(of_sizes::<T>(dim), of_digits::<T>(dim, pos));
    }

    proof fn lemma_pos_index(dim: Seq<T::Dim>, index: nat) {
        let s = of_sizes::<T>(dim);
        lemma_index_of_digits(s, index);
        let p = Self::pos(dim, index);
        assert forall|k: int| 0 <= k < dim.len() implies T::valid(#[trigger] dim[k], p[k])
            && T::index(dim[k], p[k]) == radix_digit(s, index, k) by {
            assert(radix_digits(s, index)[k] < s[k]);
            T::lemma_pos_index(dim[k], radix_digit(s, index, k));
        }
        assert(of_digits::<T>(dim, p) =~= radix_digits(s, index));
    }

    proof fn lemma_index_pos(dim: Seq<T::Dim>, pos: Seq<T::Pos>) {
        let s = of_sizes::<T>(dim);
        let x = of_digits::<T>(dim, pos);
        lemma_of_digits_valid::<T>(dim, pos);
        let q = Self::pos(dim, Self::index(dim, pos));
        assert forall|k: int| 0 <= k < dim.len() implies q[k] == pos[k] by {
            lemma_digit_of_index(s, x, k);
            assert(T::valid(dim[k], pos[k]));
            T::lemma_index_pos(dim[k], pos[k]);
        }
        assert(q =~= pos);
    }
}

/// The slot indices of a valid sequence of positions are valid digits.
pub proof fn lemma_of_digits_valid<T: Space>(dim: Seq<T::Dim>, pos: Seq<T::Pos>)
    requires
        DimensionN::<Of<T>>::valid(dim, pos),
    ensures
        radix_valid(of_sizes::<T>(dim), of_digits::<T>(dim, pos)),
{
    let s = of_sizes::<T>(dim);
    let x = of_digits::<T>(dim, pos);
    assert forall|k: int| 0 <= k < s.len() implies x[k] < s[k] by {
        assert(T::valid(dim[k], pos[k]));
        T::lemma_index_in_range(dim[k], pos[k]);
    }
}

impl<'a, T, U> Count<&'a [U]> for DimensionN<Of<T>> where
    T: Construct + Count<U>,
    U: Copy + DeepView<V = T::Dim>,
 {
    fn count(&self, dim: &'a [U]) -> (n: usize) {
        let of: T = Construct::new();
        let ghost d = dim.deep_view();
        let ghost s = of_sizes::<T>(d);
        let mut prod: usize = 1;
        let mut i: usize = 0;
        while i < dim.len()
            invariant
                i <= dim.len(),
                d == dim.deep_view(),
                s == of_sizes::<T>(d),
                Self::fits(d),
                prod == stride(s, i as int),
            decreases dim.len() - i,
        {
            assert(d[i as int] == dim@[i as int].deep_view());
            let c = of.count(dim[i]);
            match prod.checked_mul(c) {
                Some(p) => {
                    prod = p;
                },
                None => {
                    proof {
                        assert(stride(s, i + 1) == stride(s, i as int) * s[i as int]);
                        if radix_size(s) > 0 {
                            lemma_stride_le_size(s, i + 1);
                        }
                    }
                    return 0;
                },
            }
            i += 1;
        }
        prod
    }
}

impl<'a, T, U, V> Zero<&'a [U], Vec<V>> for DimensionN<Of<T>> where
    T: Construct + Zero<U, V>,
    U: Copy + DeepView<V = T::Dim>,
    V: DeepView<V = T::Pos>,
 {
    fn zero(&self, dim: &'a [U]) -> (z: Vec<V>) {
        let of: T = Construct::new();
        let ghost d = dim.deep_view();
        let mut z: Vec<V> = Vec::new();
        let mut i: usize = 0;
        while i < dim.len()
            invariant
                i <= dim.len(),
                d == dim.deep_view(),
                z.len() == i,
                forall|k: int|
                    0 <= k < i && T::size(d[k]) > 0 ==> z@[k].deep_view() == T::pos(d[k], 0),
            decreases dim.len() - i,
        {
            assert(d[i as int] == dim@[i as int].deep_view());
            let e = of.zero(dim[i]);
            z.push(e);
            i += 1;
        }
        proof {
            let s = of_sizes::<T>(d);
            if Self::size(d) > 0 {
                lemma_size_zero(s);
                assert forall|k: int| 0 <= k < d.len() implies z.deep_view()[k] == Self::pos(
                    d,
                    0,
                )[k] by {
                    assert(s[k] > 0);
                    lemma_digit_of_zero(s, k);
                }
                assert(z.deep_view() =~= Self::pos(d, 0));
            }
        }
        z
    }
}

impl<'a, T, U, V> ToIndex<&'a [U], Vec<V>> for DimensionN<Of<T>> where
    T: Construct + Count<U> + ToIndex<U, V>,
    U: Copy + DeepView<V = T::Dim>,
    V: DeepView<V = T::Pos>,
 {
    fn to_index(&self, dim: &'a [U], pos: &Vec<V>) -> (i: usize) {
        let of: T = Construct::new();
        let ghost d = dim.deep_view();
        let ghost p = pos.deep_view();
        let ghost s = of_sizes::<T>(d);
        let ghost x = of_digits::<T>(d, p);
        proof {
            lemma_of_digits_valid::<T>(d, p);
            lemma_index_bound(s, x);
        }
        let mut acc: usize = 0;
        let mut k: usize = dim.len();
        while k > 0
            invariant
                k <= dim.len(),
                d == dim.deep_view(),
                p == pos.deep_view(),
                s == of_sizes::<T>(d),
                x == of_digits::<T>(d, p),
                Self::fits(d),
                Self::valid(d, p),
                radix_valid(s, x),
                radix_index(s, x) <= usize::MAX,
                acc == radix_tail(s, x, k as int),
            decreases k,
        {
            k -= 1;
            assert(d[k as int] == dim@[k as int].deep_view());
            assert(p[k as int] == pos@[k as int].deep_view());
            assert(T::valid(d[k as int], p[k as int]));
            let c = of.count(dim[k]);
            let e = of.to_index(dim[k], &pos[k]);
            proof {
                lemma_tail_le_index(s, x, k as int);
                assert(acc * c == s[k as int] * radix_tail(s, x, k + 1)) by (nonlinear_arith)
                    requires
                        acc == radix_tail(s, x, k + 1),
                        c == s[k as int],
                ;
            }
            acc = acc * c + e;
        }
        proof {
            lemma_sum_tail(s, x, 0);
            assert(1 * radix_tail(s, x, 0) == radix_tail(s, x, 0)) by (nonlinear_arith);
        }
        acc
    }
}

impl<'a, T, U, V> ToPos<&'a [U], Vec<V>> for DimensionN<Of<T>> where
    T: Construct + Count<U> + ToPos<U, V>,
    U: Copy + DeepView<V = T::Dim>,
    V: Default + DeepView<V = T::Pos>,
 {
    fn to_pos(&self, dim: &'a [U], index: usize, pos: &mut Vec<V>) {
        let of: T = Construct::new();
        let ghost d = dim.deep_view();
        let ghost s = of_sizes::<T>(d);
        proof {
            lemma_digits_start(s, index as nat);
        }
        let n = dim.len();
        pos.truncate(n);
        while pos.len() < n
            invariant
                pos.len() <= n,
            decreases n - pos.len(),
        {
            pos.push(V::default());
        }
        let mut prod = self.count(dim);
        let mut rem: usize = index;
        let mut k: usize = n;
        while k > 0
            invariant
                k <= n,
                n == dim.len(),
                d == dim.deep_view(),
                s == of_sizes::<T>(d),
                Self::fits(d),
                pos.len() == n,
                forall|j: int| 0 <= j < n ==> s[j] > 0,
                prod == stride(s, k as int),
                rem == (index as nat) % stride(s, k as int),
                forall|j: int|
                    k <= j < n ==> pos@[j].deep_view() == T::pos(
                        d[j],
                        radix_digit(s, index as nat, j),
                    ),
            decreases k,
        {
            k -= 1;
            assert(d[k as int] == dim@[k as int].deep_view());
            proof {
                lemma_digit_step(s, index as nat, k as int);
            }
            let c = of.count(dim[k]);
            prod = prod / c;
            let e = rem / prod;
            assert(e * prod <= rem) by (nonlinear_arith)
                requires
                    e == rem / prod,
                    prod > 0,
            ;
            assert(e < c);
            of.to_pos(dim[k], e, &mut pos[k]);
            rem = rem - e * prod;
        }
        proof {
            assert(pos.deep_view() =~= Self::pos(d, index as nat));
        }
    }
}

impl<T: Space> Space for DimensionN<Subspace<T>> {
    type Dim = (Seq<usize>, T::Dim);

    type Pos = (Seq<usize>, T::Pos);

    open spec fn fits(dim: (Seq<usize>, T::Dim)) -> bool {
        &&& DimensionN::<Data>::fits(dim.0)
        &&& T::fits(dim.1)
        &&& DimensionN::<Data>::size(dim.0) * T::size(dim.1) <= usize::MAX
    }

    open spec fn size(dim: (Seq<usize>, T::Dim)) -> nat {
        DimensionN::<Data>::size(dim.0) * T::size(dim.1)
    }

    open spec fn valid(dim: (Seq<usize>, T::Dim), pos: (Seq<usize>, T::Pos)) -> bool {
        &&& DimensionN::<Data>::valid(dim.0, pos.0)
        &&& T::valid(dim.1, pos.1)
    }

    open spec fn index(dim: (Seq<usize>, T::Dim), pos: (Seq<usize>, T::Pos)) -> nat {
        DimensionN::<Data>::index(dim.0, pos.0) * T::size(dim.1) + T::index(dim.1, pos.1)
    }

    open spec fn pos(dim: (Seq<usize>, T::Dim), index: nat) -> (Seq<usize>, T::Pos) {
        (
            DimensionN::<Data>::pos(dim.0, index / T::size(dim.1)),
            T::pos(dim.1, index % T::size(dim.1)),
        )
    }

    open spec fn fault(dim: (Seq<usize>, T::Dim), pos: (Seq<usize>, T::Pos)) -> Error {
        if !DimensionN::<Data>::valid(dim.0, pos.0) {
            DimensionN::<Data>::fault(dim.0, pos.0)
        } else {
            T::fault(dim.1, pos.1)
        }
    }

    proof fn lemma_fits(dim: (Seq<usize>, T::Dim)) {
    }

    proof fn lemma_index_in_range(dim: (Seq<usize>, T::Dim), pos: (Seq<usize>, T::Pos)) {
        DimensionN::<Data>::lemma_index_in_range(dim.0, pos.0);
        T::lemma_index_in_range(dim.1, pos.1);
        lemma_join(
            DimensionN::<Data>::index(dim.0, pos.0),
            T::index(dim.1, pos.1),
            DimensionN::<Data>::size(dim.0),
            T::size(dim.1),
        );
    }

    proof fn lemma_pos_index(dim: (Seq<usize>, T::Dim), index: nat) {
        let m = DimensionN::<Data>::size(dim.0);
        let n = T::size(dim.1);
        lemma_split(index, m, n);
        DimensionN::<Data>::lemma_pos_index(dim.0, index / n);
        T::lemma_pos_index(dim.1, index % n);
    }

    proof fn lemma_index_pos(dim: (Seq<usize>, T::Dim), pos: (Seq<usize>, T::Pos)) {
        DimensionN::<Data>::lemma_index_in_range(dim.0, pos.0);
        T::lemma_index_in_range(dim.1, pos.1);
        lemma_join(
            DimensionN::<Data>::index(dim.0, pos.0),
            T::index(dim.1, pos.1),
            DimensionN::<Data>::size(dim.0),
            T::size(dim.1),
        );
        DimensionN::<Data>::lemma_index_pos(dim.0, pos.0);
        T::lemma_index_pos(dim.1, pos.1);
    }
}

impl<'a, T, U> Count<(&'a [usize], U)> for DimensionN<Subspace<T>> where
    T: Construct + Count<U>,
    U: DeepView<V = T::Dim>,
 {
    fn count(&self, dim: (&'a [usize], U)) -> (n: usize) {
        let subspace: T = Construct::new();
        let data: DimensionN<Data> = Construct::new();
        let (a, b) = dim;
        data.count(a) * subspace.count(b)
    }
}

impl<'a, T, U, V> ToIndex<(&'a [usize], U), (Vec<usize>, V)> for DimensionN<Subspace<T>> where
    T: Construct + Count<U> + ToIndex<U, V>,
    U: Copy + DeepView<V = T::Dim>,
    V: DeepView<V = T::Pos>,
 {
    fn to_index(&self, dim: (&'a [usize], U), pos: &(Vec<usize>, V)) -> (i: usize) {
        let subspace: T = Construct::new();
        let data: DimensionN<Data> = Construct::new();
        let (a, b) = dim;
        proof {
            Self::lemma_index_in_range(dim.deep_view(), pos.deep_view());
            let x = DimensionN::<Data>::index(a.deep_view(), pos.0.deep_view());
            let n = T::size(b.deep_view());
            assert(x * n <= x * n + T::index(b.deep_view(), pos.1.deep_view()));
        }
        let count = subspace.count(b);
        data.to_index(a, &pos.0) * count + subspace.to_index(b, &pos.1)
    }
}

impl<'a, T, U, V> ToPos<(&'a [usize], U), (Vec<usize>, V)> for DimensionN<Subspace<T>> where
    T: Construct + Count<U> + ToPos<U, V>,
    U: Copy + DeepView<V = T::Dim>,
    V: DeepView<V = T::Pos>,
 {
    fn to_pos(&self, dim: (&'a [usize], U), index: usize, pos: &mut (Vec<usize>, V)) {
        let subspace: T = Construct::new();
        let data: DimensionN<Data> = Construct::new();
        let (a, b) = dim;
        proof {
            lemma_split(
                index as nat,
                DimensionN::<Data>::size(a.deep_view()),
                T::size(b.deep_view()),
            );
        }
        let count = subspace.count(b);
        let x = index / count;
        data.to_pos(a, x, &mut pos.0);
        subspace.to_pos(b, index - x * count, &mut pos.1);
    }
}

/// Whether some axis has size 0.
pub fn has_empty_axis(dim: &[usize]) -> (b: bool)
    ensures
        b <==> exists|j: int| 0 <= j < dim@.len() && dim@[j] == 0,
{
    let mut i: usize = 0;
    while i < dim.len()
        invariant
            i <= dim.len(),
            forall|j: int| 0 <= j < i ==> dim@[j] > 0,
        decreases dim.len() - i,
    {
        if dim[i] == 0 {
            return true;
        }
        i += 1;
    }
    false
}

impl<'a> Checked<&'a [usize], Vec<usize>> for DimensionN<Data> {
    fn shape_fits(&self, dim: &'a [usize]) -> (b: bool) {
        let ghost s = nats(dim@);
        proof {
            assert(dim.deep_view() =~= dim@);
            lemma_grid_empty(dim@);
        }
        if has_empty_axis(dim) {
            return true;
        }
        let mut prod: usize = 1;
        let mut i: usize = 0;
        while i < dim.len()
            invariant
                i <= dim.len(),
                dim.deep_view() == dim@,
                s == nats(dim@),
                radix_size(s) > 0,
                prod == stride(s, i as int),
            decreases dim.len() - i,
        {
            match prod.checked_mul(dim[i]) {
                Some(p) => {
                    prod = p;
                },
                None => {
                    proof {
                        assert(stride(s, i + 1) == stride(s, i as int) * s[i as int]);
                        lemma_stride_le_size(s, i + 1);
                    }
                    return false;
                },
            }
            i += 1;
        }
        true
    }

    fn check(&self, dim: &'a [usize], pos: &Vec<usize>) -> (r: Result<(), Error>) {
        proof {
            assert(dim.deep_view() =~= dim@);
            assert(pos.deep_view() =~= pos@);
        }
        if pos.len() != dim.len() {
            return Err(Error::ShapePositionMismatch);
        }
        let mut k: usize = 0;
        while k < dim.len()
            invariant
                k <= dim.len(),
                pos.len() == dim.len(),
                dim.deep_view() == dim@,
                pos.deep_view() == pos@,
                forall|j: int| 0 <= j < k ==> pos@[j] < dim@[j],
            decreases dim.len() - k,
        {
            if pos[k] >= dim[k] {
                return Err(Error::ShapePositionMismatch);
            }
            k += 1;
        }
        Ok(())
    }
}

impl<'a, T, U, V> Checked<&'a [U], Vec<V>> for DimensionN<Of<T>> where
    T: Construct + Count<U> + ToIndex<U, V> + ToPos<U, V> + Checked<U, V>,
    U: Copy + DeepView<V = T::Dim>,
    V: Default + DeepView<V = T::Pos>,
 {
    fn shape_fits(&self, dim: &'a [U]) -> (b: bool) {
        let of: T = Construct::new();
        let ghost d = dim.deep_view();
        let ghost s = of_sizes::<T>(d);
        let mut empty = false;
        let ghost mut z: int = 0;
        let mut i: usize = 0;
        while i < dim.len()
            invariant
                i <= dim.len(),
                d == dim.deep_view(),
                s == of_sizes::<T>(d),
                forall|k: int| 0 <= k < i ==> T::fits(#[trigger] d[k]),
                empty ==> 0 <= z < i && s[z] == 0,
                !empty ==> forall|k: int| 0 <= k < i ==> s[k] > 0,
            decreases dim.len() - i,
        {
            assert(d[i as int] == dim@[i as int].deep_view());
            if !of.shape_fits(dim[i]) {
                return false;
            }
            if of.count(dim[i]) == 0 {
                empty = true;
                proof {
                    z = i as int;
                }
            }
            i += 1;
        }
        proof {
            lemma_size_zero(s);
            if empty {
                assert(0 <= z < s.len() && s[z] == 0);
            }
        }
        if empty {
            return true;
        }
        let mut prod: usize = 1;
        let mut i: usize = 0;
        while i < dim.len()
            invariant
                i <= dim.len(),
                d == dim.deep_view(),
                s == of_sizes::<T>(d),
                forall|k: int| 0 <= k < dim.len() ==> T::fits(#[trigger] d[k]),
                radix_size(s) > 0,
                prod == stride(s, i as int),
            decreases dim.len() - i,
        {
            assert(d[i as int] == dim@[i as int].deep_view());
            let c = of.count(dim[i]);
            match prod.checked_mul(c) {
                Some(p) => {
                    prod = p;
                },
                None => {
                    proof {
                        assert(stride(s, i + 1) == stride(s, i as int) * s[i as int]);
                        lemma_stride_le_size(s, i + 1);
                    }
                    return false;
                },
            }
            i += 1;
        }
        true
    }

    fn check(&self, dim: &'a [U], pos: &Vec<V>) -> (r: Result<(), Error>) {
        let of: T = Construct::new();
        let ghost d = dim.deep_view();
        let ghost p = pos.deep_view();
        if pos.len() != dim.len() {
            return Err(Error::ShapePositionMismatch);
        }
        let mut k: usize = 0;
        while k < dim.len()
            invariant
                k <= dim.len(),
                pos.len() == dim.len(),
                d == dim.deep_view(),
                p == pos.deep_view(),
                Self::fits(d),
                forall|j: int| 0 <= j < k ==> T::valid(#[trigger] d[j], p[j]),
                of_fault::<T>(d, p, k as int) == of_fault::<T>(d, p, 0),
            decreases dim.len() - k,
        {
            assert(d[k as int] == dim@[k as int].deep_view());
            assert(p[k as int] == pos@[k as int].deep_view());
            match of.check(dim[k], &pos[k]) {
                Err(e) => {
                    return Err(e);
                },
                Ok(()) => {},
            }
            k += 1;
        }
        Ok(())
    }
}

impl<'a, T, U, V> Checked<(&'a [usize], U), (Vec<usize>, V)> for DimensionN<Subspace<T>> where
    T: Construct + Count<U> + ToIndex<U, V> + ToPos<U, V> + Checked<U, V>,
    U: Copy + DeepView<V = T::Dim>,
    V: DeepView<V = T::Pos>,
 {
    fn shape_fits(&self, dim: (&'a [usize], U)) -> (b: bool) {
        let subspace: T = Construct::new();
        let data: DimensionN<Data> = Construct::new();
        let (a, b) = dim;
        assert(dim.deep_view() == (a.deep_view(), b.deep_view()));
        if !data.shape_fits(a) {
            return false;
        }
        if !subspace.shape_fits(b) {
            return false;
        }
        data.count(a).checked_mul(subspace.count(b)).is_some()
    }

    fn check(&self, dim: (&'a [usize], U), pos: &(Vec<usize>, V)) -> (r: Result<(), Error>) {
        let subspace: T = Construct::new();
        let data: DimensionN<Data> = Construct::new();
        let (a, b) = dim;
        assert(dim.deep_view() == (a.deep_view(), b.deep_view()));
        assert(pos.deep_view() == (pos.0.deep_view(), pos.1.deep_view()));
        assert(DimensionN::<Data>::fits(a.deep_view()));
        match data.check(a, &pos.0) {
            Err(e) => Err(e),
            Ok(()) => subspace.check(b, &pos.1),
        }
    }
}

} // verus!

//! The directed edges of a grid graph: every edge of the grid, once in
//! each direction. A position names the end the edge starts from, the
//! axis that changes, and the value of that axis at the other end.

use crate::context::{
    ascending_edge, check_edge, cross, cross_number, edge_at, edge_axis, edge_axis_from,
    edge_count, edge_index, edge_index_of, edge_offset, edges, is_edge, lemma_edge_at,
    lemma_edge_index_parts, lemma_edge_index_symmetric, lemma_edges_next,
    lemma_edges_step_bound, lemma_no_edges, lemma_offset_next, reversed_edge, Context,
};
use crate::dimension_n::{has_empty_axis, DimensionN};
use crate::neq_pair::NeqPair;
use crate::pair::triangle;
use crate::radix::{nats, stride};
use crate::space::{Checked, Construct, Count, Data, Error, Space, ToIndex, ToPos};
use std::marker::PhantomData;
use vstd::prelude::*;

verus! {

/// Same as `Context`, but for directed edges.
pub struct DirectedContext<T>(PhantomData<T>);

impl<T> Construct for DirectedContext<T> {
    fn new() -> DirectedContext<T> {
        DirectedContext(PhantomData)
    }
}

/// The edges of a grid, each in both directions. The lowest bit of the
/// index tells the direction: 0 where the value of the axis grows along
/// the edge, 1 where it falls.
impl Space for DirectedContext<Data> {
    type Dim = Seq<usize>;

    type Pos = (Seq<usize>, usize, usize);

    open spec fn fits(dim: Seq<usize>) -> bool {
        &&& dim.len() <= usize::MAX
        &&& DimensionN::<Data>::size(dim) <= usize::MAX
        &&& 2 * edge_count(dim) <= usize::MAX
    }

    open spec fn size(dim: Seq<usize>) -> nat {
        2 * Context::<Data>::size(dim)
    }

    open spec fn valid(dim: Seq<usize>, pos: (Seq<usize>, usize, usize)) -> bool {
        &&& dim.len() <= usize::MAX
        &&& is_edge(dim, pos)
    }

    open spec fn index(dim: Seq<usize>, pos: (Seq<usize>, usize, usize)) -> nat {
        2 * edge_index(dim, pos) + if pos.0[pos.1 as int] < pos.2 {
            0nat
        } else {
            1nat
        }
    }

    open spec fn pos(dim: Seq<usize>, index: nat) -> (Seq<usize>, usize, usize) {
        if index % 2 == 0 {
            edge_at(dim, index / 2)
        } else {
            reversed_edge(edge_at(dim, index / 2))
        }
    }

    open spec fn fault(dim: Seq<usize>, pos: (Seq<usize>, usize, usize)) -> Error {
        Error::ShapePositionMismatch
    }

    proof fn lemma_fits(dim: Seq<usize>) {
    }

    proof fn lemma_index_in_range(dim: Seq<usize>, pos: (Seq<usize>, usize, usize)) {
        lemma_edge_index_parts(dim, pos);
    }

    proof fn lemma_pos_index(dim: Seq<usize>, index: nat) {
        let e = edge_at(dim, index / 2);
        lemma_edge_at(dim, index / 2);
        lemma_edge_index_symmetric(dim, e);
    }

    proof fn lemma_index_pos(dim: Seq<usize>, pos: (Seq<usize>, usize, usize)) {
        let up = ascending_edge(pos);
        lemma_edge_index_symmetric(dim, pos);
        Context::<Data>::lemma_index_pos(dim, up);
        lemma_edge_index_symmetric(dim, up);
    }
}

/// The offset of the directed edges along axis `ind`. The space is
/// divided into one subspace for each axis, because only one axis can
/// change at a time.
pub fn subspace_offset(v: &[usize], ind: usize) -> (sum: usize)
    requires
        ind <= v.len(),
        DirectedContext::<Data>::fits(v@),
    ensures
        sum == 2 * edge_offset(v@, ind as int),
{
    let pair: NeqPair<Data> = Construct::new();
    if has_empty_axis(v) {
        proof {
            let z = choose|j: int| 0 <= j < v@.len() && v@[j] == 0;
            lemma_no_edges(v@, z, ind as int);
        }
        return 0;
    }
    let mut sum: usize = 0;
    let mut i: usize = 0;
    while i < ind
        invariant
            i <= ind <= v.len(),
            forall|j: int| 0 <= j < v@.len() ==> v@[j] > 0,
            DirectedContext::<Data>::fits(v@),
            sum == 2 * edge_offset(v@, i as int),
        decreases ind - i,
    {
        proof {
            lemma_offset_next(v@, i as int);
            let t = triangle(v@[i as int] as nat);
            let c = cross(v@, i as int, v@.len() as int);
            assert((2 * t) * c == 2 * (t * c)) by (nonlinear_arith);
        }
        let prod = cross_number(v, i);
        sum = sum + pair.count(v[i]) * prod;
        i += 1;
    }
    sum
}

/// The axis that changes along the directed edge with the given index,
/// and the offset of the directed edges along that axis; the number of
/// axes and the number of directed edges where the index names none.
pub fn ind_from_index(v: &[usize], index: usize) -> (r: (usize, usize))
    requires
        DirectedContext::<Data>::fits(v@),
    ensures
        index < 2 * edge_count(v@) ==> r.0 == edge_axis(v@, (index / 2) as nat) && r.1 == 2
            * edge_offset(v@, r.0 as int),
        index >= 2 * edge_count(v@) ==> r.0 == v@.len() && r.1 == 2 * edge_count(v@),
{
    let pair: NeqPair<Data> = Construct::new();
    if has_empty_axis(v) {
        proof {
            let z = choose|j: int| 0 <= j < v@.len() && v@[j] == 0;
            lemma_no_edges(v@, z, v@.len() as int);
        }
        return (v.len(), 0);
    }
    let mut sum: usize = 0;
    let mut i: usize = 0;
    while i < v.len()
        invariant
            i <= v.len(),
            forall|j: int| 0 <= j < v@.len() ==> v@[j] > 0,
            DirectedContext::<Data>::fits(v@),
            sum == 2 * edge_offset(v@, i as int),
            sum <= index,
            edge_axis_from(v@, (index / 2) as nat, i as int) == edge_axis(v@, (index / 2) as nat),
        decreases v.len() - i,
    {
        proof {
            lemma_offset_next(v@, i as int);
            let t = triangle(v@[i as int] as nat);
            let c = cross(v@, i as int, v@.len() as int);
            assert((2 * t) * c == 2 * (t * c)) by (nonlinear_arith);
        }
        let prod = cross_number(v, i);
        let add = pair.count(v[i]) * prod;
        if sum + add > index {
            return (i, sum);
        }
        sum = sum + add;
        i += 1;
    }
    (v.len(), sum)
}

impl<'a> Count<&'a [usize]> for DirectedContext<Data> {
    fn count(&self, dim: &'a [usize]) -> (n: usize) {
        let pair: NeqPair<Data> = Construct::new();
        proof {
            assert(dim.deep_view() =~= dim@);
        }
        if has_empty_axis(dim) {
            proof {
                let z = choose|j: int| 0 <= j < dim@.len() && dim@[j] == 0;
                lemma_no_edges(dim@, z, dim@.len() as int);
            }
            return 0;
        }
        let mut sum: usize = 0;
        let mut prod: usize = 1;
        let mut k: usize = 0;
        while k < dim.len()
            invariant
                k <= dim.len(),
                forall|j: int| 0 <= j < dim@.len() ==> dim@[j] > 0,
                DirectedContext::<Data>::fits(dim@),
                sum == 2 * edges(dim@, k as int, k as int),
                prod == stride(nats(dim@), k as int),
            decreases dim.len() - k,
        {
            let d = dim[k];
            proof {
                lemma_edges_next(dim@, k as int);
                lemma_edges_step_bound(dim@, k as int);
                let e = edges(dim@, k as int, k as int);
                let t = triangle(d as nat);
                let w = stride(nats(dim@), k as int);
                assert(d * (2 * e) == 2 * (d * e)) by (nonlinear_arith);
                assert((2 * t) * w == 2 * (t * w)) by (nonlinear_arith);
            }
            let c = pair.count(d);
            sum = d * sum + c * prod;
            prod = prod * d;
            k += 1;
        }
        sum
    }
}

impl<'a> ToIndex<&'a [usize], (Vec<usize>, usize, usize)> for DirectedContext<Data> {
    fn to_index(&self, dim: &'a [usize], pos: &(Vec<usize>, usize, usize)) -> (i: usize) {
        proof {
            assert(dim.deep_view() =~= dim@);
            assert(pos.0.deep_view() =~= pos.0@);
            lemma_edge_index_parts(dim@, (pos.0@, pos.1, pos.2));
        }
        let index = edge_index_of(dim, &pos.0, pos.1, pos.2);
        if pos.0[pos.1] > pos.2 {
            2 * index + 1
        } else {
            2 * index
        }
    }
}

impl<'a> ToPos<&'a [usize], (Vec<usize>, usize, usize)> for DirectedContext<Data> {
    fn to_pos(&self, dim: &'a [usize], index: usize, pos: &mut (Vec<usize>, usize, usize)) {
        let context: Context<Data> = Construct::new();
        proof {
            assert(dim.deep_view() =~= dim@);
            lemma_edge_at(dim@, (index / 2) as nat);
        }
        if index % 2 == 0 {
            context.to_pos(dim, index / 2, pos);
        } else {
            context.to_pos(dim, (index - 1) / 2, pos);
            proof {
                assert(pos.0.deep_view() =~= pos.0@);
            }
            let tmp = pos.0[pos.1];
            pos.0[pos.1] = pos.2;
            pos.2 = tmp;
            proof {
                assert(pos.0.deep_view() =~= pos.0@);
            }
        }
    }
}

impl<'a> Checked<&'a [usize], (Vec<usize>, usize, usize)> for DirectedContext<Data> {
    fn shape_fits(&self, dim: &'a [usize]) -> (b: bool) {
        let context: Context<Data> = Construct::new();
        proof {
            assert(dim.deep_view() =~= dim@);
        }
        if !context.shape_fits(dim) {
            return false;
        }
        context.count(dim) <= usize::MAX / 2
    }

    fn check(&self, dim: &'a [usize], pos: &(Vec<usize>, usize, usize)) -> (r: Result<(), Error>) {
        proof {
            assert(dim.deep_view() =~= dim@);
            assert(pos.0.deep_view() =~= pos.0@);
        }
        if check_edge(dim, &pos.0, pos.1, pos.2) {
            Ok(())
        } else {
            Err(Error::ShapePositionMismatch)
        }
    }
}

} // verus!

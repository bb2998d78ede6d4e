//! The edges of a grid graph: pairs of cells that differ in the value of
//! exactly one axis. A position names one end of the edge, the axis that
//! changes, and the value of that axis at the other end.

use crate::dimension_n::{has_empty_axis, DimensionN};
use crate::pair::{lemma_triangle_step, triangle, Pair};
use crate::radix::{
    lemma_digit_step, lemma_digits_start, lemma_index_bound, lemma_join, lemma_split,
    lemma_stride_le_size, lemma_stride_zero, lemma_sum_tail, lemma_tail_le_index, nats,
    radix_digit, radix_index, radix_size, radix_tail, radix_valid, stride,
};
use crate::space::{Checked, Construct, Count, Data, Error, Space, ToIndex, ToPos};
use std::marker::PhantomData;
use vstd::prelude::*;

verus! {

/// Dimension is a list of numbers, position is `(base, axis, other)`.
pub struct Context<T = Data>(PhantomData<T>);

impl<T> Construct for Context<T> {
    fn new() -> Context<T> {
        Context(PhantomData)
    }
}

/// The number of cells of the grid on the first `k` axes, with the axis
/// `axis` left out.
pub open spec fn cross(dim: Seq<usize>, axis: int, k: int) -> nat {
    stride(nats(dim.update(axis, 1usize)), k)
}

/// The number of edges along the first `m` axes in the grid on the first
/// `k` axes.
pub open spec fn edges(dim: Seq<usize>, k: int, m: int) -> nat
    decreases m,
{
    if m <= 0 {
        0
    } else {
        edges(dim, k, m - 1) + triangle(dim[m - 1] as nat) * cross(dim, m - 1, k)
    }
}

/// The index of the first edge along `axis`: edges are laid out axis by
/// axis.
pub open spec fn edge_offset(dim: Seq<usize>, axis: int) -> nat {
    edges(dim, dim.len() as int, axis)
}

/// The number of edges of the grid.
pub open spec fn edge_count(dim: Seq<usize>) -> nat {
    edge_offset(dim, dim.len() as int)
}

/// The first axis from `k` on whose edges reach beyond index `i`; the
/// number of axes if there is none.
pub open spec fn edge_axis_from(dim: Seq<usize>, i: nat, k: int) -> int
    decreases dim.len() - k,
{
    if k < 0 || k >= dim.len() {
        dim.len() as int
    } else if i < edge_offset(dim, k + 1) {
        k
    } else {
        edge_axis_from(dim, i, k + 1)
    }
}

/// The axis along which the edge with index `i` runs.
pub open spec fn edge_axis(dim: Seq<usize>, i: nat) -> int {
    edge_axis_from(dim, i, 0)
}

/// Whether `pos` names an edge of the grid, from either end.
pub open spec fn is_edge(dim: Seq<usize>, pos: (Seq<usize>, usize, usize)) -> bool {
    &&& DimensionN::<Data>::valid(dim, pos.0)
    &&& pos.1 < dim.len()
    &&& pos.2 < dim[pos.1 as int]
    &&& pos.2 != pos.0[pos.1 as int]
}

/// The same edge, named from its lower end.
pub open spec fn ascending_edge(pos: (Seq<usize>, usize, usize)) -> (Seq<usize>, usize, usize) {
    let a = pos.1 as int;
    if pos.0[a] < pos.2 {
        pos
    } else {
        (pos.0.update(a, pos.2), pos.1, pos.0[a])
    }
}

/// The same edge, named from its other end.
pub open spec fn reversed_edge(pos: (Seq<usize>, usize, usize)) -> (Seq<usize>, usize, usize) {
    let a = pos.1 as int;
    (pos.0.update(a, pos.2), pos.1, pos.0[a])
}

/// The index of an edge, whichever end names it: the offset of its axis,
/// then the pair of values on that axis, then the cell in the rest of the
/// grid, which varies fastest.
pub open spec fn edge_index(dim: Seq<usize>, pos: (Seq<usize>, usize, usize)) -> nat {
    let a = pos.1 as int;
    let lo = if pos.0[a] < pos.2 {
        pos.0[a]
    } else {
        pos.2
    };
    let hi = if pos.0[a] < pos.2 {
        pos.2
    } else {
        pos.0[a]
    };
    edge_offset(dim, a) + Pair::<Data>::index(dim[a], (lo, hi)) * cross(dim, a, dim.len() as int)
        + DimensionN::<Data>::index(dim.update(a, 1usize), pos.0.update(a, 0usize))
}

/// The edge with index `i`, named from its lower end.
pub open spec fn edge_at(dim: Seq<usize>, i: nat) -> (Seq<usize>, usize, usize) {
    let a = edge_axis(dim, i);
    let rest = cross(dim, a, dim.len() as int);
    let j = (i - edge_offset(dim, a)) as nat;
    let pr = Pair::<Data>::pos(dim[a], j / rest);
    let g = DimensionN::<Data>::pos(dim.update(a, 1usize), j % rest);
    (g.update(a, pr.0), a as usize, pr.1)
}

/// The weight of a digit depends only on the sizes before it.
pub proof fn lemma_stride_prefix(s: Seq<nat>, t: Seq<nat>, k: int)
    requires
        0 <= k <= s.len(),
        k <= t.len(),
        forall|j: int| 0 <= j < k ==> s[j] == t[j],
    ensures
        stride(s, k) == stride(t, k),
    decreases k,
{
    if k > 0 {
        lemma_stride_prefix(s, t, k - 1);
    }
}

/// Leaving an axis out of a grid without empty axes does not add cells.
pub proof fn lemma_cross_le(dim: Seq<usize>, axis: int, k: int)
    requires
        0 <= axis < dim.len(),
        0 <= k <= dim.len(),
        forall|j: int| 0 <= j < dim.len() ==> dim[j] > 0,
    ensures
        0 < cross(dim, axis, k) <= stride(nats(dim), k),
    decreases k,
{
    let s = nats(dim.update(axis, 1usize));
    let t = nats(dim);
    if k > 0 {
        lemma_cross_le(dim, axis, k - 1);
        let a = stride(s, k - 1);
        let b = stride(t, k - 1);
        let x = s[k - 1];
        let y = t[k - 1];
        assert(0 < a * x <= b * y) by (nonlinear_arith)
            requires
                0 < a <= b,
                0 < x <= y,
        ;
    }
}

/// Offsets grow with the axis.
pub proof fn lemma_offset_monotone(dim: Seq<usize>, a: int, b: int)
    requires
        0 <= a <= b <= dim.len(),
    ensures
        edge_offset(dim, a) <= edge_offset(dim, b),
    decreases b - a,
{
    if a < b {
        lemma_offset_monotone(dim, a, b - 1);
    }
}

/// A grid with an empty axis has no edge.
pub proof fn lemma_no_edges(dim: Seq<usize>, z: int, m: int)
    requires
        0 <= z < dim.len(),
        dim[z] == 0,
        0 <= m <= dim.len(),
    ensures
        edge_offset(dim, m) == 0,
    decreases m,
{
    if m > 0 {
        lemma_no_edges(dim, z, m - 1);
        let i = m - 1;
        let t = triangle(dim[i] as nat);
        let c = cross(dim, i, dim.len() as int);
        if i == z {
            lemma_triangle_step(0);
            assert(t * c == 0) by (nonlinear_arith)
                requires
                    t == 0,
            ;
        } else {
            let s = nats(dim.update(i, 1usize));
            assert(s[z] == 0);
            lemma_stride_zero(s, dim.len() as int);
            assert(t * c == 0) by (nonlinear_arith)
                requires
                    c == 0,
            ;
        }
    }
}

/// A grid with an edge has no empty axis.
pub proof fn lemma_edges_need_cells(dim: Seq<usize>)
    requires
        edge_count(dim) > 0,
    ensures
        forall|j: int| 0 <= j < dim.len() ==> dim[j] > 0,
{
    assert forall|j: int| 0 <= j < dim.len() implies dim[j] > 0 by {
        if dim[j] == 0 {
            lemma_no_edges(dim, j, dim.len() as int);
        }
    }
}

/// An index below the number of edges falls among the edges of one axis.
pub proof fn lemma_edge_axis_from(dim: Seq<usize>, i: nat, k: int)
    requires
        0 <= k <= dim.len(),
        edge_offset(dim, k) <= i < edge_count(dim),
    ensures
        k <= edge_axis_from(dim, i, k) < dim.len(),
        edge_offset(dim, edge_axis_from(dim, i, k)) <= i < edge_offset(
            dim,
            edge_axis_from(dim, i, k) + 1,
        ),
    decreases dim.len() - k,
{
    if k < dim.len() && i >= edge_offset(dim, k + 1) {
        lemma_edge_axis_from(dim, i, k + 1);
    }
}

/// Only one axis has the index among its edges.
pub proof fn lemma_edge_axis_unique(dim: Seq<usize>, i: nat, k: int, a: int)
    requires
        0 <= k <= a < dim.len(),
        edge_offset(dim, a) <= i < edge_offset(dim, a + 1),
    ensures
        edge_axis_from(dim, i, k) == a,
    decreases a - k,
{
    if k < a {
        lemma_offset_monotone(dim, k + 1, a);
        lemma_edge_axis_unique(dim, i, k + 1, a);
    }
}

/// How the index of an edge is made up: it lies among the indices of its
/// axis, and what is left after the offset splits into the index of the
/// pair of values and the index of the cell in the rest of the grid.
pub proof fn lemma_edge_index_parts(dim: Seq<usize>, pos: (Seq<usize>, usize, usize))
    requires
        is_edge(dim, pos),
    ensures
        ({
            let a = pos.1 as int;
            let up = ascending_edge(pos);
            let rest = cross(dim, a, dim.len() as int);
            let q = Pair::<Data>::index(dim[a], (up.0[a], up.2));
            let r = DimensionN::<Data>::index(dim.update(a, 1usize), pos.0.update(a, 0usize));
            let j = q * rest + r;
            &&& edge_index(dim, pos) == edge_offset(dim, a) + j
            &&& edge_index(dim, pos) < edge_offset(dim, a + 1) <= edge_count(dim)
            &&& Pair::<Data>::valid(dim[a], (up.0[a], up.2))
            &&& q < triangle(dim[a] as nat)
            &&& triangle(dim[a] as nat) <= edge_count(dim)
            &&& DimensionN::<Data>::valid(dim.update(a, 1usize), pos.0.update(a, 0usize))
            &&& 0 < rest <= DimensionN::<Data>::size(dim)
            &&& r < rest
            &&& j / rest == q
            &&& j % rest == r
            &&& edge_axis(dim, edge_index(dim, pos)) == a
        }),
{
    let a = pos.1 as int;
    let n = dim.len() as int;
    let up = ascending_edge(pos);
    let rest = cross(dim, a, n);
    let q = Pair::<Data>::index(dim[a], (up.0[a], up.2));
    let unit = dim.update(a, 1usize);
    let flat = pos.0.update(a, 0usize);
    let r = DimensionN::<Data>::index(unit, flat);
    assert forall|j: int| 0 <= j < dim.len() implies dim[j] > 0 by {
        assert(pos.0[j] < dim[j]);
    }
    lemma_cross_le(dim, a, n);
    Pair::<Data>::lemma_index_in_range(dim[a], (up.0[a], up.2));
    DimensionN::<Data>::lemma_index_in_range(unit, flat);
    let t = triangle(dim[a] as nat);
    lemma_join(q, r, t, rest);
    lemma_offset_monotone(dim, a + 1, n);
    assert(t <= t * rest) by (nonlinear_arith)
        requires
            rest > 0,
            t >= 0,
    ;
    lemma_edge_axis_unique(dim, edge_index(dim, pos), 0, a);
}

/// Both ends of an edge give the same index.
pub proof fn lemma_edge_index_symmetric(dim: Seq<usize>, pos: (Seq<usize>, usize, usize))
    requires
        is_edge(dim, pos),
    ensures
        is_edge(dim, reversed_edge(pos)),
        is_edge(dim, ascending_edge(pos)),
        edge_index(dim, reversed_edge(pos)) == edge_index(dim, pos),
        edge_index(dim, ascending_edge(pos)) == edge_index(dim, pos),
        reversed_edge(reversed_edge(pos)) == pos,
{
    let a = pos.1 as int;
    let rev = reversed_edge(pos);
    assert(rev.0.update(a, 0usize) =~= pos.0.update(a, 0usize));
    assert(rev.0.update(a, rev.2) =~= pos.0);
}

/// How an index below the number of edges comes apart: it lies among the
/// indices of one axis, and what is left after the offset of that axis
/// splits into the index of a pair of values and the index of a cell in
/// the rest of the grid.
pub proof fn lemma_edge_at_parts(dim: Seq<usize>, index: nat)
    requires
        index < edge_count(dim),
    ensures
        ({
            let a = edge_axis(dim, index);
            let rest = cross(dim, a, dim.len() as int);
            let j = (index - edge_offset(dim, a)) as nat;
            &&& forall|k: int| 0 <= k < dim.len() ==> dim[k] > 0
            &&& 0 <= a < dim.len()
            &&& edge_offset(dim, a) <= index
            &&& 0 < rest <= DimensionN::<Data>::size(dim)
            &&& rest == DimensionN::<Data>::size(dim.update(a, 1usize))
            &&& j / rest < triangle(dim[a] as nat)
            &&& triangle(dim[a] as nat) <= edge_count(dim)
            &&& j % rest < rest
            &&& (j / rest) * rest + j % rest == j
        }),
{
    let n = dim.len() as int;
    lemma_edge_axis_from(dim, index, 0);
    lemma_edges_need_cells(dim);
    let a = edge_axis(dim, index);
    let rest = cross(dim, a, n);
    let j = (index - edge_offset(dim, a)) as nat;
    let t = triangle(dim[a] as nat);
    assert(edge_offset(dim, a + 1) == edge_offset(dim, a) + t * rest);
    lemma_split(j, t, rest);
    lemma_cross_le(dim, a, n);
    lemma_offset_monotone(dim, a + 1, n);
    assert(t <= t * rest) by (nonlinear_arith)
        requires
            rest > 0,
            t >= 0,
    ;
}

/// The edge at an index below the number of edges is an edge of the
/// grid, named from its lower end, and has that index.
pub proof fn lemma_edge_at(dim: Seq<usize>, index: nat)
    requires
        dim.len() <= usize::MAX,
        index < edge_count(dim),
    ensures
        is_edge(dim, edge_at(dim, index)),
        edge_at(dim, index).0[edge_at(dim, index).1 as int] < edge_at(dim, index).2,
        edge_index(dim, edge_at(dim, index)) == index,
{
    let n = dim.len() as int;
    lemma_edge_at_parts(dim, index);
    let a = edge_axis(dim, index);
    let rest = cross(dim, a, n);
    let j = (index - edge_offset(dim, a)) as nat;
    let unit = dim.update(a, 1usize);
    let q = j / rest;
    let r = j % rest;
    Pair::<Data>::lemma_pos_index(dim[a], q);
    DimensionN::<Data>::lemma_pos_index(unit, r);
    let pr = Pair::<Data>::pos(dim[a], q);
    let g = DimensionN::<Data>::pos(unit, r);
    let p = edge_at(dim, index);
    assert(p.1 as int == a);
    assert(p.2 == pr.1);
    assert(p.0 == g.update(a, pr.0));
    assert(g[a] < unit[a]);
    assert(p.0.update(a, 0usize) =~= g);
    assert forall|k: int| 0 <= k < dim.len() implies p.0[k] < dim[k] by {
        if k != a {
            assert(g[k] < unit[k]);
        }
    }
    assert(is_edge(dim, p));
    assert(Pair::<Data>::index(dim[a], (p.0[a], p.2)) == q);
    assert(DimensionN::<Data>::index(unit, p.0.update(a, 0usize)) == r);
    assert(edge_index(dim, p) == edge_offset(dim, a) + q * rest + r);
}

/// Adding axis `k` to the grid multiplies the edges along the axes before
/// it by the size of axis `k`.
pub proof fn lemma_edges_grow(dim: Seq<usize>, k: int, m: int)
    requires
        0 <= m <= k < dim.len(),
    ensures
        edges(dim, k + 1, m) == dim[k] * edges(dim, k, m),
    decreases m,
{
    if m > 0 {
        lemma_edges_grow(dim, k, m - 1);
        let i = m - 1;
        let s = nats(dim.update(i, 1usize));
        assert(stride(s, k + 1) == stride(s, k) * s[k]);
        let d = dim[k] as nat;
        let e = edges(dim, k, m - 1);
        let t = triangle(dim[i] as nat);
        let c = cross(dim, i, k);
        assert(d * e + t * (c * d) == d * (e + t * c)) by (nonlinear_arith);
    } else {
        assert(dim[k] * 0 == 0) by (nonlinear_arith);
    }
}

/// The edges of the grid on the first `k + 1` axes: those of the grid on
/// the first `k` axes, once for each value of axis `k`, and for each cell
/// of that grid the pairs of values of axis `k`.
pub proof fn lemma_edges_next(dim: Seq<usize>, k: int)
    requires
        0 <= k < dim.len(),
    ensures
        edges(dim, k + 1, k + 1) == dim[k] * edges(dim, k, k) + triangle(dim[k] as nat) * stride(
            nats(dim),
            k,
        ),
        stride(nats(dim), k + 1) == stride(nats(dim), k) * dim[k],
{
    lemma_edges_grow(dim, k, k);
    let s = nats(dim.update(k, 1usize));
    lemma_stride_prefix(s, nats(dim), k);
    assert(stride(s, k + 1) == stride(s, k) * s[k]);
    assert(stride(s, k) * 1 == stride(s, k)) by (nonlinear_arith);
    let t = nats(dim);
    assert(stride(t, k + 1) == stride(t, k) * t[k]);
}

/// In a grid without empty axes, the grid on the first `k` axes has no
/// more edges and no more cells than the whole grid.
pub proof fn lemma_edges_bound(dim: Seq<usize>, k: int)
    requires
        0 <= k <= dim.len(),
        forall|j: int| 0 <= j < dim.len() ==> dim[j] > 0,
    ensures
        edges(dim, k, k) <= edge_count(dim),
        0 < stride(nats(dim), k) <= radix_size(nats(dim)),
    decreases dim.len() - k,
{
    let s = nats(dim);
    assert(radix_size(s) > 0) by {
        lemma_stride_zero(s, s.len() as int);
    }
    lemma_stride_le_size(s, k);
    if k < dim.len() {
        lemma_edges_bound(dim, k + 1);
        lemma_edges_next(dim, k);
        let d = dim[k] as nat;
        let e = edges(dim, k, k);
        let t = triangle(dim[k] as nat);
        let v = stride(s, k);
        assert(e <= d * e + t * v) by (nonlinear_arith)
            requires
                d > 0,
                e >= 0,
                t >= 0,
                v >= 0,
        ;
    }
}

/// The bounds that keep one step of counting edges inside `usize`.
pub proof fn lemma_edges_step_bound(dim: Seq<usize>, k: int)
    requires
        0 <= k < dim.len(),
        forall|j: int| 0 <= j < dim.len() ==> dim[j] > 0,
    ensures
        dim[k] * edges(dim, k, k) <= edge_count(dim),
        triangle(dim[k] as nat) <= triangle(dim[k] as nat) * stride(nats(dim), k) <= edge_count(
            dim,
        ),
        dim[k] * edges(dim, k, k) + triangle(dim[k] as nat) * stride(nats(dim), k) <= edge_count(
            dim,
        ),
        stride(nats(dim), k) * dim[k] <= radix_size(nats(dim)),
{
    lemma_edges_next(dim, k);
    lemma_edges_bound(dim, k + 1);
    lemma_edges_bound(dim, k);
    let t = triangle(dim[k] as nat);
    let v = stride(nats(dim), k);
    assert(t <= t * v) by (nonlinear_arith)
        requires
            v > 0,
            t >= 0,
    ;
}

/// The edges along one axis: the pairs of values of that axis, for each
/// cell of the rest of the grid.
pub proof fn lemma_offset_next(dim: Seq<usize>, axis: int)
    requires
        0 <= axis < dim.len(),
        forall|j: int| 0 <= j < dim.len() ==> dim[j] > 0,
    ensures
        edge_offset(dim, axis + 1) == edge_offset(dim, axis) + triangle(dim[axis] as nat) * cross(
            dim,
            axis,
            dim.len() as int,
        ),
        edge_offset(dim, axis + 1) <= edge_count(dim),
        triangle(dim[axis] as nat) <= edge_count(dim),
        0 < cross(dim, axis, dim.len() as int) <= radix_size(nats(dim)),
{
    lemma_offset_monotone(dim, axis + 1, dim.len() as int);
    lemma_cross_le(dim, axis, dim.len() as int);
    let t = triangle(dim[axis] as nat);
    let c = cross(dim, axis, dim.len() as int);
    assert(t <= t * c) by (nonlinear_arith)
        requires
            c > 0,
            t >= 0,
    ;
}

/// The edges of a grid, each named from its lower end. A shape with more
/// axes than a `usize` can number has no position here, since a position
/// names its axis by a `usize`.
impl Space for Context<Data> {
    type Dim = Seq<usize>;

    type Pos = (Seq<usize>, usize, usize);

    open spec fn fits(dim: Seq<usize>) -> bool {
        &&& dim.len() <= usize::MAX
        &&& DimensionN::<Data>::size(dim) <= usize::MAX
        &&& edge_count(dim) <= usize::MAX
    }

    open spec fn size(dim: Seq<usize>) -> nat {
        if dim.len() <= usize::MAX {
            edge_count(dim)
        } else {
            0
        }
    }

    open spec fn valid(dim: Seq<usize>, pos: (Seq<usize>, usize, usize)) -> bool {
        &&& dim.len() <= usize::MAX
        &&& is_edge(dim, pos)
        &&& pos.0[pos.1 as int] < pos.2
    }

    open spec fn index(dim: Seq<usize>, pos: (Seq<usize>, usize, usize)) -> nat {
        edge_index(dim, pos)
    }

    open spec fn pos(dim: Seq<usize>, index: nat) -> (Seq<usize>, usize, usize) {
        edge_at(dim, index)
    }

    open spec fn fault(dim: Seq<usize>, pos: (Seq<usize>, usize, usize)) -> Error {
        Error::ShapePositionMismatch
    }

    proof fn lemma_fits(dim: Seq<usize>) {
    }

    proof fn lemma_index_in_range(dim: Seq<usize>, pos: (Seq<usize>, usize, usize)) {
        lemma_edge_index_parts(dim, pos);
    }

    proof fn lemma_pos_index(dim: Seq<usize>, index: nat) {
        lemma_edge_at(dim, index);
    }

    proof fn lemma_index_pos(dim: Seq<usize>, pos: (Seq<usize>, usize, usize)) {
        let a = pos.1 as int;
        lemma_edge_index_parts(dim, pos);
        let unit = dim.update(a, 1usize);
        let flat = pos.0.update(a, 0usize);
        Pair::<Data>::lemma_index_pos(dim[a], (pos.0[a], pos.2));
        DimensionN::<Data>::lemma_index_pos(unit, flat);
        let p = edge_at(dim, edge_index(dim, pos));
        assert(p.0 =~= pos.0);
    }
}

/// The number of cells of the grid with the axis `ind` left out.
pub(crate) fn cross_number(dim: &[usize], ind: usize) -> (c: usize)
    requires
        ind < dim.len(),
        forall|j: int| 0 <= j < dim@.len() ==> dim@[j] > 0,
        radix_size(nats(dim@)) <= usize::MAX,
    ensures
        c == cross(dim@, ind as int, dim@.len() as int),
{
    let ghost s = nats(dim@.update(ind as int, 1usize));
    let mut prod: usize = 1;
    let mut j: usize = 0;
    while j < dim.len()
        invariant
            j <= dim.len(),
            ind < dim.len(),
            s == nats(dim@.update(ind as int, 1usize)),
            forall|j: int| 0 <= j < dim@.len() ==> dim@[j] > 0,
            radix_size(nats(dim@)) <= usize::MAX,
            prod == stride(s, j as int),
        decreases dim.len() - j,
    {
        proof {
            assert(stride(s, j + 1) == stride(s, j as int) * s[j as int]);
            lemma_cross_le(dim@, ind as int, j + 1);
            lemma_edges_bound(dim@, j + 1);
            assert(prod * 1 == prod) by (nonlinear_arith);
        }
        if j != ind {
            prod = prod * dim[j];
        }
        j += 1;
    }
    prod
}

/// The offset of the edges along axis `ind`. The edges are laid out axis
/// by axis, because only one axis can change at a time.
fn subspace_offset(v: &[usize], ind: usize) -> (sum: usize)
    requires
        ind <= v.len(),
        forall|j: int| 0 <= j < v@.len() ==> v@[j] > 0,
        Context::<Data>::fits(v@),
    ensures
        sum == edge_offset(v@, ind as int),
{
    let pair: Pair<Data> = Construct::new();
    let mut sum: usize = 0;
    let mut i: usize = 0;
    while i < ind
        invariant
            i <= ind <= v.len(),
            forall|j: int| 0 <= j < v@.len() ==> v@[j] > 0,
            Context::<Data>::fits(v@),
            sum == edge_offset(v@, i as int),
        decreases ind - i,
    {
        proof {
            lemma_offset_next(v@, i as int);
        }
        let prod = cross_number(v, i);
        sum = sum + pair.count(v[i]) * prod;
        i += 1;
    }
    sum
}

/// The axis that changes along the edge with the given index, and the
/// offset of the edges along that axis; the number of axes and the number
/// of edges where the index names no edge.
fn ind_from_index(v: &[usize], index: usize) -> (r: (usize, usize))
    requires
        forall|j: int| 0 <= j < v@.len() ==> v@[j] > 0,
        Context::<Data>::fits(v@),
    ensures
        index < edge_count(v@) ==> r.0 == edge_axis(v@, index as nat) && r.1 == edge_offset(
            v@,
            r.0 as int,
        ),
        index >= edge_count(v@) ==> r.0 == v@.len() && r.1 == edge_count(v@),
{
    let pair: Pair<Data> = Construct::new();
    let mut sum: usize = 0;
    let mut i: usize = 0;
    while i < v.len()
        invariant
            i <= v.len(),
            forall|j: int| 0 <= j < v@.len() ==> v@[j] > 0,
            Context::<Data>::fits(v@),
            sum == edge_offset(v@, i as int),
            sum <= index,
            edge_axis_from(v@, index as nat, i as int) == edge_axis(v@, index as nat),
        decreases v.len() - i,
    {
        proof {
            lemma_offset_next(v@, i as int);
        }
        let prod = cross_number(v, i);
        let add = pair.count(v[i]) * prod;
        if sum + add > index {
            return (i, sum);
        }
        sum = sum + add;
        i += 1;
    }
    (v.len(), sum)
}

/// The index of the cell that `p` names in the grid with the axis `ind`
/// left out.
fn flat_index(dim: &[usize], p: &Vec<usize>, ind: usize) -> (i: usize)
    requires
        ind < dim.len(),
        DimensionN::<Data>::valid(dim@, p@),
        radix_size(nats(dim@)) <= usize::MAX,
    ensures
        i == DimensionN::<Data>::index(dim@.update(ind as int, 1usize), p@.update(ind as int, 0usize)),
{
    let ghost s = nats(dim@.update(ind as int, 1usize));
    let ghost x = nats(p@.update(ind as int, 0usize));
    proof {
        assert forall|j: int| 0 <= j < dim@.len() implies dim@[j] > 0 by {
            assert(p@[j] < dim@[j]);
        }
        lemma_cross_le(dim@, ind as int, dim@.len() as int);
        lemma_index_bound(s, x);
    }
    let mut acc: usize = 0;
    let mut k: usize = dim.len();
    while k > 0
        invariant
            k <= dim.len(),
            ind < dim.len(),
            p.len() == dim.len(),
            s == nats(dim@.update(ind as int, 1usize)),
            x == nats(p@.update(ind as int, 0usize)),
            radix_valid(s, x),
            radix_index(s, x) <= usize::MAX,
            acc == radix_tail(s, x, k as int),
        decreases k,
    {
        k -= 1;
        proof {
            lemma_tail_le_index(s, x, k as int);
            let t = radix_tail(s, x, k + 1);
            if k == ind {
                assert(s[k as int] * t == t) by (nonlinear_arith)
                    requires
                        s[k as int] == 1,
                ;
            } else {
                assert(acc * dim[k as int] == s[k as int] * t) by (nonlinear_arith)
                    requires
                        acc == t,
                        dim[k as int] == s[k as int],
                ;
            }
        }
        if k != ind {
            acc = acc * dim[k] + p[k];
        }
    }
    proof {
        lemma_sum_tail(s, x, 0);
        assert(1 * radix_tail(s, x, 0) == radix_tail(s, x, 0)) by (nonlinear_arith);
    }
    acc
}

/// Writes into `out` the cell with index `r` in the grid with the axis
/// `ind` left out; its value on that axis is 0.
fn fill_flat(dim: &[usize], ind: usize, r: usize, out: &mut Vec<usize>)
    requires
        ind < dim.len(),
        forall|j: int| 0 <= j < dim@.len() ==> dim@[j] > 0,
        radix_size(nats(dim@)) <= usize::MAX,
        r < cross(dim@, ind as int, dim@.len() as int),
    ensures
        final(out)@ == DimensionN::<Data>::pos(dim@.update(ind as int, 1usize), r as nat),
{
    let ghost s = nats(dim@.update(ind as int, 1usize));
    proof {
        lemma_digits_start(s, r as nat);
    }
    let n = dim.len();
    out.clear();
    let mut j: usize = 0;
    while j < n
        invariant
            j <= n,
            out.len() == j,
            forall|i: int| 0 <= i < j ==> out@[i] == 0,
        decreases n - j,
    {
        out.push(0);
        j += 1;
    }
    let mut prod = cross_number(dim, ind);
    let mut rem: usize = r;
    let mut k: usize = n;
    while k > 0
        invariant
            k <= n,
            n == dim.len(),
            ind < n,
            s == nats(dim@.update(ind as int, 1usize)),
            out.len() == n,
            forall|j: int| 0 <= j < n ==> s[j] > 0,
            prod == stride(s, k as int),
            rem == (r as nat) % stride(s, k as int),
            forall|i: int| 0 <= i < k ==> out@[i] == 0,
            forall|j: int| k <= j < n ==> out@[j] == radix_digit(s, r as nat, j),
        decreases k,
    {
        k -= 1;
        proof {
            lemma_digit_step(s, r as nat, k as int);
        }
        if k != ind {
            prod = prod / dim[k];
            let d = rem / prod;
            out[k] = d;
            assert(d * prod <= rem) by (nonlinear_arith)
                requires
                    d == rem / prod,
                    prod > 0,
            ;
            rem = rem - d * prod;
        } else {
            proof {
                let w = stride(s, k as int);
                assert(stride(s, k + 1) == w * s[k as int]);
                assert(w * 1 == w) by (nonlinear_arith);
                assert(0 * w == 0) by (nonlinear_arith);
            }
        }
    }
    proof {
        assert(out@ =~= DimensionN::<Data>::pos(dim@.update(ind as int, 1usize), r as nat));
    }
}

/// The index of the edge that `(p, ind, b)` names, from either end.
pub fn edge_index_of(dim: &[usize], p: &Vec<usize>, ind: usize, b: usize) -> (i: usize)
    requires
        Context::<Data>::fits(dim@),
        is_edge(dim@, (p@, ind, b)),
    ensures
        i == edge_index(dim@, (p@, ind, b)),
{
    let pair: Pair<Data> = Construct::new();
    proof {
        lemma_edge_index_parts(dim@, (p@, ind, b));
        assert forall|j: int| 0 <= j < dim@.len() implies dim@[j] > 0 by {
            assert(p@[j] < dim@[j]);
        }
    }
    let offset = subspace_offset(dim, ind);
    let rest = cross_number(dim, ind);
    let a = p[ind];
    let q = if a < b {
        pair.to_index(dim[ind], &(a, b))
    } else {
        pair.to_index(dim[ind], &(b, a))
    };
    let r = flat_index(dim, p, ind);
    assert(q * rest <= q * rest + r);
    offset + q * rest + r
}

impl<'a> Count<&'a [usize]> for Context<Data> {
    fn count(&self, dim: &'a [usize]) -> (n: usize) {
        let pair: Pair<Data> = Construct::new();
        proof {
            assert(dim.deep_view() =~= dim@);
        }
        if has_empty_axis(dim) {
            proof {
                let z = choose|j: int| 0 <= j < dim@.len() && dim@[j] == 0;
                lemma_no_edges(dim@, z, dim@.len() as int);
            }
            return 0;
        }
        let mut sum: usize = 0;
        let mut prod: usize = 1;
        let mut k: usize = 0;
        while k < dim.len()
            invariant
                k <= dim.len(),
                forall|j: int| 0 <= j < dim@.len() ==> dim@[j] > 0,
                Context::<Data>::fits(dim@),
                sum == edges(dim@, k as int, k as int),
                prod == stride(nats(dim@), k as int),
            decreases dim.len() - k,
        {
            let d = dim[k];
            proof {
                lemma_edges_next(dim@, k as int);
                lemma_edges_step_bound(dim@, k as int);
            }
            let c = pair.count(d);
            sum = d * sum + c * prod;
            prod = prod * d;
            k += 1;
        }
        sum
    }
}

impl<'a> ToIndex<&'a [usize], (Vec<usize>, usize, usize)> for Context<Data> {
    fn to_index(&self, dim: &'a [usize], pos: &(Vec<usize>, usize, usize)) -> (i: usize) {
        proof {
            assert(dim.deep_view() =~= dim@);
            assert(pos.0.deep_view() =~= pos.0@);
        }
        edge_index_of(dim, &pos.0, pos.1, pos.2)
    }
}

impl<'a> ToPos<&'a [usize], (Vec<usize>, usize, usize)> for Context<Data> {
    fn to_pos(&self, dim: &'a [usize], index: usize, pos: &mut (Vec<usize>, usize, usize)) {
        let pair: Pair<Data> = Construct::new();
        proof {
            assert(dim.deep_view() =~= dim@);
            lemma_edge_at_parts(dim@, index as nat);
        }
        let (ind, offset) = ind_from_index(dim, index);
        let rest = cross_number(dim, ind);
        let j = index - offset;
        let q = j / rest;
        let r = j - q * rest;
        let mut pr: (usize, usize) = (0, 0);
        pair.to_pos(dim[ind], q, &mut pr);
        fill_flat(dim, ind, r, &mut pos.0);
        pos.0[ind] = pr.0;
        pos.1 = ind;
        pos.2 = pr.1;
        proof {
            assert(pos.0.deep_view() =~= pos.0@);
        }
    }
}

/// Decides whether `(p, ind, b)` names an edge of the grid.
pub fn check_edge(dim: &[usize], p: &Vec<usize>, ind: usize, b: usize) -> (ok: bool)
    ensures
        ok == is_edge(dim@, (p@, ind, b)),
{
    if p.len() != dim.len() {
        return false;
    }
    let mut k: usize = 0;
    while k < dim.len()
        invariant
            k <= dim.len(),
            p.len() == dim.len(),
            forall|j: int| 0 <= j < k ==> p@[j] < dim@[j],
        decreases dim.len() - k,
    {
        if p[k] >= dim[k] {
            return false;
        }
        k += 1;
    }
    ind < dim.len() && b < dim[ind] && b != p[ind]
}

impl<'a> Checked<&'a [usize], (Vec<usize>, usize, usize)> for Context<Data> {
    fn shape_fits(&self, dim: &'a [usize]) -> (b: bool) {
        let grid: DimensionN<Data> = Construct::new();
        let pair: Pair<Data> = Construct::new();
        proof {
            assert(dim.deep_view() =~= dim@);
        }
        if !grid.shape_fits(dim) {
            return false;
        }
        assert(dim@.len() == dim.len());
        if has_empty_axis(dim) {
            proof {
                let z = choose|j: int| 0 <= j < dim@.len() && dim@[j] == 0;
                lemma_no_edges(dim@, z, dim@.len() as int);
            }
            return true;
        }
        let mut sum: usize = 0;
        let mut prod: usize = 1;
        let mut k: usize = 0;
        while k < dim.len()
            invariant
                k <= dim.len(),
                dim.deep_view() == dim@,
                forall|j: int| 0 <= j < dim@.len() ==> dim@[j] > 0,
                radix_size(nats(dim@)) <= usize::MAX,
                sum == edges(dim@, k as int, k as int),
                prod == stride(nats(dim@), k as int),
            decreases dim.len() - k,
        {
            let d = dim[k];
            proof {
                lemma_edges_next(dim@, k as int);
                lemma_edges_step_bound(dim@, k as int);
            }
            if !pair.shape_fits(d) {
                return false;
            }
            let c = pair.count(d);
            let grown = match d.checked_mul(sum) {
                Some(g) => g,
                None => {
                    return false;
                },
            };
            let added = match c.checked_mul(prod) {
                Some(a) => a,
                None => {
                    return false;
                },
            };
            sum = match grown.checked_add(added) {
                Some(s) => s,
                None => {
                    return false;
                },
            };
            prod = prod * d;
            k += 1;
        }
        true
    }

    fn check(&self, dim: &'a [usize], pos: &(Vec<usize>, usize, usize)) -> (r: Result<(), Error>) {
        proof {
            assert(dim.deep_view() =~= dim@);
            assert(pos.0.deep_view() =~= pos.0@);
        }
        if check_edge(dim, &pos.0, pos.1, pos.2) && pos.0[pos.1] < pos.2 {
            Ok(())
        } else {
            Err(Error::ShapePositionMismatch)
        }
    }
}

} // verus!

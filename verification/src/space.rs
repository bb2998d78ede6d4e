//! The four-operation contract that every space satisfies, and the laws
//! that follow from it.

use std::marker::PhantomData;
use vstd::prelude::*;

verus! {

/// Marks a space whose positions are plain numbers.
pub struct Data;

/// Marks a space whose digits are positions of the space `T`.
pub struct Of<T>(PhantomData<T>);

/// Marks the product of a space with an inner space `T`.
pub struct Subspace<T>(PhantomData<T>);

/// Why a request was turned down.
#[derive(Clone, Copy, Debug, PartialEq, Eq)]
pub enum Error {
    /// The index does not lie below the number of positions of the shape.
    OutOfRangeIndex,
    /// The position does not have the structure that the shape asks for:
    /// a part is missing or too many, or a value lies outside its range.
    ShapePositionMismatch,
    /// The position has the right length but does not hold each item
    /// exactly once.
    NotAPermutation,
    /// The shape has more positions than a `usize` can count.
    ShapeTooLarge,
}

/// The mathematical description of a space: how many positions a shape
/// has, which positions are valid, and the two maps between positions and
/// indices. The three laws make the maps inverse bijections between the
/// valid positions of a shape and the indices below its size.
pub trait Space {
    /// The shape, as a mathematical value.
    type Dim;

    /// A position, as a mathematical value.
    type Pos;

    /// Whether every quantity of the shape fits the machine's `usize`.
    spec fn fits(dim: Self::Dim) -> bool;

    /// The number of positions of the shape.
    spec fn size(dim: Self::Dim) -> nat;

    /// Whether `pos` is a position of the shape.
    spec fn valid(dim: Self::Dim, pos: Self::Pos) -> bool;

    /// The index of a position.
    spec fn index(dim: Self::Dim, pos: Self::Pos) -> nat;

    /// The position at an index.
    spec fn pos(dim: Self::Dim, index: nat) -> Self::Pos;

    /// What is wrong with a position that is not valid.
    spec fn fault(dim: Self::Dim, pos: Self::Pos) -> Error;

    /// A shape that fits has a size that a `usize` can hold.
    proof fn lemma_fits(dim: Self::Dim)
        requires
            Self::fits(dim),
        ensures
            Self::size(dim) <= usize::MAX,
    ;

    /// The index of a valid position lies below the size.
    proof fn lemma_index_in_range(dim: Self::Dim, pos: Self::Pos)
        requires
            Self::valid(dim, pos),
        ensures
            Self::index(dim, pos) < Self::size(dim),
    ;

    /// The position at an index below the size is valid and has that index.
    proof fn lemma_pos_index(dim: Self::Dim, index: nat)
        requires
            index < Self::size(dim),
        ensures
            Self::valid(dim, Self::pos(dim, index)),
            Self::index(dim, Self::pos(dim, index)) == index,
    ;

    /// The position at the index of a valid position is that position.
    proof fn lemma_index_pos(dim: Self::Dim, pos: Self::Pos)
        requires
            Self::valid(dim, pos),
        ensures
            Self::pos(dim, Self::index(dim, pos)) == pos,
    ;
}

/// Going from an index below the size to its position and back gives the
/// index again, and going from a valid position to its index and back
/// gives the position again.
pub proof fn lemma_round_trip<S: Space>(dim: S::Dim, i: nat, p: S::Pos)
    ensures
        i < S::size(dim) ==> S::valid(dim, S::pos(dim, i)) && S::index(dim, S::pos(dim, i)) == i,
        S::valid(dim, p) ==> S::index(dim, p) < S::size(dim) && S::pos(dim, S::index(dim, p))
            == p,
{
    if i < S::size(dim) {
        S::lemma_pos_index(dim, i);
    }
    if S::valid(dim, p) {
        S::lemma_index_in_range(dim, p);
        S::lemma_index_pos(dim, p);
    }
}

/// Two valid positions of one shape with the same index are equal.
pub proof fn lemma_index_injective<S: Space>(dim: S::Dim, p: S::Pos, q: S::Pos)
    requires
        S::valid(dim, p),
        S::valid(dim, q),
        S::index(dim, p) == S::index(dim, q),
    ensures
        p == q,
{
    S::lemma_index_pos(dim, p);
    S::lemma_index_pos(dim, q);
}

/// The indices of the valid positions of a shape are exactly the numbers
/// below its size.
pub proof fn lemma_index_image<S: Space>(dim: S::Dim, i: nat)
    ensures
        i < S::size(dim) <==> exists|p: S::Pos| #[trigger] S::valid(dim, p) && S::index(dim, p) == i,
{
    if i < S::size(dim) {
        S::lemma_pos_index(dim, i);
        assert(S::valid(dim, S::pos(dim, i)));
    }
    if exists|p: S::Pos| #[trigger] S::valid(dim, p) && S::index(dim, p) == i {
        let p = choose|p: S::Pos| #[trigger] S::valid(dim, p) && S::index(dim, p) == i;
        S::lemma_index_in_range(dim, p);
    }
}

/// A space handle carries no state and is made from nothing.
pub trait Construct: Sized {
    fn new() -> Self;
}

/// Cardinality.
pub trait Count<D>: Space where D: DeepView<V = Self::Dim> {
    fn count(&self, dim: D) -> (n: usize)
        requires
            Self::fits(dim.deep_view()),
        ensures
            n == Self::size(dim.deep_view()),
    ;
}

/// The canonical first position.
pub trait Zero<D, P>: Space where D: DeepView<V = Self::Dim>, P: DeepView<V = Self::Pos> {
    fn zero(&self, dim: D) -> (z: P)
        ensures
            Self::size(dim.deep_view()) > 0 ==> z.deep_view() == Self::pos(dim.deep_view(), 0),
    ;
}

/// The forward map, from a position to its index.
pub trait ToIndex<D, P>: Space where D: DeepView<V = Self::Dim>, P: DeepView<V = Self::Pos> {
    fn to_index(&self, dim: D, pos: &P) -> (i: usize)
        requires
            Self::fits(dim.deep_view()),
            Self::valid(dim.deep_view(), pos.deep_view()),
        ensures
            i == Self::index(dim.deep_view(), pos.deep_view()),
    ;
}

/// The inverse map, from an index to its position, written into a buffer
/// that the caller owns. Whatever the buffer held is replaced.
pub trait ToPos<D, P>: Space where D: DeepView<V = Self::Dim>, P: DeepView<V = Self::Pos> {
    fn to_pos(&self, dim: D, index: usize, pos: &mut P)
        requires
            Self::fits(dim.deep_view()),
            index < Self::size(dim.deep_view()),
        ensures
            final(pos).deep_view() == Self::pos(dim.deep_view(), index as nat),
    ;
}

/// The four operations for callers that cannot vouch for their inputs:
/// shapes and positions are checked at run time, and what does not pass
/// is reported.
pub trait Checked<D, P>: Space + Count<D> + ToIndex<D, P> + ToPos<D, P> where
    D: DeepView<V = Self::Dim>,
    P: DeepView<V = Self::Pos>,
 {
    /// Decides whether the shape fits the machine.
    fn shape_fits(&self, dim: D) -> (b: bool)
        ensures
            b == Self::fits(dim.deep_view()),
    ;

    /// Decides whether `pos` is a position of the shape, and says what is
    /// wrong with it if it is not.
    fn check(&self, dim: D, pos: &P) -> (r: Result<(), Error>)
        requires
            Self::fits(dim.deep_view()),
        ensures
            r == (if Self::valid(dim.deep_view(), pos.deep_view()) {
                Ok::<(), Error>(())
            } else {
                Err::<(), Error>(Self::fault(dim.deep_view(), pos.deep_view()))
            }),
    ;

    /// The number of positions, or `ShapeTooLarge`.
    fn try_count(&self, dim: D) -> (r: Result<usize, Error>) where D: Copy
        ensures
            r == (if Self::fits(dim.deep_view()) {
                Ok::<usize, Error>(Self::size(dim.deep_view()) as usize)
            } else {
                Err::<usize, Error>(Error::ShapeTooLarge)
            }),
    {
        if self.shape_fits(dim) {
            proof {
                Self::lemma_fits(dim.deep_view());
            }
            Ok(self.count(dim))
        } else {
            Err(Error::ShapeTooLarge)
        }
    }

    /// The index of a position; `ShapeTooLarge` for a shape that does not
    /// fit, else the fault of a position that is not valid.
    fn try_to_index(&self, dim: D, pos: &P) -> (r: Result<usize, Error>) where D: Copy
        ensures
            r == (if !Self::fits(dim.deep_view()) {
                Err::<usize, Error>(Error::ShapeTooLarge)
            } else if !Self::valid(dim.deep_view(), pos.deep_view()) {
                Err::<usize, Error>(Self::fault(dim.deep_view(), pos.deep_view()))
            } else {
                Ok::<usize, Error>(Self::index(dim.deep_view(), pos.deep_view()) as usize)
            }),
    {
        if !self.shape_fits(dim) {
            return Err(Error::ShapeTooLarge);
        }
        match self.check(dim, pos) {
            Err(e) => Err(e),
            Ok(()) => {
                proof {
                    Self::lemma_fits(dim.deep_view());
                    Self::lemma_index_in_range(dim.deep_view(), pos.deep_view());
                }
                Ok(self.to_index(dim, pos))
            },
        }
    }

    /// Writes the position at an index into the buffer; `ShapeTooLarge`
    /// for a shape that does not fit, else `OutOfRangeIndex` for an index
    /// that names no position. The buffer is left alone on failure.
    fn try_to_pos(&self, dim: D, index: usize, pos: &mut P) -> (r: Result<(), Error>) where
        D: Copy,

        ensures
            r == (if !Self::fits(dim.deep_view()) {
                Err::<(), Error>(Error::ShapeTooLarge)
            } else if index >= Self::size(dim.deep_view()) {
                Err::<(), Error>(Error::OutOfRangeIndex)
            } else {
                Ok::<(), Error>(())
            }),
            r is Ok ==> final(pos).deep_view() == Self::pos(dim.deep_view(), index as nat),
            r is Err ==> *final(pos) == *old(pos),
    {
        if !self.shape_fits(dim) {
            return Err(Error::ShapeTooLarge);
        }
        if index >= self.count(dim) {
            return Err(Error::OutOfRangeIndex);
        }
        self.to_pos(dim, index, pos);
        Ok(())
    }
}

} // verus!

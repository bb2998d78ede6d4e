//! Exact two-way maps between structured positions and dense linear
//! indices, for grids, permutations, pairs, grid edges and their
//! compositions.

pub mod context;
pub mod dimension_n;
pub mod directed_context;
pub mod lehmer;
pub mod neq_pair;
pub mod pair;
pub mod permutation;
pub mod radix;
pub mod space;

pub use context::Context;
pub use dimension_n::DimensionN;
pub use directed_context::DirectedContext;
pub use neq_pair::NeqPair;
pub use pair::Pair;
pub use permutation::Permutation;
pub use space::{
    Checked, Construct, Count, Data, Error, Of, Space, Subspace, ToIndex, ToPos, Zero,
};
pub use vstd::view::DeepView;

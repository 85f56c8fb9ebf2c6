//! Rank-based dependence between two sequences: the directional coefficient
//! xi and its symmetric form, computed exactly over integers.

pub mod coefficient;
pub mod order;
pub mod permutation;
pub mod sorting;
pub mod windows;

pub use coefficient::sym_xi;
pub use coefficient::xi;
pub use coefficient::Xi;
pub use coefficient::XiError;
pub use permutation::invert_permutation;
pub use sorting::sort_permutation;

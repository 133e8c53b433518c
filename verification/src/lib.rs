//! Sparse finite permutations: only the elements that move are stored, and
//! every unlisted element maps to itself. The library offers pointwise
//! lookup, composition, extensional equality and disjoint-cycle
//! decomposition, together with constructors from pair lists and from cycle
//! notation.

pub mod laws;
pub mod perm;

//! Discovery of minimal functional dependencies in a table, by a level-wise
//! search over the lattice of attribute subsets.
pub mod bits;
pub mod table;
pub mod partition;
pub mod fd;
pub mod dependency;
pub mod tane;

//! Generation of grid logic puzzles: a hidden solution over a set of
//! attributes, the universe of clues that hold of it, and two selectors that
//! keep a small sufficient subset of those clues.

pub mod model;
pub mod oracle;
pub mod universe;
pub mod random;
pub mod space;
pub mod mst;
pub mod connect;
pub mod csp;
pub mod csp_laws;
pub mod puzzle;
pub mod render;
pub mod corpus;

//! Flattening of heterogeneous syntax trees into a preorder encoding, and a
//! two-pass layout engine (bottom-up bounds, top-down positions) over it.

pub mod tree;
pub mod layout;
pub mod seed;
pub mod press;

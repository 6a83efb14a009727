//! Maze-like images: a random spanning tree of a toroidal grid, walked depth
//! first, each cell coloured by its rank along a three-dimensional Hilbert
//! curve.
//!
//! `render::make_image` is the whole of it. Its parts, in the order in which
//! they are used: `lattice` lists the candidate edges of the grid, `random`
//! shuffles them, `tree` keeps those that join cells not yet connected
//! (`partition` tells which are), `walk` visits the cells along the tree
//! (`preorder` says in which order), `curve` turns the rank of a visit into
//! a colour and `canvas` holds the pixels. `forest` has the graph theory on
//! which the proofs rest.

pub mod canvas;
pub mod curve;
pub mod forest;
pub mod lattice;
pub mod partition;
pub mod preorder;
pub mod random;
pub mod render;
pub mod tree;
pub mod walk;

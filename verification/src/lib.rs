//! Broad-phase collision detection and spatial queries on a sorted list of
//! (cell, object) entries.
//!
//! A [`Layer`] holds, for each object, the cells of a hierarchical
//! subdivision of space that cover the object's bounds.  Sorted in the
//! pre-order of the cells, the entries stand for the tree of cells without
//! any node being built: the queries descend through the list by bisection
//! or sweep over it with a stack of ancestors.
//!
//! * [`path`] is the mathematical model of a cell and of the storage order.
//! * [`index`] and [`geometry`] are the capabilities that cell codes, query
//!   geometries and bounds have to offer.
//! * [`order`] sorts entries and results; [`positions`], [`seen`] and
//!   [`scratch`] hold the collections that the queries keep.
//! * [`sweep`] and [`parallel`] find the pairs of objects in related cells;
//!   [`walk`] is the kernel of the tests and picks, and [`query`] says what
//!   their results mean.
//! * [`layer`] is the store with its operations, and [`laws`] states what
//!   holds of the operations taken together.

pub mod geometry;
pub mod index;
pub mod laws;
pub mod layer;
pub mod order;
pub mod parallel;
pub mod path;
pub mod positions;
pub mod query;
pub mod scratch;
pub mod seen;
pub mod sweep;
pub mod walk;

pub use layer::{Layer, LayerBuilder};

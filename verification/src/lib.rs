//! Splay trees built from zippers: an ordered set over plain nodes and a
//! bit sequence with lazy range reversal over size-annotated nodes.
//!
//! Every tree is read through `separate` and built through `combine`, so the
//! navigation and splay algorithms are written once, against the traits of
//! [`shape`], and are used by both containers.
//!
//! - [`shape`]: one layer of a tree, and the traits of node types;
//! - [`plain`], [`bits`], [`annotated`]: the node types;
//! - [`zipper`]: locations in a tree and the moves between them;
//! - [`splay`]: the splay step and the splay to the root;
//! - [`ordered`]: the search by key and the ordered set;
//! - [`interval`]: the search by position and the isolation of an interval;
//! - [`sequence`]: the bit sequence;
//! - [`driver`]: sessions of operations on a bit sequence, read from text.

pub mod shape;
pub mod plain;
pub mod annotated;
pub mod zipper;
pub mod splay;
pub mod bits;
pub mod interval;
pub mod sequence;
pub mod ordered;
pub mod driver;

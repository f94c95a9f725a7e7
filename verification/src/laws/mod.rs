//! What holds of the library as a whole, as proved statements.

pub mod cluster;
pub mod collect;
pub mod display;
pub mod folding;
pub mod normalize;
pub mod order;
pub mod primitives;
pub mod report;
pub mod sketch;
pub mod text;

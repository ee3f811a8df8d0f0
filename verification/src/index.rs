//! The forward index, its block form, and what is proved of them.

pub mod blocks;
pub mod dense_ratio;
pub mod forward_index;
pub mod keyed;
pub mod laws;
pub mod meaning;
pub mod model;
pub mod narrow;

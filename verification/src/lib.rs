//! Minimum-image pair reduction for periodic neighbour lists.

mod error;
mod pairs;
pub mod reduction;

pub use error::Error;
pub use pairs::{reduce_pairs, reduce_pairs_packed};

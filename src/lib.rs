//! Entropy-weighted stacking of aligned grayscale exposures: the stack model,
//! neighbourhood bounds, histogram samplers and the merge of input images.

pub mod merge;
pub mod samplers;
pub mod stack;

pub use merge::{merge, Gray, StackError};
pub use samplers::{pixel_histogram, sample_all, sample_pairs, sample_random, Sampler};
pub use stack::{bounded_block, Rect, Stack};

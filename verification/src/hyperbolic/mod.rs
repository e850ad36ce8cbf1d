pub mod words;
pub mod knuth_bendix;
pub mod completion;
pub mod rewrite;
pub mod cell_id;
pub mod tiling;
pub mod poincare;

//! The chunker under the name it also has among the helpers of the runner.
pub use crate::transport::chunk_lines_with_footer;

pub mod digest;
pub mod filter;
pub mod grouper;
pub mod index;
pub mod pipeline;
pub mod stats;

pub use filter::contains_pattern;
pub use filter::find;
pub use grouper::find_duplicates;
pub use index::DigestIndex;
pub use pipeline::build_index;
pub use pipeline::checksum;
pub use stats::collect_statistics;

//! Size-banded partitioning of compiled units into output chunks.

mod buckets;
pub mod chunking;
pub mod module_options;
pub mod text;

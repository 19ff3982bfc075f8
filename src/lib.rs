//! Deduplication of identical regular files by reflinks or hard links:
//! the size index, scan decisions, content digests with a persistent cache,
//! grouping into equivalence classes and link planning.

pub mod record;
pub mod index;
pub mod group;
pub mod link;
pub mod scan;
pub mod hashing;
pub mod cache;
pub mod utils;
pub mod pipeline;

pub use record::{IdxRecord, IdxFileRecord, Digest};
pub use index::{Index, Bucket};
pub use scan::{EntryMeta, scandir};
pub use hashing::{FileHasher, FileDigests};
pub use cache::{CacheEntry, make_file_hashes, set_digests, indexfile_entries};
pub use group::{subindex_linkable, mainloop};
pub use link::{Args, LinkProbe, LinkPlan, LinkKind, already_linked, make_links, make_link, saved_bytes};
pub use utils::{temp_filename, temp_name, size_to_string, with_trailing_slash};

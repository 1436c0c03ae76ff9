//! Reading and writing of `.wpress` archives: a sequence of fixed-width
//! header blocks, each followed by its file's bytes, closed by an all-zero
//! block.
//!
//! The library holds the logic of the format: the header codec, the index
//! that a reader builds while it walks the header blocks, the lookup of an
//! entry with the byte offset of its payload, and the sanitizing of the
//! paths that entries are extracted to. Opening files and copying bytes is
//! left to the caller.

pub mod archive;
pub mod errors;
pub mod header;
pub mod index;
pub mod path;

pub use crate::errors::{
    ArchiveError, BlockParseError, ExtractError, Field, FileParseError, HeaderError,
    LengthExceededError, PathSanitizationError,
};
pub use crate::header::{decimal_text, parse_u64, read_block, Header, HeaderView, HEADER_SIZE};
pub use crate::path::{check_contained, entry_path, join_path, relative_path, strip_root, trim_clean};
pub use crate::index::{Index, Location, Scan};
pub use crate::archive::end_block;

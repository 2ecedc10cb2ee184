//! Checks stored credentials against a sorted database of breached password digests.
//!
//! The library holds the verified core: the byte order on digests and their zero-padded
//! form, the database line parser, the hashing of one stored credential, the sort of the
//! stored digests and the merge-join that walks the database against them.

pub mod collect;
pub mod digest;
pub mod find;
pub mod logger;
pub mod parse;

pub use collect::{sort_saved, SavedHash};
pub use find::{scan_lines, HashMatcher, MatchEvent, ScanReport};
pub use logger::{set_verbose_level, MaxLevel};
pub use parse::{IntErrorKind, ParseHashError, PwnedHash};

//! Content-addressed indexing of a directory tree and a compare-and-swap
//! versioned file, with their bookkeeping verified.
use vstd::prelude::*;

pub mod errors;
pub mod text;
pub mod resource;
pub mod index;
pub mod atomic_file;
pub mod id;
pub mod link;
pub mod pdf;
pub mod laws;
pub mod snapshot;

pub use errors::ArklibError;

verus! {

/// Folder under the root that holds everything the library writes.
pub const ARK_FOLDER: &'static str = ".ark";

/// Location of the index snapshot inside `ARK_FOLDER`.
pub const INDEX_PATH: &'static str = "index";

pub const STATS_FOLDER: &'static str = "stats";

pub const FAVORITES_FILE: &'static str = "favorites";

pub const DEVICE_ID: &'static str = "device";

pub const TAG_STORAGE_FILE: &'static str = "user/tags";

pub const SCORE_STORAGE_FILE: &'static str = "user/scores";

pub const PROPERTIES_STORAGE_FOLDER: &'static str = "user/properties";

pub const LINK_STORAGE_FOLDER: &'static str = "user/links";

pub const METADATA_STORAGE_FOLDER: &'static str = "cache/metadata";

pub const PREVIEWS_STORAGE_FOLDER: &'static str = "cache/previews";

pub const THUMBNAILS_STORAGE_FOLDER: &'static str = "cache/thumbnails";

} // verus!

//! Export an audiobook library, described by a hierarchical metadata
//! document, into an `Author/Title {Narrator}` directory convention.
//!
//! The crate works on plain values: paths are strings, the decoded
//! metadata document is a tagged tree of plain values, and every
//! filesystem decision — which paths to resolve, what each track's
//! state means, which operations an export performs — is computed
//! here and handed back to the caller as data. The caller reads the
//! metadata file, probes the existence of the planned paths, and
//! performs the planned operations, in order.

pub mod catalog;
pub mod diff;
pub mod export;
pub mod extract;
pub mod paths;
pub mod report;
pub mod sort;
pub mod text;

pub use catalog::{AudioTrack, Audiobook, ExportError};
pub use diff::{compute_diff, plan_paths, FileDiff, FileStatus, FsProbe};
pub use export::{plan_export, ExportStats, FsOp, TrackAction};
pub use extract::{parse_audiobook_entry, parse_books_plist, Doc};
pub use paths::{
    create_audiobookshelf_path, file_name_of, join_path, remap_track_path, sanitize_filename,
};
pub use report::{build_diff_report, DiffReport, ADD_DISPLAY_CAP, BOOK_DISPLAY_CAP};

//! The in-memory catalog: audiobooks, their ordered tracks, and the
//! error conditions a whole run can end in.

use vstd::prelude::*;

verus! {

/// One ordered unit of audio, owned by its book.
#[derive(Debug, Clone)]
pub struct AudioTrack {
    pub track_number: u32,
    pub disc_number: u32,
    pub title: String,
    /// Source path exactly as recorded in the metadata document.
    pub path: String,
    /// Last segment of `path`.
    pub filename: String,
}

/// A logical audiobook with its ordered tracks.
#[derive(Debug, Clone)]
pub struct Audiobook {
    pub title: String,
    pub author: String,
    pub narrator: Option<String>,
    /// Opaque identifier carried from the metadata; never used for paths.
    pub folder_id: String,
    pub tracks: Vec<AudioTrack>,
}

/// A fatal condition of a whole run.
#[derive(Debug, Clone)]
pub enum ExportError {
    /// The metadata file is absent at the given path.
    PlistNotFound(String),
    /// The document does not have the expected shape.
    InvalidPlistStructure(String),
    /// The document held no valid audiobook at all.
    NoAudiobooksFound,
}

/// The narrator field as a mathematical value.
pub open spec fn narrator_view(n: Option<String>) -> Option<Seq<char>> {
    match n {
        Some(s) => Some(s@),
        None => None,
    }
}

/// A track as a mathematical value: every string a sequence of
/// characters.
pub ghost struct TrackV {
    pub track_number: u32,
    pub disc_number: u32,
    pub title: Seq<char>,
    pub path: Seq<char>,
    pub filename: Seq<char>,
}

/// A book as a mathematical value.
pub ghost struct BookV {
    pub title: Seq<char>,
    pub author: Seq<char>,
    pub narrator: Option<Seq<char>>,
    pub folder_id: Seq<char>,
    pub tracks: Seq<TrackV>,
}

/// The mathematical value of a track.
pub open spec fn track_view(t: AudioTrack) -> TrackV {
    TrackV {
        track_number: t.track_number,
        disc_number: t.disc_number,
        title: t.title@,
        path: t.path@,
        filename: t.filename@,
    }
}

/// The mathematical values of a sequence of tracks.
pub open spec fn track_views(s: Seq<AudioTrack>) -> Seq<TrackV> {
    s.map_values(|t: AudioTrack| track_view(t))
}

/// The mathematical value of a book.
pub open spec fn book_view(b: Audiobook) -> BookV {
    BookV {
        title: b.title@,
        author: b.author@,
        narrator: narrator_view(b.narrator),
        folder_id: b.folder_id@,
        tracks: track_views(b.tracks@),
    }
}

/// The mathematical values of a sequence of books.
pub open spec fn book_views(s: Seq<Audiobook>) -> Seq<BookV> {
    s.map_values(|b: Audiobook| book_view(b))
}

} // verus!

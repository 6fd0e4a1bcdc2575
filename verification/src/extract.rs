//! The metadata extractor: walk a decoded hierarchical document,
//! keep the audiobook entries, and build the catalog.
//!
//! The document is a tagged tree of plain values, as handed over by
//! whatever decoded the metadata file. Every accessor misses softly:
//! an absent or wrongly typed field yields a default, never an error.

use vstd::prelude::*;

use crate::catalog::{book_view, Audiobook, AudioTrack, BookV, ExportError, TrackV};
use crate::catalog::{book_views, narrator_view, track_view, track_views};
use crate::paths::{file_name_of, file_name_spec};
use crate::sort::{sort_tracks, sort_tracks_spec, tracks_sorted};
use crate::text::str_eq;

verus! {

/// One node of a decoded metadata document: a dictionary of keyed
/// children, an array, a string, an unsigned integer, or anything
/// else (kept only so that lookups can miss it softly).
pub enum Doc {
    Dict(Vec<(String, Doc)>),
    Array(Vec<Doc>),
    Text(String),
    UInt(u64),
    Other,
}

/// The value under `key`, taking the first pair whose key matches.
pub open spec fn lookup(pairs: Seq<(String, Doc)>, key: Seq<char>) -> Option<Doc>
    decreases pairs.len(),
{
    if pairs.len() == 0 {
        None
    } else if pairs[0].0@ == key {
        Some(pairs[0].1)
    } else {
        lookup(pairs.drop_first(), key)
    }
}

/// The string under `key`, or `default` when absent or not a string.
pub open spec fn str_field_or(
    pairs: Seq<(String, Doc)>,
    key: Seq<char>,
    default: Seq<char>,
) -> Seq<char> {
    match lookup(pairs, key) {
        Some(Doc::Text(s)) => s@,
        _ => default,
    }
}

/// The string under `key`, when present and a string.
pub open spec fn opt_str_field(pairs: Seq<(String, Doc)>, key: Seq<char>) -> Option<Seq<char>> {
    match lookup(pairs, key) {
        Some(Doc::Text(s)) => Some(s@),
        _ => None,
    }
}

/// The unsigned integer under `key`, or 0 when absent or not one.
pub open spec fn uint_field_or0(pairs: Seq<(String, Doc)>, key: Seq<char>) -> u64 {
    match lookup(pairs, key) {
        Some(Doc::UInt(v)) => v,
        _ => 0,
    }
}

/// The low 32 bits of a document integer, as stored in a track.
pub open spec fn low32(v: u64) -> u32 {
    (v % 0x1_0000_0000) as u32
}

proof fn lemma_lookup_skip(pairs: Seq<(String, Doc)>, key: Seq<char>, i: int)
    requires
        0 <= i <= pairs.len(),
        forall|j: int| 0 <= j < i ==> (#[trigger] pairs[j]).0@ != key,
    ensures
        lookup(pairs, key) == lookup(pairs.subrange(i, pairs.len() as int), key),
    decreases i,
{
    if i > 0 {
        lemma_lookup_skip(pairs, key, i - 1);
        let t = pairs.subrange(i - 1, pairs.len() as int);
        assert(t[0] == pairs[i - 1]);
        assert(t.drop_first() =~= pairs.subrange(i, pairs.len() as int));
    } else {
        assert(pairs.subrange(0, pairs.len() as int) =~= pairs);
    }
}

/// The value under `key`, searching the pairs in order.
fn doc_get<'a>(pairs: &'a Vec<(String, Doc)>, key: &str) -> (r: Option<&'a Doc>)
    ensures
        match r {
            Some(d) => lookup(pairs@, key@) == Some(*d),
            None => lookup(pairs@, key@) is None,
        },
{
    let n = pairs.len();
    let mut i: usize = 0;
    while i < n
        invariant
            0 <= i <= n,
            n == pairs@.len(),
            forall|j: int| 0 <= j < i ==> (#[trigger] pairs@[j]).0@ != key@,
        decreases n - i,
    {
        if str_eq(pairs[i].0.as_str(), key) {
            proof {
                lemma_lookup_skip(pairs@, key@, i as int);
                let t = pairs@.subrange(i as int, pairs@.len() as int);
                assert(t[0] == pairs@[i as int]);
            }
            return Some(&pairs[i].1);
        }
        i += 1;
    }
    proof {
        lemma_lookup_skip(pairs@, key@, i as int);
        assert(pairs@.subrange(i as int, pairs@.len() as int).len() == 0);
    }
    None
}

/// The string under `key`, or the empty string when absent or not one.
fn get_str_or_empty(pairs: &Vec<(String, Doc)>, key: &str) -> (r: String)
    ensures
        r@ == str_field_or(pairs@, key@, Seq::<char>::empty()),
{
    match doc_get(pairs, key) {
        Some(Doc::Text(s)) => s.clone(),
        _ => String::new(),
    }
}

/// The string under `key`, or `default` when absent or not a string.
fn get_str_or(pairs: &Vec<(String, Doc)>, key: &str, default: &str) -> (r: String)
    ensures
        r@ == str_field_or(pairs@, key@, default@),
{
    match doc_get(pairs, key) {
        Some(Doc::Text(s)) => s.clone(),
        _ => default.to_owned(),
    }
}

/// The string under `key`, when present and a string.
fn get_opt_str(pairs: &Vec<(String, Doc)>, key: &str) -> (r: Option<String>)
    ensures
        narrator_view(r) == opt_str_field(pairs@, key@),
{
    match doc_get(pairs, key) {
        Some(Doc::Text(s)) => Some(s.clone()),
        _ => None,
    }
}

/// The unsigned integer under `key`, or 0.
fn get_uint_or0(pairs: &Vec<(String, Doc)>, key: &str) -> (r: u64)
    ensures
        r == uint_field_or0(pairs@, key@),
{
    match doc_get(pairs, key) {
        Some(Doc::UInt(v)) => *v,
        _ => 0,
    }
}

/// The title a list of parts yields: the item-name of the first part
/// that is a dictionary, defaulted when that field is absent or not a
/// string; later parts never override it.
pub open spec fn first_dict_title(parts: Seq<Doc>) -> Seq<char>
    decreases parts.len(),
{
    if parts.len() == 0 {
        Seq::<char>::empty()
    } else {
        match parts[0] {
            Doc::Dict(v) => str_field_or(v@, "itemName"@, "Unknown Title"@),
            _ => first_dict_title(parts.drop_first()),
        }
    }
}

/// The narrator a list of parts yields: the composer field of the
/// first part that has a non-empty one.
pub open spec fn narrator_of_parts(parts: Seq<Doc>) -> Option<Seq<char>>
    decreases parts.len(),
{
    if parts.len() == 0 {
        None
    } else {
        let rest = narrator_of_parts(parts.drop_first());
        match parts[0] {
            Doc::Dict(v) => match opt_str_field(v@, "composer"@) {
                Some(nar) => if nar.len() > 0 {
                    Some(nar)
                } else {
                    rest
                },
                None => rest,
            },
            _ => rest,
        }
    }
}

/// The track one part yields, or nothing when it has no non-empty
/// path field.
pub open spec fn part_track(pairs: Seq<(String, Doc)>) -> Option<TrackV> {
    let p = str_field_or(pairs, "path"@, Seq::<char>::empty());
    if p.len() == 0 {
        None
    } else {
        Some(
            TrackV {
                track_number: low32(uint_field_or0(pairs, "BKTrackNumber"@)),
                disc_number: low32(uint_field_or0(pairs, "BKDiscNumber"@)),
                title: str_field_or(pairs, "BKTrackTitle"@, Seq::<char>::empty()),
                path: p,
                filename: file_name_spec(p),
            },
        )
    }
}

/// The tracks a list of parts yields, in document order.
pub open spec fn collected_tracks(parts: Seq<Doc>) -> Seq<TrackV>
    decreases parts.len(),
{
    if parts.len() == 0 {
        Seq::<TrackV>::empty()
    } else {
        let rest = collected_tracks(parts.drop_first());
        match parts[0] {
            Doc::Dict(v) => match part_track(v@) {
                Some(t) => seq![t] + rest,
                None => rest,
            },
            _ => rest,
        }
    }
}

/// What one document entry yields: nothing unless it is a dictionary
/// marked as an audiobook that still has a title and at least one
/// valid track after filtering; else the book, its tracks sorted.
pub open spec fn parse_entry_spec(d: Doc) -> Option<BookV> {
    match d {
        Doc::Dict(v) => {
            if str_field_or(v@, "BKBookType"@, Seq::<char>::empty()) != "audiobook"@ {
                None
            } else {
                let parts = match lookup(v@, "BKParts"@) {
                    Some(Doc::Array(a)) => a@,
                    _ => Seq::<Doc>::empty(),
                };
                let title = first_dict_title(parts);
                let tracks = sort_tracks_spec(collected_tracks(parts));
                if title.len() == 0 || tracks.len() == 0 {
                    None
                } else {
                    Some(
                        BookV {
                            title,
                            author: str_field_or(v@, "artistName"@, "Unknown Author"@),
                            narrator: narrator_of_parts(parts),
                            folder_id: str_field_or(v@, "BKGeneratedItemId"@, Seq::<char>::empty()),
                            tracks,
                        },
                    )
                }
            }
        },
        _ => None,
    }
}

/// Walk the parts of one entry, reading title and narrator from the
/// first parts that settle them and keeping every part with a
/// non-empty path as a track, in document order.
fn collect_parts(parts: &Vec<Doc>) -> (r: (String, Option<String>, Vec<AudioTrack>))
    ensures
        r.0@ == first_dict_title(parts@),
        narrator_view(r.1) == narrator_of_parts(parts@),
        track_views(r.2@) == collected_tracks(parts@),
{
    let n = parts.len();
    let mut title = String::new();
    let mut title_set = false;
    let mut narrator: Option<String> = None;
    let mut tracks: Vec<AudioTrack> = Vec::new();
    let mut i: usize = 0;
    proof {
        assert(parts@.subrange(0, n as int) =~= parts@);
        assert(track_views(tracks@) =~= Seq::<TrackV>::empty());
    }
    while i < n
        invariant
            0 <= i <= n,
            n == parts@.len(),
            title_set ==> title@ == first_dict_title(parts@),
            !title_set ==> title@ == Seq::<char>::empty() && first_dict_title(parts@)
                == first_dict_title(parts@.subrange(i as int, n as int)),
            narrator is Some ==> narrator_of_parts(parts@) == narrator_view(narrator),
            narrator is None ==> narrator_of_parts(parts@) == narrator_of_parts(
                parts@.subrange(i as int, n as int),
            ),
            collected_tracks(parts@) == track_views(tracks@) + collected_tracks(
                parts@.subrange(i as int, n as int),
            ),
        decreases n - i,
    {
        proof {
            let suf = parts@.subrange(i as int, n as int);
            assert(suf[0] == parts@[i as int]);
            assert(suf.drop_first() =~= parts@.subrange(i + 1, n as int));
        }
        match &parts[i] {
            Doc::Dict(ppairs) => {
                if !title_set {
                    title = get_str_or(ppairs, "itemName", "Unknown Title");
                    title_set = true;
                }
                if narrator.is_none() {
                    match get_opt_str(ppairs, "composer") {
                        Some(nar) => {
                            if nar.as_str().unicode_len() > 0 {
                                narrator = Some(nar);
                            }
                        },
                        None => {},
                    }
                }
                let path_str = get_str_or_empty(ppairs, "path");
                if path_str.as_str().unicode_len() > 0 {
                    let tn = get_uint_or0(ppairs, "BKTrackNumber");
                    let dn = get_uint_or0(ppairs, "BKDiscNumber");
                    let ttl = get_str_or_empty(ppairs, "BKTrackTitle");
                    let filename = file_name_of(path_str.as_str());
                    let ghost before = tracks@;
                    let track = AudioTrack {
                        track_number: (tn % 0x1_0000_0000) as u32,
                        disc_number: (dn % 0x1_0000_0000) as u32,
                        title: ttl,
                        path: path_str,
                        filename,
                    };
                    proof {
                        let suf = parts@.subrange(i as int, n as int);
                        assert(part_track(ppairs@) == Some(track_view(track)));
                        assert(collected_tracks(suf) == seq![track_view(track)]
                            + collected_tracks(parts@.subrange(i + 1, n as int)));
                    }
                    tracks.push(track);
                    proof {
                        assert(track_views(tracks@) =~= track_views(before) + seq![
                            track_view(track),
                        ]);
                        assert(track_views(before) + (seq![track_view(track)] + collected_tracks(
                            parts@.subrange(i + 1, n as int),
                        )) =~= track_views(tracks@) + collected_tracks(
                            parts@.subrange(i + 1, n as int),
                        ));
                    }
                } else {
                    proof {
                        let suf = parts@.subrange(i as int, n as int);
                        assert(part_track(ppairs@) is None);
                        assert(collected_tracks(suf) == collected_tracks(
                            parts@.subrange(i + 1, n as int),
                        ));
                    }
                }
            },
            _ => {},
        }
        i += 1;
    }
    proof {
        assert(parts@.subrange(n as int, n as int).len() == 0);
        assert(track_views(tracks@) + collected_tracks(parts@.subrange(n as int, n as int))
            =~= track_views(tracks@));
        if !title_set {
            assert(first_dict_title(parts@) == Seq::<char>::empty());
        }
    }
    (title, narrator, tracks)
}

/// Read one document entry; yields nothing for anything that is not a
/// well-formed audiobook entry, and never fails. A returned book has
/// its tracks sorted by (disc number, track number).
pub fn parse_audiobook_entry(doc: &Doc) -> (r: Option<Audiobook>)
    ensures
        match r {
            Some(b) => parse_entry_spec(*doc) == Some(book_view(b)) && tracks_sorted(
                track_views(b.tracks@),
            ),
            None => parse_entry_spec(*doc) is None,
        },
{
    let pairs = match doc {
        Doc::Dict(v) => v,
        _ => {
            return None;
        },
    };
    let book_type = get_str_or_empty(pairs, "BKBookType");
    if !str_eq(book_type.as_str(), "audiobook") {
        return None;
    }
    let folder_id = get_str_or_empty(pairs, "BKGeneratedItemId");
    let author = get_str_or(pairs, "artistName", "Unknown Author");
    let ghost parts_spec: Seq<Doc> = match lookup(pairs@, "BKParts"@) {
        Some(Doc::Array(a)) => a@,
        _ => Seq::<Doc>::empty(),
    };
    let parsed = match doc_get(pairs, "BKParts") {
        Some(Doc::Array(a)) => collect_parts(a),
        _ => {
            proof {
                assert(parts_spec.len() == 0);
            }
            (String::new(), None, Vec::new())
        },
    };
    let (title, narrator, raw_tracks) = parsed;
    proof {
        assert(title@ == first_dict_title(parts_spec));
        assert(narrator_view(narrator) == narrator_of_parts(parts_spec));
        assert(track_views(raw_tracks@) == collected_tracks(parts_spec));
    }
    let sorted = sort_tracks(raw_tracks);
    proof {
        crate::sort::lemma_sort_tracks_ordered(collected_tracks(parts_spec));
    }
    if title.as_str().unicode_len() == 0 || sorted.len() == 0 {
        return None;
    }
    Some(Audiobook { title, author, narrator, folder_id, tracks: sorted })
}

/// The entries under the `Books` key, when the document has the
/// expected shape.
pub open spec fn books_array(d: Doc) -> Option<Seq<Doc>> {
    match d {
        Doc::Dict(v) => match lookup(v@, "Books"@) {
            Some(Doc::Array(a)) => Some(a@),
            _ => None,
        },
        _ => None,
    }
}

/// The books a list of document entries yields, in document order.
pub open spec fn extracted_books(entries: Seq<Doc>) -> Seq<BookV>
    decreases entries.len(),
{
    if entries.len() == 0 {
        Seq::<BookV>::empty()
    } else {
        let rest = extracted_books(entries.drop_first());
        match parse_entry_spec(entries[0]) {
            Some(b) => seq![b] + rest,
            None => rest,
        }
    }
}

/// Build the catalog from a decoded metadata document. Fails exactly
/// when the document lacks the expected dictionary-with-book-array
/// shape, or when no entry yields a valid audiobook.
pub fn parse_books_plist(doc: &Doc) -> (r: Result<Vec<Audiobook>, ExportError>)
    ensures
        match r {
            Ok(books) => books_array(*doc) is Some && book_views(books@) == extracted_books(
                books_array(*doc)->Some_0,
            ) && books@.len() > 0,
            Err(e) => match e {
                ExportError::InvalidPlistStructure(_) => books_array(*doc) is None,
                ExportError::NoAudiobooksFound => books_array(*doc) is Some && extracted_books(
                    books_array(*doc)->Some_0,
                ).len() == 0,
                ExportError::PlistNotFound(_) => false,
            },
        },
{
    let pairs = match doc {
        Doc::Dict(v) => v,
        _ => {
            return Err(ExportError::InvalidPlistStructure("Root is not a dictionary".to_owned()));
        },
    };
    let entries = match doc_get(pairs, "Books") {
        Some(Doc::Array(a)) => a,
        _ => {
            return Err(ExportError::InvalidPlistStructure("Missing 'Books' array".to_owned()));
        },
    };
    let n = entries.len();
    let mut books: Vec<Audiobook> = Vec::new();
    let mut i: usize = 0;
    proof {
        assert(entries@.subrange(0, n as int) =~= entries@);
        assert(book_views(books@) =~= Seq::<BookV>::empty());
    }
    while i < n
        invariant
            0 <= i <= n,
            n == entries@.len(),
            extracted_books(entries@) == book_views(books@) + extracted_books(
                entries@.subrange(i as int, n as int),
            ),
        decreases n - i,
    {
        proof {
            let suf = entries@.subrange(i as int, n as int);
            assert(suf[0] == entries@[i as int]);
            assert(suf.drop_first() =~= entries@.subrange(i + 1, n as int));
        }
        let ghost before = books@;
        match parse_audiobook_entry(&entries[i]) {
            Some(book) => {
                proof {
                    let suf = entries@.subrange(i as int, n as int);
                    assert(extracted_books(suf) == seq![book_view(book)] + extracted_books(
                        entries@.subrange(i + 1, n as int),
                    ));
                }
                books.push(book);
                proof {
                    assert(book_views(books@) =~= book_views(before) + seq![book_view(book)]);
                    assert(book_views(before) + (seq![book_view(book)] + extracted_books(
                        entries@.subrange(i + 1, n as int),
                    )) =~= book_views(books@) + extracted_books(
                        entries@.subrange(i + 1, n as int),
                    ));
                }
            },
            None => {},
        }
        i += 1;
    }
    proof {
        assert(entries@.subrange(n as int, n as int).len() == 0);
        assert(book_views(books@) + extracted_books(entries@.subrange(n as int, n as int))
            =~= book_views(books@));
    }
    if books.len() == 0 {
        proof {
            assert(extracted_books(entries@).len() == book_views(books@).len());
        }
        return Err(ExportError::NoAudiobooksFound);
    }
    Ok(books)
}

} // verus!

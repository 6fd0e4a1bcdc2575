use books_export::{parse_audiobook_entry, parse_books_plist, Doc, ExportError};

fn text(v: &str) -> Doc {
    Doc::Text(v.to_string())
}

fn pair(k: &str, v: Doc) -> (String, Doc) {
    (k.to_string(), v)
}

fn track_part(name: &str, track: u64, disc: u64, title: &str, path: &str) -> Doc {
    Doc::Dict(vec![
        pair("itemName", text(name)),
        pair("BKTrackNumber", Doc::UInt(track)),
        pair("BKDiscNumber", Doc::UInt(disc)),
        pair("BKTrackTitle", text(title)),
        pair("path", text(path)),
    ])
}

#[test]
fn test_parse_audiobook_entry_non_audiobook() {
    let value = Doc::Dict(vec![pair("BKBookType", text("ebook"))]);
    let result = parse_audiobook_entry(&value);
    assert!(result.is_none());
}

#[test]
fn test_parse_audiobook_entry_valid() {
    let track1 = track_part("Test Book", 1, 0, "Chapter 1", "/path/to/track1.mp3");
    let track2 = track_part("Test Book", 2, 0, "Chapter 2", "/path/to/track2.mp3");

    let value = Doc::Dict(vec![
        pair("BKBookType", text("audiobook")),
        pair("BKGeneratedItemId", text("sha1-abc123")),
        pair("artistName", text("Test Author")),
        pair("BKParts", Doc::Array(vec![track1, track2])),
    ]);

    let result = parse_audiobook_entry(&value);

    assert!(result.is_some());
    let audiobook = result.unwrap();

    assert_eq!(audiobook.title, "Test Book");
    assert_eq!(audiobook.author, "Test Author");
    assert_eq!(audiobook.folder_id, "sha1-abc123");
    assert_eq!(audiobook.tracks.len(), 2);
    assert_eq!(audiobook.tracks[0].track_number, 1);
    assert_eq!(audiobook.tracks[1].track_number, 2);
}

#[test]
fn test_parse_audiobook_entry_defaults() {
    let part = Doc::Dict(vec![
        pair("itemName", text("Bare Book")),
        pair("path", text("/x/Audiobooks/sha1-a/one.mp3")),
    ]);
    let value = Doc::Dict(vec![
        pair("BKBookType", text("audiobook")),
        pair("BKParts", Doc::Array(vec![part])),
    ]);

    let audiobook = parse_audiobook_entry(&value).unwrap();
    assert_eq!(audiobook.author, "Unknown Author");
    assert_eq!(audiobook.folder_id, "");
    assert!(audiobook.narrator.is_none());
    assert_eq!(audiobook.tracks.len(), 1);
    assert_eq!(audiobook.tracks[0].track_number, 0);
    assert_eq!(audiobook.tracks[0].disc_number, 0);
    assert_eq!(audiobook.tracks[0].title, "");
    assert_eq!(audiobook.tracks[0].filename, "one.mp3");
}

#[test]
fn test_parse_audiobook_entry_narrator_from_first_nonempty_composer() {
    let part1 = Doc::Dict(vec![
        pair("itemName", text("Narrated Book")),
        pair("composer", text("")),
        pair("path", text("/x/one.mp3")),
    ]);
    let part2 = Doc::Dict(vec![
        pair("composer", text("A Voice")),
        pair("path", text("/x/two.mp3")),
    ]);
    let value = Doc::Dict(vec![
        pair("BKBookType", text("audiobook")),
        pair("BKParts", Doc::Array(vec![part1, part2])),
    ]);

    let audiobook = parse_audiobook_entry(&value).unwrap();
    assert_eq!(audiobook.narrator.as_deref(), Some("A Voice"));
}

#[test]
fn test_parse_audiobook_entry_drops_partless() {
    let no_path = Doc::Dict(vec![pair("itemName", text("Hollow Book"))]);
    let empty_path = Doc::Dict(vec![
        pair("itemName", text("Hollow Book")),
        pair("path", text("")),
    ]);
    let value = Doc::Dict(vec![
        pair("BKBookType", text("audiobook")),
        pair("BKParts", Doc::Array(vec![no_path, empty_path])),
    ]);

    assert!(parse_audiobook_entry(&value).is_none());
}

#[test]
fn test_track_ordering_stable() {
    let parts = vec![
        track_part("Ordered Book", 1, 2, "d2 t1", "/p/a.mp3"),
        track_part("Ordered Book", 2, 1, "d1 t2", "/p/b.mp3"),
        track_part("Ordered Book", 1, 1, "first equal", "/p/c.mp3"),
        track_part("Ordered Book", 1, 1, "second equal", "/p/d.mp3"),
    ];
    let value = Doc::Dict(vec![
        pair("BKBookType", text("audiobook")),
        pair("BKParts", Doc::Array(parts)),
    ]);

    let audiobook = parse_audiobook_entry(&value).unwrap();
    let names: Vec<&str> = audiobook.tracks.iter().map(|t| t.filename.as_str()).collect();
    assert_eq!(names, vec!["c.mp3", "d.mp3", "b.mp3", "a.mp3"]);
    for w in audiobook.tracks.windows(2) {
        assert!(
            (w[0].disc_number, w[0].track_number) <= (w[1].disc_number, w[1].track_number)
        );
    }
}

#[test]
fn test_parse_books_plist_root_not_dictionary() {
    let result = parse_books_plist(&text("nope"));
    assert!(matches!(result, Err(ExportError::InvalidPlistStructure(_))));
}

#[test]
fn test_parse_books_plist_missing_books_array() {
    let result = parse_books_plist(&Doc::Dict(vec![pair("Other", text("x"))]));
    assert!(matches!(result, Err(ExportError::InvalidPlistStructure(_))));
}

#[test]
fn test_parse_books_plist_no_audiobooks() {
    let ebook = Doc::Dict(vec![pair("BKBookType", text("ebook"))]);
    let doc = Doc::Dict(vec![pair("Books", Doc::Array(vec![ebook, Doc::UInt(3)]))]);
    let result = parse_books_plist(&doc);
    assert!(matches!(result, Err(ExportError::NoAudiobooksFound)));
}

#[test]
fn test_parse_books_plist_skips_invalid_entries() {
    let ebook = Doc::Dict(vec![pair("BKBookType", text("ebook"))]);
    let good = Doc::Dict(vec![
        pair("BKBookType", text("audiobook")),
        pair("artistName", text("Kept Author")),
        pair(
            "BKParts",
            Doc::Array(vec![track_part("Kept Book", 1, 0, "c1", "/p/k.mp3")]),
        ),
    ]);
    let doc = Doc::Dict(vec![pair(
        "Books",
        Doc::Array(vec![ebook, Doc::Other, good]),
    )]);

    let books = parse_books_plist(&doc).unwrap();
    assert_eq!(books.len(), 1);
    assert_eq!(books[0].title, "Kept Book");
    assert_eq!(books[0].author, "Kept Author");
}

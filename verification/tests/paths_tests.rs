use books_export::{
    create_audiobookshelf_path, file_name_of, join_path, remap_track_path, sanitize_filename,
    Audiobook,
};

#[test]
fn test_sanitize_filename() {
    assert_eq!(sanitize_filename("Normal Title"), "Normal Title");
    assert_eq!(sanitize_filename("Title: Subtitle"), "Title_ Subtitle");
    assert_eq!(sanitize_filename("What/Why"), "What_Why");
    assert_eq!(
        sanitize_filename("File<>Name*With?Bad|Chars"),
        "File__Name_With_Bad_Chars"
    );
    assert_eq!(sanitize_filename("  Trimmed  "), "Trimmed");
}

#[test]
fn test_create_audiobookshelf_path() {
    let dest = "/dest";

    let book_without_narrator = Audiobook {
        title: "The Great Book".to_string(),
        author: "John Doe".to_string(),
        narrator: None,
        folder_id: "sha1-abc123".to_string(),
        tracks: vec![],
    };

    let path = create_audiobookshelf_path(dest, &book_without_narrator);
    assert_eq!(path, "/dest/John Doe/The Great Book");

    let book_with_narrator = Audiobook {
        title: "Another Book".to_string(),
        author: "Jane Smith".to_string(),
        narrator: Some("Bob Reader".to_string()),
        folder_id: "sha1-def456".to_string(),
        tracks: vec![],
    };

    let path = create_audiobookshelf_path(dest, &book_with_narrator);
    assert_eq!(path, "/dest/Jane Smith/Another Book {Bob Reader}");
}

#[test]
fn test_create_audiobookshelf_path_with_special_chars() {
    let dest = "/dest";

    let book = Audiobook {
        title: "Book: A Subtitle".to_string(),
        author: "Author/Writer".to_string(),
        narrator: Some("Narrator: The Voice".to_string()),
        folder_id: "sha1-abc123".to_string(),
        tracks: vec![],
    };

    let path = create_audiobookshelf_path(dest, &book);
    assert_eq!(path, "/dest/Author_Writer/Book_ A Subtitle {Narrator_ The Voice}");
}

#[test]
fn test_remap_track_path() {
    let source_base =
        "/Volumes/charlie/Library/Containers/com.apple.BKAgentService/Data/Documents/iBooks/Books";

    let original_path = "/Users/charlie/Library/Containers/com.apple.BKAgentService/Data/Documents/iBooks/Books/Audiobooks/sha1-abc123/01 Track.mp3";

    let remapped = remap_track_path(original_path, source_base);

    assert_eq!(
        remapped,
        "/Volumes/charlie/Library/Containers/com.apple.BKAgentService/Data/Documents/iBooks/Books/Audiobooks/sha1-abc123/01 Track.mp3"
    );
}

#[test]
fn test_remap_track_path_fallback_sha1() {
    let remapped = remap_track_path("/somewhere/else/sha1-deadbeef/02 Track.m4b", "/actual/root");
    assert_eq!(remapped, "/actual/root/Audiobooks/sha1-deadbeef/02 Track.m4b");
}

#[test]
fn test_remap_track_path_passthrough() {
    let remapped = remap_track_path("/somewhere/else/plain-folder/02 Track.m4b", "/actual/root");
    assert_eq!(remapped, "/somewhere/else/plain-folder/02 Track.m4b");
}

#[test]
fn test_sanitize_filename_all_whitespace() {
    assert_eq!(sanitize_filename("   "), "");
    assert_eq!(sanitize_filename(""), "");
}

#[test]
fn test_sanitize_filename_unicode_kept() {
    assert_eq!(sanitize_filename("Crème Brûlée?"), "Crème Brûlée_");
}

#[test]
fn test_join_path() {
    assert_eq!(join_path("/a/b", "c.mp3"), "/a/b/c.mp3");
    assert_eq!(join_path("/a/b/", "c.mp3"), "/a/b/c.mp3");
    assert_eq!(join_path("/a/b", "/absolute/c.mp3"), "/absolute/c.mp3");
    assert_eq!(join_path("", "c.mp3"), "c.mp3");
}

#[test]
fn test_file_name_of() {
    assert_eq!(file_name_of("/a/b/track.mp3"), "track.mp3");
    assert_eq!(file_name_of("track.mp3"), "track.mp3");
    assert_eq!(file_name_of("/a/b/"), "b");
    assert_eq!(file_name_of("/"), "");
}

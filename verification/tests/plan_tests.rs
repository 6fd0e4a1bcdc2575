use books_export::{
    build_diff_report, compute_diff, plan_export, plan_paths, AudioTrack, Audiobook, FileStatus,
    FsOp, FsProbe,
};

fn track(n: u32, disc: u32, title: &str, path: &str, filename: &str) -> AudioTrack {
    AudioTrack {
        track_number: n,
        disc_number: disc,
        title: title.to_string(),
        path: path.to_string(),
        filename: filename.to_string(),
    }
}

fn book(title: &str, author: &str, narrator: Option<&str>, tracks: Vec<AudioTrack>) -> Audiobook {
    Audiobook {
        title: title.to_string(),
        author: author.to_string(),
        narrator: narrator.map(|n| n.to_string()),
        folder_id: "sha1-test".to_string(),
        tracks,
    }
}

fn probe(source_exists: bool, dest_exists: bool) -> FsProbe {
    FsProbe { source_exists, dest_exists }
}

#[test]
fn test_plan_paths_resolves_both_sides() {
    let books = vec![book(
        "Test Book",
        "Test Author",
        None,
        vec![track(
            1,
            0,
            "Chapter 1",
            "/Users/charlie/Library/Books/Audiobooks/sha1-test123/01 Chapter 1.mp3",
            "01 Chapter 1.mp3",
        )],
    )];

    let pairs = plan_paths(&books, "/src", "/dest");
    assert_eq!(pairs.len(), 1);
    assert_eq!(pairs[0].0, "/src/Audiobooks/sha1-test123/01 Chapter 1.mp3");
    assert_eq!(pairs[0].1, "/dest/Test Author/Test Book/01 Chapter 1.mp3");
}

#[test]
fn test_compute_diff_classifies_each_track() {
    let books = vec![book(
        "Diff Book",
        "Diff Author",
        None,
        vec![
            track(1, 0, "c1", "/r/Audiobooks/sha1-x/01.mp3", "01.mp3"),
            track(2, 0, "c2", "/r/Audiobooks/sha1-x/02.mp3", "02.mp3"),
            track(3, 0, "c3", "/r/Audiobooks/sha1-x/03.mp3", "03.mp3"),
        ],
    )];
    let probes = vec![probe(true, false), probe(true, true), probe(false, false)];

    let diffs = compute_diff(&books, "/src", "/dest", &probes);

    assert_eq!(diffs.len(), 3);
    assert_eq!(diffs[0].status, FileStatus::New);
    assert_eq!(diffs[1].status, FileStatus::Exists);
    assert_eq!(diffs[2].status, FileStatus::SourceMissing);
    assert_eq!(diffs[0].source_path, "/src/Audiobooks/sha1-x/01.mp3");
    assert_eq!(diffs[0].dest_path, "/dest/Diff Author/Diff Book/01.mp3");
    assert_eq!(diffs[0].book_title, "Diff Book");
    assert_eq!(diffs[0].author, "Diff Author");
}

#[test]
fn test_export_plan_creates_directory_then_copies() {
    let books = vec![book(
        "Test Book",
        "Test Author",
        None,
        vec![track(
            1,
            0,
            "Chapter 1",
            "/Users/charlie/Library/Books/Audiobooks/sha1-test123/01 Chapter 1.mp3",
            "01 Chapter 1.mp3",
        )],
    )];
    let probes = vec![probe(true, false)];

    let (ops, stats) = plan_export(&books, "/src", "/dest", false, false, &probes);

    assert_eq!(ops.len(), 2);
    match &ops[0] {
        FsOp::MkDirAll(dir) => assert_eq!(dir, "/dest/Test Author/Test Book"),
        other => panic!("expected a directory creation, got {:?}", other),
    }
    match &ops[1] {
        FsOp::CopyFile(src, dst) => {
            assert_eq!(src, "/src/Audiobooks/sha1-test123/01 Chapter 1.mp3");
            assert_eq!(dst, "/dest/Test Author/Test Book/01 Chapter 1.mp3");
        },
        other => panic!("expected a copy, got {:?}", other),
    }
    assert_eq!(stats.books_exported, 1);
    assert_eq!(stats.files_copied, 1);
    assert_eq!(stats.files_already_exist, 0);
    assert_eq!(stats.source_missing, 0);
}

#[test]
fn test_dry_run_does_not_copy() {
    let books = vec![book(
        "Dry Run Book",
        "Dry Run Author",
        None,
        vec![track(1, 0, "Chapter 1", "/fake/path/track.mp3", "track.mp3")],
    )];
    let probes = vec![probe(false, false)];

    let (ops, stats) = plan_export(&books, "/src", "/dest", true, false, &probes);

    assert_eq!(stats.files_would_copy, 1);
    assert_eq!(stats.files_copied, 0);
    assert!(ops.is_empty());
}

#[test]
fn test_second_run_only_skips() {
    let books = vec![book(
        "Twice Book",
        "Twice Author",
        None,
        vec![
            track(1, 0, "c1", "/r/Audiobooks/sha1-x/01.mp3", "01.mp3"),
            track(2, 0, "c2", "/r/Audiobooks/sha1-x/02.mp3", "02.mp3"),
        ],
    )];
    let probes = vec![probe(true, true), probe(true, true)];

    let (ops, stats) = plan_export(&books, "/src", "/dest", false, false, &probes);

    assert_eq!(stats.files_copied, 0);
    assert_eq!(stats.files_already_exist, 2);
    assert!(ops.iter().all(|o| matches!(o, FsOp::MkDirAll(_))));
}

#[test]
fn test_link_mode_plans_links() {
    let books = vec![book(
        "Link Book",
        "Link Author",
        None,
        vec![track(1, 0, "c1", "/r/Audiobooks/sha1-x/01.mp3", "01.mp3")],
    )];
    let probes = vec![probe(true, false)];

    let (ops, stats) = plan_export(&books, "/src", "/dest", false, true, &probes);

    assert_eq!(stats.files_copied, 1);
    assert!(matches!(&ops[1], FsOp::LinkFile(_, _)));
}

#[test]
fn test_source_missing_is_soft() {
    let books = vec![book(
        "Gap Book",
        "Gap Author",
        None,
        vec![
            track(1, 0, "c1", "/r/Audiobooks/sha1-x/01.mp3", "01.mp3"),
            track(2, 0, "c2", "/r/Audiobooks/sha1-x/02.mp3", "02.mp3"),
        ],
    )];
    let probes = vec![probe(false, false), probe(true, false)];

    let (ops, stats) = plan_export(&books, "/src", "/dest", false, false, &probes);

    assert_eq!(stats.source_missing, 1);
    assert_eq!(stats.files_missing, 0);
    assert_eq!(stats.files_copied, 1);
    assert_eq!(stats.books_exported, 1);
    assert_eq!(ops.len(), 2);
}

#[test]
fn test_diff_report_groups_and_sorts() {
    let books = vec![
        book(
            "Zeta Book",
            "Zed Author",
            None,
            vec![
                track(1, 0, "c1", "/r/Audiobooks/sha1-z/01.mp3", "01.mp3"),
                track(2, 0, "c2", "/r/Audiobooks/sha1-z/02.mp3", "02.mp3"),
            ],
        ),
        book(
            "Alpha Book",
            "Ann Author",
            None,
            vec![track(1, 0, "c1", "/r/Audiobooks/sha1-a/01.mp3", "01.mp3")],
        ),
    ];
    let probes = vec![probe(true, false), probe(true, false), probe(false, false)];

    let diffs = compute_diff(&books, "/src", "/dest", &probes);
    let report = build_diff_report(&diffs);

    assert_eq!(report.new_files, 2);
    assert_eq!(report.existing_files, 0);
    assert_eq!(report.missing_files, 1);
    assert_eq!(report.new_books.len(), 1);
    assert_eq!(report.new_books[0].0, "Zed Author - Zeta Book");
    assert_eq!(report.new_books[0].1, 2);
    assert_eq!(report.missing_books.len(), 1);
    assert_eq!(report.missing_books[0].0, "Ann Author - Alpha Book");
}

#[test]
fn test_diff_report_sorts_keys() {
    let books = vec![
        book(
            "B Book",
            "B Author",
            None,
            vec![track(1, 0, "c", "/r/Audiobooks/sha1-b/01.mp3", "01.mp3")],
        ),
        book(
            "A Book",
            "A Author",
            None,
            vec![track(1, 0, "c", "/r/Audiobooks/sha1-a/01.mp3", "01.mp3")],
        ),
    ];
    let probes = vec![probe(true, false), probe(true, false)];

    let diffs = compute_diff(&books, "/src", "/dest", &probes);
    let report = build_diff_report(&diffs);

    assert_eq!(report.new_books.len(), 2);
    assert_eq!(report.new_books[0].0, "A Author - A Book");
    assert_eq!(report.new_books[1].0, "B Author - B Book");
}

//! The diff engine: classify every track of the catalog against what
//! is on disk, without touching the filesystem. The caller probes
//! existence of the planned paths and hands the answers in; every
//! decision taken on them is computed — and specified — here.

use vstd::prelude::*;

use crate::catalog::{book_view, book_views, narrator_view, Audiobook, BookV};
use crate::paths::{create_audiobookshelf_path, dest_dir_seq, join_path, joined, remap_track_path,
    remapped};

verus! {

/// Filesystem state of one track, relative to source and destination.
#[derive(Debug, Clone, Copy, PartialEq, Eq, Structural)]
pub enum FileStatus {
    /// Present at the source, absent at the destination: to be copied.
    New,
    /// Present at both source and destination.
    Exists,
    /// Recorded in the metadata but absent at the source.
    SourceMissing,
}

/// Existence answers for one track: its resolved source path and its
/// destination path.
#[derive(Debug, Clone, Copy, PartialEq, Eq, Structural)]
pub struct FsProbe {
    pub source_exists: bool,
    pub dest_exists: bool,
}

/// One track's resolved paths and state, with its book named for
/// reporting.
#[derive(Debug, Clone)]
pub struct FileDiff {
    pub source_path: String,
    pub dest_path: String,
    pub status: FileStatus,
    pub book_title: String,
    pub author: String,
}

/// A diff entry as a mathematical value.
pub ghost struct DiffV {
    pub source_path: Seq<char>,
    pub dest_path: Seq<char>,
    pub status: FileStatus,
    pub book_title: Seq<char>,
    pub author: Seq<char>,
}

/// The mathematical value of a diff entry.
pub open spec fn diff_view(d: FileDiff) -> DiffV {
    DiffV {
        source_path: d.source_path@,
        dest_path: d.dest_path@,
        status: d.status,
        book_title: d.book_title@,
        author: d.author@,
    }
}

/// The mathematical values of a sequence of diff entries.
pub open spec fn diff_views(s: Seq<FileDiff>) -> Seq<DiffV> {
    s.map_values(|d: FileDiff| diff_view(d))
}

/// How one probe is classified: a missing source wins, then an
/// existing destination, else the track is new.
pub open spec fn classify(p: FsProbe) -> FileStatus {
    if !p.source_exists {
        FileStatus::SourceMissing
    } else if p.dest_exists {
        FileStatus::Exists
    } else {
        FileStatus::New
    }
}

/// Executable form of [`classify`].
pub fn classify_probe(p: FsProbe) -> (r: FileStatus)
    ensures
        r == classify(p),
{
    if !p.source_exists {
        FileStatus::SourceMissing
    } else if p.dest_exists {
        FileStatus::Exists
    } else {
        FileStatus::New
    }
}

/// How many tracks the whole catalog has.
pub open spec fn total_tracks(books: Seq<BookV>) -> nat
    decreases books.len(),
{
    if books.len() == 0 {
        0
    } else {
        books[0].tracks.len() + total_tracks(books.drop_first())
    }
}

/// The diff entry of track `j` of book `b`, given its probe.
pub open spec fn track_diff(
    b: BookV,
    j: int,
    source_base: Seq<char>,
    dest: Seq<char>,
    probe: FsProbe,
) -> DiffV {
    DiffV {
        source_path: remapped(b.tracks[j].path, source_base),
        dest_path: joined(dest_dir_seq(dest, b.author, b.title, b.narrator), b.tracks[j].filename),
        status: classify(probe),
        book_title: b.title,
        author: b.author,
    }
}

/// The diff entries of one book, its probes aligned with its tracks.
pub open spec fn book_diffs(
    b: BookV,
    source_base: Seq<char>,
    dest: Seq<char>,
    probes: Seq<FsProbe>,
) -> Seq<DiffV> {
    Seq::new(b.tracks.len(), |j: int| track_diff(b, j, source_base, dest, probes[j]))
}

/// The diff of the whole catalog, in catalog order: book order, then
/// track order within each book. The probes are consumed in the same
/// order.
pub open spec fn diff_spec(
    books: Seq<BookV>,
    source_base: Seq<char>,
    dest: Seq<char>,
    probes: Seq<FsProbe>,
) -> Seq<DiffV>
    decreases books.len(),
{
    if books.len() == 0 {
        Seq::<DiffV>::empty()
    } else {
        let tl = books[0].tracks.len() as int;
        book_diffs(books[0], source_base, dest, probes.take(tl)) + diff_spec(
            books.drop_first(),
            source_base,
            dest,
            probes.skip(tl),
        )
    }
}

/// The source and destination paths of every track, in catalog order:
/// what a caller must probe before computing the diff.
pub open spec fn book_pairs(b: BookV, source_base: Seq<char>, dest: Seq<char>) -> Seq<
    (Seq<char>, Seq<char>),
> {
    Seq::new(
        b.tracks.len(),
        |j: int|
            (
                remapped(b.tracks[j].path, source_base),
                joined(dest_dir_seq(dest, b.author, b.title, b.narrator), b.tracks[j].filename),
            ),
    )
}

/// The path pairs of the whole catalog, in catalog order.
pub open spec fn path_pairs(books: Seq<BookV>, source_base: Seq<char>, dest: Seq<char>) -> Seq<
    (Seq<char>, Seq<char>),
>
    decreases books.len(),
{
    if books.len() == 0 {
        Seq::<(Seq<char>, Seq<char>)>::empty()
    } else {
        book_pairs(books[0], source_base, dest) + path_pairs(books.drop_first(), source_base, dest)
    }
}

/// The mathematical values of a vector of path pairs.
pub open spec fn pair_views(s: Seq<(String, String)>) -> Seq<(Seq<char>, Seq<char>)> {
    s.map_values(|p: (String, String)| (p.0@, p.1@))
}

/// There are as many path pairs as tracks.
pub proof fn lemma_path_pairs_len(books: Seq<BookV>, source_base: Seq<char>, dest: Seq<char>)
    ensures
        path_pairs(books, source_base, dest).len() == total_tracks(books),
    decreases books.len(),
{
    if books.len() > 0 {
        lemma_path_pairs_len(books.drop_first(), source_base, dest);
    }
}

/// Resolve, for every track of every book in catalog order, the real
/// source path and the destination path. Pure: the answers to probe.
pub fn plan_paths(audiobooks: &Vec<Audiobook>, source_base: &str, dest: &str) -> (r: Vec<
    (String, String),
>)
    ensures
        pair_views(r@) == path_pairs(book_views(audiobooks@), source_base@, dest@),
        r@.len() == total_tracks(book_views(audiobooks@)),
{
    proof {
        lemma_path_pairs_len(book_views(audiobooks@), source_base@, dest@);
    }
    let ghost views = book_views(audiobooks@);
    let mut out: Vec<(String, String)> = Vec::new();
    let n = audiobooks.len();
    let mut i: usize = 0;
    proof {
        assert(pair_views(out@) =~= Seq::<(Seq<char>, Seq<char>)>::empty());
        assert(views.subrange(0, n as int) =~= views);
    }
    while i < n
        invariant
            0 <= i <= n,
            n == audiobooks@.len(),
            views == book_views(audiobooks@),
            path_pairs(views, source_base@, dest@) == pair_views(out@) + path_pairs(
                views.subrange(i as int, n as int),
                source_base@,
                dest@,
            ),
        decreases n - i,
    {
        proof {
            let suf = views.subrange(i as int, n as int);
            assert(suf[0] == views[i as int]);
            assert(suf.drop_first() =~= views.subrange(i + 1, n as int));
            assert(views[i as int] == book_view(audiobooks@[i as int]));
        }
        let book = &audiobooks[i];
        let dest_dir = create_audiobookshelf_path(dest, book);
        let tl = book.tracks.len();
        let ghost prefix = out@;
        let ghost bp = book_pairs(views[i as int], source_base@, dest@);
        let mut j: usize = 0;
        proof {
            assert(pair_views(out@) =~= pair_views(prefix) + bp.take(0));
        }
        while j < tl
            invariant
                0 <= j <= tl,
                i < n,
                n == audiobooks@.len(),
                views == book_views(audiobooks@),
                book == audiobooks@[i as int],
                tl == audiobooks@[i as int].tracks@.len(),
                views[i as int] == book_view(audiobooks@[i as int]),
                bp == book_pairs(views[i as int], source_base@, dest@),
                dest_dir@ == dest_dir_seq(
                    dest@,
                    views[i as int].author,
                    views[i as int].title,
                    views[i as int].narrator,
                ),
                path_pairs(views, source_base@, dest@) == pair_views(prefix) + path_pairs(
                    views.subrange(i as int, n as int),
                    source_base@,
                    dest@,
                ),
                pair_views(out@) == pair_views(prefix) + bp.take(j as int),
            decreases tl - j,
        {
            let ghost before = out@;
            let track = &book.tracks[j];
            let source_path = remap_track_path(track.path.as_str(), source_base);
            let dest_path = join_path(dest_dir.as_str(), track.filename.as_str());
            out.push((source_path, dest_path));
            proof {
                assert(views[i as int].tracks[j as int] == crate::catalog::track_view(
                    audiobooks@[i as int].tracks@[j as int],
                ));
                assert(pair_views(out@) =~= pair_views(before) + seq![bp[j as int]]);
                assert(pair_views(prefix) + bp.take(j + 1) =~= (pair_views(prefix) + bp.take(
                    j as int,
                )) + seq![bp[j as int]]);
            }
            j += 1;
        }
        proof {
            assert(bp.take(tl as int) =~= bp);
            let suf = views.subrange(i as int, n as int);
            assert(pair_views(out@) + path_pairs(views.subrange(i + 1, n as int), source_base@,
                dest@) =~= pair_views(prefix) + (bp + path_pairs(
                views.subrange(i + 1, n as int),
                source_base@,
                dest@,
            )));
            assert(path_pairs(suf, source_base@, dest@) == bp + path_pairs(
                views.subrange(i + 1, n as int),
                source_base@,
                dest@,
            ));
        }
        i += 1;
    }
    proof {
        assert(views.subrange(n as int, n as int).len() == 0);
        assert(pair_views(out@) + path_pairs(
            views.subrange(n as int, n as int),
            source_base@,
            dest@,
        ) =~= pair_views(out@));
    }
    out
}

/// Compute the diff between source and destination for the whole
/// catalog, from the existence answers for its planned paths (as
/// listed by [`plan_paths`], in the same order). Read-only: the
/// classification of every track is fixed by the catalog, the two
/// roots and the probes alone.
pub fn compute_diff(
    audiobooks: &Vec<Audiobook>,
    source_base: &str,
    dest: &str,
    probes: &Vec<FsProbe>,
) -> (r: Vec<FileDiff>)
    requires
        probes@.len() == total_tracks(book_views(audiobooks@)),
    ensures
        diff_views(r@) == diff_spec(book_views(audiobooks@), source_base@, dest@, probes@),
        r@.len() == probes@.len(),
{
    let ghost views = book_views(audiobooks@);
    let mut out: Vec<FileDiff> = Vec::new();
    let n = audiobooks.len();
    let mut i: usize = 0;
    proof {
        assert(diff_views(out@) =~= Seq::<DiffV>::empty());
        assert(views.subrange(0, n as int) =~= views);
        assert(probes@.skip(0) =~= probes@);
    }
    while i < n
        invariant
            0 <= i <= n,
            n == audiobooks@.len(),
            views == book_views(audiobooks@),
            probes@.len() == total_tracks(views),
            out@.len() + total_tracks(views.subrange(i as int, n as int)) == probes@.len(),
            diff_spec(views, source_base@, dest@, probes@) == diff_views(out@) + diff_spec(
                views.subrange(i as int, n as int),
                source_base@,
                dest@,
                probes@.skip(out@.len() as int),
            ),
        decreases n - i,
    {
        proof {
            let suf = views.subrange(i as int, n as int);
            assert(suf[0] == views[i as int]);
            assert(suf.drop_first() =~= views.subrange(i + 1, n as int));
            assert(views[i as int] == book_view(audiobooks@[i as int]));
        }
        let book = &audiobooks[i];
        let dest_dir = create_audiobookshelf_path(dest, book);
        let tl = book.tracks.len();
        let ghost prefix = out@;
        let ghost kp = out@.len() as int;
        let ghost bd = book_diffs(
            views[i as int],
            source_base@,
            dest@,
            probes@.subrange(kp, kp + tl),
        );
        proof {
            let rest = probes@.skip(kp);
            assert(rest.take(tl as int) =~= probes@.subrange(kp, kp + tl));
            assert(rest.skip(tl as int) =~= probes@.skip(kp + tl));
            assert(diff_spec(views.subrange(i as int, n as int), source_base@, dest@, rest)
                == bd + diff_spec(
                views.subrange(i + 1, n as int),
                source_base@,
                dest@,
                probes@.skip(kp + tl),
            ));
            assert(diff_views(out@) =~= diff_views(prefix) + bd.take(0));
        }
        let mut j: usize = 0;
        while j < tl
            invariant
                0 <= j <= tl,
                i < n,
                n == audiobooks@.len(),
                views == book_views(audiobooks@),
                book == audiobooks@[i as int],
                tl == audiobooks@[i as int].tracks@.len(),
                views[i as int] == book_view(audiobooks@[i as int]),
                probes@.len() == total_tracks(views),
                kp + tl + total_tracks(views.subrange(i + 1, n as int)) == probes@.len(),
                kp == prefix.len(),
                out@.len() == kp + j,
                bd == book_diffs(
                    views[i as int],
                    source_base@,
                    dest@,
                    probes@.subrange(kp, kp + tl),
                ),
                dest_dir@ == dest_dir_seq(
                    dest@,
                    views[i as int].author,
                    views[i as int].title,
                    views[i as int].narrator,
                ),
                diff_spec(views, source_base@, dest@, probes@) == diff_views(prefix) + (bd
                    + diff_spec(
                    views.subrange(i + 1, n as int),
                    source_base@,
                    dest@,
                    probes@.skip(kp + tl),
                )),
                diff_views(out@) == diff_views(prefix) + bd.take(j as int),
            decreases tl - j,
        {
            let ghost before = out@;
            let track = &book.tracks[j];
            let source_path = remap_track_path(track.path.as_str(), source_base);
            let dest_path = join_path(dest_dir.as_str(), track.filename.as_str());
            let probe = probes[out.len()];
            let status = classify_probe(probe);
            let entry = FileDiff {
                source_path,
                dest_path,
                status,
                book_title: book.title.clone(),
                author: book.author.clone(),
            };
            out.push(entry);
            proof {
                assert(views[i as int].tracks[j as int] == crate::catalog::track_view(
                    audiobooks@[i as int].tracks@[j as int],
                ));
                assert(probes@.subrange(kp, kp + tl)[j as int] == probes@[kp + j]);
                assert(diff_views(out@) =~= diff_views(before) + seq![bd[j as int]]);
                assert(diff_views(prefix) + bd.take(j + 1) =~= (diff_views(prefix) + bd.take(
                    j as int,
                )) + seq![bd[j as int]]);
            }
            j += 1;
        }
        proof {
            assert(bd.take(tl as int) =~= bd);
            assert(diff_views(out@) + diff_spec(
                views.subrange(i + 1, n as int),
                source_base@,
                dest@,
                probes@.skip(out@.len() as int),
            ) =~= diff_views(prefix) + (bd + diff_spec(
                views.subrange(i + 1, n as int),
                source_base@,
                dest@,
                probes@.skip(kp + tl),
            )));
        }
        i += 1;
    }
    proof {
        assert(views.subrange(n as int, n as int).len() == 0);
        assert(diff_spec(
            views.subrange(n as int, n as int),
            source_base@,
            dest@,
            probes@.skip(out@.len() as int),
        ).len() == 0);
        assert(diff_views(out@) + diff_spec(
            views.subrange(n as int, n as int),
            source_base@,
            dest@,
            probes@.skip(out@.len() as int),
        ) =~= diff_views(out@));
    }
    out
}

} // verus!

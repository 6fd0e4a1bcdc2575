//! The export planner: from the catalog, the two roots, the run mode
//! and the existence probes, compute every filesystem operation the
//! export would perform and the statistics it accumulates. The caller
//! performs the operations in order; every decision is taken — and
//! specified — here.

use vstd::prelude::*;

use crate::catalog::{book_view, book_views, Audiobook, BookV};
use crate::diff::{total_tracks, FsProbe};
use crate::paths::{create_audiobookshelf_path, dest_dir_seq, join_path, joined, remap_track_path,
    remapped};

verus! {

/// Counters of one export run.
///
/// `files_missing` is carried for reporting, but the planner counts a
/// track whose source is absent under `source_missing`; the two
/// similarly named fields are deliberately kept distinct.
#[derive(Debug, Clone)]
pub struct ExportStats {
    pub books_exported: usize,
    pub files_copied: usize,
    pub files_would_copy: usize,
    pub files_missing: usize,
    pub files_already_exist: usize,
    pub source_missing: usize,
}

impl Default for ExportStats {
    /// All counters start at zero.
    fn default() -> (r: ExportStats)
        ensures
            stats_view(r) == zero_stats(),
    {
        ExportStats {
            books_exported: 0,
            files_copied: 0,
            files_would_copy: 0,
            files_missing: 0,
            files_already_exist: 0,
            source_missing: 0,
        }
    }
}

/// The statistics as mathematical values.
pub ghost struct StatsV {
    pub books_exported: nat,
    pub files_copied: nat,
    pub files_would_copy: nat,
    pub files_missing: nat,
    pub files_already_exist: nat,
    pub source_missing: nat,
}

/// The mathematical value of the statistics.
pub open spec fn stats_view(s: ExportStats) -> StatsV {
    StatsV {
        books_exported: s.books_exported as nat,
        files_copied: s.files_copied as nat,
        files_would_copy: s.files_would_copy as nat,
        files_missing: s.files_missing as nat,
        files_already_exist: s.files_already_exist as nat,
        source_missing: s.source_missing as nat,
    }
}

/// All counters zero.
pub open spec fn zero_stats() -> StatsV {
    StatsV {
        books_exported: 0,
        files_copied: 0,
        files_would_copy: 0,
        files_missing: 0,
        files_already_exist: 0,
        source_missing: 0,
    }
}

/// What the export does with one track.
#[derive(Debug, Clone, Copy, PartialEq, Eq, Structural)]
pub enum TrackAction {
    /// Dry run: report only.
    WouldCopy,
    /// Source file absent: warn and continue.
    SourceMissing,
    /// Destination already present: skip, never overwrite.
    AlreadyExists,
    /// Copy the file.
    CopyFile,
    /// Create a symbolic link instead of copying.
    LinkFile,
}

/// One filesystem operation of a planned export, in order.
#[derive(Debug, Clone)]
pub enum FsOp {
    /// Create this directory and its missing ancestors.
    MkDirAll(String),
    /// Copy the first path to the second.
    CopyFile(String, String),
    /// Create at the second path a symbolic link to the first.
    LinkFile(String, String),
}

/// A filesystem operation as a mathematical value.
pub ghost enum OpV {
    MkDirAll(Seq<char>),
    CopyFile(Seq<char>, Seq<char>),
    LinkFile(Seq<char>, Seq<char>),
}

/// The mathematical value of one operation.
pub open spec fn op_view(o: FsOp) -> OpV {
    match o {
        FsOp::MkDirAll(p) => OpV::MkDirAll(p@),
        FsOp::CopyFile(a, b) => OpV::CopyFile(a@, b@),
        FsOp::LinkFile(a, b) => OpV::LinkFile(a@, b@),
    }
}

/// The mathematical values of a sequence of operations.
pub open spec fn op_views(s: Seq<FsOp>) -> Seq<OpV> {
    s.map_values(|o: FsOp| op_view(o))
}

/// What happens to one track: a dry run only reports; else a missing
/// source is warned about, an existing destination is skipped, and
/// otherwise the file is copied or linked.
pub open spec fn plan_action(dry_run: bool, use_link: bool, p: FsProbe) -> TrackAction {
    if dry_run {
        TrackAction::WouldCopy
    } else if !p.source_exists {
        TrackAction::SourceMissing
    } else if p.dest_exists {
        TrackAction::AlreadyExists
    } else if use_link {
        TrackAction::LinkFile
    } else {
        TrackAction::CopyFile
    }
}

/// Executable form of [`plan_action`].
pub fn plan_track_action(dry_run: bool, use_link: bool, p: FsProbe) -> (a: TrackAction)
    ensures
        a == plan_action(dry_run, use_link, p),
{
    if dry_run {
        TrackAction::WouldCopy
    } else if !p.source_exists {
        TrackAction::SourceMissing
    } else if p.dest_exists {
        TrackAction::AlreadyExists
    } else if use_link {
        TrackAction::LinkFile
    } else {
        TrackAction::CopyFile
    }
}

/// One action's effect on the counters.
pub open spec fn bump(s: StatsV, a: TrackAction) -> StatsV {
    match a {
        TrackAction::WouldCopy => StatsV { files_would_copy: s.files_would_copy + 1, ..s },
        TrackAction::SourceMissing => StatsV { source_missing: s.source_missing + 1, ..s },
        TrackAction::AlreadyExists => StatsV {
            files_already_exist: s.files_already_exist + 1,
            ..s
        },
        TrackAction::CopyFile => StatsV { files_copied: s.files_copied + 1, ..s },
        TrackAction::LinkFile => StatsV { files_copied: s.files_copied + 1, ..s },
    }
}

/// Finishing a book increments the book counter.
pub open spec fn book_bump(s: StatsV) -> StatsV {
    StatsV { books_exported: s.books_exported + 1, ..s }
}

/// The counters after folding one probe after another into `acc`.
pub open spec fn stats_after_probes(
    probes: Seq<FsProbe>,
    dry_run: bool,
    use_link: bool,
    acc: StatsV,
) -> StatsV
    decreases probes.len(),
{
    if probes.len() == 0 {
        acc
    } else {
        stats_after_probes(
            probes.drop_first(),
            dry_run,
            use_link,
            bump(acc, plan_action(dry_run, use_link, probes[0])),
        )
    }
}

/// The operation, if any, that track `j` of book `b` demands.
pub open spec fn track_op(
    b: BookV,
    j: int,
    source_base: Seq<char>,
    dest: Seq<char>,
    dry_run: bool,
    use_link: bool,
    probe: FsProbe,
) -> Option<OpV> {
    let src = remapped(b.tracks[j].path, source_base);
    let dst = joined(dest_dir_seq(dest, b.author, b.title, b.narrator), b.tracks[j].filename);
    match plan_action(dry_run, use_link, probe) {
        TrackAction::CopyFile => Some(OpV::CopyFile(src, dst)),
        TrackAction::LinkFile => Some(OpV::LinkFile(src, dst)),
        _ => None,
    }
}

/// The operations of book `b`'s tracks from index `j` on, its probes
/// aligned with its tracks.
pub open spec fn book_track_ops(
    b: BookV,
    source_base: Seq<char>,
    dest: Seq<char>,
    dry_run: bool,
    use_link: bool,
    probes: Seq<FsProbe>,
    j: int,
) -> Seq<OpV>
    decreases b.tracks.len() - j,
{
    if j < 0 || j >= b.tracks.len() {
        Seq::<OpV>::empty()
    } else {
        (match track_op(b, j, source_base, dest, dry_run, use_link, probes[j]) {
            Some(o) => seq![o],
            None => Seq::<OpV>::empty(),
        }) + book_track_ops(b, source_base, dest, dry_run, use_link, probes, j + 1)
    }
}

/// Every operation of a whole export, in the order it is performed:
/// for each book, its destination directory is created unless the run
/// is dry, then its tracks are handled in order.
pub open spec fn export_ops(
    books: Seq<BookV>,
    source_base: Seq<char>,
    dest: Seq<char>,
    dry_run: bool,
    use_link: bool,
    probes: Seq<FsProbe>,
) -> Seq<OpV>
    decreases books.len(),
{
    if books.len() == 0 {
        Seq::<OpV>::empty()
    } else {
        let tl = books[0].tracks.len() as int;
        let mk: Seq<OpV> = if dry_run {
            Seq::<OpV>::empty()
        } else {
            seq![
                OpV::MkDirAll(dest_dir_seq(dest, books[0].author, books[0].title, books[0].narrator)),
            ]
        };
        mk + book_track_ops(books[0], source_base, dest, dry_run, use_link, probes.take(tl), 0)
            + export_ops(books.drop_first(), source_base, dest, dry_run, use_link, probes.skip(tl))
    }
}

/// The counters of a whole export, folded book by book into `acc`.
pub open spec fn export_stats(
    books: Seq<BookV>,
    dry_run: bool,
    use_link: bool,
    probes: Seq<FsProbe>,
    acc: StatsV,
) -> StatsV
    decreases books.len(),
{
    if books.len() == 0 {
        acc
    } else {
        let tl = books[0].tracks.len() as int;
        export_stats(
            books.drop_first(),
            dry_run,
            use_link,
            probes.skip(tl),
            book_bump(stats_after_probes(probes.take(tl), dry_run, use_link, acc)),
        )
    }
}

proof fn lemma_track_ops_dry(
    b: BookV,
    source_base: Seq<char>,
    dest: Seq<char>,
    use_link: bool,
    probes: Seq<FsProbe>,
    j: int,
)
    ensures
        book_track_ops(b, source_base, dest, true, use_link, probes, j) == Seq::<OpV>::empty(),
    decreases b.tracks.len() - j,
{
    if !(j < 0 || j >= b.tracks.len()) {
        lemma_track_ops_dry(b, source_base, dest, use_link, probes, j + 1);
        assert(Seq::<OpV>::empty() + Seq::<OpV>::empty() =~= Seq::<OpV>::empty());
    }
}

proof fn lemma_stats_dry(probes: Seq<FsProbe>, use_link: bool, acc: StatsV)
    ensures
        stats_after_probes(probes, true, use_link, acc) == (StatsV {
            files_would_copy: acc.files_would_copy + probes.len(),
            ..acc
        }),
    decreases probes.len(),
{
    if probes.len() > 0 {
        lemma_stats_dry(
            probes.drop_first(),
            use_link,
            bump(acc, plan_action(true, use_link, probes[0])),
        );
    }
}

/// A dry run never touches the filesystem: it plans not a single
/// operation — no directory is created, nothing is copied or linked —
/// and its statistics only report what a real run would copy: one
/// would-copy per track, one book per book, nothing counted as
/// copied.
pub proof fn lemma_dry_run_plans_nothing(
    books: Seq<BookV>,
    source_base: Seq<char>,
    dest: Seq<char>,
    use_link: bool,
    probes: Seq<FsProbe>,
    acc: StatsV,
)
    requires
        probes.len() == total_tracks(books),
    ensures
        export_ops(books, source_base, dest, true, use_link, probes) == Seq::<OpV>::empty(),
        export_stats(books, true, use_link, probes, acc) == (StatsV {
            files_would_copy: acc.files_would_copy + total_tracks(books),
            books_exported: acc.books_exported + books.len(),
            ..acc
        }),
    decreases books.len(),
{
    if books.len() == 0 {
        assert(export_stats(books, true, use_link, probes, acc) =~= (StatsV {
            files_would_copy: acc.files_would_copy + total_tracks(books),
            books_exported: acc.books_exported + books.len(),
            ..acc
        }));
    } else {
        let tl = books[0].tracks.len() as int;
        lemma_track_ops_dry(books[0], source_base, dest, use_link, probes.take(tl), 0);
        lemma_stats_dry(probes.take(tl), use_link, acc);
        let acc1 = book_bump(stats_after_probes(probes.take(tl), true, use_link, acc));
        lemma_dry_run_plans_nothing(
            books.drop_first(),
            source_base,
            dest,
            use_link,
            probes.skip(tl),
            acc1,
        );
        assert(Seq::<OpV>::empty() + Seq::<OpV>::empty() + Seq::<OpV>::empty() =~= Seq::<
            OpV,
        >::empty());
        assert(export_stats(books, true, use_link, probes, acc) =~= (StatsV {
            files_would_copy: acc.files_would_copy + total_tracks(books),
            books_exported: acc.books_exported + books.len(),
            ..acc
        }));
    }
}

proof fn lemma_track_ops_all_dest(
    b: BookV,
    source_base: Seq<char>,
    dest: Seq<char>,
    use_link: bool,
    probes: Seq<FsProbe>,
    j: int,
)
    requires
        b.tracks.len() <= probes.len(),
        forall|x: int| 0 <= x < probes.len() ==> (#[trigger] probes[x]).dest_exists,
    ensures
        book_track_ops(b, source_base, dest, false, use_link, probes, j) == Seq::<OpV>::empty(),
    decreases b.tracks.len() - j,
{
    if !(j < 0 || j >= b.tracks.len()) {
        lemma_track_ops_all_dest(b, source_base, dest, use_link, probes, j + 1);
        assert(probes[j].dest_exists);
        assert(Seq::<OpV>::empty() + Seq::<OpV>::empty() =~= Seq::<OpV>::empty());
    }
}

proof fn lemma_stats_all_dest(probes: Seq<FsProbe>, use_link: bool, acc: StatsV)
    requires
        forall|x: int| 0 <= x < probes.len() ==> (#[trigger] probes[x]).dest_exists,
    ensures
        stats_after_probes(probes, false, use_link, acc).files_copied == acc.files_copied,
    decreases probes.len(),
{
    if probes.len() > 0 {
        let rest = probes.drop_first();
        assert(forall|x: int| 0 <= x < rest.len() ==> (#[trigger] rest[x]).dest_exists) by {
            assert(forall|x: int| 0 <= x < rest.len() ==> rest[x] == probes[x + 1]);
        }
        lemma_stats_all_dest(rest, use_link, bump(acc, plan_action(false, use_link, probes[0])));
    }
}

/// Running the export again when every destination file is already
/// present copies nothing: the plan holds no copy and no link — only
/// the directory creations, which find their directories already
/// there — and the count of copied files stays at zero.
pub proof fn lemma_second_run_copies_nothing(
    books: Seq<BookV>,
    source_base: Seq<char>,
    dest: Seq<char>,
    use_link: bool,
    probes: Seq<FsProbe>,
    acc: StatsV,
)
    requires
        probes.len() == total_tracks(books),
        forall|x: int| 0 <= x < probes.len() ==> (#[trigger] probes[x]).dest_exists,
    ensures
        forall|x: int|
            0 <= x < export_ops(books, source_base, dest, false, use_link, probes).len()
                ==> (#[trigger] export_ops(books, source_base, dest, false, use_link, probes)[x])
                is MkDirAll,
        export_stats(books, false, use_link, probes, acc).files_copied == acc.files_copied,
    decreases books.len(),
{
    if books.len() > 0 {
        let tl = books[0].tracks.len() as int;
        let taken = probes.take(tl);
        let rest = probes.skip(tl);
        assert(forall|x: int| 0 <= x < taken.len() ==> (#[trigger] taken[x]).dest_exists) by {
            assert(forall|x: int| 0 <= x < taken.len() ==> taken[x] == probes[x]);
        }
        assert(forall|x: int| 0 <= x < rest.len() ==> (#[trigger] rest[x]).dest_exists) by {
            assert(forall|x: int| 0 <= x < rest.len() ==> rest[x] == probes[x + tl]);
        }
        lemma_track_ops_all_dest(books[0], source_base, dest, use_link, taken, 0);
        lemma_stats_all_dest(taken, use_link, acc);
        let acc1 = book_bump(stats_after_probes(taken, false, use_link, acc));
        lemma_second_run_copies_nothing(
            books.drop_first(),
            source_base,
            dest,
            use_link,
            rest,
            acc1,
        );
        let mk: Seq<OpV> = seq![
            OpV::MkDirAll(dest_dir_seq(dest, books[0].author, books[0].title, books[0].narrator)),
        ];
        let recops = export_ops(books.drop_first(), source_base, dest, false, use_link, rest);
        assert(export_ops(books, source_base, dest, false, use_link, probes) =~= mk + recops);
        assert(forall|x: int|
            0 <= x < (mk + recops).len() ==> (#[trigger] (mk + recops)[x]) is MkDirAll) by {
            assert(forall|x: int|
                1 <= x < (mk + recops).len() ==> (mk + recops)[x] == recops[x - 1]);
        }
    }
}

/// Plan a whole export run: the filesystem operations to perform, in
/// order, and the statistics the run accumulates. Pure: the caller
/// probes existence of the planned paths (in catalog order, as listed
/// by [`crate::diff::plan_paths`]) and performs the returned
/// operations, aborting on the first hard failure.
pub fn plan_export(
    audiobooks: &Vec<Audiobook>,
    source_base: &str,
    dest: &str,
    dry_run: bool,
    use_link: bool,
    probes: &Vec<FsProbe>,
) -> (r: (Vec<FsOp>, ExportStats))
    requires
        probes@.len() == total_tracks(book_views(audiobooks@)),
    ensures
        op_views(r.0@) == export_ops(
            book_views(audiobooks@),
            source_base@,
            dest@,
            dry_run,
            use_link,
            probes@,
        ),
        stats_view(r.1) == export_stats(
            book_views(audiobooks@),
            dry_run,
            use_link,
            probes@,
            zero_stats(),
        ),
{
    let ghost views = book_views(audiobooks@);
    let mut ops: Vec<FsOp> = Vec::new();
    let mut stats = ExportStats::default();
    let n = audiobooks.len();
    let pn = probes.len();
    let mut i: usize = 0;
    let mut k: usize = 0;
    proof {
        assert(op_views(ops@) =~= Seq::<OpV>::empty());
        assert(views.subrange(0, n as int) =~= views);
        assert(probes@.skip(0) =~= probes@);
    }
    while i < n
        invariant
            0 <= i <= n,
            n == audiobooks@.len(),
            views == book_views(audiobooks@),
            pn == probes@.len(),
            probes@.len() == total_tracks(views),
            k + total_tracks(views.subrange(i as int, n as int)) == probes@.len(),
            export_ops(views, source_base@, dest@, dry_run, use_link, probes@) == op_views(ops@)
                + export_ops(
                views.subrange(i as int, n as int),
                source_base@,
                dest@,
                dry_run,
                use_link,
                probes@.skip(k as int),
            ),
            export_stats(views, dry_run, use_link, probes@, zero_stats()) == export_stats(
                views.subrange(i as int, n as int),
                dry_run,
                use_link,
                probes@.skip(k as int),
                stats_view(stats),
            ),
            stats.files_copied + stats.files_would_copy + stats.files_already_exist
                + stats.source_missing == k,
            stats.books_exported == i,
            stats.files_missing == 0,
        decreases n - i,
    {
        proof {
            let suf = views.subrange(i as int, n as int);
            assert(suf[0] == views[i as int]);
            assert(suf.drop_first() =~= views.subrange(i + 1, n as int));
            assert(views[i as int] == book_view(audiobooks@[i as int]));
        }
        let book = &audiobooks[i];
        let dest_dir = create_audiobookshelf_path(dest, book);
        let tl = book.tracks.len();
        let ghost kp = k as int;
        let ghost bprobes = probes@.subrange(kp, kp + tl);
        let ghost prefix = op_views(ops@);
        let ghost acc0 = stats_view(stats);
        proof {
            let rest = probes@.skip(kp);
            assert(rest.take(tl as int) =~= bprobes);
            assert(rest.skip(tl as int) =~= probes@.skip(kp + tl));
        }
        if !dry_run {
            ops.push(FsOp::MkDirAll(dest_dir.clone()));
        }
        let ghost prefix2 = op_views(ops@);
        let ghost mk: Seq<OpV> = if dry_run {
            Seq::<OpV>::empty()
        } else {
            seq![OpV::MkDirAll(dest_dir@)]
        };
        let ghost mut built: Seq<OpV> = Seq::<OpV>::empty();
        proof {
            assert(prefix2 =~= prefix + mk);
            assert(op_views(ops@) =~= prefix2 + built);
            let suf = views.subrange(i as int, n as int);
            assert(total_tracks(suf) == suf[0].tracks.len() + total_tracks(suf.drop_first()));
            assert(bprobes.len() == tl);
            assert(bprobes.skip(0) =~= bprobes);
        }
        let mut j: usize = 0;
        while j < tl
            invariant
                0 <= j <= tl,
                i < n,
                n == audiobooks@.len(),
                views == book_views(audiobooks@),
                book == audiobooks@[i as int],
                tl == audiobooks@[i as int].tracks@.len(),
                views[i as int] == book_view(audiobooks@[i as int]),
                pn == probes@.len(),
                probes@.len() == total_tracks(views),
                kp + tl + total_tracks(views.subrange(i + 1, n as int)) == probes@.len(),
                k == kp + j,
                0 <= kp,
                bprobes == probes@.subrange(kp, kp + tl),
                bprobes.len() == tl,
                prefix2 == prefix + mk,
                dest_dir@ == dest_dir_seq(
                    dest@,
                    views[i as int].author,
                    views[i as int].title,
                    views[i as int].narrator,
                ),
                export_ops(views, source_base@, dest@, dry_run, use_link, probes@) == prefix
                    + export_ops(
                    views.subrange(i as int, n as int),
                    source_base@,
                    dest@,
                    dry_run,
                    use_link,
                    probes@.skip(kp),
                ),
                export_ops(
                    views.subrange(i as int, n as int),
                    source_base@,
                    dest@,
                    dry_run,
                    use_link,
                    probes@.skip(kp),
                ) == mk + book_track_ops(
                    views[i as int],
                    source_base@,
                    dest@,
                    dry_run,
                    use_link,
                    bprobes,
                    0,
                ) + export_ops(
                    views.subrange(i + 1, n as int),
                    source_base@,
                    dest@,
                    dry_run,
                    use_link,
                    probes@.skip(kp + tl),
                ),
                op_views(ops@) == prefix2 + built,
                book_track_ops(
                    views[i as int],
                    source_base@,
                    dest@,
                    dry_run,
                    use_link,
                    bprobes,
                    0,
                ) == built + book_track_ops(
                    views[i as int],
                    source_base@,
                    dest@,
                    dry_run,
                    use_link,
                    bprobes,
                    j as int,
                ),
                export_stats(views, dry_run, use_link, probes@, zero_stats()) == export_stats(
                    views.subrange(i as int, n as int),
                    dry_run,
                    use_link,
                    probes@.skip(kp),
                    acc0,
                ),
                stats_after_probes(bprobes, dry_run, use_link, acc0) == stats_after_probes(
                    bprobes.skip(j as int),
                    dry_run,
                    use_link,
                    stats_view(stats),
                ),
                stats.files_copied + stats.files_would_copy + stats.files_already_exist
                    + stats.source_missing == k,
                stats.books_exported == i,
                stats.files_missing == 0,
            decreases tl - j,
        {
            let ghost before = op_views(ops@);
            let track = &book.tracks[j];
            let probe = probes[k];
            let action = plan_track_action(dry_run, use_link, probe);
            proof {
                assert(bprobes[j as int] == probes@[kp + j]);
                assert(views[i as int].tracks[j as int] == crate::catalog::track_view(
                    audiobooks@[i as int].tracks@[j as int],
                ));
                assert(bprobes.skip(j as int)[0] == bprobes[j as int]);
                assert(bprobes.skip(j as int).drop_first() =~= bprobes.skip(j + 1));
            }
            match action {
                TrackAction::CopyFile => {
                    let src = remap_track_path(track.path.as_str(), source_base);
                    let dst = join_path(dest_dir.as_str(), track.filename.as_str());
                    let ghost o = OpV::CopyFile(src@, dst@);
                    ops.push(FsOp::CopyFile(src, dst));
                    stats.files_copied += 1;
                    proof {
                        assert(op_views(ops@) =~= before + seq![o]);
                        built = built + seq![o];
                        assert(op_views(ops@) =~= prefix2 + built);
                    }
                },
                TrackAction::LinkFile => {
                    let src = remap_track_path(track.path.as_str(), source_base);
                    let dst = join_path(dest_dir.as_str(), track.filename.as_str());
                    let ghost o = OpV::LinkFile(src@, dst@);
                    ops.push(FsOp::LinkFile(src, dst));
                    stats.files_copied += 1;
                    proof {
                        assert(op_views(ops@) =~= before + seq![o]);
                        built = built + seq![o];
                        assert(op_views(ops@) =~= prefix2 + built);
                    }
                },
                TrackAction::WouldCopy => {
                    stats.files_would_copy += 1;
                },
                TrackAction::SourceMissing => {
                    stats.source_missing += 1;
                },
                TrackAction::AlreadyExists => {
                    stats.files_already_exist += 1;
                },
            }
            proof {
                let b = views[i as int];
                let tops_j = book_track_ops(
                    b,
                    source_base@,
                    dest@,
                    dry_run,
                    use_link,
                    bprobes,
                    j as int,
                );
                let tops_j1 = book_track_ops(
                    b,
                    source_base@,
                    dest@,
                    dry_run,
                    use_link,
                    bprobes,
                    j + 1,
                );
                match track_op(b, j as int, source_base@, dest@, dry_run, use_link,
                    bprobes[j as int]) {
                    Some(o) => {
                        assert(tops_j == seq![o] + tops_j1);
                    },
                    None => {
                        assert(tops_j =~= Seq::<OpV>::empty() + tops_j1);
                        assert(tops_j =~= tops_j1);
                    },
                }
            }
            k += 1;
            j += 1;
        }
        proof {
            let b = views[i as int];
            assert(book_track_ops(b, source_base@, dest@, dry_run, use_link, bprobes, tl as int)
                =~= Seq::<OpV>::empty());
            assert(built + Seq::<OpV>::empty() =~= built);
            assert(bprobes.skip(tl as int).len() == 0);
            assert(stats_after_probes(bprobes, dry_run, use_link, acc0) == stats_view(stats));
        }
        stats.books_exported += 1;
        i += 1;
        proof {
            assert(op_views(ops@) =~= prefix + (mk + built));
            assert(prefix + (mk + built) =~= prefix + mk + built);
            assert(stats_view(stats) == book_bump(stats_after_probes(
                bprobes,
                dry_run,
                use_link,
                acc0,
            )));
        }
    }
    proof {
        assert(views.subrange(n as int, n as int).len() == 0);
        assert(op_views(ops@) + export_ops(
            views.subrange(n as int, n as int),
            source_base@,
            dest@,
            dry_run,
            use_link,
            probes@.skip(k as int),
        ) =~= op_views(ops@));
    }
    (ops, stats)
}

} // verus!

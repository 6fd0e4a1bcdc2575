//! The diff summary: group diff entries by book, count files per
//! group and per category, and order the group keys
//! lexicographically for display. Printing is the caller's concern;
//! every number and every ordering shown is computed here.

use vstd::prelude::*;

use crate::diff::{diff_view, diff_views, DiffV, FileDiff, FileStatus};

verus! {

/// How many book groups the additions listing shows at most.
pub const ADD_DISPLAY_CAP: usize = 20;

/// How many books the existing and missing listings show at most.
pub const BOOK_DISPLAY_CAP: usize = 10;

/// The key a diff entry is grouped under.
pub open spec fn group_key(d: DiffV) -> Seq<char> {
    d.author + " - "@ + d.book_title
}

/// How many entries of `ds` carry the status `st`.
pub open spec fn count_status(ds: Seq<DiffV>, st: FileStatus) -> nat
    decreases ds.len(),
{
    if ds.len() == 0 {
        0
    } else {
        (if ds[0].status == st {
            1nat
        } else {
            0nat
        }) + count_status(ds.drop_first(), st)
    }
}

/// How many entries of `ds` carry the status `st` and the key `k`.
pub open spec fn count_key(ds: Seq<DiffV>, st: FileStatus, k: Seq<char>) -> nat
    decreases ds.len(),
{
    if ds.len() == 0 {
        0
    } else {
        (if ds[0].status == st && group_key(ds[0]) == k {
            1nat
        } else {
            0nat
        }) + count_key(ds.drop_first(), st, k)
    }
}

/// The distinct group keys of the entries with status `st`, appended
/// to `acc` in first-occurrence order.
pub open spec fn dkeys_acc(ds: Seq<DiffV>, st: FileStatus, acc: Seq<Seq<char>>) -> Seq<Seq<char>>
    decreases ds.len(),
{
    if ds.len() == 0 {
        acc
    } else {
        let k = group_key(ds[0]);
        dkeys_acc(
            ds.drop_first(),
            st,
            if ds[0].status == st && !acc.contains(k) {
                acc.push(k)
            } else {
                acc
            },
        )
    }
}

/// The distinct group keys of the entries with status `st`, in
/// first-occurrence order.
pub open spec fn distinct_keys(ds: Seq<DiffV>, st: FileStatus) -> Seq<Seq<char>> {
    dkeys_acc(ds, st, Seq::<Seq<char>>::empty())
}

/// Each distinct key with the number of files it groups.
pub open spec fn key_counts(ds: Seq<DiffV>, st: FileStatus) -> Seq<(Seq<char>, nat)> {
    distinct_keys(ds, st).map_values(|k: Seq<char>| (k, count_key(ds, st, k)))
}

/// `a` sorts at or before `b`: character by character by code point,
/// a prefix before anything it prefixes.
pub open spec fn lex_le(a: Seq<char>, b: Seq<char>) -> bool
    decreases a.len(),
{
    if a.len() == 0 {
        true
    } else if b.len() == 0 {
        false
    } else if a[0] == b[0] {
        lex_le(a.drop_first(), b.drop_first())
    } else {
        (a[0] as u32) < (b[0] as u32)
    }
}

/// Dropping an equal prefix of both strings leaves their order
/// unchanged.
proof fn lemma_lex_le_common_prefix(a: Seq<char>, b: Seq<char>, i: int)
    requires
        0 <= i <= a.len(),
        i <= b.len(),
        forall|j: int| 0 <= j < i ==> a[j] == b[j],
    ensures
        lex_le(a, b) == lex_le(a.skip(i), b.skip(i)),
    decreases i,
{
    if i > 0 {
        assert(a.len() > 0 && b.len() > 0 && a[0] == b[0]);
        let a1 = a.drop_first();
        let b1 = b.drop_first();
        assert(forall|j: int| 0 <= j < i - 1 ==> a1[j] == b1[j]);
        lemma_lex_le_common_prefix(a1, b1, i - 1);
        assert(a1.skip(i - 1) =~= a.skip(i));
        assert(b1.skip(i - 1) =~= b.skip(i));
    } else {
        assert(a.skip(0) =~= a);
        assert(b.skip(0) =~= b);
    }
}

/// Whether `a` sorts at or before `b`, decided character by character.
pub fn str_le(a: &str, b: &str) -> (r: bool)
    ensures
        r == lex_le(a@, b@),
{
    let alen = a.unicode_len();
    let blen = b.unicode_len();
    let mut i: usize = 0;
    while i < alen && i < blen
        invariant
            0 <= i <= alen,
            i <= blen,
            alen == a@.len(),
            blen == b@.len(),
            forall|j: int| 0 <= j < i ==> a@[j] == b@[j],
        decreases alen - i,
    {
        let ca = a.get_char(i);
        let cb = b.get_char(i);
        if ca != cb {
            proof {
                lemma_lex_le_common_prefix(a@, b@, i as int);
                assert(a@.skip(i as int)[0] == a@[i as int]);
                assert(b@.skip(i as int)[0] == b@[i as int]);
            }
            return (ca as u32) < (cb as u32);
        }
        i += 1;
    }
    proof {
        lemma_lex_le_common_prefix(a@, b@, i as int);
        if i == alen {
            assert(a@.skip(i as int).len() == 0);
        } else {
            assert(b@.skip(i as int).len() == 0);
            assert(a@.skip(i as int).len() > 0);
        }
    }
    alen <= blen
}

/// `x` placed into `s` directly before the first entry whose key it
/// may precede.
pub open spec fn insert_pair(x: (Seq<char>, nat), s: Seq<(Seq<char>, nat)>) -> Seq<
    (Seq<char>, nat),
>
    decreases s.len(),
{
    if s.len() == 0 {
        seq![x]
    } else if lex_le(x.0, s[0].0) {
        seq![x] + s
    } else {
        seq![s[0]] + insert_pair(x, s.drop_first())
    }
}

/// Insertion sort of keyed counts by key.
pub open spec fn sort_pairs(s: Seq<(Seq<char>, nat)>) -> Seq<(Seq<char>, nat)>
    decreases s.len(),
{
    if s.len() == 0 {
        s
    } else {
        insert_pair(s[0], sort_pairs(s.drop_first()))
    }
}

/// The groups of each category, keys sorted lexicographically, and
/// the file totals of each category.
pub open spec fn report_groups(ds: Seq<DiffV>, st: FileStatus) -> Seq<(Seq<char>, nat)> {
    sort_pairs(key_counts(ds, st))
}

/// The mathematical values of a vector of keyed counts.
pub open spec fn group_views(s: Seq<(String, usize)>) -> Seq<(Seq<char>, nat)> {
    s.map_values(|p: (String, usize)| (p.0@, p.1 as nat))
}

/// The mathematical values of a vector of keys.
pub open spec fn key_views(s: Seq<String>) -> Seq<Seq<char>> {
    s.map_values(|k: String| k@)
}

proof fn lemma_insert_pair_at(x: (Seq<char>, nat), s: Seq<(Seq<char>, nat)>, j: int)
    requires
        0 <= j <= s.len(),
        forall|k: int| 0 <= k < j ==> !lex_le(x.0, (#[trigger] s[k]).0),
        j < s.len() ==> lex_le(x.0, s[j].0),
    ensures
        insert_pair(x, s) == s.insert(j, x),
    decreases s.len(),
{
    if j == 0 {
        if s.len() == 0 {
            assert(insert_pair(x, s) =~= s.insert(0, x));
        } else {
            assert(seq![x] + s =~= s.insert(0, x));
        }
    } else {
        let rest = s.drop_first();
        lemma_insert_pair_at(x, rest, j - 1);
        assert(seq![s[0]] + rest.insert(j - 1, x) =~= s.insert(j, x));
    }
}

/// Insert one keyed count into a vector already sorted by key.
fn insert_group(x: (String, usize), out: &mut Vec<(String, usize)>)
    ensures
        group_views(final(out)@) == insert_pair(
            (x.0@, x.1 as nat),
            group_views(old(out)@),
        ),
{
    let ghost s = group_views(old(out)@);
    let ghost xv = (x.0@, x.1 as nat);
    let mut j: usize = 0;
    while j < out.len() && !str_le(x.0.as_str(), out[j].0.as_str())
        invariant
            0 <= j <= out@.len(),
            group_views(out@) == s,
            out@ == old(out)@,
            xv == (x.0@, x.1 as nat),
            forall|k: int| 0 <= k < j ==> !lex_le(xv.0, (#[trigger] s[k]).0),
        decreases out@.len() - j,
    {
        proof {
            assert(s[j as int] == (out@[j as int].0@, out@[j as int].1 as nat));
        }
        j += 1;
    }
    proof {
        assert(j < out@.len() ==> s[j as int] == (out@[j as int].0@, out@[j as int].1 as nat));
        lemma_insert_pair_at(xv, s, j as int);
    }
    out.insert(j, x);
    proof {
        assert(group_views(out@) =~= s.insert(j as int, xv));
    }
}

/// Sort keyed counts by key, lexicographically.
fn sort_groups(groups: Vec<(String, usize)>) -> (r: Vec<(String, usize)>)
    ensures
        group_views(r@) == sort_pairs(group_views(groups@)),
{
    let ghost orig = group_views(groups@);
    let mut src = groups;
    let mut out: Vec<(String, usize)> = Vec::new();
    proof {
        assert(orig.subrange(orig.len() as int, orig.len() as int) =~= Seq::<
            (Seq<char>, nat),
        >::empty());
        assert(group_views(out@) =~= Seq::<(Seq<char>, nat)>::empty());
    }
    while src.len() > 0
        invariant
            group_views(src@) == orig.subrange(0, src@.len() as int),
            src@.len() <= orig.len(),
            group_views(out@) == sort_pairs(orig.subrange(src@.len() as int, orig.len() as int)),
        decreases src@.len(),
    {
        let ghost i = src@.len() as int;
        let x = src.pop().unwrap();
        proof {
            assert(group_views(src@.push(x)) == orig.subrange(0, i));
            assert((x.0@, x.1 as nat) == group_views(src@.push(x))[i - 1]);
            assert(group_views(src@) =~= orig.subrange(0, i - 1));
            let t = orig.subrange(i - 1, orig.len() as int);
            assert(t[0] == orig[i - 1]);
            assert(t.drop_first() =~= orig.subrange(i, orig.len() as int));
        }
        insert_group(x, &mut out);
    }
    proof {
        assert(orig.subrange(0, orig.len() as int) =~= orig);
    }
    out
}

/// The group key of one diff entry: `author - title`.
fn make_group_key(d: &FileDiff) -> (r: String)
    ensures
        r@ == group_key(diff_view(*d)),
{
    d.author.clone().concat(" - ").concat(d.book_title.as_str())
}

/// How many entries carry the status `st`.
fn count_with_status(diffs: &Vec<FileDiff>, st: FileStatus) -> (c: usize)
    ensures
        c as nat == count_status(diff_views(diffs@), st),
{
    let ghost ds = diff_views(diffs@);
    let n = diffs.len();
    let mut c: usize = 0;
    let mut m: usize = 0;
    proof {
        assert(ds.skip(0) =~= ds);
    }
    while m < n
        invariant
            0 <= m <= n,
            n == diffs@.len(),
            ds == diff_views(diffs@),
            c <= m,
            count_status(ds, st) == c + count_status(ds.skip(m as int), st),
        decreases n - m,
    {
        proof {
            assert(ds.skip(m as int)[0] == ds[m as int]);
            assert(ds.skip(m as int).drop_first() =~= ds.skip(m + 1));
        }
        if diffs[m].status == st {
            c += 1;
        }
        m += 1;
    }
    proof {
        assert(ds.skip(n as int).len() == 0);
    }
    c
}

/// The distinct group keys among the entries with status `st`, in
/// first-occurrence order.
fn distinct_group_keys(diffs: &Vec<FileDiff>, st: FileStatus) -> (keys: Vec<String>)
    ensures
        key_views(keys@) == distinct_keys(diff_views(diffs@), st),
{
    let ghost ds = diff_views(diffs@);
    let n = diffs.len();
    let mut keys: Vec<String> = Vec::new();
    let mut m: usize = 0;
    proof {
        assert(ds.skip(0) =~= ds);
        assert(key_views(keys@) =~= Seq::<Seq<char>>::empty());
    }
    while m < n
        invariant
            0 <= m <= n,
            n == diffs@.len(),
            ds == diff_views(diffs@),
            distinct_keys(ds, st) == dkeys_acc(ds.skip(m as int), st, key_views(keys@)),
        decreases n - m,
    {
        proof {
            assert(ds.skip(m as int)[0] == ds[m as int]);
            assert(ds.skip(m as int).drop_first() =~= ds.skip(m + 1));
        }
        if diffs[m].status == st {
            let k = make_group_key(&diffs[m]);
            let kn = keys.len();
            let mut found = false;
            let mut t: usize = 0;
            while t < kn && !found
                invariant
                    0 <= t <= kn,
                    kn == keys@.len(),
                    !found ==> forall|j: int| 0 <= j < t ==> key_views(keys@)[j] != k@,
                    found ==> key_views(keys@).contains(k@),
                decreases kn - t,
            {
                if crate::text::str_eq(keys[t].as_str(), k.as_str()) {
                    found = true;
                    proof {
                        assert(key_views(keys@)[t as int] == k@);
                    }
                }
                t += 1;
            }
            if !found {
                proof {
                    assert(!key_views(keys@).contains(k@)) by {
                        assert(forall|j: int|
                            0 <= j < key_views(keys@).len() ==> key_views(keys@)[j] != k@);
                    }
                }
                let ghost before = keys@;
                keys.push(k);
                proof {
                    assert(key_views(keys@) =~= key_views(before).push(
                        group_key(ds[m as int]),
                    ));
                }
            }
        }
        m += 1;
    }
    proof {
        assert(ds.skip(n as int).len() == 0);
    }
    keys
}

/// How many entries carry the status `st` under the key `key`.
fn count_for_key(diffs: &Vec<FileDiff>, st: FileStatus, key: &String) -> (c: usize)
    ensures
        c as nat == count_key(diff_views(diffs@), st, key@),
{
    let ghost ds = diff_views(diffs@);
    let n = diffs.len();
    let mut c: usize = 0;
    let mut m: usize = 0;
    proof {
        assert(ds.skip(0) =~= ds);
    }
    while m < n
        invariant
            0 <= m <= n,
            n == diffs@.len(),
            ds == diff_views(diffs@),
            c <= m,
            count_key(ds, st, key@) == c + count_key(ds.skip(m as int), st, key@),
        decreases n - m,
    {
        proof {
            assert(ds.skip(m as int)[0] == ds[m as int]);
            assert(ds.skip(m as int).drop_first() =~= ds.skip(m + 1));
        }
        if diffs[m].status == st {
            let k = make_group_key(&diffs[m]);
            if crate::text::str_eq(k.as_str(), key.as_str()) {
                c += 1;
            }
        }
        m += 1;
    }
    proof {
        assert(ds.skip(n as int).len() == 0);
    }
    c
}

/// Each distinct key of status `st` with its file count, in
/// first-occurrence order.
fn group_counts(diffs: &Vec<FileDiff>, st: FileStatus) -> (g: Vec<(String, usize)>)
    ensures
        group_views(g@) == key_counts(diff_views(diffs@), st),
{
    let ghost ds = diff_views(diffs@);
    let keys = distinct_group_keys(diffs, st);
    let kn = keys.len();
    let mut g: Vec<(String, usize)> = Vec::new();
    let mut t: usize = 0;
    proof {
        assert(group_views(g@) =~= key_counts(ds, st).take(0));
    }
    while t < kn
        invariant
            0 <= t <= kn,
            kn == keys@.len(),
            ds == diff_views(diffs@),
            key_views(keys@) == distinct_keys(ds, st),
            group_views(g@) == key_counts(ds, st).take(t as int),
        decreases kn - t,
    {
        let ghost before = g@;
        let key = keys[t].clone();
        let c = count_for_key(diffs, st, &key);
        g.push((key, c));
        proof {
            assert(key_counts(ds, st)[t as int] == (
                distinct_keys(ds, st)[t as int],
                count_key(ds, st, distinct_keys(ds, st)[t as int]),
            ));
            assert(group_views(g@) =~= group_views(before).push(key_counts(ds, st)[t as int]));
            assert(key_counts(ds, st).take(t + 1) =~= key_counts(ds, st).take(t as int).push(
                key_counts(ds, st)[t as int],
            ));
        }
        t += 1;
    }
    proof {
        assert(key_counts(ds, st).take(kn as int) =~= key_counts(ds, st));
    }
    g
}

/// The diff summary: for each category its book groups, keys sorted
/// lexicographically with the number of files each groups, and the
/// file total of each category.
pub struct DiffReport {
    pub new_books: Vec<(String, usize)>,
    pub existing_books: Vec<(String, usize)>,
    pub missing_books: Vec<(String, usize)>,
    pub new_files: usize,
    pub existing_files: usize,
    pub missing_files: usize,
}

/// Summarize a diff for display: group each category's entries by
/// `author - title`, sort the group keys, and total the files.
pub fn build_diff_report(diffs: &Vec<FileDiff>) -> (r: DiffReport)
    ensures
        group_views(r.new_books@) == report_groups(diff_views(diffs@), FileStatus::New),
        group_views(r.existing_books@) == report_groups(diff_views(diffs@), FileStatus::Exists),
        group_views(r.missing_books@) == report_groups(
            diff_views(diffs@),
            FileStatus::SourceMissing,
        ),
        r.new_files as nat == count_status(diff_views(diffs@), FileStatus::New),
        r.existing_files as nat == count_status(diff_views(diffs@), FileStatus::Exists),
        r.missing_files as nat == count_status(diff_views(diffs@), FileStatus::SourceMissing),
{
    let new_books = sort_groups(group_counts(diffs, FileStatus::New));
    let existing_books = sort_groups(group_counts(diffs, FileStatus::Exists));
    let missing_books = sort_groups(group_counts(diffs, FileStatus::SourceMissing));
    let new_files = count_with_status(diffs, FileStatus::New);
    let existing_files = count_with_status(diffs, FileStatus::Exists);
    let missing_files = count_with_status(diffs, FileStatus::SourceMissing);
    DiffReport { new_books, existing_books, missing_books, new_files, existing_files, missing_files }
}

} // verus!

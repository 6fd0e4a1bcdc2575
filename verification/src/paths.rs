//! Pure path construction: sanitizing metadata text into path
//! segments, joining segments, taking the last segment of a path, and
//! remapping a recorded source path onto the actual source root.

use vstd::prelude::*;

use crate::catalog::Audiobook;
use crate::text::{
    find_first, find_substring, is_prefix, is_reserved_char, is_space_char, matches_at,
    lemma_find_first_spec, reserved_char, space_char,
};

verus! {

/// `s` with every reserved character replaced by an underscore.
pub open spec fn replaced(s: Seq<char>) -> Seq<char> {
    Seq::new(s.len(), |i: int| if is_reserved_char(s[i]) { '_' } else { s[i] })
}

/// `s` without its leading whitespace.
pub open spec fn trim_front(s: Seq<char>) -> Seq<char>
    decreases s.len(),
{
    if s.len() > 0 && is_space_char(s[0]) {
        trim_front(s.drop_first())
    } else {
        s
    }
}

/// `s` without its trailing whitespace.
pub open spec fn trim_back(s: Seq<char>) -> Seq<char>
    decreases s.len(),
{
    if s.len() > 0 && is_space_char(s.last()) {
        trim_back(s.drop_last())
    } else {
        s
    }
}

/// `s` without leading and trailing whitespace.
pub open spec fn trimmed(s: Seq<char>) -> Seq<char> {
    trim_back(trim_front(s))
}

/// What sanitizing does: replace each reserved character by an
/// underscore, then trim whitespace from both ends.
pub open spec fn sanitized(s: Seq<char>) -> Seq<char> {
    trimmed(replaced(s))
}

/// If the first `k` characters are whitespace and the one after them
/// (if any) is not, trimming the front drops exactly those `k`.
proof fn lemma_trim_front_bounds(s: Seq<char>, k: int)
    requires
        0 <= k <= s.len(),
        forall|j: int| 0 <= j < k ==> is_space_char(s[j]),
        k < s.len() ==> !is_space_char(s[k]),
    ensures
        trim_front(s) == s.subrange(k, s.len() as int),
    decreases k,
{
    if k == 0 {
        assert(s.subrange(0, s.len() as int) =~= s);
    } else {
        let t = s.drop_first();
        assert(forall|j: int| 0 <= j < k - 1 ==> t[j] == s[j + 1]);
        lemma_trim_front_bounds(t, k - 1);
        assert(t.subrange(k - 1, t.len() as int) =~= s.subrange(k, s.len() as int));
    }
}

/// If the characters from `k` on are whitespace and the one before
/// them (if any) is not, trimming the back keeps exactly the first `k`.
proof fn lemma_trim_back_bounds(s: Seq<char>, k: int)
    requires
        0 <= k <= s.len(),
        forall|j: int| k <= j < s.len() ==> is_space_char(s[j]),
        k > 0 ==> !is_space_char(s[k - 1]),
    ensures
        trim_back(s) == s.subrange(0, k),
    decreases s.len() - k,
{
    if k == s.len() {
        if s.len() > 0 && is_space_char(s.last()) {
            assert(false);
        }
        assert(s.subrange(0, k) =~= s);
    } else {
        let t = s.drop_last();
        lemma_trim_back_bounds(t, k);
        assert(t.subrange(0, k) =~= s.subrange(0, k));
    }
}

/// Replacing reserved characters does not change where whitespace
/// stands: no reserved character is whitespace, and neither is `_`.
proof fn lemma_replaced_spaces(s: Seq<char>)
    ensures
        replaced(s).len() == s.len(),
        forall|j: int|
            0 <= j < s.len() ==> is_space_char(#[trigger] replaced(s)[j]) == is_space_char(s[j]),
{
}

/// Replace each of `/ \ : * ? " < > |` by `_`, then trim whitespace
/// from both ends.
pub fn sanitize_filename(name: &str) -> (r: String)
    ensures
        r@ == sanitized(name@),
{
    proof {
        lemma_replaced_spaces(name@);
    }
    let n = name.unicode_len();
    let mut lo: usize = 0;
    while lo < n && space_char(name.get_char(lo))
        invariant
            0 <= lo <= n,
            n == name@.len(),
            forall|j: int| 0 <= j < lo ==> is_space_char(name@[j]),
        decreases n - lo,
    {
        lo += 1;
    }
    if lo == n {
        proof {
            lemma_trim_front_bounds(replaced(name@), n as int);
            assert(replaced(name@).subrange(n as int, n as int) =~= Seq::<char>::empty());
            assert(trim_back(Seq::<char>::empty()) =~= Seq::<char>::empty());
        }
        return String::new();
    }
    let mut hi: usize = n;
    while hi > lo && space_char(name.get_char(hi - 1))
        invariant
            lo <= hi <= n,
            n == name@.len(),
            lo < n,
            !is_space_char(name@[lo as int]),
            forall|j: int| hi <= j < n ==> is_space_char(name@[j]),
        decreases hi,
    {
        hi -= 1;
    }
    proof {
        assert(hi > lo);
        assert(!is_space_char(name@[hi - 1]));
        lemma_trim_front_bounds(replaced(name@), lo as int);
        let t = replaced(name@).subrange(lo as int, n as int);
        assert(forall|j: int|
            hi - lo <= j < t.len() ==> is_space_char(#[trigger] t[j]) == is_space_char(
                name@[j + lo],
            ));
        lemma_trim_back_bounds(t, hi - lo);
        assert(t.subrange(0, hi - lo) =~= replaced(name@).subrange(lo as int, hi as int));
        assert(sanitized(name@) == replaced(name@).subrange(lo as int, hi as int));
        reveal_strlit("_");
    }
    let mut r = String::new();
    let mut i: usize = lo;
    while i < hi
        invariant
            lo <= i <= hi <= n,
            n == name@.len(),
            "_"@ =~= seq!['_'],
            r@ == replaced(name@).subrange(lo as int, i as int),
        decreases hi - i,
    {
        let c = name.get_char(i);
        if reserved_char(c) {
            r.append("_");
        } else {
            let piece = name.substring_char(i, i + 1);
            r.append(piece);
        }
        proof {
            assert(r@ =~= replaced(name@).subrange(lo as int, i + 1));
        }
        i += 1;
    }
    r
}

/// Trimming the front of a sequence keeps a suffix of it whose first
/// character, if any, is not whitespace.
proof fn lemma_trim_front_props(s: Seq<char>)
    ensures
        exists|k: int|
            0 <= k <= s.len() && trim_front(s) == s.subrange(k, s.len() as int),
        trim_front(s).len() > 0 ==> !is_space_char(trim_front(s)[0]),
    decreases s.len(),
{
    if s.len() > 0 && is_space_char(s[0]) {
        let t = s.drop_first();
        lemma_trim_front_props(t);
        let k = choose|k: int| 0 <= k <= t.len() && trim_front(t) == t.subrange(k, t.len() as int);
        assert(t.subrange(k, t.len() as int) =~= s.subrange(k + 1, s.len() as int));
        assert(trim_front(s) == s.subrange(k + 1, s.len() as int));
    } else {
        assert(s.subrange(0, s.len() as int) =~= s);
        assert(trim_front(s) == s.subrange(0, s.len() as int));
    }
}

/// Trimming the back of a sequence keeps a prefix of it whose last
/// character, if any, is not whitespace.
proof fn lemma_trim_back_props(s: Seq<char>)
    ensures
        exists|k: int| 0 <= k <= s.len() && trim_back(s) == s.subrange(0, k),
        trim_back(s).len() > 0 ==> !is_space_char(trim_back(s).last()),
    decreases s.len(),
{
    if s.len() > 0 && is_space_char(s.last()) {
        let t = s.drop_last();
        lemma_trim_back_props(t);
        let k = choose|k: int| 0 <= k <= t.len() && trim_back(t) == t.subrange(0, k);
        assert(t.subrange(0, k) =~= s.subrange(0, k));
        assert(trim_back(s) == s.subrange(0, k));
    } else {
        assert(s.subrange(0, s.len() as int) =~= s);
        assert(trim_back(s) == s.subrange(0, s.len() as int));
    }
}

/// A sanitized string holds no reserved character, neither starts nor
/// ends with whitespace, and is a contiguous piece of the string with
/// each reserved character replaced one-for-one by `_` — interior
/// structure is preserved.
pub proof fn lemma_sanitized_clean(s: Seq<char>)
    ensures
        forall|i: int|
            0 <= i < sanitized(s).len() ==> !is_reserved_char(#[trigger] sanitized(s)[i]),
        sanitized(s).len() > 0 ==> !is_space_char(sanitized(s)[0]),
        sanitized(s).len() > 0 ==> !is_space_char(sanitized(s).last()),
        exists|lo: int, hi: int|
            0 <= lo <= hi <= s.len() && sanitized(s) == #[trigger] replaced(s).subrange(lo, hi),
{
    let r0 = replaced(s);
    lemma_trim_front_props(r0);
    let k1 = choose|k: int| 0 <= k <= r0.len() && trim_front(r0) == r0.subrange(k, r0.len() as int);
    let tf = trim_front(r0);
    lemma_trim_back_props(tf);
    let k2 = choose|k: int| 0 <= k <= tf.len() && trim_back(tf) == tf.subrange(0, k);
    assert(tf.subrange(0, k2) =~= r0.subrange(k1, k1 + k2));
    assert(sanitized(s) == r0.subrange(k1, k1 + k2));
    assert(forall|i: int| 0 <= i < r0.len() ==> !is_reserved_char(#[trigger] r0[i]));
    if sanitized(s).len() > 0 {
        assert(sanitized(s)[0] == tf[0]);
    }
}

/// The shape of a destination directory: `dest/<author>/<title>`, and
/// only a known narrator adds the ` {...}` suffix to the title
/// segment. Being a function of these four values alone, the
/// construction is deterministic and touches nothing outside them.
pub proof fn lemma_dest_dir_shape(
    dest: Seq<char>,
    author: Seq<char>,
    title: Seq<char>,
    narrator: Option<Seq<char>>,
)
    ensures
        narrator is None ==> dest_dir_seq(dest, author, title, narrator) == joined(
            joined(dest, sanitized(author)),
            sanitized(title),
        ),
        narrator is Some ==> dest_dir_seq(dest, author, title, narrator) == joined(
            joined(dest, sanitized(author)),
            sanitized(title) + " {"@ + sanitized(narrator->0) + "}"@,
        ),
{
}

/// Joining a relative path onto a base: an absolute right-hand side
/// replaces the base, otherwise the two are separated by one `/`.
pub open spec fn joined(base: Seq<char>, rel: Seq<char>) -> Seq<char> {
    if rel.len() > 0 && rel[0] == '/' {
        rel
    } else if base.len() == 0 {
        rel
    } else if base.last() == '/' {
        base + rel
    } else {
        base + seq!['/'] + rel
    }
}

/// Join `rel` onto `base` with a single separator.
pub fn join_path(base: &str, rel: &str) -> (r: String)
    ensures
        r@ == joined(base@, rel@),
{
    let blen = base.unicode_len();
    let rlen = rel.unicode_len();
    if rlen > 0 && rel.get_char(0) == '/' {
        rel.to_owned()
    } else if blen == 0 {
        rel.to_owned()
    } else if base.get_char(blen - 1) == '/' {
        String::from_str(base).concat(rel)
    } else {
        proof {
            reveal_strlit("/");
            assert("/"@ =~= seq!['/']);
        }
        let r = String::from_str(base).concat("/").concat(rel);
        proof {
            assert(r@ =~= base@ + seq!['/'] + rel@);
        }
        r
    }
}

/// `s` without any trailing `/` characters.
pub open spec fn strip_trailing_slashes(s: Seq<char>) -> Seq<char>
    decreases s.len(),
{
    if s.len() > 0 && s.last() == '/' {
        strip_trailing_slashes(s.drop_last())
    } else {
        s
    }
}

/// The characters after the last `/` of `s` (all of `s` if it has none).
pub open spec fn suffix_after_slash(s: Seq<char>) -> Seq<char>
    decreases s.len(),
{
    if s.len() == 0 {
        s
    } else if s.last() == '/' {
        Seq::<char>::empty()
    } else {
        suffix_after_slash(s.drop_last()).push(s.last())
    }
}

/// The last path segment of `s`: trailing separators are ignored.
pub open spec fn file_name_spec(s: Seq<char>) -> Seq<char> {
    suffix_after_slash(strip_trailing_slashes(s))
}

/// If the characters from `k` on are all `/` and the one before them
/// (if any) is not, stripping keeps exactly the first `k`.
proof fn lemma_strip_bounds(s: Seq<char>, k: int)
    requires
        0 <= k <= s.len(),
        forall|j: int| k <= j < s.len() ==> s[j] == '/',
        k > 0 ==> s[k - 1] != '/',
    ensures
        strip_trailing_slashes(s) == s.subrange(0, k),
    decreases s.len() - k,
{
    if k == s.len() {
        assert(s.subrange(0, k) =~= s);
    } else {
        let t = s.drop_last();
        lemma_strip_bounds(t, k);
        assert(t.subrange(0, k) =~= s.subrange(0, k));
    }
}

/// If none of the characters from `k` on is a `/` and the one before
/// them (if any) is one, the suffix after the last slash is exactly
/// the characters from `k` on.
proof fn lemma_suffix_bounds(s: Seq<char>, k: int)
    requires
        0 <= k <= s.len(),
        forall|j: int| k <= j < s.len() ==> s[j] != '/',
        k > 0 ==> s[k - 1] == '/',
    ensures
        suffix_after_slash(s) == s.subrange(k, s.len() as int),
    decreases s.len() - k,
{
    if s.len() == 0 {
        assert(s.subrange(0, 0) =~= s);
    } else if k == s.len() {
        assert(s.last() == '/');
        assert(suffix_after_slash(s) =~= s.subrange(k, s.len() as int));
    } else {
        let t = s.drop_last();
        lemma_suffix_bounds(t, k);
        assert(t.subrange(k, t.len() as int) =~= s.subrange(k, s.len() as int - 1));
        assert(suffix_after_slash(s) =~= s.subrange(k, s.len() as int));
    }
}

/// The last path segment of `path`, or the empty string if it has none.
pub fn file_name_of(path: &str) -> (r: String)
    ensures
        r@ == file_name_spec(path@),
{
    let n = path.unicode_len();
    let mut end: usize = n;
    while end > 0 && path.get_char(end - 1) == '/'
        invariant
            0 <= end <= n,
            n == path@.len(),
            forall|j: int| end <= j < n ==> path@[j] == '/',
        decreases end,
    {
        end -= 1;
    }
    let mut start: usize = end;
    while start > 0 && path.get_char(start - 1) != '/'
        invariant
            0 <= start <= end <= n,
            n == path@.len(),
            forall|j: int| start <= j < end ==> path@[j] != '/',
        decreases start,
    {
        start -= 1;
    }
    proof {
        lemma_strip_bounds(path@, end as int);
        let t = path@.subrange(0, end as int);
        lemma_suffix_bounds(t, start as int);
        assert(t.subrange(start as int, t.len() as int) =~= path@.subrange(
            start as int,
            end as int,
        ));
    }
    let r = path.substring_char(start, end);
    r.to_owned()
}

/// The marker segment that separates the library prefix from the
/// content-addressed suffix.
pub open spec fn marker_seq() -> Seq<char> {
    "Audiobooks/"@
}

/// The folder used by the fallback: the second-to-last path segment.
pub open spec fn fallback_folder(p: Seq<char>) -> Seq<char> {
    let q = strip_trailing_slashes(p);
    let name = suffix_after_slash(q);
    suffix_after_slash(strip_trailing_slashes(q.subrange(0, q.len() - name.len())))
}

/// Where a recorded track path is read from when the actual source
/// root differs from the recorded one: take everything from the first
/// `Audiobooks/` marker onward and join it onto `base`; lacking a
/// marker, rebuild `base/Audiobooks/<folder>/<file>` from the last two
/// segments when the folder is content-addressed; else pass the path
/// through unchanged.
pub open spec fn remapped(p: Seq<char>, base: Seq<char>) -> Seq<char> {
    match find_first(p, marker_seq()) {
        Some(i) => joined(base, p.subrange(i, p.len() as int)),
        None => {
            let folder = fallback_folder(p);
            if "sha1-"@.is_prefix_of(folder) {
                joined(joined(joined(base, "Audiobooks"@), folder), file_name_spec(p))
            } else {
                p
            }
        },
    }
}

/// Remap the recorded path of a track onto the actual source root.
pub fn remap_track_path(track_path: &str, source_base: &str) -> (r: String)
    ensures
        r@ == remapped(track_path@, source_base@),
{
    let n = track_path.unicode_len();
    match find_substring(track_path, "Audiobooks/") {
        Some(i) => {
            proof {
                lemma_find_first_spec(track_path@, "Audiobooks/"@);
            }
            let suffix = track_path.substring_char(i, n);
            join_path(source_base, suffix)
        },
        None => {
            let mut end: usize = n;
            while end > 0 && track_path.get_char(end - 1) == '/'
                invariant
                    0 <= end <= n,
                    n == track_path@.len(),
                    forall|j: int| end <= j < n ==> track_path@[j] == '/',
                decreases end,
            {
                end -= 1;
            }
            let mut start: usize = end;
            while start > 0 && track_path.get_char(start - 1) != '/'
                invariant
                    0 <= start <= end <= n,
                    n == track_path@.len(),
                    forall|j: int| start <= j < end ==> track_path@[j] != '/',
                decreases start,
            {
                start -= 1;
            }
            let mut fend: usize = start;
            while fend > 0 && track_path.get_char(fend - 1) == '/'
                invariant
                    0 <= fend <= start <= n,
                    n == track_path@.len(),
                    forall|j: int| fend <= j < start ==> track_path@[j] == '/',
                decreases fend,
            {
                fend -= 1;
            }
            let mut fstart: usize = fend;
            while fstart > 0 && track_path.get_char(fstart - 1) != '/'
                invariant
                    0 <= fstart <= fend <= n,
                    n == track_path@.len(),
                    forall|j: int| fstart <= j < fend ==> track_path@[j] != '/',
                decreases fstart,
            {
                fstart -= 1;
            }
            proof {
                let p = track_path@;
                lemma_strip_bounds(p, end as int);
                let q = p.subrange(0, end as int);
                lemma_suffix_bounds(q, start as int);
                assert(q.subrange(start as int, q.len() as int) =~= p.subrange(
                    start as int,
                    end as int,
                ));
                let name = suffix_after_slash(q);
                assert(q.subrange(0, q.len() - name.len()) =~= p.subrange(0, start as int));
                let q1 = p.subrange(0, start as int);
                lemma_strip_bounds(q1, fend as int);
                assert(q1.subrange(0, fend as int) =~= p.subrange(0, fend as int));
                let q2 = p.subrange(0, fend as int);
                lemma_suffix_bounds(q2, fstart as int);
                assert(q2.subrange(fstart as int, q2.len() as int) =~= p.subrange(
                    fstart as int,
                    fend as int,
                ));
                assert(fallback_folder(p) == p.subrange(fstart as int, fend as int));
                assert(file_name_spec(p) == p.subrange(start as int, end as int));
            }
            let folder = track_path.substring_char(fstart, fend);
            if is_prefix(folder, "sha1-") {
                let j1 = join_path(source_base, "Audiobooks");
                let j2 = join_path(j1.as_str(), folder);
                let name = track_path.substring_char(start, end);
                join_path(j2.as_str(), name)
            } else {
                track_path.to_owned()
            }
        },
    }
}

/// Remapping recovers the suffix from the marker onward, whatever
/// prefix precedes it: when the first occurrence of the marker in `p`
/// stands at `i`, the remapped path is exactly that suffix joined
/// onto the actual source root.
pub proof fn lemma_remap_recovers_suffix(p: Seq<char>, base: Seq<char>, i: int)
    requires
        matches_at(p, marker_seq(), i),
        forall|j: int| 0 <= j < i ==> !matches_at(p, marker_seq(), j),
    ensures
        remapped(p, base) == joined(base, p.subrange(i, p.len() as int)),
{
    lemma_find_first_spec(p, marker_seq());
    match find_first(p, marker_seq()) {
        Some(k) => {
            if k < i {
                assert(!matches_at(p, marker_seq(), k));
            }
            if i < k {
                assert(!matches_at(p, marker_seq(), i));
            }
            assert(k == i);
        },
        None => {
            assert(!matches_at(p, marker_seq(), i));
        },
    }
}

/// Destination directory for a book: `dest/<author>/<title>`, the
/// title segment carrying ` {<narrator>}` when a narrator is known,
/// every segment sanitized.
pub open spec fn dest_dir_seq(
    dest: Seq<char>,
    author: Seq<char>,
    title: Seq<char>,
    narrator: Option<Seq<char>>,
) -> Seq<char> {
    let title_dir = match narrator {
        Some(nar) => sanitized(title) + " {"@ + sanitized(nar) + "}"@,
        None => sanitized(title),
    };
    joined(joined(dest, sanitized(author)), title_dir)
}

/// Destination directory for `audiobook` under `dest`.
pub fn create_audiobookshelf_path(dest: &str, audiobook: &Audiobook) -> (r: String)
    ensures
        r@ == dest_dir_seq(
            dest@,
            audiobook.author@,
            audiobook.title@,
            crate::catalog::narrator_view(audiobook.narrator),
        ),
{
    let author_dir = sanitize_filename(audiobook.author.as_str());
    let title_dir = match &audiobook.narrator {
        Some(nar) => {
            let t = sanitize_filename(audiobook.title.as_str());
            let v = sanitize_filename(nar.as_str());
            t.concat(" {").concat(v.as_str()).concat("}")
        },
        None => sanitize_filename(audiobook.title.as_str()),
    };
    let base = join_path(dest, author_dir.as_str());
    join_path(base.as_str(), title_dir.as_str())
}

} // verus!

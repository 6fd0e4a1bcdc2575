//! Stable ordering of a book's tracks by (disc number, track number).

use vstd::prelude::*;

use crate::catalog::{track_view, track_views, AudioTrack, TrackV};

verus! {

/// `a` may stand at or before `b`: its (disc, track) key is not larger.
pub open spec fn key_le(a: TrackV, b: TrackV) -> bool {
    a.disc_number < b.disc_number || (a.disc_number == b.disc_number && a.track_number
        <= b.track_number)
}

/// Keys are non-decreasing from one track to the next.
pub open spec fn tracks_sorted(s: Seq<TrackV>) -> bool {
    forall|i: int| 0 <= i < s.len() - 1 ==> key_le(#[trigger] s[i], s[i + 1])
}

/// `x` placed into `s` directly before the first element it may
/// precede; among equal keys `x` goes after none of them.
pub open spec fn insert_sorted(x: TrackV, s: Seq<TrackV>) -> Seq<TrackV>
    decreases s.len(),
{
    if s.len() == 0 {
        seq![x]
    } else if key_le(x, s[0]) {
        seq![x] + s
    } else {
        seq![s[0]] + insert_sorted(x, s.drop_first())
    }
}

/// Insertion sort of the whole sequence; stable by construction.
pub open spec fn sort_tracks_spec(s: Seq<TrackV>) -> Seq<TrackV>
    decreases s.len(),
{
    if s.len() == 0 {
        s
    } else {
        insert_sorted(s[0], sort_tracks_spec(s.drop_first()))
    }
}

/// The subsequence of tracks carrying exactly the key (d, t), in order.
pub open spec fn filter_key(s: Seq<TrackV>, d: u32, t: u32) -> Seq<TrackV>
    decreases s.len(),
{
    if s.len() == 0 {
        s
    } else if s[0].disc_number == d && s[0].track_number == t {
        seq![s[0]] + filter_key(s.drop_first(), d, t)
    } else {
        filter_key(s.drop_first(), d, t)
    }
}

proof fn lemma_insert_len(x: TrackV, s: Seq<TrackV>)
    ensures
        insert_sorted(x, s).len() == s.len() + 1,
    decreases s.len(),
{
    if s.len() > 0 && !key_le(x, s[0]) {
        lemma_insert_len(x, s.drop_first());
    }
}

proof fn lemma_insert_sorted_keeps_sorted(x: TrackV, s: Seq<TrackV>)
    requires
        tracks_sorted(s),
    ensures
        tracks_sorted(insert_sorted(x, s)),
    decreases s.len(),
{
    if s.len() == 0 {
    } else if key_le(x, s[0]) {
        let r = seq![x] + s;
        assert forall|i: int| 0 <= i < r.len() - 1 implies key_le(#[trigger] r[i], r[i + 1]) by {
            if i > 0 {
                assert(key_le(s[i - 1], s[i]));
            }
        }
    } else {
        let t = s.drop_first();
        assert(tracks_sorted(t)) by {
            assert(forall|i: int|
                0 <= i < t.len() - 1 ==> key_le(#[trigger] t[i], t[i + 1]) == key_le(
                    s[i + 1],
                    s[i + 2],
                ));
        }
        lemma_insert_sorted_keeps_sorted(x, t);
        let u = insert_sorted(x, t);
        lemma_insert_len(x, t);
        let r = seq![s[0]] + u;
        assert(insert_sorted(x, s) == r);
        assert forall|i: int| 0 <= i < r.len() - 1 implies key_le(#[trigger] r[i], r[i + 1]) by {
            if i == 0 {
                if t.len() == 0 {
                    assert(u[0] == x);
                } else if key_le(x, t[0]) {
                    assert(u[0] == x);
                } else {
                    assert(u[0] == t[0]);
                    assert(key_le(s[0], s[1]));
                }
            } else {
                assert(key_le(u[i - 1], u[i]));
            }
        }
    }
}

proof fn lemma_insert_filter(x: TrackV, s: Seq<TrackV>, d: u32, t: u32)
    ensures
        filter_key(insert_sorted(x, s), d, t) == if x.disc_number == d && x.track_number == t {
            seq![x] + filter_key(s, d, t)
        } else {
            filter_key(s, d, t)
        },
    decreases s.len(),
{
    if s.len() == 0 {
        let r = seq![x];
        assert(r.drop_first() =~= Seq::<TrackV>::empty());
        assert(filter_key(r.drop_first(), d, t) =~= s);
        if x.disc_number == d && x.track_number == t {
            assert(filter_key(r, d, t) == seq![r[0]] + filter_key(r.drop_first(), d, t));
            assert(filter_key(r, d, t) =~= seq![x] + filter_key(s, d, t));
        } else {
            assert(filter_key(r, d, t) =~= filter_key(s, d, t));
        }
    } else if key_le(x, s[0]) {
        let r = seq![x] + s;
        assert(r.drop_first() =~= s);
        if x.disc_number == d && x.track_number == t {
            assert(filter_key(r, d, t) == seq![x] + filter_key(s, d, t));
        }
    } else {
        let rest = s.drop_first();
        lemma_insert_filter(x, rest, d, t);
        let u = insert_sorted(x, rest);
        let r = seq![s[0]] + u;
        assert(insert_sorted(x, s) == r);
        assert(r.drop_first() =~= u);
        if x.disc_number == d && x.track_number == t {
            assert(!(s[0].disc_number == d && s[0].track_number == t));
            assert(filter_key(r, d, t) == filter_key(u, d, t));
            assert(filter_key(s, d, t) == filter_key(rest, d, t));
        } else {
            if s[0].disc_number == d && s[0].track_number == t {
                assert(filter_key(r, d, t) == seq![s[0]] + filter_key(u, d, t));
                assert(filter_key(s, d, t) == seq![s[0]] + filter_key(rest, d, t));
            }
        }
    }
}

/// The sorter's laws: the result is non-decreasing in (disc, track),
/// has the same length, and tracks of equal key keep their original
/// relative order.
pub proof fn lemma_sort_tracks_ordered(s: Seq<TrackV>)
    ensures
        tracks_sorted(sort_tracks_spec(s)),
        sort_tracks_spec(s).len() == s.len(),
        forall|d: u32, t: u32|
            #[trigger] filter_key(sort_tracks_spec(s), d, t) == filter_key(s, d, t),
    decreases s.len(),
{
    if s.len() == 0 {
    } else {
        let rest = s.drop_first();
        lemma_sort_tracks_ordered(rest);
        lemma_insert_sorted_keeps_sorted(s[0], sort_tracks_spec(rest));
        lemma_insert_len(s[0], sort_tracks_spec(rest));
        assert forall|d: u32, t: u32|
            #[trigger] filter_key(sort_tracks_spec(s), d, t) == filter_key(s, d, t) by {
            lemma_insert_filter(s[0], sort_tracks_spec(rest), d, t);
            if s[0].disc_number == d && s[0].track_number == t {
                assert(filter_key(s, d, t) == seq![s[0]] + filter_key(rest, d, t));
            } else {
                assert(filter_key(s, d, t) == filter_key(rest, d, t));
            }
        }
    }
}

/// `x` inserted at the position `j` that the exec search found is the
/// same sequence that [`insert_sorted`] describes.
proof fn lemma_insert_sorted_at(x: TrackV, s: Seq<TrackV>, j: int)
    requires
        0 <= j <= s.len(),
        forall|k: int| 0 <= k < j ==> !key_le(x, #[trigger] s[k]),
        j < s.len() ==> key_le(x, s[j]),
    ensures
        insert_sorted(x, s) == s.insert(j, x),
    decreases s.len(),
{
    if j == 0 {
        if s.len() == 0 {
            assert(insert_sorted(x, s) =~= s.insert(0, x));
        } else {
            assert(seq![x] + s =~= s.insert(0, x));
        }
    } else {
        let rest = s.drop_first();
        lemma_insert_sorted_at(x, rest, j - 1);
        assert(seq![s[0]] + rest.insert(j - 1, x) =~= s.insert(j, x));
    }
}

/// Insert one track into an already sorted vector, before the first
/// entry of larger or equal key.
fn insert_track(x: AudioTrack, out: &mut Vec<AudioTrack>)
    ensures
        track_views(final(out)@) == insert_sorted(track_view(x), track_views(old(out)@)),
{
    let ghost s = track_views(old(out)@);
    let mut j: usize = 0;
    while j < out.len() && !(x.disc_number < out[j].disc_number || (x.disc_number
        == out[j].disc_number && x.track_number <= out[j].track_number))
        invariant
            0 <= j <= out@.len(),
            track_views(out@) == s,
            out@ == old(out)@,
            forall|k: int| 0 <= k < j ==> !key_le(track_view(x), #[trigger] s[k]),
        decreases out@.len() - j,
    {
        proof {
            assert(s[j as int] == track_view(out@[j as int]));
        }
        j += 1;
    }
    proof {
        assert(j < out@.len() ==> s[j as int] == track_view(out@[j as int]));
        lemma_insert_sorted_at(track_view(x), s, j as int);
    }
    out.insert(j, x);
    proof {
        assert(track_views(out@) =~= s.insert(j as int, track_view(x)));
    }
}

/// Sort the tracks of one book by (disc number, track number),
/// stably: tracks of equal key keep their original relative order.
pub fn sort_tracks(tracks: Vec<AudioTrack>) -> (r: Vec<AudioTrack>)
    ensures
        track_views(r@) == sort_tracks_spec(track_views(tracks@)),
{
    let ghost orig = track_views(tracks@);
    let mut src = tracks;
    let mut out: Vec<AudioTrack> = Vec::new();
    proof {
        assert(orig.subrange(orig.len() as int, orig.len() as int) =~= Seq::<TrackV>::empty());
        assert(track_views(out@) =~= Seq::<TrackV>::empty());
    }
    while src.len() > 0
        invariant
            track_views(src@) == orig.subrange(0, src@.len() as int),
            src@.len() <= orig.len(),
            track_views(out@) == sort_tracks_spec(orig.subrange(src@.len() as int, orig.len() as int)),
        decreases src@.len(),
    {
        let ghost i = src@.len() as int;
        let x = src.pop().unwrap();
        proof {
            assert(track_views(src@.push(x)) == orig.subrange(0, i));
            assert(track_view(x) == track_views(src@.push(x))[i - 1]);
            assert(track_view(x) == orig[i - 1]);
            assert(track_views(src@) =~= orig.subrange(0, i - 1));
            let t = orig.subrange(i - 1, orig.len() as int);
            assert(t[0] == orig[i - 1]);
            assert(t.drop_first() =~= orig.subrange(i, orig.len() as int));
        }
        insert_track(x, &mut out);
    }
    proof {
        assert(orig.subrange(0, orig.len() as int) =~= orig);
    }
    out
}

} // verus!

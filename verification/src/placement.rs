//! Tracks seen as lists of (start frame, clip) pairs: taking selected clips out of such a list
//! and putting moved clips back in time order.
use vstd::prelude::*;
use crate::timeline::{
    Clip, count_before, end_at, end_of, insert_index, lemma_clip_in_track, lemma_clips_ordered,
    placements, start_of,
};

verus! {

/// A clip placed at a start frame.
pub type Placed = (int, Clip);

/// The entries, among the first `n`, whose clip is not selected.
pub open spec fn unselected_prefix(p: Seq<Placed>, n: int) -> Seq<Placed>
    decreases n,
{
    if n <= 0 {
        Seq::empty()
    } else if !p[n - 1].1.is_selected {
        unselected_prefix(p, n - 1).push(p[n - 1])
    } else {
        unselected_prefix(p, n - 1)
    }
}

/// The entries, among the first `n`, whose clip is selected, each moved by `shift` frames.
pub open spec fn moved_prefix(p: Seq<Placed>, n: int, shift: int) -> Seq<Placed>
    decreases n,
{
    if n <= 0 {
        Seq::empty()
    } else if p[n - 1].1.is_selected {
        moved_prefix(p, n - 1, shift).push((p[n - 1].0 + shift, p[n - 1].1))
    } else {
        moved_prefix(p, n - 1, shift)
    }
}

/// Number of entries, among the first `n`, that start before `pos`.
pub open spec fn count_starting_before(p: Seq<Placed>, pos: int, n: int) -> int
    decreases n,
{
    if n <= 0 {
        0
    } else {
        count_starting_before(p, pos, n - 1) + if p[n - 1].0 < pos {
            1int
        } else {
            0int
        }
    }
}

/// Puts each entry of `q`, in order, after every entry that starts before it.
pub open spec fn insert_all(p: Seq<Placed>, q: Seq<Placed>) -> Seq<Placed>
    decreases q.len(),
{
    if q.len() == 0 {
        p
    } else {
        let r = insert_all(p, q.drop_last());
        r.insert(count_starting_before(r, q.last().0, r.len() as int), q.last())
    }
}

/// The clip of entry `x` and the span `[pos, pos + dur)` leave room for each other.
pub open spec fn compatible(x: Placed, pos: int, dur: int) -> bool {
    !(pos <= x.0 && x.0 < pos + dur) && !(x.0 <= pos && pos < x.0 + x.1.duration_frames)
}

pub proof fn lemma_insert_index_placements(clips: Seq<Clip>, pos: int, n: int)
    requires
        0 <= n <= clips.len(),
    ensures
        count_before(clips, pos, n) == count_starting_before(placements(clips), pos, n),
    decreases n,
{
    if n > 0 {
        lemma_insert_index_placements(clips, pos, n - 1);
    }
}

/// Inserting keeps every entry: the result holds the entries of both lists, counted with
/// multiplicity.
pub proof fn lemma_insert_all_multiset(p: Seq<Placed>, q: Seq<Placed>)
    ensures
        insert_all(p, q).to_multiset() == p.to_multiset().add(q.to_multiset()),
    decreases q.len(),
{
    broadcast use vstd::seq_lib::group_seq_properties;
    broadcast use vstd::multiset::group_multiset_axioms;
    if q.len() > 0 {
        let r = insert_all(p, q.drop_last());
        lemma_insert_all_multiset(p, q.drop_last());
        let i = count_starting_before(r, q.last().0, r.len() as int);
        lemma_count_starting_before_bounds(r, q.last().0, r.len() as int);
        vstd::seq_lib::to_multiset_insert(r, i, q.last());
        assert(q.drop_last().push(q.last()) =~= q);
        vstd::seq_lib::to_multiset_build(q.drop_last(), q.last());
        assert(insert_all(p, q).to_multiset() =~= p.to_multiset().add(q.to_multiset()));
    }
}

pub proof fn lemma_count_starting_before_bounds(p: Seq<Placed>, pos: int, n: int)
    requires
        0 <= n,
    ensures
        0 <= count_starting_before(p, pos, n) <= n,
    decreases n,
{
    if n > 0 {
        lemma_count_starting_before_bounds(p, pos, n - 1);
    }
}

/// Every entry of the merged list comes from one of the two lists.
pub proof fn lemma_insert_all_contains(p: Seq<Placed>, q: Seq<Placed>, x: Placed)
    requires
        insert_all(p, q).contains(x),
    ensures
        p.contains(x) || q.contains(x),
    decreases q.len(),
{
    if q.len() > 0 {
        let r = insert_all(p, q.drop_last());
        let i = count_starting_before(r, q.last().0, r.len() as int);
        lemma_count_starting_before_bounds(r, q.last().0, r.len() as int);
        let s = r.insert(i, q.last());
        let j = choose|j: int| 0 <= j < s.len() && s[j] == x;
        if j == i {
            assert(q[q.len() - 1] == x);
        } else {
            let jj = if j < i {
                j
            } else {
                j - 1
            };
            assert(r[jj] == x);
            lemma_insert_all_contains(p, q.drop_last(), x);
            if q.drop_last().contains(x) {
                let m = choose|m: int| 0 <= m < q.drop_last().len() && q.drop_last()[m] == x;
                assert(q[m] == x);
            }
        }
    }
}

/// Each unselected entry is an entry of the list whose clip is not selected.
pub proof fn lemma_unselected_prefix_origin(p: Seq<Placed>, n: int, x: Placed)
    requires
        0 <= n <= p.len(),
        unselected_prefix(p, n).contains(x),
    ensures
        exists|i: int| 0 <= i < n && !p[i].1.is_selected && #[trigger] p[i] == x,
    decreases n,
{
    let u = unselected_prefix(p, n);
    let j = choose|j: int| 0 <= j < u.len() && u[j] == x;
    if !p[n - 1].1.is_selected {
        if j == u.len() - 1 {
            assert(p[n - 1] == x);
        } else {
            assert(unselected_prefix(p, n - 1)[j] == x);
            lemma_unselected_prefix_origin(p, n - 1, x);
        }
    } else {
        lemma_unselected_prefix_origin(p, n - 1, x);
    }
}

/// Each moved entry is a selected entry of the list, moved.
pub proof fn lemma_moved_prefix_origin(p: Seq<Placed>, n: int, shift: int, m: int)
    requires
        0 <= n <= p.len(),
        0 <= m < moved_prefix(p, n, shift).len(),
    ensures
        exists|i: int|
            0 <= i < n && p[i].1.is_selected && moved_prefix(p, n, shift)[m] == (
                #[trigger] p[i].0 + shift,
                p[i].1,
            ),
    decreases n,
{
    if p[n - 1].1.is_selected && m == moved_prefix(p, n, shift).len() - 1 {
        assert(moved_prefix(p, n, shift)[m] == (p[n - 1].0 + shift, p[n - 1].1));
    } else {
        lemma_moved_prefix_origin(p, n - 1, shift, m);
        assert(moved_prefix(p, n, shift)[m] == moved_prefix(p, n - 1, shift)[m]);
    }
}

/// The moved entries of a track's placements keep their order and do not run into each other,
/// and each ends before the next clip of the track starts (moved alike).
pub proof fn lemma_moved_prefix_ordered(clips: Seq<Clip>, n: int, shift: int)
    requires
        0 <= n <= clips.len(),
    ensures
        forall|a: int, b: int|
            0 <= a < b < moved_prefix(placements(clips), n, shift).len() ==> #[trigger] moved_prefix(
                placements(clips),
                n,
                shift,
            )[a].0 + moved_prefix(placements(clips), n, shift)[a].1.duration_frames
                <= #[trigger] moved_prefix(placements(clips), n, shift)[b].0,
        n < clips.len() ==> forall|a: int|
            0 <= a < moved_prefix(placements(clips), n, shift).len() ==> #[trigger] moved_prefix(
                placements(clips),
                n,
                shift,
            )[a].0 + moved_prefix(placements(clips), n, shift)[a].1.duration_frames
                <= start_of(clips, n) + shift,
    decreases n,
{
    let p = placements(clips);
    if n > 0 {
        lemma_moved_prefix_ordered(clips, n - 1, shift);
        let prev = moved_prefix(p, n - 1, shift);
        let cur = moved_prefix(p, n, shift);
        if n < clips.len() {
            lemma_clips_ordered(clips, n - 1, n);
        }
        if p[n - 1].1.is_selected {
            assert(cur == prev.push((p[n - 1].0 + shift, p[n - 1].1)));
        } else {
            assert(cur == prev);
        }
        if n < clips.len() {
            assert forall|a: int| 0 <= a < cur.len() implies #[trigger] cur[a].0 + cur[a].1.duration_frames
                <= start_of(clips, n) + shift by {
                if a < prev.len() {
                    assert(cur[a] == prev[a]);
                }
            }
        }
    }
}

/// Among the selected clips of a track that start at the same frame, those that last no frame
/// come after those that last longer.
pub open spec fn selected_empty_clips_last(clips: Seq<Clip>) -> bool {
    forall|i: int, j: int|
        #![trigger clips[i], clips[j]]
        0 <= i < j < clips.len() && clips[i].is_selected && clips[j].is_selected && clips[i].duration_frames
            == 0 && start_of(clips, i) == start_of(clips, j) ==> clips[j].duration_frames == 0
}

/// When selected clips that last no frame come last among those that start with them, so do
/// the moved entries: an entry that lasts no frame is followed at its start frame only by
/// entries that last no frame.
pub proof fn lemma_moved_prefix_empty_last(clips: Seq<Clip>, n: int, shift: int)
    requires
        0 <= n <= clips.len(),
        selected_empty_clips_last(clips),
    ensures
        ({
            let m = moved_prefix(placements(clips), n, shift);
            forall|a: int, b: int|
                #![trigger m[a], m[b]]
                0 <= a < b < m.len() && m[a].1.duration_frames == 0 && m[a].0 == m[b].0 ==> m[b].1.duration_frames
                    == 0
        }),
    decreases n,
{
    let p = placements(clips);
    if n > 0 {
        lemma_moved_prefix_empty_last(clips, n - 1, shift);
        let prev = moved_prefix(p, n - 1, shift);
        let cur = moved_prefix(p, n, shift);
        if p[n - 1].1.is_selected {
            assert(cur == prev.push((p[n - 1].0 + shift, p[n - 1].1)));
            assert forall|a: int, b: int|
                #![trigger cur[a], cur[b]]
                0 <= a < b < cur.len() && cur[a].1.duration_frames == 0 && cur[a].0 == cur[b].0 implies cur[b].1.duration_frames
                    == 0 by {
                assert(cur[a] == prev[a]);
                if b < prev.len() {
                    assert(cur[b] == prev[b]);
                } else {
                    lemma_moved_prefix_origin(p, n - 1, shift, a);
                    let i = choose|i: int|
                        0 <= i < n - 1 && p[i].1.is_selected && prev[a] == (#[trigger] p[i].0 + shift, p[i].1);
                    assert(clips[i].is_selected && clips[n - 1].is_selected);
                }
            }
        } else {
            assert(cur == prev);
        }
    }
}

} // verus!

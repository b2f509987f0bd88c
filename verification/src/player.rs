//! The player's start-up settings and the stages it goes through: open a window, load the
//! project while showing progress, then run it.
use vstd::prelude::*;
use crate::timeline::{ClipSource, Timeline};

verus! {

/// The settings chosen in the start-up dialog.
#[derive(Debug, Clone, Copy, PartialEq, Eq, Structural)]
pub struct Config {
    pub display_width: u32,
    pub display_height: u32,
    pub is_fullscreen: bool,
    pub is_prerender: bool,
}

/// Opens the window of the player that renders every frame to a file.
pub struct FramedropPlayerInitializer;

/// The loading stage of the player that renders every frame to a file.
pub struct FramedropPlayerLoader;

impl FramedropPlayerLoader {
    /// Starts loading; rendering to files needs no music, so there is nothing to start.
    pub fn start(&self) {
    }
}

/// Runs the player that renders every frame to a file.
pub struct FramedropPlayerRunner;

/// Opens the window of the player that plays in real time with music.
pub struct RealtimePlayerInitializer;

/// Runs the player that plays in real time with music.
pub struct RealtimePlayerRunner;

/// The allocator that takes memory from the process heap.
pub struct SystemAllocator;

/// The frames the player renders ahead while loading, for the first `k` tracks: the start
/// frame of each track's first clip that is a generator, in track order, leaving out a start
/// equal to the previous generator's (as 32-bit signed numbers, the first compared with -1);
/// with the last such start.
pub open spec fn prerender_frames(t: Timeline, k: int) -> (Seq<u32>, i32)
    decreases k,
{
    if k <= 0 {
        (Seq::empty(), -1i32)
    } else {
        let (frames, last) = prerender_frames(t, k - 1);
        let c = t.tracks@[k - 1].clips@[0];
        if c.source is Generator {
            if c.offset_frames as i32 != last {
                (frames.push(c.offset_frames), c.offset_frames as i32)
            } else {
                (frames, c.offset_frames as i32)
            }
        } else {
            (frames, last)
        }
    }
}

/// The start frames of the first clips of the first `k` tracks that are generator clips, in
/// track order.
pub open spec fn generator_starts(t: Timeline, k: int) -> Seq<u32>
    decreases k,
{
    if k <= 0 {
        Seq::empty()
    } else if t.tracks@[k - 1].clips@[0].source is Generator {
        generator_starts(t, k - 1).push(t.tracks@[k - 1].clips@[0].offset_frames)
    } else {
        generator_starts(t, k - 1)
    }
}

/// The entries of `s` that differ from the one before them, compared as 32-bit signed numbers
/// (the first compared with -1), in order.
pub open spec fn changes(s: Seq<u32>) -> Seq<u32>
    decreases s.len(),
{
    if s.len() == 0 {
        Seq::empty()
    } else {
        let before: i32 = if s.len() == 1 {
            -1i32
        } else {
            s[s.len() - 2] as i32
        };
        if s.last() as i32 != before {
            changes(s.drop_last()).push(s.last())
        } else {
            changes(s.drop_last())
        }
    }
}

proof fn lemma_prerender_frames(t: Timeline, k: int)
    requires
        0 <= k <= t.tracks@.len(),
    ensures
        prerender_frames(t, k).0 == changes(generator_starts(t, k)),
        prerender_frames(t, k).1 == if generator_starts(t, k).len() == 0 {
            -1i32
        } else {
            generator_starts(t, k).last() as i32
        },
    decreases k,
{
    if k > 0 {
        lemma_prerender_frames(t, k - 1);
        let g = generator_starts(t, k - 1);
        if t.tracks@[k - 1].clips@[0].source is Generator {
            let g2 = g.push(t.tracks@[k - 1].clips@[0].offset_frames);
            assert(g2.drop_last() =~= g);
            if g.len() > 0 {
                assert(g2[g2.len() - 2] == g.last());
            }
        }
    }
}

/// Reading two 32-bit unsigned numbers as signed ones tells them apart.
proof fn lemma_i32_cast_injective(a: u32, b: u32)
    requires
        a as i32 == b as i32,
    ensures
        a == b,
{
    assert(a as i32 == b as i32 ==> a == b) by (bit_vector);
}

/// `changes` keeps every value of `s` (but a first one that reads as -1): each entry is kept
/// or equals the one before it.
proof fn lemma_changes_contains(s: Seq<u32>, j: int)
    requires
        0 <= j < s.len(),
        !(s[j] as i32 == -1 && forall|q: int| 0 <= q <= j ==> #[trigger] s[q] == s[j]),
    ensures
        changes(s).contains(s[j]),
    decreases s.len(),
{
    let before: i32 = if s.len() == 1 {
        -1i32
    } else {
        s[s.len() - 2] as i32
    };
    let p = changes(s.drop_last());
    if j == s.len() - 1 {
        if s.last() as i32 != before {
            assert(changes(s) == p.push(s.last()));
            assert(changes(s)[p.len() as int] == s[j]);
        } else {
            // The entry reads as the one before it, so it is that value.
            assert(s.len() > 1);
            let prev = s[s.len() - 2];
            assert(prev as i32 == s[j] as i32);
            lemma_i32_cast_injective(prev, s[j]);
            assert(s.drop_last()[j - 1] == prev);
            if s[j] as i32 == -1 {
                assert(exists|q: int| 0 <= q <= j && #[trigger] s[q] != s[j]);
                let q = choose|q: int| 0 <= q <= j && #[trigger] s[q] != s[j];
                assert(q < j);
                assert(s.drop_last()[q] == s[q]);
            }
            assert(!(s.drop_last()[j - 1] as i32 == -1 && forall|q: int|
                0 <= q <= j - 1 ==> #[trigger] s.drop_last()[q] == s.drop_last()[j - 1])) by {
                if s[j] as i32 == -1 {
                    let q = choose|q: int| 0 <= q <= j && #[trigger] s[q] != s[j];
                    assert(s.drop_last()[q] == s[q]);
                }
            }
            lemma_changes_contains(s.drop_last(), j - 1);
            let i = choose|i: int| 0 <= i < p.len() && p[i] == prev;
            assert(changes(s)[i] == prev);
        }
    } else {
        assert(s.drop_last()[j] == s[j]);
        assert(!(s.drop_last()[j] as i32 == -1 && forall|q: int|
            0 <= q <= j ==> #[trigger] s.drop_last()[q] == s.drop_last()[j])) by {
            if s[j] as i32 == -1 {
                let q = choose|q: int| 0 <= q <= j && #[trigger] s[q] != s[j];
                assert(s.drop_last()[q] == s[q]);
            }
        }
        lemma_changes_contains(s.drop_last(), j);
        let i = choose|i: int| 0 <= i < p.len() && p[i] == s[j];
        if s.last() as i32 != before {
            assert(changes(s)[i] == s[j]);
        }
    }
}

/// What the player renders ahead while loading: the start frames of the tracks' generator
/// clips in track order, each kept unless it equals the start of the generator clip before it
/// (clips that are not generators play no part), so every generator clip's start frame is
/// rendered ahead (but for 4294967295, which reads as the -1 the first is compared with).
pub proof fn law_prerender_generator_starts(t: Timeline)
    ensures
        prerender_frames(t, t.tracks@.len() as int).0 == changes(generator_starts(t, t.tracks@.len() as int)),
        forall|k: int|
            0 <= k < t.tracks@.len() && (#[trigger] t.tracks@[k]).clips@.len() > 0 && t.tracks@[k].clips@[0].source is Generator
                && t.tracks@[k].clips@[0].offset_frames != 0xffff_ffff ==> prerender_frames(
                t,
                t.tracks@.len() as int,
            ).0.contains(t.tracks@[k].clips@[0].offset_frames),
{
    let n = t.tracks@.len() as int;
    lemma_prerender_frames(t, n);
    assert forall|k: int|
        0 <= k < n && (#[trigger] t.tracks@[k]).clips@.len() > 0 && t.tracks@[k].clips@[0].source is Generator
            && t.tracks@[k].clips@[0].offset_frames != 0xffff_ffff implies prerender_frames(t, n).0.contains(
        t.tracks@[k].clips@[0].offset_frames,
    ) by {
        lemma_generator_starts_contains(t, n, k);
        let g = generator_starts(t, n);
        let j = choose|j: int| 0 <= j < g.len() && g[j] == t.tracks@[k].clips@[0].offset_frames;
        let v = g[j];
        assert(v as i32 != -1) by (bit_vector)
            requires
                v != 0xffff_ffffu32;
        lemma_changes_contains(g, j);
    }
}

/// Each generator clip's start frame is among the generator starts.
proof fn lemma_generator_starts_contains(t: Timeline, n: int, k: int)
    requires
        0 <= k < n <= t.tracks@.len(),
        t.tracks@[k].clips@[0].source is Generator,
    ensures
        exists|j: int|
            0 <= j < generator_starts(t, n).len() && #[trigger] generator_starts(t, n)[j]
                == t.tracks@[k].clips@[0].offset_frames,
    decreases n,
{
    let g = generator_starts(t, n - 1);
    if k < n - 1 {
        lemma_generator_starts_contains(t, n - 1, k);
        let j = choose|j: int| 0 <= j < g.len() && #[trigger] g[j] == t.tracks@[k].clips@[0].offset_frames;
        if t.tracks@[n - 1].clips@[0].source is Generator {
            assert(generator_starts(t, n)[j] == g[j]);
        } else {
            assert(generator_starts(t, n) == g);
        }
    } else {
        assert(generator_starts(t, n)[g.len() as int] == t.tracks@[k].clips@[0].offset_frames);
    }
}

/// The start frames the player renders ahead while loading (see `prerender_frames`); every
/// track of the player's timeline holds a clip.
pub fn prerender_start_times(timeline: &Timeline) -> (frames: Vec<u32>)
    requires
        forall|k: int| 0 <= k < timeline.tracks@.len() ==> (#[trigger] timeline.tracks@[k]).clips@.len() >= 1,
    ensures
        frames@ == prerender_frames(*timeline, timeline.tracks@.len() as int).0,
{
    let mut frames: Vec<u32> = Vec::new();
    let mut last: i32 = -1;
    let mut k: usize = 0;
    while k < timeline.tracks.len()
        invariant
            k <= timeline.tracks@.len(),
            forall|kk: int| 0 <= kk < timeline.tracks@.len() ==> (#[trigger] timeline.tracks@[kk]).clips@.len() >= 1,
            (frames@, last) == prerender_frames(*timeline, k as int),
        decreases timeline.tracks@.len() - k,
    {
        assert(timeline.tracks@[k as int].clips@.len() >= 1);
        let clip = &timeline.tracks[k].clips[0];
        match clip.source {
            ClipSource::Generator => {
                let start = clip.offset_frames as i32;
                if start != last {
                    frames.push(clip.offset_frames);
                }
                last = start;
            },
            _ => {},
        }
        k = k + 1;
    }
    frames
}

} // verus!

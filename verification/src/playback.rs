//! Playback-side decisions of the timeline renderer: which assets to
//! prefetch around the playhead.

use vstd::prelude::*;

verus! {

/// The frame span of a clip on the timeline: it covers frames
/// `start_frame..end_frame` and shows asset `asset`.
#[derive(Clone, Copy, PartialEq, Eq, Structural, Debug)]
pub struct ClipSpan {
    pub asset: u64,
    pub start_frame: u64,
    pub end_frame: u64,
}

/// A track: whether it is visible, and its clips in track order.
#[derive(Clone, Debug)]
pub struct TrackSpan {
    pub visible: bool,
    pub clips: Vec<ClipSpan>,
}

/// Whether `clip` covers any frame of `start..end`.
pub open spec fn overlaps(clip: ClipSpan, start: u64, end: int) -> bool {
    clip.end_frame > start && clip.start_frame < end
}

/// The assets of the clips among `clips` that overlap `start..end`, in
/// order.
pub open spec fn overlapping_assets(clips: Seq<ClipSpan>, start: u64, end: int) -> Seq<u64>
    decreases clips.len(),
{
    if clips.len() == 0 {
        Seq::empty()
    } else {
        let earlier = overlapping_assets(clips.drop_last(), start, end);
        if overlaps(clips.last(), start, end) { earlier.push(clips.last().asset) } else { earlier }
    }
}

/// The assets to prefetch for the window `start..end`: the overlapping
/// clips of every visible track, track by track (an asset appears once per
/// clip).
pub open spec fn prefetch_targets(tracks: Seq<TrackSpan>, start: u64, end: int) -> Seq<u64>
    decreases tracks.len(),
{
    if tracks.len() == 0 {
        Seq::empty()
    } else {
        let earlier = prefetch_targets(tracks.drop_last(), start, end);
        if tracks.last().visible {
            earlier + overlapping_assets(tracks.last().clips@, start, end)
        } else {
            earlier
        }
    }
}

/// The assets whose frames `playhead..playhead + span` should be
/// prefetched.
pub fn prefetch_assets(tracks: &Vec<TrackSpan>, playhead: u64, span: u64) -> (assets: Vec<u64>)
    requires
        playhead + span <= u64::MAX,
    ensures
        assets@ == prefetch_targets(tracks@, playhead, playhead + span),
{
    let start = playhead;
    let end: u64 = playhead + span;
    let mut assets: Vec<u64> = Vec::new();
    let mut t: usize = 0;
    while t < tracks.len()
        invariant
            t <= tracks@.len(),
            end == start + span,
            assets@ == prefetch_targets(tracks@.take(t as int), start, end as int),
        decreases tracks@.len() - t,
    {
        let track = &tracks[t];
        let ghost before = assets@;
        if track.visible {
            let mut c: usize = 0;
            while c < track.clips.len()
                invariant
                    c <= track.clips@.len(),
                    assets@ == before + overlapping_assets(track.clips@.take(c as int), start, end as int),
                decreases track.clips@.len() - c,
            {
                let clip = track.clips[c];
                assert(track.clips@.take(c + 1).drop_last() =~= track.clips@.take(c as int));
                if clip.end_frame > start && clip.start_frame < end {
                    assets.push(clip.asset);
                }
                assert(assets@ =~= before + overlapping_assets(track.clips@.take(c + 1), start, end as int));
                c += 1;
            }
            assert(track.clips@.take(track.clips@.len() as int) =~= track.clips@);
        }
        assert(tracks@.take(t + 1).drop_last() =~= tracks@.take(t as int));
        t += 1;
    }
    assert(tracks@.take(tracks@.len() as int) =~= tracks@);
    assets
}

proof fn lemma_overlapping_members(clips: Seq<ClipSpan>, start: u64, end: int, a: u64)
    ensures
        overlapping_assets(clips, start, end).contains(a) <==> exists|i: int|
            0 <= i < clips.len() && #[trigger] overlaps(clips[i], start, end) && clips[i].asset == a,
    decreases clips.len(),
{
    if clips.len() > 0 {
        let init = clips.drop_last();
        lemma_overlapping_members(init, start, end, a);
        let earlier = overlapping_assets(init, start, end);
        if overlapping_assets(clips, start, end).contains(a) {
            if earlier.contains(a) {
                let i = choose|i: int| 0 <= i < init.len() && #[trigger] overlaps(init[i], start, end) && init[i].asset == a;
                assert(clips[i] == init[i]);
            } else {
                assert(overlaps(clips[clips.len() - 1], start, end));
            }
        }
        if exists|i: int| 0 <= i < clips.len() && #[trigger] overlaps(clips[i], start, end) && clips[i].asset == a {
            let i = choose|i: int| 0 <= i < clips.len() && #[trigger] overlaps(clips[i], start, end) && clips[i].asset == a;
            if i < init.len() {
                assert(init[i] == clips[i]);
                assert(earlier.contains(a));
                let k = choose|k: int| 0 <= k < earlier.len() && earlier[k] == a;
                assert(overlapping_assets(clips, start, end)[k] == a);
            } else {
                let r = overlapping_assets(clips, start, end);
                assert(r[r.len() - 1] == a);
            }
        }
    }
}

/// Law: an asset is prefetched exactly when some clip of a visible track
/// shows it during the window.
pub proof fn lemma_prefetch_targets_exact(tracks: Seq<TrackSpan>, start: u64, end: int, a: u64)
    ensures
        prefetch_targets(tracks, start, end).contains(a) <==> exists|t: int, i: int|
            0 <= t < tracks.len() && tracks[t].visible && 0 <= i < tracks[t].clips@.len()
                && #[trigger] overlaps(tracks[t].clips@[i], start, end) && tracks[t].clips@[i].asset == a,
    decreases tracks.len(),
{
    if tracks.len() > 0 {
        let init = tracks.drop_last();
        let last = tracks.last();
        lemma_prefetch_targets_exact(init, start, end, a);
        lemma_overlapping_members(last.clips@, start, end, a);
        let earlier = prefetch_targets(init, start, end);
        let all = prefetch_targets(tracks, start, end);
        let own = overlapping_assets(last.clips@, start, end);
        if all.contains(a) {
            let k = choose|k: int| 0 <= k < all.len() && all[k] == a;
            if k < earlier.len() {
                assert(earlier[k] == a);
                assert(earlier.contains(a));
                let (t, i) = choose|t: int, i: int|
                    0 <= t < init.len() && init[t].visible && 0 <= i < init[t].clips@.len()
                        && #[trigger] overlaps(init[t].clips@[i], start, end) && init[t].clips@[i].asset == a;
                assert(tracks[t] == init[t]);
            } else {
                assert(last.visible);
                assert(own[k - earlier.len()] == a);
                assert(own.contains(a));
                let i = choose|i: int| 0 <= i < last.clips@.len() && #[trigger] overlaps(last.clips@[i], start, end) && last.clips@[i].asset == a;
                assert(overlaps(tracks[tracks.len() - 1].clips@[i], start, end));
            }
        }
        if exists|t: int, i: int|
            0 <= t < tracks.len() && tracks[t].visible && 0 <= i < tracks[t].clips@.len()
                && #[trigger] overlaps(tracks[t].clips@[i], start, end) && tracks[t].clips@[i].asset == a {
            let (t, i) = choose|t: int, i: int|
                0 <= t < tracks.len() && tracks[t].visible && 0 <= i < tracks[t].clips@.len()
                    && #[trigger] overlaps(tracks[t].clips@[i], start, end) && tracks[t].clips@[i].asset == a;
            if t < init.len() {
                assert(init[t] == tracks[t]);
                assert(overlaps(init[t].clips@[i], start, end));
                assert(earlier.contains(a));
                let k = choose|k: int| 0 <= k < earlier.len() && earlier[k] == a;
                assert(all[k] == a);
            } else {
                assert(own.contains(a));
                let k = choose|k: int| 0 <= k < own.len() && own[k] == a;
                assert(all[earlier.len() + k] == a);
            }
        }
    }
}

} // verus!

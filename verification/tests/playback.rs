use tpt_visual::playback::{prefetch_assets, ClipSpan, TrackSpan};

fn clip(asset: u64, start_frame: u64, end_frame: u64) -> ClipSpan {
    ClipSpan { asset, start_frame, end_frame }
}

#[test]
fn prefetch_picks_visible_clips_in_the_window() {
    let tracks = vec![
        TrackSpan { visible: true, clips: vec![clip(1, 0, 10), clip(2, 10, 20), clip(3, 30, 40)] },
        TrackSpan { visible: false, clips: vec![clip(4, 0, 100)] },
        TrackSpan { visible: true, clips: vec![clip(5, 15, 16), clip(1, 19, 25)] },
    ];
    // window 10..20
    assert_eq!(prefetch_assets(&tracks, 10, 10), vec![2, 5, 1]);
    // window 5..15: clip ending at frame 10 and the one starting at 10
    assert_eq!(prefetch_assets(&tracks, 5, 10), vec![1, 2]);
    // an empty span still selects the clips that started before the playhead and end after it
    assert_eq!(prefetch_assets(&tracks, 12, 0), vec![2]);
    assert!(prefetch_assets(&tracks, 10, 0).is_empty());
}

use tpt_visual::residency::{upload_route, GpuResidency, UploadRoute, GPU_FRAME_LIMIT};

#[test]
fn residency_evicts_the_least_recently_used_frame() {
    let mut r: GpuResidency<String> = GpuResidency::new();
    for f in 0..GPU_FRAME_LIMIT as u64 {
        assert!(!r.is_resident(f));
        r.touch(f, Some(format!("tex{f}")));
    }
    assert_eq!(r.len(), GPU_FRAME_LIMIT);
    // touching frame 0 makes frame 1 the least recently used
    r.touch(0, None);
    r.touch(100, Some("tex100".to_string()));
    assert_eq!(r.len(), GPU_FRAME_LIMIT);
    assert!(r.is_resident(0));
    assert!(!r.is_resident(1));
    assert!(r.is_resident(2));
    assert_eq!(r.get(100).map(String::as_str), Some("tex100"));
    assert_eq!(r.get(0).map(String::as_str), Some("tex0"));
    assert_eq!(r.get(1), None);
}

#[test]
fn residency_touch_keeps_or_replaces_texture() {
    let mut r: GpuResidency<u32> = GpuResidency::new();
    r.touch(7, Some(70));
    r.touch(7, None);
    assert_eq!(r.get(7), Some(&70));
    r.touch(7, Some(71));
    assert_eq!(r.get(7), Some(&71));
    assert_eq!(r.len(), 1);
}

#[test]
fn upload_routes() {
    assert_eq!(upload_route(true, true, false, false), UploadRoute::Resident);
    assert_eq!(upload_route(false, true, true, true), UploadRoute::CachedProxy);
    assert_eq!(upload_route(false, true, false, true), UploadRoute::DecodeProxy);
    assert_eq!(upload_route(false, false, true, true), UploadRoute::CachedFrame);
    assert_eq!(upload_route(false, false, false, false), UploadRoute::Decode);
}

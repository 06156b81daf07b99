use tpt_visual::frame_layout::{
    chroma_plane_size, chroma_shift, padded_bytes_per_row, unpad_rows, ChromaSubsampling, OffscreenLayout,
};

#[test]
fn readback_rows_are_padded_to_256_bytes() {
    assert_eq!(padded_bytes_per_row(0), 0);
    assert_eq!(padded_bytes_per_row(1), 256);
    assert_eq!(padded_bytes_per_row(64), 256);
    assert_eq!(padded_bytes_per_row(65), 512);
    assert_eq!(padded_bytes_per_row(1920), 7680);
    assert_eq!(padded_bytes_per_row(1366), 5632);
}

#[test]
fn offscreen_layout_geometry() {
    let layout = OffscreenLayout::for_size(100, 50);
    assert_eq!(layout.bytes_per_row, 512);
    assert!(layout.matches(100, 50));
    assert!(!layout.matches(100, 51));
    assert_eq!(layout.readback_size(), 512 * 50);
}

#[test]
fn unpadding_drops_row_padding() {
    // 2 pixels per row (8 bytes), rows 12 bytes apart, 3 rows
    let mut mapped = vec![0xeeu8; 12 * 2 + 8];
    for r in 0..3 {
        for c in 0..8 {
            mapped[r * 12 + c] = (r * 8 + c) as u8;
        }
    }
    let out = unpad_rows(&mapped, 2, 3, 12);
    assert_eq!(out, (0..24).map(|v| v as u8).collect::<Vec<u8>>());
    assert!(unpad_rows(&mapped, 2, 0, 12).is_empty());
}

#[test]
fn chroma_planes_round_up() {
    assert_eq!(chroma_shift(ChromaSubsampling::Yuv420), (1, 1));
    assert_eq!(chroma_shift(ChromaSubsampling::Yuv422), (1, 0));
    assert_eq!(chroma_shift(ChromaSubsampling::Yuv444), (0, 0));
    assert_eq!(chroma_plane_size(ChromaSubsampling::Yuv420, 1921, 1081), (961, 541));
    assert_eq!(chroma_plane_size(ChromaSubsampling::Yuv420, 1920, 1080), (960, 540));
    assert_eq!(chroma_plane_size(ChromaSubsampling::Yuv422, 1921, 1081), (961, 1081));
    assert_eq!(chroma_plane_size(ChromaSubsampling::Yuv444, 1921, 1081), (1921, 1081));
}

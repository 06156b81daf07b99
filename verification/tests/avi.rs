use tpt_visual::avi::{AviError, AviWriter};

fn le32(bytes: &[u8], at: usize) -> u32 {
    u32::from_le_bytes([bytes[at], bytes[at + 1], bytes[at + 2], bytes[at + 3]])
}

fn find(bytes: &[u8], tag: &[u8]) -> usize {
    bytes.windows(tag.len()).position(|w| w == tag).expect("tag present")
}

#[test]
fn empty_stream_layout() {
    let file = AviWriter::new(64, 32, 25).finish();
    assert_eq!(file.len(), 236);
    assert_eq!(&file[0..4], b"RIFF");
    assert_eq!(le32(&file, 4), 228);
    assert_eq!(&file[8..12], b"AVI ");
    assert_eq!(&file[12..16], b"LIST");
    assert_eq!(le32(&file, 16), 196);
    assert_eq!(&file[20..24], b"hdrl");
    assert_eq!(&file[24..28], b"avih");
    assert_eq!(le32(&file, 28), 60);
    // microseconds per frame at 25 fps, total time, flags
    assert_eq!(le32(&file, 32), 40_000);
    assert_eq!(le32(&file, 36), 0);
    assert_eq!(le32(&file, 48), 0x10);
    // suggested buffer, width, height
    assert_eq!(le32(&file, 64), 64 * 32 * 3);
    assert_eq!(le32(&file, 68), 64);
    assert_eq!(le32(&file, 72), 32);
    let strh = find(&file, b"strh");
    assert_eq!(&file[strh + 8..strh + 16], b"vidsMJPG");
    assert_eq!(le32(&file, strh + 8 + 24), 25);
    let strf = find(&file, b"strf");
    assert_eq!(le32(&file, strf + 4), 40);
    assert_eq!(le32(&file, strf + 8), 40);
    assert_eq!(&file[216..228], b"LIST\x04\x00\x00\x00movi");
    assert_eq!(&file[228..236], b"idx1\x00\x00\x00\x00");
}

#[test]
fn frames_are_chunked_padded_and_indexed() {
    let mut w = AviWriter::new(2, 2, 0);
    w.add_jpeg(&[1, 2, 3]);
    w.add_jpeg(&[4, 5, 6, 7]);
    assert_eq!(w.frame_count(), 2);
    assert_eq!(w.movi_len(), 12 + 12);
    let file = w.finish();
    let movi = find(&file, b"movi");
    assert_eq!(le32(&file, movi - 4), 4 + 24);
    assert_eq!(&file[movi + 4..movi + 16], &[b'0', b'0', b'd', b'c', 3, 0, 0, 0, 1, 2, 3, 0]);
    assert_eq!(&file[movi + 16..movi + 28], &[b'0', b'0', b'd', b'c', 4, 0, 0, 0, 4, 5, 6, 7]);
    let idx1 = find(&file, b"idx1");
    assert_eq!(le32(&file, idx1 + 4), 32);
    for (k, (offset, size)) in [(4u32, 3u32), (16, 4)].into_iter().enumerate() {
        let entry = idx1 + 8 + 16 * k;
        assert_eq!(&file[entry..entry + 4], b"00dc");
        assert_eq!(le32(&file, entry + 4), 0x10);
        assert_eq!(le32(&file, entry + 8), offset);
        assert_eq!(le32(&file, entry + 12), size);
        // the offset points at the frame's chunk, counted from the movi tag
        assert_eq!(&file[movi + offset as usize..movi + offset as usize + 4], b"00dc");
    }
    // a frame rate of 0 counts as 1 fps; two frames last two seconds
    assert_eq!(le32(&file, 32), 1_000_000);
    assert_eq!(le32(&file, 36), 2_000_000);
    assert_eq!(le32(&file, 4) as usize, file.len() - 8);
}

#[test]
fn rgba_frames_are_jpeg_encoded() {
    let mut w = AviWriter::new(2, 2, 30);
    let rgba: Vec<u8> = (0..16).map(|i| (i * 16) as u8).collect();
    assert!(w.add_rgba(&rgba, 2, 2, 90).is_ok());
    assert_eq!(w.frame_count(), 1);
    let file = w.finish();
    let movi = find(&file, b"movi");
    let size = le32(&file, movi + 8) as usize;
    let jpeg = &file[movi + 12..movi + 12 + size];
    assert_eq!(&jpeg[0..2], &[0xff, 0xd8]);
    assert_eq!(&jpeg[size - 2..], &[0xff, 0xd9]);
}

#[test]
fn empty_rgba_frame_is_rejected() {
    let mut w = AviWriter::new(0, 0, 30);
    match w.add_rgba(&[], 0, 0, 90) {
        Err(AviError::Jpeg(_)) => {}
        Ok(()) => panic!("a 0x0 frame cannot be encoded"),
    }
    assert_eq!(w.frame_count(), 0);
    assert_eq!(w.movi_len(), 0);
}

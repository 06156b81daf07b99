//! A minimal MJPEG AVI muxer: an AVI 1.0 file with a single `MJPG` video
//! stream and an `idx1` index.
//!
//! File layout (every chunk is padded to an even length):
//!
//! ```text
//! RIFF <size> "AVI "
//!   LIST <size> "hdrl"
//!     avih <60-byte main header>
//!     LIST <size> "strl"
//!       strh <56-byte stream header>
//!       strf <40-byte BITMAPINFOHEADER>
//!   LIST <size> "movi"
//!     00dc <jpeg>   (one per frame)
//!   idx1 <16 bytes per frame: "00dc", keyframe flag, offset, size>
//! ```
//!
//! Index offsets count from the `movi` tag, so the offset of a frame is the
//! number of `movi` payload bytes before its chunk plus four.

use vstd::prelude::*;

verus! {

/// Declares `image::ImageError` so that an encoder failure can be carried.
#[verifier::external_type_specification]
#[verifier::external_body]
pub struct ExImageError(image::ImageError);

/// Little-endian bytes of a 32-bit value.
pub open spec fn le32(x: u32) -> Seq<u8> {
    seq![(x % 0x100) as u8, ((x / 0x100) % 0x100) as u8, ((x / 0x1_0000) % 0x100) as u8, (x / 0x100_0000) as u8]
}

/// Little-endian bytes of a 16-bit value.
pub open spec fn le16(x: u16) -> Seq<u8> {
    seq![(x % 0x100) as u8, (x / 0x100) as u8]
}

/// A four-character code.
pub open spec fn fourcc(a: u8, b: u8, c: u8, d: u8) -> Seq<u8> {
    seq![a, b, c, d]
}

/// The tag of a compressed video frame chunk of stream 0.
pub open spec fn frame_tag() -> Seq<u8> {
    fourcc(0x30, 0x30, 0x64, 0x63)  // "00dc"
}

/// `n` zero bytes.
pub open spec fn zeros(n: nat) -> Seq<u8> {
    Seq::new(n, |i: int| 0u8)
}

/// The pad byte that keeps a chunk of `len` payload bytes word-aligned.
pub open spec fn pad_even(len: nat) -> Seq<u8> {
    if len % 2 == 1 { seq![0u8] } else { Seq::empty() }
}

/// A RIFF chunk: tag, payload size, payload, pad.
pub open spec fn chunk(tag: Seq<u8>, body: Seq<u8>) -> Seq<u8> {
    tag + le32(body.len() as u32) + body + pad_even(body.len())
}

/// A RIFF list: `LIST`, size (including the list type), list type, payload,
/// pad.
pub open spec fn list(list_type: Seq<u8>, body: Seq<u8>) -> Seq<u8> {
    fourcc(0x4c, 0x49, 0x53, 0x54) + le32((body.len() + 4) as u32) + list_type + body + pad_even(body.len() + 4)  // "LIST"
}

/// The `movi` payload chunk of one JPEG frame.
pub open spec fn frame_chunk(jpeg: Seq<u8>) -> Seq<u8> {
    chunk(frame_tag(), jpeg)
}

/// The `movi` payload for `frames`, in order.
pub open spec fn movi_payload(frames: Seq<Seq<u8>>) -> Seq<u8>
    decreases frames.len(),
{
    if frames.len() == 0 {
        Seq::empty()
    } else {
        movi_payload(frames.drop_last()) + frame_chunk(frames.last())
    }
}

/// The index offset of the frame that follows `earlier` frames.
pub open spec fn frame_offset(earlier: Seq<Seq<u8>>) -> u32 {
    ((movi_payload(earlier).len() as u32) + 4) as u32
}

/// The `idx1` payload for `frames`: per frame its tag, the keyframe flag,
/// its offset and its size.
pub open spec fn index_payload(frames: Seq<Seq<u8>>) -> Seq<u8>
    decreases frames.len(),
{
    if frames.len() == 0 {
        Seq::empty()
    } else {
        index_payload(frames.drop_last()) + frame_tag() + le32(0x10) + le32(frame_offset(frames.drop_last()))
            + le32(frames.last().len() as u32)
    }
}

/// Microseconds per frame at `fps` (a rate of 0 counts as 1).
pub open spec fn frame_duration_us(fps: u32) -> u32 {
    (1_000_000int / (if fps == 0 { 1int } else { fps as int })) as u32
}

/// The suggested buffer size of a `width` x `height` RGB frame.
pub open spec fn frame_buffer_size(width: u32, height: u32) -> u32 {
    (width * height * 3) as u32
}

/// The 60-byte `avih` main header.
pub open spec fn avih_payload(frames: u32, width: u32, height: u32, fps: u32) -> Seq<u8> {
    let us = frame_duration_us(fps);
    le32(us) + le32(((frames as int * us as int) % 0x1_0000_0000) as u32) + le32(0) + le32(0) + le32(0x10)
        + le32(frames) + le32(0) + le32(1) + le32(frame_buffer_size(width, height)) + le32(width)
        + le32(height) + zeros(16)
}

/// The 56-byte `strh` stream header.
pub open spec fn strh_payload(frames: u32, width: u32, height: u32, fps: u32) -> Seq<u8> {
    fourcc(0x76, 0x69, 0x64, 0x73) + fourcc(0x4d, 0x4a, 0x50, 0x47) + le32(0) + le16(0) + le16(0) + le32(0)  // "vids", "MJPG"
        + le32(1) + le32(fps) + le32(0) + le32(frames) + le32(frame_buffer_size(width, height))
        + le32(0xffff_ffff) + le32(0) + zeros(8)
}

/// The 40-byte `strf` BITMAPINFOHEADER.
pub open spec fn strf_payload(width: u32, height: u32) -> Seq<u8> {
    le32(40) + le32(width) + le32(height) + le16(1) + le16(24) + fourcc(0x4d, 0x4a, 0x50, 0x47)  // "MJPG"
        + le32(frame_buffer_size(width, height)) + le32(0) + le32(0) + le32(0) + le32(0)
}

/// The `hdrl` list.
pub open spec fn hdrl_list(frames: u32, width: u32, height: u32, fps: u32) -> Seq<u8> {
    let avih = chunk(fourcc(0x61, 0x76, 0x69, 0x68), avih_payload(frames, width, height, fps));  // "avih"
    let strh = chunk(fourcc(0x73, 0x74, 0x72, 0x68), strh_payload(frames, width, height, fps));  // "strh"
    let strf = chunk(fourcc(0x73, 0x74, 0x72, 0x66), strf_payload(width, height));  // "strf"
    list(fourcc(0x68, 0x64, 0x72, 0x6c), avih + list(fourcc(0x73, 0x74, 0x72, 0x6c), strh + strf))  // "hdrl", "strl"
}

/// The complete AVI file for `frames` of a `width` x `height` stream at
/// `fps`.
pub open spec fn avi_file(width: u32, height: u32, fps: u32, frames: Seq<Seq<u8>>) -> Seq<u8> {
    let hdrl = hdrl_list(frames.len() as u32, width, height, fps);
    let movi = list(fourcc(0x6d, 0x6f, 0x76, 0x69), movi_payload(frames));  // "movi"
    let idx1 = chunk(fourcc(0x69, 0x64, 0x78, 0x31), index_payload(frames));  // "idx1"
    let body = hdrl + movi + idx1;
    fourcc(0x52, 0x49, 0x46, 0x46) + le32((body.len() + 4) as u32) + fourcc(0x41, 0x56, 0x49, 0x20) + body  // "RIFF", "AVI "
}

/// The RGB bytes of packed RGBA pixels (alpha dropped; a trailing partial
/// pixel is ignored).
pub open spec fn strip_alpha(rgba: Seq<u8>) -> Seq<u8> {
    Seq::new((rgba.len() / 4) * 3, |i: int| rgba[(i / 3) * 4 + i % 3])
}

/// The baseline JPEG that `image`'s encoder writes for an RGB8 image at
/// `quality`.
pub uninterp spec fn jpeg_rgb8(rgb: Seq<u8>, width: u32, height: u32, quality: u8) -> Seq<u8>;

/// Encodes `rgb` (3 bytes per pixel) as a JPEG with
/// `image::codecs::jpeg::JpegEncoder::new_with_quality` and `encode` with
/// `ExtendedColorType::Rgb8`. The encoder panics unless the buffer holds
/// exactly `width * height` pixels, fails with an invalid-size error
/// unless both dimensions are in `1..=65535`, and writes to a `Vec`, which
/// cannot fail; the bytes it produces are not stated beyond being
/// determined by its arguments.
#[verifier::external_body]
fn encode_jpeg(rgb: &[u8], width: u32, height: u32, quality: u8) -> (res: Result<Vec<u8>, image::ImageError>)
    requires
        rgb@.len() == width as int * height as int * 3,
    ensures
        res is Ok <==> (1 <= width <= 65535 && 1 <= height <= 65535),
        res matches Ok(jpeg) ==> jpeg@ == jpeg_rgb8(rgb@, width, height, quality),
{
    let mut jpeg = Vec::new();
    let mut encoder = image::codecs::jpeg::JpegEncoder::new_with_quality(&mut jpeg, quality);
    encoder.encode(rgb, width, height, image::ExtendedColorType::Rgb8)?;
    Ok(jpeg)
}

/// Why a frame could not be added.
#[derive(Debug)]
pub enum AviError {
    /// The JPEG encoder rejected the frame.
    Jpeg(image::ImageError),
}

fn push_le32(out: &mut Vec<u8>, x: u32)
    ensures
        final(out)@ == old(out)@ + le32(x),
{
    out.push((x % 0x100) as u8);
    out.push(((x / 0x100) % 0x100) as u8);
    out.push(((x / 0x1_0000) % 0x100) as u8);
    out.push((x / 0x100_0000) as u8);
    assert(out@ =~= old(out)@ + le32(x));
}

fn push_le16(out: &mut Vec<u8>, x: u16)
    ensures
        final(out)@ == old(out)@ + le16(x),
{
    out.push((x % 0x100) as u8);
    out.push((x / 0x100) as u8);
    assert(out@ =~= old(out)@ + le16(x));
}

fn push_fourcc(out: &mut Vec<u8>, a: u8, b: u8, c: u8, d: u8)
    ensures
        final(out)@ == old(out)@ + fourcc(a, b, c, d),
{
    out.push(a);
    out.push(b);
    out.push(c);
    out.push(d);
    assert(out@ =~= old(out)@ + fourcc(a, b, c, d));
}

fn push_zeros(out: &mut Vec<u8>, n: usize)
    ensures
        final(out)@ == old(out)@ + zeros(n as nat),
{
    let ghost start = out@;
    let mut k: usize = 0;
    while k < n
        invariant
            k <= n,
            out@ =~= start + zeros(k as nat),
        decreases n - k,
    {
        out.push(0);
        k += 1;
    }
}

fn push_all(out: &mut Vec<u8>, bytes: &[u8])
    ensures
        final(out)@ == old(out)@ + bytes@,
{
    let ghost start = out@;
    let mut k: usize = 0;
    while k < bytes.len()
        invariant
            k <= bytes@.len(),
            out@ =~= start + bytes@.subrange(0, k as int),
        decreases bytes@.len() - k,
    {
        out.push(bytes[k]);
        k += 1;
    }
    assert(bytes@.subrange(0, bytes@.len() as int) =~= bytes@);
}

fn push_pad(out: &mut Vec<u8>, len: usize)
    ensures
        final(out)@ == old(out)@ + pad_even(len as nat),
{
    if len % 2 == 1 {
        out.push(0);
    }
    assert(out@ =~= old(out)@ + pad_even(len as nat));
}

fn make_chunk(a: u8, b: u8, c: u8, d: u8, body: &Vec<u8>) -> (out: Vec<u8>)
    ensures
        out@ == chunk(fourcc(a, b, c, d), body@),
{
    let mut out: Vec<u8> = Vec::new();
    push_fourcc(&mut out, a, b, c, d);
    push_le32(&mut out, body.len() as u32);
    push_all(&mut out, body.as_slice());
    push_pad(&mut out, body.len());
    assert(out@ =~= chunk(fourcc(a, b, c, d), body@));
    out
}

fn make_list(a: u8, b: u8, c: u8, d: u8, body: &Vec<u8>) -> (out: Vec<u8>)
    ensures
        out@ == list(fourcc(a, b, c, d), body@),
{
    let size: u128 = body.len() as u128 + 4;
    let mut out: Vec<u8> = Vec::new();
    push_fourcc(&mut out, 0x4c, 0x49, 0x53, 0x54);  // "LIST"
    push_le32(&mut out, size as u32);
    push_fourcc(&mut out, a, b, c, d);
    push_all(&mut out, body.as_slice());
    if size % 2 == 1 {
        out.push(0);
    }
    assert(out@ =~= list(fourcc(a, b, c, d), body@));
    out
}

/// An in-progress MJPEG AVI stream.
pub struct AviWriter {
    width: u32,
    height: u32,
    fps: u32,
    frame_offsets: Vec<u32>,
    frame_sizes: Vec<u32>,
    movi_data: Vec<u8>,
    frames: Ghost<Seq<Seq<u8>>>,
}

impl AviWriter {
    /// Frame width.
    pub closed spec fn width(&self) -> u32 {
        self.width
    }

    /// Frame height.
    pub closed spec fn height(&self) -> u32 {
        self.height
    }

    /// Frames per second.
    pub closed spec fn fps(&self) -> u32 {
        self.fps
    }

    /// The JPEG frames added so far.
    pub closed spec fn frames(&self) -> Seq<Seq<u8>> {
        self.frames@
    }

    /// The buffered `movi` payload mirrors the frames, and the index
    /// entries record each frame's offset and size.
    pub closed spec fn wf(&self) -> bool {
        &&& self.movi_data@ == movi_payload(self.frames@)
        &&& self.frame_offsets@.len() == self.frames@.len()
        &&& self.frame_sizes@.len() == self.frames@.len()
        &&& forall|k: int| 0 <= k < self.frames@.len() ==> #[trigger] self.frame_offsets@[k] == frame_offset(self.frames@.take(k))
        &&& forall|k: int| 0 <= k < self.frames@.len() ==> #[trigger] self.frame_sizes@[k] == self.frames@[k].len() as u32
    }

    /// Starts a stream with the given geometry and rate.
    pub fn new(width: u32, height: u32, fps: u32) -> (w: Self)
        ensures
            w.wf(),
            w.width() == width,
            w.height() == height,
            w.fps() == fps,
            w.frames() == Seq::<Seq<u8>>::empty(),
    {
        AviWriter {
            width,
            height,
            fps,
            frame_offsets: Vec::new(),
            frame_sizes: Vec::new(),
            movi_data: Vec::new(),
            frames: Ghost(Seq::empty()),
        }
    }

    /// Number of frames added so far.
    pub fn frame_count(&self) -> (n: usize)
        requires
            self.wf(),
        ensures
            n == self.frames().len(),
    {
        self.frame_offsets.len()
    }

    /// Bytes of `movi` payload buffered so far.
    pub fn movi_len(&self) -> (n: usize)
        requires
            self.wf(),
        ensures
            n == movi_payload(self.frames()).len(),
    {
        self.movi_data.len()
    }

    /// Appends one JPEG-encoded frame.
    pub fn add_jpeg(&mut self, jpeg: &[u8])
        requires
            old(self).wf(),
            (movi_payload(old(self).frames()).len() as u32) + 4 <= u32::MAX,
        ensures
            final(self).wf(),
            final(self).frames() == old(self).frames().push(jpeg@),
            final(self).width() == old(self).width(),
            final(self).height() == old(self).height(),
            final(self).fps() == old(self).fps(),
    {
        let ghost before = self.frames@;
        let offset: u32 = self.movi_data.len() as u32 + 4;
        self.frame_offsets.push(offset);
        self.frame_sizes.push(jpeg.len() as u32);
        push_fourcc(&mut self.movi_data, 0x30, 0x30, 0x64, 0x63);  // "00dc"
        push_le32(&mut self.movi_data, jpeg.len() as u32);
        push_all(&mut self.movi_data, jpeg);
        push_pad(&mut self.movi_data, jpeg.len());
        self.frames = Ghost(before.push(jpeg@));
        proof {
            let after = before.push(jpeg@);
            assert(after.drop_last() =~= before);
            assert(self.movi_data@ =~= movi_payload(after));
            assert forall|k: int| 0 <= k < after.len() implies #[trigger] self.frame_offsets@[k] == frame_offset(after.take(k)) by {
                if k < before.len() {
                    assert(after.take(k) =~= before.take(k));
                } else {
                    assert(after.take(k) =~= before);
                }
            }
            assert forall|k: int| 0 <= k < after.len() implies #[trigger] self.frame_sizes@[k] == after[k].len() as u32 by {
                if k < before.len() {
                    assert(after[k] == before[k]);
                }
            }
        }
    }

    /// Drops the alpha channel of `rgba`, encodes the frame as a JPEG at
    /// `quality`, and appends it; an encoder failure leaves the stream
    /// unchanged.
    pub fn add_rgba(&mut self, rgba: &[u8], width: u32, height: u32, quality: u8) -> (res: Result<(), AviError>)
        requires
            old(self).wf(),
            width as int * height as int * 3 <= u32::MAX,
            rgba@.len() / 4 == width as int * height as int,
            (movi_payload(old(self).frames()).len() as u32) + 4 <= u32::MAX,
        ensures
            final(self).wf(),
            final(self).width() == old(self).width(),
            final(self).height() == old(self).height(),
            final(self).fps() == old(self).fps(),
            res is Ok <==> (1 <= width <= 65535 && 1 <= height <= 65535),
            res is Ok ==> final(self).frames() == old(self).frames().push(
                jpeg_rgb8(strip_alpha(rgba@), width, height, quality),
            ),
            res is Err ==> final(self).frames() == old(self).frames(),
    {
        let pixels: usize = rgba.len() / 4;
        let mut rgb: Vec<u8> = Vec::new();
        let mut p: usize = 0;
        while p < pixels
            invariant
                p <= pixels,
                pixels == rgba@.len() / 4,
                rgb@.len() == p * 3,
                forall|i: int| 0 <= i < p * 3 ==> #[trigger] rgb@[i] == rgba@[(i / 3) * 4 + i % 3],
            decreases pixels - p,
        {
            let ghost before = rgb@;
            let len = rgba.len();
            assert(4 * p + 3 < len) by (nonlinear_arith)
                requires
                    p < pixels,
                    pixels == len / 4,
            ;
            rgb.push(rgba[4 * p]);
            rgb.push(rgba[4 * p + 1]);
            rgb.push(rgba[4 * p + 2]);
            assert forall|i: int| 0 <= i < (p + 1) * 3 implies #[trigger] rgb@[i] == rgba@[(i / 3) * 4 + i % 3] by {
                if i < p * 3 {
                    assert(rgb@[i] == before[i]);
                } else {
                    assert(i / 3 == p && i % 3 == i - p * 3);
                }
            }
            p += 1;
        }
        assert(rgb@ =~= strip_alpha(rgba@));
        match encode_jpeg(rgb.as_slice(), width, height, quality) {
            Ok(jpeg) => {
                self.add_jpeg(jpeg.as_slice());
                Ok(())
            },
            Err(e) => Err(AviError::Jpeg(e)),
        }
    }

    /// The `idx1` payload for the frames added so far.
    fn index_bytes(&self) -> (index: Vec<u8>)
        requires
            self.wf(),
        ensures
            index@ == index_payload(self.frames()),
    {
        let mut index: Vec<u8> = Vec::new();
        let mut k: usize = 0;
        while k < self.frame_offsets.len()
            invariant
                self.wf(),
                k <= self.frames@.len(),
                index@ == index_payload(self.frames@.take(k as int)),
            decreases self.frames@.len() - k,
        {
            push_fourcc(&mut index, 0x30, 0x30, 0x64, 0x63);  // "00dc"
            push_le32(&mut index, 0x10);
            push_le32(&mut index, self.frame_offsets[k]);
            push_le32(&mut index, self.frame_sizes[k]);
            proof {
                let next = self.frames@.take(k + 1);
                assert(next.drop_last() =~= self.frames@.take(k as int));
                assert(next.last() == self.frames@[k as int]);
                assert(index@ =~= index_payload(next));
            }
            k += 1;
        }
        assert(self.frames@.take(self.frames@.len() as int) =~= self.frames@);
        index
    }

    /// Finishes the stream and returns the complete AVI file.
    pub fn finish(self) -> (file: Vec<u8>)
        requires
            self.wf(),
            self.width() as int * self.height() as int * 3 <= u32::MAX,
        ensures
            file@ == avi_file(self.width(), self.height(), self.fps(), self.frames()),
    {
        let frames: u32 = self.frame_offsets.len() as u32;
        let hdrl = header_list(frames, self.width, self.height, self.fps);
        let movi = make_list(0x6d, 0x6f, 0x76, 0x69, &self.movi_data);  // "movi"
        let index = self.index_bytes();
        let idx1 = make_chunk(0x69, 0x64, 0x78, 0x31, &index);  // "idx1"

        let body_len: u128 = hdrl.len() as u128 + movi.len() as u128 + idx1.len() as u128;
        let mut riff: Vec<u8> = Vec::new();
        push_fourcc(&mut riff, 0x52, 0x49, 0x46, 0x46);  // "RIFF"
        push_le32(&mut riff, (body_len + 4) as u32);
        push_fourcc(&mut riff, 0x41, 0x56, 0x49, 0x20);  // "AVI "
        push_all(&mut riff, hdrl.as_slice());
        push_all(&mut riff, movi.as_slice());
        push_all(&mut riff, idx1.as_slice());
        assert(riff@ =~= avi_file(self.width, self.height, self.fps, self.frames@));
        riff
    }
}

/// The `avih` chunk.
fn main_header_chunk(frames: u32, w: u32, h: u32, fps: u32) -> (out: Vec<u8>)
    requires
        w as int * h as int * 3 <= u32::MAX,
    ensures
        out@ == chunk(fourcc(0x61, 0x76, 0x69, 0x68), avih_payload(frames, w, h, fps)),  // "avih"
{
    let rate: u32 = if fps > 1 { fps } else { 1 };
    let frame_len_us: u32 = 1_000_000 / rate;
    let mut avih: Vec<u8> = Vec::new();
    push_le32(&mut avih, frame_len_us);
    push_le32(&mut avih, frames.wrapping_mul(frame_len_us));
    push_le32(&mut avih, 0);
    push_le32(&mut avih, 0);
    push_le32(&mut avih, 0x10);
    push_le32(&mut avih, frames);
    push_le32(&mut avih, 0);
    push_le32(&mut avih, 1);
    push_le32(&mut avih, w * h * 3);
    push_le32(&mut avih, w);
    push_le32(&mut avih, h);
    push_zeros(&mut avih, 16);
    assert(avih@ =~= avih_payload(frames, w, h, fps));
    make_chunk(0x61, 0x76, 0x69, 0x68, &avih)  // "avih"
}

/// The `strl` list: stream header and format.
fn stream_list(frames: u32, w: u32, h: u32, fps: u32) -> (out: Vec<u8>)
    requires
        w as int * h as int * 3 <= u32::MAX,
    ensures
        out@ == list(
            fourcc(0x73, 0x74, 0x72, 0x6c),  // "strl"
            chunk(fourcc(0x73, 0x74, 0x72, 0x68), strh_payload(frames, w, h, fps))  // "strh"
                + chunk(fourcc(0x73, 0x74, 0x72, 0x66), strf_payload(w, h)),  // "strf"
        ),
{
    let buffer_size: u32 = w * h * 3;
    let mut strh: Vec<u8> = Vec::new();
    push_fourcc(&mut strh, 0x76, 0x69, 0x64, 0x73);  // "vids"
    push_fourcc(&mut strh, 0x4d, 0x4a, 0x50, 0x47);  // "MJPG"
    push_le32(&mut strh, 0);
    push_le16(&mut strh, 0);
    push_le16(&mut strh, 0);
    push_le32(&mut strh, 0);
    push_le32(&mut strh, 1);
    push_le32(&mut strh, fps);
    push_le32(&mut strh, 0);
    push_le32(&mut strh, frames);
    push_le32(&mut strh, buffer_size);
    push_le32(&mut strh, 0xffff_ffff);
    push_le32(&mut strh, 0);
    push_zeros(&mut strh, 8);
    assert(strh@ =~= strh_payload(frames, w, h, fps));
    let strh = make_chunk(0x73, 0x74, 0x72, 0x68, &strh);  // "strh"

    let mut strf: Vec<u8> = Vec::new();
    push_le32(&mut strf, 40);
    push_le32(&mut strf, w);
    push_le32(&mut strf, h);
    push_le16(&mut strf, 1);
    push_le16(&mut strf, 24);
    push_fourcc(&mut strf, 0x4d, 0x4a, 0x50, 0x47);  // "MJPG"
    push_le32(&mut strf, buffer_size);
    push_le32(&mut strf, 0);
    push_le32(&mut strf, 0);
    push_le32(&mut strf, 0);
    push_le32(&mut strf, 0);
    assert(strf@ =~= strf_payload(w, h));
    let strf = make_chunk(0x73, 0x74, 0x72, 0x66, &strf);  // "strf"

    let mut stream: Vec<u8> = Vec::new();
    push_all(&mut stream, strh.as_slice());
    push_all(&mut stream, strf.as_slice());
    make_list(0x73, 0x74, 0x72, 0x6c, &stream)  // "strl"
}

/// The `hdrl` list.
fn header_list(frames: u32, w: u32, h: u32, fps: u32) -> (out: Vec<u8>)
    requires
        w as int * h as int * 3 <= u32::MAX,
    ensures
        out@ == hdrl_list(frames, w, h, fps),
{
    let avih = main_header_chunk(frames, w, h, fps);
    let strl = stream_list(frames, w, h, fps);
    let mut header: Vec<u8> = Vec::new();
    push_all(&mut header, avih.as_slice());
    push_all(&mut header, strl.as_slice());
    let hdrl = make_list(0x68, 0x64, 0x72, 0x6c, &header);  // "hdrl"
    assert(hdrl@ =~= hdrl_list(frames, w, h, fps));
    hdrl
}

proof fn lemma_movi_prefix(frames: Seq<Seq<u8>>, k: int)
    requires
        0 <= k < frames.len(),
    ensures
        movi_payload(frames.take(k + 1)) == movi_payload(frames.take(k)) + frame_chunk(frames[k]),
        movi_payload(frames.take(k + 1)).is_prefix_of(movi_payload(frames)),
    decreases frames.len(),
{
    assert(frames.take(k + 1).drop_last() =~= frames.take(k));
    if k + 1 < frames.len() {
        lemma_movi_prefix(frames.drop_last(), k);
        assert(frames.drop_last().take(k + 1) =~= frames.take(k + 1));
        assert(frames.drop_last().take(k) =~= frames.take(k));
    } else {
        assert(frames.take(k + 1) =~= frames);
    }
}

/// Law: the index entry of every frame locates its chunk in the `movi`
/// payload: four bytes before the recorded offset start the frame's tag,
/// its size, and its JPEG bytes.
pub proof fn lemma_index_locates_frames(frames: Seq<Seq<u8>>, k: int)
    requires
        0 <= k < frames.len(),
        movi_payload(frames).len() + 4 <= u32::MAX,
    ensures
        frame_offset(frames.take(k)) == movi_payload(frames.take(k)).len() + 4,
        movi_payload(frames).subrange(
            frame_offset(frames.take(k)) - 4,
            frame_offset(frames.take(k)) + 4 + frames[k].len(),
        ) == frame_tag() + le32(frames[k].len() as u32) + frames[k],
{
    lemma_movi_prefix(frames, k);
    let before = movi_payload(frames.take(k));
    let start = before.len() as int;
    let c = frame_chunk(frames[k]);
    let head = frame_tag() + le32(frames[k].len() as u32) + frames[k];
    assert(c == head + pad_even(frames[k].len()));
    assert(head.len() == 8 + frames[k].len());
    let whole = movi_payload(frames);
    let upto = movi_payload(frames.take(k + 1));
    assert(upto == before + c);
    assert(start <= whole.len());
    assert((start as u32) == start);
    assert(upto.len() <= whole.len()) by {
        assert(upto.is_prefix_of(whole));
    }
    let window = whole.subrange(start, start + 8 + frames[k].len());
    assert forall|i: int| 0 <= i < head.len() implies #[trigger] window[i] == head[i] by {
        assert(window[i] == whole[start + i]);
        assert(whole[start + i] == upto[start + i]);
        assert(upto[start + i] == c[i]);
        assert(c[i] == head[i]);
    }
    assert(window =~= head);
}

/// Law: the RIFF size field counts every byte after it, and the file and
/// the `movi` payload stay word-aligned.
pub proof fn lemma_riff_size_matches(width: u32, height: u32, fps: u32, frames: Seq<Seq<u8>>)
    requires
        avi_file(width, height, fps, frames).len() <= u32::MAX,
    ensures
        avi_file(width, height, fps, frames).len() == 8 + (avi_file(width, height, fps, frames).len() - 8) as u32,
        movi_payload(frames).len() % 2 == 0,
    decreases frames.len(),
{
    if frames.len() > 0 {
        lemma_movi_even(frames);
    }
}

proof fn lemma_movi_even(frames: Seq<Seq<u8>>)
    ensures
        movi_payload(frames).len() % 2 == 0,
    decreases frames.len(),
{
    if frames.len() > 0 {
        lemma_movi_even(frames.drop_last());
    }
}

} // verus!

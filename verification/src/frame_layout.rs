//! Byte layouts of frames moving between the CPU and the GPU: the padded
//! rows of an offscreen readback buffer, and the plane sizes of planar YUV
//! uploads.

use vstd::prelude::*;
use vstd::arithmetic::power2::{pow2, lemma2_to64};
use vstd::bits::lemma_u32_shr_is_div;

verus! {

/// Row alignment that GPU buffer copies require, in bytes.
pub const COPY_ROW_ALIGNMENT: u32 = 256;

/// The bytes of one packed RGBA row of `width` pixels, rounded up to the
/// copy row alignment.
pub open spec fn padded_row_bytes(width: u32) -> int {
    ((width as int * 4 + 255) / 256) * 256
}

/// The bytes per row of a readback buffer for `width` RGBA pixels.
pub fn padded_bytes_per_row(width: u32) -> (bytes: u32)
    requires
        padded_row_bytes(width) <= u32::MAX,
    ensures
        bytes == padded_row_bytes(width),
        bytes % COPY_ROW_ALIGNMENT == 0,
        width * 4 <= bytes < width * 4 + COPY_ROW_ALIGNMENT,
{
    let row: u64 = width as u64 * 4;
    (((row + 255) / 256) * 256) as u32
}

/// The geometry of the offscreen render target and its readback buffer.
#[derive(Clone, Copy, PartialEq, Eq, Structural, Debug)]
pub struct OffscreenLayout {
    pub width: u32,
    pub height: u32,
    pub bytes_per_row: u32,
}

impl OffscreenLayout {
    /// The layout for a `width` x `height` target.
    pub fn for_size(width: u32, height: u32) -> (layout: OffscreenLayout)
        requires
            padded_row_bytes(width) <= u32::MAX,
        ensures
            layout == (OffscreenLayout { width, height, bytes_per_row: padded_row_bytes(width) as u32 }),
    {
        OffscreenLayout { width, height, bytes_per_row: padded_bytes_per_row(width) }
    }

    /// Whether the target can be kept for a `width` x `height` frame (it is
    /// rebuilt otherwise).
    pub fn matches(&self, width: u32, height: u32) -> (b: bool)
        ensures
            b == (self.width == width && self.height == height),
    {
        self.width == width && self.height == height
    }

    /// Size of the readback buffer in bytes.
    pub fn readback_size(&self) -> (size: u64)
        requires
            self.bytes_per_row as int * self.height as int <= u32::MAX,
        ensures
            size == self.bytes_per_row as int * self.height as int,
    {
        (self.bytes_per_row * self.height) as u64
    }
}

/// The tightly packed rows of a padded buffer: `height` rows of
/// `row_bytes` bytes, row `r` read from offset `r * bytes_per_row`.
pub open spec fn unpadded(mapped: Seq<u8>, row_bytes: nat, bytes_per_row: nat, height: nat) -> Seq<u8> {
    Seq::new(height * row_bytes, |i: int| mapped[(i / row_bytes as int) * bytes_per_row + i % row_bytes as int])
}

/// Copies the `width * 4` pixel bytes of each of `height` rows out of a
/// mapped readback buffer whose rows are `bytes_per_row` apart.
pub fn unpad_rows(mapped: &[u8], width: u32, height: u32, bytes_per_row: u32) -> (out: Vec<u8>)
    requires
        width as int * 4 <= u32::MAX,
        height > 0 ==> (height - 1) as int * bytes_per_row as int <= u32::MAX,
        height > 0 ==> (height - 1) as int * bytes_per_row as int + width as int * 4 <= mapped@.len(),
    ensures
        out@ == unpadded(mapped@, width as nat * 4, bytes_per_row as nat, height as nat),
{
    let row_bytes: usize = (width * 4) as usize;
    let ghost rb = row_bytes as int;
    let ghost bpr = bytes_per_row as int;
    let n: usize = mapped.len();
    let mut out: Vec<u8> = Vec::new();
    let mut row: u32 = 0;
    while row < height
        invariant
            row <= height,
            rb == width as int * 4,
            rb == row_bytes,
            n == mapped@.len(),
            bpr == bytes_per_row as int,
            height > 0 ==> (height - 1) as int * bpr <= u32::MAX,
            height > 0 ==> (height - 1) as int * bpr + rb <= mapped@.len(),
            out@.len() == row as int * rb,
            forall|i: int| 0 <= i < out@.len() ==> #[trigger] out@[i] == mapped@[(i / rb) * bpr + i % rb],
        decreases height - row,
    {
        assert(row as int * bpr <= (height - 1) as int * bpr) by (nonlinear_arith)
            requires
                row < height,
                bpr >= 0,
        ;
        let start: usize = (row * bytes_per_row) as usize;
        let mut c: usize = 0;
        while c < row_bytes
            invariant
                c <= row_bytes,
                row < height,
                n == mapped@.len(),
                rb == row_bytes,
                start as int == row as int * bpr,
                start as int + rb <= mapped@.len(),
                out@.len() == row as int * rb + c,
                forall|i: int| 0 <= i < row as int * rb ==> #[trigger] out@[i] == mapped@[(i / rb) * bpr + i % rb],
                forall|k: int| 0 <= k < c ==> #[trigger] out@[row as int * rb + k] == mapped@[start + k],
            decreases row_bytes - c,
        {
            let ghost prev = out@;
            out.push(mapped[start + c]);
            assert forall|i: int| 0 <= i < row as int * rb implies #[trigger] out@[i] == mapped@[(i / rb) * bpr + i % rb] by {
                assert(out@[i] == prev[i]);
            }
            assert forall|k: int| 0 <= k < c + 1 implies #[trigger] out@[row as int * rb + k] == mapped@[start + k] by {
                if k < c {
                    assert(out@[row as int * rb + k] == prev[row as int * rb + k]);
                }
            }
            c += 1;
        }
        assert forall|i: int| 0 <= i < out@.len() implies #[trigger] out@[i] == mapped@[(i / rb) * bpr + i % rb] by {
            if i >= row as int * rb {
                let k = i - row as int * rb;
                assert(i / rb == row as int && i % rb == k) by (nonlinear_arith)
                    requires
                        i == row as int * rb + k,
                        0 <= k < rb,
                ;
                assert(out@[row as int * rb + k] == mapped@[start + k]);
                assert((i / rb) * bpr + i % rb == start + k);
            }
        }
        row += 1;
        assert(out@.len() == row as int * rb) by (nonlinear_arith)
            requires
                out@.len() == (row - 1) as int * rb + rb,
        ;
    }
    assert(out@ =~= unpadded(mapped@, width as nat * 4, bytes_per_row as nat, height as nat));
    out
}

/// Law: unpadding a buffer laid out with padded rows gives back exactly
/// the packed pixels it was filled from.
pub proof fn lemma_unpad_restores_pixels(pixels: Seq<u8>, mapped: Seq<u8>, row_bytes: nat, bytes_per_row: nat, height: nat)
    requires
        row_bytes > 0,
        pixels.len() == height * row_bytes,
        forall|r: int, c: int|
            0 <= r < height && 0 <= c < row_bytes ==> mapped[r * bytes_per_row + c] == #[trigger] pixels[r * row_bytes + c],
    ensures
        unpadded(mapped, row_bytes, bytes_per_row, height) == pixels,
{
    let out = unpadded(mapped, row_bytes, bytes_per_row, height);
    assert forall|i: int| 0 <= i < pixels.len() implies #[trigger] out[i] == pixels[i] by {
        let r = i / row_bytes as int;
        let c = i % row_bytes as int;
        assert(i == r * row_bytes + c && 0 <= c < row_bytes && 0 <= r < height) by (nonlinear_arith)
            requires
                row_bytes > 0,
                0 <= i < height * row_bytes,
                r == i / row_bytes as int,
                c == i % row_bytes as int,
        ;
        assert(mapped[r * bytes_per_row + c] == pixels[r * row_bytes + c]);
    }
    assert(out =~= pixels);
}

/// Chroma subsampling of a planar YUV frame.
#[derive(Clone, Copy, PartialEq, Eq, Structural, Debug)]
pub enum ChromaSubsampling {
    /// Chroma halved horizontally and vertically.
    Yuv420,
    /// Chroma halved horizontally.
    Yuv422,
    /// Full-resolution chroma.
    Yuv444,
}

/// The `(horizontal, vertical)` chroma shifts of a subsampling.
pub open spec fn shift_of(s: ChromaSubsampling) -> (u32, u32) {
    match s {
        ChromaSubsampling::Yuv420 => (1, 1),
        ChromaSubsampling::Yuv422 => (1, 0),
        ChromaSubsampling::Yuv444 => (0, 0),
    }
}

/// A plane dimension after a chroma shift (rounding up).
pub open spec fn shifted_size(size: u32, shift: u32) -> int {
    if shift == 1 { (size as int + 1) / 2 } else { size as int }
}

/// The `(horizontal, vertical)` chroma shifts handed to the conversion
/// shader.
pub fn chroma_shift(s: ChromaSubsampling) -> (shift: (u32, u32))
    ensures
        shift == shift_of(s),
{
    match s {
        ChromaSubsampling::Yuv420 => (1, 1),
        ChromaSubsampling::Yuv422 => (1, 0),
        ChromaSubsampling::Yuv444 => (0, 0),
    }
}

/// The size of the U and V planes of a `width` x `height` frame.
pub fn chroma_plane_size(s: ChromaSubsampling, width: u32, height: u32) -> (size: (u32, u32))
    requires
        width < u32::MAX,
        height < u32::MAX,
    ensures
        size.0 == shifted_size(width, shift_of(s).0),
        size.1 == shifted_size(height, shift_of(s).1),
{
    let (sx, sy) = chroma_shift(s);
    let w: u32 = width + sx;
    let h: u32 = height + sy;
    proof {
        lemma2_to64();
        lemma_u32_shr_is_div(w, sx);
        lemma_u32_shr_is_div(h, sy);
    }
    let cw = w >> sx;
    let ch = h >> sy;
    assert(cw == shifted_size(width, sx)) by {
        if sx == 0 {
            assert(w as nat / pow2(0) == w as nat / 1);
        }
    }
    assert(ch == shifted_size(height, sy)) by {
        if sy == 0 {
            assert(h as nat / pow2(0) == h as nat / 1);
        }
    }
    (cw, ch)
}

} // verus!

//! Mask preparation for text removal: binarize a raw grayscale mask and grow
//! it by a square window so inpainting covers antialiased glyph edges.

use vstd::prelude::*;

verus! {

#[derive(Debug, Clone, Copy, PartialEq, Eq, Structural)]
pub enum InpaintModel {
    /// Fast, lighter — lite tier default.
    Aot,
    /// Higher quality — standard/pro tiers.
    LamaMpe,
}

/// A row-major 8-bit grayscale mask.
pub struct Mask {
    width: u32,
    height: u32,
    pixels: Vec<u8>,
}

/// Value at column `x`, row `y` of a row-major buffer `w` wide.
pub open spec fn px(s: Seq<u8>, w: int, x: int, y: int) -> u8 {
    s[y * w + x]
}

/// Some pixel of the square window of radius `r` around `(x, y)` that lies
/// inside the `w`×`h` image is white (255).
pub open spec fn window_hit(s: Seq<u8>, w: int, h: int, r: int, x: int, y: int) -> bool {
    exists|nx: int, ny: int|
        0 <= nx < w && 0 <= ny < h && x - r <= nx <= x + r && y - r <= ny <= y + r && #[trigger] px(s, w, nx, ny) == 255
}

/// Square-window dilation of a mask: a pixel is white when its window
/// holds a white pixel, black otherwise.
pub open spec fn is_dilation(src: Seq<u8>, out: Seq<u8>, w: int, h: int, r: int) -> bool {
    &&& out.len() == w * h
    &&& forall|x: int, y: int| 0 <= x < w && 0 <= y < h ==> #[trigger] px(out, w, x, y) == if window_hit(src, w, h, r, x, y) {
        255u8
    } else {
        0u8
    }
}

proof fn lemma_index_bounds(w: int, h: int, x: int, y: int)
    requires
        0 <= x < w,
        0 <= y < h,
    ensures
        0 <= y * w + x < w * h,
        y * w + x < h * w,
{
    assert(0 <= y * w) by (nonlinear_arith)
        requires
            0 <= y,
            0 <= w,
    ;
    assert(y * w + x < h * w) by (nonlinear_arith)
        requires
            0 <= x < w,
            0 <= y < h,
    ;
    assert(h * w == w * h) by (nonlinear_arith);
}

impl Mask {
    pub closed spec fn spec_width(&self) -> u32 {
        self.width
    }

    pub closed spec fn spec_height(&self) -> u32 {
        self.height
    }

    pub closed spec fn spec_pixels(&self) -> Seq<u8> {
        self.pixels@
    }

    #[verifier::type_invariant]
    closed spec fn wf(&self) -> bool {
        self.pixels@.len() == self.width * self.height
    }

    /// A mask over a buffer of exactly `width * height` pixels.
    pub fn from_pixels(width: u32, height: u32, pixels: Vec<u8>) -> (m: Option<Mask>)
        ensures
            pixels@.len() == width * height ==> (m matches Some(k) && k.spec_width() == width
                && k.spec_height() == height && k.spec_pixels() == pixels@),
            pixels@.len() != width * height ==> m is None,
    {
        assert((width as u64) * (height as u64) <= 0xFFFF_FFFF_FFFF_FFFFu64) by (nonlinear_arith)
            requires
                width <= 0xFFFF_FFFFu32,
                height <= 0xFFFF_FFFFu32,
        ;
        if (pixels.len() as u64) == (width as u64) * (height as u64) {
            Some(Mask { width, height, pixels })
        } else {
            None
        }
    }

    pub fn width(&self) -> (w: u32)
        ensures
            w == self.spec_width(),
    {
        self.width
    }

    pub fn height(&self) -> (h: u32)
        ensures
            h == self.spec_height(),
    {
        self.height
    }

    pub fn pixels(&self) -> (p: &Vec<u8>)
        ensures
            p@ == self.spec_pixels(),
            p@.len() == self.spec_width() * self.spec_height(),
    {
        proof { use_type_invariant(self); }
        &self.pixels
    }

    /// Hands back the pixel buffer.
    pub fn into_pixels(self) -> (p: Vec<u8>)
        ensures
            p@ == self.spec_pixels(),
            p@.len() == self.spec_width() * self.spec_height(),
    {
        proof { use_type_invariant(&self); }
        self.pixels
    }
}

/// Whether the window of radius `r` around `(x, y)` holds a white pixel.
fn window_has_white(src: &Vec<u8>, w: u32, h: u32, r: u32, x: u32, y: u32) -> (b: bool)
    requires
        src@.len() == w * h,
        x < w,
        y < h,
    ensures
        b == window_hit(src@, w as int, h as int, r as int, x as int, y as int),
{
    let y0: u64 = if (y as u64) >= (r as u64) { (y as u64) - (r as u64) } else { 0 };
    let y1: u64 = if (y as u64) + (r as u64) < (h as u64) { (y as u64) + (r as u64) } else { (h as u64) - 1 };
    let x0: u64 = if (x as u64) >= (r as u64) { (x as u64) - (r as u64) } else { 0 };
    let x1: u64 = if (x as u64) + (r as u64) < (w as u64) { (x as u64) + (r as u64) } else { (w as u64) - 1 };
    let ghost s = src@;
    let n = src.len();
    let mut ny: u64 = y0;
    while ny <= y1
        invariant
            src@ == s,
            n == s.len(),
            s.len() == w * h,
            x < w,
            y < h,
            y0 <= ny <= y1 + 1,
            y1 < h,
            x0 <= x1 < w,
            y0 == if y >= r { y - r } else { 0 },
            y1 == if y + r < h { y + r } else { h - 1 },
            x0 == if x >= r { x - r } else { 0 },
            x1 == if x + r < w { x + r } else { w - 1 },
            forall|nx: int, yy: int| y0 <= yy < ny && x0 <= nx <= x1 ==> #[trigger] px(s, w as int, nx, yy) != 255,
        decreases y1 + 1 - ny,
    {
        let mut nx: u64 = x0;
        while nx <= x1
            invariant
                src@ == s,
                n == s.len(),
                s.len() == w * h,
                x < w,
                y < h,
                y0 <= ny <= y1,
                y1 < h,
                x0 <= nx <= x1 + 1,
                x1 < w,
                y0 == if y >= r { y - r } else { 0 },
                y1 == if y + r < h { y + r } else { h - 1 },
                x0 == if x >= r { x - r } else { 0 },
                x1 == if x + r < w { x + r } else { w - 1 },
                forall|nx: int, yy: int| y0 <= yy < ny && x0 <= nx <= x1 ==> #[trigger] px(s, w as int, nx, yy) != 255,
                forall|xx: int| x0 <= xx < nx ==> #[trigger] px(s, w as int, xx, ny as int) != 255,
            decreases x1 + 1 - nx,
        {
            proof {
                lemma_index_bounds(w as int, h as int, nx as int, ny as int);
            }
            let idx = ny * (w as u64) + nx;
            if src[idx as usize] == 255 {
                proof {
                    assert(px(s, w as int, nx as int, ny as int) == 255);
                }
                return true;
            }
            nx += 1;
        }
        ny += 1;
    }
    proof {
        assert forall|ax: int, ay: int|
            0 <= ax < w && 0 <= ay < h && x - r <= ax <= x + r && y - r <= ay <= y + r implies #[trigger] px(s, w as int, ax, ay) != 255 by {
            assert(y0 <= ay <= y1);
            assert(x0 <= ax <= x1);
        }
    }
    false
}

/// Square-kernel dilation on a binary mask.
pub fn dilate(img: &Mask, radius: u32) -> (out: Mask)
    ensures
        out.spec_width() == img.spec_width(),
        out.spec_height() == img.spec_height(),
        radius == 0 ==> out.spec_pixels() == img.spec_pixels(),
        radius > 0 ==> is_dilation(img.spec_pixels(), out.spec_pixels(), img.spec_width() as int, img.spec_height() as int, radius as int),
{
    proof { use_type_invariant(img); }
    let w = img.width;
    let h = img.height;
    if radius == 0 {
        let mut copy: Vec<u8> = Vec::new();
        let mut k: usize = 0;
        while k < img.pixels.len()
            invariant
                k <= img.pixels@.len(),
                copy@ == img.pixels@.take(k as int),
            decreases img.pixels@.len() - k,
        {
            copy.push(img.pixels[k]);
            assert(img.pixels@.take(k + 1) =~= img.pixels@.take(k as int).push(img.pixels@[k as int]));
            k += 1;
        }
        assert(img.pixels@.take(img.pixels@.len() as int) =~= img.pixels@);
        return Mask { width: w, height: h, pixels: copy };
    }
    let src = &img.pixels;
    let mut out: Vec<u8> = Vec::new();
    let mut y: u32 = 0;
    while y < h
        invariant
            src@.len() == w * h,
            y <= h,
            out@.len() == y * w,
            forall|xx: int, yy: int| 0 <= xx < w && 0 <= yy < y ==> #[trigger] px(out@, w as int, xx, yy) == if window_hit(src@, w as int, h as int, radius as int, xx, yy) {
                255u8
            } else {
                0u8
            },
        decreases h - y,
    {
        let mut x: u32 = 0;
        let ghost row_start = out@.len();
        while x < w
            invariant
                src@.len() == w * h,
                y < h,
                x <= w,
                row_start == y * w,
                out@.len() == y * w + x,
                forall|xx: int, yy: int| 0 <= xx < w && 0 <= yy < y ==> #[trigger] px(out@, w as int, xx, yy) == if window_hit(src@, w as int, h as int, radius as int, xx, yy) {
                    255u8
                } else {
                    0u8
                },
                forall|xx: int| 0 <= xx < x ==> #[trigger] px(out@, w as int, xx, y as int) == if window_hit(src@, w as int, h as int, radius as int, xx, y as int) {
                    255u8
                } else {
                    0u8
                },
            decreases w - x,
        {
            let hit = window_has_white(src, w, h, radius, x, y);
            let ghost before = out@;
            out.push(if hit { 255u8 } else { 0u8 });
            proof {
                lemma_index_bounds(w as int, h as int, x as int, y as int);
                assert forall|xx: int, yy: int| 0 <= xx < w && 0 <= yy < y implies #[trigger] px(out@, w as int, xx, yy) == px(before, w as int, xx, yy) by {
                    lemma_index_bounds(w as int, y as int, xx, yy);
                }
                assert forall|xx: int| 0 <= xx < x implies #[trigger] px(out@, w as int, xx, y as int) == px(before, w as int, xx, y as int) by {
                    lemma_index_bounds(w as int, h as int, xx, y as int);
                }
                assert(px(out@, w as int, x as int, y as int) == out@[before.len() as int]);
            }
            x += 1;
        }
        proof {
            assert(out@.len() == (y + 1) * w) by (nonlinear_arith)
                requires
                    out@.len() == y * w + w,
            ;
        }
        y += 1;
    }
    assert(h * w == w * h) by (nonlinear_arith);
    Mask { width: w, height: h, pixels: out }
}

/// The first `n` raw values mapped to white (255) at or above the
/// threshold and to black (0) below it.
pub open spec fn binarized(raw: Seq<u8>, n: int, threshold: u8) -> Seq<u8> {
    Seq::new(n as nat, |i: int| if raw[i] >= threshold {
        255u8
    } else {
        0u8
    })
}

/// Binarizes a raw grayscale mask (its first `width * height` values) and
/// dilates it by `radius` pixels.
pub fn prepare_mask(raw: &[u8], width: u32, height: u32, threshold: u8, radius: u32) -> (m: Mask)
    requires
        raw@.len() >= width * height,
    ensures
        m.spec_width() == width,
        m.spec_height() == height,
        radius == 0 ==> m.spec_pixels() == binarized(raw@, width * height, threshold),
        radius > 0 ==> is_dilation(binarized(raw@, width * height, threshold), m.spec_pixels(), width as int, height as int, radius as int),
{
    let rl = raw.len();
    assert((width as u64) * (height as u64) <= 0xFFFF_FFFF_FFFF_FFFFu64) by (nonlinear_arith)
        requires
            width <= 0xFFFF_FFFFu32,
            height <= 0xFFFF_FFFFu32,
    ;
    let prod: u64 = (width as u64) * (height as u64);
    assert(prod <= rl);
    let n: usize = prod as usize;
    assert(n == width * height);
    let mut bin: Vec<u8> = Vec::new();
    let mut i: usize = 0;
    while i < n
        invariant
            n == width * height,
            n <= raw@.len(),
            i <= n,
            bin@ == binarized(raw@, i as int, threshold),
        decreases n - i,
    {
        bin.push(if raw[i] >= threshold { 255u8 } else { 0u8 });
        assert(bin@ =~= binarized(raw@, i + 1, threshold));
        i += 1;
    }
    let img = Mask { width, height, pixels: bin };
    dilate(&img, radius)
}

/// Number of white (255) values.
pub open spec fn count_white(s: Seq<u8>) -> nat
    decreases s.len(),
{
    if s.len() == 0 {
        0
    } else {
        count_white(s.drop_last()) + if s.last() == 255 {
            1nat
        } else {
            0nat
        }
    }
}

proof fn lemma_count_white_le(s: Seq<u8>)
    ensures
        count_white(s) <= s.len(),
    decreases s.len(),
{
    if s.len() > 0 {
        lemma_count_white_le(s.drop_last());
    }
}

/// Number of white pixels of a mask (the UI warns about huge coverage).
pub fn white_pixel_count(m: &Mask) -> (n: usize)
    ensures
        n == count_white(m.spec_pixels()),
{
    let p = m.pixels();
    let mut n: usize = 0;
    let mut i: usize = 0;
    while i < p.len()
        invariant
            i <= p@.len(),
            n == count_white(p@.take(i as int)),
        decreases p@.len() - i,
    {
        assert(p@.take(i + 1).drop_last() =~= p@.take(i as int));
        proof { lemma_count_white_le(p@.take(i as int)); }
        if p[i] == 255 {
            n += 1;
        }
        i += 1;
    }
    assert(p@.take(p@.len() as int) =~= p@);
    n
}

/// Marker type for the pass-through inpainter used by tests and previews.
pub struct MockInpaint;

} // verus!

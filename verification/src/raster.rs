//! CPU text removal for flat bubble backgrounds: each text box is painted
//! with the average colour of a ring of pixels just outside it.

use vstd::prelude::*;

verus! {

/// A row-major RGB image, three bytes per pixel.
pub struct RgbRaster {
    width: u32,
    height: u32,
    data: Vec<u8>,
}

/// Position of channel `c` of pixel `(x, y)` in a buffer `w` pixels wide.
pub open spec fn px_index(w: int, x: int, y: int, c: int) -> int {
    3 * (y * w + x) + c
}

/// A box `(x0, y0, x1, y1)` (right and bottom edges excluded) holds `(x, y)`.
pub open spec fn in_box(b: (i64, i64, i64, i64), x: int, y: int) -> bool {
    b.0 <= x < b.2 && b.1 <= y < b.3
}

pub open spec fn imax(a: int, b: int) -> int {
    if a >= b { a } else { b }
}

pub open spec fn imin(a: int, b: int) -> int {
    if a <= b { a } else { b }
}

/// Whether `(x, y)` is sampled for box `b`: inside the box grown by `ring`
/// pixels and clipped to the image, but outside the box itself.
pub open spec fn in_ring(w: int, h: int, b: (i64, i64, i64, i64), ring: int, x: int, y: int) -> bool {
    &&& imax(b.0 - ring, 0) <= x <= imin(b.2 + ring, w - 1)
    &&& imax(b.1 - ring, 0) <= y <= imin(b.3 + ring, h - 1)
    &&& !in_box(b, x, y)
}

/// Sum of channel `c` over the ring pixels of row `y` with `x < xe`.
pub open spec fn row_sum(data: Seq<u8>, w: int, h: int, b: (i64, i64, i64, i64), ring: int, c: int, y: int, xe: int) -> int
    decreases xe,
{
    if xe <= 0 {
        0
    } else {
        row_sum(data, w, h, b, ring, c, y, xe - 1) + if in_ring(w, h, b, ring, xe - 1, y) {
            data[px_index(w, xe - 1, y, c)] as int
        } else {
            0
        }
    }
}

/// Sum of channel `c` over the ring pixels of the rows `y < ye`.
pub open spec fn ring_sum(data: Seq<u8>, w: int, h: int, b: (i64, i64, i64, i64), ring: int, c: int, ye: int) -> int
    decreases ye,
{
    if ye <= 0 {
        0
    } else {
        ring_sum(data, w, h, b, ring, c, ye - 1) + row_sum(data, w, h, b, ring, c, ye - 1, w)
    }
}

/// Number of ring pixels of row `y` with `x < xe`.
pub open spec fn row_count(w: int, h: int, b: (i64, i64, i64, i64), ring: int, y: int, xe: int) -> int
    decreases xe,
{
    if xe <= 0 {
        0
    } else {
        row_count(w, h, b, ring, y, xe - 1) + if in_ring(w, h, b, ring, xe - 1, y) { 1int } else { 0int }
    }
}

/// Number of ring pixels in the rows `y < ye`.
pub open spec fn ring_count(w: int, h: int, b: (i64, i64, i64, i64), ring: int, ye: int) -> int
    decreases ye,
{
    if ye <= 0 {
        0
    } else {
        ring_count(w, h, b, ring, ye - 1) + row_count(w, h, b, ring, ye - 1, w)
    }
}

/// Average colour of the ring around `b` (white when the ring is empty).
pub open spec fn ring_color(data: Seq<u8>, w: int, h: int, b: (i64, i64, i64, i64), ring: int) -> Seq<u8> {
    let n = ring_count(w, h, b, ring, h);
    if n == 0 {
        seq![255u8, 255u8, 255u8]
    } else {
        seq![
            (ring_sum(data, w, h, b, ring, 0, h) / n) as u8,
            (ring_sum(data, w, h, b, ring, 1, h) / n) as u8,
            (ring_sum(data, w, h, b, ring, 2, h) / n) as u8,
        ]
    }
}

/// The image after painting one box: unchanged for an empty box, otherwise
/// every pixel of the box takes the ring colour.
pub open spec fn fill_one(data: Seq<u8>, w: int, h: int, b: (i64, i64, i64, i64), ring: int) -> Seq<u8> {
    if b.2 <= b.0 || b.3 <= b.1 {
        data
    } else {
        let bg = ring_color(data, w, h, b, ring);
        Seq::new(
            data.len(),
            |k: int| if in_box(b, (k / 3) % w, (k / 3) / w) { bg[k % 3] } else { data[k] },
        )
    }
}

/// The image after painting the boxes in order.
pub open spec fn fill_all(data: Seq<u8>, w: int, h: int, boxes: Seq<(i64, i64, i64, i64)>, ring: int) -> Seq<u8>
    decreases boxes.len(),
{
    if boxes.len() == 0 {
        data
    } else {
        fill_one(fill_all(data, w, h, boxes.drop_last(), ring), w, h, boxes.last(), ring)
    }
}

impl RgbRaster {
    pub closed spec fn spec_width(&self) -> u32 {
        self.width
    }

    pub closed spec fn spec_height(&self) -> u32 {
        self.height
    }

    pub closed spec fn spec_data(&self) -> Seq<u8> {
        self.data@
    }

    #[verifier::type_invariant]
    closed spec fn wf(&self) -> bool {
        self.data@.len() == 3 * self.width * self.height
    }

    /// An image over a buffer of exactly three bytes per pixel.
    pub fn from_raw(width: u32, height: u32, data: Vec<u8>) -> (r: Option<RgbRaster>)
        ensures
            data@.len() == 3 * width * height ==> (r matches Some(img) && img.spec_width() == width
                && img.spec_height() == height && img.spec_data() == data@),
            data@.len() != 3 * width * height ==> r is None,
    {
        assert((width as u64) * (height as u64) <= 0xFFFF_FFFF_FFFF_FFFFu64) by (nonlinear_arith)
            requires
                width <= 0xFFFF_FFFFu32,
                height <= 0xFFFF_FFFFu32,
        ;
        let wh = (width as u64) * (height as u64);
        assert(3 * width * height == 3 * (width * height)) by (nonlinear_arith);
        if (data.len() as u128) == 3 * (wh as u128) {
            Some(RgbRaster { width, height, data })
        } else {
            None
        }
    }

    pub fn width(&self) -> (w: u32)
        ensures
            w == self.spec_width(),
    {
        self.width
    }

    pub fn height(&self) -> (h: u32)
        ensures
            h == self.spec_height(),
    {
        self.height
    }

    pub fn data(&self) -> (d: &Vec<u8>)
        ensures
            d@ == self.spec_data(),
            d@.len() == 3 * self.spec_width() * self.spec_height(),
    {
        proof { use_type_invariant(self); }
        &self.data
    }

    /// Hands back the pixel buffer.
    pub fn into_raw(self) -> (d: Vec<u8>)
        ensures
            d@ == self.spec_data(),
            d@.len() == 3 * self.spec_width() * self.spec_height(),
    {
        proof { use_type_invariant(&self); }
        self.data
    }
}

proof fn lemma_px_index(w: int, h: int, x: int, y: int, c: int)
    requires
        0 <= x < w,
        0 <= y < h,
        0 <= c < 3,
    ensures
        0 <= px_index(w, x, y, c) < 3 * w * h,
{
    assert(0 <= y * w) by (nonlinear_arith)
        requires
            0 <= y,
            0 <= w,
    ;
    assert(y * w + x < w * h) by (nonlinear_arith)
        requires
            0 <= x < w,
            0 <= y < h,
    ;
    assert(3 * (w * h) == 3 * w * h) by (nonlinear_arith);
}

/// Every buffer position is a channel of exactly one pixel.
proof fn lemma_px_decompose(w: int, h: int, k: int)
    requires
        0 < w,
        0 <= k < 3 * w * h,
    ensures
        0 <= (k / 3) % w < w,
        0 <= (k / 3) / w < h,
        0 <= k % 3 < 3,
        px_index(w, (k / 3) % w, (k / 3) / w, k % 3) == k,
{
    let p = k / 3;
    vstd::arithmetic::div_mod::lemma_fundamental_div_mod(k, 3);
    vstd::arithmetic::div_mod::lemma_fundamental_div_mod(p, w);
    assert(0 <= p);
    assert(p < w * h) by (nonlinear_arith)
        requires
            p == k / 3,
            0 <= k < 3 * w * h,
            k == 3 * (k / 3) + k % 3,
            0 <= k % 3 < 3,
    ;
    assert(0 <= p % w < w) by {
        vstd::arithmetic::div_mod::lemma_mod_bound(p, w);
    }
    assert(0 <= p / w < h) by (nonlinear_arith)
        requires
            0 <= p < w * h,
            p == w * (p / w) + p % w,
            0 <= p % w < w,
            0 < w,
    ;
    assert(w * (p / w) == (p / w) * w) by (nonlinear_arith);
}

/// Distinct pixel channels sit at distinct buffer positions.
proof fn lemma_px_index_injective(w: int, h: int, x: int, y: int, c: int, x2: int, y2: int, c2: int)
    requires
        0 <= x < w,
        0 <= y < h,
        0 <= c < 3,
        0 <= x2 < w,
        0 <= y2 < h,
        0 <= c2 < 3,
        px_index(w, x, y, c) == px_index(w, x2, y2, c2),
    ensures
        x == x2 && y == y2 && c == c2,
{
    if y < y2 {
        assert(3 * (y * w + x) + c < 3 * (y2 * w + x2) + c2) by (nonlinear_arith)
            requires
                0 <= x < w,
                0 <= x2,
                y < y2,
                0 <= c < 3,
                0 <= c2,
        ;
    } else if y2 < y {
        assert(3 * (y2 * w + x2) + c2 < 3 * (y * w + x) + c) by (nonlinear_arith)
            requires
                0 <= x2 < w,
                0 <= x,
                y2 < y,
                0 <= c2 < 3,
                0 <= c,
        ;
    } else {
        assert(y * w == y2 * w);
    }
}

/// Columns `xa..xe` of row `y` add nothing when none of them is sampled.
proof fn lemma_row_const(data: Seq<u8>, w: int, h: int, b: (i64, i64, i64, i64), ring: int, y: int, xa: int, xe: int)
    requires
        0 <= xa <= xe,
        forall|x: int| xa <= x < xe ==> !#[trigger] in_ring(w, h, b, ring, x, y),
    ensures
        forall|c: int| #[trigger] row_sum(data, w, h, b, ring, c, y, xe) == row_sum(data, w, h, b, ring, c, y, xa),
        row_count(w, h, b, ring, y, xe) == row_count(w, h, b, ring, y, xa),
    decreases xe - xa,
{
    if xe > xa {
        lemma_row_const(data, w, h, b, ring, y, xa, xe - 1);
        assert(!in_ring(w, h, b, ring, xe - 1, y));
        assert forall|c: int| #[trigger] row_sum(data, w, h, b, ring, c, y, xe) == row_sum(data, w, h, b, ring, c, y, xa) by {
            assert(row_sum(data, w, h, b, ring, c, y, xe) == row_sum(data, w, h, b, ring, c, y, xe - 1));
        }
    }
}

/// Rows `ya..ye` add nothing when none of their pixels is sampled.
proof fn lemma_rows_const(data: Seq<u8>, w: int, h: int, b: (i64, i64, i64, i64), ring: int, ya: int, ye: int)
    requires
        0 <= ya <= ye,
        0 <= w,
        forall|x: int, y: int| ya <= y < ye ==> !#[trigger] in_ring(w, h, b, ring, x, y),
    ensures
        forall|c: int| #[trigger] ring_sum(data, w, h, b, ring, c, ye) == ring_sum(data, w, h, b, ring, c, ya),
        ring_count(w, h, b, ring, ye) == ring_count(w, h, b, ring, ya),
    decreases ye - ya,
{
    if ye > ya {
        lemma_rows_const(data, w, h, b, ring, ya, ye - 1);
        lemma_row_const(data, w, h, b, ring, ye - 1, 0, w);
        assert forall|c: int| #[trigger] ring_sum(data, w, h, b, ring, c, ye) == ring_sum(data, w, h, b, ring, c, ya) by {
            assert(row_sum(data, w, h, b, ring, c, ye - 1, w) == row_sum(data, w, h, b, ring, c, ye - 1, 0));
            assert(ring_sum(data, w, h, b, ring, c, ye) == ring_sum(data, w, h, b, ring, c, ye - 1));
        }
    }
}

/// Sums stay below 255 per sampled pixel, and a row samples at most its
/// width.
proof fn lemma_row_bounds(data: Seq<u8>, w: int, h: int, b: (i64, i64, i64, i64), ring: int, c: int, y: int, xe: int)
    requires
        0 <= xe,
    ensures
        0 <= row_count(w, h, b, ring, y, xe) <= xe,
        0 <= row_sum(data, w, h, b, ring, c, y, xe) <= 255 * row_count(w, h, b, ring, y, xe),
    decreases xe,
{
    if xe > 0 {
        lemma_row_bounds(data, w, h, b, ring, c, y, xe - 1);
    }
}

proof fn lemma_ring_bounds(data: Seq<u8>, w: int, h: int, b: (i64, i64, i64, i64), ring: int, c: int, ye: int)
    requires
        0 <= ye,
        0 <= w,
    ensures
        0 <= ring_count(w, h, b, ring, ye) <= ye * w,
        0 <= ring_sum(data, w, h, b, ring, c, ye) <= 255 * ring_count(w, h, b, ring, ye),
    decreases ye,
{
    if ye > 0 {
        lemma_ring_bounds(data, w, h, b, ring, c, ye - 1);
        lemma_row_bounds(data, w, h, b, ring, c, ye - 1, w);
        assert((ye - 1) * w + w == ye * w) by (nonlinear_arith);
    }
}

/// Average colour of the pixels within `ring` pixels outside the box
/// `(x0, y0, x1, y1)`, clipped to the image; white when there are none.
pub fn dominant_ring_color(img: &RgbRaster, x0: i64, y0: i64, x1: i64, y1: i64, ring: i64) -> (rgb: [u8; 3])
    ensures
        rgb@ == ring_color(img.spec_data(), img.spec_width() as int, img.spec_height() as int, (x0, y0, x1, y1), ring as int),
{
    let data = img.data();
    let dl = data.len();
    let ghost d = data@;
    let ghost b = (x0, y0, x1, y1);
    let ghost ri = ring as int;
    let w = img.width();
    let h = img.height();
    let ghost wi = w as int;
    let ghost hi = h as int;
    let rx0: i128 = if (x0 as i128) - (ring as i128) > 0 { (x0 as i128) - (ring as i128) } else { 0 };
    let ry0: i128 = if (y0 as i128) - (ring as i128) > 0 { (y0 as i128) - (ring as i128) } else { 0 };
    let rx1: i128 = if (x1 as i128) + (ring as i128) < (w as i128) - 1 { (x1 as i128) + (ring as i128) } else { (w as i128) - 1 };
    let ry1: i128 = if (y1 as i128) + (ring as i128) < (h as i128) - 1 { (y1 as i128) + (ring as i128) } else { (h as i128) - 1 };
    if rx0 > rx1 || ry0 > ry1 {
        proof {
            lemma_rows_const(d, wi, hi, b, ri, 0, hi);
        }
        return [255u8, 255u8, 255u8];
    }
    proof {
        lemma_rows_const(d, wi, hi, b, ri, 0, ry0 as int);
        lemma_rows_const(d, wi, hi, b, ri, ry1 + 1, hi);
    }
    let mut a0: u128 = 0;
    let mut a1: u128 = 0;
    let mut a2: u128 = 0;
    let mut n: u128 = 0;
    let mut y: usize = ry0 as usize;
    let yend: usize = (ry1 + 1) as usize;
    let xbeg: usize = rx0 as usize;
    let xend: usize = (rx1 + 1) as usize;
    assert(wi * hi <= 0xFFFF_FFFF_FFFF_FFFF_u128) by (nonlinear_arith)
        requires
            0 <= wi <= 0xFFFF_FFFF,
            0 <= hi <= 0xFFFF_FFFF,
    ;
    while y < yend
        invariant
            d == img.spec_data(),
            d.len() == 3 * wi * hi,
            data@ == d,
            dl == d.len(),
            wi == w,
            hi == h,
            b == (x0, y0, x1, y1),
            ri == ring,
            ry0 <= y <= yend,
            yend == ry1 + 1,
            0 <= ry0 <= ry1 < hi,
            0 <= rx0 <= rx1 < wi,
            xbeg == rx0,
            xend == rx1 + 1,
            rx0 == imax(x0 - ring, 0),
            rx1 == imin(x1 + ring, wi - 1),
            ry0 == imax(y0 - ring, 0),
            ry1 == imin(y1 + ring, hi - 1),
            wi * hi <= 0xFFFF_FFFF_FFFF_FFFF_u128,
            a0 == ring_sum(d, wi, hi, b, ri, 0, y as int),
            a1 == ring_sum(d, wi, hi, b, ri, 1, y as int),
            a2 == ring_sum(d, wi, hi, b, ri, 2, y as int),
            n == ring_count(wi, hi, b, ri, y as int),
        decreases yend - y,
    {
        proof {
            lemma_row_const(d, wi, hi, b, ri, y as int, 0, rx0 as int);
            lemma_row_const(d, wi, hi, b, ri, y as int, rx1 + 1, wi);
        }
        let mut x: usize = xbeg;
        while x < xend
            invariant
                d == img.spec_data(),
                d.len() == 3 * wi * hi,
                data@ == d,
                dl == d.len(),
                wi == w,
                hi == h,
                b == (x0, y0, x1, y1),
                ri == ring,
                ry0 <= y < yend,
                yend == ry1 + 1,
                0 <= ry0 <= ry1 < hi,
                0 <= rx0 <= rx1 < wi,
                xbeg <= x <= xend,
                xbeg == rx0,
                xend == rx1 + 1,
                rx0 == imax(x0 - ring, 0),
                rx1 == imin(x1 + ring, wi - 1),
                ry0 == imax(y0 - ring, 0),
                ry1 == imin(y1 + ring, hi - 1),
                wi * hi <= 0xFFFF_FFFF_FFFF_FFFF_u128,
                a0 == ring_sum(d, wi, hi, b, ri, 0, y as int) + row_sum(d, wi, hi, b, ri, 0, y as int, x as int),
                a1 == ring_sum(d, wi, hi, b, ri, 1, y as int) + row_sum(d, wi, hi, b, ri, 1, y as int, x as int),
                a2 == ring_sum(d, wi, hi, b, ri, 2, y as int) + row_sum(d, wi, hi, b, ri, 2, y as int, x as int),
                n == ring_count(wi, hi, b, ri, y as int) + row_count(wi, hi, b, ri, y as int, x as int),
            decreases xend - x,
        {
            let xi = x as i64;
            let yi = y as i64;
            let inside = x0 <= xi && xi < x1 && y0 <= yi && yi < y1;
            assert(in_ring(wi, hi, b, ri, x as int, y as int) == !inside);
            if !inside {
                proof {
                    lemma_ring_bounds(d, wi, hi, b, ri, 0, y as int);
                    lemma_ring_bounds(d, wi, hi, b, ri, 1, y as int);
                    lemma_ring_bounds(d, wi, hi, b, ri, 2, y as int);
                    lemma_row_bounds(d, wi, hi, b, ri, 0, y as int, x as int);
                    lemma_row_bounds(d, wi, hi, b, ri, 1, y as int, x as int);
                    lemma_row_bounds(d, wi, hi, b, ri, 2, y as int, x as int);
                    lemma_px_index(wi, hi, x as int, y as int, 2);
                    assert((y as int) * wi + (x as int) + 1 <= wi * hi) by (nonlinear_arith)
                        requires
                            0 <= x < wi,
                            0 <= y < hi,
                    ;
                    assert(n + 1 <= wi * hi);
                    assert(3 * ((y as int) * wi + (x as int)) + 2 < dl);
                }
                let k = 3 * (y * (w as usize) + x);
                a0 = a0 + data[k] as u128;
                a1 = a1 + data[k + 1] as u128;
                a2 = a2 + data[k + 2] as u128;
                n = n + 1;
            }
            x += 1;
        }
        y += 1;
    }
    if n == 0 {
        [255u8, 255u8, 255u8]
    } else {
        proof {
            lemma_ring_bounds(d, wi, hi, b, ri, 0, hi);
            lemma_ring_bounds(d, wi, hi, b, ri, 1, hi);
            lemma_ring_bounds(d, wi, hi, b, ri, 2, hi);
            assert(a0 / n <= 255) by (nonlinear_arith)
                requires
                    a0 <= 255 * n,
                    n > 0,
            ;
            assert(a1 / n <= 255) by (nonlinear_arith)
                requires
                    a1 <= 255 * n,
                    n > 0,
            ;
            assert(a2 / n <= 255) by (nonlinear_arith)
                requires
                    a2 <= 255 * n,
                    n > 0,
            ;
        }
        let rgb = [(a0 / n) as u8, (a1 / n) as u8, (a2 / n) as u8];
        assert(rgb@ =~= ring_color(d, wi, hi, b, ri));
        rgb
    }
}

/// Paints the box `b` (clipped to the image) with `bg`.
fn paint_box(data: &mut Vec<u8>, w: u32, h: u32, b: (i64, i64, i64, i64), bg: [u8; 3])
    requires
        old(data)@.len() == 3 * w * h,
    ensures
        final(data)@.len() == old(data)@.len(),
        forall|x: int, y: int, c: int| 0 <= x < w && 0 <= y < h && 0 <= c < 3 ==>
            #[trigger] final(data)@[px_index(w as int, x, y, c)] == if in_box(b, x, y) { bg@[c] } else { old(data)@[px_index(w as int, x, y, c)] },
{
    let ghost orig = data@;
    let ghost wi = w as int;
    let ghost hi = h as int;
    let dl = data.len();
    let xa: usize = if b.0 > 0 { if b.0 < w as i64 { b.0 as usize } else { w as usize } } else { 0 };
    let xb: usize = if b.2 > 0 { if b.2 < w as i64 { b.2 as usize } else { w as usize } } else { 0 };
    let ya: usize = if b.1 > 0 { if b.1 < h as i64 { b.1 as usize } else { h as usize } } else { 0 };
    let yb: usize = if b.3 > 0 { if b.3 < h as i64 { b.3 as usize } else { h as usize } } else { 0 };
    let mut y: usize = ya;
    while y < yb
        invariant
            data@.len() == orig.len(),
            orig.len() == 3 * wi * hi,
            dl == orig.len(),
            wi == w,
            hi == h,
            xa == imax(b.0 as int, 0) || (xa == w && b.0 >= w),
            xa <= w,
            xb <= w,
            xb == imin(imax(b.2 as int, 0), wi),
            ya <= y,
            yb <= h,
            yb == imin(imax(b.3 as int, 0), hi),
            ya == imin(imax(b.1 as int, 0), hi),
            xa == imin(imax(b.0 as int, 0), wi),
            forall|px: int, py: int, c: int| 0 <= px < wi && 0 <= py < hi && 0 <= c < 3 ==>
                #[trigger] data@[px_index(wi, px, py, c)] == if in_box(b, px, py) && py < y { bg@[c] } else { orig[px_index(wi, px, py, c)] },
        decreases yb - y,
    {
        let mut x: usize = xa;
        while x < xb
            invariant
                data@.len() == orig.len(),
                orig.len() == 3 * wi * hi,
                dl == orig.len(),
                wi == w,
                hi == h,
                xa <= x,
                xa <= w,
                xb <= w,
                xb == imin(imax(b.2 as int, 0), wi),
                xa == imin(imax(b.0 as int, 0), wi),
                ya <= y < yb,
                yb <= h,
                yb == imin(imax(b.3 as int, 0), hi),
                ya == imin(imax(b.1 as int, 0), hi),
                forall|px: int, py: int, c: int| 0 <= px < wi && 0 <= py < hi && 0 <= c < 3 ==>
                    #[trigger] data@[px_index(wi, px, py, c)] == if in_box(b, px, py) && (py < y || (py == y && px < x)) { bg@[c] } else { orig[px_index(wi, px, py, c)] },
            decreases xb - x,
        {
            proof {
                lemma_px_index(wi, hi, x as int, y as int, 2);
            }
            let k = 3 * (y * (w as usize) + x);
            let ghost before = data@;
            data.set(k, bg[0]);
            data.set(k + 1, bg[1]);
            data.set(k + 2, bg[2]);
            proof {
                assert forall|px: int, py: int, c: int| 0 <= px < wi && 0 <= py < hi && 0 <= c < 3 implies
                    #[trigger] data@[px_index(wi, px, py, c)] == if in_box(b, px, py) && (py < y || (py == y && px < x + 1)) { bg@[c] } else { orig[px_index(wi, px, py, c)] } by {
                    lemma_px_index(wi, hi, px, py, c);
                    if px == x && py == y {
                        assert(px_index(wi, px, py, c) == k + c);
                    } else {
                        if px_index(wi, px, py, c) == k || px_index(wi, px, py, c) == k + 1 || px_index(wi, px, py, c) == k + 2 {
                            let c2 = px_index(wi, px, py, c) - k;
                            lemma_px_index_injective(wi, hi, px, py, c, x as int, y as int, c2);
                        }
                        assert(data@[px_index(wi, px, py, c)] == before[px_index(wi, px, py, c)]);
                    }
                }
            }
            x += 1;
        }
        y += 1;
    }
}

/// Paints each box, in order, with the average colour of the `ring`
/// pixels around it (sampled from the image as painted so far); boxes
/// with no area are skipped.
pub fn fill_regions(img: &mut RgbRaster, boxes: &[(i64, i64, i64, i64)], ring: i64)
    ensures
        final(img).spec_width() == old(img).spec_width(),
        final(img).spec_height() == old(img).spec_height(),
        final(img).spec_data() == fill_all(old(img).spec_data(), old(img).spec_width() as int,
            old(img).spec_height() as int, boxes@, ring as int),
{
    proof { use_type_invariant(&*img); }
    let ghost orig = img.data@;
    let w = img.width;
    let h = img.height;
    let ghost wi = w as int;
    let ghost hi = h as int;
    let mut i: usize = 0;
    while i < boxes.len()
        invariant
            img.width == w,
            img.height == h,
            wi == w,
            hi == h,
            i <= boxes@.len(),
            img.data@ == fill_all(orig, wi, hi, boxes@.take(i as int), ring as int),
        decreases boxes@.len() - i,
    {
        proof { use_type_invariant(&*img); }
        let b = boxes[i];
        let ghost cur = img.data@;
        proof {
            assert(boxes@.take(i + 1).drop_last() =~= boxes@.take(i as int));
            assert(boxes@.take(i + 1).last() == b);
        }
        if b.2 <= b.0 || b.3 <= b.1 {
            i += 1;
            continue;
        }
        let bg = dominant_ring_color(img, b.0, b.1, b.2, b.3, ring);
        let mut tmp = RgbRaster { width: 0, height: 0, data: Vec::new() };
        std::mem::swap(&mut tmp, img);
        let RgbRaster { width: tw, height: th, data: mut data } = tmp;
        assert(tw == w && th == h && data@ == cur);
        paint_box(&mut data, w, h, b, bg);
        proof {
            let want = fill_one(cur, wi, hi, b, ring as int);
            assert(want.len() == cur.len());
            if wi > 0 {
                assert forall|k: int| 0 <= k < cur.len() implies data@[k] == want[k] by {
                    lemma_px_decompose(wi, hi, k);
                    let px = (k / 3) % wi;
                    let py = (k / 3) / wi;
                    let c = k % 3;
                    assert(data@[px_index(wi, px, py, c)] == if in_box(b, px, py) { bg@[c] } else { cur[px_index(wi, px, py, c)] });
                }
            } else {
                assert(cur.len() == 0) by (nonlinear_arith)
                    requires
                        cur.len() == 3 * wi * hi,
                        wi == 0,
                ;
            }
            assert(data@ =~= want);
        }
        *img = RgbRaster { width: w, height: h, data };
        i += 1;
    }
    assert(boxes@.take(boxes@.len() as int) =~= boxes@);
}


} // verus!

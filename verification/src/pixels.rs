//! Raster tiles: RGBA pixel buffers addressed by column, row, and channel,
//! with the crop and expand transforms. Out-of-bounds reads are fully
//! transparent; blank cells stay fully transparent.
use vstd::prelude::*;

use vstd::arithmetic::div_mod::{
    lemma_fundamental_div_mod, lemma_fundamental_div_mod_converse, lemma_mod_bound,
    lemma_div_pos_is_pos, lemma_multiply_divide_lt,
};

verus! {

/// An RGBA raster: 4 bytes per pixel, rows stored top to bottom.
pub struct Raster {
    pub width: u32,
    pub height: u32,
    pub pixels: Vec<u8>,
}

pub ghost struct RasterModel {
    pub width: u32,
    pub height: u32,
    pub pixels: Seq<u8>,
}

impl View for Raster {
    type V = RasterModel;

    open spec fn view(&self) -> RasterModel {
        RasterModel { width: self.width, height: self.height, pixels: self.pixels@ }
    }
}

impl Clone for Raster {
    fn clone(&self) -> (r: Self)
        ensures
            r@ == self@,
    {
        Raster { width: self.width, height: self.height, pixels: self.pixels.clone() }
    }
}

/// A raster whose buffer holds exactly its pixels, within the format's
/// 32-bit size limits.
pub open spec fn raster_wf(r: RasterModel) -> bool {
    &&& r.pixels.len() == 4 * r.width * r.height
    &&& 4 * (r.width as int) * (r.height as int) <= u32::MAX
}

/// Channel `c` of the pixel at column `x`, row `y`.
pub open spec fn px(r: RasterModel, x: int, y: int, c: int) -> u8 {
    r.pixels[4 * (y * r.width + x) + c]
}

/// Column of flat buffer index `k`.
pub open spec fn kx(k: int, w: int) -> int {
    (k / 4) % w
}

/// Row of flat buffer index `k`.
pub open spec fn ky(k: int, w: int) -> int {
    (k / 4) / w
}

/// Channel of flat buffer index `k`.
pub open spec fn kc(k: int) -> int {
    k % 4
}

/// Decomposes a flat buffer index into column, row, and channel.
pub proof fn lemma_px_decode(w: int, h: int, k: int)
    requires
        1 <= w,
        0 <= h,
        0 <= k < 4 * w * h,
    ensures
        0 <= kx(k, w) < w,
        0 <= ky(k, w) < h,
        0 <= kc(k) < 4,
        4 * (ky(k, w) * w + kx(k, w)) + kc(k) == k,
{
    let q = k / 4;
    lemma_fundamental_div_mod(k, 4);
    lemma_mod_bound(k, 4);
    lemma_div_pos_is_pos(k, 4);
    assert(4 * q + kc(k) == k);
    assert(q < w * h) by {
        assert(4 * q <= k);
        assert(k < 4 * (w * h)) by (nonlinear_arith)
            requires
                k < 4 * w * h,
        ;
        lemma_multiply_divide_lt(k, 4, w * h);
    }
    lemma_fundamental_div_mod(q, w);
    lemma_mod_bound(q, w);
    lemma_div_pos_is_pos(q, w);
    assert(q == w * ky(k, w) + kx(k, w));
    assert(ky(k, w) < h) by {
        assert(q < w * h);
        lemma_multiply_divide_lt(q, w, h);
    }
    assert(4 * (ky(k, w) * w + kx(k, w)) + kc(k) == k) by (nonlinear_arith)
        requires
            q == w * ky(k, w) + kx(k, w),
            4 * q + kc(k) == k,
    ;
}

/// The flat buffer index of column `x`, row `y`, channel `c`, and the fact
/// that decomposition gives the triple back.
pub proof fn lemma_px_encode(w: int, h: int, x: int, y: int, c: int)
    requires
        1 <= w,
        0 <= h,
        0 <= x < w,
        0 <= y < h,
        0 <= c < 4,
    ensures
        0 <= 4 * (y * w + x) + c < 4 * w * h,
        kx(4 * (y * w + x) + c, w) == x,
        ky(4 * (y * w + x) + c, w) == y,
        kc(4 * (y * w + x) + c) == c,
{
    let k = 4 * (y * w + x) + c;
    assert(0 <= 4 * (y * w + x) + c < 4 * w * h) by (nonlinear_arith)
        requires
            1 <= w,
            0 <= x < w,
            0 <= y < h,
            0 <= c < 4,
    ;
    assert(4 * (y * w + x) + c == (y * w + x) * 4 + c) by (nonlinear_arith);
    lemma_fundamental_div_mod_converse(k, 4, y * w + x, c);
    assert(k / 4 == y * w + x);
    assert(y * w + x == y * w + x);
    lemma_fundamental_div_mod_converse(y * w + x, w, y, x);
}

/// Two well-formed rasters of the same dimensions with the same pixels are
/// the same raster.
pub proof fn lemma_px_ext(a: RasterModel, b: RasterModel)
    requires
        raster_wf(a),
        raster_wf(b),
        a.width == b.width,
        a.height == b.height,
        forall|x: int, y: int, c: int|
            0 <= x < a.width && 0 <= y < a.height && 0 <= c < 4 ==> px(a, x, y, c) == px(
                b,
                x,
                y,
                c,
            ),
    ensures
        a == b,
{
    if a.width == 0 || a.height == 0 {
        assert(4 * a.width * a.height == 0) by (nonlinear_arith)
            requires
                a.width == 0 || a.height == 0,
        ;
        assert(a.pixels =~= b.pixels);
    } else {
        assert forall|k: int| 0 <= k < a.pixels.len() implies a.pixels[k] == b.pixels[k] by {
            lemma_px_decode(a.width as int, a.height as int, k);
            let x = kx(k, a.width as int);
            let y = ky(k, a.width as int);
            let c = kc(k);
            assert(px(a, x, y, c) == px(b, x, y, c));
        }
        assert(a.pixels =~= b.pixels);
    }
}

/// The value a crop of `src` holds at (`i`, `j`): the source pixel shifted
/// by the window origin, or transparent where the window leaves the source.
pub open spec fn crop_pixel(src: RasterModel, x: int, y: int, i: int, j: int, c: int) -> u8 {
    if x + i < src.width && y + j < src.height {
        px(src, x + i, y + j, c)
    } else {
        0
    }
}

/// The value an expansion of `src` onto a larger canvas holds at (`i`, `j`):
/// the source pixel where the source, placed at (`x`, `y`), covers the cell,
/// and transparent elsewhere.
pub open spec fn expand_pixel(src: RasterModel, x: int, y: int, i: int, j: int, c: int) -> u8 {
    if x <= i < x + src.width && y <= j < y + src.height {
        px(src, i - x, j - y, c)
    } else {
        0
    }
}

/// The buffer length a `w` by `h` raster needs.
pub fn raster_len(w: u32, h: u32) -> (n: usize)
    requires
        4 * (w as int) * (h as int) <= u32::MAX,
    ensures
        n == 4 * (w as int) * (h as int),
{
    proof {
        assert((w as int) * (h as int) <= u32::MAX && 4 * ((w as int) * (h as int)) == 4 * (
        w as int) * (h as int)) by (nonlinear_arith)
            requires
                4 * (w as int) * (h as int) <= u32::MAX,
                w >= 0,
                h >= 0,
        ;
    }
    let wh: usize = (w as usize) * (h as usize);
    4 * wh
}

/// The raster a crop produces, pixel by pixel.
pub open spec fn crop_spec(src: RasterModel, x: int, y: int, w: u32, h: u32) -> RasterModel {
    RasterModel {
        width: w,
        height: h,
        pixels: Seq::new(
            (4 * (w as int) * (h as int)) as nat,
            |k: int| crop_pixel(src, x, y, kx(k, w as int), ky(k, w as int), kc(k)),
        ),
    }
}

/// A raster with a crop's dimensions and a crop's pixels is the crop.
pub proof fn lemma_is_crop_spec(src: RasterModel, r: RasterModel, x: int, y: int, w: u32, h: u32)
    requires
        raster_wf(r),
        r.width == w,
        r.height == h,
        4 * (w as int) * (h as int) <= u32::MAX,
        forall|i: int, j: int, c: int|
            0 <= i < w && 0 <= j < h && 0 <= c < 4 ==> px(r, i, j, c) == crop_pixel(
                src,
                x,
                y,
                i,
                j,
                c,
            ),
    ensures
        r == crop_spec(src, x, y, w, h),
        raster_wf(crop_spec(src, x, y, w, h)),
{
    let cs = crop_spec(src, x, y, w, h);
    assert(cs.pixels.len() == 4 * (w as int) * (h as int));
    if w == 0 || h == 0 {
        assert(4 * (w as int) * (h as int) == 0) by (nonlinear_arith)
            requires
                w == 0 || h == 0,
        ;
        assert(r.pixels =~= cs.pixels);
    } else {
        assert forall|k: int| 0 <= k < r.pixels.len() implies r.pixels[k] == cs.pixels[k] by {
            lemma_px_decode(w as int, h as int, k);
            let i = kx(k, w as int);
            let j = ky(k, w as int);
            let c = kc(k);
            assert(px(r, i, j, c) == crop_pixel(src, x, y, i, j, c));
            assert(cs.pixels[k] == crop_pixel(src, x, y, i, j, c));
        }
        assert(r.pixels =~= cs.pixels);
    }
}

/// A fully transparent raster.
pub fn blank(width: u32, height: u32) -> (r: Raster)
    requires
        4 * (width as int) * (height as int) <= u32::MAX,
    ensures
        raster_wf(r@),
        r@.width == width,
        r@.height == height,
        forall|x: int, y: int, c: int|
            0 <= x < width && 0 <= y < height && 0 <= c < 4 ==> px(r@, x, y, c) == 0,
{
    let n: usize = raster_len(width, height);
    let mut pixels: Vec<u8> = Vec::new();
    let mut k: usize = 0;
    while k < n
        invariant
            k <= n,
            n == 4 * (width as int) * (height as int),
            pixels@.len() == k,
            forall|k2: int| 0 <= k2 < k ==> pixels@[k2] == 0,
        decreases n - k,
    {
        pixels.push(0);
        k = k + 1;
    }
    let r = Raster { width, height, pixels };
    proof {
        assert forall|x: int, y: int, c: int|
            0 <= x < width && 0 <= y < height && 0 <= c < 4 implies px(r@, x, y, c) == 0 by {
            lemma_px_encode(width as int, height as int, x, y, c);
        }
    }
    r
}

/// Replaces the raster by the window `[x, x+w) x [y, y+h)` of its content;
/// cells of the window that fall outside the source are fully transparent.
pub fn crop_rect(src: &Raster, x: u32, y: u32, w: u32, h: u32) -> (r: Raster)
    requires
        raster_wf(src@),
        4 * (w as int) * (h as int) <= u32::MAX,
    ensures
        raster_wf(r@),
        r@.width == w,
        r@.height == h,
        forall|i: int, j: int, c: int|
            0 <= i < w && 0 <= j < h && 0 <= c < 4 ==> px(r@, i, j, c) == crop_pixel(
                src@,
                x as int,
                y as int,
                i,
                j,
                c,
            ),
        r@ == crop_spec(src@, x as int, y as int, w, h),
{
    let n: usize = raster_len(w, h);
    let mut pixels: Vec<u8> = Vec::new();
    let mut k: usize = 0;
    while k < n
        invariant
            k <= n,
            n == 4 * (w as int) * (h as int),
            raster_wf(src@),
            pixels@.len() == k,
            forall|k2: int|
                0 <= k2 < k ==> pixels@[k2] == crop_pixel(
                    src@,
                    x as int,
                    y as int,
                    kx(k2, w as int),
                    ky(k2, w as int),
                    kc(k2),
                ),
        decreases n - k,
    {
        proof {
            assert(w >= 1) by (nonlinear_arith)
                requires
                    k < n,
                    n == 4 * (w as int) * (h as int),
                    w >= 0,
                    h >= 0,
            ;
            lemma_px_decode(w as int, h as int, k as int);
        }
        let q: usize = k / 4;
        let c: usize = k % 4;
        let i: usize = q % (w as usize);
        let j: usize = q / (w as usize);
        let sw = src.width as usize;
        let sh = src.height as usize;
        let xi64: u64 = (x as u64) + (i as u64);
        let yj64: u64 = (y as u64) + (j as u64);
        let v: u8 = if xi64 < (sw as u64) && yj64 < (sh as u64) {
            let xi = xi64 as usize;
            let yj = yj64 as usize;
            proof {
                lemma_px_encode(src@.width as int, src@.height as int, xi as int, yj as int,
                    c as int);
            }
            src.pixels[4 * (yj * sw + xi) + c]
        } else {
            0
        };
        pixels.push(v);
        k = k + 1;
    }
    let r = Raster { width: w, height: h, pixels };
    proof {
        assert forall|i: int, j: int, c: int|
            0 <= i < w && 0 <= j < h && 0 <= c < 4 implies px(r@, i, j, c) == crop_pixel(
            src@,
            x as int,
            y as int,
            i,
            j,
            c,
        ) by {
            lemma_px_encode(w as int, h as int, i, j, c);
        }
        lemma_is_crop_spec(src@, r@, x as int, y as int, w, h);
    }
    r
}

/// Places the raster at offset (`x`, `y`) on a fresh fully transparent
/// canvas of `w` by `h`; content outside the new canvas is discarded.
pub fn expand_rect(src: &Raster, x: u32, y: u32, w: u32, h: u32) -> (r: Raster)
    requires
        raster_wf(src@),
        4 * (w as int) * (h as int) <= u32::MAX,
        x + src@.width <= u32::MAX,
        y + src@.height <= u32::MAX,
    ensures
        raster_wf(r@),
        r@.width == w,
        r@.height == h,
        forall|i: int, j: int, c: int|
            0 <= i < w && 0 <= j < h && 0 <= c < 4 ==> px(r@, i, j, c) == expand_pixel(
                src@,
                x as int,
                y as int,
                i,
                j,
                c,
            ),
{
    let n: usize = raster_len(w, h);
    let mut pixels: Vec<u8> = Vec::new();
    let mut k: usize = 0;
    while k < n
        invariant
            k <= n,
            n == 4 * (w as int) * (h as int),
            raster_wf(src@),
            x + src@.width <= u32::MAX,
            y + src@.height <= u32::MAX,
            pixels@.len() == k,
            forall|k2: int|
                0 <= k2 < k ==> pixels@[k2] == expand_pixel(
                    src@,
                    x as int,
                    y as int,
                    kx(k2, w as int),
                    ky(k2, w as int),
                    kc(k2),
                ),
        decreases n - k,
    {
        proof {
            assert(w >= 1) by (nonlinear_arith)
                requires
                    k < n,
                    n == 4 * (w as int) * (h as int),
                    w >= 0,
                    h >= 0,
            ;
            lemma_px_decode(w as int, h as int, k as int);
        }
        let q: usize = k / 4;
        let c: usize = k % 4;
        let i: usize = q % (w as usize);
        let j: usize = q / (w as usize);
        let sw = src.width as usize;
        let sh = src.height as usize;
        let xs = x as usize;
        let ys = y as usize;
        let v: u8 = if i >= xs && i < xs + sw && j >= ys && j < ys + sh {
            proof {
                lemma_px_encode(src@.width as int, src@.height as int, i - xs, j - ys, c as int);
            }
            src.pixels[4 * ((j - ys) * sw + (i - xs)) + c]
        } else {
            0
        };
        pixels.push(v);
        k = k + 1;
    }
    let r = Raster { width: w, height: h, pixels };
    proof {
        assert forall|i: int, j: int, c: int|
            0 <= i < w && 0 <= j < h && 0 <= c < 4 implies px(r@, i, j, c) == expand_pixel(
            src@,
            x as int,
            y as int,
            i,
            j,
            c,
        ) by {
            lemma_px_encode(w as int, h as int, i, j, c);
        }
    }
    r
}

/// The crop/expand inverse: expanding a crop back to the source's size, at
/// the same offset, reproduces the source's content everywhere the crop
/// window and the source overlap.
pub proof fn lemma_crop_expand_inverse(
    src: RasterModel,
    cropped: RasterModel,
    back: RasterModel,
    x: int,
    y: int,
    w: int,
    h: int,
)
    requires
        raster_wf(src),
        raster_wf(cropped),
        raster_wf(back),
        cropped.width == w,
        cropped.height == h,
        back.width == src.width,
        back.height == src.height,
        0 <= x,
        0 <= y,
        forall|i: int, j: int, c: int|
            0 <= i < w && 0 <= j < h && 0 <= c < 4 ==> #[trigger] px(cropped, i, j, c)
                == crop_pixel(src, x, y, i, j, c),
        forall|i: int, j: int, c: int|
            0 <= i < back.width && 0 <= j < back.height && 0 <= c < 4 ==> #[trigger] px(
                back,
                i,
                j,
                c,
            ) == expand_pixel(cropped, x, y, i, j, c),
    ensures
        forall|i: int, j: int, c: int|
            x <= i < x + w && y <= j < y + h && i < src.width && j < src.height && 0 <= c < 4
                ==> #[trigger] px(back, i, j, c) == px(src, i, j, c),
{
    assert forall|i: int, j: int, c: int|
        x <= i < x + w && y <= j < y + h && i < src.width && j < src.height && 0 <= c
            < 4 implies #[trigger] px(back, i, j, c) == px(src, i, j, c) by {
        assert(px(back, i, j, c) == expand_pixel(cropped, x, y, i, j, c));
        assert(expand_pixel(cropped, x, y, i, j, c) == px(cropped, i - x, j - y, c));
        assert(px(cropped, i - x, j - y, c) == crop_pixel(src, x, y, i - x, j - y, c));
        assert(crop_pixel(src, x, y, i - x, j - y, c) == px(src, i, j, c));
    }
}

} // verus!

//! Rendered pages as RGBA8 buffers, their conversion to packed 32-bit
//! pixels, search-hit highlighting and compositing into a framebuffer.

use vstd::arithmetic::div_mod::*;
use vstd::prelude::*;

verus! {

/// A rendered page: RGBA8 pixels, row-major.
///
/// `rgba` has length `width * height * 4`. Each pixel is
/// `(r, g, b, a)` in that byte order.
#[derive(Debug, Clone)]
pub struct RenderedPage {
    pub width: usize,
    pub height: usize,
    pub rgba: Vec<u8>,
}

/// The 32-bit word whose bytes, from least to most significant, are
/// `b0`, `b1`, `b2`, `b3`.
pub open spec fn word_of_bytes(b0: int, b1: int, b2: int, b3: int) -> int {
    b0 + b1 * 0x100 + b2 * 0x1_0000 + b3 * 0x100_0000
}

/// Channel `c` (0 = red, 1 = green, 2 = blue, 3 = alpha) of pixel `p`
/// in an RGBA8 byte sequence.
pub open spec fn channel(px: Seq<u8>, p: int, c: int) -> u8 {
    px[4 * p + c]
}

/// The packed word of pixel `p`: red in the low byte, then green, blue,
/// and alpha in the high byte.
pub open spec fn packed_pixel(px: Seq<u8>, p: int) -> u32 {
    word_of_bytes(
        channel(px, p, 0) as int,
        channel(px, p, 1) as int,
        channel(px, p, 2) as int,
        channel(px, p, 3) as int,
    ) as u32
}

impl RenderedPage {
    /// The documented shape of a page: four bytes per pixel.
    pub open spec fn wf(&self) -> bool {
        self.rgba@.len() == self.width * self.height * 4
    }

    /// Length of the pixel buffer in `u32`s (one per pixel).
    pub fn pixel_count(&self) -> (n: usize)
        requires
            self.width * self.height <= usize::MAX,
        ensures
            n == self.width * self.height,
    {
        self.width * self.height
    }

    /// Convert the RGBA8 buffer into a `u32` framebuffer suitable for
    /// `softbuffer` on little-endian machines (memory order R,G,B,A).
    ///
    /// Packing `a<<24 | b<<16 | g<<8 | r` yields R,G,B,A in memory on
    /// little-endian machines. Trailing bytes that do not make a whole
    /// pixel are ignored.
    pub fn to_argb_u32(&self) -> (out: Vec<u32>)
        requires
            self.width * self.height <= usize::MAX,
        ensures
            out@.len() == self.rgba@.len() / 4,
            forall|p: int| 0 <= p < out@.len() ==> #[trigger] out@[p] == packed_pixel(self.rgba@, p),
    {
        let mut out: Vec<u32> = Vec::with_capacity(self.pixel_count());
        let px = &self.rgba;
        let len: usize = px.len();
        let n: usize = len / 4;
        let mut k: usize = 0;
        while k < n
            invariant
                len == px@.len(),
                n == len / 4,
                n * 4 <= len,
                k <= n,
                out@.len() == k,
                forall|p: int| 0 <= p < k ==> #[trigger] out@[p] == packed_pixel(px@, p),
            decreases n - k,
        {
            let r = px[4 * k] as u32;
            let g = px[4 * k + 1] as u32;
            let b = px[4 * k + 2] as u32;
            let a = px[4 * k + 3] as u32;
            let word: u32 = (a << 24) | (b << 16) | (g << 8) | r;
            assert(word == word_of_bytes(r as int, g as int, b as int, a as int)) by (bit_vector)
                requires
                    r < 256,
                    g < 256,
                    b < 256,
                    a < 256,
                    word == (a << 24) | (b << 16) | (g << 8) | r,
            ;
            out.push(word);
            k = k + 1;
        }
        out
    }
}

/// A search hit's bounding box in page pixel coordinates: the pixels with
/// column in `x0..x1` and row in `y0..y1`. Coordinates may lie outside
/// the page; only the part inside the buffer drawn on is drawn.
#[derive(Debug, Clone, Copy, PartialEq, Eq)]
pub struct HitBox {
    pub x0: isize,
    pub y0: isize,
    pub x1: isize,
    pub y1: isize,
}

/// Opacity (out of 255) of the highlight of the current search hit.
pub const CURRENT_HIT_ALPHA: u32 = 150;

/// Opacity (out of 255) of the highlight of the other search hits.
pub const OTHER_HIT_ALPHA: u32 = 90;

/// The opacity of hit number `idx` when hit number `hit_index` is current.
pub open spec fn hit_alpha(idx: int, hit_index: int) -> int {
    if idx == hit_index {
        CURRENT_HIT_ALPHA as int
    } else {
        OTHER_HIT_ALPHA as int
    }
}

/// A channel value `c` after blending a full-intensity (255) channel over
/// it with opacity `alpha / 255`.
pub open spec fn toward_full(c: int, alpha: int) -> int {
    (255 * alpha + c * (255 - alpha)) / 255
}

/// A channel value `c` after blending a zero channel over it with opacity
/// `alpha / 255`.
pub open spec fn toward_zero(c: int, alpha: int) -> int {
    (c * (255 - alpha)) / 255
}

/// Whether the pixel at column `x`, row `y` lies in box `b`.
pub open spec fn in_box(b: HitBox, x: int, y: int) -> bool {
    b.x0 <= x < b.x1 && b.y0 <= y < b.y1
}

/// The column of the pixel that byte `i` of a `w`-pixel-wide RGBA buffer
/// belongs to.
pub open spec fn byte_col(i: int, w: int) -> int {
    (i / 4) % w
}

/// The row of the pixel that byte `i` of a `w`-pixel-wide RGBA buffer
/// belongs to.
pub open spec fn byte_row(i: int, w: int) -> int {
    (i / 4) / w
}

/// Byte `i` of a `w` by `h` RGBA buffer after blending yellow
/// (255, 255, 0) with opacity `alpha / 255` over the pixels of box `b`.
/// Alpha bytes, pixels outside the box and bytes past the image stay.
pub open spec fn highlight_byte(px: Seq<u8>, w: int, h: int, b: HitBox, alpha: int, i: int) -> u8 {
    if 0 <= i < w * h * 4 && in_box(b, byte_col(i, w), byte_row(i, w)) && i % 4 < 3 {
        if i % 4 < 2 {
            toward_full(px[i] as int, alpha) as u8
        } else {
            toward_zero(px[i] as int, alpha) as u8
        }
    } else {
        px[i]
    }
}

/// A `w` by `h` RGBA buffer after highlighting box `b` with opacity `alpha`.
pub open spec fn highlight_box(px: Seq<u8>, w: int, h: int, b: HitBox, alpha: int) -> Seq<u8> {
    Seq::new(px.len(), |i: int| highlight_byte(px, w, h, b, alpha, i))
}

/// A `w` by `h` RGBA buffer after highlighting every box of `hits` in
/// order, hit number `hit_index` being the current one.
pub open spec fn highlighted(px: Seq<u8>, w: int, h: int, hits: Seq<HitBox>, hit_index: int) -> Seq<u8>
    decreases hits.len(),
{
    if hits.len() == 0 {
        px
    } else {
        highlight_box(
            highlighted(px, w, h, hits.drop_last(), hit_index),
            w,
            h,
            hits.last(),
            hit_alpha(hits.len() - 1, hit_index),
        )
    }
}

/// Highlighting keeps the length of the buffer.
pub proof fn lemma_highlighted_len(px: Seq<u8>, w: int, h: int, hits: Seq<HitBox>, hit_index: int)
    ensures
        highlighted(px, w, h, hits, hit_index).len() == px.len(),
    decreases hits.len(),
{
    if hits.len() > 0 {
        lemma_highlighted_len(px, w, h, hits.drop_last(), hit_index);
    }
}

/// Byte `i` while box `b` is being highlighted, once the pixels before
/// column `xx` of row `yy` (in row-major order) are done.
spec fn partial_byte(
    px: Seq<u8>,
    w: int,
    h: int,
    b: HitBox,
    alpha: int,
    yy: int,
    xx: int,
    i: int,
) -> u8 {
    if byte_row(i, w) < yy || (byte_row(i, w) == yy && byte_col(i, w) < xx) {
        highlight_byte(px, w, h, b, alpha, i)
    } else {
        px[i]
    }
}

pub proof fn lemma_blend_bounds(c: int, alpha: int)
    requires
        0 <= c <= 255,
        0 <= alpha <= 255,
    ensures
        0 <= toward_full(c, alpha) <= 255,
        0 <= toward_zero(c, alpha) <= 255,
        c <= toward_full(c, alpha),
        toward_zero(c, alpha) <= c,
{
    assert(0 <= c * (255 - alpha) <= 255 * (255 - alpha)) by (nonlinear_arith)
        requires
            0 <= c <= 255,
            0 <= alpha <= 255,
    ;
    assert(c * 255 <= 255 * alpha + c * (255 - alpha)) by (nonlinear_arith)
        requires
            0 <= c <= 255,
            0 <= alpha <= 255,
    ;
    assert(c * (255 - alpha) <= c * 255) by (nonlinear_arith)
        requires
            0 <= c <= 255,
            0 <= alpha <= 255,
    ;
}

/// The pixel index of byte `i` splits into row and column.
proof fn lemma_byte_coords(i: int, w: int)
    requires
        0 <= i,
        0 < w,
    ensures
        i / 4 == byte_row(i, w) * w + byte_col(i, w),
        0 <= byte_col(i, w) < w,
        0 <= byte_row(i, w),
        4 * (i / 4) <= i < 4 * (i / 4) + 4,
        i % 4 == i - 4 * (i / 4),
{
    lemma_fundamental_div_mod(i / 4, w);
    vstd::arithmetic::mul::lemma_mul_is_commutative(w, (i / 4) / w);
    lemma_mod_bound(i / 4, w);
    lemma_div_pos_is_pos(i / 4, w);
    lemma_fundamental_div_mod(i, 4);
    lemma_mod_bound(i, 4);
}

/// The bytes of the pixel at column `x`, row `y` have those coordinates.
proof fn lemma_pixel_bytes(x: int, y: int, w: int, c: int)
    requires
        0 <= x < w,
        0 <= y,
        0 <= c < 4,
    ensures
        byte_col((y * w + x) * 4 + c, w) == x,
        byte_row((y * w + x) * 4 + c, w) == y,
        ((y * w + x) * 4 + c) % 4 == c,
{
    let p = y * w + x;
    lemma_fundamental_div_mod_converse(p * 4 + c, 4, p, c);
    lemma_fundamental_div_mod_converse(p, w, y, x);
}

/// A pixel inside a `w` by `h` image has its four bytes inside the buffer.
proof fn lemma_pixel_in_image(x: int, y: int, w: int, h: int)
    requires
        0 <= x < w,
        0 <= y < h,
    ensures
        0 <= (y * w + x) * 4,
        (y * w + x) * 4 + 4 <= w * h * 4,
{
    assert(y * w + x + 1 <= w * h) by (nonlinear_arith)
        requires
            0 <= x < w,
            0 <= y < h,
    ;
    assert(0 <= y * w) by (nonlinear_arith)
        requires
            0 <= x < w,
            0 <= y < h,
    ;
}

/// Blend yellow with opacity `alpha` over the pixels of box `b` of the
/// `w` by `h` RGBA buffer `rgba`.
fn highlight_one_box(rgba: &mut [u8], w: usize, h: usize, b: HitBox, alpha: u32)
    requires
        w * h * 4 <= old(rgba)@.len(),
        alpha <= 255,
    ensures
        final(rgba)@ == highlight_box(old(rgba)@, w as int, h as int, b, alpha as int),
{
    let ghost orig = rgba@;
    let len: usize = rgba.len();
    let y_lo: usize = if b.y0 > 0 { b.y0 as usize } else { 0 };
    let y_hi: usize = if b.y1 <= 0 { 0 } else if (b.y1 as usize) < h { b.y1 as usize } else { h };
    let x_lo: usize = if b.x0 > 0 { b.x0 as usize } else { 0 };
    let x_hi: usize = if b.x1 <= 0 { 0 } else if (b.x1 as usize) < w { b.x1 as usize } else { w };
    let mut yy: usize = y_lo;
    assert forall|i: int| 0 <= i < len implies #[trigger] rgba@[i] == partial_byte(
        orig,
        w as int,
        h as int,
        b,
        alpha as int,
        yy as int,
        0,
        i,
    ) by {
        if w > 0 {
            lemma_byte_coords(i, w as int);
        }
    }
    while yy < y_hi
        invariant
            orig.len() == len,
            w * h * 4 <= len,
            alpha <= 255,
            y_lo as int == (if b.y0 > 0 { b.y0 as int } else { 0 }),
            y_hi as int == (if b.y1 <= 0 { 0 } else if b.y1 < h { b.y1 as int } else { h as int }),
            x_lo as int == (if b.x0 > 0 { b.x0 as int } else { 0 }),
            x_hi as int == (if b.x1 <= 0 { 0 } else if b.x1 < w { b.x1 as int } else { w as int }),
            y_lo <= yy,
            yy <= y_hi || yy == y_lo,
            rgba@.len() == len,
            forall|i: int|
                0 <= i < len ==> #[trigger] rgba@[i] == partial_byte(
                    orig,
                    w as int,
                    h as int,
                    b,
                    alpha as int,
                    yy as int,
                    0,
                    i,
                ),
        decreases y_hi - yy,
    {
        assert forall|i: int| 0 <= i < len implies #[trigger] rgba@[i] == partial_byte(
            orig,
            w as int,
            h as int,
            b,
            alpha as int,
            yy as int,
            x_lo as int,
            i,
        ) by {
            if w > 0 && byte_row(i, w as int) == yy && 0 <= byte_col(i, w as int) < x_lo {
                lemma_byte_coords(i, w as int);
            }
        }
        let mut xx: usize = x_lo;
        while xx < x_hi
            invariant
                orig.len() == len,
                w * h * 4 <= len,
                alpha <= 255,
                y_lo as int == (if b.y0 > 0 { b.y0 as int } else { 0 }),
                y_hi as int == (if b.y1 <= 0 { 0 } else if b.y1 < h { b.y1 as int } else { h as int }),
                x_lo as int == (if b.x0 > 0 { b.x0 as int } else { 0 }),
                x_hi as int == (if b.x1 <= 0 { 0 } else if b.x1 < w { b.x1 as int } else { w as int }),
                y_lo <= yy < y_hi,
                x_lo <= xx,
                xx <= x_hi || xx == x_lo,
                rgba@.len() == len,
                forall|i: int|
                    0 <= i < len ==> #[trigger] rgba@[i] == partial_byte(
                        orig,
                        w as int,
                        h as int,
                        b,
                        alpha as int,
                        yy as int,
                        xx as int,
                        i,
                    ),
            decreases x_hi - xx,
        {
            proof {
                lemma_pixel_in_image(xx as int, yy as int, w as int, h as int);
            }
            let i0: usize = (yy * w + xx) * 4;
            let ghost before = rgba@;
            proof {
                lemma_pixel_bytes(xx as int, yy as int, w as int, 0);
                lemma_pixel_bytes(xx as int, yy as int, w as int, 1);
                lemma_pixel_bytes(xx as int, yy as int, w as int, 2);
                lemma_pixel_bytes(xx as int, yy as int, w as int, 3);
                assert(rgba@[i0 as int] == orig[i0 as int]);
                assert(rgba@[i0 + 1] == orig[i0 + 1]);
                assert(rgba@[i0 + 2] == orig[i0 + 2]);
                lemma_blend_bounds(orig[i0 as int] as int, alpha as int);
                lemma_blend_bounds(orig[i0 + 1] as int, alpha as int);
                lemma_blend_bounds(orig[i0 + 2] as int, alpha as int);
            }
            let cr = rgba[i0] as u32;
            let cg = rgba[i0 + 1] as u32;
            let cb = rgba[i0 + 2] as u32;
            let nr = (255 * alpha + cr * (255 - alpha)) / 255;
            let ng = (255 * alpha + cg * (255 - alpha)) / 255;
            let nb = (cb * (255 - alpha)) / 255;
            rgba[i0] = nr as u8;
            rgba[i0 + 1] = ng as u8;
            rgba[i0 + 2] = nb as u8;
            assert forall|i: int| 0 <= i < len implies #[trigger] rgba@[i] == partial_byte(
                orig,
                w as int,
                h as int,
                b,
                alpha as int,
                yy as int,
                xx + 1,
                i,
            ) by {
                if i < i0 || i >= i0 + 4 {
                    assert(rgba@[i] == before[i]);
                    if w > 0 {
                        lemma_byte_coords(i, w as int);
                        if byte_row(i, w as int) == yy && byte_col(i, w as int) == xx {
                            assert(i / 4 == yy * w + xx);
                        }
                    }
                }
            }
            xx = xx + 1;
        }
        assert forall|i: int| 0 <= i < len implies #[trigger] rgba@[i] == partial_byte(
            orig,
            w as int,
            h as int,
            b,
            alpha as int,
            yy + 1,
            0,
            i,
        ) by {
            if w > 0 {
                lemma_byte_coords(i, w as int);
            }
        }
        yy = yy + 1;
    }
    assert forall|i: int| 0 <= i < len implies #[trigger] rgba@[i] == highlight_byte(
        orig,
        w as int,
        h as int,
        b,
        alpha as int,
        i,
    ) by {
        if w > 0 {
            lemma_byte_coords(i, w as int);
            let row = byte_row(i, w as int);
            let col = byte_col(i, w as int);
            if row >= h {
                assert((row * w + col) * 4 >= w * h * 4) by (nonlinear_arith)
                    requires
                        row >= h,
                        col >= 0,
                        w > 0,
                ;
            }
        }
    }
    assert(rgba@ =~= highlight_box(orig, w as int, h as int, b, alpha as int));
}

/// Blend translucent yellow over the RGBA page buffer at the given hits.
///
/// Each hit box is in the page's pixel coordinates; the part of it inside
/// the `w` by `h` page is blended. The "current" hit (`hit_index`) is
/// drawn more opaque than the rest. Hits are drawn in order, so where
/// boxes overlap the later ones blend over the earlier ones.
pub fn apply_highlights(rgba: &mut [u8], w: usize, h: usize, hits: &[HitBox], hit_index: usize)
    requires
        w * h * 4 <= old(rgba)@.len(),
    ensures
        final(rgba)@ == highlighted(old(rgba)@, w as int, h as int, hits@, hit_index as int),
{
    let ghost orig = rgba@;
    let n: usize = hits.len();
    let mut idx: usize = 0;
    while idx < n
        invariant
            n == hits@.len(),
            idx <= n,
            orig.len() == rgba@.len(),
            w * h * 4 <= orig.len(),
            rgba@ == highlighted(orig, w as int, h as int, hits@.take(idx as int), hit_index as int),
        decreases n - idx,
    {
        let alpha: u32 = if idx == hit_index { CURRENT_HIT_ALPHA } else { OTHER_HIT_ALPHA };
        highlight_one_box(rgba, w, h, hits[idx], alpha);
        assert(hits@.take(idx + 1).drop_last() =~= hits@.take(idx as int));
        idx = idx + 1;
    }
    assert(hits@.take(n as int) =~= hits@);
}

/// The dark gray backdrop of the framebuffer.
pub const BACKDROP: u32 = 0x2b2b2b;

/// Each of the red, green and blue levels of the backdrop.
pub open spec fn backdrop_level() -> int {
    0x2b
}

/// A channel value `c` with opacity `a / 255` over a backdrop level `bgc`.
pub open spec fn over_backdrop(c: int, a: int, bgc: int) -> int {
    (c * a + bgc * (255 - a)) / 255
}

/// The framebuffer word of page pixel (`col`, `row`) of the RGBA buffer `px`
/// of a page `pw` pixels wide, composited over the backdrop: blue in the low
/// byte, then green, then red, the high byte zero.
pub open spec fn composited_pixel(px: Seq<u8>, pw: int, col: int, row: int) -> u32 {
    let p = row * pw + col;
    let a = channel(px, p, 3) as int;
    word_of_bytes(
        over_backdrop(channel(px, p, 2) as int, a, backdrop_level()),
        over_backdrop(channel(px, p, 1) as int, a, backdrop_level()),
        over_backdrop(channel(px, p, 0) as int, a, backdrop_level()),
        0,
    ) as u32
}

/// The offset that centers an extent `inner` in an extent `outer`; zero when
/// it does not fit.
pub open spec fn centering_offset(outer: int, inner: int) -> int {
    if outer > inner {
        (outer - inner) / 2
    } else {
        0
    }
}

/// The framebuffer word at column `x`, row `y` of a `win_w` by `win_h`
/// window showing the `pw` by `ph` page `px` centered on the backdrop.
pub open spec fn window_pixel(px: Seq<u8>, pw: int, ph: int, win_w: int, win_h: int, x: int, y: int) -> u32 {
    let ox = centering_offset(win_w, pw);
    let oy = centering_offset(win_h, ph);
    if ox <= x < ox + pw && oy <= y < oy + ph {
        composited_pixel(px, pw, x - ox, y - oy)
    } else {
        BACKDROP
    }
}

/// Whether a page is drawn at all: it has pixels and the framebuffer of
/// length `len` holds the whole `win_w` by `win_h` window.
pub open spec fn page_is_drawn(pw: int, ph: int, len: int, win_w: int, win_h: int) -> bool {
    pw > 0 && ph > 0 && len >= win_w * win_h
}

/// The framebuffer of length `len` after drawing the page `px` centered in
/// the `win_w` by `win_h` window (row-major, `win_w` words per row); words
/// past the window, and all words when the page is not drawn, hold the
/// backdrop.
pub open spec fn framebuffer(px: Seq<u8>, pw: int, ph: int, len: int, win_w: int, win_h: int) -> Seq<u32> {
    Seq::new(
        len as nat,
        |i: int|
            if page_is_drawn(pw, ph, len, win_w, win_h) && i < win_w * win_h {
                window_pixel(px, pw, ph, win_w, win_h, i % win_w, i / win_w)
            } else {
                BACKDROP
            },
    )
}

/// Whether window pixel (`x`, `y`) shows page pixel (`c`, `r`) with `r`
/// before `row`, or `r == row` and `c` before `col`.
spec fn drawn_before(ox: int, oy: int, pw: int, ph: int, row: int, col: int, x: int, y: int) -> bool {
    &&& ox <= x < ox + pw
    &&& oy <= y < oy + ph
    &&& (y - oy < row || (y - oy == row && x - ox < col))
}

/// Framebuffer word `i` while the page is being drawn.
spec fn partial_frame_word(
    px: Seq<u8>,
    pw: int,
    ph: int,
    win_w: int,
    win_h: int,
    row: int,
    col: int,
    i: int,
) -> u32 {
    let ox = centering_offset(win_w, pw);
    let oy = centering_offset(win_h, ph);
    if i < win_w * win_h && drawn_before(ox, oy, pw, ph, row, col, i % win_w, i / win_w) {
        window_pixel(px, pw, ph, win_w, win_h, i % win_w, i / win_w)
    } else {
        BACKDROP
    }
}

/// An index into a `w`-wide row-major grid splits into row and column.
pub proof fn lemma_grid_coords(i: int, w: int)
    requires
        0 <= i,
        0 < w,
    ensures
        i == (i / w) * w + i % w,
        0 <= i % w < w,
        0 <= i / w,
{
    lemma_fundamental_div_mod(i, w);
    vstd::arithmetic::mul::lemma_mul_is_commutative(w, i / w);
    lemma_mod_bound(i, w);
    lemma_div_pos_is_pos(i, w);
}

/// The grid index of column `x`, row `y` gives back `x` and `y`.
pub proof fn lemma_grid_index(x: int, y: int, w: int)
    requires
        0 <= x < w,
        0 <= y,
    ensures
        (y * w + x) % w == x,
        (y * w + x) / w == y,
{
    lemma_fundamental_div_mod_converse(y * w + x, w, y, x);
}

/// Grid cell (`x`, `y`) of a `w` by `h` grid lies inside it.
pub proof fn lemma_grid_cell_in_grid(x: int, y: int, w: int, h: int)
    requires
        0 <= x < w,
        0 <= y < h,
    ensures
        0 <= y * w + x < w * h,
{
    assert(y * w + x + 1 <= w * h) by (nonlinear_arith)
        requires
            0 <= x < w,
            0 <= y < h,
    ;
    assert(0 <= y * w) by (nonlinear_arith)
        requires
            0 <= y,
            0 <= w,
    ;
}

/// A grid index at or past the window belongs to no row inside it.
pub proof fn lemma_grid_row_bound(i: int, w: int, h: int)
    requires
        0 <= i < w * h,
        0 < w,
    ensures
        i / w < h,
{
    lemma_grid_coords(i, w);
    if i / w >= h {
        assert((i / w) * w >= h * w) by (nonlinear_arith)
            requires
                i / w >= h,
                w > 0,
        ;
        vstd::arithmetic::mul::lemma_mul_is_commutative(w, h);
    }
}

proof fn lemma_over_backdrop_bounds(c: int, a: int, bgc: int)
    requires
        0 <= c <= 255,
        0 <= a <= 255,
        0 <= bgc <= 255,
    ensures
        0 <= over_backdrop(c, a, bgc) <= 255,
{
    assert(0 <= c * a + bgc * (255 - a) <= 255 * 255) by (nonlinear_arith)
        requires
            0 <= c <= 255,
            0 <= a <= 255,
            0 <= bgc <= 255,
    ;
}

/// Draw the `pw` by `ph` page `px` centered in the `win_w` by `win_h`
/// window of `buffer`, which holds only the backdrop.
fn composite_page(px: &[u8], pw: usize, ph: usize, buffer: &mut [u32], win_w: usize, win_h: usize)
    requires
        pw > 0,
        ph > 0,
        win_w * win_h <= old(buffer)@.len(),
        pw * ph * 4 <= px@.len(),
        forall|i: int| 0 <= i < old(buffer)@.len() ==> #[trigger] old(buffer)@[i] == BACKDROP,
    ensures
        final(buffer)@ == framebuffer(px@, pw as int, ph as int, old(buffer)@.len() as int, win_w as int, win_h as int),
{
    let len: usize = buffer.len();
    let px_len: usize = px.len();
    let ox: usize = (if win_w > pw { win_w - pw } else { 0 }) / 2;
    let oy: usize = (if win_h > ph { win_h - ph } else { 0 }) / 2;
    let br: u32 = BACKDROP & 0xff;
    let bg: u32 = (BACKDROP >> 8) & 0xff;
    let bb: u32 = (BACKDROP >> 16) & 0xff;
    assert(br == 0x2b && bg == 0x2b && bb == 0x2b) by (bit_vector)
        requires
            br == BACKDROP & 0xff,
            bg == (BACKDROP >> 8) & 0xff,
            bb == (BACKDROP >> 16) & 0xff,
    ;
    assert(ph <= pw * ph && pw <= pw * ph) by (nonlinear_arith)
        requires
            pw > 0,
            ph > 0,
    ;
    let mut row: usize = 0;
    while row < ph
        invariant
            pw > 0,
            ph > 0,
            len == buffer@.len(),
            px_len == px@.len(),
            win_w * win_h <= len,
            pw * ph * 4 <= px_len,
            ph <= pw * ph,
            pw <= pw * ph,
            ox == centering_offset(win_w as int, pw as int),
            oy == centering_offset(win_h as int, ph as int),
            br == 0x2b && bg == 0x2b && bb == 0x2b,
            row <= ph,
            forall|i: int|
                0 <= i < len ==> #[trigger] buffer@[i] == partial_frame_word(
                    px@,
                    pw as int,
                    ph as int,
                    win_w as int,
                    win_h as int,
                    row as int,
                    0,
                    i,
                ),
        decreases ph - row,
    {
        let dy: usize = row + oy;
        if dy < win_h {
            let mut col: usize = 0;
            while col < pw
                invariant
                    pw > 0,
                    ph > 0,
                    len == buffer@.len(),
                    px_len == px@.len(),
                    win_w * win_h <= len,
                    pw * ph * 4 <= px_len,
                    ph <= pw * ph,
                    pw <= pw * ph,
                    ox == centering_offset(win_w as int, pw as int),
                    oy == centering_offset(win_h as int, ph as int),
                    br == 0x2b && bg == 0x2b && bb == 0x2b,
                    row < ph,
                    dy == row + oy,
                    dy < win_h,
                    col <= pw,
                    forall|i: int|
                        0 <= i < len ==> #[trigger] buffer@[i] == partial_frame_word(
                            px@,
                            pw as int,
                            ph as int,
                            win_w as int,
                            win_h as int,
                            row as int,
                            col as int,
                            i,
                        ),
                decreases pw - col,
            {
                let dx: usize = col + ox;
                let ghost before = buffer@;
                if dx < win_w {
                    proof {
                        lemma_pixel_in_image(col as int, row as int, pw as int, ph as int);
                        lemma_grid_cell_in_grid(dx as int, dy as int, win_w as int, win_h as int);
                        lemma_grid_index(dx as int, dy as int, win_w as int);
                    }
                    let p: usize = row * pw + col;
                    let r = px[4 * p] as u32;
                    let g = px[4 * p + 1] as u32;
                    let b = px[4 * p + 2] as u32;
                    let a = px[4 * p + 3] as u32;
                    proof {
                        lemma_over_backdrop_bounds(r as int, a as int, 0x2b);
                        lemma_over_backdrop_bounds(g as int, a as int, 0x2b);
                        lemma_over_backdrop_bounds(b as int, a as int, 0x2b);
                    }
                    let r = (r * a + br * (255 - a)) / 255;
                    let g = (g * a + bg * (255 - a)) / 255;
                    let b = (b * a + bb * (255 - a)) / 255;
                    let word: u32 = b | (g << 8) | (r << 16);
                    assert(word == word_of_bytes(b as int, g as int, r as int, 0)) by (bit_vector)
                        requires
                            r < 256,
                            g < 256,
                            b < 256,
                            word == b | (g << 8) | (r << 16),
                    ;
                    let dst: usize = dy * win_w + dx;
                    buffer[dst] = word;
                    assert forall|i: int| 0 <= i < len implies #[trigger] buffer@[i] == partial_frame_word(
                        px@,
                        pw as int,
                        ph as int,
                        win_w as int,
                        win_h as int,
                        row as int,
                        col + 1,
                        i,
                    ) by {
                        if i != dst {
                            assert(buffer@[i] == before[i]);
                            if i < win_w * win_h {
                                lemma_grid_coords(i, win_w as int);
                                if i % (win_w as int) == dx && i / (win_w as int) == dy {
                                    assert(i == dst);
                                }
                            }
                        }
                    }
                } else {
                    assert forall|i: int| 0 <= i < len implies #[trigger] buffer@[i] == partial_frame_word(
                        px@,
                        pw as int,
                        ph as int,
                        win_w as int,
                        win_h as int,
                        row as int,
                        col + 1,
                        i,
                    ) by {
                        if win_w == 0 {
                            assert(win_w * win_h == 0);
                        } else if i < win_w * win_h {
                            lemma_grid_coords(i, win_w as int);
                        }
                    }
                }
                col = col + 1;
            }
        }
        assert forall|i: int| 0 <= i < len implies #[trigger] buffer@[i] == partial_frame_word(
            px@,
            pw as int,
            ph as int,
            win_w as int,
            win_h as int,
            row + 1,
            0,
            i,
        ) by {
            if win_w == 0 {
                assert(win_w * win_h == 0);
            } else if i < win_w * win_h {
                lemma_grid_coords(i, win_w as int);
                lemma_grid_row_bound(i, win_w as int, win_h as int);
            }
        }
        row = row + 1;
    }
    assert(buffer@ =~= framebuffer(px@, pw as int, ph as int, len as int, win_w as int, win_h as int));
}

/// The framebuffer of length `len` that `blit_to_buffer` draws: the page,
/// with its hits highlighted, centered in the `win_w` by `win_h` window.
pub open spec fn page_frame(
    page: RenderedPage,
    hits: Seq<HitBox>,
    hit_index: int,
    len: int,
    win_w: int,
    win_h: int,
) -> Seq<u32> {
    framebuffer(
        highlighted(page.rgba@, page.width as int, page.height as int, hits, hit_index),
        page.width as int,
        page.height as int,
        len,
        win_w,
        win_h,
    )
}

/// Fill every word of `buffer` with the backdrop.
fn fill_backdrop(buffer: &mut [u32])
    ensures
        final(buffer)@.len() == old(buffer)@.len(),
        forall|i: int| 0 <= i < final(buffer)@.len() ==> #[trigger] final(buffer)@[i] == BACKDROP,
{
    let len: usize = buffer.len();
    let mut k: usize = 0;
    while k < len
        invariant
            len == buffer@.len(),
            k <= len,
            forall|i: int| 0 <= i < k ==> #[trigger] buffer@[i] == BACKDROP,
        decreases len - k,
    {
        buffer[k] = BACKDROP;
        k = k + 1;
    }
}

/// Composite a rendered page (plus optional search highlights) onto a
/// `softbuffer` `u32` framebuffer, centered on a neutral gray background.
///
/// The framebuffer is first filled with the backdrop. Nothing more is drawn
/// when the page has no pixels or `buffer` is shorter than `win_w * win_h`.
/// Otherwise the hits (boxes in page pixels) are highlighted on a copy of
/// the page's pixels, which keeps the page itself pristine, and the copy is
/// alpha-composited over the backdrop, centered in the window and clipped
/// to it.
pub fn blit_to_buffer(
    page: &RenderedPage,
    buffer: &mut [u32],
    win_w: usize,
    win_h: usize,
    hits: &[HitBox],
    hit_index: usize,
)
    requires
        page.width > 0 && page.height > 0 ==> win_w * win_h <= usize::MAX,
        page.width > 0 && page.height > 0 ==> page.width * page.height * 4 <= page.rgba@.len(),
    ensures
        final(buffer)@ == framebuffer(
            highlighted(page.rgba@, page.width as int, page.height as int, hits@, hit_index as int),
            page.width as int,
            page.height as int,
            old(buffer)@.len() as int,
            win_w as int,
            win_h as int,
        ),
        final(buffer)@ == page_frame(*page, hits@, hit_index as int, old(buffer)@.len() as int, win_w as int, win_h as int),
{
    fill_backdrop(buffer);
    let pw: usize = page.width;
    let ph: usize = page.height;
    let ghost hl = highlighted(page.rgba@, pw as int, ph as int, hits@, hit_index as int);
    if pw == 0 || ph == 0 || buffer.len() < win_w * win_h {
        assert(buffer@ =~= framebuffer(hl, pw as int, ph as int, buffer@.len() as int, win_w as int, win_h as int));
        return;
    }
    // Highlights go onto a copy of the page's own RGBA, which keeps the
    // original buffer pristine for hit cycling without re-rendering.
    let mut rgba: Vec<u8> = vstd::slice::slice_to_vec(page.rgba.as_slice());
    apply_highlights(rgba.as_mut_slice(), pw, ph, hits, hit_index);
    proof {
        lemma_highlighted_len(page.rgba@, pw as int, ph as int, hits@, hit_index as int);
    }
    composite_page(rgba.as_slice(), pw, ph, buffer, win_w, win_h);
}

/// Fill `buffer` with the backdrop and, when the page has pixels and
/// `buffer` holds the whole `win_w` by `win_h` window, draw the page
/// centered in it; tells whether the page was drawn.
pub fn composite_page_into(page: &RenderedPage, buffer: &mut [u32], win_w: usize, win_h: usize) -> (drawn: bool)
    requires
        page.width > 0 && page.height > 0 ==> win_w * win_h <= usize::MAX,
        page.width > 0 && page.height > 0 ==> page.width * page.height * 4 <= page.rgba@.len(),
    ensures
        drawn == page_is_drawn(
            page.width as int,
            page.height as int,
            old(buffer)@.len() as int,
            win_w as int,
            win_h as int,
        ),
        final(buffer)@ == framebuffer(
            page.rgba@,
            page.width as int,
            page.height as int,
            old(buffer)@.len() as int,
            win_w as int,
            win_h as int,
        ),
{
    fill_backdrop(buffer);
    let pw: usize = page.width;
    let ph: usize = page.height;
    if pw == 0 || ph == 0 || buffer.len() < win_w * win_h {
        assert(buffer@ =~= framebuffer(page.rgba@, pw as int, ph as int, buffer@.len() as int, win_w as int, win_h as int));
        return false;
    }
    composite_page(page.rgba.as_slice(), pw, ph, buffer, win_w, win_h);
    true
}

/// A packed word holds its four bytes in order: shifting right by `8 * k`
/// and masking gives byte `k`, so on a little-endian machine the memory
/// order of a packed pixel is R, G, B, A.
pub proof fn lemma_packed_bytes(b0: u8, b1: u8, b2: u8, b3: u8)
    ensures
        ({
            let w = word_of_bytes(b0 as int, b1 as int, b2 as int, b3 as int) as u32;
            &&& w & 0xff == b0
            &&& (w >> 8) & 0xff == b1
            &&& (w >> 16) & 0xff == b2
            &&& (w >> 24) & 0xff == b3
        }),
{
    let x0 = b0 as u32;
    let x1 = b1 as u32;
    let x2 = b2 as u32;
    let x3 = b3 as u32;
    let w = word_of_bytes(b0 as int, b1 as int, b2 as int, b3 as int) as u32;
    assert(w == x0 | (x1 << 8) | (x2 << 16) | (x3 << 24)) by (bit_vector)
        requires
            x0 < 256,
            x1 < 256,
            x2 < 256,
            x3 < 256,
            w == (x0 + x1 * 0x100 + x2 * 0x1_0000 + x3 * 0x100_0000) as u32,
    ;
    assert(w & 0xff == x0 && (w >> 8) & 0xff == x1 && (w >> 16) & 0xff == x2 && (w >> 24) & 0xff
        == x3) by (bit_vector)
        requires
            x0 < 256,
            x1 < 256,
            x2 < 256,
            x3 < 256,
            w == x0 | (x1 << 8) | (x2 << 16) | (x3 << 24),
    ;
}

/// A well-formed page converts to exactly one packed word per pixel.
pub proof fn lemma_argb_one_word_per_pixel(page: RenderedPage)
    requires
        page.wf(),
    ensures
        page.rgba@.len() / 4 == page.width * page.height,
{
    vstd::arithmetic::div_mod::lemma_div_multiples_vanish(page.width * page.height, 4);
    vstd::arithmetic::mul::lemma_mul_is_commutative(page.width * page.height, 4);
}

/// Highlighting never touches an alpha byte, nor a byte of a pixel that no
/// hit box covers.
pub proof fn lemma_highlight_keeps_uncovered(
    px: Seq<u8>,
    w: int,
    h: int,
    hits: Seq<HitBox>,
    hit_index: int,
    i: int,
)
    requires
        0 <= i < px.len(),
        i % 4 == 3 || forall|j: int| 0 <= j < hits.len() ==> !in_box(#[trigger] hits[j], byte_col(i, w), byte_row(i, w)),
    ensures
        highlighted(px, w, h, hits, hit_index)[i] == px[i],
    decreases hits.len(),
{
    if hits.len() > 0 {
        lemma_highlight_keeps_uncovered(px, w, h, hits.drop_last(), hit_index, i);
        lemma_highlighted_len(px, w, h, hits.drop_last(), hit_index);
        if i % 4 != 3 {
            assert(!in_box(hits[hits.len() - 1], byte_col(i, w), byte_row(i, w)));
        }
    }
}

/// The current hit is drawn more opaque than the others: its red and green
/// are at least as high, strictly so when the channel is not nearly full
/// already, and its blue at most as high.
pub proof fn lemma_current_hit_more_opaque(c: int)
    requires
        0 <= c <= 255,
    ensures
        toward_full(c, CURRENT_HIT_ALPHA as int) >= toward_full(c, OTHER_HIT_ALPHA as int),
        c <= 250 ==> toward_full(c, CURRENT_HIT_ALPHA as int) > toward_full(c, OTHER_HIT_ALPHA as int),
        toward_zero(c, CURRENT_HIT_ALPHA as int) <= toward_zero(c, OTHER_HIT_ALPHA as int),
{
    assert(toward_full(c, 150) == (38250 + 105 * c) / 255);
    assert(toward_full(c, 90) == (22950 + 165 * c) / 255);
    assert(toward_zero(c, 150) == (105 * c) / 255);
    assert(toward_zero(c, 90) == (165 * c) / 255);
}

/// A highlight moves a pixel toward yellow: red and green never decrease,
/// blue never increases, and alpha stays.
pub proof fn lemma_highlight_toward_yellow(px: Seq<u8>, w: int, h: int, b: HitBox, alpha: int, i: int)
    requires
        0 <= i < px.len(),
        0 <= alpha <= 255,
    ensures
        i % 4 < 2 ==> highlight_byte(px, w, h, b, alpha, i) >= px[i],
        i % 4 == 2 ==> highlight_byte(px, w, h, b, alpha, i) <= px[i],
        i % 4 == 3 ==> highlight_byte(px, w, h, b, alpha, i) == px[i],
{
    lemma_blend_bounds(px[i] as int, alpha);
}

/// Over the backdrop, an opaque page pixel shows its own colour and a fully
/// transparent one shows the backdrop.
pub proof fn lemma_opacity_extremes(c: int, bgc: int)
    requires
        0 <= c <= 255,
        0 <= bgc <= 255,
    ensures
        over_backdrop(c, 255, bgc) == c,
        over_backdrop(c, 0, bgc) == bgc,
{
    assert(over_backdrop(c, 255, bgc) == c && over_backdrop(c, 0, bgc) == bgc) by (nonlinear_arith)
        requires
            0 <= c <= 255,
            0 <= bgc <= 255,
    ;
}

/// The backdrop word is the backdrop level in each of the three colour
/// bytes.
pub proof fn lemma_backdrop_levels()
    ensures
        BACKDROP as int == word_of_bytes(backdrop_level(), backdrop_level(), backdrop_level(), 0),
{
}

/// Window pixel (`x`, `y`) of a drawn page sits at index `y * win_w + x` of
/// the framebuffer.
pub proof fn lemma_framebuffer_at(px: Seq<u8>, pw: int, ph: int, len: int, win_w: int, win_h: int, x: int, y: int)
    requires
        page_is_drawn(pw, ph, len, win_w, win_h),
        0 <= x < win_w,
        0 <= y < win_h,
    ensures
        0 <= y * win_w + x < len,
        framebuffer(px, pw, ph, len, win_w, win_h)[y * win_w + x] == window_pixel(px, pw, ph, win_w, win_h, x, y),
{
    lemma_grid_cell_in_grid(x, y, win_w, win_h);
    lemma_grid_index(x, y, win_w);
}

/// Blending yellow with opacity `alpha` over channel `c` (byte `c` of a
/// pixel: 0 red, 1 green, 2 blue) of value `v`.
pub open spec fn yellow_over(c: int, v: int, alpha: int) -> int {
    if c < 2 {
        (255 * alpha + v * (255 - alpha)) / 255
    } else {
        (v * (255 - alpha)) / 255
    }
}

/// Whether the pixel at column `x`, row `y` lies in `b`.
pub open spec fn box_covers(b: HitBox, x: int, y: int) -> bool {
    b.x0 <= x && x < b.x1 && b.y0 <= y && y < b.y1
}

/// Where exactly one hit covers a page pixel, its red, green and blue bytes
/// are yellow blended over the original with that hit's opacity: 150 when
/// it is hit number `hit_index`, 90 otherwise. The order of the hits does
/// not change which opacity a hit gets.
pub proof fn lemma_highlight_single_cover(
    px: Seq<u8>,
    w: int,
    h: int,
    hits: Seq<HitBox>,
    hit_index: int,
    x: int,
    y: int,
    c: int,
    k: int,
)
    requires
        0 <= x < w,
        0 <= y < h,
        0 <= c < 3,
        w * h * 4 <= px.len(),
        0 <= k < hits.len(),
        box_covers(hits[k], x, y),
        forall|j: int| 0 <= j < hits.len() && j != k ==> !box_covers(#[trigger] hits[j], x, y),
    ensures
        highlighted(px, w, h, hits, hit_index)[(y * w + x) * 4 + c] as int == yellow_over(
            c,
            px[(y * w + x) * 4 + c] as int,
            if k == hit_index { 150 } else { 90 },
        ),
    decreases hits.len(),
{
    let i = (y * w + x) * 4 + c;
    lemma_pixel_bytes(x, y, w, c);
    lemma_pixel_in_image(x, y, w, h);
    let n = hits.len();
    let rest = hits.drop_last();
    lemma_highlighted_len(px, w, h, rest, hit_index);
    if k == n - 1 {
        assert forall|j: int| 0 <= j < rest.len() implies !in_box(#[trigger] rest[j], byte_col(i, w), byte_row(i, w)) by {
            assert(rest[j] == hits[j]);
        }
        lemma_highlight_keeps_uncovered(px, w, h, rest, hit_index, i);
        lemma_blend_bounds(px[i] as int, hit_alpha(k, hit_index));
    } else {
        assert forall|j: int| 0 <= j < rest.len() && j != k implies !box_covers(#[trigger] rest[j], x, y) by {
            assert(rest[j] == hits[j]);
        }
        lemma_highlight_single_cover(px, w, h, rest, hit_index, x, y, c, k);
        assert(!box_covers(hits[n - 1], x, y));
    }
}

/// The page is drawn centered: page pixel (`col`, `row`) lands at window
/// column `col + (win_w - pw) / 2` and row `row + (win_h - ph) / 2` (offset
/// zero along an axis where the page does not fit), composited over the
/// gray backdrop 0x2b by its alpha, and packed `B | G << 8 | R << 16`;
/// every other window word is the backdrop.
pub proof fn lemma_page_frame_pixel(
    page: RenderedPage,
    hits: Seq<HitBox>,
    hit_index: int,
    len: int,
    win_w: int,
    win_h: int,
    x: int,
    y: int,
)
    requires
        page.width > 0,
        page.height > 0,
        len >= win_w * win_h,
        0 <= x < win_w,
        0 <= y < win_h,
    ensures
        ({
            let pw = page.width as int;
            let ph = page.height as int;
            let ox = if win_w > pw { (win_w - pw) / 2 } else { 0 };
            let oy = if win_h > ph { (win_h - ph) / 2 } else { 0 };
            let hl = highlighted(page.rgba@, pw, ph, hits, hit_index);
            let word = page_frame(page, hits, hit_index, len, win_w, win_h)[y * win_w + x] as int;
            if ox <= x < ox + pw && oy <= y < oy + ph {
                let p = (y - oy) * pw + (x - ox);
                let a = hl[4 * p + 3] as int;
                word == (hl[4 * p + 2] * a + 43 * (255 - a)) / 255 + ((hl[4 * p + 1] * a + 43 * (255
                    - a)) / 255) * 256 + ((hl[4 * p] * a + 43 * (255 - a)) / 255) * 65536
            } else {
                word == 0x2b2b2b
            }
        }),
{
    let pw = page.width as int;
    let ph = page.height as int;
    let hl = highlighted(page.rgba@, pw, ph, hits, hit_index);
    lemma_framebuffer_at(hl, pw, ph, len, win_w, win_h, x, y);
    let ox = centering_offset(win_w, pw);
    let oy = centering_offset(win_h, ph);
    if ox <= x < ox + pw && oy <= y < oy + ph {
        let p = (y - oy) * pw + (x - ox);
        let a = hl[4 * p + 3] as int;
        lemma_over_backdrop_bounds(hl[4 * p] as int, a, 0x2b);
        lemma_over_backdrop_bounds(hl[4 * p + 1] as int, a, 0x2b);
        lemma_over_backdrop_bounds(hl[4 * p + 2] as int, a, 0x2b);
    }
}

} // verus!

//! The interactive viewer's logic: drawing a page with its search hits
//! into the window framebuffer, and the keyboard-driven state machine
//! (navigation, zoom, rotation, fit-to-width and text search).

use vstd::prelude::*;

use crate::render::{
    centering_offset, composite_page_into, lemma_grid_cell_in_grid, lemma_grid_row_bound, framebuffer, hit_alpha, in_box, lemma_blend_bounds, lemma_grid_coords,
    lemma_grid_index, page_is_drawn, toward_full, toward_zero, word_of_bytes, HitBox,
    RenderedPage, CURRENT_HIT_ALPHA, OTHER_HIT_ALPHA,
};

verus! {

/// A framebuffer word (`B | G << 8 | R << 16`) after blending yellow
/// (255, 255, 0) with opacity `alpha / 255` over it: red and green are
/// blended toward 255, blue toward 0, and the high byte becomes zero.
pub open spec fn highlight_word(cur: u32, alpha: int) -> u32 {
    let blue = cur as int % 256;
    let green = (cur as int / 0x100) % 256;
    let red = (cur as int / 0x1_0000) % 256;
    word_of_bytes(toward_zero(blue, alpha), toward_full(green, alpha), toward_full(red, alpha), 0) as u32
}

/// `v` clamped into `0..=hi`.
pub open spec fn clamp_to(v: int, hi: int) -> int {
    if v <= 0 {
        0
    } else if v >= hi {
        hi
    } else {
        v
    }
}

/// Word `i` of a `win_w` by `win_h` framebuffer after highlighting box `b`
/// with opacity `alpha`, where `b` is in the pixels of a page drawn with
/// its top left corner at window pixel (`ox`, `oy`).
pub open spec fn frame_highlight_word(
    buf: Seq<u32>,
    win_w: int,
    win_h: int,
    ox: int,
    oy: int,
    b: HitBox,
    alpha: int,
    i: int,
) -> u32 {
    if 0 <= i < win_w * win_h && in_box(b, i % win_w - ox, i / win_w - oy) {
        highlight_word(buf[i], alpha)
    } else {
        buf[i]
    }
}

/// A framebuffer after highlighting box `b` (page pixels, the page at
/// (`ox`, `oy`)) with opacity `alpha`.
pub open spec fn frame_highlight_box(
    buf: Seq<u32>,
    win_w: int,
    win_h: int,
    ox: int,
    oy: int,
    b: HitBox,
    alpha: int,
) -> Seq<u32> {
    Seq::new(buf.len(), |i: int| frame_highlight_word(buf, win_w, win_h, ox, oy, b, alpha, i))
}

/// A framebuffer after highlighting every box of `hits` (page pixels, the
/// page at (`ox`, `oy`)) in order, hit number `hit_index` being the current
/// one.
pub open spec fn frame_highlighted(
    buf: Seq<u32>,
    win_w: int,
    win_h: int,
    ox: int,
    oy: int,
    hits: Seq<HitBox>,
    hit_index: int,
) -> Seq<u32>
    decreases hits.len(),
{
    if hits.len() == 0 {
        buf
    } else {
        frame_highlight_box(
            frame_highlighted(buf, win_w, win_h, ox, oy, hits.drop_last(), hit_index),
            win_w,
            win_h,
            ox,
            oy,
            hits.last(),
            hit_alpha(hits.len() - 1, hit_index),
        )
    }
}

/// Word `i` while box `b` is being highlighted, once the pixels before
/// column `xx` of row `yy` are done.
spec fn partial_frame_highlight(
    buf: Seq<u32>,
    win_w: int,
    win_h: int,
    ox: int,
    oy: int,
    b: HitBox,
    alpha: int,
    yy: int,
    xx: int,
    i: int,
) -> u32 {
    if i / win_w < yy || (i / win_w == yy && i % win_w < xx) {
        frame_highlight_word(buf, win_w, win_h, ox, oy, b, alpha, i)
    } else {
        buf[i]
    }
}

/// `start + off` clamped into `0..=hi`.
fn clamped_shift(start: isize, off: usize, hi: usize) -> (r: usize)
    ensures
        r == clamp_to(start + off, hi as int),
{
    let v: i128 = start as i128 + off as i128;
    if v <= 0 {
        0
    } else if v >= hi as i128 {
        hi
    } else {
        v as usize
    }
}

/// Blend yellow with opacity `alpha` over box `b` (page pixels, the page
/// at (`ox`, `oy`)) of the `win_w` by `win_h` framebuffer.
fn highlight_frame_box(
    buffer: &mut [u32],
    win_w: usize,
    win_h: usize,
    ox: usize,
    oy: usize,
    b: HitBox,
    alpha: u32,
)
    requires
        win_w * win_h <= old(buffer)@.len(),
        alpha <= 255,
    ensures
        final(buffer)@ == frame_highlight_box(
            old(buffer)@,
            win_w as int,
            win_h as int,
            ox as int,
            oy as int,
            b,
            alpha as int,
        ),
{
    let ghost orig = buffer@;
    let len: usize = buffer.len();
    let y_lo: usize = clamped_shift(b.y0, oy, win_h);
    let y_hi: usize = clamped_shift(b.y1, oy, win_h);
    let x_lo: usize = clamped_shift(b.x0, ox, win_w);
    let x_hi: usize = clamped_shift(b.x1, ox, win_w);
    let mut yy: usize = y_lo;
    assert forall|i: int| 0 <= i < len implies #[trigger] buffer@[i] == partial_frame_highlight(
        orig,
        win_w as int,
        win_h as int,
        ox as int,
        oy as int,
        b,
        alpha as int,
        yy as int,
        0,
        i,
    ) by {
        if win_w > 0 {
            lemma_grid_coords(i, win_w as int);
        }
    }
    while yy < y_hi
        invariant
            orig.len() == len,
            win_w * win_h <= len,
            alpha <= 255,
            y_lo == clamp_to(b.y0 + oy, win_h as int),
            y_hi == clamp_to(b.y1 + oy, win_h as int),
            x_lo == clamp_to(b.x0 + ox, win_w as int),
            x_hi == clamp_to(b.x1 + ox, win_w as int),
            y_lo <= yy,
            yy <= y_hi || yy == y_lo,
            buffer@.len() == len,
            forall|i: int|
                0 <= i < len ==> #[trigger] buffer@[i] == partial_frame_highlight(
                    orig,
                    win_w as int,
                    win_h as int,
                    ox as int,
                    oy as int,
                    b,
                    alpha as int,
                    yy as int,
                    0,
                    i,
                ),
        decreases y_hi - yy,
    {
        assert forall|i: int| 0 <= i < len implies #[trigger] buffer@[i] == partial_frame_highlight(
            orig,
            win_w as int,
            win_h as int,
            ox as int,
            oy as int,
            b,
            alpha as int,
            yy as int,
            x_lo as int,
            i,
        ) by {
            if win_w > 0 {
                lemma_grid_coords(i, win_w as int);
            }
        }
        let mut xx: usize = x_lo;
        while xx < x_hi
            invariant
                orig.len() == len,
                win_w * win_h <= len,
                alpha <= 255,
                y_lo == clamp_to(b.y0 + oy, win_h as int),
                y_hi == clamp_to(b.y1 + oy, win_h as int),
                x_lo == clamp_to(b.x0 + ox, win_w as int),
                x_hi == clamp_to(b.x1 + ox, win_w as int),
                y_lo <= yy < y_hi,
                x_lo <= xx,
                xx <= x_hi || xx == x_lo,
                buffer@.len() == len,
                forall|i: int|
                    0 <= i < len ==> #[trigger] buffer@[i] == partial_frame_highlight(
                        orig,
                        win_w as int,
                        win_h as int,
                        ox as int,
                        oy as int,
                        b,
                        alpha as int,
                        yy as int,
                        xx as int,
                        i,
                    ),
            decreases x_hi - xx,
        {
            proof {
                lemma_grid_cell_in_grid(xx as int, yy as int, win_w as int, win_h as int);
                lemma_grid_index(xx as int, yy as int, win_w as int);
            }
            let dst: usize = yy * win_w + xx;
            let ghost before = buffer@;
            assert(buffer@[dst as int] == orig[dst as int]);
            let cur: u32 = buffer[dst];
            let cb: u32 = cur & 0xff;
            let cg: u32 = (cur >> 8) & 0xff;
            let cr: u32 = (cur >> 16) & 0xff;
            assert(cb == cur % 256 && cg == (cur / 0x100) % 256 && cr == (cur / 0x1_0000) % 256) by (bit_vector)
                requires
                    cb == cur & 0xff,
                    cg == (cur >> 8) & 0xff,
                    cr == (cur >> 16) & 0xff,
            ;
            proof {
                lemma_blend_bounds(cr as int, alpha as int);
                lemma_blend_bounds(cg as int, alpha as int);
                lemma_blend_bounds(cb as int, alpha as int);
            }
            // Blend yellow (255,255,0) over the current pixel.
            let r = (255 * alpha + cr * (255 - alpha)) / 255;
            let g = (255 * alpha + cg * (255 - alpha)) / 255;
            let bl = (cb * (255 - alpha)) / 255;
            let word: u32 = bl | (g << 8) | (r << 16);
            assert(word == word_of_bytes(bl as int, g as int, r as int, 0)) by (bit_vector)
                requires
                    r < 256,
                    g < 256,
                    bl < 256,
                    word == bl | (g << 8) | (r << 16),
            ;
            buffer[dst] = word;
            assert forall|i: int| 0 <= i < len implies #[trigger] buffer@[i] == partial_frame_highlight(
                orig,
                win_w as int,
                win_h as int,
                ox as int,
                oy as int,
                b,
                alpha as int,
                yy as int,
                xx + 1,
                i,
            ) by {
                if i != dst {
                    assert(buffer@[i] == before[i]);
                    lemma_grid_coords(i, win_w as int);
                    if i / (win_w as int) == yy && i % (win_w as int) == xx {
                        assert(i == dst);
                    }
                }
            }
            xx = xx + 1;
        }
        assert forall|i: int| 0 <= i < len implies #[trigger] buffer@[i] == partial_frame_highlight(
            orig,
            win_w as int,
            win_h as int,
            ox as int,
            oy as int,
            b,
            alpha as int,
            yy + 1,
            0,
            i,
        ) by {
            if win_w > 0 {
                lemma_grid_coords(i, win_w as int);
            }
        }
        yy = yy + 1;
    }
    assert forall|i: int| 0 <= i < len implies #[trigger] buffer@[i] == frame_highlight_word(
        orig,
        win_w as int,
        win_h as int,
        ox as int,
        oy as int,
        b,
        alpha as int,
        i,
    ) by {
        if win_w == 0 {
            assert(win_w * win_h == 0);
        } else {
            lemma_grid_coords(i, win_w as int);
            if i < win_w * win_h {
                lemma_grid_row_bound(i, win_w as int, win_h as int);
            }
        }
    }
    assert(buffer@ =~= frame_highlight_box(
        orig,
        win_w as int,
        win_h as int,
        ox as int,
        oy as int,
        b,
        alpha as int,
    ));
}

/// Highlight every hit box (page pixels, the page at (`ox`, `oy`)) of the
/// framebuffer in order; the current hit (`hit_index`) is drawn more opaque.
fn highlight_frame(
    buffer: &mut [u32],
    win_w: usize,
    win_h: usize,
    ox: usize,
    oy: usize,
    hits: &[HitBox],
    hit_index: usize,
)
    requires
        win_w * win_h <= old(buffer)@.len(),
    ensures
        final(buffer)@ == frame_highlighted(
            old(buffer)@,
            win_w as int,
            win_h as int,
            ox as int,
            oy as int,
            hits@,
            hit_index as int,
        ),
{
    let ghost orig = buffer@;
    let n: usize = hits.len();
    let mut idx: usize = 0;
    while idx < n
        invariant
            n == hits@.len(),
            idx <= n,
            orig.len() == buffer@.len(),
            win_w * win_h <= orig.len(),
            buffer@ == frame_highlighted(
                orig,
                win_w as int,
                win_h as int,
                ox as int,
                oy as int,
                hits@.take(idx as int),
                hit_index as int,
            ),
        decreases n - idx,
    {
        let alpha: u32 = if idx == hit_index { CURRENT_HIT_ALPHA } else { OTHER_HIT_ALPHA };
        highlight_frame_box(buffer, win_w, win_h, ox, oy, hits[idx], alpha);
        assert(hits@.take(idx + 1).drop_last() =~= hits@.take(idx as int));
        idx = idx + 1;
    }
    assert(hits@.take(n as int) =~= hits@);
}

/// The framebuffer of length `len` that the window `blit` draws: the page
/// centered in the `win_w` by `win_h` window, then its hits (page pixels)
/// highlighted at the same offset.
pub open spec fn window_frame(
    page: RenderedPage,
    hits: Seq<HitBox>,
    hit_index: int,
    len: int,
    win_w: int,
    win_h: int,
) -> Seq<u32> {
    let base = framebuffer(page.rgba@, page.width as int, page.height as int, len, win_w, win_h);
    if page_is_drawn(page.width as int, page.height as int, len, win_w, win_h) {
        frame_highlighted(
            base,
            win_w,
            win_h,
            centering_offset(win_w, page.width as int),
            centering_offset(win_h, page.height as int),
            hits,
            hit_index,
        )
    } else {
        base
    }
}

/// Blit a rendered page into the framebuffer, centered on a neutral
/// background, then overlay search hits. Pixels are packed little-endian as
/// `B | (G << 8) | (R << 16)`.
///
/// The hit boxes are in the page's pixels; they are shifted by the same
/// offset that centers the page in the window, so each hit lands on the
/// page pixels it covers. Nothing but the backdrop is drawn when the page
/// has no pixels or `buffer` is shorter than `win_w * win_h`.
pub fn blit(
    page: &RenderedPage,
    buffer: &mut [u32],
    win_w: usize,
    win_h: usize,
    hits: &[HitBox],
    hit_index: usize,
)
    requires
        page.width > 0 && page.height > 0 ==> win_w * win_h <= usize::MAX,
        page.width > 0 && page.height > 0 ==> page.width * page.height * 4 <= page.rgba@.len(),
    ensures
        ({
            let base = framebuffer(
                page.rgba@,
                page.width as int,
                page.height as int,
                old(buffer)@.len() as int,
                win_w as int,
                win_h as int,
            );
            final(buffer)@ == if page_is_drawn(
                page.width as int,
                page.height as int,
                old(buffer)@.len() as int,
                win_w as int,
                win_h as int,
            ) {
                frame_highlighted(
                    base,
                    win_w as int,
                    win_h as int,
                    centering_offset(win_w as int, page.width as int),
                    centering_offset(win_h as int, page.height as int),
                    hits@,
                    hit_index as int,
                )
            } else {
                base
            }
        }),
        final(buffer)@ == window_frame(*page, hits@, hit_index as int, old(buffer)@.len() as int, win_w as int, win_h as int),
{
    let drawn = composite_page_into(page, buffer, win_w, win_h);
    if drawn {
        let ox: usize = (if win_w > page.width { win_w - page.width } else { 0 }) / 2;
        let oy: usize = (if win_h > page.height { win_h - page.height } else { 0 }) / 2;
        highlight_frame(buffer, win_w, win_h, ox, oy, hits, hit_index);
    }
}

/// How far one zoom request goes: a key press zooms further than a notch
/// of the mouse wheel.
#[derive(Debug, Clone, Copy, PartialEq, Eq)]
pub enum ZoomStep {
    Key,
    Wheel,
}

/// The direction of a mouse-wheel motion.
#[derive(Debug, Clone, Copy, PartialEq, Eq)]
pub enum WheelMotion {
    Up,
    Down,
    Still,
}

/// A key press as the viewer sees it.
#[derive(Debug, Clone)]
pub enum ViewerKey {
    ArrowRight,
    ArrowLeft,
    Escape,
    Enter,
    Backspace,
    /// The text a key press produces (usually one character).
    Character(Vec<char>),
    Other,
}

/// What the window has to do after the viewer handled an input. Every
/// effect but `Nothing` and `Exit` is followed by a redraw.
#[derive(Debug, Clone)]
pub enum ViewerAction {
    Nothing,
    Redraw,
    Exit,
    ZoomIn(ZoomStep),
    ZoomOut(ZoomStep),
    /// Back to 100%.
    ResetZoom,
    /// Fit the page width to the window.
    FitWidth,
    /// Search the current page for this term and report the hits.
    Search(Vec<char>),
    /// Forget the hits of the last search.
    ClearHits,
}

/// The mathematical content of a [`ViewerAction`].
pub enum ViewerEffect {
    Nothing,
    Redraw,
    Exit,
    ZoomIn(ZoomStep),
    ZoomOut(ZoomStep),
    ResetZoom,
    FitWidth,
    Search(Seq<char>),
    ClearHits,
}

impl View for ViewerAction {
    type V = ViewerEffect;

    open spec fn view(&self) -> ViewerEffect {
        match self {
            ViewerAction::Nothing => ViewerEffect::Nothing,
            ViewerAction::Redraw => ViewerEffect::Redraw,
            ViewerAction::Exit => ViewerEffect::Exit,
            ViewerAction::ZoomIn(s) => ViewerEffect::ZoomIn(*s),
            ViewerAction::ZoomOut(s) => ViewerEffect::ZoomOut(*s),
            ViewerAction::ResetZoom => ViewerEffect::ResetZoom,
            ViewerAction::FitWidth => ViewerEffect::FitWidth,
            ViewerAction::Search(t) => ViewerEffect::Search(t@),
            ViewerAction::ClearHits => ViewerEffect::ClearHits,
        }
    }
}

/// The end of the status line.
#[derive(Debug, Clone)]
pub enum StatusTail {
    Plain,
    /// The search box with its text.
    Editing(Vec<char>),
    /// The current hit (counted from 1) among all hits.
    Hits { current: usize, total: usize },
}

/// The mathematical state of the viewer.
pub struct ViewerModel {
    /// The page shown, counted from 0.
    pub page: int,
    pub page_count: int,
    /// Clockwise rotation in degrees.
    pub rotation: int,
    pub fit_width: bool,
    /// Whether the search box is taking the keys.
    pub search_editing: bool,
    pub search_input: Seq<char>,
    /// Number of hits of the last search.
    pub hit_count: int,
    /// The current hit.
    pub hit_index: int,
}

/// A state the viewer can be in: the page is a page of the document, the
/// rotation is a quarter turn, and the current hit is one of the hits (or 0
/// when there are none).
pub open spec fn model_wf(m: ViewerModel) -> bool {
    &&& 0 <= m.page < m.page_count <= usize::MAX
    &&& (m.rotation == 0 || m.rotation == 90 || m.rotation == 180 || m.rotation == 270)
    &&& 0 <= m.hit_count <= usize::MAX
    &&& (if m.hit_count == 0 { m.hit_index == 0 } else { 0 <= m.hit_index < m.hit_count })
}

/// Whether `key` types exactly the character `c`.
pub open spec fn types(key: ViewerKey, c: char) -> bool {
    match key {
        ViewerKey::Character(t) => t@ == seq![c],
        _ => false,
    }
}

/// Whether `c` is a control character (Unicode general category Cc).
pub open spec fn is_control_char(c: char) -> bool {
    (c as u32) <= 0x1f || (0x7f <= (c as u32) && (c as u32) <= 0x9f)
}

/// Whether the search box takes the character `c`: printable ASCII only
/// (no IME); control characters and non-ASCII characters are dropped.
pub open spec fn search_box_accepts(c: char) -> bool {
    (c as u32) < 0x80 && !is_control_char(c)
}

/// The characters of `s` that the search box takes, in order.
pub open spec fn printable(s: Seq<char>) -> Seq<char>
    decreases s.len(),
{
    if s.len() == 0 {
        s
    } else if !search_box_accepts(s.last()) {
        printable(s.drop_last())
    } else {
        printable(s.drop_last()).push(s.last())
    }
}

/// The rotation after turning 90 degrees clockwise.
pub open spec fn next_rotation(r: int) -> int {
    (r + 90) % 360
}

/// Show the next page, if there is one.
pub open spec fn next_page_step(m: ViewerModel) -> (ViewerModel, ViewerEffect) {
    if m.page + 1 < m.page_count {
        (ViewerModel { page: m.page + 1, ..m }, ViewerEffect::Redraw)
    } else {
        (m, ViewerEffect::Nothing)
    }
}

/// Show the previous page, if there is one.
pub open spec fn prev_page_step(m: ViewerModel) -> (ViewerModel, ViewerEffect) {
    if m.page > 0 {
        (ViewerModel { page: m.page - 1, ..m }, ViewerEffect::Redraw)
    } else {
        (m, ViewerEffect::Nothing)
    }
}

/// A key press while the search box is active (line editing).
pub open spec fn search_key_step(m: ViewerModel, key: ViewerKey) -> (ViewerModel, ViewerEffect) {
    match key {
        ViewerKey::Escape => (
            ViewerModel { search_editing: false, search_input: Seq::empty(), ..m },
            ViewerEffect::Redraw,
        ),
        ViewerKey::Enter => if m.search_input.len() == 0 {
            (
                ViewerModel { search_editing: false, hit_count: 0, hit_index: 0, ..m },
                ViewerEffect::ClearHits,
            )
        } else {
            (ViewerModel { search_editing: false, ..m }, ViewerEffect::Search(m.search_input))
        },
        ViewerKey::Backspace => (
            ViewerModel {
                search_input: if m.search_input.len() == 0 {
                    m.search_input
                } else {
                    m.search_input.drop_last()
                },
                ..m
            },
            ViewerEffect::Redraw,
        ),
        ViewerKey::Character(t) => (
            ViewerModel { search_input: m.search_input + printable(t@), ..m },
            ViewerEffect::Redraw,
        ),
        _ => (m, ViewerEffect::Nothing),
    }
}

/// A key press while the search box is not active.
pub open spec fn command_key_step(m: ViewerModel, key: ViewerKey) -> (ViewerModel, ViewerEffect) {
    if key is ArrowRight || types(key, 'l') {
        next_page_step(m)
    } else if key is ArrowLeft || types(key, 'h') {
        prev_page_step(m)
    } else if types(key, '+') || types(key, '=') {
        (ViewerModel { fit_width: false, ..m }, ViewerEffect::ZoomIn(ZoomStep::Key))
    } else if types(key, '-') {
        (ViewerModel { fit_width: false, ..m }, ViewerEffect::ZoomOut(ZoomStep::Key))
    } else if types(key, '0') {
        (ViewerModel { fit_width: false, ..m }, ViewerEffect::ResetZoom)
    } else if types(key, 'w') {
        (ViewerModel { fit_width: true, ..m }, ViewerEffect::FitWidth)
    } else if types(key, 'r') {
        (ViewerModel { rotation: next_rotation(m.rotation), ..m }, ViewerEffect::Redraw)
    } else if types(key, '/') {
        (
            ViewerModel { search_editing: true, search_input: Seq::empty(), ..m },
            ViewerEffect::Redraw,
        )
    } else if types(key, 'n') {
        if m.hit_count > 0 {
            (ViewerModel { hit_index: (m.hit_index + 1) % m.hit_count, ..m }, ViewerEffect::Redraw)
        } else {
            (m, ViewerEffect::Nothing)
        }
    } else if types(key, 'N') {
        if m.hit_count > 0 {
            (
                ViewerModel { hit_index: (m.hit_index + m.hit_count - 1) % m.hit_count, ..m },
                ViewerEffect::Redraw,
            )
        } else {
            (m, ViewerEffect::Nothing)
        }
    } else if types(key, 'q') || key is Escape {
        (m, ViewerEffect::Exit)
    } else {
        (m, ViewerEffect::Nothing)
    }
}

/// The viewer's state and effect after a key press: the search box, when
/// active, takes every key.
pub open spec fn key_step(m: ViewerModel, key: ViewerKey) -> (ViewerModel, ViewerEffect) {
    if m.search_editing {
        search_key_step(m, key)
    } else {
        command_key_step(m, key)
    }
}

/// The viewer's state and effect after a mouse-wheel motion: leave
/// fit-to-width, zoom in or out by a wheel step, and redraw.
pub open spec fn wheel_step(m: ViewerModel, motion: WheelMotion) -> (ViewerModel, ViewerEffect) {
    (
        ViewerModel { fit_width: false, ..m },
        match motion {
            WheelMotion::Up => ViewerEffect::ZoomIn(ZoomStep::Wheel),
            WheelMotion::Down => ViewerEffect::ZoomOut(ZoomStep::Wheel),
            WheelMotion::Still => ViewerEffect::Redraw,
        },
    )
}

/// The viewer's state after a search of the current page found `count` hits:
/// the first hit becomes the current one.
pub open spec fn search_found(m: ViewerModel, count: int) -> ViewerModel {
    ViewerModel { hit_count: count, hit_index: 0, ..m }
}

/// The state of the interactive viewer: which page is shown and how, and
/// the search box and search hits. The zoom factor and the window belong to
/// the window.
pub struct ViewerState {
    page: usize,
    page_count: usize,
    rotation: u16,
    fit_width: bool,
    search_editing: bool,
    search_input: Vec<char>,
    hit_count: usize,
    hit_index: usize,
}

impl View for ViewerState {
    type V = ViewerModel;

    closed spec fn view(&self) -> ViewerModel {
        ViewerModel {
            page: self.page as int,
            page_count: self.page_count as int,
            rotation: self.rotation as int,
            fit_width: self.fit_width,
            search_editing: self.search_editing,
            search_input: self.search_input@,
            hit_count: self.hit_count as int,
            hit_index: self.hit_index as int,
        }
    }
}

/// `Some` of the only character of `t`, or `None` when `t` is not one
/// character long.
fn single_char(t: &Vec<char>) -> (r: Option<char>)
    ensures
        r == (if t@.len() == 1 { Some(t@[0]) } else { None::<char> }),
{
    if t.len() == 1 {
        Some(t[0])
    } else {
        None
    }
}

/// Whether `c` is a control character (Unicode general category Cc).
pub fn is_control(c: char) -> (r: bool)
    ensures
        r == is_control_char(c),
{
    let v: u32 = c as u32;
    v <= 0x1f || (0x7f <= v && v <= 0x9f)
}

impl ViewerState {
    /// The viewer is always well formed.
    #[verifier::type_invariant]
    spec fn inv(self) -> bool {
        model_wf(self@)
    }

    /// The state of a well-formed viewer.
    pub open spec fn wf(&self) -> bool {
        model_wf(self@)
    }

    /// A viewer showing the first of `page_count` pages, unrotated, not
    /// fitted to the width, with no search.
    pub fn new(page_count: usize) -> (s: Self)
        requires
            page_count > 0,
        ensures
            s.wf(),
            s@ == (ViewerModel {
                page: 0,
                page_count: page_count as int,
                rotation: 0,
                fit_width: false,
                search_editing: false,
                search_input: Seq::empty(),
                hit_count: 0,
                hit_index: 0,
            }),
    {
        ViewerState {
            page: 0,
            page_count,
            rotation: 0,
            fit_width: false,
            search_editing: false,
            search_input: Vec::new(),
            hit_count: 0,
            hit_index: 0,
        }
    }

    /// Handle a key press: navigation (`←`/`→`, `h`/`l`), zoom (`+`/`=`,
    /// `-`, `0`, `w`), rotation (`r`), search (`/` opens the search box,
    /// `n`/`N` cycle through the hits), and quitting (`q`, `Esc`). While the
    /// search box is active it takes every key: `Esc` cancels, `Enter`
    /// runs the search, `Backspace` edits, and other text is typed, without
    /// its control characters.
    pub fn handle_key(&mut self, key: &ViewerKey) -> (action: ViewerAction)
        ensures
            final(self).wf(),
            (final(self)@, action@) == key_step(old(self)@, *key),
    {
        proof {
            use_type_invariant(&*self);
        }
        if self.search_editing {
            self.handle_search_key(key)
        } else {
            self.handle_command_key(key)
        }
    }

    fn handle_search_key(&mut self, key: &ViewerKey) -> (action: ViewerAction)
        requires
            old(self).search_editing,
        ensures
            final(self).wf(),
            (final(self)@, action@) == search_key_step(old(self)@, *key),
    {
        proof {
            use_type_invariant(&*self);
        }
        match key {
            ViewerKey::Escape => {
                self.search_editing = false;
                self.search_input = Vec::new();
                ViewerAction::Redraw
            },
            ViewerKey::Enter => {
                let term = self.search_input.clone();
                assert(term@ == self.search_input@);
                self.search_editing = false;
                if term.len() == 0 {
                    self.hit_index = 0;
                    self.hit_count = 0;
                    ViewerAction::ClearHits
                } else {
                    ViewerAction::Search(term)
                }
            },
            ViewerKey::Backspace => {
                let mut input: Vec<char> = Vec::new();
                std::mem::swap(&mut input, &mut self.search_input);
                input.pop();
                self.search_input = input;
                ViewerAction::Redraw
            },
            ViewerKey::Character(t) => {
                // Accept printable ASCII only (no IME); reject control chars.
                let ghost start = self.search_input@;
                let mut input: Vec<char> = Vec::new();
                std::mem::swap(&mut input, &mut self.search_input);
                let n: usize = t.len();
                let mut k: usize = 0;
                while k < n
                    invariant
                        n == t@.len(),
                        k <= n,
                        input@ == start + printable(t@.take(k as int)),
                        self.page == old(self).page,
                        self.page_count == old(self).page_count,
                        self.rotation == old(self).rotation,
                        self.fit_width == old(self).fit_width,
                        self.search_editing == old(self).search_editing,
                        self.hit_count == old(self).hit_count,
                        self.hit_index == old(self).hit_index,
                    decreases n - k,
                {
                    let ch = t[k];
                    assert(t@.take(k + 1).drop_last() =~= t@.take(k as int));
                    if (ch as u32) < 0x80 && !is_control(ch) {
                        input.push(ch);
                    }
                    assert(input@ =~= start + printable(t@.take(k + 1)));
                    k = k + 1;
                }
                assert(t@.take(n as int) =~= t@);
                self.search_input = input;
                ViewerAction::Redraw
            },
            _ => ViewerAction::Nothing,
        }
    }

    fn handle_command_key(&mut self, key: &ViewerKey) -> (action: ViewerAction)
        requires
            !old(self).search_editing,
        ensures
            final(self).wf(),
            (final(self)@, action@) == command_key_step(old(self)@, *key),
    {
        proof {
            use_type_invariant(&*self);
        }
        let typed: Option<char> = match key {
            ViewerKey::Character(t) => single_char(t),
            _ => None,
        };
        assert forall|c: char| types(*key, c) <==> typed == Some(c) by {
            if let ViewerKey::Character(t) = key {
                if t@.len() == 1 && t@[0] == c {
                    assert(t@ =~= seq![c]);
                }
            }
        }
        let right = match key {
            ViewerKey::ArrowRight => true,
            _ => typed == Some('l'),
        };
        let left = match key {
            ViewerKey::ArrowLeft => true,
            _ => typed == Some('h'),
        };
        let escape = match key {
            ViewerKey::Escape => true,
            _ => false,
        };
        if right {
            if self.page + 1 < self.page_count {
                self.page = self.page + 1;
                ViewerAction::Redraw
            } else {
                ViewerAction::Nothing
            }
        } else if left {
            if self.page > 0 {
                self.page = self.page - 1;
                ViewerAction::Redraw
            } else {
                ViewerAction::Nothing
            }
        } else if typed == Some('+') || typed == Some('=') {
            self.fit_width = false;
            ViewerAction::ZoomIn(ZoomStep::Key)
        } else if typed == Some('-') {
            self.fit_width = false;
            ViewerAction::ZoomOut(ZoomStep::Key)
        } else if typed == Some('0') {
            self.fit_width = false;
            ViewerAction::ResetZoom
        } else if typed == Some('w') {
            self.fit_width = true;
            ViewerAction::FitWidth
        } else if typed == Some('r') {
            self.rotation = (self.rotation + 90) % 360;
            ViewerAction::Redraw
        } else if typed == Some('/') {
            self.search_editing = true;
            self.search_input = Vec::new();
            ViewerAction::Redraw
        } else if typed == Some('n') {
            if self.hit_count > 0 {
                self.hit_index = (self.hit_index + 1) % self.hit_count;
                ViewerAction::Redraw
            } else {
                ViewerAction::Nothing
            }
        } else if typed == Some('N') {
            if self.hit_count > 0 {
                // `(hit_index + hit_count - 1) % hit_count`, without overflow.
                let prev: usize = if self.hit_index == 0 { self.hit_count - 1 } else { self.hit_index - 1 };
                proof {
                    let hi = self.hit_index as int;
                    let hc = self.hit_count as int;
                    if hi == 0 {
                        vstd::arithmetic::div_mod::lemma_small_mod((hc - 1) as nat, hc as nat);
                    } else {
                        vstd::arithmetic::div_mod::lemma_mod_add_multiples_vanish(hi - 1, hc);
                        vstd::arithmetic::div_mod::lemma_small_mod((hi - 1) as nat, hc as nat);
                    }
                }
                self.hit_index = prev;
                ViewerAction::Redraw
            } else {
                ViewerAction::Nothing
            }
        } else if typed == Some('q') || escape {
            ViewerAction::Exit
        } else {
            ViewerAction::Nothing
        }
    }

    /// Handle a mouse-wheel motion: leave fit-to-width and zoom in (wheel
    /// up) or out (wheel down), redrawing in any case.
    pub fn handle_wheel(&mut self, motion: WheelMotion) -> (action: ViewerAction)
        ensures
            final(self).wf(),
            (final(self)@, action@) == wheel_step(old(self)@, motion),
    {
        proof {
            use_type_invariant(&*self);
        }
        self.fit_width = false;
        match motion {
            WheelMotion::Up => ViewerAction::ZoomIn(ZoomStep::Wheel),
            WheelMotion::Down => ViewerAction::ZoomOut(ZoomStep::Wheel),
            WheelMotion::Still => ViewerAction::Redraw,
        }
    }

    /// Record the outcome of a search of the current page that found `count`
    /// hits: the first becomes the current one.
    pub fn record_search(&mut self, count: usize)
        ensures
            final(self).wf(),
            final(self)@ == search_found(old(self)@, count as int),
            final(self)@.hit_index == 0,
            final(self)@.hit_count == count,
    {
        proof {
            use_type_invariant(&*self);
        }
        self.hit_index = 0;
        self.hit_count = count;
    }

    /// What the status line shows after the page, zoom and rotation: the
    /// search box while it is active, else the current hit among the hits,
    /// if there are any.
    pub fn status_tail(&self) -> (tail: StatusTail)
        ensures
            self@.search_editing ==> (tail matches StatusTail::Editing(t) && t@ == self@.search_input),
            !self@.search_editing && self@.hit_count > 0 ==> tail == (StatusTail::Hits {
                current: (self@.hit_index + 1) as usize,
                total: self@.hit_count as usize,
            }),
            !self@.search_editing && self@.hit_count == 0 ==> tail is Plain,
    {
        proof {
            use_type_invariant(self);
        }
        if self.search_editing {
            StatusTail::Editing(self.search_input.clone())
        } else if self.hit_count > 0 {
            StatusTail::Hits { current: self.hit_index + 1, total: self.hit_count }
        } else {
            StatusTail::Plain
        }
    }

    /// The page shown, counted from 0.
    pub fn page(&self) -> (p: usize)
        ensures
            p == self@.page,
    {
        self.page
    }

    /// The number of pages of the document.
    pub fn page_count(&self) -> (n: usize)
        ensures
            n == self@.page_count,
    {
        self.page_count
    }

    /// The clockwise rotation in degrees.
    pub fn rotation(&self) -> (r: u16)
        ensures
            r == self@.rotation,
    {
        self.rotation
    }

    /// Whether the zoom follows the window width.
    pub fn fit_width(&self) -> (f: bool)
        ensures
            f == self@.fit_width,
    {
        self.fit_width
    }

    /// Whether the search box is active.
    pub fn search_editing(&self) -> (e: bool)
        ensures
            e == self@.search_editing,
    {
        self.search_editing
    }

    /// The text of the search box.
    pub fn search_input(&self) -> (t: Vec<char>)
        ensures
            t@ == self@.search_input,
    {
        self.search_input.clone()
    }

    /// The number of hits of the last search.
    pub fn hit_count(&self) -> (n: usize)
        ensures
            n == self@.hit_count,
    {
        self.hit_count
    }

    /// The current hit.
    pub fn hit_index(&self) -> (i: usize)
        ensures
            i == self@.hit_index,
    {
        self.hit_index
    }

}

/// A key press types at most one single character.
proof fn lemma_types_one(key: ViewerKey, a: char)
    requires
        types(key, a),
    ensures
        forall|b: char| #[trigger] types(key, b) ==> b == a,
{
    if let ViewerKey::Character(t) = key {
        assert forall|b: char| #[trigger] types(key, b) implies b == a by {
            assert(seq![a][0] == a);
            assert(seq![b][0] == b);
        }
    }
}

/// Every input keeps the viewer well formed: the page shown stays a page
/// of the document and the current hit stays one of the hits.
pub proof fn lemma_steps_keep_wf(m: ViewerModel, key: ViewerKey, motion: WheelMotion, count: int)
    requires
        model_wf(m),
        0 <= count <= usize::MAX,
    ensures
        model_wf(key_step(m, key).0),
        model_wf(wheel_step(m, motion).0),
        model_wf(search_found(m, count)),
{
    if !m.search_editing && m.hit_count > 0 {
        vstd::arithmetic::div_mod::lemma_mod_bound(m.hit_index + 1, m.hit_count);
        vstd::arithmetic::div_mod::lemma_mod_bound(m.hit_index + m.hit_count - 1, m.hit_count);
    }
}

/// Going to the next page and back shows the same page again.
pub proof fn lemma_next_then_previous_page(m: ViewerModel)
    requires
        model_wf(m),
        !m.search_editing,
        m.page + 1 < m.page_count,
    ensures
        key_step(key_step(m, ViewerKey::ArrowRight).0, ViewerKey::ArrowLeft).0 == m,
{
}

/// Going to the previous page and forward again shows the same page.
pub proof fn lemma_previous_then_next_page(m: ViewerModel)
    requires
        model_wf(m),
        !m.search_editing,
        m.page > 0,
    ensures
        key_step(key_step(m, ViewerKey::ArrowLeft).0, ViewerKey::ArrowRight).0 == m,
{
}

/// Page navigation never leaves the document: at the last page `→` does
/// nothing, at the first page `←` does nothing.
pub proof fn lemma_navigation_stops_at_ends(m: ViewerModel)
    requires
        model_wf(m),
        !m.search_editing,
    ensures
        m.page + 1 == m.page_count ==> key_step(m, ViewerKey::ArrowRight) == (m, ViewerEffect::Nothing),
        m.page == 0 ==> key_step(m, ViewerKey::ArrowLeft) == (m, ViewerEffect::Nothing),
{
}

/// `n` then `N` comes back to the same current hit, and so does `N` then
/// `n`; `n` from the last hit wraps to the first.
pub proof fn lemma_hit_cycling(m: ViewerModel, next: ViewerKey, prev: ViewerKey)
    requires
        model_wf(m),
        !m.search_editing,
        m.hit_count > 0,
        types(next, 'n'),
        types(prev, 'N'),
    ensures
        key_step(key_step(m, next).0, prev).0 == m,
        key_step(key_step(m, prev).0, next).0 == m,
        m.hit_index == m.hit_count - 1 ==> key_step(m, next).0.hit_index == 0,
{
    let hc = m.hit_count;
    let hi = m.hit_index;
    lemma_types_one(next, 'n');
    lemma_types_one(prev, 'N');
    vstd::arithmetic::div_mod::lemma_mod_bound(hi + 1, hc);
    vstd::arithmetic::div_mod::lemma_mod_bound(hi + hc - 1, hc);
    let up = (hi + 1) % hc;
    let down = (hi + hc - 1) % hc;
    if hi + 1 < hc {
        vstd::arithmetic::div_mod::lemma_small_mod((hi + 1) as nat, hc as nat);
        vstd::arithmetic::div_mod::lemma_small_mod(hi as nat, hc as nat);
        vstd::arithmetic::div_mod::lemma_mod_add_multiples_vanish(hi, hc);
    } else {
        vstd::arithmetic::div_mod::lemma_mod_self_0(hc);
        vstd::arithmetic::div_mod::lemma_small_mod((hc - 1) as nat, hc as nat);
    }
    if hi > 0 {
        vstd::arithmetic::div_mod::lemma_mod_add_multiples_vanish(hi - 1, hc);
        vstd::arithmetic::div_mod::lemma_small_mod((hi - 1) as nat, hc as nat);
        vstd::arithmetic::div_mod::lemma_small_mod(hi as nat, hc as nat);
    } else {
        vstd::arithmetic::div_mod::lemma_small_mod((hc - 1) as nat, hc as nat);
        vstd::arithmetic::div_mod::lemma_mod_self_0(hc);
    }
}

/// While the search box is active, no key moves, turns or zooms the page,
/// touches the fit-to-width mode, or quits.
pub proof fn lemma_search_box_takes_keys(m: ViewerModel, key: ViewerKey)
    requires
        model_wf(m),
        m.search_editing,
    ensures
        key_step(m, key).0.page == m.page,
        key_step(m, key).0.rotation == m.rotation,
        key_step(m, key).0.fit_width == m.fit_width,
        !(key_step(m, key).1 is Exit),
        !(key_step(m, key).1 is ZoomIn),
        !(key_step(m, key).1 is ZoomOut),
{
}

/// `/` opens an empty search box, and `Esc` closes it dropping what was
/// typed, leaving the hits as they were.
pub proof fn lemma_search_box_open_and_cancel(m: ViewerModel, slash: ViewerKey)
    requires
        model_wf(m),
        !m.search_editing,
        types(slash, '/'),
    ensures
        key_step(m, slash).0.search_editing,
        key_step(m, slash).0.search_input.len() == 0,
        ({
            let open = key_step(m, slash).0;
            let closed = key_step(open, ViewerKey::Escape).0;
            &&& !closed.search_editing
            &&& closed.search_input.len() == 0
            &&& closed.hit_count == m.hit_count
            &&& closed.hit_index == m.hit_index
            &&& closed.page == m.page
        }),
{
    lemma_types_one(slash, '/');
}

/// Typing text into the search box appends its printable ASCII characters, and
/// `Enter` searches for exactly what was typed.
pub proof fn lemma_typed_term_is_searched(m: ViewerModel, typed: ViewerKey)
    requires
        model_wf(m),
        m.search_editing,
        typed matches ViewerKey::Character(t) && printable(t@).len() > 0,
    ensures
        ({
            let after = key_step(m, typed).0;
            &&& after.search_input == m.search_input + printable(typed->Character_0@)
            &&& key_step(after, ViewerKey::Enter).1 == ViewerEffect::Search(after.search_input)
        }),
{
    let t = typed->Character_0@;
    let after = key_step(m, typed).0;
    assert(after.search_input.len() > 0);
}

/// Four quarter turns bring the page back to where it was, and every turn
/// is a quarter turn clockwise among 0, 90, 180 and 270 degrees.
pub proof fn lemma_four_turns_restore(m: ViewerModel, r: ViewerKey)
    requires
        model_wf(m),
        !m.search_editing,
        types(r, 'r'),
    ensures
        key_step(m, r).0.rotation == (m.rotation + 90) % 360,
        key_step(key_step(key_step(key_step(m, r).0, r).0, r).0, r).0 == m,
{
    lemma_types_one(r, 'r');
}

/// The search box takes printable ASCII only: control characters and
/// non-ASCII characters are dropped.
pub proof fn lemma_search_box_ascii_only(m: ViewerModel, typed: ViewerKey)
    requires
        model_wf(m),
        m.search_editing,
        typed is Character,
    ensures
        ({
            let added = key_step(m, typed).0.search_input.subrange(
                m.search_input.len() as int,
                key_step(m, typed).0.search_input.len() as int,
            );
            &&& added == printable(typed->Character_0@)
            &&& forall|k: int| 0 <= k < added.len() ==> search_box_accepts(#[trigger] added[k])
        }),
{
    let t = typed->Character_0@;
    let after = key_step(m, typed).0.search_input;
    assert(after.subrange(m.search_input.len() as int, after.len() as int) =~= printable(t));
    lemma_printable_accepted(t);
}

/// Every character `printable` keeps is one the search box takes.
proof fn lemma_printable_accepted(s: Seq<char>)
    ensures
        forall|k: int| 0 <= k < printable(s).len() ==> search_box_accepts(#[trigger] printable(s)[k]),
    decreases s.len(),
{
    if s.len() > 0 {
        let p = printable(s.drop_last());
        lemma_printable_accepted(s.drop_last());
        assert forall|k: int| 0 <= k < printable(s).len() implies search_box_accepts(
            #[trigger] printable(s)[k],
        ) by {
            if k < p.len() {
                assert(printable(s)[k] == p[k]);
            }
        }
    }
}

/// Highlighting keeps the length of the framebuffer.
proof fn lemma_frame_highlighted_len(
    buf: Seq<u32>,
    win_w: int,
    win_h: int,
    ox: int,
    oy: int,
    hits: Seq<HitBox>,
    hit_index: int,
)
    ensures
        frame_highlighted(buf, win_w, win_h, ox, oy, hits, hit_index).len() == buf.len(),
    decreases hits.len(),
{
    if hits.len() > 0 {
        lemma_frame_highlighted_len(buf, win_w, win_h, ox, oy, hits.drop_last(), hit_index);
    }
}

/// Window pixel (`x`, `y`) after highlighting `hits`: unchanged when no hit
/// covers it, and highlighted with hit `k`'s opacity when only hit `k` does.
proof fn lemma_frame_cover(
    buf: Seq<u32>,
    win_w: int,
    win_h: int,
    ox: int,
    oy: int,
    hits: Seq<HitBox>,
    hit_index: int,
    x: int,
    y: int,
    k: int,
)
    requires
        0 <= x < win_w,
        0 <= y < win_h,
        win_w * win_h <= buf.len(),
        forall|j: int| 0 <= j < hits.len() && j != k ==> !in_box(#[trigger] hits[j], x - ox, y - oy),
    ensures
        !(0 <= k < hits.len() && in_box(hits[k], x - ox, y - oy)) ==> frame_highlighted(
            buf,
            win_w,
            win_h,
            ox,
            oy,
            hits,
            hit_index,
        )[y * win_w + x] == buf[y * win_w + x],
        0 <= k < hits.len() && in_box(hits[k], x - ox, y - oy) ==> frame_highlighted(
            buf,
            win_w,
            win_h,
            ox,
            oy,
            hits,
            hit_index,
        )[y * win_w + x] == highlight_word(buf[y * win_w + x], hit_alpha(k, hit_index)),
    decreases hits.len(),
{
    let idx = y * win_w + x;
    lemma_grid_cell_in_grid(x, y, win_w, win_h);
    lemma_grid_index(x, y, win_w);
    if hits.len() > 0 {
        let n = hits.len();
        let rest = hits.drop_last();
        lemma_frame_highlighted_len(buf, win_w, win_h, ox, oy, rest, hit_index);
        if k == n - 1 {
            assert forall|j: int| 0 <= j < rest.len() && j != -1 implies !in_box(#[trigger] rest[j], x - ox, y - oy) by {
                assert(rest[j] == hits[j]);
            }
            lemma_frame_cover(buf, win_w, win_h, ox, oy, rest, hit_index, x, y, -1);
        } else {
            assert forall|j: int| 0 <= j < rest.len() && j != k implies !in_box(#[trigger] rest[j], x - ox, y - oy) by {
                assert(rest[j] == hits[j]);
            }
            lemma_frame_cover(buf, win_w, win_h, ox, oy, rest, hit_index, x, y, k);
        }
    }
}

/// In the window, hit boxes are shifted by the page's centering offset,
/// `(win_w - pw) / 2` across and `(win_h - ph) / 2` down (zero along an
/// axis where the page does not fit): a window pixel that only hit `k`
/// covers gets yellow blended over it, red and green toward 255 and blue
/// toward 0, with opacity 150 when `k` is the current hit and 90 otherwise;
/// a window pixel no hit covers shows the page as drawn.
pub proof fn lemma_window_hit_pixel(
    page: RenderedPage,
    hits: Seq<HitBox>,
    hit_index: int,
    len: int,
    win_w: int,
    win_h: int,
    x: int,
    y: int,
    k: int,
)
    requires
        page.width > 0,
        page.height > 0,
        len >= win_w * win_h,
        0 <= x < win_w,
        0 <= y < win_h,
        ({
            let ox = if win_w > page.width { (win_w - page.width) / 2 } else { 0 };
            let oy = if win_h > page.height { (win_h - page.height) / 2 } else { 0 };
            forall|j: int|
                0 <= j < hits.len() && j != k ==> !(#[trigger] hits[j].x0 <= x - ox && x - ox < hits[j].x1
                    && hits[j].y0 <= y - oy && y - oy < hits[j].y1)
        }),
    ensures
        ({
            let ox = if win_w > page.width { (win_w - page.width) / 2 } else { 0 };
            let oy = if win_h > page.height { (win_h - page.height) / 2 } else { 0 };
            let base = framebuffer(page.rgba@, page.width as int, page.height as int, len, win_w, win_h);
            let cur = base[y * win_w + x] as int;
            let word = window_frame(page, hits, hit_index, len, win_w, win_h)[y * win_w + x] as int;
            let alpha = if k == hit_index { 150int } else { 90int };
            if 0 <= k < hits.len() && hits[k].x0 <= x - ox && x - ox < hits[k].x1 && hits[k].y0 <= y - oy
                && y - oy < hits[k].y1 {
                word == (cur % 256) * (255 - alpha) / 255 + ((255 * alpha + ((cur / 256) % 256) * (255
                    - alpha)) / 255) * 256 + ((255 * alpha + ((cur / 65536) % 256) * (255 - alpha))
                    / 255) * 65536
            } else {
                word == cur
            }
        }),
{
    let pw = page.width as int;
    let ph = page.height as int;
    let ox = centering_offset(win_w, pw);
    let oy = centering_offset(win_h, ph);
    let base = framebuffer(page.rgba@, pw, ph, len, win_w, win_h);
    lemma_frame_cover(base, win_w, win_h, ox, oy, hits, hit_index, x, y, k);
    let cur = base[y * win_w + x] as int;
    let alpha = if k == hit_index { 150int } else { 90int };
    lemma_blend_bounds(cur % 256, alpha);
    lemma_blend_bounds((cur / 256) % 256, alpha);
    lemma_blend_bounds((cur / 65536) % 256, alpha);
}

/// A single printable ASCII character (space to `~`) typed into the search
/// box is appended to it; any other single character (control or
/// non-ASCII) leaves the box as it was.
pub proof fn lemma_search_box_types_one_char(m: ViewerModel, key: ViewerKey, c: char)
    requires
        m.search_editing,
        types(key, c),
    ensures
        key_step(m, key).0.search_input == (if 0x20 <= (c as u32) && (c as u32) <= 0x7e {
            m.search_input.push(c)
        } else {
            m.search_input
        }),
        key_step(m, key).1 == ViewerEffect::Redraw,
{
    let t = seq![c];
    assert(t.drop_last() =~= Seq::<char>::empty());
    assert(t.last() == c);
    assert(printable(Seq::<char>::empty()) == Seq::<char>::empty());
    assert(m.search_input + Seq::<char>::empty() =~= m.search_input);
    assert(m.search_input + seq![c] =~= m.search_input.push(c));
}

/// Recording a search makes its first hit the current one, whatever hit
/// was current before, and changes nothing else.
pub proof fn lemma_new_search_starts_at_first_hit(m: ViewerModel, count: int)
    ensures
        search_found(m, count).hit_index == 0,
        search_found(m, count).hit_count == count,
        search_found(m, count).page == m.page,
        search_found(m, count).rotation == m.rotation,
        search_found(m, count).search_input == m.search_input,
        search_found(m, count).search_editing == m.search_editing,
        search_found(m, count).fit_width == m.fit_width,
{
}

} // verus!

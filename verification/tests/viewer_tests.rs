use mupdf_mini_rs::render::{HitBox, RenderedPage, BACKDROP};
use mupdf_mini_rs::viewer::{
    blit, is_control, StatusTail, ViewerAction, ViewerKey, ViewerState, WheelMotion, ZoomStep,
};

fn ch(c: char) -> ViewerKey {
    ViewerKey::Character(vec![c])
}

fn is_redraw(a: &ViewerAction) -> bool {
    matches!(a, ViewerAction::Redraw)
}

fn is_nothing(a: &ViewerAction) -> bool {
    matches!(a, ViewerAction::Nothing)
}

#[test]
fn navigation_stays_inside_the_document() {
    let mut s = ViewerState::new(3);
    assert!(is_nothing(&s.handle_key(&ViewerKey::ArrowLeft)));
    assert_eq!(s.page(), 0);
    assert!(is_redraw(&s.handle_key(&ViewerKey::ArrowRight)));
    assert!(is_redraw(&s.handle_key(&ch('l'))));
    assert_eq!(s.page(), 2);
    assert!(is_nothing(&s.handle_key(&ViewerKey::ArrowRight)));
    assert_eq!(s.page(), 2);
    assert!(is_redraw(&s.handle_key(&ch('h'))));
    assert_eq!(s.page(), 1);
    assert_eq!(s.page_count(), 3);
}

#[test]
fn zoom_keys_leave_fit_width() {
    let mut s = ViewerState::new(1);
    assert!(matches!(s.handle_key(&ch('w')), ViewerAction::FitWidth));
    assert!(s.fit_width());
    assert!(matches!(s.handle_key(&ch('+')), ViewerAction::ZoomIn(ZoomStep::Key)));
    assert!(!s.fit_width());
    assert!(matches!(s.handle_key(&ch('=')), ViewerAction::ZoomIn(ZoomStep::Key)));
    assert!(matches!(s.handle_key(&ch('-')), ViewerAction::ZoomOut(ZoomStep::Key)));
    s.handle_key(&ch('w'));
    assert!(matches!(s.handle_key(&ch('0')), ViewerAction::ResetZoom));
    assert!(!s.fit_width());
}

#[test]
fn wheel_zooms_by_wheel_steps() {
    let mut s = ViewerState::new(1);
    s.handle_key(&ch('w'));
    assert!(matches!(s.handle_wheel(WheelMotion::Up), ViewerAction::ZoomIn(ZoomStep::Wheel)));
    assert!(!s.fit_width());
    assert!(matches!(s.handle_wheel(WheelMotion::Down), ViewerAction::ZoomOut(ZoomStep::Wheel)));
    assert!(is_redraw(&s.handle_wheel(WheelMotion::Still)));
}

#[test]
fn rotation_turns_ninety_degrees_in_a_byte() {
    let mut s = ViewerState::new(1);
    let mut seen = Vec::new();
    for _ in 0..5 {
        assert!(is_redraw(&s.handle_key(&ch('r'))));
        seen.push(s.rotation());
    }
    // Quarter turns clockwise: 0 -> 90 -> 180 -> 270 -> 0.
    assert_eq!(seen, vec![90, 180, 270, 0, 90]);
}

#[test]
fn quit_keys_exit() {
    let mut s = ViewerState::new(1);
    assert!(matches!(s.handle_key(&ch('q')), ViewerAction::Exit));
    assert!(matches!(s.handle_key(&ViewerKey::Escape), ViewerAction::Exit));
    assert!(is_nothing(&s.handle_key(&ch('x'))));
    assert!(is_nothing(&s.handle_key(&ViewerKey::Other)));
    assert!(is_nothing(&s.handle_key(&ViewerKey::Character(vec!['q', 'q']))));
}

#[test]
fn search_box_edits_and_runs_the_search() {
    let mut s = ViewerState::new(2);
    assert!(is_redraw(&s.handle_key(&ch('/'))));
    assert!(s.search_editing());
    // Keys are typed, not obeyed, while the box is open.
    s.handle_key(&ch('q'));
    s.handle_key(&ViewerKey::Character(vec!['u', '\u{7}', 'x']));
    s.handle_key(&ViewerKey::ArrowRight);
    assert_eq!(s.page(), 0);
    assert_eq!(s.search_input(), vec!['q', 'u', 'x']);
    assert!(is_redraw(&s.handle_key(&ViewerKey::Backspace)));
    assert_eq!(s.search_input(), vec!['q', 'u']);
    match s.handle_key(&ViewerKey::Enter) {
        ViewerAction::Search(term) => assert_eq!(term, vec!['q', 'u']),
        other => panic!("unexpected action {:?}", other),
    }
    assert!(!s.search_editing());
    s.record_search(3);
    assert_eq!(s.hit_count(), 3);
    assert_eq!(s.hit_index(), 0);
}

#[test]
fn escape_cancels_the_search_box() {
    let mut s = ViewerState::new(1);
    s.record_search(2);
    s.handle_key(&ch('/'));
    s.handle_key(&ch('a'));
    assert!(is_redraw(&s.handle_key(&ViewerKey::Escape)));
    assert!(!s.search_editing());
    assert!(s.search_input().is_empty());
    assert_eq!(s.hit_count(), 2);
}

#[test]
fn empty_search_clears_the_hits() {
    let mut s = ViewerState::new(1);
    s.record_search(4);
    s.handle_key(&ch('n'));
    s.handle_key(&ch('/'));
    assert!(matches!(s.handle_key(&ViewerKey::Enter), ViewerAction::ClearHits));
    assert_eq!(s.hit_count(), 0);
    assert_eq!(s.hit_index(), 0);
}

#[test]
fn hit_cycling_wraps_both_ways() {
    let mut s = ViewerState::new(1);
    assert!(is_nothing(&s.handle_key(&ch('n'))));
    s.record_search(3);
    s.handle_key(&ch('N'));
    assert_eq!(s.hit_index(), 2);
    s.handle_key(&ch('n'));
    assert_eq!(s.hit_index(), 0);
    s.handle_key(&ch('n'));
    s.handle_key(&ch('n'));
    assert_eq!(s.hit_index(), 2);
    s.handle_key(&ch('n'));
    assert_eq!(s.hit_index(), 0);
}

#[test]
fn status_tail_shows_box_or_hits() {
    let mut s = ViewerState::new(1);
    assert!(matches!(s.status_tail(), StatusTail::Plain));
    s.record_search(5);
    s.handle_key(&ch('n'));
    assert!(matches!(s.status_tail(), StatusTail::Hits { current: 2, total: 5 }));
    s.handle_key(&ch('/'));
    s.handle_key(&ch('z'));
    match s.status_tail() {
        StatusTail::Editing(t) => assert_eq!(t, vec!['z']),
        other => panic!("unexpected tail {:?}", other),
    }
}

#[test]
fn control_characters_are_recognised() {
    assert!(is_control('\u{0}'));
    assert!(is_control('\n'));
    assert!(is_control('\u{7f}'));
    assert!(is_control('\u{9f}'));
    assert!(!is_control(' '));
    assert!(!is_control('a'));
    assert!(!is_control('\u{a0}'));
    assert!(!is_control('你'));
}

#[test]
fn window_blit_highlights_on_the_framebuffer() {
    let page = RenderedPage { width: 1, height: 1, rgba: vec![0, 0, 0, 255] };
    let mut buf = vec![0u32; 3 * 3];
    // The hit box is in page pixels; the page sits at (1, 1) of the window.
    blit(&page, &mut buf, 3, 3, &[HitBox { x0: 0, y0: 0, x1: 1, y1: 1 }], 0);
    // Opaque black page pixel, then yellow at alpha 150: 150, 150, 0.
    assert_eq!(buf[4], 0x0096_9600);
    // A backdrop pixel (gray 0x2b) under a fainter hit.
    let mut buf2 = vec![0u32; 3 * 3];
    // A box left of and above the page covers window pixel (0, 0).
    blit(&page, &mut buf2, 3, 3, &[HitBox { x0: -1, y0: -1, x1: 0, y1: 0 }], 7);
    // Red and green: (22950 + 43*165)/255 = 117; blue: 43*165/255 = 27.
    assert_eq!(buf2[0], 0x0075_751b);
    assert_eq!(buf2[4], 0);
    assert_eq!(buf2[8], BACKDROP);
}

#[test]
fn window_blit_skips_highlights_when_nothing_is_drawn() {
    let page = RenderedPage { width: 1, height: 1, rgba: vec![0, 0, 0, 255] };
    let mut buf = vec![0u32; 3];
    blit(&page, &mut buf, 2, 2, &[HitBox { x0: 0, y0: 0, x1: 9, y1: 9 }], 0);
    assert!(buf.iter().all(|&p| p == BACKDROP));
}

#[test]
fn window_blit_highlights_red_as_yellow() {
    let page = RenderedPage { width: 1, height: 1, rgba: vec![255, 0, 0, 255] };
    let mut buf = vec![0u32; 1];
    blit(&page, &mut buf, 1, 1, &[HitBox { x0: 0, y0: 0, x1: 1, y1: 1 }], 0);
    // Opaque red, then yellow at alpha 150: R = 255, G = 150, B = 0.
    assert_eq!(buf, vec![0x00ff_9600]);
    let blue = RenderedPage { width: 1, height: 1, rgba: vec![0, 0, 255, 255] };
    blit(&blue, &mut buf, 1, 1, &[HitBox { x0: 0, y0: 0, x1: 1, y1: 1 }], 0);
    // Opaque blue: R = 150, G = 150, B = 255*105/255 = 105.
    assert_eq!(buf, vec![0x0096_9669]);
}

#[test]
fn search_box_takes_printable_ascii_only() {
    let mut s = ViewerState::new(1);
    s.handle_key(&ch('/'));
    s.handle_key(&ViewerKey::Character(vec!['é', 'a', '\u{7f}', '你', '~']));
    s.handle_key(&ch(' '));
    assert_eq!(s.search_input(), vec!['a', '~', ' ']);
}

#[test]
fn window_blit_shifts_hits_with_the_page() {
    // A 2x1 page centered in a 4x3 window sits at (1, 1).
    let page = RenderedPage { width: 2, height: 1, rgba: vec![0, 0, 0, 255, 0, 0, 0, 255] };
    let mut buf = vec![0u32; 4 * 3];
    blit(&page, &mut buf, 4, 3, &[HitBox { x0: 1, y0: 0, x1: 2, y1: 1 }], 0);
    // Only the page's second pixel, window (2, 1), is highlighted.
    assert_eq!(buf[4 + 1], 0);
    assert_eq!(buf[4 + 2], 0x0096_9600);
    assert_eq!(buf.iter().filter(|&&p| p == BACKDROP).count(), 10);
}

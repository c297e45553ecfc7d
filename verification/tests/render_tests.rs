use mupdf_mini_rs::render::{apply_highlights, blit_to_buffer, HitBox, RenderedPage, BACKDROP};

/// The box that a search hit covering page pixels `x0..x1` by `y0..y1`
/// maps to at 1x zoom without rotation.
fn hit(x0: isize, y0: isize, x1: isize, y1: isize) -> HitBox {
    HitBox { x0, y0, x1, y1 }
}

#[test]
fn apply_highlights_paints_yellow_and_leaves_rest() {
    // 4x4 image, all transparent black.
    let mut rgba = vec![0u8; 4 * 4 * 4];
    // A hit covering pixel (1,1) at 1x scale (no rotation).
    let q = hit(1, 1, 2, 2);
    apply_highlights(&mut rgba, 4, 4, &[q], 0);
    // The single covered pixel must be yellow-ish: r=g high, b=0.
    let i = 20;
    assert!(
        rgba[i] > 100 && rgba[i + 1] > 100 && rgba[i + 2] == 0,
        "hit px = {:?}",
        &rgba[i..i + 3]
    );
    // A far pixel must be untouched.
    let j = (3 * 4 + 3) * 4;
    assert_eq!(&rgba[j..j + 3], &[0, 0, 0]);
}

#[test]
fn apply_highlights_current_is_more_opaque() {
    let mut a = vec![0u8; 4 * 2 * 2];
    let mut b = vec![0u8; 4 * 2 * 2];
    let q = hit(0, 0, 2, 2);
    let hits = [q];
    apply_highlights(&mut a, 2, 2, &hits, 0); // current
    apply_highlights(&mut b, 2, 2, &hits, 99); // not current
    // Current hit blends at alpha 150 vs 90 -> higher red channel.
    assert!(a[0] > b[0]);
}

#[test]
fn blit_centers_page_and_skips_oob() {
    let page = RenderedPage {
        width: 2,
        height: 2,
        rgba: vec![255, 0, 0, 255, 0, 0, 0, 0, 0, 0, 0, 0, 0, 0, 0, 0],
    };
    let mut buf = vec![0u32; 4 * 4]; // 4x4 window, page is 2x2 -> centered
    blit_to_buffer(&page, &mut buf, 4, 4, &[], 0);
    // Backdrop is 0x2b2b2b; an opaque red pixel must show up somewhere.
    // Packing is b|(g<<8)|(r<<16), so red 255 sits in the high byte.
    let reds: usize = buf
        .iter()
        .filter(|&&p| ((p >> 16) & 0xff) == 255 && ((p >> 8) & 0xff) == 0)
        .count();
    assert_eq!(reds, 1);
    // The rest are the gray backdrop.
    let grays: usize = buf.iter().filter(|&&p| p == 0x2b2b2b).count();
    assert_eq!(grays, 15);
}

#[test]
fn blit_guards_against_tiny_buffer() {
    let page = RenderedPage {
        width: 10,
        height: 10,
        rgba: vec![0; 10 * 10 * 4],
    };
    let mut buf = vec![0x2b2b2bu32; 4]; // too small for a 10x10 page
    blit_to_buffer(&page, &mut buf, 2, 2, &[], 0);
    // Must not panic and must leave the buffer as the filled backdrop.
    assert!(buf.iter().all(|&p| p == 0x2b2b2b));
}

#[test]
fn pixel_count_is_width_times_height() {
    let page = RenderedPage { width: 3, height: 5, rgba: vec![0; 60] };
    assert_eq!(page.pixel_count(), 15);
}

#[test]
fn argb_packs_red_in_the_low_byte() {
    let page = RenderedPage {
        width: 2,
        height: 1,
        rgba: vec![0x11, 0x22, 0x33, 0x44, 0xff, 0x00, 0x80, 0x01],
    };
    let words = page.to_argb_u32();
    assert_eq!(words, vec![0x4433_2211, 0x0180_00ff]);
    // Memory order on little-endian machines is R, G, B, A.
    assert_eq!(words[0].to_le_bytes(), [0x11, 0x22, 0x33, 0x44]);
}

#[test]
fn argb_ignores_a_trailing_partial_pixel() {
    let page = RenderedPage { width: 1, height: 1, rgba: vec![1, 2, 3, 4, 5, 6] };
    assert_eq!(page.to_argb_u32(), vec![0x0403_0201]);
}

#[test]
fn highlight_exact_channel_values() {
    // A white, half-transparent pixel and a black opaque pixel.
    let mut rgba = vec![255, 255, 255, 128, 0, 0, 0, 255];
    apply_highlights(&mut rgba, 2, 1, &[hit(0, 0, 2, 1)], 0);
    // (255*150 + c*105) / 255 for red and green, c*105/255 for blue.
    assert_eq!(rgba, vec![255, 255, 105, 128, 150, 150, 0, 255]);
}

#[test]
fn highlight_other_hits_are_fainter() {
    let mut rgba = vec![0, 0, 200, 255];
    apply_highlights(&mut rgba, 1, 1, &[hit(0, 0, 1, 1)], 1);
    // (255*90) / 255 = 90 and 200*165/255 = 129.
    assert_eq!(rgba, vec![90, 90, 129, 255]);
}

#[test]
fn overlapping_hits_blend_in_order() {
    let mut rgba = vec![0, 0, 0, 255];
    let boxes = [hit(0, 0, 1, 1), hit(-5, -5, 5, 5)];
    apply_highlights(&mut rgba, 1, 1, &boxes, 0);
    // First at alpha 150: 150; then at alpha 90: (22950 + 150*165)/255 = 187.
    assert_eq!(rgba, vec![187, 187, 0, 255]);
}

#[test]
fn hits_outside_the_page_are_clipped() {
    let mut rgba = vec![7u8; 2 * 2 * 4];
    apply_highlights(&mut rgba, 2, 2, &[hit(2, 0, 9, 9), hit(-3, -3, 0, 0), hit(1, 1, 0, 0)], 0);
    assert_eq!(rgba, vec![7u8; 16]);
}

#[test]
fn blit_composites_over_the_backdrop() {
    // One opaque red, one transparent, one half-transparent white, one
    // opaque blue pixel; window exactly the page size.
    let page = RenderedPage {
        width: 2,
        height: 2,
        rgba: vec![255, 0, 0, 255, 9, 9, 9, 0, 255, 255, 255, 128, 0, 0, 255, 255],
    };
    let mut buf = vec![0u32; 4];
    blit_to_buffer(&page, &mut buf, 2, 2, &[], 0);
    // (255*128 + 43*127)/255 = 149 = 0x95.
    assert_eq!(buf, vec![0x00ff_0000, BACKDROP, 0x0095_9595, 0x0000_00ff]);
    // The page itself is untouched.
    assert_eq!(page.rgba[3], 255);
}

#[test]
fn blit_highlights_a_copy_of_the_page() {
    let page = RenderedPage { width: 1, height: 1, rgba: vec![0, 0, 0, 255] };
    let mut buf = vec![0u32; 3 * 3];
    blit_to_buffer(&page, &mut buf, 3, 3, &[hit(0, 0, 1, 1)], 0);
    // Centered at (1,1); yellow at alpha 150 over black: r = g = 150, b = 0.
    assert_eq!(buf[4], 0x0096_9600);
    assert_eq!(buf.iter().filter(|&&p| p == BACKDROP).count(), 8);
    assert_eq!(page.rgba, vec![0, 0, 0, 255]);
}

#[test]
fn blit_clips_a_page_larger_than_the_window() {
    // A 3x1 page in a 1x1 window: the offset is zero, only column 0 shows.
    let page = RenderedPage {
        width: 3,
        height: 1,
        rgba: vec![0, 255, 0, 255, 255, 0, 0, 255, 0, 0, 255, 255],
    };
    let mut buf = vec![1u32, 2, 3];
    blit_to_buffer(&page, &mut buf, 1, 1, &[], 0);
    assert_eq!(buf, vec![0x0000_ff00, BACKDROP, BACKDROP]);
}

#[test]
fn blit_draws_nothing_for_an_empty_page() {
    let page = RenderedPage { width: 0, height: 5, rgba: vec![] };
    let mut buf = vec![0u32; 6];
    blit_to_buffer(&page, &mut buf, 3, 2, &[], 0);
    assert!(buf.iter().all(|&p| p == BACKDROP));
}

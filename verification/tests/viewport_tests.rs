use game_of_life::scale::FP_ONE;
use game_of_life::viewport::{Viewport, ZOOM_MAX, ZOOM_MIN};

const ZOOM_SPEED: u64 = 13107;

fn max_offset(dim: u64, zoom: u64) -> u64 {
    dim * FP_ONE - ((dim as u128 * FP_ONE as u128 * FP_ONE as u128) / zoom as u128) as u64
}

#[test]
fn new_viewport_is_unzoomed() {
    let v = Viewport::new(640, 360, 2, ZOOM_SPEED);
    assert_eq!(v.zoom, ZOOM_MIN);
    assert_eq!(v.offset_x, 0);
    assert_eq!(v.offset_y, 0);
    assert_eq!(v.width, 640);
    assert_eq!(v.height, 360);
}

#[test]
fn scroll_scales_zoom_by_speed() {
    let mut v = Viewport::new(640, 360, 2, ZOOM_SPEED);
    v.scroll(FP_ONE as i64, 0, 0);
    assert_eq!(v.zoom, ZOOM_MIN + ZOOM_SPEED);
    v.scroll(-(FP_ONE as i64), 0, 0);
    assert_eq!(v.zoom, ZOOM_MIN);
}

#[test]
fn scroll_clamps_zoom_to_range() {
    let mut v = Viewport::new(640, 360, 2, ZOOM_SPEED);
    v.scroll(10_000 * FP_ONE as i64, 0, 0);
    assert_eq!(v.zoom, ZOOM_MAX);
    v.scroll(-10_000 * (FP_ONE as i64), 0, 0);
    assert_eq!(v.zoom, ZOOM_MIN);
}

#[test]
fn scroll_at_screen_origin_keeps_offset() {
    let mut v = Viewport::new(640, 360, 2, ZOOM_SPEED);
    v.scroll(5 * FP_ONE as i64, 0, 0);
    assert_eq!(v.offset_x, 0);
    assert_eq!(v.offset_y, 0);
}

#[test]
fn scroll_toward_cursor_moves_offset() {
    let mut v = Viewport::new(640, 360, 2, ZOOM_SPEED);
    // Zoom in with the cursor at the far screen corner: the offset follows.
    v.scroll(20 * FP_ONE as i64, 1280 * FP_ONE, 720 * FP_ONE);
    assert!(v.zoom > ZOOM_MIN);
    assert!(v.offset_x > 0);
    assert!(v.offset_y > 0);
    assert!(v.offset_x <= max_offset(640, v.zoom));
    assert!(v.offset_y <= max_offset(360, v.zoom));
}

#[test]
fn drag_moves_against_the_pointer() {
    let mut v = Viewport::new(640, 360, 2, ZOOM_SPEED);
    v.zoom = 2 * FP_ONE;
    // Dragging left by two screen pixels pans right by half a cell.
    v.drag(-2 * FP_ONE as i64, 0);
    assert_eq!(v.offset_x, FP_ONE / 2);
    assert_eq!(v.offset_y, 0);
}

#[test]
fn drag_clamps_at_zero() {
    let mut v = Viewport::new(640, 360, 2, ZOOM_SPEED);
    v.zoom = 2 * FP_ONE;
    v.drag(100 * FP_ONE as i64, 100 * FP_ONE as i64);
    assert_eq!(v.offset_x, 0);
    assert_eq!(v.offset_y, 0);
}

#[test]
fn drag_clamps_at_the_far_edge() {
    let mut v = Viewport::new(640, 360, 2, ZOOM_SPEED);
    v.zoom = 2 * FP_ONE;
    v.drag(-100_000 * FP_ONE as i64, -100_000 * FP_ONE as i64);
    assert_eq!(v.offset_x, max_offset(640, v.zoom));
    assert_eq!(v.offset_y, max_offset(360, v.zoom));
}

#[test]
fn screen_to_grid_inverts_the_view_transform() {
    let mut v = Viewport::new(640, 360, 2, ZOOM_SPEED);
    v.zoom = 2 * FP_ONE;
    v.offset_x = FP_ONE / 2;
    // Four screen pixels are one grid cell at window scale 2 and zoom 2.
    let (gx, gy) = v.screen_to_grid(4 * FP_ONE, 8 * FP_ONE);
    assert_eq!(gx, FP_ONE + FP_ONE / 2);
    assert_eq!(gy, 2 * FP_ONE);
}

#[test]
fn offset_stays_clamped_over_any_event_sequence() {
    let mut v = Viewport::new(640, 360, 2, ZOOM_SPEED);
    let scrolls: [i64; 7] = [3, -1, 20, -40, 7, 0, 100];
    let drags: [i64; 7] = [-5000, 12000, -100000, 999, 0, -77, 40000];
    for i in 0..7 {
        v.scroll(scrolls[i] * FP_ONE as i64, 640 * FP_ONE, 360 * FP_ONE);
        assert!(ZOOM_MIN <= v.zoom && v.zoom <= ZOOM_MAX);
        assert!(v.offset_x <= max_offset(640, v.zoom));
        assert!(v.offset_y <= max_offset(360, v.zoom));
        v.drag(drags[i], drags[6 - i]);
        assert!(v.offset_x <= max_offset(640, v.zoom));
        assert!(v.offset_y <= max_offset(360, v.zoom));
    }
}

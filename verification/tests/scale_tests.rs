use game_of_life::game_of_life::Field;
use game_of_life::scale::{
    crop, from_rgba, lin_inter, to_rgba, zoom_bilin_self, zoom_nearest_self, ScreenImage, FP_HALF,
    FP_ONE,
};

fn color(r: u32, g: u32, b: u32, a: u32) -> u32 {
    (a << 24) | (b << 16) | (g << 8) | r
}

#[test]
fn wide_round_trip_spot_checks() {
    for &r in &[0u32, 1, 127, 255] {
        for &g in &[0u32, 1, 127, 255] {
            for &b in &[0u32, 1, 127, 255] {
                for &a in &[0u32, 1, 127, 255] {
                    let c = color(r, g, b, a);
                    assert_eq!(from_rgba(to_rgba(&c)), c);
                }
            }
        }
    }
}

#[test]
fn wide_form_lanes() {
    let c = 0x1122_3344u32;
    let wide = to_rgba(&c);
    assert_eq!(wide, (0x11u128 << 96) | (0x44u128 << 64) | (0x33u128 << 32) | 0x22u128);
    assert_eq!(from_rgba(wide), c);
}

#[test]
fn lin_inter_endpoints() {
    let c1 = color(10, 20, 30, 40);
    let c2 = color(200, 210, 220, 230);
    assert_eq!(lin_inter(c1, c2, 0), c1);
    assert_eq!(lin_inter(c1, c2, FP_ONE), c2);
}

#[test]
fn lin_inter_midpoint_blends_every_channel() {
    let c1 = color(0, 100, 200, 255);
    let c2 = color(255, 0, 100, 255);
    let mid = lin_inter(c1, c2, FP_HALF);
    assert_eq!(mid, color(127, 50, 150, 255));
}

#[test]
fn screen_image_accessors() {
    let mut img = ScreenImage::new(vec![1, 2, 3, 4, 5, 6], 3, 2);
    assert_eq!(img.width(), 3);
    assert_eq!(img.height(), 2);
    assert_eq!(*img.index(2, 1), 6);
    *img.index_mut(0, 1) = 9;
    assert_eq!(*img.index(0, 1), 9);
    assert_eq!(img.get_vector(), &vec![1, 2, 3, 9, 5, 6]);
    let blank = img.new_clear();
    assert_eq!(blank.get_vector(), &vec![0; 6]);
    assert_eq!(blank.width(), 3);
    img.set_vector(vec![7, 7, 7, 7, 7, 7]);
    assert_eq!(*img.index(1, 0), 7);
    assert_eq!(ScreenImage::copy(&42), 42);
}

#[test]
fn samplers_return_corner_pixel_unchanged() {
    let img = ScreenImage::new(vec![10, 20, 30, 40, 50, 60], 3, 2);
    let xq = 2 * FP_ONE;
    let yq = 1 * FP_ONE;
    assert_eq!(img.get_nearest(xq, yq), 60);
    assert_eq!(img.get_bilin(xq, yq), 60);
}

#[test]
fn nearest_rounds_and_clamps() {
    let img = ScreenImage::new(vec![10, 20, 30, 40, 50, 60], 3, 2);
    assert_eq!(img.get_nearest(0, 0), 10);
    assert_eq!(img.get_nearest(FP_HALF - 1, 0), 10);
    assert_eq!(img.get_nearest(FP_HALF, 0), 20);
    assert_eq!(img.get_nearest(100 * FP_ONE, 100 * FP_ONE), 60);
}

#[test]
fn bilinear_blends_between_columns() {
    let img = ScreenImage::new(vec![color(0, 0, 0, 0), color(255, 0, 0, 0)], 2, 1);
    assert_eq!(img.get_bilin(0, 0), color(0, 0, 0, 0));
    assert_eq!(img.get_bilin(FP_HALF, 0), color(127, 0, 0, 0));
}

#[test]
fn bilinear_blends_between_rows() {
    let img = ScreenImage::new(vec![color(0, 0, 100, 0), color(0, 0, 200, 0)], 1, 2);
    assert_eq!(img.get_bilin(0, FP_HALF), color(0, 0, 150, 0));
}

#[test]
fn bilinear_blends_all_four_corners() {
    let img = ScreenImage::new(
        vec![color(0, 0, 0, 0), color(100, 0, 0, 0), color(200, 0, 0, 0), color(60, 0, 0, 0)],
        2,
        2,
    );
    // Halfway in both axes: rows blend to 50 and 130, then meet at 90.
    assert_eq!(img.get_bilin(FP_HALF, FP_HALF), color(90, 0, 0, 0));
}

#[test]
fn zoom_bilin_with_offset() {
    let mut img = ScreenImage::new(vec![color(0, 0, 0, 0), color(255, 0, 0, 0)], 2, 1);
    zoom_bilin_self(&mut img, 2 * FP_ONE, (FP_ONE / 2, 0));
    assert_eq!(img.get_vector(), &vec![color(127, 0, 0, 0), color(255, 0, 0, 0)]);
}

#[test]
fn bilinear_is_symmetric_between_samples() {
    // Blending a quarter of the way from either side meets at mirrored
    // values: the two sampled colors are treated alike, channel by channel.
    let c1 = color(40, 80, 120, 160);
    let c2 = color(160, 120, 80, 40);
    let img_fwd = ScreenImage::new(vec![c1, c2], 2, 1);
    let img_rev = ScreenImage::new(vec![c2, c1], 2, 1);
    let q = FP_ONE / 4;
    assert_eq!(img_fwd.get_bilin(q, 0), img_rev.get_bilin(3 * q, 0));
}

#[test]
fn zoom_nearest_identity_reproduces_source() {
    let pixels: Vec<u32> = (0..12).map(|i| i * 11).collect();
    let mut img = ScreenImage::new(pixels.clone(), 4, 3);
    zoom_nearest_self(&mut img, FP_ONE, (0, 0));
    assert_eq!(img.get_vector(), &pixels);
    assert_eq!(img.width(), 4);
    assert_eq!(img.height(), 3);
}

#[test]
fn zoom_nearest_factor_two() {
    let mut img = ScreenImage::new(vec![10, 20, 30, 40], 4, 1);
    zoom_nearest_self(&mut img, 2 * FP_ONE, (0, 0));
    assert_eq!(img.get_vector(), &vec![10, 20, 20, 30]);
}

#[test]
fn zoom_nearest_with_offset() {
    let mut img = ScreenImage::new(vec![10, 20, 30, 40], 4, 1);
    zoom_nearest_self(&mut img, 2 * FP_ONE, (2 * FP_ONE, 0));
    assert_eq!(img.get_vector(), &vec![30, 40, 40, 40]);
}

#[test]
fn zoom_bilin_identity_reproduces_source() {
    let pixels: Vec<u32> = (0..12).map(|i| color(i * 20, 255 - i * 20, i, 3 * i)).collect();
    let mut img = ScreenImage::new(pixels.clone(), 4, 3);
    zoom_bilin_self(&mut img, FP_ONE, (0, 0));
    assert_eq!(img.get_vector(), &pixels);
}

#[test]
fn zoom_bilin_factor_two() {
    let mut img = ScreenImage::new(vec![color(0, 0, 0, 0), color(255, 0, 0, 0)], 2, 1);
    zoom_bilin_self(&mut img, 2 * FP_ONE, (0, 0));
    assert_eq!(img.get_vector(), &vec![color(0, 0, 0, 0), color(127, 0, 0, 0)]);
}

#[test]
fn crop_cuts_the_visible_window() {
    let mut cells = vec![false; 16];
    cells[1 + 1 * 4] = true;
    cells[2 + 2 * 4] = true;
    let field = Field::new(cells, 4, 4);
    let out = crop(&field, 2 * FP_ONE, (1, 1));
    assert_eq!(*out.get_width(), 2);
    assert_eq!(*out.get_height(), 2);
    assert!(out.get(0, 0));
    assert!(!out.get(1, 0));
    assert!(!out.get(0, 1));
    assert!(out.get(1, 1));
}

#[test]
fn crop_with_unit_factor_keeps_everything() {
    let cells: Vec<bool> = (0..6).map(|i| i % 2 == 0).collect();
    let field = Field::new(cells.clone(), 3, 2);
    let out = crop(&field, FP_ONE, (0, 0));
    assert_eq!(*out.get_width(), 3);
    assert_eq!(*out.get_height(), 2);
    assert_eq!(out.get_vec(), &cells);
}

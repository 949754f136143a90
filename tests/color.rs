use mandelbrot::color::{
    as_u32_rgb, color_frame, color_map, default_gradient, is_well_formed, Color, FRAC_ONE,
};

fn black_to_white() -> Vec<Color> {
    vec![Color::new(0, 0, 0, 0), Color::new(FRAC_ONE, 255, 255, 255)]
}

#[test]
fn packs_channels_as_rrggbb() {
    assert_eq!(as_u32_rgb(0x12, 0x34, 0x56), 0x0012_3456);
    assert_eq!(as_u32_rgb(255, 255, 255), 0x00FF_FFFF);
    assert_eq!(as_u32_rgb(0, 0, 0), 0);
    assert_eq!(as_u32_rgb(1, 0, 0), 0x0001_0000);
}

#[test]
fn mid_gray_is_truncated() {
    assert_eq!(color_map(50, 100, &black_to_white()), 0x007F_7F7F);
}

#[test]
fn fraction_zero_gives_first_stop() {
    assert_eq!(color_map(0, 100, &default_gradient()), 0x0000_0764);
    assert_eq!(color_map(0, 100, &black_to_white()), 0);
}

#[test]
fn fraction_one_gives_last_stop() {
    assert_eq!(color_map(100, 100, &default_gradient()), 0x0000_0764);
    assert_eq!(color_map(100, 100, &black_to_white()), 0x00FF_FFFF);
    assert_eq!(color_map(7, 7, &black_to_white()), 0x00FF_FFFF);
}

#[test]
fn fraction_on_a_stop_gives_its_color() {
    // 16 / 100 lies exactly on the second stop
    assert_eq!(color_map(16, 100, &default_gradient()), 0x0020_6BCB);
    assert_eq!(color_map(42, 100, &default_gradient()), 0x00ED_FFFF);
}

#[test]
fn interpolates_inside_a_segment() {
    // 0.5 lies between the stops at 0.42 and 0.6425
    assert_eq!(color_map(50, 100, &default_gradient()), 0x00F3_E0A3);
    // a quarter of the way from black to white: 63.75 truncates to 63
    assert_eq!(color_map(1, 4, &black_to_white()), 0x003F_3F3F);
}

#[test]
fn every_count_stays_between_bracketing_stops() {
    let g = black_to_white();
    let mut last = 0u32;
    for n in 0..=100u32 {
        let p = color_map(n, 100, &g);
        let r = p >> 16;
        assert_eq!(p, (r << 16) | (r << 8) | r);
        assert!(r >= last);
        last = r;
    }
    assert_eq!(last, 255);
}

#[test]
fn fraction_beyond_one_falls_back_to_black() {
    assert_eq!(color_map(101, 100, &default_gradient()), 0);
    assert_eq!(color_map(5, 0, &default_gradient()), 0);
    assert_eq!(color_map(0, 0, &black_to_white()), 0);
}

#[test]
fn default_gradient_has_six_increasing_stops() {
    let g = default_gradient();
    assert_eq!(g.len(), 6);
    assert_eq!(g[0].frac, 0);
    assert_eq!(g[5].frac, FRAC_ONE);
    for i in 1..g.len() {
        assert!(g[i - 1].frac < g[i].frac);
    }
    assert_eq!((g[3].r, g[3].g, g[3].b), (255, 170, 0));
}

#[test]
fn color_frame_overwrites_every_pixel() {
    let g = black_to_white();
    let counts = vec![0u32, 50, 100, 101];
    let mut buffer = vec![0xDEADu32; 4];
    color_frame(&counts, 100, &g, &mut buffer);
    assert_eq!(buffer, vec![0, 0x007F_7F7F, 0x00FF_FFFF, 0]);
}

#[test]
fn large_counts_do_not_overflow() {
    let g = black_to_white();
    assert_eq!(color_map(u32::MAX, u32::MAX, &g), 0x00FF_FFFF);
    assert_eq!(color_map(u32::MAX / 2, u32::MAX, &g), 0x007F_7F7F);
}

#[test]
fn gradient_shapes_are_checked() {
    assert!(is_well_formed(&default_gradient()));
    assert!(is_well_formed(&black_to_white()));
    assert!(!is_well_formed(&vec![Color::new(0, 0, 0, 0)]));
    assert!(!is_well_formed(&vec![]));
    assert!(!is_well_formed(&vec![Color::new(1, 0, 0, 0), Color::new(FRAC_ONE, 0, 0, 0)]));
    assert!(!is_well_formed(&vec![Color::new(0, 0, 0, 0), Color::new(FRAC_ONE - 1, 0, 0, 0)]));
    assert!(!is_well_formed(&vec![
        Color::new(0, 0, 0, 0),
        Color::new(5000, 0, 0, 0),
        Color::new(5000, 0, 0, 0),
        Color::new(FRAC_ONE, 0, 0, 0),
    ]));
    assert!(!is_well_formed(&vec![
        Color::new(0, 0, 0, 0),
        Color::new(6000, 0, 0, 0),
        Color::new(4000, 0, 0, 0),
        Color::new(FRAC_ONE, 0, 0, 0),
    ]));
}

use base9_builder::color::{parse_hex_color, to_hex};
use base9_builder::convert::{
    exp_scaled, lab_from_rgb, lab_l_from_y, ln_scaled, rgb_from_lab, xyz_y_from_rgb, SCALE,
};
use base9_builder::Color;

#[test]
fn hex_parses_and_formats() {
    let c = parse_hex_color("1d2021").unwrap();
    assert_eq!((c.r, c.g, c.b), (0x1d, 0x20, 0x21));
    assert_eq!(to_hex(&c), "1d2021");
    let c = parse_hex_color("FFAB09").unwrap();
    assert_eq!((c.r, c.g, c.b), (0xff, 0xab, 0x09));
    assert_eq!(to_hex(&c), "ffab09");
}

#[test]
fn hex_rejects_malformed_literals() {
    assert!(parse_hex_color("").is_none());
    assert!(parse_hex_color("12345").is_none());
    assert!(parse_hex_color("1234567").is_none());
    assert!(parse_hex_color("12g456").is_none());
    assert!(parse_hex_color("_").is_none());
}

#[test]
fn hex_round_trips_all_channel_values() {
    for v in 0..=255u8 {
        let c = Color::new(v, 255 - v, v ^ 0x5a);
        let s = to_hex(&c);
        let back = parse_hex_color(&s).unwrap();
        assert_eq!((back.r, back.g, back.b), (c.r, c.g, c.b));
    }
}

#[test]
fn lab_round_trip_within_one_unit() {
    // Every sampled sRGB color returns to itself, within one unit per
    // channel, after conversion to Lab and back.
    let mut v = 0u32;
    while v < 256 {
        let mut g = 0u32;
        while g < 256 {
            let c = Color::new(v as u8, g as u8, ((v * 7 + g * 13) % 256) as u8);
            let lab = lab_from_rgb(&c);
            let back = rgb_from_lab(&lab);
            assert!((back.r as i32 - c.r as i32).abs() <= 1, "r {} vs {}", back.r, c.r);
            assert!((back.g as i32 - c.g as i32).abs() <= 1, "g {} vs {}", back.g, c.g);
            assert!((back.b as i32 - c.b as i32).abs() <= 1, "b {} vs {}", back.b, c.b);
            g += 17;
        }
        v += 13;
    }
}

#[test]
fn lab_conversion_hits_known_values() {
    // White is L* = 100, neutral; black is the origin.
    let white = lab_from_rgb(&Color::new(255, 255, 255));
    assert!((white.l - 100 * SCALE).abs() < SCALE / 2);
    assert!(white.a.abs() < SCALE / 2 && white.b.abs() < SCALE / 2);
    let black = lab_from_rgb(&Color::new(0, 0, 0));
    assert!(black.l.abs() < SCALE / 100);
    // Pure red is far from neutral: the conversion really converts.
    let red = lab_from_rgb(&Color::new(255, 0, 0));
    assert!((red.l - 53_240_000).abs() < SCALE);
    assert!(red.a > 70 * SCALE);
    assert!(red.b > 60 * SCALE);
}

#[test]
fn luminance_of_extremes() {
    let yw = xyz_y_from_rgb(&Color::new(255, 255, 255));
    assert!((yw - SCALE).abs() <= 1_000);
    let yb = xyz_y_from_rgb(&Color::new(0, 0, 0));
    assert_eq!(yb, 0);
    let yr = xyz_y_from_rgb(&Color::new(255, 0, 0));
    assert!((yr - 212_600).abs() < 5_000);
}

#[test]
fn log_and_exp_are_scaled_inverses() {
    assert!(ln_scaled(SCALE).abs() < 10);
    assert!((exp_scaled(0) - SCALE).abs() < 10);
    let x = 350_000i64;
    let roundtrip = exp_scaled(ln_scaled(x));
    assert!((roundtrip - x).abs() < 1_000, "roundtrip {}", roundtrip);
}

#[test]
fn lab_lightness_from_luminance() {
    let l = lab_l_from_y(SCALE);
    assert!((l - 100 * SCALE).abs() < SCALE / 2);
    let l0 = lab_l_from_y(0);
    assert!(l0.abs() < SCALE / 100);
}

use base9_builder::arith::mix1d;
use base9_builder::{mix, Color};

fn close(a: &Color, b: &Color, tol: i32) -> bool {
    (a.r as i32 - b.r as i32).abs() <= tol && (a.g as i32 - b.g as i32).abs() <= tol
        && (a.b as i32 - b.b as i32).abs() <= tol
}

#[test]
fn mix1d_endpoints_are_exact() {
    assert_eq!(mix1d(120, 900, 0), 120);
    assert_eq!(mix1d(120, 900, 1000), 900);
    assert_eq!(mix1d(-44, -44, 765), -44);
    assert_eq!(mix1d(0, 1000, 250), 250);
    assert_eq!(mix1d(1000, 0, 250), 750);
}

#[test]
fn mix_boundary_weights_return_the_endpoints() {
    let pairs = [
        (Color::new(0x1d, 0x20, 0x21), Color::new(0xd5, 0xc4, 0xa1)),
        (Color::new(0, 0, 0), Color::new(255, 255, 255)),
        (Color::new(0xfb, 0x49, 0x34), Color::new(0x83, 0xa5, 0x98)),
    ];
    for (a, b) in pairs.iter() {
        let at_zero = mix(a, b, 0);
        assert!(close(&at_zero, a, 1), "{:?} vs {:?}", at_zero, a);
        let at_one = mix(a, b, 1000);
        assert!(close(&at_one, b, 1), "{:?} vs {:?}", at_one, b);
    }
}

#[test]
fn mix_of_color_with_itself_is_stable() {
    let cases = [
        Color::new(0x1d, 0x20, 0x21),
        Color::new(0xd5, 0xc4, 0xa1),
        Color::new(120, 7, 250),
    ];
    for c in cases.iter() {
        for w in [0i64, 100, 250, 500, 900, 1000, 1250, -250] {
            let m = mix(c, c, w);
            assert!(close(&m, c, 1), "w {}: {:?} vs {:?}", w, m, c);
        }
    }
}

#[test]
fn mix_midpoint_lies_between() {
    let a = Color::new(0, 0, 0);
    let b = Color::new(255, 255, 255);
    let m = mix(&a, &b, 500);
    assert!(m.r > 50 && m.r < 220);
    assert!(m.g > 50 && m.g < 220);
    assert!(m.b > 50 && m.b < 220);
    // The mixed gray is the same on all channels, within rounding.
    assert!((m.r as i32 - m.g as i32).abs() <= 2);
    assert!((m.g as i32 - m.b as i32).abs() <= 2);
}

#[test]
fn mix_extrapolates_without_failing() {
    let a = Color::new(0x30, 0x40, 0x50);
    let b = Color::new(0x90, 0x80, 0x70);
    let _ = mix(&a, &b, 1250);
    let _ = mix(&a, &b, -250);
    let _ = mix(&a, &b, 100_000);
}

use base9_builder::{closest_order, get_matching_absolute_color, Color};

fn names_of(r: &Vec<base9_builder::ColorNameWeight>) -> Vec<(String, (u8, u8, u8))> {
    r.iter()
        .map(|cnw| (cnw.name.clone(), (cnw.color.r, cnw.color.g, cnw.color.b)))
        .collect()
}

#[test]
fn matcher_identity_on_pure_references() {
    let colors = vec![
        Color::new(255, 0, 0),
        Color::new(255, 255, 0),
        Color::new(0, 255, 0),
        Color::new(0, 255, 255),
        Color::new(0, 0, 255),
        Color::new(255, 0, 255),
    ];
    let r = get_matching_absolute_color(&colors);
    let names = names_of(&r);
    assert_eq!(names[0], ("red".to_string(), (255, 0, 0)));
    assert_eq!(names[1], ("yellow".to_string(), (255, 255, 0)));
    assert_eq!(names[2], ("green".to_string(), (0, 255, 0)));
    assert_eq!(names[3], ("cyan".to_string(), (0, 255, 255)));
    assert_eq!(names[4], ("blue".to_string(), (0, 0, 255)));
    assert_eq!(names[5], ("magenta".to_string(), (255, 0, 255)));
}

#[test]
fn matcher_optimal_on_perturbed_references() {
    // Candidates sit at the six reference hues with small, distinguishable
    // perturbations, plus a neutral seventh; the unique best assignment is
    // the identity one.
    let colors = vec![
        Color::new(250, 5, 0),
        Color::new(250, 250, 5),
        Color::new(5, 250, 0),
        Color::new(0, 250, 250),
        Color::new(5, 0, 250),
        Color::new(250, 0, 250),
        Color::new(128, 128, 128),
    ];
    let r = get_matching_absolute_color(&colors);
    let names = names_of(&r);
    assert_eq!(names[0], ("red".to_string(), (250, 5, 0)));
    assert_eq!(names[1], ("yellow".to_string(), (250, 250, 5)));
    assert_eq!(names[2], ("green".to_string(), (5, 250, 0)));
    assert_eq!(names[3], ("cyan".to_string(), (0, 250, 250)));
    assert_eq!(names[4], ("blue".to_string(), (5, 0, 250)));
    assert_eq!(names[5], ("magenta".to_string(), (250, 0, 250)));
}

#[test]
fn matcher_deterministic_under_exact_ties() {
    // Two identical candidates tie exactly on every cost; repeated runs
    // must keep the same stable choice.
    let colors = vec![
        Color::new(200, 10, 10),
        Color::new(200, 10, 10),
        Color::new(20, 200, 20),
        Color::new(20, 20, 200),
        Color::new(200, 200, 20),
        Color::new(20, 200, 200),
        Color::new(200, 20, 200),
    ];
    let a = names_of(&get_matching_absolute_color(&colors));
    let b = names_of(&get_matching_absolute_color(&colors));
    let c = names_of(&get_matching_absolute_color(&colors));
    assert_eq!(a, b);
    assert_eq!(b, c);
}

#[test]
fn closest_order_follows_weighted_cost() {
    let target = vec![
        (Color::new(255, 0, 0), 9u32),
        (Color::new(255, 255, 0), 9u32),
        (Color::new(0, 255, 0), 9u32),
        (Color::new(0, 255, 255), 1u32),
        (Color::new(0, 0, 255), 1u32),
        (Color::new(255, 0, 255), 1u32),
    ];
    let colors = vec![
        Color::new(254, 1, 1),
        Color::new(254, 254, 1),
        Color::new(1, 254, 1),
        Color::new(1, 254, 254),
        Color::new(1, 1, 254),
        Color::new(254, 1, 254),
    ];
    let r = closest_order(&colors, &target);
    assert_eq!(r.len(), 6);
    for j in 0..6 {
        assert_eq!((r[j].r, r[j].g, r[j].b), (colors[j].r, colors[j].g, colors[j].b));
    }
}

#[test]
fn average_color2_is_channel_mean() {
    let colors = vec![
        Color::new(0, 0, 0),
        Color::new(255, 255, 255),
        Color::new(10, 20, 30),
    ];
    let (r, g, b) = base9_builder::matcher::average_color2(&colors);
    assert_eq!(r, (1_000_000i64 * 265) / 3);
    assert_eq!(g, (1_000_000i64 * 275) / 3);
    assert_eq!(b, (1_000_000i64 * 285) / 3);
}

#[test]
fn average_color_matches_single_color() {
    let colors = vec![Color::new(64, 128, 192)];
    let avg = base9_builder::matcher::average_color(&colors);
    let lab = base9_builder::convert::lab_from_rgb(&Color::new(64, 128, 192));
    assert_eq!(avg.l, lab.l);
    assert_eq!(avg.a, lab.a);
    assert_eq!(avg.b, lab.b);
}

#[test]
fn minus_colors_subtracts_the_average() {
    let colors: Vec<Color> = (0..7u8).map(|i| Color::new(i * 30, 255 - i * 30, 77)).collect();
    let avg = base9_builder::matcher::average_color(&colors);
    let offs = base9_builder::matcher::minus_colors(&colors, &avg);
    assert_eq!(offs.len(), 7);
    for (c, o) in colors.iter().zip(offs.iter()) {
        let lab = base9_builder::convert::lab_from_rgb(c);
        assert_eq!(o.l, lab.l - avg.l);
        assert_eq!(o.a, lab.a - avg.a);
        assert_eq!(o.b, lab.b - avg.b);
    }
}

#[test]
fn full_palette_through_matcher_keeps_identity() {
    // A fully specified palette whose accents are the six pure reference
    // hues plus a neutral seventh: the matcher assigns each name its own
    // pure hue.
    let code = "000000-ffffff-ff0000-ffff00-00ff00-00ffff-0000ff-ff00ff-808080";
    let palette = base9_builder::Palette::from_str(code).unwrap();
    let hues = &palette.colors[2..9];
    let r = get_matching_absolute_color(hues);
    let names = names_of(&r);
    assert_eq!(names[0], ("red".to_string(), (255, 0, 0)));
    assert_eq!(names[1], ("yellow".to_string(), (255, 255, 0)));
    assert_eq!(names[2], ("green".to_string(), (0, 255, 0)));
    assert_eq!(names[3], ("cyan".to_string(), (0, 255, 255)));
    assert_eq!(names[4], ("blue".to_string(), (0, 0, 255)));
    assert_eq!(names[5], ("magenta".to_string(), (255, 0, 255)));
}

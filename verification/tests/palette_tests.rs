use base9_builder::color::to_hex;
use base9_builder::rng::rng_from_seed;
use base9_builder::{generate, Palette, PaletteOption, ParseError};

fn palette_code(p: &Palette) -> String {
    let codes: Vec<String> = p.colors.iter().map(|c| to_hex(c)).collect();
    codes.join("-")
}

#[test]
fn from_str_works() {
    let palette_str = "000000-ffffff-222222-333333-444444-555555-666666-777777-888888";
    let palette = Palette::from_str(palette_str).unwrap();
    assert_eq!(palette_code(&palette), palette_str);
}

#[test]
fn from_str_works_with_underscore() {
    let palette_str = [
        "_", "ffffff", "_", "333333", "444444", "555555", "666666", "777777", "888888",
    ];
    let palette = Palette::from_str(&palette_str.join("-")).unwrap();
    let actual: Vec<String> = palette.colors.iter().map(|c| to_hex(c)).collect();
    palette_str.iter().zip(actual).for_each(|(&e, a)| match e {
        "_" => (),
        _ => assert_eq!(*e, a),
    });
}

#[test]
fn from_str_works_with_question_mark() {
    let palette_str = ["_", "ffffff", "_", "333333", "444444", "555555", "?"];
    let palette = Palette::from_str(&palette_str.join("-")).unwrap();
    let actual: Vec<String> = palette.colors.iter().map(|c| to_hex(c)).collect();
    palette_str.iter().zip(actual).for_each(|(&e, a)| match e {
        "_" => (),
        "?" => (),
        _ => assert_eq!(*e, a),
    });
}

#[test]
fn to_code_round_trips_through_parsing() {
    let palette_str = "1d2021-d5c4a1-fb4934-fabd2f-b8bb26-8ec07c-83a598-d3869b-fe8019";
    let palette = Palette::from_str(palette_str).unwrap();
    assert_eq!(palette.to_code(), palette_str);
    let again = Palette::from_str(&palette.to_code()).unwrap();
    assert_eq!(palette_code(&again), palette_str);
}

#[test]
fn generate_keeps_fixed_slots() {
    let po = PaletteOption::from_str("1d2021-d5c4a1-_-_-_-_-_-_-_").unwrap();
    let mut rng = rng_from_seed(7);
    let p = generate(&po, &mut rng);
    assert_eq!(to_hex(&p.colors[0]), "1d2021");
    assert_eq!(to_hex(&p.colors[1]), "d5c4a1");
}

#[test]
fn generate_identity_on_full_input() {
    let palette_str = "1d2021-d5c4a1-fb4934-fabd2f-b8bb26-8ec07c-83a598-d3869b-fe8019";
    let po = PaletteOption::from_str(palette_str).unwrap();
    let mut rng = rng_from_seed(1);
    let p = generate(&po, &mut rng);
    assert_eq!(palette_code(&p), palette_str);
}

#[test]
fn generate_deterministic_for_fixed_seed() {
    let po = PaletteOption::from_str("?").unwrap();
    let p1 = base9_builder::generate_seeded(&po, 12345);
    let p2 = base9_builder::generate_seeded(&po, 12345);
    assert_eq!(palette_code(&p1), palette_code(&p2));
    let po2 = PaletteOption::from_str("1d2021-?").unwrap();
    let q1 = base9_builder::generate_seeded(&po2, 6);
    let q2 = base9_builder::generate_seeded(&po2, 6);
    assert_eq!(palette_code(&q1), palette_code(&q2));
}

#[test]
fn generate_total_on_varied_inputs() {
    let inputs = [
        "?",
        "_-_-_-_-_-_-_-_-_",
        "1d2021-?",
        "_-ffffff-_-333333-444444-555555-?",
        "000000-ffffff-?",
        "1d2021-d5c4a1-fb4934-?",
    ];
    for (k, s) in inputs.iter().enumerate() {
        let po = PaletteOption::from_str(s).unwrap();
        let mut rng = rng_from_seed(k as u64);
        let _ = generate(&po, &mut rng);
    }
}

#[test]
fn accents_spread_for_bg_fg_only_input() {
    let po = PaletteOption::from_str("1d2021-d5c4a1-_-_-_-_-_-_-_").unwrap();
    let mut rng = rng_from_seed(99);
    let p = generate(&po, &mut rng);
    assert_eq!(to_hex(&p.colors[0]), "1d2021");
    assert_eq!(to_hex(&p.colors[1]), "d5c4a1");
    let accents: Vec<String> = p.colors[2..9].iter().map(|c| to_hex(c)).collect();
    for i in 0..accents.len() {
        for j in (i + 1)..accents.len() {
            assert_ne!(accents[i], accents[j], "accents must be distinct hues");
        }
    }
}

#[test]
fn parse_rejects_too_many_tokens() {
    let r = PaletteOption::from_str("0-1-2-3-4-5-6-7-8-9");
    match r {
        Err(ParseError::TooManyColors { count }) => assert_eq!(count, 10),
        _ => panic!("expected a too-many-colors error"),
    }
}

#[test]
fn parse_rejects_wrong_count() {
    let r = PaletteOption::from_str("111111-222222-333333");
    match r {
        Err(ParseError::WrongColorCount { count }) => assert_eq!(count, 3),
        _ => panic!("expected a wrong-count error"),
    }
}

#[test]
fn parse_rejects_bad_token() {
    let r = PaletteOption::from_str("111111-zzz-333333-444444-555555-666666-777777-888888-999999");
    match r {
        Err(ParseError::BadColorToken { index, token }) => {
            assert_eq!(index, 1);
            assert_eq!(token, "zzz");
        },
        _ => panic!("expected a bad-token error"),
    }
}

#[test]
fn parse_error_messages_name_the_place() {
    let r = PaletteOption::from_str("0-1-2-3-4-5-6-7-8-9");
    assert_eq!(r.unwrap_err().describe(), "too many colors: 10");
    let r = PaletteOption::from_str("111111-222222");
    assert_eq!(r.unwrap_err().describe(), "wrong number of colors: 2");
    let r = PaletteOption::from_str("111111-zzz-3-4-5-6-7-8-9");
    assert_eq!(
        r.unwrap_err().describe(),
        "1th color in palette is wrong format: zzz"
    );
}

#[test]
fn stop_token_after_too_many_still_rejected() {
    let r = PaletteOption::from_str("1-2-3-4-5-6-7-8-9-?-10");
    match r {
        Err(ParseError::TooManyColors { count }) => assert_eq!(count, 11),
        _ => panic!("expected a too-many-colors error"),
    }
}

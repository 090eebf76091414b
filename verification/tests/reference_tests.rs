use base9_builder::Reference;

#[test]
fn key_iter_splits_dotted_paths() {
    let r = Reference::new("foreground.p50.hex").unwrap();
    let keys = r.key_iter();
    assert_eq!(keys, vec!["foreground", "p50", "hex"]);
    let r = Reference::new("background").unwrap();
    assert_eq!(r.key_iter(), vec!["background"]);
}

#[test]
fn reference_accepts_lowercase_names() {
    assert!(Reference::new("c1").is_some());
    assert!(Reference::new("a_b.c_9").is_some());
    assert!(Reference::new("red.p100").is_some());
}

#[test]
fn reference_rejects_malformed_names() {
    assert!(Reference::new("").is_none());
    assert!(Reference::new("Red").is_none());
    assert!(Reference::new("9lives").is_none());
    assert!(Reference::new("a..b").is_none());
    assert!(Reference::new("a.").is_none());
    assert!(Reference::new(".a").is_none());
    assert!(Reference::new("_a").is_none());
    assert!(Reference::new("a b").is_none());
}

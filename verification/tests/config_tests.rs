use tasks::config::{default_cutoff, default_path, default_verbose, Config};

#[test]
fn empty_string() {
    let s = "";
    assert_eq!(s, s)
}

#[test]
fn defaults_hold() {
    let c = Config::default();
    assert_eq!(c.cutoff, 86400);
    assert!(!c.verbose);
    assert_eq!(default_cutoff(), 60 * 60 * 24);
    assert!(!default_verbose());
    assert!(default_path().ends_with(".tasks"));
}

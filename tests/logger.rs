use log::Level;
use pwned_check::logger::max_level_for;
use pwned_check::{set_verbose_level, MaxLevel};

fn is_allowed(level: Level) -> bool {
    level <= log::max_level()
}

#[test]
fn test_not_verbose() {
    set_verbose_level(false);

    assert!(is_allowed(Level::Error));
    assert!(is_allowed(Level::Info));
    assert!(!is_allowed(Level::Debug));
}

#[test]
fn logger_test_verbose() {
    set_verbose_level(true);

    assert!(is_allowed(Level::Error));
    assert!(is_allowed(Level::Info));
    assert!(is_allowed(Level::Debug));
}

#[test]
fn level_choice() {
    assert_eq!(max_level_for(true), MaxLevel::Trace);
    assert_eq!(max_level_for(false), MaxLevel::Info);
}

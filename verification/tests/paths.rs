use js_block_tidy::chrome;
use js_block_tidy::history::{cutoff_micros, days_ago_in_nanos};
use js_block_tidy::{starts_with, str_eq};

#[test]
fn store_paths_extend_the_profile_directory() {
    let dir = "/home/someone/profile/";
    assert_eq!(chrome::preferences(dir), "/home/someone/profile/Preferences".to_owned());
    assert_eq!(chrome::history(dir), "/home/someone/profile/History".to_owned());
}

#[test]
fn cutoff_is_in_microseconds_since_the_epoch() {
    // Seven whole days before the clock reading leave five seconds.
    assert_eq!(cutoff_micros(7 * 86400 + 5, 7), 5_000_000);
    assert_eq!(cutoff_micros(1_000_000, 0), 1_000_000_000_000);
}

#[test]
fn cutoff_of_a_window_reaching_past_the_epoch_is_zero() {
    assert_eq!(cutoff_micros(100, 1), 0);
    // One second short of the window still clamps to zero.
    assert_eq!(cutoff_micros(86399, 1), 0);
    // The exact boundary lands on zero as well; one second later does not.
    assert_eq!(cutoff_micros(86400, 1), 0);
    assert_eq!(cutoff_micros(86401, 1), 1_000_000);
}

#[test]
fn the_cutoff_of_an_empty_window_is_now() {
    let before = cutoff_micros(1_700_000_000, 0);
    assert_eq!(before, 1_700_000_000_000_000);
    assert!(days_ago_in_nanos(0) > 0);
}

#[test]
fn prefix_matching_is_literal() {
    assert!(starts_with("https://one.com/page", "https://one.com"));
    assert!(starts_with("https://one.com", "https://one.com"));
    assert!(!starts_with("https://onetwo.com", "https://one.com"));
    assert!(!starts_with("https://one.co", "https://one.com"));
    assert!(starts_with("anything", ""));
}

#[test]
fn string_equality_is_by_characters() {
    assert!(str_eq("setting", "setting"));
    assert!(!str_eq("setting", "settings"));
    assert!(!str_eq("a", "b"));
    assert!(str_eq("", ""));
}

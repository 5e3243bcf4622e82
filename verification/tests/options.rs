use nrf_sniffer::options::{in_range, min_max_channel};

#[test]
fn numbers_in_range_are_taken() {
    assert!(in_range(0, 125, "0"));
    assert!(in_range(0, 125, "7"));
    assert!(in_range(0, 125, "39"));
    assert!(in_range(0, 125, "100"));
    assert!(in_range(0, 125, "125"));
    assert!(in_range(0, 32, "32"));
    assert!(in_range(3, 5, "3"));
    assert!(in_range(3, 5, "5"));
    assert!(in_range(0, 255, "255"));
    assert!(in_range(200, 200, "200"));
}

#[test]
fn numbers_out_of_range_are_refused() {
    assert!(!in_range(0, 125, "126"));
    assert!(!in_range(0, 32, "33"));
    assert!(!in_range(3, 5, "2"));
    assert!(!in_range(3, 5, "6"));
    assert!(!in_range(0, 255, "256"));
    assert!(!in_range(0, 255, "1000"));
    assert!(!in_range(10, 20, "9"));
    assert!(!in_range(10, 20, "21"));
    assert!(!in_range(5, 3, "4"));
}

#[test]
fn what_is_no_plain_number_is_refused() {
    assert!(!in_range(0, 125, ""));
    assert!(!in_range(0, 125, "07"));
    assert!(!in_range(0, 125, "007"));
    assert!(!in_range(0, 125, "00"));
    assert!(!in_range(0, 125, "+5"));
    assert!(!in_range(0, 125, "-5"));
    assert!(!in_range(0, 125, " 5"));
    assert!(!in_range(0, 125, "5 "));
    assert!(!in_range(0, 125, "1a"));
    assert!(!in_range(0, 125, "x"));
    assert!(!in_range(0, 125, "1.0"));
    assert!(!in_range(0, 125, "１"));
}

#[test]
fn lowest_and_highest_channel() {
    assert_eq!(min_max_channel(&[39]), (39, 39));
    assert_eq!(min_max_channel(&[39, 2, 80]), (2, 80));
    assert_eq!(min_max_channel(&[125, 0, 125, 0]), (0, 125));
    assert_eq!(min_max_channel(&[5, 6, 7]), (5, 7));
    assert_eq!(min_max_channel(&[7, 6, 5]), (5, 7));
}

use grid_puzzles::reports::valid_report;

#[test]
fn simple_valid_report() {
    let result = valid_report("7 6 4 2 1").unwrap();
    assert!(result);
}

#[test]
fn invalid_report() {
    let result = valid_report("1 2 7 8 9").unwrap();
    assert!(!result);
}

#[test]
fn invalid_report_2() {
    let result = valid_report("9 7 6 2 1").unwrap();
    assert!(!result);
}

#[test]
fn valid_report_after_removal() {
    let result = valid_report("1 3 2 4 5").unwrap();
    assert!(result);
}

#[test]
fn valid_report_after_removal_at_end() {
    let result = valid_report("9 6 5 7").unwrap();
    assert!(result);
}

#[test]
fn valid_report_after_removal_at_start() {
    let result = valid_report("4 4 3 2 1").unwrap();
    assert!(result);
}

#[test]
fn report_with_a_bad_level_is_rejected() {
    assert_eq!(valid_report("1 2 x 4"), None);
    assert_eq!(valid_report("1 2 4294967296"), None);
}

#[test]
fn short_reports_are_safe() {
    assert_eq!(valid_report(""), Some(true));
    assert_eq!(valid_report("  5 "), Some(true));
    assert_eq!(valid_report("+3\t4"), Some(true));
}

#[test]
fn two_bad_levels_are_not_tolerated() {
    assert_eq!(valid_report("1 5 9 13"), Some(false));
}

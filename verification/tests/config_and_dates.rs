use twirer::config::{get_list, Config, TwirError};
use twirer::date::{format_date, parse_date, week_next, Date};
use twirer::num::parse_u32;

#[test]
fn config_lines_are_parsed_and_split() {
    let config = Config::parse("ignore=update, bump\norder=cargo, rustfmt, miri\n");
    let ignore = get_list(&config, "ignore").unwrap();
    assert_eq!(ignore, vec!["update".to_string(), "bump".to_string()]);
    let order = get_list(&config, "order").unwrap();
    assert_eq!(order, vec!["cargo".to_string(), "rustfmt".to_string(), "miri".to_string()]);
}

#[test]
fn later_lines_overwrite_earlier_keys() {
    let config = Config::parse("order=a\norder=b, c");
    let order = get_list(&config, "order").unwrap();
    assert_eq!(order, vec!["b".to_string(), "c".to_string()]);
}

#[test]
fn lines_without_equals_are_skipped() {
    let config = Config::parse("just a comment\nkey=value");
    assert_eq!(get_list(&config, "key").unwrap(), vec!["value".to_string()]);
}

#[test]
fn a_missing_key_is_a_named_error() {
    let config = Config::parse("ignore=x");
    match get_list(&config, "order") {
        Err(TwirError::ConfigKeyMissing { key }) => assert_eq!(key, "order"),
        _ => panic!("expected a missing-key error"),
    }
}

#[test]
fn trailing_whitespace_is_trimmed_from_values() {
    let config = Config::parse("key=a, b  \n");
    assert_eq!(get_list(&config, "key").unwrap(), vec!["a".to_string(), "b".to_string()]);
}

#[test]
fn the_week_window_advances_by_seven_days() {
    assert_eq!(
        week_next("2024-01-01..2024-01-08").as_deref(),
        Some("2024-01-08..2024-01-15")
    );
}

#[test]
fn the_advance_respects_leap_years() {
    assert_eq!(
        week_next("x..2024-02-26").as_deref(),
        Some("2024-02-26..2024-03-04")
    );
    assert_eq!(
        week_next("x..2023-02-26").as_deref(),
        Some("2023-02-26..2023-03-05")
    );
}

#[test]
fn the_advance_rolls_over_a_year() {
    assert_eq!(
        week_next("2023-12-18..2023-12-28").as_deref(),
        Some("2023-12-28..2024-01-04")
    );
}

#[test]
fn a_window_without_dots_is_rejected() {
    assert_eq!(week_next("2024-01-01"), None);
}

#[test]
fn a_malformed_date_is_rejected() {
    assert_eq!(week_next("a..2024-13-01"), None);
    assert_eq!(week_next("a..2023-02-29"), None);
    assert_eq!(week_next("a..2024-1-1"), None);
}

#[test]
fn the_last_representable_week_is_rejected() {
    assert_eq!(week_next("a..9999-12-30"), None);
}

#[test]
fn dates_parse_and_format_in_round_trip() {
    let d = parse_date("2024-02-29").unwrap();
    assert_eq!((d.year, d.month, d.day), (2024, 2, 29));
    assert_eq!(format_date(&d), "2024-02-29");
    let early = Date { year: 7, month: 3, day: 4 };
    assert_eq!(format_date(&early), "0007-03-04");
}

#[test]
fn numerals_parse_exactly() {
    assert_eq!(parse_u32("123"), Some(123));
    assert_eq!(parse_u32("+7"), Some(7));
    assert_eq!(parse_u32("4294967295"), Some(u32::MAX));
    assert_eq!(parse_u32("4294967296"), None);
    assert_eq!(parse_u32(""), None);
    assert_eq!(parse_u32("12a"), None);
    assert_eq!(parse_u32("-3"), None);
}

use ical_filter::rules::{MatchRule, MatchRuleParseError, RemoveMatchRule, RemoveRuleParseError};
use ical_filter::time::Date;

#[test]
fn match_rule_without_group_defaults_to_zero() {
    let rule = MatchRule::parse("SUMMARY=Stand.*").unwrap();
    assert_eq!(rule.group_id, 0);
    assert_eq!(rule.property, "SUMMARY");
}

#[test]
fn match_rule_with_group_prefix() {
    let rule = MatchRule::parse("3,LOCATION=Office").unwrap();
    assert_eq!(rule.group_id, 3);
    assert_eq!(rule.property, "LOCATION");
}

#[test]
fn match_rule_with_negative_group() {
    let rule = MatchRule::parse("-7,SUMMARY=x").unwrap();
    assert_eq!(rule.group_id, -7);
}

#[test]
fn match_rule_without_separator_is_missing_equal_sign() {
    let r = MatchRule::parse("SUMMARY");
    assert!(matches!(r, Err(MatchRuleParseError::MissingEqualSign)));
}

#[test]
fn match_rule_separator_before_comma_is_missing_equal_sign() {
    // The group prefix is split off first, so an `=` before the comma
    // does not count as the separator.
    let r = MatchRule::parse("a=b,c");
    assert!(matches!(r, Err(MatchRuleParseError::MissingEqualSign)));
}

#[test]
fn match_rule_with_bad_group_id() {
    let r = MatchRule::parse("x,SUMMARY=y");
    assert!(matches!(r, Err(MatchRuleParseError::GroupIdParseError)));
}

#[test]
fn match_rule_with_empty_group_id() {
    let r = MatchRule::parse(",SUMMARY=y");
    assert!(matches!(r, Err(MatchRuleParseError::GroupIdParseError)));
}

#[test]
fn match_rule_with_bad_regex() {
    let r = MatchRule::parse("0,SUMMARY=[");
    assert!(matches!(r, Err(MatchRuleParseError::RegexParseError)));
}

#[test]
fn match_rule_pattern_keeps_later_equal_signs() {
    let rule = MatchRule::parse("0,NOTE=a=b").unwrap();
    assert_eq!(rule.property, "NOTE");
}

#[test]
fn remove_rule_with_one_field() {
    let rule = RemoveMatchRule::parse("2").unwrap();
    assert_eq!(rule.group_id, 2);
    assert!(!rule.single_day);
    assert!(rule.start_date.is_none());
    assert!(rule.end_date.is_none());
}

#[test]
fn remove_rule_with_two_fields_is_single_day() {
    let rule = RemoveMatchRule::parse("2,2024-03-01").unwrap();
    assert_eq!(rule.group_id, 2);
    assert!(rule.single_day);
    assert_eq!(rule.start_date, Some(Date { year: 2024, month: 3, day: 1 }));
    assert!(rule.end_date.is_none());
}

#[test]
fn remove_rule_with_three_fields_is_range() {
    let rule = RemoveMatchRule::parse("2,2024-03-01,2024-03-10").unwrap();
    assert!(!rule.single_day);
    assert_eq!(rule.start_date, Some(Date { year: 2024, month: 3, day: 1 }));
    assert_eq!(rule.end_date, Some(Date { year: 2024, month: 3, day: 10 }));
}

#[test]
fn remove_rule_with_open_start() {
    let rule = RemoveMatchRule::parse("2,,2024-03-10").unwrap();
    assert!(!rule.single_day);
    assert!(rule.start_date.is_none());
    assert_eq!(rule.end_date, Some(Date { year: 2024, month: 3, day: 10 }));
}

#[test]
fn remove_rule_with_open_end() {
    let rule = RemoveMatchRule::parse("2,2024-03-01,").unwrap();
    assert!(!rule.single_day);
    assert_eq!(rule.start_date, Some(Date { year: 2024, month: 3, day: 1 }));
    assert!(rule.end_date.is_none());
}

#[test]
fn remove_rule_with_bad_group_id() {
    let r = RemoveMatchRule::parse("x,2024-03-01");
    assert!(matches!(r, Err(RemoveRuleParseError::GroupIdParseError)));
}

#[test]
fn remove_rule_with_empty_text() {
    let r = RemoveMatchRule::parse("");
    assert!(matches!(r, Err(RemoveRuleParseError::GroupIdParseError)));
}

#[test]
fn remove_rule_with_bad_date() {
    let r = RemoveMatchRule::parse("2,March first");
    assert!(matches!(r, Err(RemoveRuleParseError::DateParseError)));
}

#[test]
fn remove_rule_with_trailing_comma_is_bad_single_day() {
    // "2," splits into two fields whose date part is empty.
    let r = RemoveMatchRule::parse("2,");
    assert!(matches!(r, Err(RemoveRuleParseError::DateParseError)));
}

#[test]
fn remove_rule_fourth_comma_stays_in_third_field() {
    // Splitting stops after two commas, so the third field holds the rest
    // and fails to parse as a date.
    let r = RemoveMatchRule::parse("2,2024-03-01,2024-03-10,extra");
    assert!(matches!(r, Err(RemoveRuleParseError::DateParseError)));
}

#[test]
fn group_id_bounds_parse_exactly() {
    let max = RemoveMatchRule::parse("9223372036854775807").unwrap();
    assert_eq!(max.group_id, isize::MAX);
    let min = RemoveMatchRule::parse("-9223372036854775808").unwrap();
    assert_eq!(min.group_id, isize::MIN);
    assert!(RemoveMatchRule::parse("9223372036854775808").is_err());
    assert!(RemoveMatchRule::parse("-9223372036854775809").is_err());
}

#[test]
fn group_id_accepts_plus_sign() {
    let rule = RemoveMatchRule::parse("+4").unwrap();
    assert_eq!(rule.group_id, 4);
    assert!(RemoveMatchRule::parse("+").is_err());
}

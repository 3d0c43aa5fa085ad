use ical_filter::event::{Event, Property, TemporalError};
use ical_filter::pipeline::{evaluate_event, filter_events, GroupStats};
use ical_filter::rules::{MatchGroup, MatchRule, MatchTree, RemoveMatchRule, RemoveTree};
use ical_filter::time::Date;

fn prop(name: &str, value: &str) -> Property {
    Property { name: name.to_string(), value: Some(value.to_string()) }
}

fn event(props: &[(&str, &str)]) -> Event {
    Event { properties: props.iter().map(|(n, v)| prop(n, v)).collect() }
}

fn match_tree(rules: &[&str]) -> MatchTree {
    MatchTree::from_rules(rules.iter().map(|s| MatchRule::parse(s).unwrap()).collect())
}

fn remove_tree(rules: &[&str]) -> RemoveTree {
    RemoveTree::from_rules(rules.iter().map(|s| RemoveMatchRule::parse(s).unwrap()).collect())
}

#[test]
fn classify_by_property_pattern() {
    let tree = match_tree(&["0,SUMMARY=Stand.*"]);
    assert_eq!(tree.is_match(&event(&[("SUMMARY", "Standup")])), Some(0));
    assert_eq!(tree.is_match(&event(&[("SUMMARY", "Release")])), None);
}

#[test]
fn classify_is_a_substring_search() {
    let tree = match_tree(&["0,SUMMARY=tand"]);
    assert_eq!(tree.is_match(&event(&[("SUMMARY", "Standup")])), Some(0));
}

#[test]
fn classify_requires_every_rule_of_the_group() {
    let tree = match_tree(&["0,SUMMARY=sync", "0,LOCATION=Office"]);
    let both = event(&[("SUMMARY", "Weekly sync"), ("LOCATION", "Office")]);
    let one = event(&[("SUMMARY", "Weekly sync"), ("LOCATION", "Home")]);
    assert_eq!(tree.is_match(&both), Some(0));
    assert_eq!(tree.is_match(&one), None);
}

#[test]
fn classify_ignores_property_without_value() {
    let tree = match_tree(&["0,SUMMARY=.*"]);
    let bare = Event { properties: vec![Property { name: "SUMMARY".to_string(), value: None }] };
    assert_eq!(tree.is_match(&bare), None);
}

#[test]
fn empty_group_matches_every_event() {
    let group = MatchGroup::default();
    assert!(group.is_match(&event(&[("SUMMARY", "anything")])));
    assert!(group.is_match(&Event { properties: vec![] }));
}

#[test]
fn last_write_wins_for_same_group_and_property() {
    let tree = match_tree(&["0,SUMMARY=^alpha$", "0,SUMMARY=^beta$"]);
    assert_eq!(tree.is_match(&event(&[("SUMMARY", "beta")])), Some(0));
    assert_eq!(tree.is_match(&event(&[("SUMMARY", "alpha")])), None);
}

#[test]
fn dtstart_parses_the_fixed_timestamp_format() {
    let e = event(&[("DTSTART", "20240301T090000Z")]);
    let ts = e.dtstart().unwrap();
    assert_eq!(ts.year, 2024);
    assert_eq!(ts.month, 3);
    assert_eq!(ts.day, 1);
    assert_eq!(ts.hour, 9);
    assert_eq!(ts.minute, 0);
    assert_eq!(ts.second, 0);
    assert_eq!(ts.epoch_seconds, 1709283600);
}

#[test]
fn dtstart_missing_property() {
    let e = event(&[("SUMMARY", "x")]);
    assert!(matches!(e.dtstart(), Err(TemporalError::MissingProperty)));
}

#[test]
fn dtstart_empty_value() {
    let e = Event { properties: vec![Property { name: "DTSTART".to_string(), value: None }] };
    assert!(matches!(e.dtstart(), Err(TemporalError::EmptyValue)));
}

#[test]
fn dtstart_unparsable_value() {
    let e = event(&[("DTSTART", "2024-03-01 09:00")]);
    assert!(matches!(e.dtstart(), Err(TemporalError::Unparsable)));
}

#[test]
fn duration_is_end_minus_start() {
    let e = event(&[("DTSTART", "20240301T090000Z"), ("DTEND", "20240301T103000Z")]);
    assert_eq!(e.duration().unwrap(), 5400);
    assert_eq!(e.duration_minutes().unwrap(), 90);
}

#[test]
fn duration_fails_without_end() {
    let e = event(&[("DTSTART", "20240301T090000Z")]);
    assert!(e.duration().is_err());
}

#[test]
fn negative_duration_minutes_round_toward_zero() {
    let e = event(&[("DTSTART", "20240301T090130Z"), ("DTEND", "20240301T090000Z")]);
    assert_eq!(e.duration().unwrap(), -90);
    assert_eq!(e.duration_minutes().unwrap(), -1);
}

#[test]
fn prop_takes_the_first_property_with_the_name() {
    let e = event(&[("NOTE", "first"), ("NOTE", "second")]);
    assert_eq!(e.prop("NOTE"), Some("first"));
    assert_eq!(e.prop("OTHER"), None);
    assert_eq!(e.summary(), None);
}

#[test]
fn remove_rule_with_one_field_excludes_every_date() {
    let tree = remove_tree(&["2"]);
    let in_group = event(&[("DTSTART", "19990101T000000Z")]);
    assert_eq!(tree.is_match(2, &in_group), Some(true));
    let other = event(&[("DTSTART", "20500615T120000Z")]);
    assert_eq!(tree.is_match(2, &other), Some(true));
    assert_eq!(tree.is_match(3, &other), None);
}

#[test]
fn single_day_rule_excludes_only_that_date() {
    let tree = remove_tree(&["2,2024-03-01"]);
    assert_eq!(tree.is_match(2, &event(&[("DTSTART", "20240301T090000Z")])), Some(true));
    assert_eq!(tree.is_match(2, &event(&[("DTSTART", "20240302T090000Z")])), Some(false));
    assert_eq!(tree.is_match(2, &event(&[("DTSTART", "20240229T090000Z")])), Some(false));
}

#[test]
fn range_rule_excludes_inclusive_window() {
    let tree = remove_tree(&["2,2024-03-01,2024-03-10"]);
    assert_eq!(tree.is_match(2, &event(&[("DTSTART", "20240301T000000Z")])), Some(true));
    assert_eq!(tree.is_match(2, &event(&[("DTSTART", "20240305T120000Z")])), Some(true));
    assert_eq!(tree.is_match(2, &event(&[("DTSTART", "20240310T235959Z")])), Some(true));
    assert_eq!(tree.is_match(2, &event(&[("DTSTART", "20240229T000000Z")])), Some(false));
    assert_eq!(tree.is_match(2, &event(&[("DTSTART", "20240311T000000Z")])), Some(false));
}

#[test]
fn open_start_range_excludes_everything_up_to_end() {
    let tree = remove_tree(&["2,,2024-03-10"]);
    assert_eq!(tree.is_match(2, &event(&[("DTSTART", "19700101T000000Z")])), Some(true));
    assert_eq!(tree.is_match(2, &event(&[("DTSTART", "20240310T000000Z")])), Some(true));
    assert_eq!(tree.is_match(2, &event(&[("DTSTART", "20240311T000000Z")])), Some(false));
}

#[test]
fn open_end_range_excludes_everything_from_start() {
    let tree = remove_tree(&["2,2024-03-01,"]);
    assert_eq!(tree.is_match(2, &event(&[("DTSTART", "20240301T000000Z")])), Some(true));
    assert_eq!(tree.is_match(2, &event(&[("DTSTART", "20990101T000000Z")])), Some(true));
    assert_eq!(tree.is_match(2, &event(&[("DTSTART", "20240229T000000Z")])), Some(false));
}

#[test]
fn unreadable_start_date_does_not_match_a_window() {
    let rule = RemoveMatchRule::parse("2,2024-03-01").unwrap();
    assert!(!rule.is_match(&event(&[("SUMMARY", "no start")])));
}

#[test]
fn date_comparison_follows_calendar_order() {
    let early = Date { year: 2023, month: 12, day: 31 };
    let late = Date { year: 2024, month: 1, day: 1 };
    assert!(early.on_or_before(&late));
    assert!(!late.on_or_before(&early));
    assert!(early.on_or_before(&early));
}

#[test]
fn wildcard_rules_apply_to_every_group() {
    let mt = match_tree(&["0,SUMMARY=.*"]);
    let rt = remove_tree(&["-1,2024-03-01"]);
    let on_day = event(&[("SUMMARY", "x"), ("DTSTART", "20240301T090000Z")]);
    let off_day = event(&[("SUMMARY", "x"), ("DTSTART", "20240302T090000Z")]);
    assert_eq!(evaluate_event(&mt, &rt, &on_day), None);
    assert_eq!(evaluate_event(&mt, &rt, &off_day), Some(0));
}

#[test]
fn own_group_rules_also_drop() {
    let mt = match_tree(&["2,SUMMARY=.*"]);
    let rt = remove_tree(&["2,2024-03-01"]);
    let on_day = event(&[("SUMMARY", "x"), ("DTSTART", "20240301T090000Z")]);
    assert_eq!(evaluate_event(&mt, &rt, &on_day), None);
}

#[test]
fn duration_totals_sum_per_group() {
    let mt = match_tree(&["0,SUMMARY=.*"]);
    let rt = remove_tree(&[]);
    let mut stats = GroupStats::new();
    let events = vec![
        event(&[("SUMMARY", "a"), ("DTSTART", "20240301T090000Z"), ("DTEND", "20240301T100000Z")]),
        event(&[("SUMMARY", "b"), ("DTSTART", "20240301T110000Z"), ("DTEND", "20240301T113000Z")]),
    ];
    let kept = filter_events(events, &mt, &rt, &mut stats);
    assert_eq!(kept.len(), 2);
    // 3600 s + 1800 s = 5400 s: one whole hour, rounded toward zero.
    assert_eq!(stats.rows(), vec![(0, 1)]);
}

#[test]
fn stats_rows_sort_by_ascending_group_id() {
    let mut stats = GroupStats::new();
    stats.add_seconds(5, 3600);
    stats.add_seconds(2, 7200);
    stats.add_seconds(5, 3600);
    assert_eq!(stats.rows(), vec![(2, 2), (5, 2)]);
}

#[test]
fn no_rules_keep_nothing() {
    let mt = MatchTree::from_rules(vec![]);
    let rt = remove_tree(&[]);
    let mut stats = GroupStats::new();
    let events = vec![
        event(&[("SUMMARY", "a"), ("DTSTART", "20240301T090000Z"), ("DTEND", "20240301T100000Z")]),
    ];
    let kept = filter_events(events, &mt, &rt, &mut stats);
    assert!(kept.is_empty());
    assert!(stats.rows().is_empty());
}

#[test]
fn end_to_end_standup_release() {
    let mt = match_tree(&["0,SUMMARY=Stand.*"]);
    let rt = remove_tree(&[]);
    let mut stats = GroupStats::new();
    let events = vec![
        event(&[
            ("SUMMARY", "Standup"),
            ("DTSTART", "20240301T090000Z"),
            ("DTEND", "20240301T091500Z"),
        ]),
        event(&[
            ("SUMMARY", "Release"),
            ("DTSTART", "20240301T100000Z"),
            ("DTEND", "20240301T110000Z"),
        ]),
    ];
    let kept = filter_events(events, &mt, &rt, &mut stats);
    assert_eq!(kept.len(), 1);
    assert_eq!(kept[0].summary(), Some("Standup"));
    assert_eq!(kept[0].duration().unwrap(), 900);
    // The 15-minute standup gives 0 whole hours for group 0.
    assert_eq!(stats.rows(), vec![(0, 0)]);
}

#[test]
fn uncomputable_duration_keeps_the_event() {
    let mt = match_tree(&["0,SUMMARY=.*"]);
    let rt = remove_tree(&[]);
    let mut stats = GroupStats::new();
    let events = vec![event(&[("SUMMARY", "no times")])];
    let kept = filter_events(events, &mt, &rt, &mut stats);
    assert_eq!(kept.len(), 1);
    assert!(stats.rows().is_empty());
}

#[test]
fn stats_accumulate_across_collections() {
    let mt = match_tree(&["0,SUMMARY=.*"]);
    let rt = remove_tree(&[]);
    let mut stats = GroupStats::new();
    let one = vec![
        event(&[("SUMMARY", "a"), ("DTSTART", "20240301T090000Z"), ("DTEND", "20240301T100000Z")]),
    ];
    let two = vec![
        event(&[("SUMMARY", "b"), ("DTSTART", "20240302T090000Z"), ("DTEND", "20240302T100000Z")]),
    ];
    filter_events(one, &mt, &rt, &mut stats);
    filter_events(two, &mt, &rt, &mut stats);
    assert_eq!(stats.rows(), vec![(0, 2)]);
}

#[test]
fn any_window_of_the_group_excludes() {
    let tree = remove_tree(&["2,2024-03-01", "2,2024-05-01"]);
    assert_eq!(tree.is_match(2, &event(&[("DTSTART", "20240301T090000Z")])), Some(true));
    assert_eq!(tree.is_match(2, &event(&[("DTSTART", "20240501T090000Z")])), Some(true));
    assert_eq!(tree.is_match(2, &event(&[("DTSTART", "20240401T090000Z")])), Some(false));
}

#[test]
fn duplicate_dtstart_takes_the_first() {
    let e = event(&[("DTSTART", "20240301T090000Z"), ("DTSTART", "20240401T090000Z")]);
    let ts = e.dtstart().unwrap();
    assert_eq!((ts.month, ts.day), (3, 1));
}

#[test]
fn classify_scans_every_property_of_the_name() {
    let tree = match_tree(&["0,ATTENDEE=bob"]);
    let later_matches = event(&[("ATTENDEE", "alice"), ("ATTENDEE", "bob")]);
    assert_eq!(tree.is_match(&later_matches), Some(0));
    let none_matches = event(&[("ATTENDEE", "alice"), ("ATTENDEE", "carol")]);
    assert_eq!(tree.is_match(&none_matches), None);
}

#[test]
fn classify_skips_a_valueless_property_for_a_later_match() {
    let tree = match_tree(&["0,ATTENDEE=bob"]);
    let e = Event {
        properties: vec![
            Property { name: "ATTENDEE".to_string(), value: None },
            prop("ATTENDEE", "bob"),
        ],
    };
    assert_eq!(tree.is_match(&e), Some(0));
}

use provenance::store::cache::graph::{Edge, EdgeType, NodeType};
use provenance::store::cache::rules::RuleRecord;
use provenance::store::cache::stale::{
    find_stale, find_stale_with_options, find_stale_with_policy, old_enough, staleness, today, CalendarDay, ResolutionRecord, StaleResolutionPolicy,
};

#[test]
fn parses_only_valid_calendar_dates() {
    assert_eq!(CalendarDay::parse("1970-01-01").map(|day| day.0), Some(0));
    assert!(CalendarDay::parse("2025-02-29").is_none());
    assert!(CalendarDay::parse("not-a-date").is_none());
}

#[test]
fn calendar_days_count_from_the_epoch() {
    assert_eq!(CalendarDay::parse("1969-12-31").map(|d| d.0), Some(-1));
    assert_eq!(CalendarDay::parse("2000-03-01").map(|d| d.0), Some(11017));
    assert_eq!(CalendarDay::parse("2024-02-29").map(|d| d.0), Some(19782));
    assert_eq!(CalendarDay::parse("0000-01-01").map(|d| d.0), Some(-719528));
    assert_eq!(CalendarDay::parse("+970-01-01").map(|d| d.0), Some(-365_242));
    assert!(CalendarDay::parse("1900-02-29").is_none());
    assert!(CalendarDay::parse("2024-13-01").is_none());
    assert!(CalendarDay::parse("2024-00-10").is_none());
    assert!(CalendarDay::parse("2024-1-010").is_none());
    assert!(CalendarDay::parse("-123-01-01").is_none());
}

#[test]
fn old_enough_counts_whole_days() {
    let day = 86_400_000u64;
    assert!(old_enough(None, 0, 0));
    assert!(!old_enough(None, 1, 10 * day));
    assert!(!old_enough(Some(-5), 1, 10 * day));
    assert!(old_enough(Some(0), 10, 10 * day));
    assert!(!old_enough(Some(1), 10, 10 * day));
    assert!(!old_enough(Some(20 * day as i64), 1, 10 * day));
    assert_eq!(today(3 * day + 5).0, 3);
}

#[test]
fn superseded_comes_before_a_past_review_date() {
    assert_eq!(
        staleness(true, Some("1970-01-01"), CalendarDay(5)).as_deref(),
        Some("approved resolution was superseded")
    );
    assert_eq!(
        staleness(false, Some("1970-01-02"), CalendarDay(5)).as_deref(),
        Some("approved resolution is past review date")
    );
    assert_eq!(staleness(false, Some("1970-01-06"), CalendarDay(5)), None);
    assert_eq!(staleness(false, Some("soon"), CalendarDay(5)), None);
    assert_eq!(staleness(false, None, CalendarDay(5)), None);
}

fn resolution(id: &str, approved: bool, superseded: bool) -> ResolutionRecord {
    ResolutionRecord {
        id: id.to_string(),
        approved,
        approved_at: Some(0),
        superseded,
        review_on: None,
    }
}

#[test]
fn stale_resolutions_follow_the_policy() {
    let resolutions = vec![
        resolution("res_a", true, true),
        resolution("res_b", false, true),
        resolution("res_c", true, false),
    ];
    let rules = vec![RuleRecord { id: "rule_1".to_string(), severity: "error".to_string() }];
    let edges = vec![Edge {
        edge_type: EdgeType::Produces,
        from_type: NodeType::Resolution,
        from_id: "res_a".to_string(),
        to_type: NodeType::Rule,
        to_id: "rule_1".to_string(),
    }];
    let found = find_stale(&resolutions, &rules, &edges, 0);
    assert_eq!(found, find_stale_with_policy(&resolutions, &rules, &edges, &StaleResolutionPolicy::default(), 0));
    assert_eq!(found.len(), 1);
    assert_eq!(found[0].resolution_id, "res_a");
    assert_eq!(found[0].reason, "approved resolution was superseded");

    let strict = StaleResolutionPolicy {
        min_age_days: 0,
        rule_severities: vec!["warning".to_string()],
        min_downstream_rules: 0,
    };
    assert!(find_stale_with_policy(&resolutions, &rules, &edges, &strict, 0).is_empty());
    assert!(find_stale_with_options(&resolutions, &rules, &edges, &strict, 0).is_empty());
}

#[test]
fn consecutive_dates_have_consecutive_day_numbers() {
    let day = |s: &str| CalendarDay::parse(s).unwrap().0;
    for (a, b) in [
        ("2024-02-28", "2024-02-29"),
        ("2024-02-29", "2024-03-01"),
        ("2023-02-28", "2023-03-01"),
        ("1999-12-31", "2000-01-01"),
        ("2000-02-29", "2000-03-01"),
        ("1900-02-28", "1900-03-01"),
        ("1970-01-31", "1970-02-01"),
        ("0000-12-31", "0001-01-01"),
    ] {
        assert_eq!(day(b), day(a) + 1, "{a} -> {b}");
    }
    assert_eq!(day("1970-01-01"), 0);
}

use state_hits::aggregate::{aggregate, AggregatedResult};
use state_hits::hit::HitResult;

fn hit(state: &str, count: i32, date: &str) -> HitResult {
    HitResult { state: state.to_string(), hit: count, date: date.to_string(), timestamp: None }
}

fn states(day: &AggregatedResult) -> Vec<(String, i32)> {
    let mut pairs = day.by_states.clone();
    pairs.sort();
    pairs
}

#[test]
fn one_day_is_summed_and_broken_down_by_state() {
    let days = aggregate(&vec![hit("CA", 10, "2023-01-01"), hit("NY", 3, "2023-01-01")]);
    assert_eq!(days.len(), 1);
    assert_eq!(days[0].date, "2023-01-01");
    assert_eq!(days[0].total_hits, 13);
    assert_eq!(states(&days[0]), vec![("CA".to_string(), 10), ("NY".to_string(), 3)]);
    assert_eq!(days[0].hits_of("CA"), Some(10));
    assert_eq!(days[0].hits_of("NY"), Some(3));
    assert_eq!(days[0].hits_of("TX"), None);
    assert_eq!(days[0].hits_of(""), None);
}

#[test]
fn days_come_by_ascending_date() {
    let days = aggregate(&vec![hit("CA", 1, "2023-01-02"), hit("CA", 2, "2023-01-01")]);
    assert_eq!(days.len(), 2);
    assert_eq!(days[0].date, "2023-01-01");
    assert_eq!(days[0].total_hits, 2);
    assert_eq!(days[1].date, "2023-01-02");
    assert_eq!(days[1].total_hits, 1);
}

#[test]
fn no_records_give_no_days() {
    assert!(aggregate(&Vec::new()).is_empty());
}

#[test]
fn records_of_many_dates_are_grouped() {
    let days = aggregate(&vec![
        hit("TX", 7, "2023-03-01"),
        hit("CA", 1, "2023-01-15"),
        hit("NY", 2, "2023-02-01"),
        hit("NY", 4, "2023-01-15"),
        hit("CA", 8, "2023-03-01"),
        hit("FL", 16, "2023-01-15"),
        hit("CA", 32, "2022-12-31"),
    ]);
    let dates: Vec<&str> = days.iter().map(|d| d.date.as_str()).collect();
    assert_eq!(dates, vec!["2022-12-31", "2023-01-15", "2023-02-01", "2023-03-01"]);
    let totals: Vec<i128> = days.iter().map(|d| d.total_hits).collect();
    assert_eq!(totals, vec![32, 21, 2, 15]);
    assert_eq!(states(&days[0]), vec![("CA".to_string(), 32)]);
    assert_eq!(
        states(&days[1]),
        vec![("CA".to_string(), 1), ("FL".to_string(), 16), ("NY".to_string(), 4)]
    );
    assert_eq!(states(&days[2]), vec![("NY".to_string(), 2)]);
    assert_eq!(states(&days[3]), vec![("CA".to_string(), 8), ("TX".to_string(), 7)]);
}

#[test]
fn repeated_state_counts_in_the_total_and_the_last_one_stays() {
    let days = aggregate(&vec![
        hit("CA", 10, "2023-01-01"),
        hit("NY", 3, "2023-01-01"),
        hit("CA", 4, "2023-01-01"),
    ]);
    assert_eq!(days.len(), 1);
    assert_eq!(days[0].total_hits, 17);
    assert_eq!(states(&days[0]), vec![("CA".to_string(), 4), ("NY".to_string(), 3)]);
    assert_eq!(days[0].hits_of("CA"), Some(4));
}

#[test]
fn negative_and_zero_counts_are_summed_as_they_are() {
    let days = aggregate(&vec![
        hit("CA", -5, "2023-01-01"),
        hit("NY", 0, "2023-01-01"),
        hit("TX", 2, "2023-01-01"),
    ]);
    assert_eq!(days[0].total_hits, -3);
    assert_eq!(days[0].hits_of("CA"), Some(-5));
    assert_eq!(days[0].hits_of("NY"), Some(0));
}

#[test]
fn total_does_not_overflow_where_the_counts_are_extreme() {
    let days = aggregate(&vec![
        hit("CA", i32::MAX, "2023-01-01"),
        hit("NY", i32::MAX, "2023-01-01"),
        hit("TX", i32::MAX, "2023-01-01"),
        hit("CA", i32::MIN, "2023-01-02"),
        hit("NY", i32::MIN, "2023-01-02"),
    ]);
    assert_eq!(days[0].total_hits, 3 * 2147483647i128);
    assert_eq!(days[1].total_hits, -2 * 2147483648i128);
    assert_eq!(days[0].hits_of("TX"), Some(i32::MAX));
    assert_eq!(days[1].hits_of("NY"), Some(i32::MIN));
}

#[test]
fn aggregating_twice_gives_the_same_days() {
    let records = vec![
        hit("CA", 1, "2023-01-02"),
        hit("NY", 2, "2023-01-01"),
        hit("CA", 3, "2023-01-01"),
    ];
    let first = aggregate(&records);
    let second = aggregate(&records);
    assert_eq!(first.len(), second.len());
    for (a, b) in first.iter().zip(second.iter()) {
        assert_eq!(a.date, b.date);
        assert_eq!(a.total_hits, b.total_hits);
        assert_eq!(a.by_states, b.by_states);
    }
    // The records are left as they were.
    assert_eq!(records.len(), 3);
    assert_eq!(records[0].state, "CA");
}

#[test]
fn dates_are_compared_as_text() {
    let days = aggregate(&vec![hit("CA", 1, "2023-10-01"), hit("CA", 2, "2023-9-01")]);
    let dates: Vec<&str> = days.iter().map(|d| d.date.as_str()).collect();
    assert_eq!(dates, vec!["2023-10-01", "2023-9-01"]);
}

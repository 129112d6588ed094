use state_hits::hit::HitResult;
use state_hits::validation::{check_timestamp, validate_hit, ValidationError};

fn timed(date: &str, timestamp: &str) -> HitResult {
    HitResult {
        state: "CA".to_string(),
        hit: 1,
        date: date.to_string(),
        timestamp: Some(timestamp.to_string()),
    }
}

#[test]
fn record_without_timestamp_is_acceptable() {
    let record =
        HitResult { state: "CA".to_string(), hit: 1, date: "2023-01-01".to_string(), timestamp: None };
    assert!(validate_hit(&record).is_ok());
    // Neither the date nor the state is examined.
    let odd = HitResult { state: String::new(), hit: -4, date: "soon".to_string(), timestamp: None };
    assert!(validate_hit(&odd).is_ok());
}

#[test]
fn rfc3339_timestamps_of_the_date_are_acceptable() {
    assert!(validate_hit(&timed("2023-01-01", "2023-01-01T10:00:00Z")).is_ok());
    assert!(validate_hit(&timed("2023-01-01", "2023-01-01T10:00:00+02:00")).is_ok());
    assert!(validate_hit(&timed("2023-01-01", "2023-01-01T10:00:00.123456-08:00")).is_ok());
    assert!(validate_hit(&timed("2023-01-01", "2023-01-01t10:00:00z")).is_ok());
    assert!(validate_hit(&timed("2023-01-01", "2023-01-01 10:00:00Z")).is_ok());
    assert!(validate_hit(&timed("2024-02-29", "2024-02-29T23:59:59Z")).is_ok());
}

#[test]
fn timestamp_of_another_date_is_a_mismatch() {
    match validate_hit(&timed("2023-01-01", "2023-01-02T10:00:00")) {
        Err(ValidationError::DateMismatch { timestamp, date }) => {
            assert_eq!(timestamp, "2023-01-02T10:00:00");
            assert_eq!(date, "2023-01-01");
        }
        other => panic!("expected a date mismatch, got {:?}", other),
    }
    // The date is checked before the parser is asked.
    assert!(matches!(
        validate_hit(&timed("2023-01-01", "2023-01-02T10:00:00Z")),
        Err(ValidationError::DateMismatch { .. })
    ));
    assert!(matches!(
        validate_hit(&timed("2023-01-01", "garbage")),
        Err(ValidationError::DateMismatch { .. })
    ));
    // Shorter than the date.
    assert!(matches!(
        validate_hit(&timed("2023-01-01", "2023-01")),
        Err(ValidationError::DateMismatch { .. })
    ));
    assert!(matches!(
        validate_hit(&timed("2023-01-01", "")),
        Err(ValidationError::DateMismatch { .. })
    ));
}

#[test]
fn timestamp_that_is_no_date_time_is_rejected() {
    match validate_hit(&timed("2023-01-01", "2023-01-01T10:00:00")) {
        Err(ValidationError::NotADateTime { timestamp, reason }) => {
            assert_eq!(timestamp, "2023-01-01T10:00:00");
            assert_eq!(reason, "premature end of input");
        }
        other => panic!("expected a rejection by the parser, got {:?}", other),
    }
    match validate_hit(&timed("2023-01-01", "2023-01-01Txx:00:00Z")) {
        Err(ValidationError::NotADateTime { reason, .. }) => {
            assert_eq!(reason, "input contains invalid characters");
        }
        other => panic!("expected a rejection by the parser, got {:?}", other),
    }
    match validate_hit(&timed("2023-01-01", "2023-01-01T25:00:00Z")) {
        Err(ValidationError::NotADateTime { reason, .. }) => {
            assert_eq!(reason, "input is out of range");
        }
        other => panic!("expected a rejection by the parser, got {:?}", other),
    }
    match validate_hit(&timed("2023-01-01", "2023-01-01T10:00:00Z tomorrow")) {
        Err(ValidationError::NotADateTime { reason, .. }) => {
            assert_eq!(reason, "trailing input");
        }
        other => panic!("expected a rejection by the parser, got {:?}", other),
    }
    // The date alone begins with itself, but is no date-time.
    assert!(matches!(
        validate_hit(&timed("2023-01-01", "2023-01-01")),
        Err(ValidationError::NotADateTime { .. })
    ));
    // A date that does not exist.
    assert!(matches!(
        validate_hit(&timed("2023-02-30", "2023-02-30T10:00:00Z")),
        Err(ValidationError::NotADateTime { .. })
    ));
}

#[test]
fn empty_date_is_a_prefix_of_every_timestamp() {
    assert!(validate_hit(&timed("", "2023-01-01T10:00:00Z")).is_ok());
    assert!(matches!(
        validate_hit(&timed("", "whenever")),
        Err(ValidationError::NotADateTime { .. })
    ));
}

#[test]
fn verdict_follows_what_the_parser_said() {
    assert!(check_timestamp("2023-01-01T10:00:00Z", "2023-01-01", None).is_ok());
    match check_timestamp("2023-01-01T10:00:00Z", "2023-01-01", Some("no good".to_string())) {
        Err(ValidationError::NotADateTime { timestamp, reason }) => {
            assert_eq!(timestamp, "2023-01-01T10:00:00Z");
            assert_eq!(reason, "no good");
        }
        other => panic!("expected a rejection, got {:?}", other),
    }
    match check_timestamp("2023-01-02T10:00:00Z", "2023-01-01", None) {
        Err(ValidationError::DateMismatch { timestamp, date }) => {
            assert_eq!(timestamp, "2023-01-02T10:00:00Z");
            assert_eq!(date, "2023-01-01");
        }
        other => panic!("expected a date mismatch, got {:?}", other),
    }
    assert!(matches!(
        check_timestamp("2023-01-02T10:00:00Z", "2023-01-01", Some("no good".to_string())),
        Err(ValidationError::DateMismatch { .. })
    ));
}

#[test]
fn faults_are_reported_with_their_values() {
    let mismatch = validate_hit(&timed("2023-01-01", "2023-01-02T10:00:00")).unwrap_err();
    assert_eq!(
        mismatch.message(),
        "Timestamp must start with the hit date. Got timestamp '2023-01-02T10:00:00' but date is '2023-01-01'"
    );
    let unparseable = validate_hit(&timed("2023-01-01", "2023-01-01T10:00:00")).unwrap_err();
    assert_eq!(
        unparseable.message(),
        "Timestamp must be valid ISO 8601/RFC 3339 format: premature end of input"
    );
}

//! The rule a submitted timestamp must meet before a record is stored.

use vstd::prelude::*;
use vstd::string::*;
use crate::hit::{text_of, HitResult, HitView};
use crate::text::starts_with;

verus! {

/// Why a date-time parser turns `text` down: `None` where it reads `text` as
/// an RFC 3339 date-time, else the parser's own description of the fault.
pub uninterp spec fn rfc3339_rejection(text: Seq<char>) -> Option<Seq<char>>;

/// Runs `chrono::DateTime::parse_from_rfc3339` on `text`.
///
/// Not proved: that the outcome is the one named by [`rfc3339_rejection`],
/// that is, that the parser's verdict depends on the text alone. The date-time
/// it builds on success is dropped; on failure the error is rendered with its
/// `Display` text.
#[verifier::external_body]
fn parse_rfc3339(text: &str) -> (r: Option<String>)
    ensures
        text_of(r) == rfc3339_rejection(text@),
{
    match chrono::DateTime::parse_from_rfc3339(text) {
        Ok(_) => None,
        Err(e) => Some(e.to_string()),
    }
}

/// A record that the store turns down.
#[derive(Debug)]
pub enum ValidationError {
    /// The timestamp does not begin with the record's date.
    DateMismatch { timestamp: String, date: String },
    /// The timestamp begins with the date but is no date-time.
    NotADateTime { timestamp: String, reason: String },
}

/// What a [`ValidationError`] holds.
pub ghost enum ValidationFault {
    DateMismatch { timestamp: Seq<char>, date: Seq<char> },
    NotADateTime { timestamp: Seq<char>, reason: Seq<char> },
}

impl View for ValidationError {
    type V = ValidationFault;

    open spec fn view(&self) -> ValidationFault {
        match self {
            ValidationError::DateMismatch { timestamp, date } => ValidationFault::DateMismatch {
                timestamp: timestamp@,
                date: date@,
            },
            ValidationError::NotADateTime { timestamp, reason } => ValidationFault::NotADateTime {
                timestamp: timestamp@,
                reason: reason@,
            },
        }
    }
}

/// The fault a validation ended with, if any.
pub open spec fn fault_of(r: Result<(), ValidationError>) -> Option<ValidationFault> {
    match r {
        Ok(_) => None,
        Err(e) => Some(e@),
    }
}

/// The text that reports a fault.
pub open spec fn fault_message(fault: ValidationFault) -> Seq<char> {
    match fault {
        ValidationFault::DateMismatch { timestamp, date } => {
            "Timestamp must start with the hit date. Got timestamp '"@ + timestamp
                + "' but date is '"@ + date + "'"@
        },
        ValidationFault::NotADateTime { timestamp, reason } => {
            "Timestamp must be valid ISO 8601/RFC 3339 format: "@ + reason
        },
    }
}

impl ValidationError {
    /// The report of this fault: which rule was broken, and by what values.
    pub fn message(&self) -> (r: String)
        ensures
            r@ == fault_message(self@),
    {
        match self {
            ValidationError::DateMismatch { timestamp, date } => {
                let mut s = String::from_str(
                    "Timestamp must start with the hit date. Got timestamp '",
                );
                s.append(timestamp.as_str());
                s.append("' but date is '");
                s.append(date.as_str());
                s.append("'");
                s
            },
            ValidationError::NotADateTime { timestamp, reason } => {
                let mut s = String::from_str("Timestamp must be valid ISO 8601/RFC 3339 format: ");
                s.append(reason.as_str());
                s
            },
        }
    }
}

/// The fault of a timestamp submitted for `date`, given what the date-time
/// parser said of it: the date is checked first, the parser's verdict second.
pub open spec fn timestamp_fault(
    timestamp: Seq<char>,
    date: Seq<char>,
    rejection: Option<Seq<char>>,
) -> Option<ValidationFault> {
    if !date.is_prefix_of(timestamp) {
        Some(ValidationFault::DateMismatch { timestamp, date })
    } else {
        match rejection {
            Some(reason) => Some(ValidationFault::NotADateTime { timestamp, reason }),
            None => None,
        }
    }
}

/// The fault of a submitted record: none where it carries no timestamp.
pub open spec fn hit_fault(hit: HitView) -> Option<ValidationFault> {
    match hit.timestamp {
        None => None,
        Some(timestamp) => timestamp_fault(timestamp, hit.date, rfc3339_rejection(timestamp)),
    }
}

/// Whether a submitted record may be stored.
pub open spec fn acceptable(hit: HitView) -> bool {
    hit_fault(hit) is None
}

/// Judges a timestamp submitted for `date`, given in `rejection` what the
/// date-time parser said of it.
pub fn check_timestamp(timestamp: &str, date: &str, rejection: Option<String>) -> (r: Result<
    (),
    ValidationError,
>)
    ensures
        fault_of(r) == timestamp_fault(timestamp@, date@, text_of(rejection)),
{
    if !starts_with(timestamp, date) {
        return Err(
            ValidationError::DateMismatch {
                timestamp: timestamp.to_owned(),
                date: date.to_owned(),
            },
        );
    }
    match rejection {
        Some(reason) => Err(
            ValidationError::NotADateTime { timestamp: timestamp.to_owned(), reason },
        ),
        None => Ok(()),
    }
}

/// Judges a submitted record: one without a timestamp passes; one with a
/// timestamp passes where the timestamp begins with the record's date and
/// reads as an RFC 3339 date-time.
pub fn validate_hit(hit: &HitResult) -> (r: Result<(), ValidationError>)
    ensures
        fault_of(r) == hit_fault(hit@),
{
    match &hit.timestamp {
        None => Ok(()),
        Some(timestamp) => {
            let rejection = parse_rfc3339(timestamp.as_str());
            check_timestamp(timestamp.as_str(), hit.date.as_str(), rejection)
        },
    }
}

} // verus!

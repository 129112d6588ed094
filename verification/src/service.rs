//! What the two endpoints ask of the store: the token that guards writes, a
//! write, and the roll-up of a range.

use vstd::prelude::*;
use crate::aggregate::{
    aggregate, day_views, distinct_states, is_aggregation, AggregatedResult, DayView,
};
use crate::hit::{hit_views, HitResult, HitView};
use crate::store::{is_listing, latest_in, stored, HitStore};
use crate::text::same_text;
use crate::validation::{hit_fault, ValidationError};

verus! {

/// A write without the right token.
#[derive(Debug, Clone, Copy, PartialEq, Eq, Structural)]
pub enum AuthError {
    /// No token was presented, or not the configured one.
    InvalidOrMissingToken,
}

impl AuthError {
    /// The report of this fault.
    pub fn message(&self) -> (r: &'static str)
        ensures
            r@ == "Invalid or missing access token"@,
    {
        "Invalid or missing access token"
    }
}

/// A token was presented, and it is the configured one.
pub open spec fn authorized(presented: Option<&str>, token: &str) -> bool {
    presented is Some && presented->0@ == token@
}

/// Lets a write pass where the presented token is exactly `token`.
pub fn verify_token(presented: Option<&str>, token: &str) -> (r: Result<(), AuthError>)
    ensures
        r is Ok <==> authorized(presented, token),
{
    match presented {
        Some(given) => {
            if same_text(given, token) {
                Ok(())
            } else {
                Err(AuthError::InvalidOrMissingToken)
            }
        },
        None => Err(AuthError::InvalidOrMissingToken),
    }
}

/// Why a write was not made.
#[derive(Debug)]
pub enum AddResultError {
    /// The token was missing or wrong; the record was not looked at.
    Unauthorized(AuthError),
    /// The record was turned down.
    Rejected(ValidationError),
}

/// `days` is the roll-up of what a range read of `log` returns.
pub open spec fn is_summary(
    log: Seq<HitView>,
    start: Seq<char>,
    end: Seq<char>,
    days: Seq<DayView>,
) -> bool {
    exists|rows: Seq<HitView>| #[trigger]
        is_listing(log, latest_in(log, start, end), rows) && is_aggregation(rows, days)
}

/// The days between `start_date` and `end_date`, both included: for each, the
/// latest count of each state and their sum.
pub fn get_hits(store: &HitStore, start_date: &str, end_date: &str) -> (out: Vec<AggregatedResult>)
    ensures
        is_summary(store@, start_date@, end_date@, day_views(out@)),
        forall|k: int| 0 <= k < out@.len() ==> distinct_states((#[trigger] out@[k]).by_states@),
{
    let rows = store.get_hits_in_range(start_date, end_date);
    let out = aggregate(&rows);
    assert(is_listing(store@, latest_in(store@, start_date@, end_date@), hit_views(rows@)));
    out
}

/// A guarded write: with the right token and an acceptable record, the record
/// is appended and handed back; else nothing is appended.
pub fn add_result(store: &mut HitStore, presented: Option<&str>, token: &str, hit: HitResult) -> (r:
    Result<HitResult, AddResultError>)
    ensures
        !authorized(presented, token) ==> r matches Err(AddResultError::Unauthorized(_)),
        authorized(presented, token) ==> match hit_fault(hit@) {
            Some(fault) => r matches Err(AddResultError::Rejected(e)) && e@ == fault,
            None => r == Ok::<HitResult, AddResultError>(hit),
        },
        r is Err ==> final(store)@ == old(store)@,
        r is Ok ==> exists|now: Seq<char>|
            final(store)@ == old(store)@.push(#[trigger] stored(hit@, now)),
{
    match verify_token(presented, token) {
        Err(e) => Err(AddResultError::Unauthorized(e)),
        Ok(_) => match store.add_hit(&hit) {
            Err(e) => Err(AddResultError::Rejected(e)),
            Ok(_) => Ok(hit),
        },
    }
}

} // verus!

//! The record of one submission.

use vstd::prelude::*;

verus! {

/// One submitted count: how many hits a state had on a date.
#[derive(Debug)]
pub struct HitResult {
    /// Short code of the state.
    pub state: String,
    /// The count.
    pub hit: i32,
    /// The calendar date, as `YYYY-MM-DD`.
    pub date: String,
    /// When the count was submitted; absent until the store assigns it.
    pub timestamp: Option<String>,
}

/// What a [`HitResult`] holds.
pub ghost struct HitView {
    pub state: Seq<char>,
    pub hit: int,
    pub date: Seq<char>,
    pub timestamp: Option<Seq<char>>,
}

/// The text of an optional string.
pub open spec fn text_of(s: Option<String>) -> Option<Seq<char>> {
    match s {
        Some(t) => Some(t@),
        None => None,
    }
}

impl View for HitResult {
    type V = HitView;

    open spec fn view(&self) -> HitView {
        HitView {
            state: self.state@,
            hit: self.hit as int,
            date: self.date@,
            timestamp: text_of(self.timestamp),
        }
    }
}

/// What a sequence of records holds, record by record.
pub open spec fn hit_views(rows: Seq<HitResult>) -> Seq<HitView> {
    Seq::new(rows.len(), |i: int| rows[i]@)
}

impl Clone for HitResult {
    fn clone(&self) -> (r: HitResult)
        ensures
            r == *self,
    {
        let timestamp = match &self.timestamp {
            Some(t) => Some(t.clone()),
            None => None,
        };
        HitResult {
            state: self.state.clone(),
            hit: self.hit,
            date: self.date.clone(),
            timestamp,
        }
    }
}

impl HitResult {
    /// The same record with `timestamp` as its time of submission.
    pub fn stamped(&self, timestamp: String) -> (r: HitResult)
        ensures
            r@ == (HitView { timestamp: Some(timestamp@), ..self@ }),
    {
        HitResult {
            state: self.state.clone(),
            hit: self.hit,
            date: self.date.clone(),
            timestamp: Some(timestamp),
        }
    }
}

} // verus!

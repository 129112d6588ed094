//! The append-only log of submitted records, and the two ways to read it.
//!
//! Nothing is ever changed or removed. The latest value of a date and state
//! is the row with the greatest timestamp among the rows of that date and
//! state; of rows with the same timestamp, the one appended last.

use vstd::prelude::*;
use vstd::string::*;
use crate::hit::{hit_views, text_of, HitResult, HitView};
use crate::text::{comes_before, lemma_text_le_lt, lemma_text_not_lt, text_le, text_lt};
use crate::validation::{fault_of, hit_fault, validate_hit, ValidationError};

verus! {

/// Timestamp `a` is no later than `b`. A row without a timestamp is older
/// than any row with one.
pub open spec fn stamp_le(a: Option<Seq<char>>, b: Option<Seq<char>>) -> bool {
    match (a, b) {
        (None, _) => true,
        (Some(_), None) => false,
        (Some(x), Some(y)) => text_le(x, y),
    }
}

/// Timestamp `a` is earlier than `b`.
pub open spec fn stamp_lt(a: Option<Seq<char>>, b: Option<Seq<char>>) -> bool {
    !stamp_le(b, a)
}

/// Two rows speak of the same state on the same date.
pub open spec fn same_key(a: HitView, b: HitView) -> bool {
    a.date == b.date && a.state == b.state
}

/// The row's date lies between `start` and `end`, both included.
pub open spec fn in_range(row: HitView, start: Seq<char>, end: Seq<char>) -> bool {
    text_le(start, row.date) && text_le(row.date, end)
}

/// Row `j` does not displace row `i`: it is older, or as old and not
/// appended after it.
pub open spec fn yields_to(log: Seq<HitView>, j: int, i: int) -> bool {
    if j <= i {
        stamp_le(log[j].timestamp, log[i].timestamp)
    } else {
        stamp_lt(log[j].timestamp, log[i].timestamp)
    }
}

/// Row `i` is the latest of its date and state.
pub open spec fn is_latest(log: Seq<HitView>, i: int) -> bool {
    forall|j: int| 0 <= j < log.len() && same_key(log[j], log[i]) ==> #[trigger] yields_to(log, j, i)
}

/// The rows a range read returns: the latest of each date and state, where
/// the date lies in the range.
pub open spec fn latest_in(log: Seq<HitView>, start: Seq<char>, end: Seq<char>) -> spec_fn(
    int,
) -> bool {
    |i: int| in_range(log[i], start, end) && is_latest(log, i)
}

/// The rows a full read returns: all of them.
pub open spec fn every_row() -> spec_fn(int) -> bool {
    |i: int| true
}

/// Row `a` is listed before row `b`: its date is earlier, or the dates are
/// the same and it was appended first.
pub open spec fn listed_before(log: Seq<HitView>, a: int, b: int) -> bool {
    text_lt(log[a].date, log[b].date) || (log[a].date == log[b].date && a < b)
}

/// `picks` holds the positions of exactly the chosen rows of `log`, each
/// once, by ascending date and, within a date, in the order of appending.
pub open spec fn lists(log: Seq<HitView>, chosen: spec_fn(int) -> bool, picks: Seq<int>) -> bool {
    &&& forall|k: int|
        0 <= k < picks.len() ==> 0 <= #[trigger] picks[k] < log.len() && chosen(picks[k])
    &&& forall|i: int| 0 <= i < log.len() && #[trigger] chosen(i) ==> picks.contains(i)
    &&& forall|k: int, l: int|
        0 <= k < l < picks.len() ==> listed_before(log, #[trigger] picks[k], #[trigger] picks[l])
}

/// The rows of `log` at the positions `picks`.
pub open spec fn rows_at(log: Seq<HitView>, picks: Seq<int>) -> Seq<HitView> {
    Seq::new(picks.len(), |k: int| log[picks[k]])
}

/// `out` is the listing of the chosen rows of `log`.
pub open spec fn is_listing(log: Seq<HitView>, chosen: spec_fn(int) -> bool, out: Seq<HitView>) -> bool {
    exists|picks: Seq<int>| #[trigger] lists(log, chosen, picks) && out == rows_at(log, picks)
}

/// A submitted record as the store keeps it: with its own timestamp, or with
/// `now` where it has none.
pub open spec fn stored(hit: HitView, now: Seq<char>) -> HitView {
    HitView {
        timestamp: Some(
            match hit.timestamp {
                Some(t) => t,
                None => now,
            },
        ),
        ..hit
    }
}

/// Whether timestamp `a` is no later than `b`.
fn no_later(a: &Option<String>, b: &Option<String>) -> (r: bool)
    ensures
        r == stamp_le(text_of(*a), text_of(*b)),
{
    match a {
        None => true,
        Some(x) => match b {
            None => false,
            Some(y) => {
                proof {
                    lemma_text_not_lt(x@, y@);
                }
                !comes_before(y.as_str(), x.as_str())
            },
        },
    }
}

/// Whether row `i` is the latest of its date and state.
fn row_is_latest(rows: &Vec<HitResult>, i: usize) -> (r: bool)
    requires
        i < rows.len(),
    ensures
        r == is_latest(hit_views(rows@), i as int),
{
    let ghost log = hit_views(rows@);
    let mut j: usize = 0;
    while j < rows.len()
        invariant
            i < rows.len(),
            j <= rows.len(),
            log == hit_views(rows@),
            forall|m: int| 0 <= m < j && same_key(log[m], log[i as int]) ==> #[trigger] yields_to(log, m, i as int),
        decreases rows.len() - j,
    {
        if rows[j].date == rows[i].date && rows[j].state == rows[i].state {
            let ok = if j <= i {
                no_later(&rows[j].timestamp, &rows[i].timestamp)
            } else {
                !no_later(&rows[i].timestamp, &rows[j].timestamp)
            };
            if !ok {
                assert(same_key(log[j as int], log[i as int]));
                assert(!yields_to(log, j as int, i as int));
                return false;
            }
        }
        j += 1;
    }
    true
}

/// Puts `row` behind the rows of `out` whose date is not later than its own.
fn place_by_date(out: &mut Vec<HitResult>, row: HitResult) -> (p: usize)
    requires
        forall|k: int, l: int|
            0 <= k < l < old(out)@.len() ==> text_le(
                (#[trigger] old(out)@[k])@.date,
                (#[trigger] old(out)@[l])@.date,
            ),
    ensures
        p <= old(out)@.len(),
        final(out)@ == old(out)@.insert(p as int, row),
        forall|k: int| 0 <= k < p ==> text_le((#[trigger] old(out)@[k])@.date, row@.date),
        forall|k: int| p <= k < old(out)@.len() ==> text_lt(row@.date, (#[trigger] old(out)@[k])@.date),
{
    let ghost before = out@;
    let mut p: usize = 0;
    while p < out.len()
        invariant
            out@ == before,
            p <= before.len(),
            forall|k: int| 0 <= k < p ==> text_le((#[trigger] before[k])@.date, row@.date),
        ensures
            p <= before.len(),
            p < before.len() ==> text_lt(row@.date, before[p as int]@.date),
        decreases out.len() - p,
    {
        if comes_before(row.date.as_str(), out[p].date.as_str()) {
            break;
        }
        proof {
            lemma_text_not_lt(before[p as int]@.date, row@.date);
        }
        p += 1;
    }
    proof {
        assert forall|k: int| p <= k < before.len() implies text_lt(
            row@.date,
            (#[trigger] before[k])@.date,
        ) by {
            if k > p {
                lemma_text_le_lt(row@.date, before[p as int]@.date, before[k]@.date);
            }
        }
    }
    out.insert(p, row);
    p
}

/// The rows that a read returns: every row, or the latest rows in a range.
spec fn wanted(log: Seq<HitView>, latest_only: bool, start: Seq<char>, end: Seq<char>) -> spec_fn(
    int,
) -> bool {
    |i: int| !latest_only || latest_in(log, start, end)(i)
}

/// The wanted rows among the first `bound` rows.
spec fn wanted_below(
    log: Seq<HitView>,
    latest_only: bool,
    start: Seq<char>,
    end: Seq<char>,
    bound: int,
) -> spec_fn(int) -> bool {
    |i: int| i < bound && wanted(log, latest_only, start, end)(i)
}

/// A listing depends on which rows are chosen, not on how the choice is
/// written.
pub proof fn lemma_lists_same_choice(
    log: Seq<HitView>,
    a: spec_fn(int) -> bool,
    b: spec_fn(int) -> bool,
    picks: Seq<int>,
)
    requires
        lists(log, a, picks),
        forall|i: int| #![trigger a(i)] #![trigger b(i)] 0 <= i < log.len() ==> a(i) == b(i),
    ensures
        lists(log, b, picks),
{
    assert forall|i: int| 0 <= i < log.len() && #[trigger] b(i) implies picks.contains(i) by {
        assert(a(i));
    }
}

/// Adding the row `i`, appended after every listed row, to a listing: it
/// goes behind the listed rows whose date is not later than its own.
proof fn lemma_lists_insert(
    log: Seq<HitView>,
    before: spec_fn(int) -> bool,
    after: spec_fn(int) -> bool,
    picks: Seq<int>,
    p: int,
    i: int,
)
    requires
        lists(log, before, picks),
        0 <= i < log.len(),
        0 <= p <= picks.len(),
        forall|j: int| #![trigger after(j)] 0 <= j < log.len() ==> after(j) == (before(j) || j == i),
        forall|k: int| 0 <= k < picks.len() ==> #[trigger] picks[k] < i,
        forall|k: int| 0 <= k < p ==> text_le(log[#[trigger] picks[k]].date, log[i].date),
        forall|k: int| p <= k < picks.len() ==> text_lt(log[i].date, log[#[trigger] picks[k]].date),
    ensures
        lists(log, after, picks.insert(p, i)),
        rows_at(log, picks.insert(p, i)) == rows_at(log, picks).insert(p, log[i]),
{
    let grown = picks.insert(p, i);
    assert forall|k: int| 0 <= k < grown.len() implies 0 <= #[trigger] grown[k] < log.len()
        && after(grown[k]) by {
        if k < p {
            assert(grown[k] == picks[k]);
        } else if k > p {
            assert(grown[k] == picks[k - 1]);
        }
    }
    assert forall|j: int| 0 <= j < log.len() && #[trigger] after(j) implies grown.contains(j) by {
        if j == i {
            assert(grown[p] == i);
        } else {
            assert(before(j));
            let k = choose|k: int| 0 <= k < picks.len() && picks[k] == j;
            if k < p {
                assert(grown[k] == j);
            } else {
                assert(grown[k + 1] == j);
            }
        }
    }
    assert forall|k: int, l: int| 0 <= k < l < grown.len() implies listed_before(
        log,
        #[trigger] grown[k],
        #[trigger] grown[l],
    ) by {
        if l < p {
            assert(grown[k] == picks[k] && grown[l] == picks[l]);
        } else if l == p {
            assert(grown[k] == picks[k]);
        } else if k < p {
            assert(grown[k] == picks[k] && grown[l] == picks[l - 1]);
        } else if k == p {
            assert(grown[l] == picks[l - 1]);
        } else {
            assert(grown[k] == picks[k - 1] && grown[l] == picks[l - 1]);
        }
    }
    assert(rows_at(log, grown) =~= rows_at(log, picks).insert(p, log[i]));
}

/// Reads the clock with `chrono::Utc::now` and renders it as
/// `YYYY-MM-DD HH:MM:SS`.
///
/// Nothing is claimed of the text: it differs from call to call.
#[verifier::external_body]
fn current_timestamp() -> String {
    chrono::Utc::now().format("%Y-%m-%d %H:%M:%S").to_string()
}

/// The log of submitted records.
pub struct HitStore {
    rows: Vec<HitResult>,
}

impl View for HitStore {
    type V = Seq<HitView>;

    /// The rows, in the order in which they were appended.
    closed spec fn view(&self) -> Seq<HitView> {
        hit_views(self.rows@)
    }
}

impl HitStore {
    /// A store without rows.
    pub fn new() -> (s: HitStore)
        ensures
            s@ == Seq::<HitView>::empty(),
    {
        let s = HitStore { rows: Vec::new() };
        assert(s@ =~= Seq::<HitView>::empty());
        s
    }

    /// A store that holds `rows`, taken as they are, in their order.
    pub fn from_rows(rows: Vec<HitResult>) -> (s: HitStore)
        ensures
            s@ == hit_views(rows@),
    {
        HitStore { rows }
    }

    /// The number of rows.
    pub fn len(&self) -> (n: usize)
        ensures
            n == self@.len(),
    {
        self.rows.len()
    }

    /// Appends `hit` where it is acceptable, with `now` as its timestamp
    /// where it has none; turns it down, and appends nothing, where it is not.
    pub fn add_hit_at(&mut self, hit: &HitResult, now: String) -> (r: Result<(), ValidationError>)
        ensures
            fault_of(r) == hit_fault(hit@),
            r is Ok ==> final(self)@ == old(self)@.push(stored(hit@, now@)),
            r is Err ==> final(self)@ == old(self)@,
    {
        match validate_hit(hit) {
            Err(e) => Err(e),
            Ok(_) => {
                let row = match &hit.timestamp {
                    Some(_) => hit.clone(),
                    None => hit.stamped(now),
                };
                self.rows.push(row);
                assert(self@ =~= old(self)@.push(stored(hit@, now@)));
                Ok(())
            },
        }
    }

    /// Appends `hit` where it is acceptable, with the time of the call as its
    /// timestamp where it has none; turns it down, and appends nothing, where
    /// it is not.
    pub fn add_hit(&mut self, hit: &HitResult) -> (r: Result<(), ValidationError>)
        ensures
            fault_of(r) == hit_fault(hit@),
            r is Ok ==> exists|now: Seq<char>|
                final(self)@ == old(self)@.push(#[trigger] stored(hit@, now)),
            r is Err ==> final(self)@ == old(self)@,
    {
        let now = current_timestamp();
        let ghost at = now@;
        let r = self.add_hit_at(hit, now);
        proof {
            if r is Ok {
                assert(self@ == old(self)@.push(stored(hit@, at)));
            }
        }
        r
    }

    /// The wanted rows, by ascending date and, within a date, in the order
    /// of appending.
    fn collect(&self, latest_only: bool, start: &str, end: &str) -> (out: Vec<HitResult>)
        ensures
            is_listing(self@, wanted(self@, latest_only, start@, end@), hit_views(out@)),
    {
        let ghost log = self@;
        let mut out: Vec<HitResult> = Vec::new();
        let ghost mut picks: Seq<int> = Seq::empty();
        let mut i: usize = 0;
        proof {
            assert(hit_views(out@) =~= rows_at(log, picks));
        }
        while i < self.rows.len()
            invariant
                log == hit_views(self.rows@),
                i <= self.rows.len(),
                lists(log, wanted_below(log, latest_only, start@, end@, i as int), picks),
                hit_views(out@) == rows_at(log, picks),
                out@.len() == picks.len(),
            decreases self.rows.len() - i,
        {
            let ghost before = wanted_below(log, latest_only, start@, end@, i as int);
            let ghost after = wanted_below(log, latest_only, start@, end@, i + 1);
            let date = self.rows[i].date.as_str();
            proof {
                lemma_text_not_lt(start@, date@);
                lemma_text_not_lt(date@, end@);
            }
            assert(hit_views(out@).len() == rows_at(log, picks).len());
            let take = !latest_only || (!comes_before(date, start) && !comes_before(end, date)
                && row_is_latest(&self.rows, i));
            assert(take == wanted(log, latest_only, start@, end@)(i as int));
            if take {
                let row = self.rows[i].clone();
                proof {
                    assert forall|k: int, l: int| 0 <= k < l < out@.len() implies text_le(
                        (#[trigger] out@[k])@.date,
                        (#[trigger] out@[l])@.date,
                    ) by {
                        assert(hit_views(out@)[k] == rows_at(log, picks)[k]);
                        assert(hit_views(out@)[l] == rows_at(log, picks)[l]);
                        assert(listed_before(log, picks[k], picks[l]));
                    }
                }
                let ghost listed = out@;
                let p = place_by_date(&mut out, row);
                proof {
                    assert forall|k: int| 0 <= k < p implies text_le(
                        log[#[trigger] picks[k]].date,
                        log[i as int].date,
                    ) by {
                        assert(hit_views(listed)[k] == rows_at(log, picks)[k]);
                    }
                    assert forall|k: int| p <= k < picks.len() implies text_lt(
                        log[i as int].date,
                        log[#[trigger] picks[k]].date,
                    ) by {
                        assert(hit_views(listed)[k] == rows_at(log, picks)[k]);
                    }
                    lemma_lists_insert(log, before, after, picks, p as int, i as int);
                    assert(hit_views(out@) =~= hit_views(listed).insert(p as int, row@));
                    picks = picks.insert(p as int, i as int);
                }
            } else {
                proof {
                    lemma_lists_same_choice(log, before, after, picks);
                }
            }
            i += 1;
        }
        proof {
            lemma_lists_same_choice(
                log,
                wanted_below(log, latest_only, start@, end@, i as int),
                wanted(log, latest_only, start@, end@),
                picks,
            );
        }
        out
    }

    /// Every row ever appended, by ascending date; rows of one date in the
    /// order in which they were appended.
    pub fn get_all_hit_results(&self) -> (out: Vec<HitResult>)
        ensures
            is_listing(self@, every_row(), hit_views(out@)),
    {
        let out = self.collect(false, "", "");
        proof {
            let picks = choose|picks: Seq<int>| #[trigger]
                lists(self@, wanted(self@, false, ""@, ""@), picks) && hit_views(out@) == rows_at(
                    self@,
                    picks,
                );
            lemma_lists_same_choice(self@, wanted(self@, false, ""@, ""@), every_row(), picks);
        }
        out
    }

    /// For each date and state with a row whose date lies between
    /// `start_date` and `end_date`, both included, the latest row; by
    /// ascending date, rows of one date in the order in which they were
    /// appended. No row in the range gives an empty result.
    pub fn get_hits_in_range(&self, start_date: &str, end_date: &str) -> (out: Vec<HitResult>)
        ensures
            is_listing(self@, latest_in(self@, start_date@, end_date@), hit_views(out@)),
    {
        let out = self.collect(true, start_date, end_date);
        proof {
            let picks = choose|picks: Seq<int>| #[trigger]
                lists(self@, wanted(self@, true, start_date@, end_date@), picks) && hit_views(out@)
                    == rows_at(self@, picks);
            lemma_lists_same_choice(
                self@,
                wanted(self@, true, start_date@, end_date@),
                latest_in(self@, start_date@, end_date@),
                picks,
            );
        }
        out
    }
}

} // verus!

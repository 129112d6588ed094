//! The daily roll-up of a flat list of records.
//!
//! The list is meant to hold one record for each date and state, as a range
//! read returns it. Where it holds more, every record counts towards the
//! day's total, and the last record of a state gives the state's count.

use vstd::prelude::*;
use vstd::string::*;
use crate::hit::{hit_views, HitResult, HitView};
use crate::text::{
    comes_before, lemma_text_lt_asymmetric, lemma_text_lt_total, lemma_text_lt_transitive,
    same_text, text_lt,
};

verus! {

/// The hits of one date: their sum, and the count of each state.
#[derive(Debug)]
pub struct AggregatedResult {
    /// The calendar date.
    pub date: String,
    /// The sum of the counts of the date's records. It is wide enough to
    /// hold the sum of any list of records.
    pub total_hits: i128,
    /// Each state of the date with its count, no state twice.
    pub by_states: Vec<(String, i32)>,
}

/// What an [`AggregatedResult`] holds.
pub ghost struct DayView {
    pub date: Seq<char>,
    pub total_hits: int,
    pub by_states: Map<Seq<char>, int>,
}

/// Some entry of `pairs` is for `state`.
pub open spec fn listed(pairs: Seq<(String, i32)>, state: Seq<char>) -> bool {
    exists|k: int| 0 <= k < pairs.len() && (#[trigger] pairs[k]).0@ == state
}

/// The place of an entry for `state`.
pub open spec fn place_of(pairs: Seq<(String, i32)>, state: Seq<char>) -> int {
    choose|k: int| 0 <= k < pairs.len() && (#[trigger] pairs[k]).0@ == state
}

/// No state has two entries.
pub open spec fn distinct_states(pairs: Seq<(String, i32)>) -> bool {
    forall|k: int, l: int|
        0 <= k < l < pairs.len() ==> (#[trigger] pairs[k]).0@ != (#[trigger] pairs[l]).0@
}

/// The mapping from each listed state to its count.
pub open spec fn states_map(pairs: Seq<(String, i32)>) -> Map<Seq<char>, int> {
    Map::new(
        |state: Seq<char>| listed(pairs, state),
        |state: Seq<char>| pairs[place_of(pairs, state)].1 as int,
    )
}

impl View for AggregatedResult {
    type V = DayView;

    open spec fn view(&self) -> DayView {
        DayView {
            date: self.date@,
            total_hits: self.total_hits as int,
            by_states: states_map(self.by_states@),
        }
    }
}

impl AggregatedResult {
    /// The count of `state` on this day, if the day has one.
    pub fn hits_of(&self, state: &str) -> (r: Option<i32>)
        ensures
            r is Some <==> listed(self.by_states@, state@),
            r is Some && distinct_states(self.by_states@) ==> self@.by_states[state@] == r->0,
    {
        let mut k: usize = 0;
        while k < self.by_states.len()
            invariant
                k <= self.by_states@.len(),
                forall|m: int| 0 <= m < k ==> (#[trigger] self.by_states@[m]).0@ != state@,
            decreases self.by_states.len() - k,
        {
            if same_text(self.by_states[k].0.as_str(), state) {
                proof {
                    if distinct_states(self.by_states@) {
                        lemma_states_map_entry(self.by_states@, k as int);
                    }
                }
                return Some(self.by_states[k].1);
            }
            k += 1;
        }
        None
    }
}

/// What a sequence of days holds, day by day.
pub open spec fn day_views(days: Seq<AggregatedResult>) -> Seq<DayView> {
    Seq::new(days.len(), |k: int| days[k]@)
}

/// The sum of the counts of the records of `date`.
pub open spec fn total_on(records: Seq<HitView>, date: Seq<char>) -> int
    decreases records.len(),
{
    if records.len() == 0 {
        0
    } else if records.last().date == date {
        total_on(records.drop_last(), date) + records.last().hit
    } else {
        total_on(records.drop_last(), date)
    }
}

/// The count of each state on `date`: that of the state's last record of
/// that date.
pub open spec fn states_on(records: Seq<HitView>, date: Seq<char>) -> Map<Seq<char>, int>
    decreases records.len(),
{
    if records.len() == 0 {
        Map::empty()
    } else if records.last().date == date {
        states_on(records.drop_last(), date).insert(records.last().state, records.last().hit)
    } else {
        states_on(records.drop_last(), date)
    }
}

/// The roll-up of the records of `date`.
pub open spec fn day_of(records: Seq<HitView>, date: Seq<char>) -> DayView {
    DayView { date, total_hits: total_on(records, date), by_states: states_on(records, date) }
}

/// Some record is of `date`.
pub open spec fn has_date(records: Seq<HitView>, date: Seq<char>) -> bool {
    exists|i: int| 0 <= i < records.len() && (#[trigger] records[i]).date == date
}

/// Some day is `date`.
pub open spec fn has_day(days: Seq<DayView>, date: Seq<char>) -> bool {
    exists|k: int| 0 <= k < days.len() && (#[trigger] days[k]).date == date
}

/// `days` is the roll-up of `records`: one day for each date that occurs,
/// by ascending date, each the roll-up of the records of its date.
pub open spec fn is_aggregation(records: Seq<HitView>, days: Seq<DayView>) -> bool {
    &&& forall|k: int, l: int|
        0 <= k < l < days.len() ==> text_lt((#[trigger] days[k]).date, (#[trigger] days[l]).date)
    &&& forall|k: int|
        0 <= k < days.len() ==> has_date(records, (#[trigger] days[k]).date) && days[k] == day_of(
            records,
            days[k].date,
        )
    &&& forall|i: int| 0 <= i < records.len() ==> has_day(days, (#[trigger] records[i]).date)
}

/// An entry of a list without repeated states is found under its state.
pub proof fn lemma_states_map_entry(pairs: Seq<(String, i32)>, k: int)
    requires
        distinct_states(pairs),
        0 <= k < pairs.len(),
    ensures
        states_map(pairs).dom().contains(pairs[k].0@),
        states_map(pairs)[pairs[k].0@] == pairs[k].1,
{
    let state = pairs[k].0@;
    assert(listed(pairs, state));
    let found = place_of(pairs, state);
    assert(pairs[found].0@ == state);
    if found < k {
        assert(pairs[found].0@ != pairs[k].0@);
    } else if k < found {
        assert(pairs[k].0@ != pairs[found].0@);
    }
}

/// Records of other dates do not touch a day.
pub proof fn lemma_day_without_records(records: Seq<HitView>, date: Seq<char>)
    requires
        !has_date(records, date),
    ensures
        total_on(records, date) == 0,
        states_on(records, date) == Map::<Seq<char>, int>::empty(),
    decreases records.len(),
{
    if records.len() > 0 {
        let rest = records.drop_last();
        assert(records.last() == records[records.len() - 1]);
        assert forall|i: int| 0 <= i < rest.len() implies (#[trigger] rest[i]).date != date by {
            assert(rest[i] == records[i]);
        }
        lemma_day_without_records(rest, date);
    }
}

/// A day's total of `n` records lies within `n` times the bounds of a count.
pub proof fn lemma_total_is_bounded(records: Seq<HitView>, date: Seq<char>)
    requires
        forall|i: int|
            0 <= i < records.len() ==> i32::MIN <= (#[trigger] records[i]).hit <= i32::MAX,
    ensures
        -0x8000_0000 * records.len() <= total_on(records, date) <= 0x8000_0000 * records.len(),
    decreases records.len(),
{
    if records.len() > 0 {
        let rest = records.drop_last();
        assert(records.last() == records[records.len() - 1]);
        assert forall|i: int| 0 <= i < rest.len() implies i32::MIN <= (#[trigger] rest[i]).hit
            <= i32::MAX by {
            assert(rest[i] == records[i]);
        }
        lemma_total_is_bounded(rest, date);
    }
}

/// Sets the count of `state` to `hit`, in its entry or in a new one.
fn set_state(pairs: &mut Vec<(String, i32)>, state: &String, hit: i32)
    requires
        distinct_states(old(pairs)@),
    ensures
        distinct_states(final(pairs)@),
        states_map(final(pairs)@) == states_map(old(pairs)@).insert(state@, hit as int),
{
    let ghost before = pairs@;
    let mut k: usize = 0;
    while k < pairs.len()
        invariant
            pairs@ == before,
            k <= before.len(),
            forall|m: int| 0 <= m < k ==> (#[trigger] before[m]).0@ != state@,
        ensures
            pairs@ == before,
            k <= before.len(),
            k < before.len() ==> before[k as int].0@ == state@,
            forall|m: int| 0 <= m < k ==> (#[trigger] before[m]).0@ != state@,
        decreases pairs.len() - k,
    {
        if pairs[k].0 == *state {
            break;
        }
        k += 1;
    }
    if k < pairs.len() {
        let (name, _) = pairs.remove(k);
        pairs.insert(k, (name, hit));
        proof {
            let after = pairs@;
            assert(after =~= before.update(k as int, (name, hit)));
            assert forall|a: int, b: int| 0 <= a < b < after.len() implies (#[trigger] after[a]).0@
                != (#[trigger] after[b]).0@ by {
                assert(after[a].0@ == before[a].0@ && after[b].0@ == before[b].0@);
            }
            assert forall|s: Seq<char>| listed(after, s) == (listed(before, s) || s == state@) by {
                if listed(after, s) {
                    let m = place_of(after, s);
                    assert(before[m].0@ == s);
                }
                if listed(before, s) {
                    let m = place_of(before, s);
                    assert(after[m].0@ == s);
                }
                if s == state@ {
                    assert(after[k as int].0@ == s);
                }
            }
            assert forall|s: Seq<char>| listed(after, s) implies #[trigger] states_map(after)[s]
                == states_map(before).insert(state@, hit as int)[s] by {
                let m = place_of(after, s);
                lemma_states_map_entry(after, m);
                if s != state@ {
                    assert(before[m].0@ == s);
                    lemma_states_map_entry(before, m);
                }
            }
            assert(states_map(after) =~= states_map(before).insert(state@, hit as int));
        }
    } else {
        pairs.push((state.clone(), hit));
        proof {
            let after = pairs@;
            let last = before.len() as int;
            assert forall|a: int, b: int| 0 <= a < b < after.len() implies (#[trigger] after[a]).0@
                != (#[trigger] after[b]).0@ by {
                assert(after[a] == before[a]);
                if b < last {
                    assert(after[b] == before[b]);
                }
            }
            assert forall|s: Seq<char>| listed(after, s) == (listed(before, s) || s == state@) by {
                if listed(after, s) {
                    let m = place_of(after, s);
                    if m < last {
                        assert(before[m].0@ == s);
                    }
                }
                if listed(before, s) {
                    let m = place_of(before, s);
                    assert(after[m].0@ == s);
                }
                if s == state@ {
                    assert(after[last].0@ == s);
                }
            }
            assert forall|s: Seq<char>| listed(after, s) implies #[trigger] states_map(after)[s]
                == states_map(before).insert(state@, hit as int)[s] by {
                let m = place_of(after, s);
                lemma_states_map_entry(after, m);
                if s != state@ {
                    assert(after[m] == before[m]);
                    lemma_states_map_entry(before, m);
                }
            }
            assert(states_map(after) =~= states_map(before).insert(state@, hit as int));
        }
    }
}

/// What one more record does to the roll-up of a date.
pub proof fn lemma_day_step(seen: Seq<HitView>, record: HitView, date: Seq<char>)
    ensures
        record.date == date ==> day_of(seen.push(record), date) == (DayView {
            date,
            total_hits: total_on(seen, date) + record.hit,
            by_states: states_on(seen, date).insert(record.state, record.hit),
        }),
        record.date != date ==> day_of(seen.push(record), date) == day_of(seen, date),
        has_date(seen.push(record), date) == (has_date(seen, date) || record.date == date),
{
    let grown = seen.push(record);
    assert(grown.drop_last() =~= seen);
    assert(grown.last() == record);
    if has_date(seen, date) {
        let i = choose|i: int| 0 <= i < seen.len() && (#[trigger] seen[i]).date == date;
        assert(grown[i].date == date);
    }
    if record.date == date {
        assert(grown[seen.len() as int].date == date);
    }
    if has_date(grown, date) {
        let i = choose|i: int| 0 <= i < grown.len() && (#[trigger] grown[i]).date == date;
        if i < seen.len() {
            assert(seen[i].date == date);
        }
    }
}

/// A record of a date that has its day changes that day only.
proof fn lemma_aggregation_update(
    seen: Seq<HitView>,
    record: HitView,
    days: Seq<DayView>,
    p: int,
    day: DayView,
)
    requires
        is_aggregation(seen, days),
        0 <= p < days.len(),
        days[p].date == record.date,
        day == (DayView {
            date: record.date,
            total_hits: days[p].total_hits + record.hit,
            by_states: days[p].by_states.insert(record.state, record.hit),
        }),
    ensures
        is_aggregation(seen.push(record), days.update(p, day)),
{
    let grown = seen.push(record);
    let after = days.update(p, day);
    assert forall|k: int, l: int| 0 <= k < l < after.len() implies text_lt(
        (#[trigger] after[k]).date,
        (#[trigger] after[l]).date,
    ) by {
        assert(after[k].date == days[k].date && after[l].date == days[l].date);
    }
    assert forall|k: int| 0 <= k < after.len() implies has_date(grown, (#[trigger] after[k]).date)
        && after[k] == day_of(grown, after[k].date) by {
        lemma_day_step(seen, record, after[k].date);
        assert(has_date(seen, days[k].date));
        if k != p {
            if k < p {
                assert(text_lt(days[k].date, days[p].date));
                lemma_text_lt_asymmetric(days[k].date, days[p].date);
            } else {
                assert(text_lt(days[p].date, days[k].date));
                lemma_text_lt_asymmetric(days[p].date, days[k].date);
            }
        }
    }
    assert forall|i: int| 0 <= i < grown.len() implies has_day(after, (#[trigger] grown[i]).date) by {
        if i < seen.len() {
            assert(grown[i] == seen[i]);
            assert(has_day(days, seen[i].date));
            let k = choose|k: int| 0 <= k < days.len() && (#[trigger] days[k]).date == seen[i].date;
            assert(after[k].date == grown[i].date);
        } else {
            assert(after[p].date == grown[i].date);
        }
    }
}

/// A record of a date that has no day yet gives a day of its own, at the
/// date's place.
proof fn lemma_aggregation_insert(seen: Seq<HitView>, record: HitView, days: Seq<DayView>, p: int)
    requires
        is_aggregation(seen, days),
        0 <= p <= days.len(),
        forall|k: int| 0 <= k < p ==> text_lt((#[trigger] days[k]).date, record.date),
        forall|k: int| p <= k < days.len() ==> text_lt(record.date, (#[trigger] days[k]).date),
    ensures
        is_aggregation(
            seen.push(record),
            days.insert(
                p,
                DayView {
                    date: record.date,
                    total_hits: record.hit,
                    by_states: Map::<Seq<char>, int>::empty().insert(record.state, record.hit),
                },
            ),
        ),
{
    let grown = seen.push(record);
    let day = DayView {
        date: record.date,
        total_hits: record.hit,
        by_states: Map::<Seq<char>, int>::empty().insert(record.state, record.hit),
    };
    let after = days.insert(p, day);
    assert forall|k: int| 0 <= k < days.len() implies (#[trigger] days[k]).date != record.date by {
        if k < p {
            lemma_text_lt_asymmetric(days[k].date, record.date);
        } else {
            lemma_text_lt_asymmetric(record.date, days[k].date);
        }
    }
    if has_date(seen, record.date) {
        let i = choose|i: int| 0 <= i < seen.len() && (#[trigger] seen[i]).date == record.date;
        assert(has_day(days, seen[i].date));
    }
    lemma_day_without_records(seen, record.date);
    assert forall|k: int, l: int| 0 <= k < l < after.len() implies text_lt(
        (#[trigger] after[k]).date,
        (#[trigger] after[l]).date,
    ) by {
        if l < p {
            assert(after[k] == days[k] && after[l] == days[l]);
        } else if l == p {
            assert(after[k] == days[k]);
        } else if k < p {
            assert(after[k] == days[k] && after[l] == days[l - 1]);
            lemma_text_lt_transitive(days[k].date, record.date, days[l - 1].date);
        } else if k == p {
            assert(after[l] == days[l - 1]);
        } else {
            assert(after[k] == days[k - 1] && after[l] == days[l - 1]);
        }
    }
    assert forall|k: int| 0 <= k < after.len() implies has_date(grown, (#[trigger] after[k]).date)
        && after[k] == day_of(grown, after[k].date) by {
        lemma_day_step(seen, record, after[k].date);
        if k < p {
            assert(after[k] == days[k]);
            assert(has_date(seen, days[k].date));
        } else if k > p {
            assert(after[k] == days[k - 1]);
            assert(has_date(seen, days[k - 1].date));
        }
    }
    assert forall|i: int| 0 <= i < grown.len() implies has_day(after, (#[trigger] grown[i]).date) by {
        if i < seen.len() {
            assert(grown[i] == seen[i]);
            assert(has_day(days, seen[i].date));
            let k = choose|k: int| 0 <= k < days.len() && (#[trigger] days[k]).date == seen[i].date;
            if k < p {
                assert(after[k].date == grown[i].date);
            } else {
                assert(after[k + 1].date == grown[i].date);
            }
        } else {
            assert(after[p].date == grown[i].date);
        }
    }
}

/// Rolls the records up by date: one day for each date that occurs, by
/// ascending date; each day with the sum of the counts of its records and,
/// for each of its states, the count of the state's last record.
pub fn aggregate(records: &Vec<HitResult>) -> (out: Vec<AggregatedResult>)
    ensures
        is_aggregation(hit_views(records@), day_views(out@)),
        forall|k: int| 0 <= k < out@.len() ==> distinct_states((#[trigger] out@[k]).by_states@),
{
    let ghost all = hit_views(records@);
    let mut out: Vec<AggregatedResult> = Vec::new();
    let mut i: usize = 0;
    proof {
        assert(all.take(0) =~= Seq::<HitView>::empty());
    }
    while i < records.len()
        invariant
            all == hit_views(records@),
            i <= records.len(),
            is_aggregation(all.take(i as int), day_views(out@)),
            forall|k: int| 0 <= k < out@.len() ==> distinct_states((#[trigger] out@[k]).by_states@),
        decreases records.len() - i,
    {
        let record = &records[i];
        let ghost seen = all.take(i as int);
        let ghost days = day_views(out@);
        let ghost listed_days = out@;
        proof {
            assert(all.take(i + 1) =~= seen.push(record@));
        }
        let mut p: usize = 0;
        while p < out.len()
            invariant
                p <= out.len(),
                forall|k: int| 0 <= k < p ==> text_lt((#[trigger] out@[k])@.date, record@.date),
            ensures
                p <= out.len(),
                p < out.len() ==> !text_lt(out@[p as int]@.date, record@.date),
                forall|k: int| 0 <= k < p ==> text_lt((#[trigger] out@[k])@.date, record@.date),
            decreases out.len() - p,
        {
            if !comes_before(out[p].date.as_str(), record.date.as_str()) {
                break;
            }
            p += 1;
        }
        let found = p < out.len() && out[p].date == record.date;
        if found {
            let mut day = out.remove(p);
            let ghost old_day = day@;
            proof {
                assert(old_day == days[p as int]);
                assert forall|j: int| 0 <= j < seen.len() implies i32::MIN <= (#[trigger] seen[j]).hit
                    <= i32::MAX by {
                    assert(seen[j] == records@[j]@);
                }
                lemma_total_is_bounded(seen, record@.date);
                assert(day.total_hits == total_on(seen, record@.date));
            }
            day.total_hits = day.total_hits + record.hit as i128;
            set_state(&mut day.by_states, &record.state, record.hit);
            proof {
                lemma_aggregation_update(seen, record@, days, p as int, day@);
            }
            out.insert(p, day);
            proof {
                assert(out@ =~= listed_days.update(p as int, day));
                assert(day_views(out@) =~= days.update(p as int, day@));
            }
        } else {
            let mut by_states: Vec<(String, i32)> = Vec::new();
            by_states.push((record.state.clone(), record.hit));
            let day = AggregatedResult {
                date: record.date.clone(),
                total_hits: record.hit as i128,
                by_states,
            };
            proof {
                assert(listed(day.by_states@, record@.state)) by {
                    assert(day.by_states@[0].0@ == record@.state);
                }
                lemma_states_map_entry(day.by_states@, 0);
                assert(day@.by_states =~= Map::<Seq<char>, int>::empty().insert(
                    record@.state,
                    record@.hit,
                )) by {
                    assert forall|s: Seq<char>| listed(day.by_states@, s) implies s
                        == record@.state by {
                        let m = place_of(day.by_states@, s);
                    }
                }
                assert forall|k: int| p <= k < days.len() implies text_lt(
                    record@.date,
                    (#[trigger] days[k]).date,
                ) by {
                    lemma_text_lt_total(record@.date, days[p as int].date);
                    if k > p {
                        lemma_text_lt_transitive(record@.date, days[p as int].date, days[k].date);
                    }
                }
                assert forall|k: int| 0 <= k < p implies text_lt(
                    (#[trigger] days[k]).date,
                    record@.date,
                ) by {
                    assert(days[k] == listed_days[k]@);
                }
                lemma_aggregation_insert(seen, record@, days, p as int);
            }
            out.insert(p, day);
            proof {
                assert(day_views(out@) =~= days.insert(p as int, day@));
            }
        }
        i += 1;
    }
    proof {
        assert(all.take(i as int) =~= all);
    }
    out
}

} // verus!

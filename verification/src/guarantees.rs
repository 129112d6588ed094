//! What callers of the store may rely on, proved from its contracts.

use vstd::prelude::*;
use vstd::set_lib::{lemma_int_range, set_int_range};
use crate::aggregate::{has_date, has_day, is_aggregation, DayView};
use crate::hit::HitView;
use crate::store::{
    every_row, in_range, is_latest, is_listing, latest_in, listed_before, lists, rows_at, same_key,
    stamp_le, stamp_lt, stored, yields_to,
};
use crate::text::{
    lemma_text_lt_asymmetric, lemma_text_lt_irreflexive, lemma_text_lt_total,
    lemma_text_lt_transitive, text_lt,
};
use crate::validation::{acceptable, hit_fault, rfc3339_rejection, ValidationFault};

verus! {

/// A record without a timestamp is accepted, and a full read that follows
/// returns a row with its state, count and date and with the timestamp that
/// the store gave it.
pub proof fn lemma_untimed_hit_is_stored_and_listed(
    log: Seq<HitView>,
    hit: HitView,
    now: Seq<char>,
    out: Seq<HitView>,
)
    requires
        hit.timestamp is None,
        is_listing(log.push(stored(hit, now)), every_row(), out),
    ensures
        acceptable(hit),
        exists|k: int|
            0 <= k < out.len() && (#[trigger] out[k]).state == hit.state && out[k].hit == hit.hit
                && out[k].date == hit.date && out[k].timestamp == Some(now),
{
    let grown = log.push(stored(hit, now));
    let picks = choose|picks: Seq<int>| #[trigger]
        lists(grown, every_row(), picks) && out == rows_at(grown, picks);
    let last = log.len() as int;
    assert(every_row()(last));
    assert(picks.contains(last));
    let k = choose|k: int| 0 <= k < picks.len() && picks[k] == last;
    assert(out[k] == grown[last]);
}

/// A record whose timestamp does not begin with its date is turned down,
/// with the fault that names both.
pub proof fn lemma_date_mismatch_is_rejected(hit: HitView, timestamp: Seq<char>)
    requires
        hit.timestamp == Some(timestamp),
        !hit.date.is_prefix_of(timestamp),
    ensures
        hit_fault(hit) == Some(ValidationFault::DateMismatch { timestamp, date: hit.date }),
        !acceptable(hit),
{
}

/// A record whose timestamp the date-time parser turns down is itself
/// turned down.
pub proof fn lemma_unparseable_timestamp_is_rejected(hit: HitView, timestamp: Seq<char>)
    requires
        hit.timestamp == Some(timestamp),
        rfc3339_rejection(timestamp) is Some,
    ensures
        !acceptable(hit),
{
}

/// Of two different rows, one is listed before the other, and never both
/// ways round.
pub proof fn lemma_listed_before_is_strict(log: Seq<HitView>, a: int, b: int)
    ensures
        !(listed_before(log, a, b) && listed_before(log, b, a)),
        a != b ==> listed_before(log, a, b) || listed_before(log, b, a),
{
    lemma_text_lt_total(log[a].date, log[b].date);
    lemma_text_lt_irreflexive(log[a].date);
    if text_lt(log[a].date, log[b].date) {
        lemma_text_lt_asymmetric(log[a].date, log[b].date);
    }
    if text_lt(log[b].date, log[a].date) {
        lemma_text_lt_asymmetric(log[b].date, log[a].date);
    }
}

/// There is one way only to list the chosen rows of a log.
pub proof fn lemma_picks_are_unique(
    log: Seq<HitView>,
    chosen: spec_fn(int) -> bool,
    a: Seq<int>,
    b: Seq<int>,
)
    requires
        lists(log, chosen, a),
        lists(log, chosen, b),
    ensures
        a == b,
    decreases a.len(),
{
    if a.len() == 0 {
        if b.len() > 0 {
            assert(chosen(b[0]));
            assert(a.contains(b[0]));
        }
        assert(a =~= b);
    } else {
        assert(chosen(a[0]));
        assert(b.contains(a[0]));
        let n = choose|n: int| 0 <= n < b.len() && b[n] == a[0];
        assert(chosen(b[0]));
        assert(a.contains(b[0]));
        let m = choose|m: int| 0 <= m < a.len() && a[m] == b[0];
        if m > 0 && n > 0 {
            assert(listed_before(log, a[0], a[m]));
            assert(listed_before(log, b[0], b[n]));
            lemma_listed_before_is_strict(log, a[0], b[0]);
        }
        assert(a[0] == b[0]);
        let first = a[0];
        let rest = |i: int| chosen(i) && i != first;
        let a_rest = a.drop_first();
        let b_rest = b.drop_first();
        assert forall|k: int| 0 <= k < a_rest.len() implies 0 <= #[trigger] a_rest[k] < log.len()
            && rest(a_rest[k]) by {
            assert(a_rest[k] == a[k + 1]);
            assert(listed_before(log, a[0], a[k + 1]));
            lemma_listed_before_is_strict(log, a[0], a[0]);
        }
        assert forall|k: int| 0 <= k < b_rest.len() implies 0 <= #[trigger] b_rest[k] < log.len()
            && rest(b_rest[k]) by {
            assert(b_rest[k] == b[k + 1]);
            assert(listed_before(log, b[0], b[k + 1]));
            lemma_listed_before_is_strict(log, b[0], b[0]);
        }
        assert forall|i: int| 0 <= i < log.len() && #[trigger] rest(i) implies a_rest.contains(
            i,
        ) by {
            assert(chosen(i));
            let k = choose|k: int| 0 <= k < a.len() && a[k] == i;
            assert(a_rest[k - 1] == i);
        }
        assert forall|i: int| 0 <= i < log.len() && #[trigger] rest(i) implies b_rest.contains(
            i,
        ) by {
            assert(chosen(i));
            let k = choose|k: int| 0 <= k < b.len() && b[k] == i;
            assert(b_rest[k - 1] == i);
        }
        assert forall|k: int, l: int| 0 <= k < l < a_rest.len() implies listed_before(
            log,
            #[trigger] a_rest[k],
            #[trigger] a_rest[l],
        ) by {
            assert(a_rest[k] == a[k + 1] && a_rest[l] == a[l + 1]);
        }
        assert forall|k: int, l: int| 0 <= k < l < b_rest.len() implies listed_before(
            log,
            #[trigger] b_rest[k],
            #[trigger] b_rest[l],
        ) by {
            assert(b_rest[k] == b[k + 1] && b_rest[l] == b[l + 1]);
        }
        lemma_picks_are_unique(log, rest, a_rest, b_rest);
        assert(a =~= seq![first] + a_rest);
        assert(b =~= seq![first] + b_rest);
    }
}

/// A read is determined by the log and by what is asked: two reads of the
/// same log with the same question return the same rows in the same order.
pub proof fn lemma_listing_is_unique(
    log: Seq<HitView>,
    chosen: spec_fn(int) -> bool,
    a: Seq<HitView>,
    b: Seq<HitView>,
)
    requires
        is_listing(log, chosen, a),
        is_listing(log, chosen, b),
    ensures
        a == b,
{
    let picks_a = choose|picks: Seq<int>| #[trigger] lists(log, chosen, picks) && a == rows_at(log, picks);
    let picks_b = choose|picks: Seq<int>| #[trigger] lists(log, chosen, picks) && b == rows_at(log, picks);
    lemma_picks_are_unique(log, chosen, picks_a, picks_b);
}

/// A range that holds no row gives an empty read.
pub proof fn lemma_empty_range_lists_nothing(
    log: Seq<HitView>,
    start: Seq<char>,
    end: Seq<char>,
    out: Seq<HitView>,
)
    requires
        is_listing(log, latest_in(log, start, end), out),
        forall|i: int| 0 <= i < log.len() ==> !in_range(#[trigger] log[i], start, end),
    ensures
        out == Seq::<HitView>::empty(),
{
    let picks = choose|picks: Seq<int>| #[trigger]
        lists(log, latest_in(log, start, end), picks) && out == rows_at(log, picks);
    if picks.len() > 0 {
        assert(latest_in(log, start, end)(picks[0]));
        assert(in_range(log[picks[0]], start, end));
    }
    assert(out =~= Seq::<HitView>::empty());
}

/// Timestamps are totally ordered: any two compare, the order is
/// transitive, and two that are each no later than the other are the same.
pub proof fn lemma_stamp_order(a: Option<Seq<char>>, b: Option<Seq<char>>, c: Option<Seq<char>>)
    ensures
        stamp_le(a, b) || stamp_le(b, a),
        stamp_le(a, b) && stamp_le(b, a) ==> a == b,
        stamp_le(a, b) && stamp_le(b, c) ==> stamp_le(a, c),
{
    if a is Some && b is Some {
        lemma_text_lt_total(a->0, b->0);
        if text_lt(a->0, b->0) {
            lemma_text_lt_asymmetric(a->0, b->0);
        }
        if c is Some && text_lt(a->0, b->0) && text_lt(b->0, c->0) {
            lemma_text_lt_transitive(a->0, b->0, c->0);
        }
    }
}

/// Of two rows, one yields to the other; only a row itself yields both ways.
pub proof fn lemma_yields_to_is_total(log: Seq<HitView>, a: int, b: int)
    ensures
        yields_to(log, a, b) || yields_to(log, b, a),
        yields_to(log, a, b) && yields_to(log, b, a) ==> a == b,
{
    lemma_stamp_order(log[a].timestamp, log[b].timestamp, log[a].timestamp);
}

/// Yielding is transitive.
pub proof fn lemma_yields_to_is_transitive(log: Seq<HitView>, a: int, b: int, c: int)
    requires
        yields_to(log, a, b),
        yields_to(log, b, c),
    ensures
        yields_to(log, a, c),
{
    let (ta, tb, tc) = (log[a].timestamp, log[b].timestamp, log[c].timestamp);
    lemma_stamp_order(ta, tb, tc);
    lemma_stamp_order(tb, tc, ta);
    lemma_stamp_order(tc, ta, tb);
    lemma_stamp_order(tb, ta, tc);
    lemma_stamp_order(tc, tb, ta);
}

/// Latest wins: a row is not returned by a range read while the log holds a
/// row of the same date and state with a later timestamp.
pub proof fn lemma_superseded_row_is_not_listed(
    log: Seq<HitView>,
    start: Seq<char>,
    end: Seq<char>,
    out: Seq<HitView>,
    older: int,
    newer: int,
)
    requires
        is_listing(log, latest_in(log, start, end), out),
        0 <= older < log.len(),
        0 <= newer < log.len(),
        same_key(log[older], log[newer]),
        stamp_lt(log[older].timestamp, log[newer].timestamp),
    ensures
        !out.contains(log[older]),
{
    let picks = choose|picks: Seq<int>| #[trigger]
        lists(log, latest_in(log, start, end), picks) && out == rows_at(log, picks);
    if out.contains(log[older]) {
        let k = choose|k: int| 0 <= k < out.len() && out[k] == log[older];
        let m = picks[k];
        assert(latest_in(log, start, end)(m));
        assert(same_key(log[newer], log[m]));
        assert(yields_to(log, newer, m));
        lemma_stamp_order(log[newer].timestamp, log[m].timestamp, log[m].timestamp);
    }
}

/// A range read returns no two rows of the same date and state.
pub proof fn lemma_one_row_per_key(
    log: Seq<HitView>,
    start: Seq<char>,
    end: Seq<char>,
    out: Seq<HitView>,
)
    requires
        is_listing(log, latest_in(log, start, end), out),
    ensures
        forall|k: int, l: int|
            0 <= k < l < out.len() ==> !same_key(#[trigger] out[k], #[trigger] out[l]),
{
    let picks = choose|picks: Seq<int>| #[trigger]
        lists(log, latest_in(log, start, end), picks) && out == rows_at(log, picks);
    assert forall|k: int, l: int| 0 <= k < l < out.len() implies !same_key(
        #[trigger] out[k],
        #[trigger] out[l],
    ) by {
        let (m, n) = (picks[k], picks[l]);
        assert(latest_in(log, start, end)(m));
        assert(latest_in(log, start, end)(n));
        assert(listed_before(log, m, n));
        lemma_listed_before_is_strict(log, m, m);
        if same_key(out[k], out[l]) {
            assert(yields_to(log, n, m));
            assert(yields_to(log, m, n));
            lemma_yields_to_is_total(log, m, n);
        }
    }
}

/// Among the first `n` rows and row `i`, some row of the date and state of
/// row `i` is one to which all the others of that date and state yield.
proof fn lemma_latest_exists(log: Seq<HitView>, i: int, n: int) -> (b: int)
    requires
        0 <= i < log.len(),
        0 <= n <= log.len(),
    ensures
        0 <= b < log.len(),
        same_key(log[b], log[i]),
        yields_to(log, i, b),
        forall|j: int| 0 <= j < n && same_key(log[j], log[i]) ==> #[trigger] yields_to(log, j, b),
    decreases n,
{
    if n == 0 {
        lemma_stamp_order(log[i].timestamp, log[i].timestamp, log[i].timestamp);
        i
    } else {
        let b = lemma_latest_exists(log, i, n - 1);
        let last = n - 1;
        if same_key(log[last], log[i]) && !yields_to(log, last, b) {
            lemma_yields_to_is_total(log, last, b);
            lemma_yields_to_is_transitive(log, i, b, last);
            assert forall|j: int| 0 <= j < n && same_key(log[j], log[i]) implies #[trigger] yields_to(
                log,
                j,
                last,
            ) by {
                if j < last {
                    lemma_yields_to_is_transitive(log, j, b, last);
                } else {
                    lemma_stamp_order(log[last].timestamp, log[last].timestamp, log[last].timestamp);
                }
            }
            last
        } else {
            b
        }
    }
}

/// Every date and state with a row in the range is answered: a range read
/// returns a row of that date and state, and none of that date and state has
/// a later timestamp.
pub proof fn lemma_every_key_in_range_is_listed(
    log: Seq<HitView>,
    start: Seq<char>,
    end: Seq<char>,
    out: Seq<HitView>,
    i: int,
)
    requires
        is_listing(log, latest_in(log, start, end), out),
        0 <= i < log.len(),
        in_range(log[i], start, end),
    ensures
        exists|k: int|
            0 <= k < out.len() && same_key(#[trigger] out[k], log[i]) && stamp_le(
                log[i].timestamp,
                out[k].timestamp,
            ),
{
    let picks = choose|picks: Seq<int>| #[trigger]
        lists(log, latest_in(log, start, end), picks) && out == rows_at(log, picks);
    let b = lemma_latest_exists(log, i, log.len() as int);
    assert(is_latest(log, b));
    assert(latest_in(log, start, end)(b));
    assert(picks.contains(b));
    let k = choose|k: int| 0 <= k < picks.len() && picks[k] == b;
    assert(out[k] == log[b]);
    lemma_stamp_order(log[i].timestamp, log[b].timestamp, log[b].timestamp);
}

/// A full read returns every row ever appended, and no more rows than that.
pub proof fn lemma_full_read_returns_every_row(log: Seq<HitView>, out: Seq<HitView>)
    requires
        is_listing(log, every_row(), out),
    ensures
        out.len() == log.len(),
        forall|i: int| 0 <= i < log.len() ==> out.contains(#[trigger] log[i]),
{
    let picks = choose|picks: Seq<int>| #[trigger]
        lists(log, every_row(), picks) && out == rows_at(log, picks);
    assert forall|i: int| 0 <= i < log.len() implies out.contains(#[trigger] log[i]) by {
        assert(every_row()(i));
        assert(picks.contains(i));
        let k = choose|k: int| 0 <= k < picks.len() && picks[k] == i;
        assert(out[k] == log[i]);
    }
    assert forall|k: int, l: int| 0 <= k < picks.len() && 0 <= l < picks.len() && k != l implies picks[k]
        != picks[l] by {
        lemma_listed_before_is_strict(log, picks[k], picks[k]);
        if k < l {
            assert(listed_before(log, picks[k], picks[l]));
        } else {
            assert(listed_before(log, picks[l], picks[k]));
        }
    }
    picks.unique_seq_to_set();
    assert(picks.to_set() =~= set_int_range(0, log.len() as int)) by {
        assert forall|i: int| set_int_range(0, log.len() as int).contains(i) implies picks.to_set().contains(
            i,
        ) by {
            assert(every_row()(i));
        }
    }
    lemma_int_range(0, log.len() as int);
}

/// Two lists of dates, each strictly ascending, that hold the same dates are
/// the same list.
pub proof fn lemma_ascending_dates_are_unique(a: Seq<Seq<char>>, b: Seq<Seq<char>>)
    requires
        forall|k: int, l: int| 0 <= k < l < a.len() ==> text_lt(#[trigger] a[k], #[trigger] a[l]),
        forall|k: int, l: int| 0 <= k < l < b.len() ==> text_lt(#[trigger] b[k], #[trigger] b[l]),
        forall|d: Seq<char>| a.contains(d) <==> b.contains(d),
    ensures
        a == b,
    decreases a.len(),
{
    if a.len() == 0 {
        if b.len() > 0 {
            assert(b.contains(b[0]));
        }
        assert(a =~= b);
    } else {
        assert(a.contains(a[0]));
        let n = choose|n: int| 0 <= n < b.len() && b[n] == a[0];
        assert(b.contains(b[0]));
        let m = choose|m: int| 0 <= m < a.len() && a[m] == b[0];
        if m > 0 && n > 0 {
            assert(text_lt(a[0], a[m]));
            assert(text_lt(b[0], b[n]));
            lemma_text_lt_asymmetric(a[0], b[0]);
        }
        assert(a[0] == b[0]);
        let a_rest = a.drop_first();
        let b_rest = b.drop_first();
        assert forall|d: Seq<char>| a_rest.contains(d) <==> b_rest.contains(d) by {
            if a_rest.contains(d) {
                let k = choose|k: int| 0 <= k < a_rest.len() && a_rest[k] == d;
                assert(a[k + 1] == d);
                assert(text_lt(a[0], a[k + 1]));
                lemma_text_lt_asymmetric(a[0], d);
                assert(a.contains(d));
                let l = choose|l: int| 0 <= l < b.len() && b[l] == d;
                assert(b_rest[l - 1] == d);
            }
            if b_rest.contains(d) {
                let k = choose|k: int| 0 <= k < b_rest.len() && b_rest[k] == d;
                assert(b[k + 1] == d);
                assert(text_lt(b[0], b[k + 1]));
                lemma_text_lt_asymmetric(b[0], d);
                assert(b.contains(d));
                let l = choose|l: int| 0 <= l < a.len() && a[l] == d;
                assert(a_rest[l - 1] == d);
            }
        }
        assert forall|k: int, l: int| 0 <= k < l < a_rest.len() implies text_lt(
            #[trigger] a_rest[k],
            #[trigger] a_rest[l],
        ) by {
            assert(a_rest[k] == a[k + 1] && a_rest[l] == a[l + 1]);
        }
        assert forall|k: int, l: int| 0 <= k < l < b_rest.len() implies text_lt(
            #[trigger] b_rest[k],
            #[trigger] b_rest[l],
        ) by {
            assert(b_rest[k] == b[k + 1] && b_rest[l] == b[l + 1]);
        }
        lemma_ascending_dates_are_unique(a_rest, b_rest);
        assert(a =~= seq![a[0]] + a_rest);
        assert(b =~= seq![b[0]] + b_rest);
    }
}

/// The roll-up is determined by the records: rolling the same records up
/// twice gives the same days.
pub proof fn lemma_aggregation_is_unique(records: Seq<HitView>, a: Seq<DayView>, b: Seq<DayView>)
    requires
        is_aggregation(records, a),
        is_aggregation(records, b),
    ensures
        a == b,
{
    let a_dates = Seq::new(a.len(), |k: int| a[k].date);
    let b_dates = Seq::new(b.len(), |k: int| b[k].date);
    assert forall|d: Seq<char>| a_dates.contains(d) <==> b_dates.contains(d) by {
        if a_dates.contains(d) {
            let k = choose|k: int| 0 <= k < a_dates.len() && a_dates[k] == d;
            assert(has_date(records, a[k].date));
            let i = choose|i: int| 0 <= i < records.len() && (#[trigger] records[i]).date == d;
            assert(has_day(b, records[i].date));
            let l = choose|l: int| 0 <= l < b.len() && (#[trigger] b[l]).date == d;
            assert(b_dates[l] == d);
        }
        if b_dates.contains(d) {
            let k = choose|k: int| 0 <= k < b_dates.len() && b_dates[k] == d;
            assert(has_date(records, b[k].date));
            let i = choose|i: int| 0 <= i < records.len() && (#[trigger] records[i]).date == d;
            assert(has_day(a, records[i].date));
            let l = choose|l: int| 0 <= l < a.len() && (#[trigger] a[l]).date == d;
            assert(a_dates[l] == d);
        }
    }
    assert forall|k: int, l: int| 0 <= k < l < a_dates.len() implies text_lt(
        #[trigger] a_dates[k],
        #[trigger] a_dates[l],
    ) by {
        assert(text_lt(a[k].date, a[l].date));
    }
    assert forall|k: int, l: int| 0 <= k < l < b_dates.len() implies text_lt(
        #[trigger] b_dates[k],
        #[trigger] b_dates[l],
    ) by {
        assert(text_lt(b[k].date, b[l].date));
    }
    lemma_ascending_dates_are_unique(a_dates, b_dates);
    assert(a.len() == b.len());
    assert forall|k: int| 0 <= k < a.len() implies a[k] == b[k] by {
        assert(a_dates[k] == b_dates[k]);
    }
    assert(a =~= b);
}

} // verus!

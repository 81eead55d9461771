//! The bookkeeping of usage records read from the per-day CSV files of a host: which file
//! holds a day, which records belong to the job, when they were taken, and the span of
//! time they cover.

use vstd::prelude::*;
use vstd::string::*;
use chrono::DateTime;
use crate::text::{split_at_char, split_char};

verus! {

/// The file that holds the records of `hostname` for the day `year`-`month`-`day`.
pub open spec fn csv_path_text(data_path: Seq<char>, year: Seq<char>, month: Seq<char>, day: Seq<char>, hostname: Seq<char>) -> Seq<char> {
    data_path + "/"@ + year + "/"@ + month + "/"@ + day + "/"@ + hostname + ".csv"@
}

/// The file of a day: the day label is cut at its `-` into exactly three parts, year,
/// month and day, and the path is `data_path/year/month/day/hostname.csv`. `None` where
/// the label does not have exactly three parts.
pub fn csv_path(data_path: &str, date: &str, hostname: &str) -> (path: Option<String>)
    ensures
        split_at_char(date@, '-').len() == 3 ==> (path matches Some(p) && p@ == csv_path_text(
            data_path@,
            split_at_char(date@, '-')[0],
            split_at_char(date@, '-')[1],
            split_at_char(date@, '-')[2],
            hostname@,
        )),
        split_at_char(date@, '-').len() != 3 ==> path is None,
{
    let parts = split_char(date, '-');
    if parts.len() != 3 {
        return None;
    }
    proof {
        assert(parts.deep_view()[0] == parts[0]@);
        assert(parts.deep_view()[1] == parts[1]@);
        assert(parts.deep_view()[2] == parts[2]@);
        reveal_strlit("/");
        reveal_strlit(".csv");
    }
    let mut path = String::from_str(data_path);
    path.append("/");
    path.append(parts[0].as_str());
    path.append("/");
    path.append(parts[1].as_str());
    path.append("/");
    path.append(parts[2].as_str());
    path.append("/");
    path.append(hostname);
    path.append(".csv");
    Some(path)
}

/// Whether two texts are equal.
fn same_text(a: &str, b: &str) -> (r: bool)
    ensures
        r == (a@ == b@),
{
    let a = String::from_str(a);
    let b = String::from_str(b);
    a.eq(&b)
}

/// A record belongs to the job when it carries the job's id and was not taken for `root`.
pub fn is_job_record(job_id: &str, record_job_id: &str, user: &str) -> (r: bool)
    ensures
        r == (record_job_id@ == job_id@ && user@ != "root"@),
{
    same_text(record_job_id, job_id) && !same_text(user, "root")
}

/// The seconds since the epoch of an RFC 3339 timestamp, as chrono reads it; `None` for
/// text chrono rejects.
pub uninterp spec fn rfc3339_seconds(text: Seq<char>) -> Option<i64>;

/// Calls `chrono::DateTime::parse_from_rfc3339(text)` and then `timestamp()` on the
/// result; the contract claims only that the outcome is the function `rfc3339_seconds`
/// of the text.
#[verifier::external_body]
fn record_timestamp(text: &str) -> (t: Option<i64>)
    ensures
        t == rfc3339_seconds(text@),
{
    match DateTime::parse_from_rfc3339(text) {
        Ok(moment) => Some(moment.timestamp()),
        Err(_) => None,
    }
}

/// What a usage record tells of the job: nothing (it belongs to another job, or to
/// `root`), the moment it was taken, or a timestamp chrono cannot read.
#[derive(Debug, PartialEq, Eq, Structural)]
pub enum RecordTime {
    Other,
    At(i64),
    Unreadable,
}

/// The moment a usage record of the job was taken, read from its RFC 3339 timestamp.
pub fn job_record_time(job_id: &str, record_job_id: &str, user: &str, timestamp: &str) -> (r: RecordTime)
    ensures
        !(record_job_id@ == job_id@ && user@ != "root"@) ==> r == RecordTime::Other,
        (record_job_id@ == job_id@ && user@ != "root"@) ==> r == match rfc3339_seconds(timestamp@) {
            Some(t) => RecordTime::At(t),
            None => RecordTime::Unreadable,
        },
{
    if !is_job_record(job_id, record_job_id, user) {
        return RecordTime::Other;
    }
    match record_timestamp(timestamp) {
        Some(t) => RecordTime::At(t),
        None => RecordTime::Unreadable,
    }
}

/// The earliest and latest timestamps of the records seen so far. It starts at
/// `(i64::MAX, 0)`, so the latest never falls below 0.
pub struct TimeSpan {
    pub earliest: i64,
    pub latest: i64,
}

/// The smaller of two timestamps.
pub open spec fn earlier(a: i64, b: i64) -> i64 {
    if a <= b { a } else { b }
}

/// The larger of two timestamps.
pub open spec fn later(a: i64, b: i64) -> i64 {
    if a >= b { a } else { b }
}

impl TimeSpan {
    /// The span before any record: earliest `i64::MAX`, latest 0.
    pub fn new() -> (span: Self)
        ensures
            span.earliest == i64::MAX,
            span.latest == 0,
    {
        TimeSpan { earliest: i64::MAX, latest: 0 }
    }

    /// Takes the timestamp of one more record into account.
    pub fn observe(&mut self, t: i64)
        ensures
            final(self).earliest == earlier(old(self).earliest, t),
            final(self).latest == later(old(self).latest, t),
    {
        if t < self.earliest {
            self.earliest = t;
        }
        if t > self.latest {
            self.latest = t;
        }
    }

    /// Whether data was found: the earliest timestamp moved off `i64::MAX` and the
    /// latest off 0.
    pub fn found_data(&self) -> (r: bool)
        ensures
            r == (self.earliest != i64::MAX && self.latest != 0),
    {
        self.earliest != i64::MAX && self.latest != 0
    }
}

/// The span of a sequence of timestamps, starting from an empty span.
pub open spec fn span_of(ts: Seq<i64>) -> (i64, i64)
    decreases ts.len(),
{
    if ts.len() == 0 {
        (i64::MAX, 0)
    } else {
        let (e, l) = span_of(ts.drop_last());
        (earlier(e, ts.last()), later(l, ts.last()))
    }
}

/// Observing timestamps one by one gives `span_of` of the sequence, and it does not
/// matter in which order two timestamps come.
pub proof fn law_span_order_free(ts: Seq<i64>, a: i64, b: i64)
    ensures
        span_of(ts.push(a).push(b)) == span_of(ts.push(b).push(a)),
{
    assert(ts.push(a).push(b).drop_last() =~= ts.push(a));
    assert(ts.push(b).push(a).drop_last() =~= ts.push(b));
    assert(ts.push(a).drop_last() =~= ts);
    assert(ts.push(b).drop_last() =~= ts);
    let (e, l) = span_of(ts);
    assert(span_of(ts.push(a)) == (earlier(e, a), later(l, a)));
    assert(span_of(ts.push(b)) == (earlier(e, b), later(l, b)));
    assert(span_of(ts.push(a).push(b)) == (earlier(earlier(e, a), b), later(later(l, a), b)));
    assert(span_of(ts.push(b).push(a)) == (earlier(earlier(e, b), a), later(later(l, b), a)));
}

/// The span of a sequence bounds every timestamp of it from below and, for those not
/// below 0, from above; a timestamp strictly between 0 and `i64::MAX` makes data found.
pub proof fn law_span_bounds(ts: Seq<i64>)
    ensures
        forall|i: int| 0 <= i < ts.len() ==> span_of(ts).0 <= #[trigger] ts[i],
        forall|i: int| 0 <= i < ts.len() ==> #[trigger] ts[i] <= span_of(ts).1 || ts[i] < 0,
        span_of(ts).1 >= 0,
        (exists|i: int| 0 <= i < ts.len() && 0 < #[trigger] ts[i] < i64::MAX) ==> (span_of(ts).0 != i64::MAX && span_of(ts).1 != 0),
    decreases ts.len(),
{
    if ts.len() > 0 {
        law_span_bounds(ts.drop_last());
        assert forall|i: int| 0 <= i < ts.len() - 1 implies #[trigger] ts[i] == ts.drop_last()[i] by {}
        if exists|i: int| 0 <= i < ts.len() && 0 < #[trigger] ts[i] < i64::MAX {
            let i = choose|i: int| 0 <= i < ts.len() && 0 < #[trigger] ts[i] < i64::MAX;
            if i < ts.len() - 1 {
                assert(ts.drop_last()[i] == ts[i]);
            }
        }
    }
}

/// `observe` steps `span_of` by one timestamp.
pub proof fn law_observe_is_span_step(ts: Seq<i64>, t: i64)
    ensures
        span_of(ts.push(t)) == (earlier(span_of(ts).0, t), later(span_of(ts).1, t)),
{
    assert(ts.push(t).drop_last() =~= ts);
}

/// Data is found exactly when some timestamp is below `i64::MAX` and some timestamp
/// (the same or another) is above 0: the earliest moves off `i64::MAX` exactly when a
/// timestamp is below it, and the latest off 0 exactly when a timestamp is above it.
pub proof fn law_span_found(ts: Seq<i64>)
    ensures
        span_of(ts).0 != i64::MAX <==> exists|i: int| 0 <= i < ts.len() && #[trigger] ts[i] < i64::MAX,
        span_of(ts).1 != 0 <==> exists|j: int| 0 <= j < ts.len() && #[trigger] ts[j] > 0,
        (span_of(ts).0 != i64::MAX && span_of(ts).1 != 0) <==> (
            (exists|i: int| 0 <= i < ts.len() && #[trigger] ts[i] < i64::MAX)
            && (exists|j: int| 0 <= j < ts.len() && #[trigger] ts[j] > 0)),
    decreases ts.len(),
{
    if ts.len() > 0 {
        let init = ts.drop_last();
        law_span_found(init);
        law_span_bounds(init);
        let last = ts.len() - 1;
        assert(ts[last] == ts.last());
        if exists|i: int| 0 <= i < init.len() && #[trigger] init[i] < i64::MAX {
            let i = choose|i: int| 0 <= i < init.len() && #[trigger] init[i] < i64::MAX;
            assert(ts[i] == init[i]);
        }
        if exists|j: int| 0 <= j < init.len() && #[trigger] init[j] > 0 {
            let j = choose|j: int| 0 <= j < init.len() && #[trigger] init[j] > 0;
            assert(ts[j] == init[j]);
        }
        if exists|i: int| 0 <= i < ts.len() && #[trigger] ts[i] < i64::MAX {
            let i = choose|i: int| 0 <= i < ts.len() && #[trigger] ts[i] < i64::MAX;
            if i < last {
                assert(init[i] == ts[i]);
            }
        }
        if exists|j: int| 0 <= j < ts.len() && #[trigger] ts[j] > 0 {
            let j = choose|j: int| 0 <= j < ts.len() && #[trigger] ts[j] > 0;
            if j < last {
                assert(init[j] == ts[j]);
            }
        }
    }
}

} // verus!

//! The calendar days that a span of time touches, as `YYYY-MM-DD` labels.

use vstd::prelude::*;
use chrono::NaiveDateTime;

verus! {

/// Seconds in a day.
pub const SECONDS_PER_DAY: i64 = 86400;

/// The earliest timestamp that chrono turns into a date and time: -262143-01-01T00:00:00.
pub const FIRST_TIMESTAMP: i64 = -8334601228800;

/// The latest timestamp that chrono turns into a date and time: 262142-12-31T23:59:59.
pub const LAST_TIMESTAMP: i64 = 8210266876799;

/// Chrono can represent the moment `t` seconds after the epoch.
pub open spec fn representable(t: int) -> bool {
    FIRST_TIMESTAMP <= t <= LAST_TIMESTAMP
}

/// The `%Y-%m-%d` label of the UTC day that holds the moment `t` seconds after the epoch,
/// as chrono formats it.
pub uninterp spec fn day_label(t: int) -> Seq<char>;

/// Calls `chrono::NaiveDateTime::from_timestamp_opt(t, 0)` and formats its value with
/// `format("%Y-%m-%d")`. The contract claims that chrono gives a value exactly for the
/// timestamps from `FIRST_TIMESTAMP` to `LAST_TIMESTAMP` (its dates run from year -262143
/// to year 262142), and of the text only that it is the function `day_label` of `t`.
#[verifier::external_body]
#[allow(deprecated)]
fn day_of_timestamp(t: i64) -> (label: Option<String>)
    ensures
        label is Some <==> representable(t as int),
        label matches Some(text) ==> text@ == day_label(t as int),
{
    match NaiveDateTime::from_timestamp_opt(t, 0) {
        Some(moment) => Some(moment.format("%Y-%m-%d").to_string()),
        None => None,
    }
}

/// The number of steps of one day from `t1` that do not pass `t2`.
pub open spec fn day_count(t1: int, t2: int) -> nat {
    if t1 <= t2 {
        ((t2 - t1) / 86400 + 1) as nat
    } else {
        0
    }
}

/// `date_range(t1, t2)` runs without a panic: both ends are representable, and so is
/// the moment one day after the last step.
pub open spec fn date_range_defined(t1: int, t2: int) -> bool {
    &&& representable(t1)
    &&& representable(t2)
    &&& (t1 <= t2 ==> representable(t1 + 86400 * day_count(t1, t2)))
}

/// The labels of the days from `t1` to `t2`: one for `t1` and for each later moment a
/// whole number of days after it, up to `t2`.
pub open spec fn spec_date_range(t1: int, t2: int) -> Option<Seq<Seq<char>>> {
    if date_range_defined(t1, t2) {
        Some(Seq::new(day_count(t1, t2), |i: int| day_label(t1 + 86400 * i)))
    } else {
        None
    }
}

/// The labels of the days from `t1` to `t2`; `None` exactly where `date_range` would
/// panic.
pub fn try_date_range(t1: i64, t2: i64) -> (r: Option<Vec<String>>)
    ensures
        r.deep_view() == spec_date_range(t1 as int, t2 as int),
{
    let mut label = match day_of_timestamp(t1) {
        Some(l) => l,
        None => return None,
    };
    if day_of_timestamp(t2).is_none() {
        return None;
    }
    let mut labels: Vec<String> = Vec::new();
    let mut current: i64 = t1;
    while current <= t2
        invariant
            representable(t1 as int),
            representable(t2 as int),
            t1 <= current,
            current == t1 + 86400 * labels.len(),
            representable(current as int),
            label@ == day_label(current as int),
            labels.len() > 0 ==> current - 86400 <= t2,
            labels.deep_view() =~= Seq::new(labels.len() as nat, |i: int| day_label(t1 + 86400 * i)),
        decreases t2 - current + 86400,
    {
        let ghost before = labels.deep_view();
        let ghost n = labels.len();
        let next = current + SECONDS_PER_DAY;
        let next_label = day_of_timestamp(next);
        labels.push(label);
        assert(labels.deep_view() =~= before.push(day_label(t1 + 86400 * n)));
        match next_label {
            Some(l) => {
                label = l;
            },
            None => {
                proof {
                    assert(day_count(t1 as int, t2 as int) >= n + 1) by {
                        lemma_day_count(t1 as int, t2 as int, n + 1);
                    }
                    lemma_day_count_exact_or_more(t1 as int, t2 as int, n as int);
                }
                return None;
            },
        }
        current = next;
    }
    proof {
        lemma_day_count(t1 as int, t2 as int, labels.len() as int);
    }
    Some(labels)
}

/// `n` steps of a day from `t1` that end past `t2`, the last of them not past it, are all
/// the steps `day_count` counts.
proof fn lemma_day_count(t1: int, t2: int, n: int)
    requires
        n >= 0,
        t1 + 86400 * (n - 1) <= t2 || n == 0,
    ensures
        t1 + 86400 * n > t2 ==> day_count(t1, t2) == n,
        day_count(t1, t2) >= n,
{
    if t1 <= t2 {
        if t1 + 86400 * n > t2 {
            assert((t2 - t1) / 86400 == n - 1) by (nonlinear_arith)
                requires
                    t1 + 86400 * (n - 1) <= t2,
                    t2 < t1 + 86400 * n,
            ;
        } else {
            assert((t2 - t1) / 86400 >= n - 1) by (nonlinear_arith)
                requires
                    t1 + 86400 * n <= t2,
                    n >= 0,
            ;
        }
    } else {
        assert(n == 0) by (nonlinear_arith)
            requires
                t1 > t2,
                n >= 0,
                t1 + 86400 * (n - 1) <= t2 || n == 0,
        ;
    }
}

/// Where the step after the `n`-th falls outside chrono's range, `date_range` is not
/// defined.
proof fn lemma_day_count_exact_or_more(t1: int, t2: int, n: int)
    requires
        n >= 0,
        t1 + 86400 * n <= t2,
        representable(t2),
        !representable(t1 + 86400 * (n + 1)),
        day_count(t1, t2) >= n + 1,
        t1 >= FIRST_TIMESTAMP,
    ensures
        !date_range_defined(t1, t2),
{
    let m = day_count(t1, t2) as int;
    assert(t1 + 86400 * m >= t1 + 86400 * (n + 1)) by (nonlinear_arith)
        requires
            m >= n + 1,
    ;
}

/// The `YYYY-MM-DD` labels of the days from the moment `t1` to the moment `t2` (seconds
/// since the epoch): the day of `t1` and of each later moment a whole number of days
/// after it, up to `t2`.
pub fn date_range(t1: i64, t2: i64) -> (labels: Vec<String>)
    requires
        date_range_defined(t1 as int, t2 as int),
    ensures
        labels.len() == day_count(t1 as int, t2 as int),
        forall|i: int| 0 <= i < labels.len() ==> #[trigger] labels[i]@ == day_label(t1 + 86400 * i),
{
    match try_date_range(t1, t2) {
        Some(v) => {
            assert(v.deep_view().len() == v.len());
            assert forall|i: int| 0 <= i < v.len() implies #[trigger] v[i]@ == day_label(t1 + 86400 * i) by {
                assert(v.deep_view()[i] == v[i]@);
            }
            v
        },
        None => Vec::new(),
    }
}

/// The moment `i` whole days after `t1`.
pub open spec fn day_moment(t1: int, i: int) -> int {
    t1 + 86400 * i
}

/// Where the range is defined, it holds one label for each moment `t1`, `t1 + 1 day`,
/// `t1 + 2 days`, ... that does not pass `t2`, in that order, and no more: every listed
/// moment is at most `t2` and the next one is past it.
pub proof fn law_date_range_one_label_per_day(t1: int, t2: int)
    requires
        date_range_defined(t1, t2),
    ensures
        spec_date_range(t1, t2) is Some,
        forall|i: int| 0 <= i < (spec_date_range(t1, t2)->0).len() ==> #[trigger] day_moment(t1, i) <= t2,
        day_moment(t1, (spec_date_range(t1, t2)->0).len() as int) > t2,
        forall|i: int| 0 <= i < (spec_date_range(t1, t2)->0).len()
            ==> #[trigger] (spec_date_range(t1, t2)->0)[i] == day_label(day_moment(t1, i)),
        t1 <= t2 ==> (spec_date_range(t1, t2)->0)[0] == day_label(t1),
        t1 > t2 ==> (spec_date_range(t1, t2)->0).len() == 0,
{
    let n = day_count(t1, t2) as int;
    let s = spec_date_range(t1, t2)->0;
    assert(s.len() == n);
    if t1 <= t2 {
        let q = (t2 - t1) / 86400;
        assert(n == q + 1);
        assert(t1 + 86400 * q <= t2 && t1 + 86400 * (q + 1) > t2) by (nonlinear_arith)
            requires
                q == (t2 - t1) / 86400,
                t1 <= t2,
        ;
        assert forall|i: int| 0 <= i < n implies #[trigger] day_moment(t1, i) <= t2 by {
            assert(t1 + 86400 * i <= t1 + 86400 * q) by (nonlinear_arith)
                requires
                    i <= q,
            ;
        }
    }
}

} // verus!

//! What the viewer learns from the JSON that `sacct --json` prints for one job.

use vstd::prelude::*;
use vstd::string::*;
use crate::dates::{spec_date_range, try_date_range, LAST_TIMESTAMP};
use crate::decimal::{decimal, decimal_string, parse_unsigned, unsigned_from_text};
use crate::nodelist::{spec_parse_list, try_parse_list};
use crate::text::{contains_char, contains_text, occurs_in, remove_char, without};

verus! {

/// The output is a JSON document, as `serde_json::from_str::<Value>` reads it.
pub uninterp spec fn sacct_json_valid(out: Seq<char>) -> bool;

/// `errors[0].description` of the document, where that is a JSON string.
pub uninterp spec fn sacct_json_first_error(out: Seq<char>) -> Option<Seq<char>>;

/// `jobs[0].nodes` of the document, written out as JSON text (a string keeps its quotes,
/// a missing field reads `null`).
pub uninterp spec fn sacct_json_nodes(out: Seq<char>) -> Seq<char>;

/// `jobs[0].time.start` of the document, where that is an integer that fits in an `i64`.
pub uninterp spec fn sacct_json_start(out: Seq<char>) -> Option<i64>;

/// `jobs[0].time.end` of the document, where that is an integer that fits in an `i64`.
pub uninterp spec fn sacct_json_end(out: Seq<char>) -> Option<i64>;

/// `jobs[0].array.job_id` of the document, where that is an integer that fits in a `u64`.
pub uninterp spec fn sacct_json_array_job_id(out: Seq<char>) -> Option<u64>;

/// `jobs[0].job_id` of the document, where that is an integer that fits in an `i64`.
pub uninterp spec fn sacct_json_job_id(out: Seq<char>) -> Option<i64>;

/// `jobs[0].required.CPUs` of the document, where that is an integer that fits in an `i64`.
pub uninterp spec fn sacct_json_cpus(out: Seq<char>) -> Option<i64>;

/// `jobs[0].required.memory` of the document, where that is an integer that fits in an
/// `i64`.
pub uninterp spec fn sacct_json_memory(out: Seq<char>) -> Option<i64>;

/// The values of `sacct --json` output that the viewer reads.
struct SacctOutput {
    first_error: Option<String>,
    nodes: String,
    start_time: Option<i64>,
    end_time: Option<i64>,
    array_job_id: Option<u64>,
    job_id: Option<i64>,
    required_cpus: Option<i64>,
    required_memory: Option<i64>,
}

/// Calls `serde_json::from_str::<serde_json::Value>(out)` and reads the fields of the
/// document by indexing (a missing field is `Null`), `as_str`, `as_i64`, `as_u64` and
/// `Display`. The contract claims only that it gives a value exactly for text serde_json
/// reads as JSON, and that each field is the function of the text named for it.
#[verifier::external_body]
fn read_sacct_output(out: &str) -> (r: Option<SacctOutput>)
    ensures
        r is Some <==> sacct_json_valid(out@),
        r matches Some(o) ==> {
            &&& o.first_error.deep_view() == sacct_json_first_error(out@)
            &&& o.nodes@ == sacct_json_nodes(out@)
            &&& o.start_time == sacct_json_start(out@)
            &&& o.end_time == sacct_json_end(out@)
            &&& o.array_job_id == sacct_json_array_job_id(out@)
            &&& o.job_id == sacct_json_job_id(out@)
            &&& o.required_cpus == sacct_json_cpus(out@)
            &&& o.required_memory == sacct_json_memory(out@)
        },
{
    let v: serde_json::Value = match serde_json::from_str(out) {
        Ok(v) => v,
        Err(_) => return None,
    };
    let j = &v["jobs"][0];
    Some(SacctOutput {
        first_error: v["errors"][0]["description"].as_str().map(String::from),
        nodes: format!("{}", j["nodes"]),
        start_time: j["time"]["start"].as_i64(),
        end_time: j["time"]["end"].as_i64(),
        array_job_id: j["array"]["job_id"].as_u64(),
        job_id: j["job_id"].as_i64(),
        required_cpus: j["required"]["CPUs"].as_i64(),
        required_memory: j["required"]["memory"].as_i64(),
    })
}

/// Calls `chrono::Utc::now().timestamp()`: the current time in seconds since the epoch.
/// `Utc::now` panics on a clock before the epoch or past chrono's last day, so the value
/// lies between 0 and `LAST_TIMESTAMP`; which second it is depends on the clock and is
/// not stated.
#[verifier::external_body]
fn now_timestamp() -> (t: i64)
    ensures
        0 <= t <= LAST_TIMESTAMP,
{
    chrono::Utc::now().timestamp()
}

/// `sacct` reported a fatal error on its error stream.
pub open spec fn reports_fatal(err: Seq<char>) -> bool {
    occurs_in("sacct: fatal"@, err)
}

/// Whether the error stream of `sacct` holds `sacct: fatal`.
pub fn sacct_failed(err: &str) -> (r: bool)
    ensures
        r == reports_fatal(err@),
{
    contains_text(err, "sacct: fatal")
}

/// `job_id_is_valid` reads the output: there was no fatal error.
pub open spec fn valid_reads_output(out: Seq<char>, err: Seq<char>) -> bool {
    !reports_fatal(err) ==> sacct_json_valid(out)
}

/// The job was found: no fatal error, and the error list of the output does not start
/// with `Nothing found`.
pub open spec fn job_found(out: Seq<char>, err: Seq<char>) -> bool {
    !reports_fatal(err) && sacct_json_first_error(out) != Some("Nothing found"@)
}

/// Whether `sacct` found the job: it reported no fatal error and its output `out` does not
/// start its error list with `Nothing found`. The output is read only when there was no
/// fatal error.
pub fn job_id_is_valid(out: &str, err: &str) -> (r: bool)
    requires
        valid_reads_output(out@, err@),
    ensures
        r == job_found(out@, err@),
{
    if sacct_failed(err) {
        return false;
    }
    match read_sacct_output(out) {
        Some(o) => match o.first_error {
            Some(e) => {
                let nothing = String::from_str("Nothing found");
                proof {
                    reveal_strlit("Nothing found");
                }
                !e.eq(&nothing)
            },
            None => true,
        },
        None => false,
    }
}

/// `job_id_is_valid`, or `None` where it would panic: no fatal error and an output that
/// is not JSON.
pub fn try_job_id_is_valid(out: &str, err: &str) -> (r: Option<bool>)
    ensures
        r is None <==> !valid_reads_output(out@, err@),
        r matches Some(b) ==> b == job_found(out@, err@),
{
    if !sacct_failed(err) && read_sacct_output(out).is_none() {
        return None;
    }
    Some(job_id_is_valid(out, err))
}

/// The job id, read as `str::parse::<usize>` reads it.
pub open spec fn job_number(job_id: Seq<char>) -> Option<nat> {
    unsigned_from_text(job_id, usize::MAX as nat)
}

/// `job_id_is_array` reads the output and the job id: the id has no `_`.
pub open spec fn array_check_reads(job_id: Seq<char>, out: Seq<char>) -> bool {
    !job_id.contains('_') ==> (sacct_json_valid(out) && job_number(job_id) is Some)
}

/// The job is an array job: its id has no `_` and the output names it as the array's id.
pub open spec fn is_array_job(job_id: Seq<char>, out: Seq<char>) -> bool {
    !job_id.contains('_') && sacct_json_array_job_id(out) == Some(job_number(job_id)->0 as u64)
}

/// Whether the job is an array job: its id has no `_` and the output names it as the id of
/// the array.
pub fn job_id_is_array(job_id: &str, out: &str) -> (r: bool)
    requires
        array_check_reads(job_id@, out@),
    ensures
        r == is_array_job(job_id@, out@),
{
    if contains_char(job_id, '_') {
        return false;
    }
    let o = match read_sacct_output(out) {
        Some(o) => o,
        None => return false,
    };
    match parse_unsigned(job_id, usize::MAX as u64) {
        Some(n) => match o.array_job_id {
            Some(a) => a == n,
            None => false,
        },
        None => false,
    }
}

/// `job_id_is_array`, or `None` where it would panic: an id without `_` together with
/// output that is not JSON or an id that is not a number.
pub fn try_job_id_is_array(job_id: &str, out: &str) -> (r: Option<bool>)
    ensures
        r is None <==> !array_check_reads(job_id@, out@),
        r matches Some(b) ==> b == is_array_job(job_id@, out@),
{
    if !contains_char(job_id, '_') {
        if read_sacct_output(out).is_none() || parse_unsigned(job_id, usize::MAX as u64).is_none() {
            return None;
        }
    }
    Some(job_id_is_array(job_id, out))
}

/// The id of the job as an array task names it: `jobs[0].job_id`, taken as a `usize`
/// the way `as` converts an `i64`, in decimal.
pub fn array_subjob_id(out: &str) -> (id: String)
    requires
        sacct_json_valid(out@),
        sacct_json_job_id(out@) is Some,
    ensures
        id@ == decimal((sacct_json_job_id(out@)->0 as usize) as nat),
{
    let n = match read_sacct_output(out) {
        Some(o) => match o.job_id {
            Some(j) => j as usize,
            None => 0,
        },
        None => 0,
    };
    decimal_string(n as u64)
}

/// `array_subjob_id`, or `None` where it would panic: output that is not JSON or has no
/// integer job id.
pub fn try_array_subjob_id(out: &str) -> (r: Option<String>)
    ensures
        r is None <==> !(sacct_json_valid(out@) && sacct_json_job_id(out@) is Some),
        r matches Some(id) ==> id@ == decimal((sacct_json_job_id(out@)->0 as usize) as nat),
{
    match read_sacct_output(out) {
        Some(o) => if o.job_id.is_none() {
            return None;
        },
        None => return None,
    }
    Some(array_subjob_id(out))
}

/// The number of cores that the job asked for, taken as a `usize` the way `as` converts
/// an `i64`.
pub fn requested_num_cores(out: &str) -> (n: usize)
    requires
        sacct_json_valid(out@),
        sacct_json_cpus(out@) is Some,
    ensures
        n == sacct_json_cpus(out@)->0 as usize,
{
    match read_sacct_output(out) {
        Some(o) => match o.required_cpus {
            Some(c) => c as usize,
            None => 0,
        },
        None => 0,
    }
}

/// `requested_num_cores`, or `None` where it would panic: output that is not JSON or has
/// no integer count of CPUs.
pub fn try_requested_num_cores(out: &str) -> (r: Option<usize>)
    ensures
        r is None <==> !(sacct_json_valid(out@) && sacct_json_cpus(out@) is Some),
        r matches Some(n) ==> n == sacct_json_cpus(out@)->0 as usize,
{
    match read_sacct_output(out) {
        Some(o) => if o.required_cpus.is_none() {
            return None;
        },
        None => return None,
    }
    Some(requested_num_cores(out))
}

/// The memory that the job asked for, taken as a `usize` the way `as` converts an `i64`.
pub fn requested_memory(out: &str) -> (n: usize)
    requires
        sacct_json_valid(out@),
        sacct_json_memory(out@) is Some,
    ensures
        n == sacct_json_memory(out@)->0 as usize,
{
    match read_sacct_output(out) {
        Some(o) => match o.required_memory {
            Some(m) => m as usize,
            None => 0,
        },
        None => 0,
    }
}

/// `requested_memory`, or `None` where it would panic: output that is not JSON or has no
/// integer amount of memory.
pub fn try_requested_memory(out: &str) -> (r: Option<usize>)
    ensures
        r is None <==> !(sacct_json_valid(out@) && sacct_json_memory(out@) is Some),
        r matches Some(n) ==> n == sacct_json_memory(out@)->0 as usize,
{
    match read_sacct_output(out) {
        Some(o) => if o.required_memory.is_none() {
            return None;
        },
        None => return None,
    }
    Some(requested_memory(out))
}

/// The node list of the job: its JSON text without double quotes.
pub open spec fn node_list_text(out: Seq<char>) -> Seq<char> {
    without(sacct_json_nodes(out), '"')
}

/// `get_hostnames` can expand the node list: the output is JSON and its node list reads.
pub open spec fn hostnames_readable(out: Seq<char>) -> bool {
    sacct_json_valid(out) && spec_parse_list(node_list_text(out)) is Some
}

/// The host names the job ran on: the expansion of its node list.
pub fn get_hostnames(out: &str) -> (hosts: Vec<String>)
    requires
        hostnames_readable(out@),
    ensures
        hosts.deep_view() == spec_parse_list(node_list_text(out@))->0,
{
    let o = match read_sacct_output(out) {
        Some(o) => o,
        None => return Vec::new(),
    };
    let text = remove_char(o.nodes.as_str(), '"');
    match try_parse_list(text.as_str()) {
        Some(hosts) => hosts,
        None => Vec::new(),
    }
}

/// `get_hostnames`, or `None` where it would panic: output that is not JSON or a node
/// list that cannot be read.
pub fn try_get_hostnames(out: &str) -> (r: Option<Vec<String>>)
    ensures
        r is None <==> !hostnames_readable(out@),
        r matches Some(hosts) ==> hosts.deep_view() == spec_parse_list(node_list_text(out@))->0,
{
    let o = match read_sacct_output(out) {
        Some(o) => o,
        None => return None,
    };
    let text = remove_char(o.nodes.as_str(), '"');
    if try_parse_list(text.as_str()).is_none() {
        return None;
    }
    Some(get_hostnames(out))
}

/// The end of the span to show: the end time, or `now` where the job has not ended (an
/// end time of 0).
pub open spec fn span_end(end: int, now: int) -> int {
    if end == 0 { now } else { end }
}

/// The days of a job that started at `start` and ended at `end` (0 while it runs), with
/// `now` the current time; `None` where the days cannot be told.
pub fn job_days(start: i64, end: i64, now: i64) -> (r: Option<Vec<String>>)
    ensures
        r.deep_view() == spec_date_range(start as int, span_end(end as int, now as int)),
{
    let last = if end == 0 { now } else { end };
    try_date_range(start, last)
}

/// The `YYYY-MM-DD` labels of the days the job ran on, up to now for a job that has not
/// ended (end time 0). The output must be JSON with integer start and end times; `None`
/// where chrono cannot represent a day of the span.
pub fn get_dates(out: &str) -> (r: Option<Vec<String>>)
    requires
        sacct_json_valid(out@),
        sacct_json_start(out@) is Some,
        sacct_json_end(out@) is Some,
    ensures
        sacct_json_end(out@)->0 != 0 ==>
            r.deep_view() == spec_date_range(sacct_json_start(out@)->0 as int, sacct_json_end(out@)->0 as int),
        sacct_json_end(out@)->0 == 0 ==>
            exists|now: int|
                0 <= now <= LAST_TIMESTAMP && #[trigger] spec_date_range(sacct_json_start(out@)->0 as int, now) == r.deep_view(),
{
    let o = match read_sacct_output(out) {
        Some(o) => o,
        None => return None,
    };
    match (o.start_time, o.end_time) {
        (Some(start), Some(end)) => {
            let now = now_timestamp();
            let r = job_days(start, end, now);
            assert(spec_date_range(start as int, span_end(end as int, now as int)) == r.deep_view());
            r
        },
        _ => None,
    }
}

/// `get_dates`, or `None` where it would panic: output that is not JSON or lacks an
/// integer start or end time; also `None` where chrono cannot represent a day of the span.
pub fn try_get_dates(out: &str) -> (r: Option<Vec<String>>)
    ensures
        !(sacct_json_valid(out@) && sacct_json_start(out@) is Some && sacct_json_end(out@) is Some) ==> r is None,
        (sacct_json_valid(out@) && sacct_json_start(out@) is Some && sacct_json_end(out@) is Some
            && sacct_json_end(out@)->0 != 0) ==>
            r.deep_view() == spec_date_range(sacct_json_start(out@)->0 as int, sacct_json_end(out@)->0 as int),
        (sacct_json_valid(out@) && sacct_json_start(out@) is Some && sacct_json_end(out@) is Some
            && sacct_json_end(out@)->0 == 0) ==>
            exists|now: int|
                0 <= now <= LAST_TIMESTAMP && #[trigger] spec_date_range(sacct_json_start(out@)->0 as int, now) == r.deep_view(),
{
    match read_sacct_output(out) {
        Some(o) => if o.start_time.is_none() || o.end_time.is_none() {
            return None;
        },
        None => return None,
    }
    get_dates(out)
}

} // verus!

use jobgraph::slurm::{
    array_subjob_id, get_dates, get_hostnames, job_days, job_id_is_array, job_id_is_valid,
    requested_memory, requested_num_cores, sacct_failed, try_array_subjob_id, try_get_dates, try_get_hostnames,
    try_job_id_is_array, try_job_id_is_valid, try_requested_memory, try_requested_num_cores,
};

const OUTPUT: &str = r#"{"errors": [], "jobs": [{"job_id": 124, "nodes": "c1-[0-1],c2-5",
  "array": {"job_id": 123}, "time": {"start": 1431648000, "end": 1431734400},
  "required": {"CPUs": 16, "memory": 4000}}]}"#;

fn strings(v: &[&str]) -> Vec<String> {
    v.iter().map(|s| s.to_string()).collect()
}

#[test]
fn validity_of_the_job_id() {
    assert!(job_id_is_valid(OUTPUT, ""));
    assert!(!job_id_is_valid("not json", "sacct: fatal: Bad job/step specified"));
    assert!(!job_id_is_valid(OUTPUT, "error\nsacct: fatal: x"));
    let missing = r#"{"errors": [{"description": "Nothing found"}], "jobs": []}"#;
    assert!(!job_id_is_valid(missing, ""));
    let other = r#"{"errors": [{"description": "Something else"}], "jobs": []}"#;
    assert!(job_id_is_valid(other, ""));
    assert_eq!(try_job_id_is_valid("not json", ""), None);
    assert_eq!(try_job_id_is_valid("not json", "sacct: fatal"), Some(false));
    assert!(sacct_failed("sacct: fatal"));
    assert!(!sacct_failed("sacct: Fatal"));
}

#[test]
fn array_jobs() {
    assert!(job_id_is_array("123", OUTPUT));
    assert!(job_id_is_array("+123", OUTPUT));
    assert!(!job_id_is_array("124", OUTPUT));
    assert!(!job_id_is_array("123_4", OUTPUT));
    assert!(!job_id_is_array("123", r#"{"jobs": [{"array": {"job_id": 0}}]}"#));
    assert!(!job_id_is_array("123", r#"{"jobs": [{}]}"#));
    assert_eq!(try_job_id_is_array("12x", OUTPUT), None);
    assert_eq!(try_job_id_is_array("123", "["), None);
    assert_eq!(try_job_id_is_array("1_2", "["), Some(false));
}

#[test]
fn numbers_of_the_job() {
    assert_eq!(array_subjob_id(OUTPUT), "124");
    assert_eq!(requested_num_cores(OUTPUT), 16);
    assert_eq!(requested_memory(OUTPUT), 4000);
    assert_eq!(array_subjob_id(r#"{"jobs": [{"job_id": -1}]}"#), (-1i64 as usize).to_string());
    assert_eq!(try_array_subjob_id(r#"{"jobs": [{"job_id": "x"}]}"#), None);
    assert_eq!(try_requested_num_cores(r#"{"jobs": []}"#), None);
    assert_eq!(try_requested_memory("{"), None);
    assert_eq!(try_requested_memory(OUTPUT), Some(4000));
}

#[test]
fn hostnames_of_the_job() {
    assert_eq!(get_hostnames(OUTPUT), strings(&["c1-0", "c1-1", "c2-5"]));
    assert_eq!(try_get_hostnames(r#"{"jobs": [{"nodes": "c[x]"}]}"#), None);
    assert_eq!(get_hostnames(r#"{"jobs": [{}]}"#), strings(&["null"]));
    assert_eq!(try_get_hostnames("nope"), None);
}

#[test]
fn days_of_the_job() {
    assert_eq!(get_dates(OUTPUT), Some(strings(&["2015-05-15", "2015-05-16"])));
    assert_eq!(try_get_dates(OUTPUT), Some(strings(&["2015-05-15", "2015-05-16"])));
    assert_eq!(try_get_dates(r#"{"jobs": [{"time": {"end": 5}}]}"#), None);
    assert_eq!(try_get_dates(r#"{"jobs": [{"time": {"start": 5, "end": "x"}}]}"#), None);
    assert_eq!(try_get_dates("nope"), None);
    assert_eq!(job_days(0, 0, 86400), Some(strings(&["1970-01-01", "1970-01-02"])));
    assert_eq!(job_days(0, 86400, 5 * 86400), Some(strings(&["1970-01-01", "1970-01-02"])));
    let running = r#"{"jobs": [{"time": {"start": 0, "end": 0}}]}"#;
    assert!(get_dates(running).unwrap().len() > 365 * 50);
}

use jobgraph::usage::{csv_path, is_job_record, job_record_time, RecordTime, TimeSpan};

#[test]
fn csv_path_of_a_day() {
    assert_eq!(csv_path("/data", "2023-01-05", "c1-2"), Some("/data/2023/01/05/c1-2.csv".to_string()));
    assert_eq!(csv_path("", "a-b-c", "h"), Some("/a/b/c/h.csv".to_string()));
    assert_eq!(csv_path("/data", "2023-01", "c1"), None);
    assert_eq!(csv_path("/data", "2023-01-05-1", "c1"), None);
}

#[test]
fn records_of_the_job() {
    assert!(is_job_record("42", "42", "alice"));
    assert!(!is_job_record("42", "42", "root"));
    assert!(!is_job_record("42", "421", "alice"));
}

#[test]
fn timestamps_of_records() {
    assert_eq!(job_record_time("7", "7", "bob", "2023-01-01T00:00:00Z"), RecordTime::At(1672531200));
    assert_eq!(job_record_time("7", "7", "bob", "2023-01-01T01:00:00+01:00"), RecordTime::At(1672531200));
    assert_eq!(job_record_time("7", "7", "bob", "yesterday"), RecordTime::Unreadable);
    assert_eq!(job_record_time("7", "8", "bob", "yesterday"), RecordTime::Other);
    assert_eq!(job_record_time("7", "7", "root", "2023-01-01T00:00:00Z"), RecordTime::Other);
}

#[test]
fn span_of_records() {
    let mut span = TimeSpan::new();
    assert!(!span.found_data());
    span.observe(5);
    span.observe(3);
    assert_eq!((span.earliest, span.latest), (3, 5));
    assert!(span.found_data());
    let mut negative = TimeSpan::new();
    negative.observe(-5);
    assert_eq!((negative.earliest, negative.latest), (-5, 0));
    assert!(!negative.found_data());
}

#[test]
fn span_does_not_depend_on_order() {
    let mut a = TimeSpan::new();
    a.observe(10);
    a.observe(7);
    let mut b = TimeSpan::new();
    b.observe(7);
    b.observe(10);
    assert_eq!((a.earliest, a.latest), (b.earliest, b.latest));
}

#[test]
fn data_found_exactly_with_a_time_below_max_and_one_above_zero() {
    let mut both = TimeSpan::new();
    both.observe(-5);
    both.observe(i64::MAX);
    assert!(both.found_data());
    let mut zero = TimeSpan::new();
    zero.observe(0);
    assert!(!zero.found_data());
    let mut top = TimeSpan::new();
    top.observe(i64::MAX);
    assert!(!top.found_data());
    let mut one = TimeSpan::new();
    one.observe(5);
    assert!(one.found_data());
}

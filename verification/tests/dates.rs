use jobgraph::dates::{date_range, try_date_range, FIRST_TIMESTAMP, LAST_TIMESTAMP};

fn strings(v: &[&str]) -> Vec<String> {
    v.iter().map(|s| s.to_string()).collect()
}

#[test]
fn date_range_covers_each_day() {
    assert_eq!(date_range(0, 0), strings(&["1970-01-01"]));
    assert_eq!(
        date_range(1431648000, 1431648000 + 2 * 86400),
        strings(&["2015-05-15", "2015-05-16", "2015-05-17"])
    );
    assert_eq!(date_range(1431648000, 1431648000 + 2 * 86400 + 5), strings(&["2015-05-15", "2015-05-16", "2015-05-17"]));
}

#[test]
fn date_range_steps_whole_days_from_the_start() {
    assert_eq!(date_range(86399, 86400), strings(&["1970-01-01"]));
    assert_eq!(date_range(86399, 86399 + 86400), strings(&["1970-01-01", "1970-01-02"]));
}

#[test]
fn date_range_of_an_empty_span() {
    assert_eq!(date_range(5, 3), strings(&[]));
    assert_eq!(try_date_range(5, 3), Some(strings(&[])));
}

#[test]
fn date_range_at_the_edges_of_chrono() {
    assert_eq!(try_date_range(FIRST_TIMESTAMP - 1, 0), None);
    assert_eq!(try_date_range(0, LAST_TIMESTAMP + 1), None);
    assert_eq!(try_date_range(LAST_TIMESTAMP, LAST_TIMESTAMP), None);
    assert_eq!(try_date_range(LAST_TIMESTAMP - 86400, LAST_TIMESTAMP - 86400), Some(strings(&["+262142-12-30"])));
    assert_eq!(try_date_range(FIRST_TIMESTAMP, FIRST_TIMESTAMP), Some(strings(&["-262143-01-01"])));
    assert_eq!(try_date_range(LAST_TIMESTAMP - 86400, LAST_TIMESTAMP), None);
    assert_eq!(try_date_range(LAST_TIMESTAMP, FIRST_TIMESTAMP), Some(strings(&[])));
    assert_eq!(try_date_range(LAST_TIMESTAMP, FIRST_TIMESTAMP - 1), None);
}

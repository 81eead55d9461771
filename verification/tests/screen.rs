use jobgraph::screen::{
    chart_row_percent, charts_per_page, handle_key, info_text, key_is_allowed, sort_hostnames,
    tab_count, visible_charts, Key, KeyOutcome,
};

fn tab_after(tab: isize, num_tabs: usize, key: Key) -> Option<isize> {
    match handle_key(tab, num_tabs, key) {
        KeyOutcome::Quit => None,
        KeyOutcome::Stay(t) => Some(t),
    }
}

#[test]
fn page_layout() {
    assert_eq!(charts_per_page(5), 3);
    assert_eq!(charts_per_page(2), 2);
    assert_eq!(tab_count(7, 3), 3);
    assert_eq!(tab_count(6, 3), 2);
    assert_eq!(tab_count(0, 3), 0);
    assert_eq!(chart_row_percent(3), 33);
    assert_eq!(chart_row_percent(1), 100);
}

#[test]
fn keys_move_between_tabs() {
    assert_eq!(tab_after(0, 3, Key::Char('q')), None);
    assert_eq!(tab_after(0, 3, Key::Esc), None);
    assert_eq!(tab_after(0, 3, Key::Left), Some(2));
    assert_eq!(tab_after(2, 3, Key::Right), Some(0));
    assert_eq!(tab_after(1, 3, Key::Right), Some(2));
    assert_eq!(tab_after(1, 3, Key::Char('x')), Some(1));
    assert_eq!(tab_after(1, 3, Key::Other), Some(1));
    assert_eq!(tab_after(0, 0, Key::Right), Some(0));
    assert!(!key_is_allowed(0, 0, Key::Left));
    assert!(key_is_allowed(0, 1, Key::Left));
}

#[test]
fn charts_of_a_tab() {
    assert_eq!(visible_charts(7, 3, 1), vec![(3, 0), (4, 1), (5, 2)]);
    assert_eq!(visible_charts(7, 3, 2), vec![(6, 0)]);
    assert_eq!(visible_charts(7, 3, 3), vec![]);
    assert_eq!(visible_charts(2, 2, 0), vec![(0, 0), (1, 1)]);
}

#[test]
fn information_box() {
    let info = info_text(1, 3, "12345", 4000, 16);
    assert_eq!(info.cores, "16");
    assert_eq!(info.memory, "4000");
    assert_eq!(info.tab, Some("Tab: 2/3".to_string()));
    assert_eq!(info.title, "Job 12345");
    assert_eq!(info_text(0, 1, "7", 0, 1).tab, None);
}

#[test]
fn hosts_are_listed_in_order() {
    let names = vec!["c2-1".to_string(), "c10-1".to_string(), "c1-3".to_string(), "b".to_string()];
    let mut expected = names.clone();
    expected.sort();
    assert_eq!(sort_hostnames(names), expected);
    assert_eq!(sort_hostnames(vec![]), Vec::<String>::new());
}

#[test]
fn right_then_left_returns() {
    for num_tabs in 1..5usize {
        for tab in 0..num_tabs as isize {
            let right = tab_after(tab, num_tabs, Key::Right).unwrap();
            assert!(0 <= right && (right as usize) < num_tabs);
            assert_eq!(tab_after(right, num_tabs, Key::Left), Some(tab));
            let left = tab_after(tab, num_tabs, Key::Left).unwrap();
            assert_eq!(tab_after(left, num_tabs, Key::Right), Some(tab));
        }
    }
}

#[test]
fn edge_tabs_and_empty_pages() {
    assert_eq!(info_text(usize::MAX, 1, "9", 1, 2).tab, None);
    assert_eq!(visible_charts(0, 0, 0), vec![]);
    for num_tabs in 1..6usize {
        for tab in 0..num_tabs {
            let t = tab as isize;
            assert_eq!(tab_after(t, num_tabs, Key::Left), Some(((tab + num_tabs - 1) % num_tabs) as isize));
            assert_eq!(tab_after(t, num_tabs, Key::Right), Some(((tab + 1) % num_tabs) as isize));
        }
    }
}

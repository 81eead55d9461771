use jobgraph::nodelist::{
    parse_brackets, parse_int, parse_list, parse_node, try_parse_brackets, try_parse_int, try_parse_list,
    try_parse_node,
};

fn strings(v: &[&str]) -> Vec<String> {
    v.iter().map(|s| s.to_string()).collect::<Vec<String>>()
}

#[test]
fn test_parse_list() {
    assert_eq!(parse_list("c1-[0-1],c2-[2-3]"), strings(&["c1-0", "c1-1", "c2-2", "c2-3"]));
    assert_eq!(parse_list("c1-0,c2-0"), strings(&["c1-0", "c2-0"]));
    assert_eq!(parse_list("c1-0,c2-1"), strings(&["c1-0", "c2-1"]));
    assert_eq!(parse_list("c2-1"), strings(&["c2-1"]));
    assert_eq!(parse_list("c2-[1,3,5]"), strings(&["c2-1", "c2-3", "c2-5"]));
    assert_eq!(parse_list("c2-[1-3,5]"), strings(&["c2-1", "c2-2", "c2-3", "c2-5"]));
    assert_eq!(parse_list("c3-[1-3,5,9-12]"), strings(&["c3-1", "c3-2", "c3-3", "c3-5", "c3-9", "c3-10", "c3-11", "c3-12"]));
    assert_eq!(parse_list("c3-[5,9-12]"), strings(&["c3-5", "c3-9", "c3-10", "c3-11", "c3-12"]));
    assert_eq!(parse_list("c3-[5,9],c5-[15-19]"), strings(&["c3-5", "c3-9", "c5-15", "c5-16", "c5-17", "c5-18", "c5-19"]));
    assert_eq!(parse_list("c3-[5,9],c5-[15,17]"), strings(&["c3-5", "c3-9", "c5-15", "c5-17"]));
    assert_eq!(parse_list("c3-5,c7-[15,17]"), strings(&["c3-5", "c7-15", "c7-17"]));
    assert_eq!(parse_list("c3-[5,9],c8-175"), strings(&["c3-5", "c3-9", "c8-175"]));
    assert_eq!(parse_list("c1-20"), strings(&["c1-20"]));
    assert_eq!(parse_list("c1-34,c2-[3,21]"), strings(&["c1-34", "c2-3", "c2-21"]));
    assert_eq!(parse_list("c1-[34,37-38,41]"), strings(&["c1-34", "c1-37", "c1-38", "c1-41"]));
    assert_eq!(parse_list("c5-54,c11-30"), strings(&["c5-54", "c11-30"]));
    assert_eq!(parse_list("c2-[1,3-5]"), strings(&["c2-1", "c2-3", "c2-4", "c2-5"]));
}

#[test]
fn bracket_edge_cases() {
    assert_eq!(parse_list(""), strings(&[]));
    assert_eq!(parse_list("c[07]"), strings(&["c7"]));
    assert_eq!(parse_list("c[5-3]"), strings(&[]));
    assert_eq!(parse_list("c2-[1,3"), strings(&["c2-1"]));
    assert_eq!(parse_list("c[1],d"), strings(&["c1", "d"]));
    assert_eq!(parse_list("c[1]d"), strings(&["c1", "d"]));
    assert_eq!(parse_list("a,,b"), strings(&["a", "", "b"]));
    assert_eq!(parse_list("x[4294967294-4294967295]"), strings(&["x4294967294", "x4294967295"]));
}

#[test]
fn rejected_node_lists() {
    assert_eq!(try_parse_list("c[x]"), None);
    assert_eq!(try_parse_list("c[]"), Some(strings(&[])));
    assert_eq!(try_parse_list("c[4294967296]"), None);
    assert_eq!(try_parse_list("c[1-]"), None);
    assert_eq!(try_parse_list("c[1x]"), None);
    assert_eq!(try_parse_list("\u{e9},b"), None);
}

#[test]
fn non_ascii_names_are_cut_by_bytes() {
    assert_eq!(try_parse_list("\u{e9}"), Some(strings(&["\u{e9}"])));
    assert_eq!(try_parse_list("\u{e9}a,b"), Some(strings(&["\u{e9}", "", "b"])));
}

#[test]
fn lists_split_at_a_comma() {
    let parts = ["c1-[0-1]", "c2-5", "c3-[5,9-12]x", "d"];
    for a in parts {
        for b in parts {
            let mut expected = parse_list(a);
            expected.extend(parse_list(b));
            assert_eq!(parse_list(&format!("{},{}", a, b)), expected);
        }
    }
}

#[test]
fn numbers_at_the_start() {
    assert_eq!(parse_int("007,"), (7, ","));
    assert_eq!(parse_int("123"), (123, ""));
    assert_eq!(parse_int("4294967295]"), (4294967295, "]"));
    for (n, t) in [(0u32, ""), (42, "-7]"), (u32::MAX, "x")] {
        let text = format!("{}{}", n, t);
        assert_eq!(parse_int(&text), (n, t));
    }
    assert_eq!(try_parse_int(""), None);
    assert_eq!(try_parse_int("x]"), None);
    assert_eq!(try_parse_int("4294967296]"), None);
    assert_eq!(try_parse_int("12a"), Some((12, "a")));
}

#[test]
fn bracket_contents() {
    assert_eq!(parse_brackets("1-3,5],c2"), (vec![1, 2, 3, 5], ",c2"));
    assert_eq!(parse_brackets("07,9]"), (vec![7, 9], ""));
    assert_eq!(parse_brackets(""), (vec![], ""));
    assert_eq!(try_parse_brackets("x]"), None);
    assert_eq!(try_parse_brackets("1,x]"), None);
    assert_eq!(try_parse_brackets("1-]"), None);
    assert_eq!(try_parse_brackets("4294967296]"), None);
}

#[test]
fn first_entry_of_a_list() {
    assert_eq!(parse_node("c1,c2"), (strings(&["c1"]), "c2"));
    assert_eq!(parse_node("c1-[0-1],c2"), (strings(&["c1-0", "c1-1"]), "c2"));
    assert_eq!(parse_node("c3"), (strings(&["c3"]), ""));
    assert_eq!(try_parse_node("c[x]"), None);
    assert_eq!(try_parse_node("é,a"), None);
}

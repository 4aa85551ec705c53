use mipt_rust::comm::common_lines;

fn lines(v: &[&str]) -> Vec<String> {
    v.iter().map(|s| s.to_string()).collect()
}

#[test]
fn common_lines_in_order_of_big() {
    let small = lines(&["a", "b"]);
    let big = lines(&["b", "c", "b", "a"]);
    assert_eq!(common_lines(&small, &big), lines(&["b", "a"]));
}

#[test]
fn common_lines_none_shared() {
    let small = lines(&["x"]);
    let big = lines(&["y", "z"]);
    assert_eq!(common_lines(&small, &big), Vec::<String>::new());
}

#[test]
fn common_lines_empty_inputs() {
    assert_eq!(common_lines(&Vec::new(), &lines(&["a"])), Vec::<String>::new());
    assert_eq!(common_lines(&lines(&["a"]), &Vec::new()), Vec::<String>::new());
}

#[test]
fn common_lines_duplicates_in_small() {
    let small = lines(&["q", "q", "", "w"]);
    let big = lines(&["", "w", "", "w", "e"]);
    assert_eq!(common_lines(&small, &big), lines(&["", "w"]));
}

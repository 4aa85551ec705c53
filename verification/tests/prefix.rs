use mipt_rust::prefix::longest_common_prefix;

#[test]
fn common_prefixes() {
    assert_eq!(longest_common_prefix(vec!["flower", "flow", "flight"]), "fl");
    assert_eq!(longest_common_prefix(vec!["dog", "racecar", "car"]), "");
    assert_eq!(longest_common_prefix(vec![]), "");
    assert_eq!(longest_common_prefix(vec!["alone"]), "alone");
    assert_eq!(longest_common_prefix(vec!["привет", "прием"]), "при");
}

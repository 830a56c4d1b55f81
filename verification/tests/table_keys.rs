use reels_creator::bng::three_aztec_temples::models::{serialize_map_as_string_keys, unquoted_key};

#[test]
fn combination_keys_are_written_as_json_text() {
    let table = vec![(vec![1, 2, 3], 7), (vec![], 0), (vec![-4], 2)];
    let keys = serialize_map_as_string_keys(&table).unwrap();
    assert_eq!(keys, vec![("[1,2,3]".to_string(), 7), ("[]".to_string(), 0), ("[-4]".to_string(), 2)]);
    assert_eq!(serialize_map_as_string_keys(&vec![]).unwrap(), vec![]);
}

#[test]
fn string_keys_lose_their_quotes() {
    assert_eq!(unquoted_key("\"grand\""), "grand");
    assert_eq!(unquoted_key("\"\""), "");
    assert_eq!(unquoted_key("\""), "\"");
    assert_eq!(unquoted_key("12"), "12");
    assert_eq!(unquoted_key("\"a"), "\"a");
}

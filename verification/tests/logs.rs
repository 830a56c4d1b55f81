use reels_creator::json::{get_key, json_eq, Json};
use reels_creator::logs::{game_start_screens, lines_array_text_exec, log_array_text_exec, parse_array, parse_lines, parse_log};

#[test]
fn a_log_is_read_up_to_its_last_closing_brace() {
    assert_eq!(log_array_text_exec("{\"a\":1}\n{\"b\":2}\ntrailing"), "[{\"a\":1}\n{\"b\":2}]");
    assert_eq!(log_array_text_exec("no braces"), "[no braces]");
    assert_eq!(log_array_text_exec(""), "[]");
}

#[test]
fn documents_written_one_after_another_are_read_as_a_list() {
    let docs = parse_log("{\"a\":1},\n{\"b\":[true,null]},\n").unwrap();
    assert!(parse_log("{\"a\":1} {\"b\":2}").is_none());
    assert_eq!(docs.len(), 2);
    assert!(json_eq(get_key(Some(&docs[0]), "a").unwrap(), &Json::Int(1)));
    assert!(json_eq(get_key(Some(&docs[1]), "b").unwrap(), &Json::Array(vec![Json::Bool(true), Json::Null])));
    assert_eq!(parse_log("").unwrap().len(), 0);
    assert!(parse_log("{\"a\":}").is_none());
}

#[test]
fn numbers_keep_their_kind() {
    let docs = parse_array("[1, -2, 18446744073709551615, 1.5, \"x\"]").unwrap();
    let expected = Json::Array(vec![
        Json::Int(1),
        Json::Int(-2),
        Json::UInt(u64::MAX),
        Json::Float("1.5".to_string()),
        Json::Str("x".to_string()),
    ]);
    assert!(json_eq(&Json::Array(docs), &expected));
    assert!(parse_array("{\"a\": 1}").is_none());
    assert!(parse_array("[1,").is_none());
}

#[test]
fn game_start_screens_keep_only_start_matrices() {
    let txs = parse_array(
        "[{\"out\":[{\"action\":\"GameStartBasicResponse\",\"data\":{\"initialMatrix\":[[1,2]]}},\
          {\"action\":\"Other\",\"data\":{\"initialMatrix\":[[9]]}},\
          {\"action\":\"GameStartBasicResponse\",\"data\":{}}]},\
         {\"out\":{}},\
         {\"out\":[{\"action\":\"GameStartBasicResponse\",\"data\":{\"initialMatrix\":[[3]]}}]}]",
    )
    .unwrap();
    let screens = game_start_screens(&txs);
    assert_eq!(screens.len(), 2);
    let first = Json::Object(vec![(
        "initialMatrix".to_string(),
        Json::Array(vec![Json::Array(vec![Json::Int(1), Json::Int(2)])]),
    )]);
    assert!(json_eq(&screens[0], &first));
    let second = Json::Object(vec![("initialMatrix".to_string(), Json::Array(vec![Json::Array(vec![Json::Int(3)])]))]);
    assert!(json_eq(&screens[1], &second));
}

#[test]
fn a_log_of_lines_is_read_line_by_line() {
    assert_eq!(lines_array_text_exec("  {\"a\":1}  \n\n\t{\"b\":2}\r\n"), "[{\"a\":1},{\"b\":2}]");
    assert_eq!(lines_array_text_exec(""), "[]");
    assert_eq!(lines_array_text_exec("x"), "[x]");
    let docs = parse_lines("{\"a\":1}\n   \n{\"a\":2}").unwrap();
    assert_eq!(docs.len(), 2);
    assert!(parse_lines("{\"a\":1}\n{").is_none());
}

use reels_creator::json::{get_key, json_eq, Json};

#[test]
fn equal_documents_compare_equal() {
    let a = Json::Object(vec![("a".to_string(), Json::Array(vec![Json::Int(1), Json::Null]))]);
    let b = Json::Object(vec![("a".to_string(), Json::Array(vec![Json::Int(1), Json::Null]))]);
    let c = Json::Object(vec![("a".to_string(), Json::Array(vec![Json::Int(2), Json::Null]))]);
    assert!(json_eq(&a, &b));
    assert!(!json_eq(&a, &c));
    assert!(!json_eq(&Json::Int(1), &Json::UInt(1)));
}

#[test]
fn keys_are_looked_up() {
    let a = Json::Object(vec![("k".to_string(), Json::Bool(true))]);
    assert!(matches!(get_key(Some(&a), "k"), Some(Json::Bool(true))));
    assert!(get_key(Some(&a), "x").is_none());
    assert!(get_key(Some(&Json::Null), "k").is_none());
}

#[test]
fn float_zeros_of_either_sign_are_equal() {
    let pos = Json::Array(vec![Json::Float("0.0".to_string()), Json::Int(3)]);
    let neg = Json::Array(vec![Json::Float("-0.0".to_string()), Json::Int(3)]);
    assert!(json_eq(&pos, &neg));
    assert!(!json_eq(&Json::Float("-0.5".to_string()), &Json::Float("0.5".to_string())));
    assert!(!json_eq(&Json::Float("0.0".to_string()), &Json::Int(0)));
}

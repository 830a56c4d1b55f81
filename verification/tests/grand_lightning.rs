use reels_creator::games::enjoygaming::grand_lightning::{
    collect_coin_values_from, extract_by_filter, extract_coin_values, multiplier_filters_readable,
};
use reels_creator::json::Json;

fn s(x: &str) -> Json {
    Json::Str(x.to_string())
}

fn i(x: i64) -> Json {
    Json::Int(x)
}

fn arr(v: Vec<Json>) -> Json {
    Json::Array(v)
}

fn ints(v: &[i64]) -> Json {
    arr(v.iter().map(|x| i(*x)).collect())
}

fn obj(v: Vec<(&str, Json)>) -> Json {
    Json::Object(v.into_iter().map(|(k, x)| (k.to_string(), x)).collect())
}

fn tx(action: &str, spins: Json, bonus: Json) -> Json {
    obj(vec![
        ("in", obj(vec![("action", obj(vec![("name", s(action))]))])),
        ("out", obj(vec![("context", obj(vec![("bonus", bonus), ("spins", spins)]))])),
    ])
}

fn multi_spin(value: i64, bac_win: bool) -> Json {
    tx(
        "spin",
        obj(vec![
            ("bac_win", Json::Bool(bac_win)),
            ("board", arr(vec![ints(&[1, 12, 3])])),
            ("bs_values", arr(vec![ints(&[0, value, 0])])),
        ]),
        obj(vec![]),
    )
}

#[test]
fn filters_pick_multiplier_spins() {
    let ts = vec![multi_spin(2, true), multi_spin(3, true), multi_spin(2, false), multi_spin(5, true)];
    let r = extract_by_filter(&ts);
    assert_eq!(r.picked.len(), 10);
    assert_eq!(r.picked[0], vec![0]);
    assert_eq!(r.picked[1], vec![1]);
    assert_eq!(r.picked[2], vec![3]);
    assert!(r.picked[9].is_empty());
}

#[test]
fn filters_keep_at_most_five() {
    let ts: Vec<Json> = (0..7).map(|_| multi_spin(2, true)).collect();
    let r = extract_by_filter(&ts);
    assert_eq!(r.picked[0], vec![0, 1, 2, 3, 4]);
}

#[test]
fn filters_pick_bonus_changes() {
    let change = |sym: i64, mult: i64| obj(vec![("multiplier", i(mult)), ("symbol", i(sym))]);
    let bonus = obj(vec![
        ("changes", arr(vec![change(12, 3), change(12, 2)])),
        ("grand", ints(&[1, 2])),
        ("original_board", arr(vec![])),
    ]);
    let ts = vec![tx("respin", obj(vec![]), bonus)];
    let r = extract_by_filter(&ts);
    assert_eq!(r.picked[4], vec![0]);
    assert_eq!(r.picked[5], vec![0]);
    assert_eq!(r.picked[6], vec![0]);
    assert!(r.picked[7].is_empty());
    assert_eq!(r.picked[8], vec![0]);
    assert_eq!(r.picked[9], vec![0]);
}

#[test]
fn overlay_tracks_specials() {
    let spins = obj(vec![
        ("bac_win", Json::Bool(true)),
        ("board", arr(vec![ints(&[10, 11, 12]), ints(&[10, 11, 12]), ints(&[1, 2, 3])])),
        ("original_board", arr(vec![ints(&[1, 2, 10])])),
    ]);
    let ts = vec![tx("spin", spins, obj(vec![]))];
    let r = extract_by_filter(&ts);
    assert_eq!(r.overlay.less, vec![0]);
    assert_eq!((r.overlay.exists_min, r.overlay.exists_min_at), (1, Some(0)));
    assert_eq!((r.overlay.exists_max, r.overlay.exists_max_at), (1, Some(0)));
    assert_eq!((r.overlay.overlay_max, r.overlay.overlay_max_at), (6, Some(0)));
}

#[test]
fn coin_values_skip_multipliers_and_zeros() {
    let spins = obj(vec![("board", arr(vec![ints(&[1, 2, 12])])), ("bs_values", arr(vec![ints(&[5, 0, 7])]))]);
    let bonus = obj(vec![("bs_values", arr(vec![ints(&[9, 4])]))]);
    let r = extract_coin_values(&vec![tx("spin", spins, bonus)]);
    assert_eq!(r, vec![4, 5, 9]);
}

#[test]
fn coin_values_merge_into_ascending_order() {
    let mut out = vec![3, 8];
    let bs = arr(vec![ints(&[8, 1])]);
    let board = arr(vec![ints(&[0, 0])]);
    collect_coin_values_from(Some(&bs), Some(&board), &mut out);
    assert_eq!(out, vec![1, 3, 8]);
}

#[test]
fn test_extract_by_filter() {
    let r = extract_by_filter(&Vec::new());
    assert!(r.picked.iter().all(|p| p.is_empty()));
    assert_eq!(r.overlay.exists_min, 15);
}

#[test]
fn test_extract_coin_values() {
    assert!(extract_coin_values(&Vec::new()).is_empty());
}

#[test]
fn multiplier_filters_need_readable_changes() {
    let good = obj(vec![("changes", arr(vec![obj(vec![("multiplier", i(2)), ("symbol", i(12))])]))]);
    let bad = obj(vec![("changes", arr(vec![obj(vec![("symbol", i(12))])]))]);
    assert!(multiplier_filters_readable(&vec![tx("respin", obj(vec![]), good)]));
    assert!(!multiplier_filters_readable(&vec![tx("respin", obj(vec![]), bad)]));
}

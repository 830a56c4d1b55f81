use reels_creator::games::octoplay::super_grand_link_express_hold_and_win::{
    extract_respin_coin_values, extract_respin_reels, extract_spin_coin_values,
    extract_spin_combos, extract_spin_over_bonus, over_bonus_readable_exec, reels_long_exec,
    respin_readable_exec, symbol_letter,
};
use reels_creator::json::Json;

fn s(x: &str) -> Json {
    Json::Str(x.to_string())
}

fn i(x: i64) -> Json {
    Json::Int(x)
}

fn arr(v: Vec<Json>) -> Json {
    Json::Array(v)
}

fn ints(v: &[i64]) -> Json {
    arr(v.iter().map(|x| i(*x)).collect())
}

fn obj(v: Vec<(&str, Json)>) -> Json {
    Json::Object(v.into_iter().map(|(k, x)| (k.to_string(), x)).collect())
}

fn tx(spins: Vec<Json>) -> Json {
    obj(vec![("out", obj(vec![("result", obj(vec![("game", obj(vec![("spins", arr(spins))]))]))]))])
}

fn spin(kind: &str, data: Json) -> Json {
    obj(vec![("spinData", data), ("type", s(kind))])
}

fn coin_tile(from: i64) -> Json {
    obj(vec![("features", obj(vec![("multiplier", obj(vec![("from", i(from))]))])), ("tileId", i(11))])
}

fn plain_tile() -> Json {
    obj(vec![("tileId", i(5))])
}

#[test]
fn combos_are_counted_per_column_in_ascending_order() {
    let t1 = tx(vec![spin("baseSpin", obj(vec![("reels", arr(vec![ints(&[0, 0, 0, 1, 2, 3]), ints(&[0, 0, 0, 4, 5, 6])]))]))]);
    let t2 = tx(vec![spin("baseSpin", obj(vec![("reels", arr(vec![ints(&[0, 0, 0, 1, 2, 3]), ints(&[0, 0, 0, 7, 8, 9])]))]))]);
    let t3 = tx(vec![spin("baseSpin", obj(vec![("reels", arr(vec![ints(&[0, 0, 0, 1, 2, 3])]))]))]);
    let r = extract_spin_combos(&vec![t1, t2, t3]);
    assert_eq!(r.len(), 2);
    assert_eq!(r[0], vec![(vec![1, 2, 3], 3)]);
    assert_eq!(r[1].len(), 2);
    assert!(r[1].contains(&(vec![4, 5, 6], 1)));
    assert!(r[1].contains(&(vec![7, 8, 9], 1)));
}

#[test]
fn combos_skip_columns_without_three_numbers() {
    let t = tx(vec![spin("baseSpin", obj(vec![("reels", arr(vec![ints(&[0, 0, 0, 1, 2, 3]), arr(vec![i(0), i(0), i(0), i(1), s("x"), i(3)])]))]))]);
    let r = extract_spin_combos(&vec![t]);
    assert_eq!(r.len(), 1);
}

#[test]
fn over_bonus_counts_high_symbols_of_the_payout() {
    let payout = arr((0..5).map(|_| ints(&[0, 0, 0, 10, 10, 1])).collect());
    let data = obj(vec![("activator", i(1)), ("reels", ints(&[1])), ("reelsPayout", payout)]);
    let bonus = tx(vec![spin("baseSpin", data)]);
    let plain = tx(vec![spin("baseSpin", obj(vec![("reels", ints(&[1]))]))]);
    let r = extract_spin_over_bonus(&vec![bonus, plain]);
    assert_eq!(r.total, 2);
    assert_eq!(r.matched, 1);
    assert_eq!(r.counts.len(), 11);
    assert_eq!(r.counts[5], 1);
    let tallied: u64 = r.counts.iter().sum();
    assert!(tallied <= r.matched);
}

#[test]
fn over_bonus_needs_changed_reels() {
    let data = obj(vec![("activator", i(1)), ("reels", ints(&[1])), ("reelsPayout", ints(&[1]))]);
    let r = extract_spin_over_bonus(&vec![tx(vec![spin("baseSpin", data)])]);
    assert_eq!(r.matched, 0);
}

#[test]
fn test_extract_spin_hit() {
    // the bonus hits among the spins: only a spin that activates the bonus and changes
    // its reels counts
    let hit = obj(vec![("activator", i(1)), ("reels", ints(&[1])), ("reelsPayout", arr(vec![ints(&[0, 0, 0, 10, 11, 12])]))]);
    let miss = obj(vec![("reels", ints(&[1])), ("reelsPayout", arr(vec![ints(&[0, 0, 0, 10, 11, 12])]))]);
    let r = extract_spin_over_bonus(&vec![tx(vec![spin("baseSpin", hit)]), tx(vec![spin("baseSpin", miss)])]);
    assert_eq!(r.total, 2);
    assert_eq!(r.matched, 1);
    assert_eq!(r.counts.iter().sum::<u64>(), 0);
}

#[test]
fn coin_values_tally_multipliers_of_free_spins() {
    let coins = spin("freeSpin", obj(vec![("cashTiles", arr(vec![coin_tile(3), plain_tile(), coin_tile(2), coin_tile(3)]))]));
    let plain = spin("freeSpin", obj(vec![("cashTiles", arr(vec![plain_tile(), plain_tile()]))]));
    let base = spin("baseSpin", obj(vec![("cashTiles", arr(vec![coin_tile(9)]))]));
    let ts = vec![tx(vec![coins, plain, base])];
    let r = extract_spin_coin_values(&ts);
    assert_eq!(r.total_tiles, 6);
    assert_eq!(r.counts, vec![(2, 1), (3, 2)]);
    let rr = extract_respin_coin_values(&ts);
    assert_eq!(rr.total_tiles, 4);
    assert_eq!(rr.counts, vec![(2, 1), (3, 2)]);
}

#[test]
fn respin_reels_mark_cells() {
    let reels = arr(vec![ints(&[0, 0, 0, 10, 11, 12]), ints(&[0, 0, 0, 13, 14, 15]), ints(&[1, 2, 3])]);
    let payout = arr(vec![ints(&[0]), ints(&[0]), ints(&[1, 9, 3])]);
    let ts = vec![tx(vec![spin("freeSpin", obj(vec![("reels", reels), ("reelsPayout", payout)]))])];
    let r = extract_respin_reels(&ts);
    assert_eq!(r.total_count, 1);
    let cells: Vec<(usize, usize)> = r.cells.iter().map(|c| c.0).collect();
    assert_eq!(cells, vec![(0, 0), (0, 1), (0, 2), (1, 0), (1, 1), (1, 2), (2, 0), (2, 1), (2, 2)]);
    assert_eq!(r.cells[0].1, vec![1, 0, 0, 0, 0, 0, 0]);
    assert_eq!(r.cells[5].1, vec![0, 0, 0, 0, 0, 1, 0]);
    assert_eq!(r.cells[6].1, vec![0, 0, 0, 0, 0, 0, 1]);
    assert_eq!(r.cells[7].1, vec![0; 7]);
}

#[test]
fn mod_test_extract_spin_combos() {
    assert_eq!(extract_spin_combos(&Vec::new()).len(), 0);
}

#[test]
fn mod_test_extract_spin_over_bonus() {
    let r = extract_spin_over_bonus(&Vec::new());
    assert_eq!((r.total, r.matched), (0, 0));
}

#[test]
fn spin_coin_values_of_empty_history() {
    let r = extract_spin_coin_values(&Vec::new());
    assert_eq!((r.total_tiles, r.counts.len()), (0, 0));
}

#[test]
fn test_extract_respin_reels() {
    let r = extract_respin_reels(&Vec::new());
    assert_eq!((r.total_count, r.cells.len()), (0, 0));
}

#[test]
fn mod_test_extract_respin_coin_values() {
    let r = extract_respin_coin_values(&Vec::new());
    assert_eq!((r.total_tiles, r.counts.len()), (0, 0));
}

#[test]
fn main_test_extract_spin_combos() {
    assert!(extract_spin_combos(&Vec::new()).is_empty());
}

#[test]
fn main_test_extract_spin_over_bonus() {
    assert_eq!(extract_spin_over_bonus(&Vec::new()).counts, vec![0; 11]);
}

#[test]
fn spin_coin_values_of_empty_history_has_no_counts() {
    assert!(extract_spin_coin_values(&Vec::new()).counts.is_empty());
}

#[test]
fn main_test_extract_respin_coin_values() {
    assert!(extract_respin_coin_values(&Vec::new()).counts.is_empty());
}

#[test]
fn readability_checks_find_short_columns() {
    let long = tx(vec![spin("baseSpin", obj(vec![("reels", arr(vec![ints(&[0, 0, 0, 1, 2, 3])]))]))]);
    let short = tx(vec![spin("baseSpin", obj(vec![("reels", arr(vec![ints(&[0, 0, 1])]))]))]);
    assert!(reels_long_exec(&long));
    assert!(!reels_long_exec(&short));
    let bonus = |payout: Json| {
        tx(vec![spin("baseSpin", obj(vec![("activator", i(1)), ("reels", ints(&[1])), ("reelsPayout", payout)]))])
    };
    assert!(over_bonus_readable_exec(&bonus(arr(vec![ints(&[0, 0, 0, 10, 10, 1])]))));
    assert!(!over_bonus_readable_exec(&bonus(arr(vec![ints(&[0, 0, 10])]))));
    // a spin that is no bonus is not read for it
    assert!(over_bonus_readable_exec(&short));
}

#[test]
fn respin_readability_checks_the_middle_column() {
    let free = |reels: Json, payout: Json| tx(vec![spin("freeSpin", obj(vec![("reels", reels), ("reelsPayout", payout)]))]);
    let col = || ints(&[0, 0, 0, 1, 2, 3]);
    let good = free(arr(vec![col(), col(), col()]), arr(vec![col(), col(), col()]));
    assert!(respin_readable_exec(&good));
    let short = free(arr(vec![ints(&[0, 1]), col(), col()]), arr(vec![col(), col(), col()]));
    assert!(!respin_readable_exec(&short));
    let longer_payout = free(
        arr(vec![col(), col(), ints(&[1, 2])]),
        arr(vec![col(), col(), ints(&[1, 2, 3])]),
    );
    assert!(!respin_readable_exec(&longer_payout));
}

#[test]
fn symbols_are_named_by_letters() {
    assert_eq!(symbol_letter(1), 'A');
    assert_eq!(symbol_letter(10), 'J');
    assert_eq!(symbol_letter(16), 'P');
    assert_eq!(symbol_letter(26), 'Z');
}

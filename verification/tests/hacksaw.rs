use reels_creator::games::hacksaw::gladius_death_or_glory::{
    _convert_symbol_to_letter, _extract_spin_coin_values, extract_fs_spin_coin_cell,
    extract_fs_spin_coin_values, extract_fs_spin_coins, extract_fs_spin_collector,
    extract_fs_spin_multypliers, extract_spin_bonus, extract_spin_coin_cell,
    extract_spin_coin_values, extract_spin_coins, extract_spin_collector,
    extract_spin_multypliers, collect_rounds, grids_full, steps_fit, lettered_counts, _extract_spin_coin_values_by_letter,
};
use reels_creator::json::Json;

fn s(x: &str) -> Json {
    Json::Str(x.to_string())
}

fn arr(v: Vec<Json>) -> Json {
    Json::Array(v)
}

fn obj(v: Vec<(&str, Json)>) -> Json {
    Json::Object(v.into_iter().map(|(k, x)| (k.to_string(), x)).collect())
}

/// A grid of 25 cells, `cells` first, the rest `A`.
fn grid(cells: &str) -> String {
    let mut g = String::from("gg");
    g.push_str(cells);
    while g.chars().count() < 27 {
        g.push('A');
    }
    g
}

fn event(etn: &str, cells: &str) -> Json {
    obj(vec![("c", obj(vec![("grid", s(&grid(cells)))])), ("etn", s(etn))])
}

fn cash_event(etn: &str, cells: &str, h: &str) -> Json {
    let action = obj(vec![("at", s("cashWin")), ("data", obj(vec![("h", s(h))]))]);
    obj(vec![
        ("c", obj(vec![("actions", arr(vec![action])), ("grid", s(&grid(cells)))])),
        ("etn", s(etn)),
    ])
}

fn tx(events: Vec<Json>) -> Json {
    obj(vec![("out", obj(vec![("round", obj(vec![("events", arr(events))]))]))])
}

#[test]
fn coin_cell_counts_empty_coins_of_reveal_grids() {
    let ts = vec![tx(vec![event("reveal", "((((3"), event("other", "(((((("), event("reveal", "(")])];
    let r = extract_spin_coin_cell(&ts);
    assert_eq!(r.grids_count, 2);
    assert_eq!(r.count, 5);
}

#[test]
fn bonus_counts_bonus_cells() {
    let ts = vec![tx(vec![event("reveal", "33(3")]), tx(vec![event("reveal", "3")])];
    let r = extract_spin_bonus(&ts);
    assert_eq!(r.grids_count, 2);
    assert_eq!(r.count, 4);
}

#[test]
fn spin_coins_counts_line_masks() {
    // cell 0 holds a coin, every other cell is an empty coin
    let mut cells = String::from("G");
    for _ in 0..24 {
        cells.push('(');
    }
    let ts = vec![tx(vec![event("reveal", &cells)])];
    let r = extract_spin_coins(&ts);
    assert_eq!(r.grids_count, 1);
    assert_eq!(r.combos.len(), 5);
    assert_eq!(r.combos[0][1], 1);
    assert_eq!(r.combos[0][0], 0);
    for line in 1..5 {
        assert_eq!(r.combos[line][0], 1);
    }
}

#[test]
fn fs_spin_coins_reads_free_spin_grids_only() {
    let mut cells = String::new();
    for _ in 0..25 {
        cells.push('(');
    }
    let ts = vec![tx(vec![event("fs_reveal", &cells), event("reveal", &cells)])];
    let r = extract_fs_spin_coins(&ts);
    assert_eq!(r.grids_count, 1);
    for line in 0..5 {
        assert_eq!(r.combos[line][0], 1);
    }
}

#[test]
fn coin_values_count_each_cell_once_per_round() {
    let ts = vec![
        tx(vec![event("coin_reveal_1", "=="), event("coin_reveal_2", "=A>")]),
        tx(vec![event("coin_reveal_1", "=")]),
    ];
    let r = extract_spin_coin_values(&ts);
    assert_eq!(r.grids_count, 3);
    assert_eq!(r.counts.len(), 12);
    assert_eq!(r.counts[0], 3);
    assert_eq!(r.counts[1], 1);
    assert_eq!(r.counts[2], 0);
}

#[test]
fn coin_values_with_multipliers_have_nineteen_symbols() {
    let ts = vec![tx(vec![event("coin_reveal_1", ")+0T")])];
    let r = _extract_spin_coin_values(&ts);
    assert_eq!(r.counts.len(), 19);
    assert_eq!(r.counts[11], 1);
    assert_eq!(r.counts[12], 1);
    assert_eq!(r.counts[13], 1);
    assert_eq!(r.counts[18], 1);
}

#[test]
fn collector_counts_first_seen_collectors() {
    let ts = vec![tx(vec![event("coin_reveal_1", ")"), event("coin_reveal_2", "))")])];
    let r = extract_spin_collector(&ts);
    assert_eq!(r.grids_count, 2);
    assert_eq!(r.count, 2);
}

#[test]
fn multipliers_count_by_symbol() {
    let ts = vec![tx(vec![event("coin_reveal_1", "+,-./0")])];
    let r = extract_spin_multypliers(&ts);
    assert_eq!(r.counts, vec![1, 1, 1, 1, 1, 1]);
}

#[test]
fn fs_coin_values_read_free_spin_coin_grids() {
    let ts = vec![tx(vec![event("fs_coin_reveal_1", "=?"), event("coin_reveal_1", "=")])];
    let r = extract_fs_spin_coin_values(&ts);
    assert_eq!(r.grids_count, 1);
    assert_eq!(r.counts[0], 1);
    assert_eq!(r.counts[2], 1);
}

#[test]
fn fs_coin_cell_counts_cells_beyond_the_step() {
    let ts = vec![tx(vec![
        event("fs_reveal", "((("),
        cash_event("fs_coin_reveal_1", "", "11"),
        event("fs_reveal", "(((("),
    ])];
    let r = extract_fs_spin_coin_cell(&ts);
    assert_eq!(r.grids_count[0], 1);
    assert_eq!(r.counts[0], 3);
    assert_eq!(r.grids_count[2], 1);
    assert_eq!(r.counts[2], 2);
}

#[test]
fn fs_collector_counts_per_step() {
    let ts = vec![tx(vec![
        cash_event("fs_coin_reveal_1", ")", "1"),
        event("fs_coin_reveal_2", "))"),
    ])];
    let r = extract_fs_spin_collector(&ts);
    assert_eq!(r.grids_count[0], 1);
    assert_eq!(r.counts[0], 1);
    assert_eq!(r.grids_count[1], 1);
    assert_eq!(r.counts[1], 1);
}

#[test]
fn fs_multipliers_count_per_step() {
    let ts = vec![tx(vec![event("fs_coin_reveal_1", "+0")])];
    let r = extract_fs_spin_multypliers(&ts);
    assert_eq!(r.grids_count[0], 1);
    assert_eq!(r.counts[0], vec![1, 0, 0, 0, 0, 1]);
}

#[test]
fn symbols_convert_to_letters() {
    assert_eq!(_convert_symbol_to_letter('\\'), 'A');
    assert_eq!(_convert_symbol_to_letter(')'), 'E');
    assert_eq!(_convert_symbol_to_letter('='), 'K');
    assert_eq!(_convert_symbol_to_letter('('), 'O');
    assert_eq!(_convert_symbol_to_letter('3'), 'P');
    assert_eq!(_convert_symbol_to_letter('0'), 'Z');
    assert_eq!(_convert_symbol_to_letter('x'), 'x');
}

#[test]
fn mod_test_extract_spin_coins() {
    let r = extract_spin_coins(&Vec::new());
    assert_eq!(r.grids_count, 0);
}

#[test]
fn mod_test_extract_spin_coin_cell() {
    let r = extract_spin_coin_cell(&Vec::new());
    assert_eq!((r.grids_count, r.count), (0, 0));
}

#[test]
fn mod_test_extract_spin_coin_values() {
    let r = extract_spin_coin_values(&Vec::new());
    assert_eq!(r.grids_count, 0);
}

#[test]
fn mod_test_extract_spin_bonus() {
    let r = extract_spin_bonus(&Vec::new());
    assert_eq!((r.grids_count, r.count), (0, 0));
}

#[test]
fn mod_test_extract_spin_collector() {
    let r = extract_spin_collector(&Vec::new());
    assert_eq!((r.grids_count, r.count), (0, 0));
}

#[test]
fn mod_test_extract_spin_multypliers() {
    let r = extract_spin_multypliers(&Vec::new());
    assert_eq!(r.counts, vec![0; 6]);
}

#[test]
fn mod_test_extract_fs_spin_coins() {
    let r = extract_fs_spin_coins(&Vec::new());
    assert_eq!(r.grids_count, 0);
}

#[test]
fn mod_test_extract_fs_spin_coin_cell() {
    let r = extract_fs_spin_coin_cell(&Vec::new());
    assert_eq!(r.grids_count, vec![0; 25]);
}

#[test]
fn mod_test_extract_fs_spin_coin_values() {
    let r = extract_fs_spin_coin_values(&Vec::new());
    assert_eq!(r.counts, vec![0; 19]);
}

#[test]
fn mod_test_extract_fs_spin_collector() {
    let r = extract_fs_spin_collector(&Vec::new());
    assert_eq!(r.counts, vec![0; 25]);
}

#[test]
fn mod_test_extract_fs_spin_multypliers() {
    let r = extract_fs_spin_multypliers(&Vec::new());
    assert_eq!(r.grids_count, vec![0; 25]);
}

#[test]
fn main_test_extract_spin_coins() {
    assert_eq!(extract_spin_coins(&Vec::new()).combos, vec![vec![0u64; 32]; 5]);
}

#[test]
fn main_test_extract_spin_coin_cell() {
    assert_eq!(extract_spin_coin_cell(&Vec::new()).count, 0);
}

#[test]
fn main_test_extract_spin_coin_values() {
    assert_eq!(extract_spin_coin_values(&Vec::new()).counts, vec![0; 12]);
}

#[test]
fn main_test_extract_spin_bonus() {
    assert_eq!(extract_spin_bonus(&Vec::new()).count, 0);
}

#[test]
fn main_test_extract_spin_collector() {
    assert_eq!(extract_spin_collector(&Vec::new()).grids_count, 0);
}

#[test]
fn main_test_extract_spin_multypliers() {
    assert_eq!(extract_spin_multypliers(&Vec::new()).grids_count, 0);
}

#[test]
fn main_test_extract_fs_spin_coins() {
    assert_eq!(extract_fs_spin_coins(&Vec::new()).combos, vec![vec![0u64; 32]; 5]);
}

#[test]
fn main_test_extract_fs_spin_coin_cell() {
    assert_eq!(extract_fs_spin_coin_cell(&Vec::new()).counts, vec![0; 25]);
}

#[test]
fn main_test_extract_fs_spin_coin_values() {
    assert_eq!(extract_fs_spin_coin_values(&Vec::new()).grids_count, 0);
}

#[test]
fn main_test_extract_fs_spin_collector() {
    assert_eq!(extract_fs_spin_collector(&Vec::new()).grids_count, vec![0; 25]);
}

#[test]
fn main_test_extract_fs_spin_multypliers() {
    assert_eq!(extract_fs_spin_multypliers(&Vec::new()).counts, vec![vec![0u64; 6]; 25]);
}

fn short_event(etn: &str) -> Json {
    obj(vec![("c", obj(vec![("grid", s("gg((("))])), ("etn", s(etn))])
}

#[test]
fn grids_full_finds_a_short_grid() {
    let ok = vec![tx(vec![event("reveal", "((")])];
    assert!(grids_full(&collect_rounds(&ok, "reveal", false, false)));
    let short = vec![tx(vec![event("reveal", "(("), short_event("reveal")])];
    assert!(!grids_full(&collect_rounds(&short, "reveal", false, false)));
    // a short grid of another event is not read
    assert!(grids_full(&collect_rounds(&short, "fs_reveal", false, false)));
}

#[test]
fn steps_fit_checks_the_step_and_the_empty_cells() {
    let pat = "fs_coin_reveal_";
    let ok = vec![tx(vec![cash_event("fs_coin_reveal_a", "(", "111"), event("fs_coin_reveal_a", "((((")])];
    let rounds = collect_rounds(&ok, pat, true, true);
    assert!(steps_fit(&rounds, false));
    assert!(steps_fit(&rounds, true));
    let few = vec![tx(vec![cash_event("fs_coin_reveal_a", "(", "111"), event("fs_coin_reveal_a", "((")])];
    let rounds = collect_rounds(&few, pat, true, true);
    assert!(steps_fit(&rounds, false));
    assert!(!steps_fit(&rounds, true));
    let far = vec![tx(vec![cash_event("fs_coin_reveal_a", "(", &"1".repeat(30)), event("fs_coin_reveal_a", "(")])];
    assert!(!steps_fit(&collect_rounds(&far, pat, true, true), false));
}

#[test]
fn counts_are_paired_with_their_letters() {
    let r = lettered_counts(&vec!['=', ')', '0'], &vec![3, 0, 7]);
    assert_eq!(r, vec![('K', 3), ('E', 0), ('Z', 7)]);
}

#[test]
fn spin_coin_values_by_letter_name_each_count() {
    let ts = vec![tx(vec![event("coin_reveal_1", "=="), event("coin_reveal_1", "=)0")])];
    let plain = _extract_spin_coin_values(&ts);
    let (grids, lettered) = _extract_spin_coin_values_by_letter(&ts);
    assert_eq!(grids, plain.grids_count);
    let letters: String = lettered.iter().map(|(l, _)| *l).collect();
    assert_eq!(letters, "KLMNGHIJQRSTEUVWXYZ");
    let counts: Vec<u64> = lettered.iter().map(|(_, c)| *c).collect();
    assert_eq!(counts, plain.counts);
}

use reels_creator::bng::china_festival::convert::{
    amount_bin_ranges, amount_readable, fugaso_by_amount, mechanics_name, mechanics_str_name, num_str_to_letter,
};
use reels_creator::json::Json;

fn s(x: &str) -> Json {
    Json::Str(x.to_string())
}

fn i(x: i64) -> Json {
    Json::Int(x)
}

fn arr(v: Vec<Json>) -> Json {
    Json::Array(v)
}

fn obj(v: Vec<(&str, Json)>) -> Json {
    Json::Object(v.into_iter().map(|(k, x)| (k.to_string(), x)).collect())
}

fn played(context: Json) -> Json {
    obj(vec![("out", obj(vec![("command", s("play")), ("context", context), ("status", obj(vec![("code", s("OK"))]))]))])
}

#[test]
fn mechanics_names_follow_the_ids() {
    assert_eq!(mechanics_name(vec![3, 1, 1]), "AddCluster");
    assert_eq!(mechanics_name(vec![2]), "Twice");
    assert_eq!(mechanics_name(vec![7]), "");
    assert_eq!(mechanics_str_name("231"), "AddTwiceCluster");
    assert_eq!(mechanics_str_name("x3"), "Cluster");
}

#[test]
fn number_texts_name_letters() {
    assert_eq!(num_str_to_letter("1"), Some("A".to_string()));
    assert_eq!(num_str_to_letter("26"), Some("Z".to_string()));
    assert_eq!(num_str_to_letter("+3"), Some("C".to_string()));
    assert_eq!(num_str_to_letter("007"), Some("G".to_string()));
    assert_eq!(num_str_to_letter("27"), None);
    assert_eq!(num_str_to_letter("0"), None);
    assert_eq!(num_str_to_letter(""), None);
    assert_eq!(num_str_to_letter("+"), None);
    assert_eq!(num_str_to_letter("-1"), None);
    assert_eq!(num_str_to_letter("1a"), None);
}

#[test]
fn every_number_reads_back_as_its_letter() {
    for n in 1..=26u8 {
        let letter = ((b'A' + n - 1) as char).to_string();
        assert_eq!(num_str_to_letter(&n.to_string()), Some(letter));
    }
}

#[test]
fn amounts_are_binned_and_checked() {
    let spin = played(obj(vec![
        ("current", s("spins")),
        ("last_action", s("spin")),
        ("spins", obj(vec![("board", arr(vec![arr(vec![i(11), i(12)])])), ("round_bet", i(100)), ("round_win", i(250))])),
    ]));
    let respin = played(obj(vec![
        ("bonus", obj(vec![
            ("bonus_scenario", i(1)),
            ("boost_values", arr(vec![])),
            ("collect_values", arr(vec![i(1)])),
            ("double_values", arr(vec![])),
            ("mystery_values", arr(vec![])),
            ("new_bs", arr(vec![arr(vec![]), arr(vec![]), arr(vec![]), arr(vec![])])),
            ("round_bet", i(10)),
            ("round_win", i(5)),
        ])),
        ("current", s("bonus")),
        ("last_action", s("respin")),
    ]));
    let r = fugaso_by_amount(&vec![spin, respin]);
    let labels: Vec<(String, usize)> = r.checkings.clone();
    assert_eq!(labels, vec![
        ("base_game_more_one_bonus_in_column".to_string(), 0),
        ("coin_more_2_without_bonus_symbols_and_mystery".to_string(), 1),
        ("coin_and_bonus_symbols_more_2_without_mystery".to_string(), 1),
    ]);
    assert_eq!(r.counts.len(), 6);
    assert_eq!(r.counts[0][1], 1);
    assert_eq!(r.counts[4][0], 1);
    let total: u64 = r.counts.iter().map(|row| row.iter().sum::<u64>()).sum();
    assert_eq!(total, 2);
}

#[test]
fn bought_spins_use_the_mode_price() {
    let buy = played(obj(vec![
        ("current", s("spins")),
        ("last_action", s("buy_spin")),
        ("last_args", obj(vec![("bet_per_line", i(1))])),
        ("spins", obj(vec![("round_win", i(20000)), ("selected_mode", s("1"))])),
    ]));
    let r = fugaso_by_amount(&vec![buy]);
    assert_eq!(r.counts[1][3], 1);
}

#[test]
fn unplayed_transactions_count_nothing() {
    let r = fugaso_by_amount(&vec![obj(vec![("out", obj(vec![("command", s("init"))]))])]);
    assert!(r.checkings.is_empty());
    assert!(r.counts.iter().all(|row| row.iter().all(|c| *c == 0)));
}

#[test]
fn amount_readability_finds_overdrawn_tallies_and_huge_bets() {
    let respin = |new_bs: usize, collect: usize| {
        played(obj(vec![
            ("bonus", obj(vec![
                ("collect_values", arr((0..collect).map(|_| i(1)).collect())),
                ("new_bs", arr((0..new_bs).map(|_| arr(vec![])).collect())),
                ("round_win", i(0)),
            ])),
            ("current", s("bonus")),
            ("last_action", s("respin")),
        ]))
    };
    assert!(amount_readable(&respin(3, 2)));
    assert!(!amount_readable(&respin(1, 2)));
    let buy = |per_line: i64| {
        played(obj(vec![
            ("current", s("spins")),
            ("last_action", s("buy_spin")),
            ("last_args", obj(vec![("bet_per_line", i(per_line))])),
            ("spins", obj(vec![("round_win", i(5)), ("selected_mode", s("2"))])),
        ]))
    };
    assert!(amount_readable(&buy(1)));
    assert!(!amount_readable(&buy(i64::MAX / 1000)));
}

#[test]
fn amount_bins_cover_wins_up_to_a_million_bets() {
    let bins = amount_bin_ranges();
    assert_eq!(bins.len(), 22);
    assert_eq!(bins[0], (0, 1));
    assert_eq!(bins[21], (11000, 1000000));
    for k in 1..bins.len() {
        assert_eq!(bins[k].0, bins[k - 1].1);
    }
}

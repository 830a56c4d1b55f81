use reels_creator::bng::china_festival::fugaso::{fugaso_coin_values, fugaso_lines, fugaso_symbol_rows, fugaso_tables, fugaso_wins};
use reels_creator::bng::three_aztec_temples::models::{Bonus, Categories, Category, Col, Row, Spins, Symbol};
use reels_creator::json::Json;
use reels_creator::logs::parse_array;

fn doc(text: &str) -> Json {
    parse_array(&format!("[{}]", text)).unwrap().remove(0)
}

const SETTINGS: &str = r#"{"buy_bonus_price_1": 100, "buy_bonus_price_2": 300,
  "paylines": [[1, 1, 1], [0, 2, 7], "x", [1.5]],
  "paytable": {"1": [{"multiplier": 5, "occurrences": 3}, {"occurrences": 4}], "27": [], "2": [{"multiplier": 9, "occurrences": 5}], "3": "x"}}"#;

#[test]
fn paylines_are_drawn_as_text() {
    let lines = fugaso_lines(&doc(SETTINGS)).unwrap();
    assert_eq!(lines, vec!["---".to_string(), "^_?".to_string(), "?".to_string()]);
    assert!(fugaso_lines(&doc("{}")).is_none());
    assert_eq!(fugaso_lines(&doc(r#"{"paylines": 3}"#)).unwrap().len(), 0);
}

#[test]
fn paytable_wins_are_lettered() {
    let wins = fugaso_wins(&doc(SETTINGS)).unwrap();
    assert_eq!(wins, vec![("A".to_string(), vec![(3, 5)]), ("B".to_string(), vec![(5, 9)])]);
    assert!(fugaso_wins(&doc("{}")).is_none());
}

fn cat(spins: i64, mystery_ids: Vec<i64>) -> Category {
    Category {
        spins: Spins { count: spins, ..Default::default() },
        bonus: Bonus {
            symbols: vec![Symbol { id: 14, count: 2, ..Default::default() }, Symbol { id: 15, count: 7, ..Default::default() }],
            mystery_symbols: mystery_ids.iter().map(|&id| Symbol { id, count: id * 10, ..Default::default() }).collect(),
            ..Default::default()
        },
        ..Default::default()
    }
}

#[test]
fn the_tables_are_gathered_when_everything_is_there() {
    let c = Categories {
        category: vec![cat(30, vec![1, 26]), cat(10, vec![])],
        buy_category: vec![vec![cat(1, vec![])], vec![]],
        settings: doc(SETTINGS),
    };
    let t = fugaso_tables(&c, &vec![]).unwrap();
    assert_eq!(t.bet_counters, (100, 300));
    assert_eq!(t.base_counts, vec![30, 10]);
    assert_eq!(t.mystery_count, 7);
    assert_eq!(t.mysteries, vec![(10, 'A'), (260, 'Z')]);
    assert_eq!(t.lines.len(), 3);
    assert_eq!(t.wins.len(), 2);
    assert_eq!(t.buy_inits, vec![0, 0]);
    assert_eq!(t.reels, vec![Vec::<String>::new(), vec![]]);

    let missing = Categories { category: vec![cat(1, vec![27])], buy_category: vec![vec![], vec![]], settings: doc(SETTINGS) };
    assert!(fugaso_tables(&missing, &vec![]).is_none());
    let one_group = Categories { category: vec![cat(1, vec![])], buy_category: vec![vec![]], settings: doc(SETTINGS) };
    assert!(fugaso_tables(&one_group, &vec![]).is_none());
}

fn landed(id: i64, cols: Vec<Vec<i64>>) -> Symbol {
    Symbol {
        id,
        cols: cols.into_iter().map(|rows| Col { count: 0, rows: rows.into_iter().map(|count| Row { count }).collect() }).collect(),
        ..Default::default()
    }
}

#[test]
fn appearing_symbols_are_summed_by_row() {
    let mut a = Category::default();
    a.spins.symbols = vec![landed(11, vec![vec![1, 2, 3], vec![4, 5, 6]]), landed(3, vec![vec![100, 100, 100]])];
    let mut b = Category::default();
    b.spins.symbols = vec![landed(11, vec![vec![10]]), landed(12, vec![vec![0, 7]])];
    let rows = fugaso_symbol_rows(&vec![a.clone(), b.clone()], &vec![11, 12, 11]).unwrap();
    assert_eq!(rows, vec![(11, vec![15, 7, 9]), (12, vec![0, 7, 0]), (11, vec![0, 0, 0])]);
    let mut wide = Category::default();
    wide.spins.symbols = vec![landed(12, vec![vec![1, 1, 1, 1]])];
    assert!(fugaso_symbol_rows(&vec![wide.clone()], &vec![12]).is_none());
    assert!(fugaso_symbol_rows(&vec![wide], &vec![11]).is_some());
    let mut big = Category::default();
    big.spins.symbols = vec![landed(11, vec![vec![i64::MAX], vec![1]])];
    assert!(fugaso_symbol_rows(&vec![big], &vec![11]).is_none());
}

#[test]
fn coin_values_are_summed_by_rank() {
    let coin = |count: i64, values: Vec<(u64, i64)>| Symbol { id: 14, count, values, ..Default::default() };
    let mut a = Category::default();
    a.bonus.symbols = vec![Symbol { id: 3, count: 99, values: vec![(9, 9)], ..Default::default() }, coin(5, vec![(0, 2), (3, 3)]), coin(40, vec![(1, 40)])];
    let mut b = Category::default();
    b.bonus.symbols = vec![coin(7, vec![(3, 4), (0, 3)])];
    let none = Category::default();
    let (total, ranks) = fugaso_coin_values(&vec![a, none, b]).unwrap();
    assert_eq!(total, 12);
    assert_eq!(ranks, vec![(true, 5), (false, 0), (false, 0), (true, 7)]);
    assert_eq!(fugaso_coin_values(&vec![]).unwrap(), (0, vec![]));
}

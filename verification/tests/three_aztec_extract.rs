use reels_creator::bng::three_aztec_temples::game::{extract, Game, Mode};
use reels_creator::bng::three_aztec_temples::models::{
    Bonus, Boards, BoardsInstanse, ByBonusLenght, ByMechanic, Category, Col, Row, Spins, Symbol,
};
use reels_creator::json::{get_key, json_eq, Json};
use reels_creator::logs::parse_array;

fn default_category() -> Category {
    let symbols: Vec<Symbol> = (1..=13)
        .map(|id| Symbol { id, cols: vec![Col { count: 0, rows: vec![Row { count: 0 }; 3] }; 2], ..Default::default() })
        .collect();
    Category {
        spins: Spins { symbols, ..Default::default() },
        bonus: Bonus {
            by_bonus_lenghts: vec![ByBonusLenght::default(); 6],
            by_mechanics: vec![ByMechanic { id: vec![1], by_bonus_lenghts: vec![ByBonusLenght::default(); 6], ..Default::default() }],
            ..Default::default()
        },
        boards: Boards { total: vec![BoardsInstanse { instanses: vec![] }; 2], ..Default::default() },
        ..Default::default()
    }
}

fn empty_game() -> Game {
    Game {
        base: Mode { count: 0, category: vec![] },
        buy_1: Mode { count: 0, category: vec![] },
        buy_2: Mode { count: 0, category: vec![] },
        settings: Json::Null,
    }
}

const LOG: &str = r#"[
 {"out": {"command": "start", "status": {"code": "OK"}, "settings": {"buy_bonus_price": [100, 300], "bet_factor": [20]}}},
 {"out": {"command": "play", "status": {"code": "OK"}, "context": {"current": "spins", "last_action": "spin",
   "spins": {"round_bet": 20, "round_win": 50, "board": [[1, 2, 11], [3, 3, 4]],
             "winlines": [{"line": 2, "symbol": 3, "occurrences": 3, "amount": 50}]}}}},
 {"out": {"command": "play", "status": {"code": "FAIL"}, "context": {"current": "spins", "last_action": "spin",
   "spins": {"round_bet": 999, "board": [[1, 1, 1], [1, 1, 1]]}}}},
 {"out": {"command": "play", "status": {"code": "OK"}, "context": {"current": "spins", "last_action": "buy_spin",
   "spins": {"selected_mode": "1", "round_win": 0, "board": [[5, 5, 5], [6, 6, 6]]}}}},
 {"out": {"command": "play", "status": {"code": "OK"}, "context": {"current": "bonus", "last_action": "bonus_init",
   "bonus": {"bonus_game_type": 2, "bs_count": 6, "bonus_mechanic": [1], "round_win": 0}}}},
 {"out": {"command": "play", "status": {"code": "OK"}, "context": {"current": "bonus", "last_action": "respin",
   "bonus": {"bonus_game_type": 2, "bs_count": 6, "bonus_mechanic": [1], "round_win": 30}}}}
]"#;

#[test]
fn a_log_is_counted_round_by_round() {
    let txs = parse_array(LOG).unwrap();
    let mut game = empty_game();
    let d = default_category();
    assert_eq!(extract(&txs, &mut game, &d, 2), Ok(()));
    assert!(json_eq(get_key(Some(&game.settings), "bet_factor").unwrap(), &Json::Array(vec![Json::Int(20)])));
    assert_eq!(game.base.category.len(), 2);
    assert_eq!(game.buy_1.category.len(), 2);
    assert_eq!(game.buy_2.category.len(), 2);
    assert_eq!(game.base.count, 3);
    assert_eq!(game.buy_1.count, 1);
    let c0 = &game.base.category[0];
    assert_eq!((c0.count, c0.spins.count), (1, 1));
    assert_eq!((c0.spins.bet.count, c0.spins.bet.amount), (1, 20));
    assert_eq!((c0.spins.win.count, c0.spins.win.amount), (1, 50));
    assert_eq!(c0.spins.win.by_lines.len(), 2);
    assert_eq!((c0.spins.win.by_lines[1].count, c0.spins.win.by_lines[1].amount), (1, 50));
    assert_eq!(c0.spins.win.by_symbols[2].by_lengths[2].count, 1);
    assert_eq!(c0.spins.symbols[2].count, 2);
    assert_eq!(c0.spins.symbols[10].count, 1);
    assert_eq!(c0.bonus.appearances, 1);
    assert_eq!(c0.bonus.by_mechanics[0].appearances, 1);
    assert_eq!(c0.boards.total[0].instanses, vec![vec![1, 2, 11]]);
    let b0 = &game.buy_1.category[0];
    assert_eq!((b0.spins.bet.count, b0.spins.bet.amount), (1, 2000));
    assert_eq!(b0.spins.win.count, 0);
    let c1 = &game.base.category[1];
    assert_eq!((c1.count, c1.bonus.inits, c1.bonus.respins, c1.bonus.amount), (2, 1, 1, 30));
    assert_eq!(c1.bonus.by_mechanics[0].inits, 1);
    assert_eq!(c1.bonus.by_bonus_lenghts[5].respins, 1);
}

#[test]
fn a_round_that_cannot_be_counted_stops_the_count() {
    let log = r#"[
     {"out": {"command": "play", "status": {"code": "OK"}, "context": {"current": "spins", "last_action": "spin",
       "spins": {"round_bet": 1, "board": [[1, 2, 3], [4, 5, 6]]}}}},
     {"out": {"command": "play", "status": {"code": "OK"}, "context": {"current": "spins", "last_action": "buy_spin",
       "spins": {"selected_mode": "2", "board": [[1, 2, 3], [4, 5, 6]]}}}},
     {"out": {"command": "play", "status": {"code": "OK"}, "context": {"current": "spins", "last_action": "spin",
       "spins": {"round_bet": 1, "board": [[1, 2, 3], [4, 5, 6]]}}}}
    ]"#;
    let txs = parse_array(log).unwrap();
    let mut game = empty_game();
    assert_eq!(extract(&txs, &mut game, &default_category(), 2), Err(1));
    assert_eq!(game.base.count, 1);
    assert_eq!(game.base.category[0].spins.count, 1);
    assert_eq!(game.buy_2.category[0].spins.count, 0);

    let bad = parse_array(
        r#"[{"out": {"command": "play", "status": {"code": "OK"}, "context": {"current": "bonus", "last_action": "respin",
           "bonus": {"bonus_game_type": 0}}}}]"#,
    )
    .unwrap();
    let mut game = empty_game();
    assert_eq!(extract(&bad, &mut game, &default_category(), 2), Err(0));
    assert!(game.base.category.is_empty());
}

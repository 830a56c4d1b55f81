use reels_creator::bng::three_aztec_temples::models::{
    Bonus, Boards, BoardsInstanse, ByLenght, ByLine, ByMechanic, BySymbol, Category, Col, Row, Spins, Symbol, Win,
};
use reels_creator::bng::three_aztec_temples::spin_record::{record_landings, record_spin, record_winline};

fn mech(id: Vec<i64>, appearances: i64) -> ByMechanic {
    ByMechanic { id, appearances, ..Default::default() }
}

fn symbols(n_cols: usize, n_rows: usize) -> Vec<Symbol> {
    (1..=13)
        .map(|id| Symbol {
            id,
            cols: vec![Col { count: 0, rows: vec![Row { count: 0 }; n_rows] }; n_cols],
            ..Default::default()
        })
        .collect()
}

fn category(width: usize) -> Category {
    Category {
        spins: Spins { symbols: symbols(3, 3), ..Default::default() },
        bonus: Bonus { by_mechanics: vec![mech(vec![1], 0), mech(vec![1, 3], 4), mech(vec![2], 0)], ..Default::default() },
        boards: Boards { total: vec![BoardsInstanse { instanses: vec![] }; width], ..Default::default() },
        ..Default::default()
    }
}

#[test]
fn a_winning_spin_is_counted_with_its_mechanics_and_columns() {
    let mut cat = category(3);
    let board = vec![vec![11, 5, 2], vec![4, 13, 1], vec![9, 9, 9]];
    record_spin(&mut cat, 20, 35, &board, 2);
    assert_eq!(cat.count, 1);
    assert_eq!(cat.spins.count, 1);
    assert_eq!((cat.spins.bet.count, cat.spins.bet.amount), (1, 20));
    assert_eq!((cat.spins.win.count, cat.spins.win.amount), (1, 35));
    assert_eq!(cat.bonus.appearances, 1);
    let apps: Vec<i64> = cat.bonus.by_mechanics.iter().map(|m| m.appearances).collect();
    assert_eq!(apps, vec![0, 5, 0]);
    assert_eq!(cat.boards.total[0].instanses, vec![vec![11, 5, 2]]);
    assert_eq!(cat.boards.total[1].instanses, vec![vec![4, 13, 1]]);
    assert!(cat.boards.total[2].instanses.is_empty());
    let nine = &cat.spins.symbols[8];
    assert_eq!(nine.count, 3);
    assert_eq!(nine.cols.iter().map(|c| c.count).collect::<Vec<i64>>(), vec![0, 0, 3]);
    assert_eq!(nine.cols[2].rows.iter().map(|r| r.count).collect::<Vec<i64>>(), vec![1, 1, 1]);
    let thirteen = &cat.spins.symbols[12];
    assert_eq!(thirteen.count, 1);
    assert_eq!(thirteen.cols[1].count, 1);
    assert_eq!(thirteen.cols[1].rows.iter().map(|r| r.count).collect::<Vec<i64>>(), vec![0, 1, 0]);
    assert_eq!(cat.spins.symbols[6].count, 0);
}

#[test]
fn a_losing_spin_without_bonus_symbols_counts_only_its_bet() {
    let mut cat = category(2);
    record_spin(&mut cat, 10, 0, &vec![vec![1, 2], vec![3, 4]], 2);
    record_spin(&mut cat, 10, -5, &vec![vec![5, 6], vec![7, 8]], 2);
    assert_eq!(cat.count, 2);
    assert_eq!((cat.spins.bet.count, cat.spins.bet.amount), (2, 20));
    assert_eq!((cat.spins.win.count, cat.spins.win.amount), (0, 0));
    assert_eq!(cat.bonus.appearances, 0);
    assert_eq!(cat.boards.total[1].instanses, vec![vec![3, 4], vec![7, 8]]);
}

#[test]
fn a_mechanic_without_an_entry_still_counts_as_an_appearance() {
    let mut cat = category(1);
    record_spin(&mut cat, 1, 0, &vec![vec![12, 13]], 1);
    assert_eq!(cat.bonus.appearances, 1);
    let apps: Vec<i64> = cat.bonus.by_mechanics.iter().map(|m| m.appearances).collect();
    assert_eq!(apps, vec![0, 4, 0]);
}

fn len_tally(length: i64, count: i64, amount: i64) -> ByLenght {
    ByLenght { length, count, amount }
}

#[test]
fn a_winline_grows_its_line_symbol_and_length_tallies() {
    let mut win = Win::default();
    record_winline(&mut win, 3, 2, 4, 50);
    assert_eq!(win.count, 0);
    assert_eq!(win.amount, 0);
    assert_eq!(win.by_lines.len(), 3);
    assert_eq!(win.by_lines[0], ByLine { id: 1, count: 0, amount: 0, by_lengths: vec![] });
    assert_eq!(win.by_lines[1], ByLine { id: 2, count: 0, amount: 0, by_lengths: vec![] });
    assert_eq!(
        win.by_lines[2],
        ByLine {
            id: 3,
            count: 1,
            amount: 50,
            by_lengths: vec![len_tally(1, 0, 0), len_tally(2, 0, 0), len_tally(3, 0, 0), len_tally(4, 1, 50)],
        }
    );
    assert_eq!(win.by_symbols.len(), 2);
    assert_eq!(win.by_symbols[0], BySymbol { id: 1, count: 0, amount: 0, by_lengths: vec![] });
    assert_eq!(win.by_symbols[1].count, 1);
    assert_eq!(win.by_symbols[1].amount, 50);
    assert_eq!(win.by_symbols[1].by_lengths.len(), 4);
}

#[test]
fn repeated_winlines_add_to_the_same_tallies() {
    let mut win = Win::default();
    record_winline(&mut win, 2, 1, 3, 10);
    record_winline(&mut win, 2, 1, 3, 15);
    record_winline(&mut win, 1, 1, 5, 7);
    assert_eq!(win.by_lines.len(), 2);
    assert_eq!((win.by_lines[1].count, win.by_lines[1].amount), (2, 25));
    assert_eq!(win.by_lines[1].by_lengths[2], len_tally(3, 2, 25));
    assert_eq!((win.by_lines[0].count, win.by_lines[0].amount), (1, 7));
    assert_eq!(win.by_symbols.len(), 1);
    assert_eq!((win.by_symbols[0].count, win.by_symbols[0].amount), (3, 32));
    assert_eq!(win.by_symbols[0].by_lengths.len(), 5);
    assert_eq!(win.by_symbols[0].by_lengths[2], len_tally(3, 2, 25));
    assert_eq!(win.by_symbols[0].by_lengths[4], len_tally(5, 1, 7));
}

#[test]
fn landings_add_to_earlier_ones() {
    let mut syms = symbols(2, 2);
    record_landings(&mut syms, &vec![vec![1, 1], vec![2, 1]]);
    record_landings(&mut syms, &vec![vec![2, 1], vec![2, 2]]);
    assert_eq!(syms[0].count, 4);
    assert_eq!(syms[1].count, 4);
    assert_eq!(syms[0].cols.iter().map(|c| c.count).collect::<Vec<i64>>(), vec![3, 1]);
    assert_eq!(syms[0].cols[0].rows.iter().map(|r| r.count).collect::<Vec<i64>>(), vec![1, 2]);
    assert_eq!(syms[1].cols[1].rows.iter().map(|r| r.count).collect::<Vec<i64>>(), vec![2, 1]);
    assert_eq!(syms[2].count, 0);
}

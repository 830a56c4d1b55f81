use reels_creator::bng::china_festival::bonus_table::{fugaso_bonus_table, fugaso_length_table};
use reels_creator::bng::three_aztec_temples::models::{ByBonusLenght, ByMechanic, Category, Symbol};

fn mechanic(id: Vec<i64>, reappearances: i64, combos: Vec<(Vec<i64>, i64)>) -> ByMechanic {
    ByMechanic { id, reappearances, combo_symbols: combos, ..Default::default() }
}

#[test]
fn bonus_mechanics_are_summed_over_the_categories() {
    let mut a = Category::default();
    a.bonus.by_mechanics = vec![
        mechanic(vec![1], 4, vec![(vec![11, 12], 3), (vec![11], 1)]),
        mechanic(vec![1, 2], 7, vec![(vec![13], 2)]),
    ];
    let mut b = Category::default();
    b.bonus.by_mechanics = vec![mechanic(vec![1], 6, vec![(vec![11], 5), (vec![12], 0)])];
    let rows = fugaso_bonus_table(&vec![a, Category::default(), b]);
    assert_eq!(
        rows,
        vec![
            (vec![1], 10, vec![(vec![11, 12], 3), (vec![11], 6), (vec![12], 0)]),
            (vec![1, 2], 7, vec![(vec![13], 2)]),
        ]
    );
    assert!(fugaso_bonus_table(&vec![]).is_empty());
}

fn length(respins: i64, symbols: Vec<(i64, i64)>, mystery: Vec<(i64, i64)>) -> ByBonusLenght {
    let sym = |(id, count): (i64, i64)| Symbol { id, count, ..Default::default() };
    ByBonusLenght {
        respins,
        symbols: symbols.into_iter().map(sym).collect(),
        mystery_symbols: mystery.into_iter().map(sym).collect(),
        ..Default::default()
    }
}

fn with_lengths(id: Vec<i64>, lengths: Vec<ByBonusLenght>) -> ByMechanic {
    ByMechanic { id, by_bonus_lenghts: lengths, ..Default::default() }
}

#[test]
fn bonus_lengths_are_summed_by_mechanics() {
    let mut a = Category::default();
    a.bonus.by_mechanics = vec![
        with_lengths(vec![1], vec![length(10, vec![(14, 2), (11, 1)], vec![(5, 1)]), length(3, vec![], vec![])]),
        with_lengths(vec![2], vec![length(1, vec![(12, 1)], vec![])]),
    ];
    let mut b = Category::default();
    b.bonus.by_mechanics = vec![with_lengths(vec![1], vec![length(5, vec![(14, 4)], vec![(5, 2), (6, 1)])])];
    let rows = fugaso_length_table(&vec![a.clone(), b]).unwrap();
    assert_eq!(
        rows,
        vec![
            (
                vec![1],
                vec![
                    (15, vec![(vec![14], 6), (vec![11], 1)], vec![(vec![5], 3), (vec![6], 1)]),
                    (3, vec![], vec![]),
                ]
            ),
            (vec![2], vec![(1, vec![(vec![12], 1)], vec![])]),
        ]
    );
    let mut longer = Category::default();
    longer.bonus.by_mechanics = vec![with_lengths(vec![2], vec![length(1, vec![], vec![]), length(1, vec![], vec![])])];
    assert!(fugaso_length_table(&vec![a, longer]).is_none());
}

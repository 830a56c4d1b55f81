use reels_creator::bng::three_aztec_temples::actions::{
    set_default_bonus_lenghts, set_default_combo_symbols, set_default_mechanics, set_default_symbols,
};

#[test]
fn default_symbols_start_empty() {
    let r = set_default_symbols(&vec![10, 13], &vec![5, 2, 5], 2, 3);
    assert_eq!(r.len(), 2);
    assert_eq!(r[0].id, 10);
    assert_eq!(r[0].count, 0);
    assert_eq!(r[0].values, vec![(2, 0), (5, 0)]);
    assert_eq!(r[0].multiplayers, vec![(2, 0), (3, 0), (5, 0)]);
    assert_eq!(r[1].id, 13);
    assert!(r[1].multiplayers.is_empty());
    assert_eq!(r[1].cols.len(), 2);
    assert!(r[1].cols.iter().all(|c| c.count == 0 && c.rows.len() == 3 && c.rows.iter().all(|w| w.count == 0)));
}

#[test]
fn default_bonus_lengths_cover_every_cell() {
    let combos = set_default_combo_symbols(&vec![11, 12]);
    let symbols = set_default_symbols(&vec![10], &vec![1], 5, 3);
    let r = set_default_bonus_lenghts(&combos, &symbols, &vec![], 5, 3);
    assert_eq!(r.len(), 15);
    assert!(r.iter().all(|b| b.respins == 0 && b.emerged == 0 && b.combo_symbols == combos && b.symbols == symbols));
}

#[test]
fn default_mechanics_come_longest_and_greatest_first() {
    let r = set_default_mechanics(vec![1, 2, 3], &vec![], &vec![], &vec![], &vec![]);
    let ids: Vec<Vec<i64>> = r.iter().map(|m| m.id.clone()).collect();
    assert_eq!(
        ids,
        vec![vec![1, 2, 3], vec![2, 3], vec![1, 3], vec![1, 2], vec![3], vec![2], vec![1]]
    );
    assert!(r.iter().all(|m| m.appearances == 0 && m.inits == 0 && m.amount == 0));
}

use reels_creator::bng::three_aztec_temples::actions::set_default_combo_symbols;
use reels_creator::bng::three_aztec_temples::models::{Board, UniqueBoardsInstanse};

#[test]
fn combo_symbols_list_every_subset_in_order() {
    let r = set_default_combo_symbols(&vec![1, 2]);
    assert_eq!(r, vec![(vec![1], 0), (vec![1, 2], 0), (vec![2], 0)]);
}

#[test]
fn combo_symbols_merge_equal_subsets() {
    let r = set_default_combo_symbols(&vec![2, 2]);
    assert_eq!(r, vec![(vec![2], 0), (vec![2, 2], 0)]);
}

#[test]
fn combo_symbols_of_three_symbols() {
    let r = set_default_combo_symbols(&vec![10, 11, 12]);
    assert_eq!(r.len(), 7);
    assert_eq!(r[0].0, vec![10]);
    assert_eq!(r[6].0, vec![12]);
}

#[test]
fn combo_symbols_of_nothing_is_empty() {
    assert!(set_default_combo_symbols(&Vec::new()).is_empty());
}

#[test]
fn models_hold_their_values() {
    let u = UniqueBoardsInstanse { count: 2, frequency_average: 1, instanses: vec![Board { count: 2, board: vec![1, 2, 3] }] };
    assert_eq!(u.clone(), u);
    assert_eq!(UniqueBoardsInstanse::default().instanses.len(), 0);
}

use reels_creator::bng::three_aztec_temples::boards::{
    delete_boards_with_symbols, multiply_unique_boards_by_frequency, select_unique_boards,
};
use reels_creator::bng::three_aztec_temples::models::{Board, UniqueBoardsInstanse};

fn unique(boards: &[(i64, Vec<i64>)]) -> UniqueBoardsInstanse {
    UniqueBoardsInstanse {
        count: boards.iter().map(|(c, _)| *c).sum(),
        frequency_average: 0,
        instanses: boards.iter().map(|(c, b)| Board { count: *c, board: b.clone() }).collect(),
    }
}

#[test]
fn bng_delete_drops_boards_with_the_symbols() {
    let r = delete_boards_with_symbols(vec![vec![1, 2], vec![3, 4], vec![5, 6]], vec![4, 9]);
    assert_eq!(r, vec![vec![1, 2], vec![5, 6]]);
}

#[test]
fn bng_delete_twice_deletes_nothing_more() {
    let once = delete_boards_with_symbols(vec![vec![1, 2], vec![3, 4], vec![5, 6], vec![9]], vec![4, 9]);
    let twice = delete_boards_with_symbols(once.clone(), vec![4, 9]);
    assert_eq!(twice, once);
}

#[test]
fn bng_select_counts_add_up() {
    let boards = vec![vec![1], vec![2], vec![1], vec![3], vec![2], vec![1]];
    let r = select_unique_boards(boards.clone());
    let sum: i64 = r.instanses.iter().map(|b| b.count).sum();
    assert_eq!(sum, boards.len() as i64);
    assert_eq!(r.count, sum);
}

#[test]
fn bng_select_counts_each_board() {
    let r = select_unique_boards(vec![vec![1], vec![2], vec![1]]);
    assert_eq!(r.count, 3);
    assert_eq!(r.frequency_average, 0);
    assert_eq!(r.instanses, vec![Board { count: 2, board: vec![1] }, Board { count: 1, board: vec![2] }]);
}

#[test]
fn bng_multiply_scales_by_the_level() {
    let mut u = unique(&[(3, vec![1]), (5, vec![2]), (10, vec![3])]);
    let filtered = vec![vec![0]; 10000];
    let r = multiply_unique_boards_by_frequency(filtered, &mut u, 3);
    assert_eq!(u.frequency_average, 3);
    assert_eq!(r, vec![vec![1], vec![2], vec![2], vec![3], vec![3], vec![3]]);
}

#[test]
fn bng_multiply_adds_copies_for_followers() {
    let mut u = unique(&[(1, vec![1, 2, 3]), (1, vec![2, 3, 4]), (1, vec![2, 3, 5])]);
    let r = multiply_unique_boards_by_frequency(vec![vec![0]; 3], &mut u, 3);
    assert_eq!(u.frequency_average, 0);
    assert_eq!(r, vec![vec![1, 2, 3], vec![2, 3, 4], vec![2, 3, 5], vec![1, 2, 3]]);
}

#[test]
fn bng_multiply_without_observations_keeps_each_board_once() {
    let mut u = unique(&[(4, vec![1, 1]), (2, vec![2, 2])]);
    let r = multiply_unique_boards_by_frequency(vec![], &mut u, 2);
    assert_eq!(r, vec![vec![1, 1], vec![2, 2]]);
}

#[test]
fn bng_multiply_keeps_every_board() {
    let mut u = unique(&[(3, vec![1]), (5, vec![2]), (10, vec![3]), (1, vec![4])]);
    let r = multiply_unique_boards_by_frequency(vec![vec![0]; 10000], &mut u, 3);
    for b in [vec![1], vec![2], vec![3], vec![4]] {
        assert!(r.contains(&b));
    }
}

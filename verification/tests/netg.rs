use reels_creator::netg::jocker_twenty::actions::{
    _collect_reels, _collect_reels_v2, _multiply_unique_boards_by_frequency,
    calculate_frequency_average, check_reels, complete_reels, delete_boards_with_symbols,
    find_board, select_unique_boards,
};
use reels_creator::netg::jocker_twenty::models::{Board, ReelInstanse, UniqueBoardsInstanse};

fn board(count: u64, symbols: &[u8]) -> Board {
    Board { count, board: symbols.to_vec() }
}

#[test]
fn delete_drops_boards_with_the_symbols() {
    let r = delete_boards_with_symbols(vec![vec![1, 2, 3], vec![4, 5, 6], vec![7, 8, 9]], &vec![5]);
    assert_eq!(r, vec![vec![1, 2, 3], vec![7, 8, 9]]);
}

#[test]
fn delete_twice_changes_nothing() {
    let once = delete_boards_with_symbols(vec![vec![1, 2], vec![3, 9], vec![9, 9]], &vec![9]);
    let twice = delete_boards_with_symbols(once.clone(), &vec![9]);
    assert_eq!(once, twice);
}

#[test]
fn select_groups_equal_boards() {
    let r = select_unique_boards(vec![vec![1, 2], vec![3, 4], vec![1, 2]]);
    assert_eq!(r.count, 3);
    assert_eq!(r.frequency_average, 0);
    assert_eq!(r.instanses.len(), 2);
    assert_eq!((r.instanses[0].count, r.instanses[0].board.clone()), (2, vec![1, 2]));
    assert_eq!((r.instanses[1].count, r.instanses[1].board.clone()), (1, vec![3, 4]));
    let total: u64 = r.instanses.iter().map(|b| b.count).sum();
    assert_eq!(total, r.count);
}

#[test]
fn select_of_nothing_is_empty() {
    let r = select_unique_boards(Vec::new());
    assert_eq!((r.count, r.instanses.len()), (0, 0));
}

#[test]
fn find_board_finds_the_first_match() {
    let v = vec![board(1, &[1, 2]), board(2, &[3, 4]), board(3, &[3, 4])];
    assert_eq!(find_board(&v, &vec![3, 4]), Some(1));
    assert_eq!(find_board(&v, &vec![9]), None);
}

#[test]
fn frequency_average_of_close_counts() {
    let mut u = UniqueBoardsInstanse {
        count: 51,
        frequency_average: 0,
        instanses: vec![board(30, &[1]), board(10, &[2]), board(11, &[3])],
    };
    calculate_frequency_average(&mut u);
    assert_eq!(u.frequency_average, 11);
    assert_eq!(u.count, 51);
}

#[test]
fn frequency_average_ignores_order() {
    let mut a = UniqueBoardsInstanse { count: 0, frequency_average: 0, instanses: vec![board(7, &[1]), board(8, &[2]), board(40, &[3])] };
    let mut b = UniqueBoardsInstanse { count: 0, frequency_average: 0, instanses: vec![board(40, &[3]), board(7, &[1]), board(8, &[2])] };
    calculate_frequency_average(&mut a);
    calculate_frequency_average(&mut b);
    assert_eq!(a.frequency_average, b.frequency_average);
    assert_eq!(a.frequency_average, 8);
}

#[test]
fn multiply_scales_counts_by_the_frequency_average() {
    let mut u = UniqueBoardsInstanse {
        count: 300,
        frequency_average: 0,
        instanses: vec![board(200, &[1, 1, 1]), board(100, &[2, 2, 2])],
    };
    let r = _multiply_unique_boards_by_frequency(vec![vec![0u8; 3]; 300], &mut u, 3);
    assert_eq!(u.frequency_average, 100);
    assert_eq!(r.instanses.len(), 2);
    assert_eq!((r.instanses[0].count, r.instanses[0].board.clone()), (2, vec![1, 1, 1]));
    assert_eq!((r.instanses[1].count, r.instanses[1].board.clone()), (1, vec![2, 2, 2]));
}

#[test]
fn multiply_keeps_each_board_once_without_observations() {
    let mut u = UniqueBoardsInstanse { count: 0, frequency_average: 3, instanses: Vec::new() };
    let r = _multiply_unique_boards_by_frequency(Vec::new(), &mut u, 3);
    assert_eq!(r.instanses.len(), 0);
    assert_eq!(u.frequency_average, 3);
}

#[test]
fn check_reels_accepts_short_strips() {
    let mut reels = vec![ReelInstanse { reel: vec![1, 2, 3], remaining: Vec::new(), correct: false }];
    check_reels(&mut reels, &vec![board(1, &[1, 2, 3])], 3);
    assert_eq!(reels.len(), 1);
    assert!(reels[0].correct);
}

#[test]
fn check_reels_accepts_a_covered_strip() {
    let mut reels = vec![ReelInstanse { reel: vec![1, 2, 3, 4], remaining: Vec::new(), correct: false }];
    check_reels(&mut reels, &vec![board(1, &[1, 2, 3]), board(1, &[2, 3, 4])], 3);
    assert!(reels[0].correct);
    assert_eq!(reels[0].reel, vec![1, 2, 3, 4]);
}

#[test]
fn check_reels_rejects_a_strip_missing_a_board() {
    let mut reels = vec![ReelInstanse { reel: vec![1, 2, 3, 4], remaining: Vec::new(), correct: true }];
    check_reels(&mut reels, &vec![board(1, &[7, 7, 7])], 3);
    assert_eq!(reels.len(), 1);
    assert!(!reels[0].correct);
}

#[test]
fn collect_reels_joins_overlapping_boards() {
    let boards = vec![board(1, &[1, 2, 3]), board(1, &[2, 3, 4])];
    let r = _collect_reels("0".to_string(), &boards, 3, false, 5);
    assert_eq!(r.len(), 1);
    assert_eq!(r[0].reel, vec![1, 2, 3, 4]);
    assert_eq!(r[0].remaining.len(), 0);
}

#[test]
fn collect_reels_v2_joins_overlapping_boards() {
    let boards = vec![board(1, &[1, 2, 3]), board(1, &[2, 3, 4])];
    let r = _collect_reels_v2("0".to_string(), &boards, 3, false, 5);
    assert_eq!(r.len(), 1);
    assert_eq!(r[0].reel, vec![1, 2, 3, 4]);
}

#[test]
fn collect_reels_of_nothing_is_empty() {
    assert_eq!(_collect_reels("0".to_string(), &Vec::new(), 3, false, 5).len(), 0);
    assert_eq!(_collect_reels_v2("0".to_string(), &Vec::new(), 3, false, 5).len(), 0);
}

#[test]
fn collect_reels_marks_a_stuck_strip() {
    let boards = vec![board(1, &[1, 2, 3]), board(1, &[7, 8, 9])];
    let r = _collect_reels("0".to_string(), &boards, 3, false, 5);
    assert_eq!(r.len(), 1);
    assert_eq!(r[0].reel, vec![1, 2, 3, 253]);
    assert_eq!(r[0].remaining.len(), 1);
}

#[test]
fn complete_reels_doubles_a_uniform_board() {
    let mut reels = vec![ReelInstanse { reel: vec![5, 5, 5, 1], remaining: vec![board(1, &[5, 5, 5])], correct: false }];
    complete_reels(&mut reels, true);
    assert_eq!(reels[0].reel, vec![5, 5, 5, 5, 1]);
    assert_eq!(reels[0].remaining.len(), 0);
}

#[test]
fn complete_reels_leaves_reels_when_not_asked() {
    let mut reels = vec![ReelInstanse { reel: vec![5, 5, 5, 1], remaining: vec![board(1, &[5, 5, 5])], correct: false }];
    complete_reels(&mut reels, false);
    assert_eq!(reels[0].reel, vec![5, 5, 5, 1]);
    assert_eq!(reels[0].remaining.len(), 1);
}

#[test]
fn multiply_keeps_every_board_in_its_place() {
    let mut u = UniqueBoardsInstanse {
        count: 320,
        frequency_average: 0,
        instanses: vec![board(300, &[1, 1, 1]), board(10, &[2, 2, 2]), board(10, &[3, 3, 3])],
    };
    let before: Vec<Vec<u8>> = u.instanses.iter().map(|b| b.board.clone()).collect();
    let r = _multiply_unique_boards_by_frequency(vec![vec![0u8; 3]; 320], &mut u, 3);
    assert!(r.instanses.len() >= before.len());
    for (i, b) in before.iter().enumerate() {
        assert_eq!(&r.instanses[i].board, b);
        assert!(r.instanses[i].count >= 1);
    }
}

#[test]
fn complete_reels_adds_a_symbol_per_board_used() {
    let mut reels = vec![ReelInstanse {
        reel: vec![5, 5, 5, 1],
        remaining: vec![board(1, &[5, 5, 5]), board(1, &[7, 8, 9])],
        correct: false,
    }];
    let before = reels[0].reel.len() + reels[0].remaining.len();
    complete_reels(&mut reels, true);
    assert_eq!(reels[0].reel.len() + reels[0].remaining.len(), before);
}

use reels_creator::bng::three_aztec_temples::models::ReelInstanse;
use reels_creator::bng::three_aztec_temples::reels::{
    _check_reels, _collect_reels, _collect_reels_v2, _complete_reels,
};

fn cand(reel: Vec<i64>, remaining: Vec<Vec<i64>>, correct: bool) -> ReelInstanse {
    ReelInstanse { reel, remaining, correct }
}

#[test]
fn bng_collect_chains_every_board() {
    let boards = vec![vec![1, 2], vec![2, 3], vec![3, 1]];
    let r = _collect_reels(&boards, 2, false, 0);
    assert_eq!(r, vec![cand(vec![1, 2, 3, 1], vec![], false)]);
    let r2 = _collect_reels_v2(&boards, 2, false, 0);
    assert_eq!(r2, vec![cand(vec![1, 2, 3, 1], vec![], false)]);
}

#[test]
fn bng_collect_of_no_boards_is_empty() {
    assert!(_collect_reels(&vec![], 2, false, 0).is_empty());
    assert!(_collect_reels_v2(&vec![], 2, false, 0).is_empty());
}

#[test]
fn bng_collect_marks_a_strip_that_cannot_grow() {
    let boards = vec![vec![1, 2], vec![5, 6]];
    let r = _collect_reels(&boards, 2, false, 0);
    assert_eq!(r, vec![cand(vec![1, 2, -2], vec![vec![5, 6]], false)]);
}

#[test]
fn bng_collect_does_not_stretch_a_full_run() {
    // A run of `height` equal symbols may not grow by the same symbol; the depth-first
    // variant only asks that the board joins.
    let boards = vec![vec![1, 1, 1], vec![1, 1, 1]];
    let r = _collect_reels(&boards, 3, false, 0);
    assert_eq!(r, vec![cand(vec![1, 1, 1, -2], vec![vec![1, 1, 1]], false)]);
    let r2 = _collect_reels_v2(&boards, 3, false, 0);
    assert_eq!(r2, vec![cand(vec![1, 1, 1, 1], vec![], false)]);
}

#[test]
fn bng_collect_does_not_break_a_short_run() {
    let boards = vec![vec![2, 1, 1], vec![1, 1, 3]];
    let r = _collect_reels(&boards, 3, false, 0);
    assert_eq!(r, vec![cand(vec![2, 1, 1, -2], vec![vec![1, 1, 3]], false)]);
    let r2 = _collect_reels_v2(&boards, 3, false, 0);
    assert_eq!(r2, vec![cand(vec![2, 1, 1, 3], vec![], false)]);
}

#[test]
fn bng_collect_keeps_one_of_equal_candidates() {
    let boards = vec![vec![1, 2], vec![2, 3], vec![2, 3]];
    let r = _collect_reels(&boards, 2, false, 0);
    assert_eq!(r, vec![cand(vec![1, 2, 3, -2], vec![vec![2, 3]], false)]);
}

#[test]
fn bng_check_accepts_a_covered_strip() {
    let boards = vec![vec![1, 2], vec![2, 3], vec![3, 1]];
    let mut reels = vec![cand(vec![1, 2, 3, 1], vec![], false)];
    _check_reels(&mut reels, &boards, 2);
    assert_eq!(reels, vec![cand(vec![1, 2, 3, 1], vec![], true)]);
}

#[test]
fn bng_check_drops_the_stuck_mark_of_a_right_strip() {
    let boards = vec![vec![1, 2], vec![2, 3]];
    let mut reels = vec![cand(vec![1, 2, 3, -2], vec![], false)];
    _check_reels(&mut reels, &boards, 2);
    assert_eq!(reels, vec![cand(vec![1, 2, 3], vec![], true)]);
}

#[test]
fn bng_check_rejects_a_strip_missing_a_board() {
    let boards = vec![vec![1, 2], vec![5, 6]];
    let mut reels = vec![cand(vec![1, 2, -2], vec![vec![5, 6]], false)];
    _check_reels(&mut reels, &boards, 2);
    assert_eq!(reels, vec![cand(vec![1, 2, -2], vec![vec![5, 6]], false)]);
}

#[test]
fn bng_check_drops_shorter_wrong_strips() {
    let boards = vec![vec![7, 7]];
    let mut reels = vec![
        cand(vec![1, 2, 9], vec![], false),
        cand(vec![1, 2, 3, 4], vec![], false),
        cand(vec![5, 6], vec![], false),
    ];
    _check_reels(&mut reels, &boards, 2);
    assert_eq!(
        reels,
        vec![cand(vec![1, 2, 3, 4], vec![], false), cand(vec![5, 6], vec![], true)]
    );
}

#[test]
fn bng_complete_doubles_uniform_boards() {
    let mut reels = vec![cand(vec![1, 2, 2, 3], vec![vec![2, 2], vec![2, 2], vec![4, 5]], false)];
    _complete_reels(&mut reels, true);
    assert_eq!(reels, vec![cand(vec![1, 2, 2, 2, 2, 3], vec![vec![4, 5]], false)]);
}

#[test]
fn bng_complete_leaves_strips_when_not_asked() {
    let start = vec![cand(vec![1, 2, 2, 3], vec![vec![2, 2]], false)];
    let mut reels = start.clone();
    _complete_reels(&mut reels, false);
    assert_eq!(reels, start);
}

#[test]
fn bng_collect_rounds_hold_no_candidate_twice() {
    let boards = vec![vec![1, 2], vec![2, 3], vec![2, 3], vec![2, 4], vec![2, 4]];
    for r in [_collect_reels(&boards, 2, false, 0), _collect_reels_v2(&boards, 2, false, 0)] {
        for i in 0..r.len() {
            for j in 0..i {
                assert_ne!(r[i], r[j]);
            }
        }
    }
}

#[test]
fn bng_complete_adds_a_symbol_per_board_used() {
    let mut reels = vec![cand(vec![1, 2, 2, 3], vec![vec![2, 2], vec![2, 2], vec![4, 5]], false)];
    let before = reels[0].reel.len() + reels[0].remaining.len();
    _complete_reels(&mut reels, true);
    assert_eq!(reels[0].reel.len() + reels[0].remaining.len(), before);
    assert!(!reels[0].correct);
}

use reels_creator::json::Json;
use reels_creator::netg::jocker_twenty::intake::extract;
use reels_creator::netg::jocker_twenty::pipeline::{build_reel, prepare_boards};
use reels_creator::netg::jocker_twenty::models::{
    Board, Boards, BoardsInstanse, Categories, Category, MultiplayedBoardsInstanse, Reel,
    UniqueBoardsInstanse,
};
use reels_creator::netg::jocker_twenty::split::{
    _split_by_frequency_average_v2, _split_by_frequency_average_v2_checked, split_by_frequency_average,
    split_by_frequency_average_checked,
};

fn col(s: u8) -> Vec<u8> {
    vec![s, s, s]
}

fn copies(s: u8, n: usize) -> Vec<Vec<u8>> {
    (0..n).map(|_| col(s)).collect()
}

fn one_reel_category(filtered: Vec<Vec<u8>>, unique: Vec<(u8, u64)>) -> Category {
    let total: u64 = unique.iter().map(|(_, c)| *c).sum();
    Category {
        count: 0,
        boards: Boards {
            total: vec![BoardsInstanse { instanses: vec![col(9)] }],
            filtered: vec![BoardsInstanse { instanses: filtered }],
            unique: vec![UniqueBoardsInstanse {
                count: total,
                frequency_average: 0,
                instanses: unique.iter().map(|(s, c)| Board { count: *c, board: col(*s) }).collect(),
            }],
            multiplied: vec![MultiplayedBoardsInstanse { instanses: vec![] }],
        },
        reels: vec![Reel { instanses: vec![] }],
    }
}

fn categories(c: Category) -> Categories {
    Categories { count: 0, category: vec![c], buy_category: vec![vec![], vec![]], settings: Json::Null }
}

fn counts(u: &UniqueBoardsInstanse) -> Vec<(u8, u64)> {
    u.instanses.iter().map(|b| (b.board[0], b.count)).collect()
}

fn sample() -> Categories {
    let mut filtered = copies(1, 70);
    filtered.extend(copies(5, 60));
    filtered.extend(copies(2, 10));
    filtered.extend(copies(3, 10));
    filtered.extend(copies(4, 9));
    categories(one_reel_category(filtered, vec![(1, 70), (5, 60), (2, 10), (3, 10), (4, 9)]))
}

#[test]
fn split_moves_light_boards_to_a_new_category() {
    let mut filtered = copies(1, 60);
    filtered.extend(copies(2, 10));
    filtered.extend(copies(3, 10));
    filtered.extend(copies(4, 9));
    let mut cats = categories(one_reel_category(filtered, vec![(1, 60), (2, 10), (3, 10), (4, 9)]));
    split_by_frequency_average(1, 3, &mut cats);
    assert_eq!(cats.category.len(), 2);
    let first = &cats.category[0].boards;
    assert!(first.total[0].instanses.is_empty());
    assert_eq!(first.filtered[0].instanses, copies(1, 60));
    assert_eq!((first.unique[0].count, first.unique[0].frequency_average), (60, 60));
    assert_eq!(counts(&first.unique[0]), vec![(1, 60)]);
    let second = &cats.category[1].boards;
    let mut moved = copies(2, 10);
    moved.extend(copies(3, 10));
    moved.extend(copies(4, 9));
    assert_eq!(second.filtered[0].instanses, moved);
    assert_eq!((second.unique[0].count, second.unique[0].frequency_average), (29, 10));
    assert_eq!(counts(&second.unique[0]), vec![(2, 10), (3, 10), (4, 9)]);
}

#[test]
fn split_shares_the_excess_of_a_heavy_board() {
    let mut cats = sample();
    assert!(split_by_frequency_average_checked(1, 3, &mut cats));
    assert_eq!(cats.category.len(), 2);
    let first = &cats.category[0].boards;
    assert_eq!(counts(&first.unique[0]), vec![(1, 60), (5, 60)]);
    assert_eq!((first.unique[0].count, first.unique[0].frequency_average), (120, 60));
    let mut kept = copies(1, 60);
    kept.extend(copies(5, 60));
    assert_eq!(first.filtered[0].instanses, kept);
    let second = &cats.category[1].boards;
    assert_eq!(counts(&second.unique[0]), vec![(2, 10), (3, 10), (4, 9), (1, 10)]);
    assert_eq!((second.unique[0].count, second.unique[0].frequency_average), (39, 10));
    let mut got = copies(2, 10);
    got.extend(copies(3, 10));
    got.extend(copies(4, 9));
    got.extend(copies(1, 10));
    assert_eq!(second.filtered[0].instanses, got);
}

#[test]
fn split_v2_copies_echoing_boards() {
    let mut cats = sample();
    _split_by_frequency_average_v2(1, 3, &mut cats);
    assert_eq!(cats.category.len(), 2);
    let first = &cats.category[0].boards;
    assert_eq!(counts(&first.unique[0]), vec![(1, 70), (5, 60)]);
    assert_eq!((first.unique[0].count, first.unique[0].frequency_average), (130, 65));
    let second = &cats.category[1].boards;
    assert_eq!(counts(&second.unique[0]), vec![(2, 10), (3, 10), (4, 9), (1, 70)]);
    assert_eq!((second.unique[0].count, second.unique[0].frequency_average), (29, 10));
}

#[test]
fn split_refuses_a_reel_without_positive_counts() {
    let mut cats = categories(one_reel_category(vec![], vec![(1, 0)]));
    assert!(!split_by_frequency_average_checked(1, 3, &mut cats));
    let mut cats = categories(one_reel_category(vec![], vec![(1, 0)]));
    assert!(!_split_by_frequency_average_v2_checked(1, 3, &mut cats));
}

#[test]
fn split_of_one_balanced_category_only_renews_the_average() {
    let mut cats = categories(one_reel_category(copies(1, 4), vec![(1, 2), (2, 3)]));
    split_by_frequency_average(1, 3, &mut cats);
    assert_eq!(cats.category.len(), 1);
    assert_eq!(cats.category[0].boards.unique[0].frequency_average, 2);
}

fn int_row(xs: &[i64]) -> Json {
    Json::Array(xs.iter().map(|x| Json::Int(*x)).collect())
}

fn transaction(rows: Vec<Json>) -> Json {
    Json::Object(vec![("initialMatrix".to_string(), Json::Array(rows))])
}

#[test]
fn extract_gathers_the_columns_of_every_screen() {
    let ts = vec![
        transaction(vec![int_row(&[1, 2, 3]), int_row(&[4, 5, 6])]),
        transaction(vec![int_row(&[7, 8, 9]), Json::Str("x".to_string()), int_row(&[10, 11, 300])]),
    ];
    let mut cats = Categories { count: 0, category: vec![], buy_category: vec![vec![], vec![]], settings: Json::Null };
    extract(&ts, 2, 3, &mut cats);
    assert_eq!(cats.category.len(), 1);
    let total = &cats.category[0].boards.total;
    assert_eq!(total.len(), 2);
    assert_eq!(total[0].instanses, vec![vec![1, 2, 3], vec![7, 8, 9]]);
    assert_eq!(total[1].instanses, vec![vec![4, 5, 6], vec![10, 11, 44]]);
    assert_eq!(cats.category[0].boards.unique.len(), 2);
    assert_eq!(cats.category[0].reels.len(), 2);
}

#[test]
fn prepare_groups_and_orders_the_boards() {
    let mut c = one_reel_category(vec![], vec![]);
    c.boards.total[0].instanses = vec![vec![2, 3, 4], vec![1, 2, 3], vec![1, 2, 3], vec![7, 7, 9]];
    let mut cats = categories(c);
    prepare_boards(&mut cats, 1, &vec![9]);
    let b = &cats.category[0].boards;
    assert_eq!(b.filtered[0].instanses, vec![vec![2, 3, 4], vec![1, 2, 3], vec![1, 2, 3]]);
    assert_eq!(b.unique[0].count, 3);
    assert_eq!(b.unique[0].frequency_average, 0);
    let got: Vec<(u64, Vec<u8>)> = b.unique[0].instanses.iter().map(|x| (x.count, x.board.clone())).collect();
    assert_eq!(got, vec![(2, vec![1, 2, 3]), (1, vec![2, 3, 4])]);
}

#[test]
fn build_reel_joins_the_boards_into_a_strip() {
    let filtered = vec![vec![1, 2, 3], vec![1, 2, 3], vec![2, 3, 4]];
    let mut u = UniqueBoardsInstanse {
        count: 3,
        frequency_average: 0,
        instanses: vec![Board { count: 2, board: vec![1, 2, 3] }, Board { count: 1, board: vec![2, 3, 4] }],
    };
    let (m, reels) = build_reel(&filtered, &mut u, 3, false, 5, true).unwrap();
    let got: Vec<(u64, Vec<u8>)> = m.instanses.iter().map(|x| (x.count, x.board.clone())).collect();
    assert_eq!(got, vec![(1, vec![1, 2, 3]), (1, vec![2, 3, 4])]);
    assert_eq!(reels.len(), 1);
    assert_eq!(reels[0].reel, vec![1, 2, 3, 4]);
    assert!(reels[0].remaining.is_empty());
}

#[test]
fn build_reel_refuses_short_boards() {
    let filtered = vec![vec![1], vec![1]];
    let mut u = UniqueBoardsInstanse { count: 2, frequency_average: 0, instanses: vec![Board { count: 2, board: vec![1] }] };
    assert!(build_reel(&filtered, &mut u, 3, false, 5, true).is_none());
}

#[test]
fn split_keeps_every_column_and_count() {
    let mut cats = sample();
    let before_columns = cats.category[0].boards.filtered[0].instanses.len();
    let before_count = cats.category[0].boards.unique[0].count;
    assert!(split_by_frequency_average_checked(1, 3, &mut cats));
    let columns: usize = cats.category.iter().map(|c| c.boards.filtered[0].instanses.len()).sum();
    let count: u64 = cats.category.iter().map(|c| c.boards.unique[0].count).sum();
    assert_eq!(columns, before_columns);
    assert_eq!(count, before_count);
}

#[test]
fn split_v2_keeps_every_column() {
    let mut cats = sample();
    let before = cats.category[0].boards.filtered[0].instanses.clone();
    assert!(_split_by_frequency_average_v2_checked(1, 3, &mut cats));
    let mut after: Vec<Vec<u8>> = cats.category.iter().flat_map(|c| c.boards.filtered[0].instanses.clone()).collect();
    let mut expected = before;
    after.sort();
    expected.sort();
    assert_eq!(after, expected);
}

#[test]
fn both_splits_empty_the_first_total_lists() {
    let mut cats = sample();
    split_by_frequency_average(1, 3, &mut cats);
    assert_eq!(cats.category[0].boards.total.len(), 1);
    assert!(cats.category[0].boards.total[0].instanses.is_empty());
    let mut cats = sample();
    _split_by_frequency_average_v2(1, 3, &mut cats);
    assert_eq!(cats.category[0].boards.total.len(), 1);
    assert!(cats.category[0].boards.total[0].instanses.is_empty());
}

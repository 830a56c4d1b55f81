use reels_creator::bng::china_festival::tallies::{bonus_inits_total, mechanic_tallies, reel_texts};
use reels_creator::bng::three_aztec_temples::models::{Bonus, ByMechanic, Category, Reel, ReelInstanse};

fn mech(id: Vec<i64>, inits: i64, appearances: i64) -> ByMechanic {
    ByMechanic { id, inits, appearances, ..Default::default() }
}

fn cat(inits: i64, mechs: Vec<ByMechanic>) -> Category {
    Category { bonus: Bonus { inits, by_mechanics: mechs, ..Default::default() }, ..Default::default() }
}

fn strip(reel: Vec<i64>, correct: bool) -> ReelInstanse {
    ReelInstanse { reel, remaining: vec![], correct }
}

#[test]
fn mechanic_tallies_sum_by_name_in_name_order() {
    let cats = vec![
        cat(10, vec![mech(vec![2], 3, 7), mech(vec![1], 4, 9)]),
        cat(5, vec![mech(vec![2, 1], 2, 5), mech(vec![1, 1], 6, 1), mech(vec![3, 2], 1, 1)]),
    ];
    let rows = mechanic_tallies(&cats);
    assert_eq!(
        rows,
        vec![
            ("Add".to_string(), 10, 10),
            ("AddTwice".to_string(), 2, 5),
            ("Twice".to_string(), 3, 7),
            ("TwiceCluster".to_string(), 1, 1),
        ]
    );
}

#[test]
fn mechanic_tallies_name_unknown_ids_as_empty() {
    let cats = vec![cat(0, vec![mech(vec![9], 2, 4), mech(vec![], 1, 1), mech(vec![3], 5, 6)])];
    let rows = mechanic_tallies(&cats);
    assert_eq!(rows, vec![("".to_string(), 3, 5), ("Cluster".to_string(), 5, 6)]);
}

#[test]
fn mechanic_tallies_of_nothing_are_empty() {
    assert!(mechanic_tallies(&vec![]).is_empty());
    assert!(mechanic_tallies(&vec![cat(4, vec![])]).is_empty());
}

#[test]
fn bonus_inits_add_up_over_categories() {
    assert_eq!(bonus_inits_total(&vec![cat(10, vec![]), cat(-3, vec![]), cat(5, vec![])]), 12);
    assert_eq!(bonus_inits_total(&vec![]), 0);
    assert_eq!(bonus_inits_total(&vec![cat(i64::MAX, vec![]), cat(i64::MAX, vec![])]), 2 * i64::MAX as i128);
}

#[test]
fn reel_texts_write_the_last_correct_strip() {
    let mut c = cat(0, vec![]);
    c.reels = vec![
        Reel { instanses: vec![strip(vec![1, 2, 3], true), strip(vec![4, 26, 27, 0, -1, 7, 8], true), strip(vec![5], false)] },
        Reel { instanses: vec![strip(vec![1, 2], false)] },
        Reel { instanses: vec![strip(vec![3, 1, 2, 26, 13], true)] },
    ];
    let texts = reel_texts(&vec![c, cat(0, vec![])]);
    assert_eq!(texts, vec![vec!["DZZZZ".to_string(), "".to_string(), "CABZM".to_string()], vec![]]);
}

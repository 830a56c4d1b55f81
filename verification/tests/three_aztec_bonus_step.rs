use reels_creator::bng::three_aztec_temples::models::{Bonus, ByBonusLenght, ByMechanic, Category};
use reels_creator::bng::three_aztec_temples::spin_record::{record_bonus_step, BonusAction, BonusTrack};

fn lengths(n: usize) -> Vec<ByBonusLenght> {
    vec![ByBonusLenght::default(); n]
}

fn category() -> Category {
    Category {
        bonus: Bonus {
            by_bonus_lenghts: lengths(5),
            by_mechanics: vec![
                ByMechanic { id: vec![1], by_bonus_lenghts: lengths(5), ..Default::default() },
                ByMechanic { id: vec![1, 2], by_bonus_lenghts: lengths(5), ..Default::default() },
            ],
            ..Default::default()
        },
        ..Default::default()
    }
}

#[test]
fn a_bonus_start_respins_and_end_are_counted() {
    let mut cat = category();
    let mut track = BonusTrack::default();
    record_bonus_step(&mut cat, &mut track, BonusAction::Init, 3, &vec![1], 0);
    assert_eq!(cat.count, 1);
    assert_eq!(cat.bonus.inits, 1);
    assert_eq!(cat.bonus.by_mechanics[0].inits, 1);
    assert_eq!(cat.bonus.by_mechanics[1].inits, 0);
    assert_eq!((track.bs_count, track.mechanic.clone()), (3, vec![1]));

    record_bonus_step(&mut cat, &mut track, BonusAction::Respin, 3, &vec![1], 40);
    assert_eq!((cat.bonus.respins, cat.bonus.emerged, cat.bonus.amount, cat.bonus.reinits), (1, 0, 40, 0));
    assert_eq!((cat.bonus.by_bonus_lenghts[2].respins, cat.bonus.by_bonus_lenghts[2].emerged), (1, 0));
    let add = &cat.bonus.by_mechanics[0];
    assert_eq!((add.respins, add.emerged, add.amount, add.reinits), (1, 0, 40, 0));
    assert_eq!(add.by_bonus_lenghts[2].respins, 1);
    assert_eq!(track.bs_count, 3);

    record_bonus_step(&mut cat, &mut track, BonusAction::Respin, 4, &vec![1, 2], 10);
    assert_eq!((cat.bonus.respins, cat.bonus.emerged, cat.bonus.amount, cat.bonus.reinits), (2, 1, 50, 1));
    assert_eq!((cat.bonus.by_bonus_lenghts[2].respins, cat.bonus.by_bonus_lenghts[2].emerged), (2, 1));
    let add = &cat.bonus.by_mechanics[0];
    assert_eq!((add.respins, add.emerged, add.amount, add.reinits), (2, 1, 50, 1));
    assert_eq!((add.by_bonus_lenghts[2].respins, add.by_bonus_lenghts[2].emerged), (2, 1));
    assert_eq!((track.bs_count, track.mechanic.clone()), (4, vec![1, 2]));
    assert_eq!(cat.bonus.by_mechanics[1].respins, 0);

    record_bonus_step(&mut cat, &mut track, BonusAction::Other, 4, &vec![1, 2], 0);
    assert_eq!(cat.count, 4);
    assert_eq!(cat.bonus.respins, 2);
    assert_eq!((track.bs_count, track.mechanic.clone()), (4, vec![1, 2]));
}

#[test]
fn a_bonus_whose_mechanics_have_no_entry_tracks_one_symbol_less() {
    let mut cat = category();
    let mut track = BonusTrack::default();
    record_bonus_step(&mut cat, &mut track, BonusAction::Init, 3, &vec![3], 0);
    assert_eq!(cat.bonus.inits, 1);
    assert_eq!((track.bs_count, track.mechanic.clone()), (2, vec![3]));
    record_bonus_step(&mut cat, &mut track, BonusAction::Respin, 3, &vec![3], 5);
    assert_eq!((cat.bonus.respins, cat.bonus.emerged), (1, 1));
    assert_eq!((cat.bonus.by_bonus_lenghts[1].respins, cat.bonus.by_bonus_lenghts[1].emerged), (1, 1));
    assert_eq!(track.bs_count, 2);
}

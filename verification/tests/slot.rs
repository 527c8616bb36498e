use slot_rtp::card::{icon_id, possible_same, same_card, SCAT1, SCAT2, WILD};
use slot_rtp::count::CountResult;
use slot_rtp::games::base::{base_game_pay, base_game_payable_check};
use slot_rtp::games::bonus::{
    bonus_cans, bonus_game_outcome, bonus_multiplier, capped_scatter_count, game_pay_once, tally_picks,
    BonusTally,
};
use slot_rtp::games::feature::{
    expect_count, feature_round, feature_round_at, feature_thread_count, first_free_reel, reel_is_held,
    reels_cover_check, to_active_arr, to_active_value, FeatureTally, SituationKey,
};
use slot_rtp::pay::{PayTable, PAY_TABLE_ROWS};
use slot_rtp::reel::{HitTable, Reel, ReelSnapshot};
use slot_rtp::spin::{spin, spin_outcome};

fn cr(icon: usize, count: usize) -> CountResult {
    CountResult { icon, count }
}

fn snap(icons: &[i32]) -> ReelSnapshot {
    ReelSnapshot { icons: icons.to_vec() }
}

fn names(list: &[&str]) -> Vec<Vec<u8>> {
    list.iter().map(|s| s.as_bytes().to_vec()).collect()
}

/// A pay table whose rows PIC01..PIC10 pay 0, 0, 10*id, 20*id, 50*id.
fn sample_pay_table() -> PayTable {
    let mut entries: Vec<(Vec<u8>, Vec<i32>)> = Vec::new();
    for id in 1..=10 {
        let name = format!("PIC{:02}", id);
        entries.push((name.into_bytes(), vec![0, 0, 10 * id, 20 * id, 50 * id]));
    }
    PayTable::from_entries(&entries)
}

#[test]
fn icon_ids_follow_the_names() {
    assert_eq!(icon_id(b"WILD"), Some(0));
    assert_eq!(icon_id(b"PIC01"), Some(1));
    assert_eq!(icon_id(b"PIC09"), Some(9));
    assert_eq!(icon_id(b"PIC10"), Some(10));
    assert_eq!(icon_id(b"PIC15"), Some(15));
    assert_eq!(icon_id(b"SCAT1"), Some(100));
    assert_eq!(icon_id(b"SCAT2"), Some(101));
}

#[test]
fn unknown_names_have_no_id() {
    assert_eq!(icon_id(b"PIC00"), None);
    assert_eq!(icon_id(b"PIC16"), None);
    assert_eq!(icon_id(b"SCAT3"), None);
    assert_eq!(icon_id(b"wild"), None);
    assert_eq!(icon_id(b""), None);
    assert_eq!(icon_id(b"PIC1"), None);
}

#[test]
fn same_card_rules() {
    assert!(same_card(5, 5));
    assert!(same_card(WILD, 7));
    assert!(same_card(7, WILD));
    assert!(!same_card(WILD, SCAT1));
    assert!(!same_card(SCAT2, WILD));
    assert!(same_card(SCAT2, SCAT2));
    assert!(!same_card(3, 4));
}

#[test]
fn same_card_is_symmetric_on_samples() {
    let icons = [0, 1, 5, 15, 99, 100, 101];
    for &a in &icons {
        for &b in &icons {
            assert_eq!(same_card(a, b), same_card(b, a));
        }
    }
}

#[test]
fn possible_same_finds_a_shared_card() {
    assert!(possible_same(&snap(&[1, 2, 3]), &snap(&[4, 3, 6])));
    assert!(possible_same(&snap(&[100, 0, 101]), &snap(&[7, 8, 9])));
    assert!(!possible_same(&snap(&[1, 2, 3]), &snap(&[4, 5, 6])));
    assert!(!possible_same(&snap(&[0]), &snap(&[100, 101])));
    assert!(!possible_same(&snap(&[]), &snap(&[1])));
}

#[test]
fn possible_same_is_symmetric_on_samples() {
    let a = snap(&[0, 100, 4]);
    let b = snap(&[101, 7, 9]);
    let c = snap(&[101, 100]);
    assert_eq!(possible_same(&a, &b), possible_same(&b, &a));
    assert_eq!(possible_same(&a, &c), possible_same(&c, &a));
    assert_eq!(possible_same(&b, &c), possible_same(&c, &b));
}

#[test]
fn base_count_with_wilds() {
    assert_eq!(CountResult::base(&[3, 3, 0, 3, 5]), cr(3, 4));
    assert_eq!(CountResult::base(&[0, 0, 4, 4, 1]), cr(4, 4));
    assert_eq!(CountResult::base(&[2, 3, 2, 2, 2]), cr(2, 1));
    assert_eq!(CountResult::base(&[7, 0, 0, 0, 0]), cr(7, 5));
}

#[test]
fn base_count_pays_nothing_for_wild_high_or_scatter() {
    assert_eq!(CountResult::base(&[0, 0, 0, 0, 0]), cr(0, 0));
    assert_eq!(CountResult::base(&[11, 11, 11, 11, 11]), cr(0, 0));
    assert_eq!(CountResult::base(&[0, 101, 5, 5, 5]), cr(0, 0));
    assert_eq!(CountResult::base(&[100, 100, 100, 1, 1]), cr(0, 0));
}

#[test]
fn base_count_stops_early_on_short_line() {
    assert_eq!(CountResult::base(&[2]), cr(2, 1));
    assert_eq!(CountResult::base(&[0, 6]), cr(6, 2));
}

#[test]
fn pic01_as_wild_count() {
    assert_eq!(CountResult::feature_mode_test_pic01_as_wild(&[1, 0, 3, 1, 3]), cr(3, 5));
    assert_eq!(CountResult::feature_mode_test_pic01_as_wild(&[1, 1, 1, 1, 1]), cr(0, 0));
    assert_eq!(CountResult::feature_mode_test_pic01_as_wild(&[4, 5, 4, 4, 4]), cr(4, 1));
    assert_eq!(CountResult::feature_mode_test_pic01_as_wild(&[1, 12, 12, 1, 1]), cr(0, 0));
}

#[test]
fn pic01_count() {
    assert_eq!(CountResult::feature_mod_test_pic01(&[0, 0, 3, 1, 3]), cr(1, 0));
    assert_eq!(CountResult::feature_mod_test_pic01(&[1, 0, 1, 2, 1]), cr(1, 3));
    assert_eq!(CountResult::feature_mod_test_pic01(&[1, 1, 1, 1, 1]), cr(1, 5));
    assert_eq!(CountResult::feature_mod_test_pic01(&[]), cr(1, 0));
}

#[test]
fn feature_counts_both_ways() {
    assert_eq!(CountResult::feature(&[0, 0, 3, 1, 3]), (cr(1, 0), cr(3, 5)));
    assert_eq!(CountResult::feature(&[1, 1, 2, 2, 9]), (cr(1, 2), cr(2, 4)));
}

#[test]
fn pay_table_from_entries() {
    let entries = vec![
        (b"PIC01".to_vec(), vec![0, 1, 5, 10, 20]),
        (b"SCAT2".to_vec(), vec![7]),
    ];
    let table = PayTable::from_entries(&entries);
    assert_eq!(table.data.len(), PAY_TABLE_ROWS);
    assert_eq!(table.data[1], vec![0, 1, 5, 10, 20]);
    assert_eq!(table.data[101], vec![7]);
    assert!(table.data[2].is_empty());
    assert_eq!(table.pay(1, 3), 5);
    assert_eq!(table.pay(1, 5), 20);
    assert_eq!(table.pay(101, 1), 7);
}

#[test]
fn pay_table_last_entry_wins() {
    let entries = vec![(b"PIC02".to_vec(), vec![1]), (b"PIC02".to_vec(), vec![2, 3])];
    let table = PayTable::from_entries(&entries);
    assert_eq!(table.data[2], vec![2, 3]);
}

#[test]
fn no_count_pays_nothing() {
    let table = PayTable::from_entries(&Vec::new());
    assert_eq!(table.pay(0, 0), 0);
    assert_eq!(table.pay(150, 0), 0);
    assert!(table.pay_defined_check(150, 0));
    assert!(!table.pay_defined_check(1, 1));
}

#[test]
fn reel_from_names() {
    let reel = Reel::from_names(&names(&["PIC01", "WILD", "SCAT2", "PIC15"]));
    assert_eq!(reel.icons, vec![1, 0, 101, 15]);
    assert_eq!(reel.len(), 4);
}

#[test]
fn roll_shows_neighbours_round_the_strip() {
    let reel = Reel { icons: vec![1, 2, 3, 4] };
    assert_eq!(reel.roll(0).icons, vec![4, 1, 2]);
    assert_eq!(reel.roll(1).icons, vec![1, 2, 3]);
    assert_eq!(reel.roll(3).icons, vec![3, 4, 1]);
    assert_eq!(reel.roll(6).icons, vec![2, 3, 4]);
}

#[test]
fn roll_is_periodic() {
    let reel = Reel { icons: vec![5, 6, 7, 8, 9] };
    for i in 0..5 {
        assert_eq!(reel.roll(i).icons, reel.roll(i + 5).icons);
    }
}

#[test]
fn roll_range_check() {
    let reel = Reel { icons: vec![1, 2] };
    assert!(reel.roll_in_range_check(0));
    assert!(!reel.roll_in_range_check(i32::MAX));
    assert!(!reel.roll_in_range_check(i32::MIN));
    assert!(!Reel { icons: vec![] }.roll_in_range_check(0));
}

#[test]
fn hit_reads_each_line() {
    let table = HitTable(vec![vec![0, 0, 0, 0, 0], vec![1, 1, 1, 1, 1], vec![2, 0, 1, 2, 0], vec![1, 1]]);
    let snapshots = vec![
        snap(&[1, 2, 3]),
        snap(&[4, 5, 6]),
        snap(&[7, 8, 9]),
        snap(&[10, 11, 12]),
        snap(&[13, 14, 15]),
    ];
    let lines = table.hit(&snapshots);
    assert_eq!(lines, vec![
        vec![1, 4, 7, 10, 13],
        vec![2, 5, 8, 11, 14],
        vec![3, 4, 8, 12, 13],
        vec![2, 5],
    ]);
}

#[test]
fn base_game_pays_the_top_row() {
    let table = sample_pay_table();
    let snapshot = vec![snap(&[3, 9, 9]), snap(&[3, 9, 9]), snap(&[0, 9, 9]), snap(&[4, 9, 9]), snap(&[5, 9, 9])];
    assert!(base_game_payable_check(&snapshot, &table));
    assert_eq!(base_game_pay(&snapshot, &table), 30);
    let losing = vec![snap(&[3, 9, 9]), snap(&[4, 9, 9]), snap(&[0, 9, 9]), snap(&[4, 9, 9]), snap(&[5, 9, 9])];
    assert_eq!(base_game_pay(&losing, &table), 0);
}

#[test]
fn base_game_payable_check_rejects_missing_pays() {
    let table = PayTable::from_entries(&Vec::new());
    let snapshot = vec![snap(&[3]), snap(&[3]), snap(&[3]), snap(&[3]), snap(&[3])];
    assert!(!base_game_payable_check(&snapshot, &table));
    let empty_window = vec![snap(&[3]), snap(&[])];
    assert!(!base_game_payable_check(&empty_window, &sample_pay_table()));
}

#[test]
fn bonus_game_of_five_cans() {
    let t = game_pay_once(5);
    assert_eq!(t, BonusTally { sum: 10890, emit_feature_game: 288, total_cnt: 792 });
}

#[test]
fn bonus_game_pick_counts_are_binomial() {
    let expected = [1usize, 12, 66, 220, 495, 792, 924, 792, 495, 220, 66, 12, 1];
    for (k, &n) in expected.iter().enumerate() {
        assert_eq!(game_pay_once(k).total_cnt, n);
    }
    assert_eq!(game_pay_once(13), BonusTally { sum: 0, emit_feature_game: 0, total_cnt: 0 });
}

#[test]
fn bonus_game_edge_picks() {
    assert_eq!(game_pay_once(0), BonusTally { sum: 0, emit_feature_game: 0, total_cnt: 1 });
    assert_eq!(game_pay_once(2), BonusTally { sum: 363, emit_feature_game: 3, total_cnt: 66 });
    assert_eq!(game_pay_once(12), BonusTally { sum: 33, emit_feature_game: 1, total_cnt: 1 });
}

#[test]
fn tally_of_given_picks() {
    let picks = vec![vec![5, 5, 1], vec![4, 5, 2], vec![]];
    assert_eq!(tally_picks(&picks), BonusTally { sum: 4 + 4 + 1 + 4 + 4 + 2, emit_feature_game: 1, total_cnt: 3 });
    assert_eq!(bonus_cans(), vec![1, 1, 2, 2, 2, 3, 3, 3, 4, 5, 5, 5]);
}

#[test]
fn bonus_outcome_by_scatters() {
    let none = vec![snap(&[1, 2, 3]), snap(&[100, 4, 5])];
    let o = bonus_game_outcome(&none);
    assert_eq!(o.bonus, 0);
    assert!(!o.enters_bonus_game);

    let three = vec![snap(&[101, 2, 3]), snap(&[1, 101, 5]), snap(&[101, 0, 0])];
    let o = bonus_game_outcome(&three);
    assert_eq!(o.bonus, 1);
    assert!(o.enters_bonus_game);

    let four = vec![snap(&[101, 101, 3]), snap(&[1, 101, 101])];
    assert_eq!(bonus_game_outcome(&four).bonus, 2);

    let seven = vec![snap(&[101, 101, 101]), snap(&[101, 101, 101]), snap(&[101])];
    assert_eq!(capped_scatter_count(&seven), 5);
    let o = bonus_game_outcome(&seven);
    assert_eq!(o.bonus, 4);
    assert!(o.enters_bonus_game);

    assert_eq!(bonus_multiplier(2), 0);
    assert_eq!(bonus_multiplier(3), 1);
}

#[test]
fn active_masks() {
    assert_eq!(to_active_arr(0b10101), vec![true, false, true, false, true]);
    assert_eq!(to_active_arr(0), vec![false; 5]);
    assert_eq!(to_active_arr(0xff), vec![true; 5]);
    assert_eq!(to_active_value(&vec![1, 0, 1, 2, 1]), 0b10101);
    assert_eq!(to_active_value(&vec![0, 0, 0, 0, 0]), 0);
    assert_eq!(to_active_value(&vec![1, 1, 1, 1, 1, 1]), 31);
    assert!(reel_is_held(0b00100, 2));
    assert!(!reel_is_held(0b00100, 1));
}

#[test]
fn active_mask_roundtrip() {
    let line = vec![1, 7, 1, 1, 0];
    let arr = to_active_arr(to_active_value(&line));
    for i in 0..5 {
        assert_eq!(arr[i], line[i] == 1);
    }
}

fn mask(t: &FeatureTally, m: u8) -> usize {
    *t.next.get(&m).unwrap_or(&0)
}

fn small_reels() -> Vec<Reel> {
    vec![
        Reel { icons: vec![1, 2, 3] },
        Reel { icons: vec![2, 2] },
        Reel { icons: vec![1] },
        Reel { icons: vec![4, 1] },
        Reel { icons: vec![0, 1] },
    ]
}

#[test]
fn feature_round_all_held() {
    let table = sample_pay_table();
    let t = feature_round(&small_reels(), 0b11111, &table).unwrap();
    assert_eq!(t.count, 1);
    assert_eq!(t.total, (50 * 1) as i128);
    assert_eq!(mask(&t, 31), 1);
    assert_eq!(t.next.values().sum::<usize>(), 1);
    assert_eq!(expect_count(&small_reels(), 0b11111, 0), Some(1));
}

#[test]
fn feature_round_one_free_reel() {
    let table = sample_pay_table();
    let t = feature_round(&small_reels(), 0b11110, &table).unwrap();
    // [1,1,1,1,1] pays PIC01 x5; [2,1,1,1,1] and [3,1,1,1,1] pay PIC02 and PIC03 x5 with PIC01 as wild.
    assert_eq!(t.count, 3);
    assert_eq!(t.total, 50 + 100 + 150);
    assert_eq!(mask(&t, 31), 1);
    assert_eq!(mask(&t, 30), 2);
    assert_eq!(t.next.values().sum::<usize>(), 3);
}

#[test]
fn feature_round_counts_every_outcome() {
    let table = sample_pay_table();
    let reels = small_reels();
    for active in [0u8, 1, 2, 5, 12, 31] {
        let t = feature_round(&reels, active, &table).unwrap();
        let expected = expect_count(&reels, active, 0).unwrap();
        assert_eq!(t.count as u64, expected);
        assert_eq!(t.next.values().sum::<usize>(), t.count);
        for (&m, &times) in &t.next {
            assert!(times > 0);
            assert!(m < 32);
            assert_eq!(m & active & 31, active & 31);
        }
    }
    assert_eq!(expect_count(&reels, 0, 0), Some(3 * 2 * 1 * 2 * 2));
    assert_eq!(expect_count(&reels, 0, 3), Some(4));
}

#[test]
fn feature_round_reports_missing_pays() {
    let table = PayTable::from_entries(&Vec::new());
    assert!(feature_round(&small_reels(), 0, &table).is_none());
}

#[test]
fn feature_round_shares_add_up() {
    let table = sample_pay_table();
    let reels = small_reels();
    let active = 0b00001;
    let whole = feature_round(&reels, active, &table).unwrap();
    assert_eq!(first_free_reel(active), Some(1));
    let mut merged = FeatureTally::new();
    for position in 0..reels[1].icons.len() {
        let share = feature_round_at(&reels, active, &table, position).unwrap();
        merged.merge(&share);
    }
    assert_eq!(merged.total, whole.total);
    assert_eq!(merged.count, whole.count);
    assert_eq!(merged.next, whole.next);
    assert_eq!(feature_thread_count(&reels, active), 0);
}

#[test]
fn feature_threads_for_long_strips() {
    let long = Reel { icons: (0..200).map(|i| (i % 10) + 1).collect() };
    let reels = vec![long.clone(), long.clone(), long.clone(), long.clone(), long];
    assert_eq!(feature_thread_count(&reels, 0), 20);
    assert_eq!(feature_thread_count(&reels, 0b10000), 20);
    assert_eq!(feature_thread_count(&reels, 0b11000), 0);
    assert_eq!(feature_thread_count(&reels, 0b11100), 0);
    assert!(reels_cover_check(&reels, 0));
    assert!(!reels_cover_check(&reels[..3].to_vec(), 0));
    assert!(reels_cover_check(&reels[..3].to_vec(), 0b11000));
}

#[test]
fn expect_count_reports_overflow() {
    let big = Reel { icons: vec![1; 70000] };
    let reels = vec![big.clone(), big.clone(), big.clone(), big.clone(), big];
    assert_eq!(expect_count(&reels, 0, 0), None);
    assert_eq!(expect_count(&reels, 0b00111, 0), Some(70000 * 70000));
}

#[test]
fn situation_key() {
    let k = SituationKey::new(3, 5);
    assert_eq!(k.active, 3);
    assert_eq!(k.rest_cnt, 5);
    assert_eq!(k, SituationKey { active: 3, rest_cnt: 5 });
}

#[test]
fn spin_rolls_every_reel() {
    let reels = small_reels();
    let snapshot = spin(&reels, &vec![0, 1, 0, 1, 0]);
    let windows: Vec<Vec<i32>> = snapshot.iter().map(|s| s.icons.clone()).collect();
    assert_eq!(windows, vec![vec![3, 1, 2], vec![2, 2, 2], vec![1, 1, 1], vec![4, 1, 4], vec![1, 0, 1]]);
}

#[test]
fn spin_outcome_pays_base_and_bonus() {
    let table = sample_pay_table();
    let reels = vec![
        Reel { icons: vec![101, 6, 6] },
        Reel { icons: vec![6, 101, 0] },
        Reel { icons: vec![2, 101, 6] },
        Reel { icons: vec![6, 7, 8] },
        Reel { icons: vec![9, 9, 9] },
    ];
    let o = spin_outcome(&reels, &vec![1, 1, 2, 1, 1], &table).unwrap();
    // Top row: 101, 6, 101, 6, 9 -> led by a scatter, no line pay; three scatters show.
    assert_eq!(o.base_pay, 0);
    assert_eq!(o.bonus, 1);
    assert!(o.enters_bonus_game);
    let o = spin_outcome(&reels, &vec![0, 0, 0, 0, 0], &table).unwrap();
    // Windows: [6,101,6], [0,6,101], [6,2,101], [8,6,7], [9,9,9]: top row 6, 0, 6, 8, 9.
    assert_eq!(o.base_pay, 60);
    assert_eq!(o.bonus, 1);
    let o = spin_outcome(&reels, &vec![2, 1, 0, 1, 1], &table).unwrap();
    // Top row: 6, 6, 6, 6, 9 -> PIC06 four times pays 20 * 6; three scatters show.
    assert_eq!(o.bonus, 1);
    assert!(o.enters_bonus_game);
    assert!(spin_outcome(&reels, &vec![0, 0, 0, 0, 0, 0], &table).is_none());
    assert!(spin_outcome(&reels, &vec![0, 0, 0, 0, 0], &PayTable::from_entries(&Vec::new())).is_none());
}

#[test]
fn bonus_multiplier_never_falls() {
    for cnt in 0..5 {
        assert!(bonus_multiplier(cnt) <= bonus_multiplier(cnt + 1));
    }
    for cnt in 3..=5 {
        assert!(bonus_multiplier(cnt) > 0);
    }
}

#[test]
fn feature_round_dealt_by_remainder() {
    let table = sample_pay_table();
    let reels = vec![
        Reel { icons: vec![1, 2, 3, 4, 5] },
        Reel { icons: vec![2, 0] },
        Reel { icons: vec![1, 3] },
        Reel { icons: vec![4] },
        Reel { icons: vec![0, 1, 2] },
    ];
    let active = 0;
    let whole = feature_round(&reels, active, &table).unwrap();
    for threads in 1..4usize {
        let mut merged = FeatureTally::new();
        for t in 0..threads {
            let mut share_sum = FeatureTally::new();
            for position in 0..reels[0].icons.len() {
                if position % threads == t {
                    share_sum.merge(&feature_round_at(&reels, active, &table, position).unwrap());
                }
            }
            merged.merge(&share_sum);
        }
        assert_eq!(merged.total, whole.total);
        assert_eq!(merged.count, whole.count);
        assert_eq!(merged.next, whole.next);
    }
}

use power_rankings::constants::point_values;
use power_rankings::player::Player;
use power_rankings::constants::CalculationMethods;
use power_rankings::frac::Frac;
use power_rankings::prcalc::PowerRankings;
use power_rankings::prcalc::PrError;
use power_rankings::prcalc::PROrder;

fn score_of(pr: &PowerRankings, name: &str) -> Frac {
    pr.all_players()
        .iter()
        .find(|p| p.get_name() == name)
        .expect("player not found")
        .get_score()
}

fn history_of(pr: &PowerRankings, name: &str) -> Vec<u32> {
    pr.all_players()
        .iter()
        .find(|p| p.get_name() == name)
        .expect("player not found")
        .pr_category_placements
        .clone()
}

/// Three tournaments and one player entered in all of them.
fn abc_with_x() -> PowerRankings {
    let mut pr = PowerRankings::new();
    let a = pr.add_tournament("A".to_string(), 16);
    let b = pr.add_tournament("B".to_string(), 32);
    let c = pr.add_tournament("C".to_string(), 8);
    pr.add_player("X".to_string());
    pr.add_placement_to_player("X", a, 1).unwrap();
    pr.add_placement_to_player("X", b, 3).unwrap();
    pr.add_placement_to_player("X", c, 2).unwrap();
    pr
}

#[test]
fn point_table_values() {
    assert_eq!(point_values(1), Frac { num: 22, den: 2 });
    assert_eq!(point_values(2), Frac { num: 19, den: 2 });
    assert_eq!(point_values(3), Frac { num: 16, den: 2 });
    assert_eq!(point_values(4), Frac { num: 14, den: 2 });
    assert_eq!(point_values(5), Frac { num: 10, den: 2 });
    assert_eq!(point_values(7), Frac { num: 6, den: 2 });
    assert_eq!(point_values(9), Frac { num: 2, den: 2 });
    // the gaps of a seeded bracket and everything beyond are worth nothing
    assert_eq!(point_values(6).num, 0);
    assert_eq!(point_values(8).num, 0);
    assert_eq!(point_values(10).num, 0);
    assert_eq!(point_values(11).num, 0);
    assert_eq!(point_values(1000).num, 0);
}

#[test]
fn unweighted_three_entries_no_drop() {
    // placements 1st, 3rd, 2nd: 11 + 8 + 9.5 = 28.5 points; n = 3 <= 4,
    // so nothing is dropped and the divisor is max(2, 4) = 4:
    // 28.5 / 4 = 7.125 = 57/8.
    let mut pr = abc_with_x();
    pr.calculate_scoring(CalculationMethods::UnweightedPoints).unwrap();
    assert_eq!(score_of(&pr, "X"), Frac { num: 57, den: 8 });
}

#[test]
fn unweighted_five_entries_drops_worst() {
    // five entries with worst raw placement 9 (1 point): the 1-point
    // contribution leaves the total; divisor is max(4, 4) = 4:
    // (34.5 - 1) / 4 = 8.375 = 67/8.
    let mut pr = abc_with_x();
    let d = pr.add_tournament("D".to_string(), 12);
    let e = pr.add_tournament("E".to_string(), 20);
    pr.add_player("Y".to_string());
    pr.add_placement_to_player("Y", 0, 1).unwrap();
    pr.add_placement_to_player("Y", 1, 3).unwrap();
    pr.add_placement_to_player("Y", 2, 2).unwrap();
    pr.add_placement_to_player("Y", d, 9).unwrap();
    pr.add_placement_to_player("Y", e, 5).unwrap();
    pr.calculate_scoring(CalculationMethods::UnweightedPoints).unwrap();
    assert_eq!(score_of(&pr, "Y"), Frac { num: 67, den: 8 });
}

#[test]
fn average_placement_scores() {
    // X placed 1st, 3rd, 2nd: (1 + 3 + 2) / 4 = 6/4.
    let mut pr = abc_with_x();
    pr.calculate_scoring(CalculationMethods::AveragePlacement).unwrap();
    assert_eq!(score_of(&pr, "X"), Frac { num: 6, den: 4 });
}

#[test]
fn weighted_points_scale_by_tenths_of_entrants() {
    // (16/10)*11 + (32/10)*8 + (8/10)*9.5 = (22*16 + 16*32 + 19*8) / 20,
    // divided by 4: (352 + 512 + 152) / 80 = 1016/80 = 12.7.
    let mut pr = abc_with_x();
    pr.calculate_scoring(CalculationMethods::WeightedPoints).unwrap();
    assert_eq!(score_of(&pr, "X"), Frac { num: 1016, den: 80 });
}

#[test]
fn denominator_is_actual_minus_one_above_five_entries() {
    // six first places: 66 points, drop one 11 -> 55, divided by n-1 = 5.
    let mut pr = PowerRankings::new();
    pr.add_player("W".to_string());
    for i in 0..6u32 {
        let id = pr.add_tournament(format!("T{}", i), 10);
        pr.add_placement_to_player("W", id, 1).unwrap();
    }
    pr.calculate_scoring(CalculationMethods::UnweightedPoints).unwrap();
    assert_eq!(score_of(&pr, "W"), Frac { num: 110, den: 10 });
}

#[test]
fn mean_and_median_statistics() {
    let mut pr = PowerRankings::new();
    pr.add_tournament("A".to_string(), 10);
    pr.add_tournament("B".to_string(), 20);
    pr.add_tournament("C".to_string(), 30);
    assert_eq!(pr.mean_entrant_count().unwrap(), Frac { num: 60, den: 3 });
    assert_eq!(pr.median_entrant_count().unwrap(), Frac { num: 20, den: 1 });
}

#[test]
fn median_of_even_count_averages_middle_pair() {
    let mut pr = PowerRankings::new();
    pr.add_tournament("A".to_string(), 40);
    pr.add_tournament("B".to_string(), 10);
    pr.add_tournament("C".to_string(), 20);
    pr.add_tournament("D".to_string(), 34);
    // sorted: 10, 20, 34, 40 -> (20 + 34) / 2
    assert_eq!(pr.median_entrant_count().unwrap(), Frac { num: 54, den: 2 });
}

#[test]
fn mean_and_median_agree_on_symmetric_catalog() {
    // entrant counts 10, 20, 30: mean = 20 and median = 20, so the two
    // catalog-weighted formulas must assign equal score values.
    let mut pr = PowerRankings::new();
    let a = pr.add_tournament("A".to_string(), 10);
    let b = pr.add_tournament("B".to_string(), 20);
    let c = pr.add_tournament("C".to_string(), 30);
    pr.add_player("Z".to_string());
    pr.add_placement_to_player("Z", a, 1).unwrap();
    pr.add_placement_to_player("Z", b, 2).unwrap();
    pr.add_placement_to_player("Z", c, 3).unwrap();

    pr.calculate_scoring(CalculationMethods::MedianPoints).unwrap();
    let med = score_of(&pr, "Z");
    pr.calculate_scoring(CalculationMethods::MeanPoints).unwrap();
    let mean = score_of(&pr, "Z");

    assert_eq!(med, Frac { num: 1080, den: 160 });
    assert_eq!(mean, Frac { num: 3240, den: 480 });
    assert!(med.same(&mean));
    assert!(med.le(&mean) && mean.le(&med));
}

#[test]
fn filter_removes_players_below_four_placements() {
    let mut pr = PowerRankings::new();
    for i in 0..4u32 {
        pr.add_tournament(format!("T{}", i), 16);
    }
    pr.add_player("Stays".to_string());
    pr.add_player("Goes".to_string());
    for id in 0..4u32 {
        pr.add_placement_to_player("Stays", id, 5).unwrap();
    }
    for id in 0..3u32 {
        pr.add_placement_to_player("Goes", id, 1).unwrap();
    }
    pr.get_only_qualified_players();
    assert_eq!(pr.player_count(), 1);
    let survivors = pr.all_players();
    assert_eq!(survivors[0].get_name(), "Stays");
    assert!(survivors[0].qualifies_for_pr());
    assert!(survivors[0].get_num_tournaments_entered() >= 4);
}

#[test]
fn filtering_twice_changes_nothing() {
    let mut pr = PowerRankings::new();
    for i in 0..4u32 {
        pr.add_tournament(format!("T{}", i), 16);
    }
    pr.add_player("bob".to_string());
    pr.add_player("amy".to_string());
    for id in 0..4u32 {
        pr.add_placement_to_player("bob", id, 2).unwrap();
        pr.add_placement_to_player("amy", id, 1).unwrap();
    }
    pr.get_only_qualified_players();
    // registration order survives the filter
    assert_eq!(pr.all_players()[0].get_name(), "bob");
    assert_eq!(pr.all_players()[1].get_name(), "amy");
    pr.get_only_qualified_players();
    assert_eq!(pr.player_count(), 2);
    assert_eq!(pr.all_players()[0].get_name(), "bob");
    assert_eq!(pr.all_players()[1].get_name(), "amy");
}

#[test]
fn export_with_zero_lines_still_ranks_everyone() {
    let mut pr = abc_with_x();
    pr.calculate_scoring(CalculationMethods::UnweightedPoints).unwrap();
    let rows = pr.export_ordered(PROrder::HiFirst, 0);
    assert!(rows.is_empty());
    assert_eq!(history_of(&pr, "X"), vec![1]);
}

#[test]
fn add_player_is_idempotent() {
    let mut pr = PowerRankings::new();
    let a = pr.add_tournament("A".to_string(), 16);
    pr.add_player("X".to_string());
    pr.add_placement_to_player("X", a, 2).unwrap();
    pr.add_player("X".to_string());
    assert_eq!(pr.player_count(), 1);
    assert_eq!(pr.all_players()[0].get_num_tournaments_entered(), 1);
}

#[test]
fn recording_again_overwrites_the_placement() {
    let mut pr = PowerRankings::new();
    let a = pr.add_tournament("A".to_string(), 16);
    pr.add_player("X".to_string());
    pr.add_placement_to_player("X", a, 1).unwrap();
    pr.add_placement_to_player("X", a, 9).unwrap();
    assert_eq!(pr.all_players()[0].get_num_tournaments_entered(), 1);
    pr.calculate_scoring(CalculationMethods::UnweightedPoints).unwrap();
    // a single 9th place is 1 point, divided by max(0, 4) = 4
    assert_eq!(score_of(&pr, "X"), Frac { num: 2, den: 8 });
}

#[test]
fn unknown_player_is_reported() {
    let mut pr = PowerRankings::new();
    let a = pr.add_tournament("A".to_string(), 16);
    assert_eq!(pr.add_placement_to_player("Nobody", a, 1), Err(PrError::UnknownPlayer));
}

#[test]
fn unknown_tournament_is_reported() {
    let mut pr = PowerRankings::new();
    pr.add_tournament("A".to_string(), 16);
    pr.add_player("X".to_string());
    assert_eq!(pr.add_placement_to_player("X", 7, 1), Err(PrError::UnknownTournament));
    assert_eq!(pr.entrant_count_of(7), Err(PrError::UnknownTournament));
    assert_eq!(pr.entrant_count_of(0), Ok(16));
}

#[test]
fn empty_catalog_is_reported() {
    let mut pr = PowerRankings::new();
    assert_eq!(pr.mean_entrant_count(), Err(PrError::EmptyCatalog));
    assert_eq!(pr.median_entrant_count(), Err(PrError::EmptyCatalog));
    assert_eq!(pr.calculate_scoring(CalculationMethods::MedianPoints), Err(PrError::EmptyCatalog));
    assert_eq!(pr.calculate_scoring(CalculationMethods::MeanPoints), Err(PrError::EmptyCatalog));
    assert_eq!(pr.calculate_scoring(CalculationMethods::UnweightedPoints), Ok(()));
}

#[test]
fn export_assigns_dense_ranks_and_appends_history() {
    let mut pr = abc_with_x();
    pr.add_player("Y".to_string());
    pr.add_placement_to_player("Y", 0, 9).unwrap();
    pr.add_player("Z".to_string());
    pr.add_placement_to_player("Z", 1, 4).unwrap();
    pr.calculate_scoring(CalculationMethods::UnweightedPoints).unwrap();
    let rows = pr.export_ordered(PROrder::HiFirst, 2);
    // every player is ranked, only the top two are emitted
    assert_eq!(rows.len(), 2);
    assert_eq!(rows[0].rank, 1);
    assert_eq!(rows[1].rank, 2);
    assert_eq!(rows[0].name, "X");
    for p in pr.all_players() {
        assert_eq!(p.pr_category_placements.len(), 1);
    }
    let ranks: Vec<u32> =
        pr.all_players().iter().map(|p| p.pr_category_placements[0]).collect();
    let mut sorted_ranks = ranks.clone();
    sorted_ranks.sort();
    assert_eq!(sorted_ranks, vec![1, 2, 3]);
}

#[test]
fn repeated_export_repeats_rows_and_grows_history() {
    let mut pr = abc_with_x();
    pr.add_player("Y".to_string());
    pr.add_placement_to_player("Y", 0, 5).unwrap();
    pr.calculate_scoring(CalculationMethods::UnweightedPoints).unwrap();
    let first = pr.export_ordered(PROrder::HiFirst, 10);
    let score_x = score_of(&pr, "X");
    let second = pr.export_ordered(PROrder::HiFirst, 10);
    assert_eq!(first.len(), second.len());
    for (a, b) in first.iter().zip(second.iter()) {
        assert_eq!(a.rank, b.rank);
        assert_eq!(a.name, b.name);
        assert_eq!(a.score, b.score);
    }
    // scores unchanged, histories one entry longer
    assert_eq!(score_of(&pr, "X"), score_x);
    for p in pr.all_players() {
        assert_eq!(p.pr_category_placements.len(), 2);
    }
}

#[test]
fn equal_scores_order_by_name() {
    let mut pr = PowerRankings::new();
    let a = pr.add_tournament("A".to_string(), 16);
    pr.add_player("beta".to_string());
    pr.add_player("alpha".to_string());
    pr.add_placement_to_player("alpha", a, 4).unwrap();
    pr.add_placement_to_player("beta", a, 4).unwrap();
    pr.calculate_scoring(CalculationMethods::UnweightedPoints).unwrap();
    let rows = pr.export_ordered(PROrder::LoFirst, 10);
    assert_eq!(rows[0].name, "alpha");
    assert_eq!(rows[1].name, "beta");
    let rows = pr.export_ordered(PROrder::HiFirst, 10);
    assert_eq!(rows[0].name, "alpha");
    assert_eq!(rows[1].name, "beta");
}

#[test]
fn full_pipeline_overall_pr_averages_five_ranks() {
    let mut pr = PowerRankings::new();
    let a = pr.add_tournament("A".to_string(), 16);
    let b = pr.add_tournament("B".to_string(), 32);
    let c = pr.add_tournament("C".to_string(), 8);
    let d = pr.add_tournament("D".to_string(), 24);
    for name in ["one", "two"] {
        pr.add_player(name.to_string());
    }
    // "one" always beats "two"
    for id in [a, b, c, d] {
        pr.add_placement_to_player("one", id, 1).unwrap();
        pr.add_placement_to_player("two", id, 2).unwrap();
    }
    pr.get_only_qualified_players();
    assert_eq!(pr.player_count(), 2);

    pr.calculate_scoring(CalculationMethods::AveragePlacement).unwrap();
    pr.export_ordered(PROrder::LoFirst, 12);
    pr.calculate_scoring(CalculationMethods::WeightedPoints).unwrap();
    pr.export_ordered(PROrder::HiFirst, 12);
    pr.calculate_scoring(CalculationMethods::MedianPoints).unwrap();
    pr.export_ordered(PROrder::HiFirst, 12);
    pr.calculate_scoring(CalculationMethods::MeanPoints).unwrap();
    pr.export_ordered(PROrder::HiFirst, 12);
    pr.calculate_scoring(CalculationMethods::UnweightedPoints).unwrap();
    pr.export_ordered(PROrder::HiFirst, 12);

    assert_eq!(history_of(&pr, "one"), vec![1, 1, 1, 1, 1]);
    assert_eq!(history_of(&pr, "two"), vec![2, 2, 2, 2, 2]);

    pr.calculate_scoring(CalculationMethods::OverallPRPlacement).unwrap();
    assert_eq!(score_of(&pr, "one"), Frac { num: 5, den: 5 });
    assert_eq!(score_of(&pr, "two"), Frac { num: 10, den: 5 });
    let rows = pr.export_ordered(PROrder::LoFirst, 20);
    assert_eq!(rows[0].name, "one");
    assert_eq!(rows[1].name, "two");
    assert_eq!(history_of(&pr, "one").len(), 6);
}

#[test]
fn overall_pr_uses_only_last_five_ranks() {
    // a history of six entries: only the most recent five count, still
    // divided by the constant five.
    let mut pr = abc_with_x();
    pr.calculate_scoring(CalculationMethods::UnweightedPoints).unwrap();
    for _ in 0..6 {
        pr.export_ordered(PROrder::HiFirst, 12);
    }
    assert_eq!(history_of(&pr, "X"), vec![1, 1, 1, 1, 1, 1]);
    pr.calculate_scoring(CalculationMethods::OverallPRPlacement).unwrap();
    assert_eq!(score_of(&pr, "X"), Frac { num: 5, den: 5 });
}

#[test]
fn rescoring_ignores_rank_history() {
    // every formula but the overall one is a pure function of the catalog
    // and the placements: growing the rank history in between changes
    // nothing.
    let mut pr = abc_with_x();
    pr.calculate_scoring(CalculationMethods::WeightedPoints).unwrap();
    let before = score_of(&pr, "X");
    pr.export_ordered(PROrder::HiFirst, 12);
    pr.export_ordered(PROrder::HiFirst, 12);
    pr.calculate_scoring(CalculationMethods::WeightedPoints).unwrap();
    assert_eq!(score_of(&pr, "X"), before);
}

#[test]
fn player_identity_and_order_traits() {
    let mut a = Player::new("same".to_string());
    let b = Player::new("same".to_string());
    let c = Player::new("other".to_string());
    assert!(a == b);
    assert!(a != c);
    a.score = Frac { num: 3, den: 2 };
    let mut d = Player::new("rival".to_string());
    d.score = Frac { num: 6, den: 4 };
    assert_eq!(a.partial_cmp(&d), Some(std::cmp::Ordering::Equal));
    d.score = Frac { num: 7, den: 4 };
    assert!(a < d);
    assert!(d > a);
}

#[test]
fn worst_placement_getter() {
    let mut pr = abc_with_x();
    pr.add_placement_to_player("X", 2, 17).unwrap();
    let x = &pr.all_players()[0];
    assert_eq!(x.get_worst_placement(), 17);
}

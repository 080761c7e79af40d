use bangdream_optimize::item_search::{calculate_best_result_for_items, search_item_combinations};
use bangdream_optimize::items::CalculationError;
use bangdream_optimize::model::{BuildResult, EventType, Magazine, SelectedAreaItems, SongSelection};
use bangdream_optimize::raw_candidate::TeamBuildError;

fn items(band: &str) -> SelectedAreaItems {
    SelectedAreaItems { band: band.to_owned(), attribute: "cool".to_owned(), magazine: Magazine::Performance }
}

fn result(band: &str, score: i32) -> BuildResult {
    BuildResult {
        event_id: 1,
        event_type: EventType::Challenge,
        total_score: score,
        total_stat: 0,
        songs: vec![],
        items: Some(items(band)),
        solver: None,
        medley_metrics: None,
    }
}

fn score_of(band: &str) -> i32 {
    band.parse::<i32>().unwrap() * 10
}

#[test]
fn keeps_the_best_result_and_the_later_of_equal_ones() {
    let choices = vec![items("3"), items("5"), items("5"), items("2")];
    let found = search_item_combinations(
        EventType::Challenge,
        5,
        choices,
        |_: &SelectedAreaItems, _: i32| Ok(true),
        |_: &SelectedAreaItems| Ok(None),
        |c: &SelectedAreaItems, _: i32| Ok(Some(result(&c.band, score_of(&c.band)))),
    )
    .unwrap();
    assert_eq!(found.total_score, 50);
}

#[test]
fn medley_skips_choices_that_cannot_beat_the_best() {
    let choices = vec![items("3"), items("9")];
    let found = search_item_combinations(
        EventType::Medley,
        5,
        choices,
        |c: &SelectedAreaItems, best: i32| Ok(c.band != "9" || best == 0),
        |_: &SelectedAreaItems| Ok(None),
        |c: &SelectedAreaItems, _: i32| Ok(Some(result(&c.band, score_of(&c.band)))),
    )
    .unwrap();
    assert_eq!(found.total_score, 30);
}

#[test]
fn seeds_large_medley_pools_and_tolerates_too_few_cards() {
    let choices = vec![items("4")];
    let found = search_item_combinations(
        EventType::Medley,
        200,
        choices,
        |_: &SelectedAreaItems, _: i32| Ok(true),
        |_: &SelectedAreaItems| Ok(Some(result("seed", 70))),
        |_: &SelectedAreaItems, _: i32| Err(CalculationError::Team(TeamBuildError::NotEnoughCards { count: 0 })),
    )
    .unwrap();
    assert_eq!(found.total_score, 70);
}

#[test]
fn stops_at_the_first_real_error_and_reports_no_result() {
    let error = search_item_combinations(
        EventType::Challenge,
        5,
        vec![items("1"), items("2")],
        |_: &SelectedAreaItems, _: i32| Ok(true),
        |_: &SelectedAreaItems| Ok(None),
        |c: &SelectedAreaItems, _: i32| {
            if c.band == "1" { Err(CalculationError::NoAreaItemCombinations) } else { Ok(None) }
        },
    )
    .unwrap_err();
    assert_eq!(error, CalculationError::NoAreaItemCombinations);

    let error = search_item_combinations(
        EventType::Challenge,
        5,
        vec![items("1")],
        |_: &SelectedAreaItems, _: i32| Ok(true),
        |_: &SelectedAreaItems| Ok(None),
        |_: &SelectedAreaItems, _: i32| Ok(None),
    )
    .unwrap_err();
    assert_eq!(error, CalculationError::NoBuildResult);
}

fn stats_of(c: &SelectedAreaItems) -> Vec<i32> {
    match (c.band.as_str(), c.magazine) {
        ("2", Magazine::Performance) => vec![10, 1],
        ("2", _) => vec![1, 10],
        _ => vec![0, 0],
    }
}

#[test]
fn item_search_drops_dominated_choices_and_counts_them() {
    let songs = vec![SongSelection { song_id: 1, difficulty: 3 }];
    let outcome = calculate_best_result_for_items(
        EventType::Challenge,
        &songs,
        1,
        &vec![Magazine::Performance, Magazine::Technique],
        &vec!["1".to_owned(), "2".to_owned()],
        &vec!["cool".to_owned()],
        None,
        5,
        stats_of,
        |_: &SelectedAreaItems, _: i32| Ok(true),
        |_: &SelectedAreaItems| Ok(None),
        |c: &SelectedAreaItems, _: i32| {
            assert_eq!(c.band, "2");
            let score = if c.magazine == Magazine::Performance { 30 } else { 40 };
            Ok(Some(result(&c.band, score)))
        },
    )
    .unwrap();
    assert_eq!(outcome.item_combinations_before, 4);
    assert_eq!(outcome.item_combinations_after, 2);
    assert_eq!(outcome.result.total_score, 40);
}

#[test]
fn item_search_checks_songs_and_items_first() {
    let songs = vec![SongSelection { song_id: 1, difficulty: 3 }, SongSelection { song_id: 2, difficulty: 3 }];
    let mismatch = calculate_best_result_for_items(
        EventType::Challenge,
        &songs,
        1,
        &vec![Magazine::Performance],
        &vec!["1".to_owned()],
        &vec!["cool".to_owned()],
        None,
        5,
        stats_of,
        |_: &SelectedAreaItems, _: i32| Ok(true),
        |_: &SelectedAreaItems| Ok(None),
        |_: &SelectedAreaItems, _: i32| Ok(None),
    );
    assert!(matches!(mismatch, Err(CalculationError::SongChartCountMismatch { songs: 2, charts: 1 })));
    let no_items = calculate_best_result_for_items(
        EventType::Challenge,
        &songs[..1],
        1,
        &vec![Magazine::Performance],
        &vec![],
        &vec!["cool".to_owned()],
        None,
        5,
        stats_of,
        |_: &SelectedAreaItems, _: i32| Ok(true),
        |_: &SelectedAreaItems| Ok(None),
        |_: &SelectedAreaItems, _: i32| Ok(None),
    );
    assert!(matches!(no_items, Err(CalculationError::NoAreaItemCombinations)));
}

use bangdream_optimize::items::{
    card_attributes, card_bands, item_combinations, item_stats_dominate,
    item_stats_strictly_better, prune_dominated_item_combinations, validate_song_inputs,
    CalculationError, PreferredItemTarget,
};
use bangdream_optimize::model::{Attribute, EventType, Magazine, SelectedAreaItems, SongSelection};

fn texts(values: &[&str]) -> Vec<String> {
    values.iter().map(|v| v.to_string()).collect()
}

fn items(band: &str, attribute: &str, magazine: Magazine) -> SelectedAreaItems {
    SelectedAreaItems { band: band.to_owned(), attribute: attribute.to_owned(), magazine }
}

#[test]
fn medley_item_combinations_include_everyone_as_actual_target_set() {
    let bands = texts(&["1", "1,2,3,4,5,18,21,45", "18", "2", "21", "3", "4", "45", "5"]);
    let attributes = texts(&["cool", "cool,happy,powerful,pure", "happy", "powerful", "pure"]);
    let magazines = vec![Magazine::Performance, Magazine::Technique, Magazine::Visual];

    let combinations = item_combinations(
        &magazines,
        &bands,
        &attributes,
        EventType::Medley,
        Some(PreferredItemTarget { band: "4".to_owned(), attribute: "cool".to_owned() }),
    )
    .unwrap();

    assert_eq!(combinations.len(), 135);
    assert!(combinations.iter().any(|items| items.band == "1,2,3,4,5,18,21,45"));
    assert!(combinations.iter().any(|items| items.attribute == "cool,happy,powerful,pure"));
}

#[test]
fn preferred_items_come_first_for_each_magazine_and_only_once() {
    let bands = texts(&["1", "2"]);
    let attributes = texts(&["cool", "pure"]);
    let magazines = vec![Magazine::Performance, Magazine::Visual];
    let combinations = item_combinations(
        &magazines,
        &bands,
        &attributes,
        EventType::Medley,
        Some(PreferredItemTarget { band: "2".to_owned(), attribute: "cool".to_owned() }),
    )
    .unwrap();

    assert_eq!(
        combinations,
        vec![
            items("2", "cool", Magazine::Performance),
            items("1", "cool", Magazine::Performance),
            items("1", "pure", Magazine::Performance),
            items("2", "pure", Magazine::Performance),
            items("2", "cool", Magazine::Visual),
            items("1", "cool", Magazine::Visual),
            items("1", "pure", Magazine::Visual),
            items("2", "pure", Magazine::Visual),
        ]
    );
}

#[test]
fn preferred_items_are_ignored_outside_medley() {
    let bands = texts(&["1", "2"]);
    let attributes = texts(&["cool"]);
    let magazines = vec![Magazine::Technique];
    let combinations = item_combinations(
        &magazines,
        &bands,
        &attributes,
        EventType::Challenge,
        Some(PreferredItemTarget { band: "2".to_owned(), attribute: "cool".to_owned() }),
    )
    .unwrap();

    assert_eq!(
        combinations,
        vec![items("1", "cool", Magazine::Technique), items("2", "cool", Magazine::Technique)]
    );
}

#[test]
fn preferred_target_outside_the_keys_is_still_tried() {
    let combinations = item_combinations(
        &vec![Magazine::Performance],
        &texts(&["1"]),
        &texts(&["cool"]),
        EventType::Medley,
        Some(PreferredItemTarget { band: "9".to_owned(), attribute: "happy".to_owned() }),
    )
    .unwrap();

    assert_eq!(
        combinations,
        vec![items("9", "happy", Magazine::Performance), items("1", "cool", Magazine::Performance)]
    );
}

#[test]
fn errors_when_no_item_combinations_exist() {
    let error = item_combinations(&vec![], &vec![], &vec![], EventType::Challenge, None)
        .unwrap_err();
    assert!(matches!(error, CalculationError::NoAreaItemCombinations));

    let error = item_combinations(
        &vec![Magazine::Performance],
        &texts(&["1"]),
        &vec![],
        EventType::Medley,
        Some(PreferredItemTarget { band: "1".to_owned(), attribute: "cool".to_owned() }),
    )
    .unwrap_err();
    assert!(matches!(error, CalculationError::NoAreaItemCombinations));
}

#[test]
fn prunes_dominated_item_combinations() {
    let combinations = vec![
        items("1", "cool", Magazine::Performance),
        items("2", "cool", Magazine::Performance),
    ];
    let stats = vec![vec![3300; 5], vec![3500; 5]];

    let pruned = prune_dominated_item_combinations(combinations, &stats);

    assert_eq!(pruned.len(), 1);
    assert_eq!(pruned[0].band, "2");
}

#[test]
fn prunes_zero_level_all_attribute_item_choice() {
    let combinations = vec![
        items("4", "cool", Magazine::Performance),
        items("4", "cool,happy,powerful,pure", Magazine::Performance),
    ];
    assert_eq!(combinations.len(), 2);
    let stats = vec![vec![3300; 5], vec![3000; 5]];

    let pruned = prune_dominated_item_combinations(combinations, &stats);

    assert_eq!(pruned.len(), 1);
    assert_eq!(pruned[0].attribute, "cool");
}

#[test]
fn equal_item_choices_keep_the_first_and_trade_offs_keep_both() {
    let combinations = vec![
        items("1", "cool", Magazine::Performance),
        items("2", "cool", Magazine::Performance),
        items("3", "cool", Magazine::Performance),
    ];
    let stats = vec![vec![10, 20], vec![10, 20], vec![20, 10]];

    let pruned = prune_dominated_item_combinations(combinations, &stats);

    assert_eq!(
        pruned,
        vec![items("1", "cool", Magazine::Performance), items("3", "cool", Magazine::Performance)]
    );
}

#[test]
fn item_stats_compare_position_by_position() {
    assert!(item_stats_dominate(&[3, 4], &[3, 4]));
    assert!(!item_stats_strictly_better(&[3, 4], &[3, 4]));
    assert!(item_stats_dominate(&[3, 5], &[3, 4]));
    assert!(item_stats_strictly_better(&[3, 5], &[3, 4]));
    assert!(!item_stats_dominate(&[2, 5], &[3, 4]));
    assert!(item_stats_strictly_better(&[2, 5], &[3, 4]));
    assert!(item_stats_dominate(&[], &[1]));
}

#[test]
fn validates_song_and_chart_counts() {
    let song = SongSelection { song_id: 1, difficulty: 3 };
    assert_eq!(validate_song_inputs(EventType::Challenge, &[song], 1), Ok(()));
    assert_eq!(validate_song_inputs(EventType::Medley, &[song, song, song], 3), Ok(()));
    assert_eq!(
        validate_song_inputs(EventType::Medley, &[song, song], 3),
        Err(CalculationError::SongChartCountMismatch { songs: 2, charts: 3 })
    );
    assert_eq!(
        validate_song_inputs(EventType::Medley, &[song], 1),
        Err(CalculationError::InvalidSongCount { event_type: EventType::Medley, expected: 3, actual: 1 })
    );
    assert_eq!(
        validate_song_inputs(EventType::Versus, &[song, song], 2),
        Err(CalculationError::InvalidSongCount { event_type: EventType::Versus, expected: 1, actual: 2 })
    );
}

#[test]
fn card_bands_are_sorted_and_distinct() {
    assert_eq!(card_bands(&[4, 2, 4, 1, 2]), vec![1, 2, 4]);
    assert_eq!(card_bands(&[]), Vec::<u32>::new());
}

#[test]
fn card_attributes_follow_the_fixed_order() {
    assert_eq!(
        card_attributes(&[Attribute::Powerful, Attribute::Cool, Attribute::Powerful]),
        vec![Attribute::Cool, Attribute::Powerful]
    );
    assert_eq!(
        card_attributes(&[Attribute::All, Attribute::Pure, Attribute::Happy, Attribute::Cool]),
        vec![Attribute::Cool, Attribute::Happy, Attribute::Pure, Attribute::All]
    );
}

#[test]
fn default_search_options_prefer_nothing() {
    let options = bangdream_optimize::items::ItemSearchOptions::default();
    assert!(options.preferred.is_none());
    assert!(options.solver_preference.is_none());
    assert!(options.team_generation.score_as_medley);
    assert_eq!(options.team_generation.max_candidates, usize::MAX);
}

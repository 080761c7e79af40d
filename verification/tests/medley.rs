use bangdream_optimize::candidate::{
    calculate_from_candidates, BuildError, CandidateBuildRequest, TeamCandidate, MedleyPlan, MedleySolverFailure,
    MedleySolverImplementation, MedleySolverInput, MedleySolverPreference,
};
use bangdream_optimize::disjoint_bound::{candidate_indices, SONG_COUNT};
use bangdream_optimize::model::{EventType, Magazine, SelectedAreaItems, SongSelection};
use bangdream_optimize::item_search::calculate_medley_result_for_items;
use bangdream_optimize::items::CalculationError;
use bangdream_optimize::raw_candidate::{
    build_raw_team_candidates_with_current_best, incumbent_refresh_within_solver_budget, next_incumbent_refresh_count,
    refresh_candidate_incumbent,
    RawTeamCandidate, TeamBuildError,
    TeamGenerationOptions, INCUMBENT_REFRESH_MAX_SOLVER_CANDIDATES, INCUMBENT_REFRESH_MIN_CANDIDATES,
};

fn no_solver(
    _input: &MedleySolverInput,
    _preference: MedleySolverPreference,
) -> Result<MedleyPlan, MedleySolverFailure> {
    Err(MedleySolverFailure::NoValidPlan)
}

#[test]
fn incumbent_refresh_respects_solver_candidate_budget() {
    assert!(incumbent_refresh_within_solver_budget(INCUMBENT_REFRESH_MAX_SOLVER_CANDIDATES));
    assert!(!incumbent_refresh_within_solver_budget(INCUMBENT_REFRESH_MAX_SOLVER_CANDIDATES + 1));
}

#[test]
fn incumbent_refresh_steps_grow_with_the_candidates() {
    assert_eq!(next_incumbent_refresh_count(10), 10 + INCUMBENT_REFRESH_MIN_CANDIDATES);
    assert_eq!(next_incumbent_refresh_count(100_000), 200_000);
    assert_eq!(next_incumbent_refresh_count(usize::MAX), usize::MAX);
}

#[test]
fn team_generation_defaults_to_unlimited_medley_scoring() {
    let options = TeamGenerationOptions::default();
    assert!(options.score_as_medley);
    assert_eq!(options.max_candidates, usize::MAX);
}

#[test]
fn sparse_card_positions_and_original_candidate_order_are_preserved() {
    let cards = [
        [2000, 7, 999, 345, 401],
        [0, 8, 1000, 346, 402],
        [1, 9, 1001, 347, 403],
        [2000, 8, 1001, 348, 404],
    ];
    let scores = [
        [100; SONG_COUNT],
        [100; SONG_COUNT],
        [100; SONG_COUNT],
        [1; SONG_COUNT],
    ];
    assert_eq!(
        candidate_indices(vec![2, 0, 3, 1], |i| cards[i], |i| scores[i], 300, "test"),
        [2, 0, 1]
    );
}

#[test]
fn rejects_festival_candidates_until_fever_is_implemented() {
    let error = calculate_from_candidates(
        CandidateBuildRequest {
            event_id: 100,
            event_type: EventType::Festival,
            song_list: Vec::new(),
            candidates: Vec::new(),
            current_best: 0,
            solver_preference: None,
            items: None,
        },
        no_solver,
    )
    .unwrap_err();

    assert!(matches!(error, BuildError::UnsupportedEventType { .. }));
}

fn raw_team(first: usize, score: i32) -> RawTeamCandidate {
    let team = [first, first + 1, first + 2, first + 3, first + 4];
    RawTeamCandidate {
        raw_indices: team,
        ordered_raw_indices: [team, team, team],
        captain_raw_indices: [first, first, first],
        scores: [score, score, score],
        stat: 0,
    }
}

#[test]
fn incumbent_refresh_takes_a_better_plan_and_keeps_the_incumbent_otherwise() {
    let candidates = vec![raw_team(0, 100), raw_team(5, 100), raw_team(10, 100)];
    let plan = |_: &MedleySolverInput, _: MedleySolverPreference| {
        Ok(MedleyPlan { score: 300, indices: [0, 1, 2], implementation: MedleySolverImplementation::Scalar })
    };
    assert_eq!(refresh_candidate_incumbent(&candidates, 10, plan), 300);
    assert_eq!(refresh_candidate_incumbent(&candidates, 10, no_solver), 10);
    assert_eq!(refresh_candidate_incumbent(&candidates[..2].to_vec(), 10, plan), 10);
    let low = |_: &MedleySolverInput, _: MedleySolverPreference| {
        Ok(MedleyPlan { score: 5, indices: [0, 1, 2], implementation: MedleySolverImplementation::Scalar })
    };
    assert_eq!(refresh_candidate_incumbent(&candidates, 10, low), 10);
}

fn team(mask: u64, first_id: u32, scores: Vec<i32>, stat: i32) -> TeamCandidate {
    TeamCandidate {
        mask,
        mask_words: Vec::new(),
        team_card_ids: (first_id..first_id + 5).collect(),
        ordered_team_card_ids: None,
        captain_card_ids: vec![first_id, first_id, first_id],
        scores,
        stat,
    }
}

#[test]
fn calculates_medley_from_candidates() {
    let request = CandidateBuildRequest {
        event_id: 100,
        event_type: EventType::Medley,
        song_list: vec![
            SongSelection { song_id: 1, difficulty: 3 },
            SongSelection { song_id: 2, difficulty: 3 },
            SongSelection { song_id: 3, difficulty: 3 },
        ],
        candidates: vec![
            team(0b00001, 10, vec![100, 1, 1], 1000),
            team(0b00010, 20, vec![1, 100, 1], 2000),
            team(0b00100, 30, vec![1, 1, 100], 3000),
        ],
        current_best: 0,
        solver_preference: Some(MedleySolverPreference::Scalar),
        items: None,
    };
    let solver = |input: &MedleySolverInput, _: MedleySolverPreference| {
        assert_eq!(input.scores.len(), 3);
        Ok(MedleyPlan { score: 300, indices: [0, 1, 2], implementation: MedleySolverImplementation::Scalar })
    };

    let result = calculate_from_candidates(request, solver).unwrap();

    assert_eq!(result.total_score, 300);
    assert_eq!(result.total_stat, 6000);
    assert_eq!(result.songs.len(), 3);
}

#[test]
fn single_song_candidates_without_songs_report_the_count_mismatch() {
    let error = calculate_from_candidates(
        CandidateBuildRequest {
            event_id: 1,
            event_type: EventType::Challenge,
            song_list: Vec::new(),
            candidates: vec![team(1, 10, vec![5], 1)],
            current_best: 0,
            solver_preference: None,
            items: None,
        },
        no_solver,
    )
    .unwrap_err();
    assert_eq!(error, BuildError::CandidateSongCountMismatch { candidate_id: 0, expected: 0, actual: 1 });
}

#[test]
fn medley_result_for_items_solves_below_the_incumbent() {
    let songs = vec![
        SongSelection { song_id: 1, difficulty: 3 },
        SongSelection { song_id: 2, difficulty: 3 },
        SongSelection { song_id: 3, difficulty: 3 },
    ];
    let items = SelectedAreaItems { band: "1".into(), attribute: "cool".into(), magazine: Magazine::Visual };
    let card_ids: Vec<u32> = (1..=15).collect();
    let build = |best: i32| {
        assert_eq!(best, 300);
        Ok(vec![raw_team(0, 100), raw_team(5, 100), raw_team(10, 100)])
    };
    let solve = |input: &MedleySolverInput, _: MedleySolverPreference| {
        assert_eq!(input.current_best, 299);
        Ok(MedleyPlan { score: 300, indices: [0, 1, 2], implementation: MedleySolverImplementation::Scalar })
    };
    let result = calculate_medley_result_for_items(1, songs.clone(), card_ids.clone(), items.clone(), None, 300, build, solve)
        .unwrap();
    assert_eq!(result.total_score, 300);
    assert_eq!(result.items, Some(items.clone()));

    let too_few = |_: i32| -> Result<Vec<RawTeamCandidate>, TeamBuildError> { Err(TeamBuildError::NotEnoughCards { count: 4 }) };
    let r = calculate_medley_result_for_items(1, songs.clone(), card_ids.clone(), items.clone(), None, 300, too_few, no_solver);
    assert!(matches!(r, Err(CalculationError::Team(TeamBuildError::NotEnoughCards { count: 4 }))));

    let none = |_: i32| -> Result<Vec<RawTeamCandidate>, TeamBuildError> { Ok(Vec::new()) };
    let r = calculate_medley_result_for_items(1, songs, card_ids, items, None, i32::MIN, none, no_solver);
    assert!(matches!(r, Err(CalculationError::Candidate(BuildError::EmptyCandidates))));
}

#[test]
fn raw_candidates_are_built_pool_by_pool() {
    let two_pools = || -> Result<usize, TeamBuildError> { Ok(2) };
    let by_pool = |k: usize, best: i32| -> Result<Vec<RawTeamCandidate>, TeamBuildError> {
        assert_eq!(best, 50);
        Ok(vec![raw_team(5 * k, 10 * k as i32 + 1)])
    };
    let built = build_raw_team_candidates_with_current_best(10, 3, 50, two_pools, by_pool, no_solver).unwrap();
    assert_eq!(built, vec![raw_team(0, 1), raw_team(5, 11)]);

    assert!(matches!(
        build_raw_team_candidates_with_current_best(4, 3, 50, two_pools, by_pool, no_solver),
        Err(TeamBuildError::NotEnoughCards { count: 4 })
    ));
    let no_pools = || -> Result<usize, TeamBuildError> { Ok(0) };
    assert!(matches!(
        build_raw_team_candidates_with_current_best(10, 3, 50, no_pools, by_pool, no_solver),
        Err(TeamBuildError::NotEnoughCards { count: 0 })
    ));
    let failing_prepare = || -> Result<usize, TeamBuildError> { Err(TeamBuildError::TooManyCandidates { limit: 7 }) };
    assert!(matches!(
        build_raw_team_candidates_with_current_best(10, 3, 50, failing_prepare, by_pool, no_solver),
        Err(TeamBuildError::TooManyCandidates { limit: 7 })
    ));
    let second_fails = |k: usize, _: i32| -> Result<Vec<RawTeamCandidate>, TeamBuildError> {
        if k == 1 { Err(TeamBuildError::TooManyCandidates { limit: 1 }) } else { Ok(vec![raw_team(0, 1)]) }
    };
    assert!(matches!(
        build_raw_team_candidates_with_current_best(10, 3, 50, two_pools, second_fails, no_solver),
        Err(TeamBuildError::TooManyCandidates { limit: 1 })
    ));
    let empty = |_: usize, _: i32| -> Result<Vec<RawTeamCandidate>, TeamBuildError> { Ok(Vec::new()) };
    assert!(matches!(
        build_raw_team_candidates_with_current_best(10, 3, 50, two_pools, empty, no_solver),
        Err(TeamBuildError::NotEnoughCards { count: 0 })
    ));
}

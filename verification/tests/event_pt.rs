use bangdream_optimize::event_pt::{
    apply_point_bonus, challenge_cp_gain, challenge_cp_points, cooperative_points,
    festival_multiplayer_points, medley_three_song_points, solo_points, versus_multiplayer_points,
    EventPtError,
};
use bangdream_optimize::model::EventType;

#[test]
fn matches_formula_workbook_examples() {
    assert_eq!(
        cooperative_points(EventType::MissionLive, 4_100_000, 20_000_000, 35_600, 97).unwrap(),
        2_372,
    );
    assert_eq!(
        cooperative_points(EventType::LiveTry, 157_000, 157_000, 16_600, 0).unwrap(),
        361,
    );
    assert_eq!(
        cooperative_points(EventType::Challenge, 0, 0, 30_600, 0).unwrap(),
        284,
    );
    assert_eq!(versus_multiplayer_points(3_020_000, 0).unwrap(), 664);
    assert_eq!(
        festival_multiplayer_points(3_654_786, 4, false).unwrap(),
        712,
    );
    assert_eq!(challenge_cp_points(1_700_000), 7_027);
    assert_eq!(medley_three_song_points(4_500_000), 343);
}

#[test]
fn mission_support_is_added_after_point_bonus() {
    let without_support =
        cooperative_points(EventType::MissionLive, 4_100_000, 20_000_000, 35_600, 0).unwrap();
    assert_eq!(without_support, 2_275);
    assert_eq!(
        cooperative_points(EventType::MissionLive, 4_100_000, 20_000_000, 35_600, 97).unwrap(),
        without_support + 97,
    );
}

#[test]
fn festival_solo_applies_event_bonus_as_point_multiplier() {
    assert_eq!(solo_points(EventType::Festival, 140_000, 5_000, 0), Ok(135));
}

#[test]
fn rejects_invalid_multiplayer_inputs() {
    assert_eq!(
        versus_multiplayer_points(0, 5),
        Err(EventPtError::InvalidTeamRank { rank: 5 }),
    );
    assert!(matches!(
        cooperative_points(EventType::LiveTry, 100, 99, 0, 0),
        Err(EventPtError::TotalScoreBelowPersonalScore { .. })
    ));
}

#[test]
fn point_bonus_scales_and_saturates() {
    assert_eq!(apply_point_bonus(100, 5_000), 150);
    assert_eq!(apply_point_bonus(100, 0), 100);
    assert_eq!(apply_point_bonus(u64::MAX, 10_000), u64::MAX / 10_000);
}

#[test]
fn solo_points_per_event_type() {
    assert_eq!(solo_points(EventType::MissionLive, 150_000, 0, 7), Ok(137));
    assert_eq!(solo_points(EventType::LiveTry, 260_000, 0, 7), Ok(140));
    assert_eq!(solo_points(EventType::Challenge, -5, 10_000, 0), Ok(140));
    assert_eq!(solo_points(EventType::Versus, 97_500, 50_000, 0), Ok(110));
    assert_eq!(
        solo_points(EventType::Medley, 1, 0, 0),
        Err(EventPtError::UnsupportedEventType { event_type: EventType::Medley })
    );
}

#[test]
fn cooperative_points_reject_single_formula_events() {
    assert_eq!(
        cooperative_points(EventType::Versus, 1, 2, 0, 0),
        Err(EventPtError::UnsupportedEventType { event_type: EventType::Versus })
    );
}

#[test]
fn challenge_points_round_up_per_twenty() {
    assert_eq!(challenge_cp_gain(0), 0);
    assert_eq!(challenge_cp_gain(20), 1);
    assert_eq!(challenge_cp_gain(21), 2);
    assert_eq!(festival_multiplayer_points(0, 0, true).unwrap(), 50 + 125 + 125);
    assert_eq!(
        festival_multiplayer_points(0, 9, true),
        Err(EventPtError::InvalidTeamRank { rank: 9 })
    );
    assert_eq!(medley_three_song_points(-3), 100);
}

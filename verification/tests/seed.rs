use bangdream_optimize::candidate::TeamCandidate;
use bangdream_optimize::raw_candidate::RawTeamCandidate;
use bangdream_optimize::seed::{
    best_seed_candidate_indices, greedy_seed_team, same_seed_team, seed_partition_score,
    seed_partition_uses_card, seed_replacement_keeps_team_characters, seed_team_candidate_from_raw,
    seed_teams_disjoint, SeedTeamCandidate,
};

fn team(raw_indices: [usize; 5], scores: [i32; 3]) -> SeedTeamCandidate {
    SeedTeamCandidate {
        raw_indices,
        candidate: TeamCandidate {
            mask: 0x1f,
            mask_words: vec![],
            team_card_ids: vec![],
            ordered_team_card_ids: None,
            captain_card_ids: vec![],
            scores: scores.to_vec(),
            stat: 0,
        },
    }
}

#[test]
fn seed_teams_overlap_and_equality() {
    assert!(seed_teams_disjoint([0, 1, 2, 3, 4], [5, 6, 7, 8, 9]));
    assert!(!seed_teams_disjoint([0, 1, 2, 3, 4], [5, 6, 7, 8, 4]));
    assert!(same_seed_team([0, 1, 2, 3, 4], [4, 3, 2, 1, 0]));
    assert!(!same_seed_team([0, 1, 2, 3, 4], [0, 1, 2, 3, 5]));
    assert!(!same_seed_team([0, 0, 1, 2, 3], [0, 1, 1, 2, 3]));
}

#[test]
fn partitions_report_their_cards_and_scores() {
    let teams = [
        team([0, 1, 2, 3, 4], [10, 0, 0]),
        team([5, 6, 7, 8, 9], [0, 20, 0]),
        team([10, 11, 12, 13, 14], [0, 0, 30]),
    ];
    assert_eq!(seed_partition_score(&teams), 60);
    assert!(seed_partition_uses_card(&teams, 12));
    assert!(!seed_partition_uses_card(&teams, 15));
}

#[test]
fn replacements_keep_characters_distinct() {
    let characters = [1, 2, 3, 4, 5, 1, 6];
    assert!(!seed_replacement_keeps_team_characters(&characters, [0, 1, 2, 3, 4], 1, 5));
    assert!(seed_replacement_keeps_team_characters(&characters, [0, 1, 2, 3, 4], 0, 5));
    assert!(seed_replacement_keeps_team_characters(&characters, [0, 1, 2, 3, 4], 2, 6));
}

#[test]
fn best_seed_choice_is_the_first_highest_disjoint_triple() {
    let songs = vec![
        vec![team([0, 1, 2, 3, 4], [10, 0, 0]), team([20, 21, 22, 23, 24], [10, 0, 0])],
        vec![team([0, 5, 6, 7, 8], [0, 100, 0]), team([5, 6, 7, 8, 9], [0, 20, 0])],
        vec![team([10, 11, 12, 13, 14], [0, 0, 30]), team([9, 15, 16, 17, 18], [0, 0, 40])],
    ];
    // [0, 0, _] overlaps on card 0; [1, 0, 1] scores 150; [_, 1, 1] overlaps on card 9.
    assert_eq!(best_seed_candidate_indices(&songs), Some([1, 0, 1]));
    let tied = vec![
        vec![team([0, 1, 2, 3, 4], [5, 0, 0]), team([20, 21, 22, 23, 24], [5, 0, 0])],
        vec![team([5, 6, 7, 8, 9], [0, 5, 0])],
        vec![team([10, 11, 12, 13, 14], [0, 0, 5])],
    ];
    assert_eq!(best_seed_candidate_indices(&tied), Some([0, 0, 0]));
    let blocked = vec![
        vec![team([0, 1, 2, 3, 4], [5, 0, 0])],
        vec![team([0, 6, 7, 8, 9], [0, 5, 0])],
        vec![team([10, 11, 12, 13, 14], [0, 0, 5])],
    ];
    assert_eq!(best_seed_candidate_indices(&blocked), None);
}

#[test]
fn greedy_seed_skips_banned_cards_and_repeated_characters() {
    let characters = [1, 1, 2, 3, 4, 5, 6];
    assert_eq!(greedy_seed_team(&characters, &[0, 1, 2, 3, 4, 5, 6], &[]), Some([0, 2, 3, 4, 5]));
    assert_eq!(greedy_seed_team(&characters, &[0, 1, 2, 3, 4, 5, 6], &[0, 3]), Some([1, 2, 4, 5, 6]));
    assert_eq!(greedy_seed_team(&characters, &[0, 1, 2, 3, 4], &[]), None);
}

#[test]
fn seed_candidates_carry_card_ids_and_the_full_mask() {
    let raw = RawTeamCandidate {
        raw_indices: [4, 3, 2, 1, 0],
        ordered_raw_indices: [[0, 1, 2, 3, 4], [4, 3, 2, 1, 0], [0, 0, 0, 0, 0]],
        captain_raw_indices: [0, 4, 0],
        scores: [7, 8, 9],
        stat: 15000,
    };
    let ids = vec![100, 101, 102, 103, 104];
    let candidate = seed_team_candidate_from_raw(raw, &ids, 2);
    assert_eq!(candidate.mask, 0b1_1111);
    assert!(candidate.mask_words.is_empty());
    assert_eq!(candidate.team_card_ids, vec![104, 103, 102, 101, 100]);
    assert_eq!(
        candidate.ordered_team_card_ids,
        Some(vec![vec![100, 101, 102, 103, 104], vec![104, 103, 102, 101, 100]])
    );
    assert_eq!(candidate.captain_card_ids, vec![100, 104]);
    assert_eq!(candidate.scores, vec![7, 8]);
    assert_eq!(candidate.stat, 15000);
}

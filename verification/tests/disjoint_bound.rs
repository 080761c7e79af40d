use bangdream_optimize::disjoint_bound::{
    compatible_flags, compatible_flags_parts, Candidate, RankedPrefix, SONG_COUNT, TEAM_SIZE,
};

fn disjoint(a: &Candidate, b: &Candidate) -> bool {
    a.cards.iter().all(|card| !b.cards.contains(card))
}

#[test]
fn shared_best_cards_no_longer_inflate_companion_bounds() {
    let candidates = [
        Candidate {
            cards: [0, 1, 2, 3, 4],
            scores: [100; 3],
        },
        Candidate {
            cards: [0, 5, 6, 7, 8],
            scores: [99; 3],
        },
        Candidate {
            cards: [9, 10, 11, 12, 13],
            scores: [10; 3],
        },
    ];
    assert_eq!(
        compatible_flags(&candidates, 210, 4096),
        [false, false, false]
    );
    // Equality is retained; the best pair may overlap the current team.
    assert_eq!(
        compatible_flags(&candidates, 120, 4096),
        [true, false, true]
    );
}

#[test]
fn no_companions_empty_prefix_and_padding_are_safe() {
    let candidates = [Candidate {
        cards: [0, 1, 2, 3, 4],
        scores: [100; 3],
    }];
    assert_eq!(compatible_flags(&candidates, 0, 4096), [false]);
    assert_eq!(compatible_flags(&candidates, 300, 0), [true]);
    assert!(compatible_flags(&[], 0, 4096).is_empty());
}

#[test]
fn skips_wholly_blocked_words_without_skipping_a_compatible_team() {
    let candidates = (0..140)
        .map(|index| Candidate {
            cards: [if index < 128 { 0 } else { 1 }, 2, 3, 4, 5],
            scores: [1000 - index; SONG_COUNT],
        })
        .collect::<Vec<_>>();
    for limit in [63, 64, 127, 128, 129, 140] {
        let ranked = RankedPrefix::new(&candidates, 0, limit, 10);
        let bound = ranked.compatible_upper_bound(&[0, 6, 7, 8, 9]).unwrap();
        assert!(bound >= 872);
        if limit >= 128 {
            assert_eq!(bound, 872);
        }
        if limit == 140 {
            assert_eq!(ranked.first_open_word[0], 2);
            assert_eq!(ranked.compatible_upper_bound(&[0, 1, 7, 8, 9]), None);
        }
    }
}

#[test]
fn individual_bounds_and_their_intersection_preserve_feasible_triples() {
    let mut seed = 91547u64;
    let mut random = || {
        seed ^= seed << 13;
        seed ^= seed >> 7;
        seed ^= seed << 17;
        seed
    };
    for _ in 0..48 {
        let candidates: Vec<_> = (0..18)
            .map(|_| Candidate {
                cards: std::array::from_fn(|_| random() as usize % 28),
                scores: std::array::from_fn(|_| (random() % 120) as i64 - 10),
            })
            .collect();
        let floor = (random() % 321) as i64;
        for limit in [0, 7, 18] {
            let team = compatible_flags_parts::<true, false>(&candidates, floor, limit);
            let pair = compatible_flags_parts::<false, true>(&candidates, floor, limit);
            let both = compatible_flags(&candidates, floor, limit);
            // Each candidate may qualify on a different song under the two
            // bounds, so combined must be a subset of their intersection.
            for i in 0..candidates.len() {
                assert!(!both[i] || (team[i] && pair[i]));
            }
            for a in 0..candidates.len() {
                for b in 0..candidates.len() {
                    for c in 0..candidates.len() {
                        if disjoint(&candidates[a], &candidates[b])
                            && disjoint(&candidates[a], &candidates[c])
                            && disjoint(&candidates[b], &candidates[c])
                            && candidates[a].scores[0]
                                + candidates[b].scores[1]
                                + candidates[c].scores[2]
                                >= floor
                        {
                            for active in [&team, &pair, &both] {
                                assert!(active[a] && active[b] && active[c]);
                            }
                        }
                    }
                }
            }
        }
    }
}

#[test]
fn bounded_queries_and_pruning_preserve_every_feasible_triple() {
    let mut seed = 123456789u64;
    let mut random = || {
        seed ^= seed << 13;
        seed ^= seed >> 7;
        seed ^= seed << 17;
        seed
    };
    for _ in 0..64 {
        let candidates = (0..70)
            .map(|_| {
                let mut cards = [usize::MAX; TEAM_SIZE];
                for slot in 0..TEAM_SIZE {
                    loop {
                        let card = random() as usize % 35;
                        if !cards.contains(&card) {
                            cards[slot] = card;
                            break;
                        }
                    }
                }
                Candidate {
                    cards,
                    scores: std::array::from_fn(|_| (random() % 1000) as i64),
                }
            })
            .collect::<Vec<_>>();
        let floor = (random() % 3001) as i64;
        for limit in [0, 1, 7, 63, 64, 65, 70] {
            let active = compatible_flags(&candidates, floor, limit);
            for song in 0..SONG_COUNT {
                let ranked = RankedPrefix::new(&candidates, song, limit, 35);
                for candidate in &candidates {
                    let actual = candidates
                        .iter()
                        .filter(|other| disjoint(candidate, other))
                        .map(|other| other.scores[song])
                        .max();
                    let bound = ranked.compatible_upper_bound(&candidate.cards);
                    assert!(bound >= actual, "limit={limit}");
                    if limit >= candidates.len() {
                        assert_eq!(bound, actual);
                    }
                }
            }
            for a in 0..candidates.len() {
                for b in 0..candidates.len() {
                    if !disjoint(&candidates[a], &candidates[b]) {
                        continue;
                    }
                    for c in 0..candidates.len() {
                        if candidates[a].scores[0]
                            + candidates[b].scores[1]
                            + candidates[c].scores[2]
                            >= floor
                            && disjoint(&candidates[a], &candidates[c])
                            && disjoint(&candidates[b], &candidates[c])
                        {
                            assert!(active[a] && active[b] && active[c]);
                        }
                    }
                }
            }
        }
    }
}

#[test]
fn ranking_breaks_ties_by_lower_index() {
    let candidates = [
        Candidate { cards: [0, 1, 2, 3, 4], scores: [50, 0, 0] },
        Candidate { cards: [5, 6, 7, 8, 9], scores: [50, 0, 0] },
        Candidate { cards: [10, 11, 12, 13, 14], scores: [70, 0, 0] },
    ];
    let ranked = RankedPrefix::new(&candidates, 0, 1, 24);
    // Only the best team is in the prefix; it shares card 10, so the tail bound answers.
    assert_eq!(ranked.compatible_upper_bound(&[10, 20, 21, 22, 23]), Some(50));
    assert_eq!(ranked.compatible_upper_bound(&[0, 20, 21, 22, 23]), Some(70));
}

#[test]
fn truncated_combined_flags_imply_each_single_check() {
    let mut candidates = Vec::new();
    for i in 0..9usize {
        let base = (i % 4) * 3;
        candidates.push(Candidate {
            cards: [base, base + 1, base + 2, 20 + i, 40 + i],
            scores: [(90 - 7 * i) as i64, (40 + 11 * i) as i64 % 97, (15 * i) as i64 % 61],
        });
    }
    for limit in [0usize, 1, 2, 3, 5, 9, 64] {
        for floor in [60i64, 120, 180, 240] {
            let both = compatible_flags(&candidates, floor, limit);
            let team = compatible_flags_parts::<true, false>(&candidates, floor, limit);
            let pair = compatible_flags_parts::<false, true>(&candidates, floor, limit);
            for i in 0..candidates.len() {
                if both[i] {
                    assert!(team[i] && pair[i], "limit {limit} floor {floor} candidate {i}");
                }
            }
        }
    }
}

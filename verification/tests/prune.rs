use bangdream_optimize::capacity::{candidate_capacity, character_groups_for_raw_indices};
use bangdream_optimize::flat_groups::{attribute_code, character_groups};
use bangdream_optimize::pools::{pool_for_signature, sort_signature_pools, SignatureCandidatePool};
use bangdream_optimize::model::Attribute;
use bangdream_optimize::prune_signature::{
    attribute_label, push_seed_signature, seed_signatures, signature_can_complete_with_card,
    selected_resolved_team_signature, signature_label, unified_attribute, unified_band_id, unified_keys,
    MedleyPruneSignature, SignatureCard,
};

fn card(character_id: u32, band_id: u32, attribute: Attribute) -> SignatureCard {
    SignatureCard { character_id, band_id, attribute }
}

fn groups_of(sizes: &[usize]) -> Vec<Vec<usize>> {
    let mut next = 0;
    sizes
        .iter()
        .map(|&size| {
            let group: Vec<usize> = (next..next + size).collect();
            next += size;
            group
        })
        .collect()
}

#[test]
fn capacity_counts_one_card_from_each_of_five_characters() {
    assert_eq!(candidate_capacity(&groups_of(&[1, 1, 1, 1, 1]), usize::MAX), 1);
    assert_eq!(candidate_capacity(&groups_of(&[1, 1, 1, 1, 2]), usize::MAX), 2);
    assert_eq!(candidate_capacity(&groups_of(&[2, 1, 1, 1, 2, 3]), usize::MAX), 52);
    assert_eq!(candidate_capacity(&groups_of(&[1, 1, 1, 1, 1, 1]), usize::MAX), 6);
}

#[test]
fn capacity_needs_five_characters() {
    assert_eq!(candidate_capacity(&groups_of(&[3, 3, 3, 3]), usize::MAX), 0);
    assert_eq!(candidate_capacity(&groups_of(&[1, 1, 1, 1, 0]), usize::MAX), 0);
}

#[test]
fn capacity_stops_at_the_limit() {
    assert_eq!(candidate_capacity(&groups_of(&[2, 1, 1, 1, 2, 3]), 10), 10);
    assert_eq!(candidate_capacity(&groups_of(&[2, 1, 1, 1, 2, 3]), 52), 52);
    assert_eq!(candidate_capacity(&groups_of(&[2, 1, 1, 1, 2, 3]), 0), 0);
}

#[test]
fn groups_cards_by_character_in_character_order() {
    let cards = vec![
        card(7, 1, Attribute::Cool),
        card(3, 1, Attribute::Cool),
        card(7, 2, Attribute::Pure),
        card(5, 1, Attribute::Happy),
        card(3, 2, Attribute::Cool),
    ];
    let groups = character_groups_for_raw_indices(&cards, &[4, 0, 1, 2, 3]);
    assert_eq!(groups, vec![vec![4, 1], vec![3], vec![0, 2]]);
    assert_eq!(character_groups_for_raw_indices(&cards, &[]), Vec::<Vec<usize>>::new());
}

#[test]
fn signatures_allow_cards_of_their_band_and_attribute() {
    let c = card(1, 4, Attribute::Cool);
    assert!(MedleyPruneSignature::Mixed.allows(&c));
    assert!(MedleyPruneSignature::UnifiedBand(4).allows(&c));
    assert!(!MedleyPruneSignature::UnifiedBand(5).allows(&c));
    assert!(MedleyPruneSignature::UnifiedAttribute(Attribute::Cool).allows(&c));
    assert!(!MedleyPruneSignature::UnifiedAttribute(Attribute::Pure).allows(&c));
    assert!(MedleyPruneSignature::UnifiedBandAttribute(4, Attribute::Cool).allows(&c));
    assert!(!MedleyPruneSignature::UnifiedBandAttribute(4, Attribute::Happy).allows(&c));
    assert_eq!(MedleyPruneSignature::UnifiedBandAttribute(4, Attribute::Happy).team_band_id(), Some(4));
    assert_eq!(MedleyPruneSignature::UnifiedAttribute(Attribute::Happy).team_band_id(), None);
    assert_eq!(
        MedleyPruneSignature::UnifiedBandAttribute(4, Attribute::Happy).team_attribute(),
        Some(Attribute::Happy)
    );
    assert_eq!(MedleyPruneSignature::Mixed.team_attribute(), None);
}

#[test]
fn seed_signatures_list_each_signature_once_after_mixed() {
    let cards = vec![
        card(1, 1, Attribute::Cool),
        card(2, 1, Attribute::Cool),
        card(3, 2, Attribute::Cool),
    ];
    assert_eq!(
        seed_signatures(&cards),
        vec![
            MedleyPruneSignature::Mixed,
            MedleyPruneSignature::UnifiedBand(1),
            MedleyPruneSignature::UnifiedAttribute(Attribute::Cool),
            MedleyPruneSignature::UnifiedBandAttribute(1, Attribute::Cool),
            MedleyPruneSignature::UnifiedBand(2),
            MedleyPruneSignature::UnifiedBandAttribute(2, Attribute::Cool),
        ]
    );
    assert_eq!(seed_signatures(&[]), vec![MedleyPruneSignature::Mixed]);

    let mut signatures = vec![MedleyPruneSignature::Mixed];
    push_seed_signature(&mut signatures, MedleyPruneSignature::Mixed);
    assert_eq!(signatures, vec![MedleyPruneSignature::Mixed]);
}

#[test]
fn signature_labels_name_band_and_attribute() {
    assert_eq!(signature_label(MedleyPruneSignature::Mixed), "mixed");
    assert_eq!(signature_label(MedleyPruneSignature::UnifiedBand(21)), "unifiedBand(21)");
    assert_eq!(
        signature_label(MedleyPruneSignature::UnifiedAttribute(Attribute::Powerful)),
        "unifiedAttribute(powerful)"
    );
    assert_eq!(
        signature_label(MedleyPruneSignature::UnifiedBandAttribute(3, Attribute::All)),
        "unifiedBandAttribute(3,all)"
    );
    assert_eq!(attribute_label(Attribute::Happy), "happy");
}

#[test]
fn team_completes_only_with_five_allowed_characters() {
    let mut cards = vec![
        card(1, 1, Attribute::Cool),
        card(1, 1, Attribute::Cool),
        card(2, 1, Attribute::Cool),
        card(3, 1, Attribute::Cool),
        card(4, 1, Attribute::Cool),
    ];
    assert!(!signature_can_complete_with_card(&cards, 0, MedleyPruneSignature::Mixed));
    cards.push(card(5, 2, Attribute::Cool));
    assert!(signature_can_complete_with_card(&cards, 0, MedleyPruneSignature::Mixed));
    assert!(signature_can_complete_with_card(
        &cards,
        5,
        MedleyPruneSignature::UnifiedAttribute(Attribute::Cool)
    ));
    assert!(!signature_can_complete_with_card(&cards, 0, MedleyPruneSignature::UnifiedBand(1)));
    assert!(!signature_can_complete_with_card(&cards, 5, MedleyPruneSignature::UnifiedBand(1)));
    assert!(!signature_can_complete_with_card(&cards, 6, MedleyPruneSignature::Mixed));
}

#[test]
fn flat_character_groups_lay_out_each_character_in_turn() {
    let cards = vec![
        card(7, 1, Attribute::Cool),
        card(3, 2, Attribute::Powerful),
        card(7, 3, Attribute::Pure),
        card(5, 4, Attribute::Happy),
    ];
    let groups = character_groups(&cards);
    assert_eq!(groups.card_indices, vec![1, 3, 0, 2]);
    assert_eq!(groups.group_indices, vec![0, 1, 2, 2]);
    assert_eq!(groups.group_offsets, vec![0, 1, 2, 4]);
    assert_eq!(groups.card_band_ids, vec![1, 2, 3, 4]);
    assert_eq!(groups.card_band_id_codes, vec![1, 2, 3, 4]);
    assert_eq!(groups.card_attribute_codes, vec![0, 3, 2, 1]);
    assert_eq!(groups.len(), 3);
    assert_eq!(groups.offset(2), 2);
    assert_eq!(groups.offset(9), 4);
    assert_eq!(groups.group_flat_range(2), 2..4);
    assert_eq!(attribute_code(Attribute::All), 4);
    assert_eq!(character_groups(&[]).len(), 0);
}

#[test]
fn pools_need_five_cards_of_five_characters() {
    let cards: Vec<SignatureCard> = (1..=6).map(|c| card(c, 1, Attribute::Cool)).collect();
    let (pool, estimated) = pool_for_signature(&cards, MedleyPruneSignature::Mixed, vec![0, 1, 2, 3, 4, 5]);
    assert_eq!(estimated, 6);
    let pool = pool.unwrap();
    assert_eq!(pool.active_card_indices, vec![0, 1, 2, 3, 4, 5]);
    assert_eq!(pool.estimated_candidates, 6);
    assert_eq!(pool.signature, MedleyPruneSignature::Mixed);

    let same: Vec<SignatureCard> = (1..=6).map(|_| card(1, 1, Attribute::Cool)).collect();
    let (pool, estimated) = pool_for_signature(&same, MedleyPruneSignature::Mixed, vec![0, 1, 2, 3, 4, 5]);
    assert!(pool.is_none());
    assert_eq!(estimated, 0);

    let (pool, _) = pool_for_signature(&cards, MedleyPruneSignature::Mixed, vec![0, 1, 2, 3]);
    assert!(pool.is_none());
}

#[test]
fn pools_are_ordered_by_estimate_then_size_keeping_ties() {
    let pool = |band: u32, active: usize, estimated: usize| SignatureCandidatePool {
        signature: MedleyPruneSignature::UnifiedBand(band),
        active_card_indices: (0..active).collect(),
        estimated_candidates: estimated,
    };
    let sorted = sort_signature_pools(vec![
        pool(1, 7, 30),
        pool(2, 6, 10),
        pool(3, 5, 30),
        pool(4, 6, 10),
        pool(5, 9, 2),
    ]);
    let bands: Vec<u32> = sorted
        .iter()
        .map(|p| match p.signature {
            MedleyPruneSignature::UnifiedBand(b) => b,
            _ => 0,
        })
        .collect();
    assert_eq!(bands, vec![5, 2, 4, 3, 1]);
}

#[test]
fn unified_keys_need_five_distinct_characters() {
    let mut cards = vec![
        card(1, 2, Attribute::Cool),
        card(2, 2, Attribute::Cool),
        card(3, 2, Attribute::Cool),
        card(4, 2, Attribute::Cool),
        card(4, 2, Attribute::Cool),
        card(5, 1, Attribute::Cool),
        card(6, 2, Attribute::Happy),
    ];
    let (bands, attributes, both) = unified_keys(&cards);
    assert_eq!(bands, vec![2]);
    assert_eq!(attributes, vec![Attribute::Cool]);
    assert_eq!(both, Vec::<(u32, Attribute)>::new());

    cards.push(card(7, 2, Attribute::Cool));
    let (_, _, both) = unified_keys(&cards);
    assert_eq!(both, vec![(2, Attribute::Cool)]);
}

#[test]
fn team_signature_follows_what_the_five_cards_share() {
    let cards = vec![
        card(1, 3, Attribute::Cool),
        card(2, 3, Attribute::Cool),
        card(3, 3, Attribute::Cool),
        card(4, 3, Attribute::Cool),
        card(5, 3, Attribute::Cool),
        card(6, 4, Attribute::Cool),
        card(7, 3, Attribute::Pure),
    ];
    assert_eq!(
        selected_resolved_team_signature(&cards, &[0, 1, 2, 3, 4]),
        MedleyPruneSignature::UnifiedBandAttribute(3, Attribute::Cool)
    );
    assert_eq!(selected_resolved_team_signature(&cards, &[0, 1, 2, 3, 5]), MedleyPruneSignature::UnifiedAttribute(Attribute::Cool));
    assert_eq!(selected_resolved_team_signature(&cards, &[6, 1, 2, 3, 4]), MedleyPruneSignature::UnifiedBand(3));
    assert_eq!(selected_resolved_team_signature(&cards, &[6, 1, 2, 3, 5]), MedleyPruneSignature::Mixed);
    assert_eq!(unified_band_id(&cards, &[0, 1, 2, 3, 6]), Some(3));
    assert_eq!(unified_attribute(&cards, &[0, 1, 2, 3, 6]), None);
}

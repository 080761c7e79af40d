use bangdream_optimize::protobuf::{field_bytes, parse_fields, write_varint, ProtoValue};
use bangdream_optimize::user_rows::{
    flatten_message, import_read_episode_ids, import_user_situations, infer_episodes_from_append_parameter,
    import_area_items, insert_scalar, map_rows, AreaItemConfig, PlayerCardConfig, Row, RowValue,
};

fn push_varint_field(out: &mut Vec<u8>, field: u64, value: u64) {
    write_varint(out, field << 3);
    write_varint(out, value);
}

fn push_bytes_field(out: &mut Vec<u8>, field: u64, value: &[u8]) {
    field_bytes(out, field, value);
}

fn map_payload(key: u64, value: &[u8]) -> Vec<u8> {
    let mut entry = Vec::new();
    push_varint_field(&mut entry, 1, key);
    push_bytes_field(&mut entry, 2, value);
    let mut payload = Vec::new();
    push_bytes_field(&mut payload, 1, &entry);
    payload
}

fn user_situation_map_payload(card_id: u64, append: u64) -> Vec<u8> {
    let mut append_parameter = Vec::new();
    push_varint_field(&mut append_parameter, 1, 1008159056);
    push_varint_field(&mut append_parameter, 2, card_id);
    push_varint_field(&mut append_parameter, 3, append);
    push_varint_field(&mut append_parameter, 4, append);
    push_varint_field(&mut append_parameter, 5, append);

    let mut situation = Vec::new();
    push_varint_field(&mut situation, 1, 1008159056);
    push_varint_field(&mut situation, 2, card_id);
    push_varint_field(&mut situation, 3, 1);
    push_bytes_field(&mut situation, 7, b"not_doing");
    push_bytes_field(&mut situation, 9, b"normal");
    push_varint_field(&mut situation, 11, 1);
    push_bytes_field(&mut situation, 12, &append_parameter);
    push_varint_field(&mut situation, 13, 0);

    map_payload(card_id, &situation)
}

fn user_episode_map_payload(rows: &[(u64, &str)]) -> Vec<u8> {
    let mut payload = Vec::new();
    for (episode_id, status) in rows {
        let mut episode = Vec::new();
        push_varint_field(&mut episode, 1, 1008159056);
        push_varint_field(&mut episode, 2, *episode_id);
        push_bytes_field(&mut episode, 3, status.as_bytes());

        let mut entry = Vec::new();
        push_varint_field(&mut entry, 1, *episode_id);
        push_bytes_field(&mut entry, 2, &episode);
        push_bytes_field(&mut payload, 1, &entry);
    }
    payload
}

fn card(cards: &[(String, PlayerCardConfig)], key: &str) -> PlayerCardConfig {
    cards.iter().find(|(k, _)| k == key).map(|(_, c)| *c).expect("card present")
}

fn no_episodes(_: u64) -> Option<[u64; 2]> {
    None
}

fn card_three_episodes(card_id: u64) -> Option<[u64; 2]> {
    if card_id == 3 { Some([5, 6]) } else { None }
}

// The card list of a suite answer: the read episodes of field 16 are
// collected first, then the situations of field 3 are imported.
fn suite_cards(payload: &[u8]) -> Vec<(String, PlayerCardConfig)> {
    let fields = parse_fields(payload).unwrap();
    let read = fields
        .iter()
        .find(|field| field.field == 16)
        .map(|field| import_read_episode_ids(field.bytes_value().unwrap()).unwrap());
    let mut cards = Vec::new();
    for field in &fields {
        if field.field == 3 {
            import_user_situations(field.bytes_value().unwrap(), &mut cards, read.as_ref(), &card_three_episodes)
                .unwrap();
        }
    }
    cards
}

#[test]
fn imports_episode_state_from_real_user_episode_ids() {
    let situations = user_situation_map_payload(3, 200);
    let episodes = user_episode_map_payload(&[(5, "already_read")]);
    let mut payload = Vec::new();
    push_bytes_field(&mut payload, 3, &situations);
    push_bytes_field(&mut payload, 16, &episodes);

    let cards = suite_cards(&payload);

    assert_eq!(card(&cards, "3").episodes, [true, false]);
}

#[test]
fn append_parameter_fallback_does_not_mark_unread_episodes_as_read() {
    let payload = user_situation_map_payload(3, 0);
    let mut cards = Vec::new();

    import_user_situations(&payload, &mut cards, None, &no_episodes).unwrap();

    assert_eq!(card(&cards, "3").episodes, [false, false]);
}

#[test]
fn imports_second_episode_without_first_episode() {
    let situations = user_situation_map_payload(3, 500);
    let episodes = user_episode_map_payload(&[(6, "already_read")]);
    let mut payload = Vec::new();
    push_bytes_field(&mut payload, 3, &situations);
    push_bytes_field(&mut payload, 16, &episodes);

    let cards = suite_cards(&payload);
    assert_eq!(card(&cards, "3").episodes, [false, true]);

    let mut fallback_cards = Vec::new();
    import_user_situations(&situations, &mut fallback_cards, None, &no_episodes).unwrap();
    assert_eq!(card(&fallback_cards, "3").episodes, [false, true]);
}

#[test]
fn reads_only_already_read_user_episode_rows() {
    let payload = user_episode_map_payload(&[(5, "already_read"), (6, "not_read")]);

    assert_eq!(import_read_episode_ids(&payload).unwrap(), vec![5]);
}

#[test]
fn read_episode_ids_are_sorted_and_distinct() {
    let payload = user_episode_map_payload(&[(9, "already_read"), (5, "already_read"), (9, "already_read")]);
    assert_eq!(import_read_episode_ids(&payload).unwrap(), vec![5, 9]);
}

#[test]
fn situation_rows_fill_card_fields() {
    let payload = user_situation_map_payload(3, 0);
    let mut cards = vec![("3".to_owned(), PlayerCardConfig {
        level: 99,
        training: true,
        illust_training_status: true,
        episodes: [true, true],
        limit_break_rank: 4,
        skill_level: 5,
    })];
    import_user_situations(&payload, &mut cards, None, &no_episodes).unwrap();
    assert_eq!(cards.len(), 1);
    let c = card(&cards, "3");
    assert_eq!(c.level, 1);
    assert!(!c.training);
    assert!(!c.illust_training_status);
    assert_eq!(c.limit_break_rank, 0);
    assert_eq!(c.skill_level, 1);
}

#[test]
fn rows_flatten_nested_messages_and_number_repeated_names() {
    let payload = user_situation_map_payload(7, 250);
    let rows = map_rows(&payload).unwrap();
    assert_eq!(rows.len(), 1);
    let row = &rows[0];
    assert_eq!(row.get_u64("f1"), Some(7));
    assert_eq!(row.get_u64("f2_2"), Some(7));
    assert_eq!(row.get_str("f2_7"), Some("not_doing"));
    assert!(row.get_bytes("f2_12").is_some());
    // 250 is only a first episode of a rarity 4 or 5 card
    assert_eq!(infer_episodes_from_append_parameter(row), Some([true, false]));

    let mut row = Row::new();
    insert_scalar(&mut row, "k".to_owned(), &ProtoValue::Varint(1));
    insert_scalar(&mut row, "k".to_owned(), &ProtoValue::Fixed32(2));
    insert_scalar(&mut row, "k".to_owned(), &ProtoValue::Bytes(vec![3]));
    assert_eq!(row.get_u64("k"), Some(1));
    assert_eq!(row.get_u64("k_2"), Some(2));
    assert_eq!(row.get_bytes("k_3"), Some(&[3u8][..]));
    assert!(matches!(row.values[2].1, RowValue::Bytes(_)));

    let mut nested = Vec::new();
    push_bytes_field(&mut nested, 4, b"text");
    push_bytes_field(&mut nested, 5, &[0, 1]);
    let mut row = Row::new();
    flatten_message("p_", &nested, &mut row).unwrap();
    assert_eq!(row.get_str("p_4"), Some("text"));
    assert_eq!(row.get_bytes("p_5"), Some(&[0u8, 1][..]));
    assert!(flatten_message("p_", &[0x80], &mut row).is_err());
}

#[test]
fn append_parameter_picks_the_only_fitting_episode_state() {
    // An untrained card without limit breaks: 200 is a rarity 1 card's second
    // episode or a rarity 3 card's first, so no state is chosen; 500 is only a
    // rarity 3 card's second episode; 0 means nothing read.
    let rows = map_rows(&user_situation_map_payload(3, 200)).unwrap();
    assert_eq!(infer_episodes_from_append_parameter(&rows[0]), None);
    let rows = map_rows(&user_situation_map_payload(3, 500)).unwrap();
    assert_eq!(infer_episodes_from_append_parameter(&rows[0]), Some([false, true]));
    let rows = map_rows(&user_situation_map_payload(3, 0)).unwrap();
    assert_eq!(infer_episodes_from_append_parameter(&rows[0]), Some([false, false]));
}

fn area_item_payload(rows: &[(u64, u64, Option<u64>)]) -> Vec<u8> {
    let mut payload = Vec::new();
    for (item_id, category, level) in rows {
        let mut item = Vec::new();
        push_varint_field(&mut item, 1, 1008159056);
        push_varint_field(&mut item, 3, *category);
        if let Some(level) = level {
            push_varint_field(&mut item, 4, *level);
        }
        let mut entry = Vec::new();
        push_varint_field(&mut entry, 1, *item_id);
        push_bytes_field(&mut entry, 2, &item);
        push_bytes_field(&mut payload, 1, &entry);
    }
    payload
}

#[test]
fn imports_area_item_levels_by_category() {
    let mut items = vec![("9".to_owned(), AreaItemConfig { level: 7 }), ("12".to_owned(), AreaItemConfig { level: 1 })];
    let payload = area_item_payload(&[(1, 12, Some(3)), (2, 40, Some(300)), (3, 12, Some(5)), (4, 41, None)]);

    import_area_items(&payload, &mut items).unwrap();

    let level = |key: &str| items.iter().find(|(k, _)| k == key).map(|(_, c)| c.level);
    assert_eq!(level("9"), Some(7));
    assert_eq!(level("12"), Some(5));
    assert_eq!(level("40"), Some(0));
    assert_eq!(level("41"), Some(0));
    assert_eq!(items.len(), 4);
}

#[test]
fn area_items_stay_unchanged_on_a_broken_payload() {
    let mut items = vec![("9".to_owned(), AreaItemConfig { level: 7 })];
    assert!(import_area_items(&[0x0a, 0x05, 0x08], &mut items).is_err());
    assert_eq!(items, vec![("9".to_owned(), AreaItemConfig { level: 7 })]);
}

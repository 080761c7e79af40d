use bangdream_optimize::protobuf::{field_bytes, write_varint, ImportError};
use bangdream_optimize::suite_import::suite_user_to_player_config;

fn push_varint_field(out: &mut Vec<u8>, field: u64, value: u64) {
    write_varint(out, field << 3);
    write_varint(out, value);
}

fn situation_payload(card_id: u64) -> Vec<u8> {
    let mut situation = Vec::new();
    push_varint_field(&mut situation, 1, 1008159056);
    push_varint_field(&mut situation, 2, card_id);
    push_varint_field(&mut situation, 3, 40);
    field_bytes(&mut situation, 7, b"done");
    push_varint_field(&mut situation, 11, 3);
    let mut entry = Vec::new();
    push_varint_field(&mut entry, 1, card_id);
    field_bytes(&mut entry, 2, &situation);
    let mut payload = Vec::new();
    field_bytes(&mut payload, 1, &entry);
    payload
}

fn episode_payload(episode_id: u64) -> Vec<u8> {
    let mut episode = Vec::new();
    push_varint_field(&mut episode, 1, 1008159056);
    push_varint_field(&mut episode, 2, episode_id);
    field_bytes(&mut episode, 3, b"already_read");
    let mut entry = Vec::new();
    push_varint_field(&mut entry, 1, episode_id);
    field_bytes(&mut entry, 2, &episode);
    let mut payload = Vec::new();
    field_bytes(&mut payload, 1, &entry);
    payload
}

fn area_payload(category: u64, level: u64) -> Vec<u8> {
    let mut item = Vec::new();
    push_varint_field(&mut item, 1, 1008159056);
    push_varint_field(&mut item, 3, category);
    push_varint_field(&mut item, 4, level);
    let mut entry = Vec::new();
    push_varint_field(&mut entry, 1, 1);
    field_bytes(&mut entry, 2, &item);
    let mut payload = Vec::new();
    field_bytes(&mut payload, 1, &entry);
    payload
}

fn episodes_of(card_id: u64) -> Option<[u64; 2]> {
    if card_id == 3 { Some([5, 6]) } else { None }
}

fn length(bytes: &[u8]) -> Result<usize, ImportError> {
    Ok(bytes.len())
}

fn copy(bytes: &[u8]) -> Result<Vec<u8>, ImportError> {
    Ok(bytes.to_vec())
}

#[test]
fn suite_sections_fill_the_player_configuration() {
    let mut suite = Vec::new();
    field_bytes(&mut suite, 3, &situation_payload(3));
    push_varint_field(&mut suite, 7, 99);
    field_bytes(&mut suite, 22, &area_payload(12, 4));
    field_bytes(&mut suite, 401, b"pot");
    field_bytes(&mut suite, 456, b"task");
    field_bytes(&mut suite, 16, &episode_payload(5));
    let out = suite_user_to_player_config(u64::MAX, &suite, &episodes_of, length, copy).unwrap();
    assert_eq!(out.player_id, i64::MAX);
    assert_eq!(out.cards.len(), 1);
    assert_eq!(out.cards[0].0, "3");
    assert_eq!(out.cards[0].1.level, 40);
    assert!(out.cards[0].1.training);
    assert_eq!(out.cards[0].1.episodes, [true, false]);
    assert_eq!(out.area_items.len(), 1);
    assert_eq!(out.area_items[0].0, "12");
    assert_eq!(out.area_items[0].1.level, 4);
    assert_eq!(out.potentials, vec![3]);
    assert_eq!(out.task_bonuses, vec![b"task".to_vec()]);
}

#[test]
fn suite_sections_stop_at_the_first_error_in_order() {
    let mut suite = Vec::new();
    field_bytes(&mut suite, 401, b"pot");
    field_bytes(&mut suite, 3, &[0xff]);
    let failing = |_: &[u8]| -> Result<usize, ImportError> { Err(ImportError::Protobuf("potential".to_owned())) };
    let r = suite_user_to_player_config(42, &suite, &episodes_of, failing, copy);
    assert!(matches!(r, Err(ImportError::Protobuf(m)) if m == "potential"));

    let mut numeric = Vec::new();
    push_varint_field(&mut numeric, 22, 1);
    let r = suite_user_to_player_config(42, &numeric, &episodes_of, length, copy);
    assert!(matches!(r, Err(ImportError::Protobuf(m)) if m == "field 22 is not length-delimited"));

    let mut broken_read = Vec::new();
    field_bytes(&mut broken_read, 22, &area_payload(12, 4));
    push_varint_field(&mut broken_read, 16, 1);
    let r = suite_user_to_player_config(42, &broken_read, &episodes_of, length, copy);
    assert!(matches!(r, Err(ImportError::Protobuf(m)) if m == "field 16 is not length-delimited"));

    let r = suite_user_to_player_config(42, &[0x08], &episodes_of, length, copy);
    assert!(matches!(r, Err(ImportError::Protobuf(_))));
}

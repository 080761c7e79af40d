use bangdream_optimize::event_songs::{parse_event_songs, EventSongsErrorKind};
use bangdream_optimize::model::SongSelection;

#[test]
fn reads_song_and_difficulty_pairs() {
    let songs = parse_event_songs(" 1:3, 25:4 ,,+7:0 ").unwrap().unwrap();
    assert_eq!(
        songs,
        vec![
            SongSelection { song_id: 1, difficulty: 3 },
            SongSelection { song_id: 25, difficulty: 4 },
            SongSelection { song_id: 7, difficulty: 0 },
        ]
    );
}

#[test]
fn blank_list_gives_no_songs() {
    assert_eq!(parse_event_songs("   ").unwrap(), None);
    assert_eq!(parse_event_songs("").unwrap(), None);
    assert_eq!(parse_event_songs(" , ").unwrap(), Some(vec![]));
}

#[test]
fn reports_the_first_bad_item() {
    let error = parse_event_songs("1:3,12,x:1").unwrap_err();
    assert_eq!(error.kind, EventSongsErrorKind::MissingColon);
    assert_eq!(error.item, "12");

    let error = parse_event_songs("1:3,x:1").unwrap_err();
    assert_eq!(error.kind, EventSongsErrorKind::InvalidSongId);
    assert_eq!(error.item, "x:1");

    let error = parse_event_songs("1 :3").unwrap_err();
    assert_eq!(error.kind, EventSongsErrorKind::InvalidSongId);

    let error = parse_event_songs("1:256").unwrap_err();
    assert_eq!(error.kind, EventSongsErrorKind::InvalidDifficulty);
    assert_eq!(error.item, "1:256");

    let error = parse_event_songs("1:2:3").unwrap_err();
    assert_eq!(error.kind, EventSongsErrorKind::InvalidDifficulty);
}

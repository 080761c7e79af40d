//! The event songs a smoke run can be told to use: a comma-separated list of
//! `songId:difficulty` items.
use vstd::prelude::*;
use crate::model::SongSelection;
use crate::sync_cli::{
    csv_items, find_char, first_index_of, lemma_first_index_of_bounds, split_csv, string_views,
    sub_chars,
};
use crate::text::{parse_unsigned, parse_unsigned_spec, str_chars, trim, trim_spec};

verus! {

/// What is wrong with an item of the list.
#[derive(Debug, Clone, Copy, PartialEq, Eq, Structural)]
pub enum EventSongsErrorKind {
    MissingColon,
    InvalidSongId,
    InvalidDifficulty,
}

/// An item of the list that could not be read, and why.
#[derive(Debug, Clone, PartialEq, Eq)]
pub struct EventSongsError {
    pub kind: EventSongsErrorKind,
    pub item: String,
}

/// One `songId:difficulty` item, split at its first colon.
pub open spec fn song_item_spec(item: Seq<char>) -> Result<
    SongSelection,
    (EventSongsErrorKind, Seq<char>),
> {
    match first_index_of(item, ':', 0) {
        None => Err((EventSongsErrorKind::MissingColon, item)),
        Some(i) => match parse_unsigned_spec(item.subrange(0, i), u32::MAX as nat) {
            None => Err((EventSongsErrorKind::InvalidSongId, item)),
            Some(song) => match parse_unsigned_spec(
                item.subrange(i + 1, item.len() as int),
                u8::MAX as nat,
            ) {
                None => Err((EventSongsErrorKind::InvalidDifficulty, item)),
                Some(d) => Ok(SongSelection { song_id: song as u32, difficulty: d as u8 }),
            },
        },
    }
}

/// The songs of the first `n` items, or the first item that fails.
pub open spec fn song_items_spec(items: Seq<Seq<char>>, n: int) -> Result<
    Seq<SongSelection>,
    (EventSongsErrorKind, Seq<char>),
>
    decreases n,
{
    if n <= 0 {
        Ok(Seq::empty())
    } else {
        match song_items_spec(items, n - 1) {
            Err(e) => Err(e),
            Ok(songs) => match song_item_spec(items[n - 1]) {
                Err(e) => Err(e),
                Ok(song) => Ok(songs.push(song)),
            },
        }
    }
}

/// The songs of a list; none where the list is blank.
pub open spec fn event_songs_spec(value: Seq<char>) -> Result<
    Option<Seq<SongSelection>>,
    (EventSongsErrorKind, Seq<char>),
> {
    if trim_spec(value).len() == 0 {
        Ok(None)
    } else {
        let items = csv_items(value);
        match song_items_spec(items, items.len() as int) {
            Err(e) => Err(e),
            Ok(songs) => Ok(Some(songs)),
        }
    }
}

fn song_item(item: &String) -> (r: Result<SongSelection, EventSongsError>)
    ensures
        match song_item_spec(item@) {
            Ok(song) => r == Ok::<SongSelection, EventSongsError>(song),
            Err((kind, text)) => r matches Err(e) && e.kind == kind && e.item@ == text,
        },
{
    let chars = str_chars(item.as_str());
    proof {
        lemma_first_index_of_bounds(chars@, ':', 0);
    }
    let colon = match find_char(&chars, ':') {
        Some(i) => i,
        None => {
            return Err(
                EventSongsError { kind: EventSongsErrorKind::MissingColon, item: item.clone() },
            );
        },
    };
    let n = chars.len();
    let song = match parse_unsigned(&sub_chars(&chars, 0, colon), 0xffff_ffff) {
        Some(v) => v as u32,
        None => {
            return Err(
                EventSongsError { kind: EventSongsErrorKind::InvalidSongId, item: item.clone() },
            );
        },
    };
    let difficulty = match parse_unsigned(&sub_chars(&chars, colon + 1, n), 0xff) {
        Some(v) => v as u8,
        None => {
            return Err(
                EventSongsError { kind: EventSongsErrorKind::InvalidDifficulty, item: item.clone() },
            );
        },
    };
    Ok(SongSelection { song_id: song, difficulty })
}

/// Reads a comma-separated list of `songId:difficulty` items: items are
/// trimmed and blank ones skipped; a blank list gives no songs at all.
pub fn parse_event_songs(value: &str) -> (r: Result<Option<Vec<SongSelection>>, EventSongsError>)
    ensures
        match event_songs_spec(value@) {
            Ok(None) => r matches Ok(None),
            Ok(Some(songs)) => r matches Ok(Some(v)) && v@ == songs,
            Err((kind, text)) => r matches Err(e) && e.kind == kind && e.item@ == text,
        },
{
    if trim(&str_chars(value)).len() == 0 {
        return Ok(None);
    }
    let items = split_csv(value);
    let ghost views = csv_items(value@);
    let mut songs: Vec<SongSelection> = Vec::new();
    let mut k: usize = 0;
    while k < items.len()
        invariant
            k <= items@.len(),
            trim_spec(value@).len() > 0,
            views == csv_items(value@),
            string_views(items@) == views,
            song_items_spec(views, k as int) == Ok::<
                Seq<SongSelection>,
                (EventSongsErrorKind, Seq<char>),
            >(songs@),
        decreases items.len() - k,
    {
        assert(views[k as int] == items@[k as int]@);
        match song_item(&items[k]) {
            Ok(song) => songs.push(song),
            Err(e) => {
                proof {
                    lemma_song_items_err_stays(views, k as int + 1, views.len() as int);
                }
                return Err(e);
            },
        }
        k += 1;
    }
    Ok(Some(songs))
}

proof fn lemma_song_items_err_stays(items: Seq<Seq<char>>, n: int, m: int)
    requires
        0 < n <= m,
        song_items_spec(items, n) is Err,
    ensures
        song_items_spec(items, m) == song_items_spec(items, n),
    decreases m - n,
{
    if n < m {
        lemma_song_items_err_stays(items, n, m - 1);
    }
}

} // verus!

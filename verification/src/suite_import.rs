//! Reading a player's suite into the parts of a player configuration: the
//! read episode ids first, then each section in the order the suite holds
//! them. The character sections carry rates that the caller converts; this
//! module hands each such section to the caller's conversion in order.
use vstd::prelude::*;
use crate::protobuf::{ImportError, ProtoField, ProtoValue, parse_fields, fields_from, field_is, first_field,
    find_field, not_length_delimited_message};
use crate::user_rows::{PlayerCardConfig, AreaItemConfig, RowView, map_rows_spec, import_read_episode_ids,
    import_user_situations, import_area_items, cards_view, card_keys_unique, cards_after_rows,
    area_items_after_rows, read_ids_in, sorted_ids, row_number};

verus! {

/// The card list, the area items, and the converted potential and task-bonus
/// sections after some sections of a suite.
pub type SuiteState<V, W> = (Seq<(Seq<char>, PlayerCardConfig)>, Seq<(Seq<char>, AreaItemConfig)>, Seq<V>, Seq<W>);

/// The parts of a player configuration that a suite gives.
pub struct SuiteUserImport<V, W> {
    /// The player id, `i64::MAX` where the id does not fit.
    pub player_id: i64,
    pub cards: Vec<(String, PlayerCardConfig)>,
    pub area_items: Vec<(String, AreaItemConfig)>,
    /// What the potential conversion made of each potential section, in order.
    pub potentials: Vec<V>,
    /// What the task-bonus conversion made of each task-bonus section, in order.
    pub task_bonuses: Vec<W>,
}

/// The bytes of a length-delimited field, or the error naming the field.
pub open spec fn section_bytes(f: ProtoField) -> Result<Seq<u8>, Seq<char>> {
    match f.value {
        ProtoValue::Bytes(b) => Ok(b@),
        _ => Err(not_length_delimited_message(f.field)),
    }
}

/// `err` is the protobuf error `m`.
pub open spec fn protobuf_error(err: Option<ImportError>, m: Seq<char>) -> bool {
    err matches Some(ImportError::Protobuf(e)) && e@ == m
}

/// What a converted section does: the conversion is given the section's
/// bytes; an answer is appended, an error stops.
pub open spec fn converted_section<C, X>(b: Seq<u8>, convert: C, before: Seq<X>, after: Seq<X>, err: Option<ImportError>) -> bool
    where C: Fn(&[u8]) -> Result<X, ImportError>,
{
    exists|x: &[u8], out: Result<X, ImportError>|
        #![trigger convert.ensures((x,), out)]
        x@ == b && convert.ensures((x,), out) && match out {
            Ok(v) => err is None && after == before.push(v),
            Err(e) => err == Some(e),
        }
}

/// What one field of the suite does to the state: the situations section (3)
/// updates the cards, the area item section (22) the area items, the
/// potential (401) and task-bonus (456) sections go to their conversions, and
/// other fields change nothing. `err` is the error it stops with, if any.
pub open spec fn section_step<F, P, T, V, W>(
    f: ProtoField,
    read: Option<Seq<u64>>,
    episode_ids_for_card: F,
    potential: P,
    task_bonus: T,
    s0: SuiteState<V, W>,
    s1: SuiteState<V, W>,
    err: Option<ImportError>,
) -> bool
    where
        F: Fn(u64) -> Option<[u64; 2]>,
        P: Fn(&[u8]) -> Result<V, ImportError>,
        T: Fn(&[u8]) -> Result<W, ImportError>,
{
    if f.field == 3 || f.field == 22 || f.field == 401 || f.field == 456 {
        match section_bytes(f) {
            Err(m) => protobuf_error(err, m),
            Ok(b) => if f.field == 3 {
                match map_rows_spec(b) {
                    Err(m) => protobuf_error(err, m),
                    Ok(rows) => err is None && s1.1 == s0.1 && s1.2 == s0.2 && s1.3 == s0.3
                        && card_keys_unique(s1.0)
                        && exists|looked_up: Seq<Option<[u64; 2]>>| {
                            &&& looked_up.len() == rows.len()
                            &&& forall|k: int| 0 <= k < rows.len() && read is Some
                                && row_number(rows[k], "f2_2"@) is Some
                                ==> episode_ids_for_card.ensures((row_number(rows[k], "f2_2"@).unwrap(),), #[trigger] looked_up[k])
                            &&& cards_after_rows(rows, read, looked_up, s0.0, s1.0, rows.len() as int)
                        },
                }
            } else if f.field == 22 {
                match map_rows_spec(b) {
                    Err(m) => protobuf_error(err, m),
                    Ok(rows) => err is None && s1.0 == s0.0 && s1.2 == s0.2 && s1.3 == s0.3
                        && card_keys_unique(s1.1)
                        && area_items_after_rows(rows, s0.1, s1.1, rows.len() as int),
                }
            } else if f.field == 401 {
                s1.0 == s0.0 && s1.1 == s0.1 && s1.3 == s0.3 && converted_section(b, potential, s0.2, s1.2, err)
            } else {
                s1.0 == s0.0 && s1.1 == s0.1 && s1.2 == s0.2 && converted_section(b, task_bonus, s0.3, s1.3, err)
            },
        }
    } else {
        err is None && s1 == s0
    }
}

/// The first `k` fields went through without error, `states[i]` being the
/// state before field `i`.
pub open spec fn sections_run<F, P, T, V, W>(
    fs: Seq<ProtoField>,
    read: Option<Seq<u64>>,
    episode_ids_for_card: F,
    potential: P,
    task_bonus: T,
    states: Seq<SuiteState<V, W>>,
    k: int,
) -> bool
    where
        F: Fn(u64) -> Option<[u64; 2]>,
        P: Fn(&[u8]) -> Result<V, ImportError>,
        T: Fn(&[u8]) -> Result<W, ImportError>,
{
    &&& states.len() == k + 1
    &&& states[0] == (Seq::<(Seq<char>, PlayerCardConfig)>::empty(), Seq::<(Seq<char>, AreaItemConfig)>::empty(),
        Seq::<V>::empty(), Seq::<W>::empty())
    &&& forall|i: int| 0 <= i < k ==> #[trigger] section_step(fs[i], read, episode_ids_for_card, potential,
        task_bonus, states[i], states[i + 1], None)
}

/// The rows of the first field 16 of a suite, which hold the read episodes;
/// `None` without such a field, `Err` with the reason where it cannot be read.
pub open spec fn read_rows_of(fs: Seq<ProtoField>) -> Result<Option<Seq<RowView>>, Seq<char>> {
    match first_field(fs, 16) {
        None => Ok(None),
        Some(j) => match section_bytes(fs[j]) {
            Err(m) => Err(m),
            Ok(b) => match map_rows_spec(b) {
                Err(m) => Err(m),
                Ok(rows) => Ok(Some(rows)),
            },
        },
    }
}

/// `read` are the read episode ids those rows give, in increasing order.
pub open spec fn read_ids_from(rows: Option<Seq<RowView>>, read: Option<Seq<u64>>) -> bool {
    match rows {
        None => read is None,
        Some(rows) => read matches Some(ids) && sorted_ids(ids, read_ids_in(rows)),
    }
}

/// The player id as the configuration holds it.
pub open spec fn player_id_of(user_id: u64) -> i64 {
    if user_id <= i64::MAX { user_id as i64 } else { i64::MAX }
}

/// How reading a suite went, given its fields `fs`, the read episode ids, the
/// states after each field and the field `stop` it stopped at (`fs.len()`
/// where it read them all).
pub open spec fn suite_import_explained<F, P, T, V, W>(
    ts: Seq<(u64, u8, u64, Seq<u8>)>,
    user_id: u64,
    episode_ids_for_card: F,
    potential: P,
    task_bonus: T,
    fs: Seq<ProtoField>,
    read: Option<Seq<u64>>,
    states: Seq<SuiteState<V, W>>,
    stop: int,
    r: Result<SuiteUserImport<V, W>, ImportError>,
) -> bool
    where
        F: Fn(u64) -> Option<[u64; 2]>,
        P: Fn(&[u8]) -> Result<V, ImportError>,
        T: Fn(&[u8]) -> Result<W, ImportError>,
{
    &&& fs.len() == ts.len()
    &&& forall|i: int| 0 <= i < ts.len() ==> field_is(#[trigger] fs[i], ts[i])
    &&& match read_rows_of(fs) {
        Err(m) => r matches Err(ImportError::Protobuf(e)) && e@ == m,
        Ok(rows) => {
            &&& read_ids_from(rows, read)
            &&& 0 <= stop <= fs.len()
            &&& sections_run(fs, read, episode_ids_for_card, potential, task_bonus, states, stop)
            &&& stop < fs.len() ==> (r matches Err(e) && section_step(fs[stop], read, episode_ids_for_card,
                potential, task_bonus, states[stop], states[stop], Some(e)))
            &&& stop == fs.len() ==> (r matches Ok(out)
                && out.player_id == player_id_of(user_id)
                && cards_view(out.cards@) == states[stop].0
                && cards_view(out.area_items@) == states[stop].1
                && out.potentials@ == states[stop].2
                && out.task_bonuses@ == states[stop].3)
        },
    }
}

/// The read episode ids, if known.
pub open spec fn read_view_of(read: Option<Vec<u64>>) -> Option<Seq<u64>> {
    match read {
        Some(v) => Some(v@),
        None => None,
    }
}

/// Reads one field of a suite into the state.
fn suite_section<F, P, T, V, W>(
    field: &ProtoField,
    read: &Option<Vec<u64>>,
    episode_ids_for_card: &F,
    potential: &P,
    task_bonus: &T,
    cards: &mut Vec<(String, PlayerCardConfig)>,
    area_items: &mut Vec<(String, AreaItemConfig)>,
    potentials: &mut Vec<V>,
    task_bonuses: &mut Vec<W>,
) -> (r: Result<(), ImportError>)
    where
        F: Fn(u64) -> Option<[u64; 2]>,
        P: Fn(&[u8]) -> Result<V, ImportError>,
        T: Fn(&[u8]) -> Result<W, ImportError>,
    requires
        forall|id: u64| #[trigger] episode_ids_for_card.requires((id,)),
        forall|x: &[u8]| #[trigger] potential.requires((x,)),
        forall|x: &[u8]| #[trigger] task_bonus.requires((x,)),
        card_keys_unique(cards_view(old(cards)@)),
        card_keys_unique(cards_view(old(area_items)@)),
    ensures
        ({
            let s0 = (cards_view(old(cards)@), cards_view(old(area_items)@), old(potentials)@, old(task_bonuses)@);
            let s1 = (cards_view(final(cards)@), cards_view(final(area_items)@), final(potentials)@, final(task_bonuses)@);
            match r {
                Ok(()) => section_step(*field, read_view_of(*read), *episode_ids_for_card, *potential, *task_bonus, s0, s1, None)
                    && card_keys_unique(cards_view(final(cards)@))
                    && card_keys_unique(cards_view(final(area_items)@)),
                Err(e) => section_step(*field, read_view_of(*read), *episode_ids_for_card, *potential, *task_bonus, s0, s0, Some(e)),
            }
        }),
{
    let number = field.field;
    if !(number == 3 || number == 22 || number == 401 || number == 456) {
        return Ok(());
    }
    let bytes = match field.bytes_value() {
        Ok(b) => b,
        Err(e) => return Err(e),
    };
    if number == 3 {
        match read {
            Some(ids) => import_user_situations(bytes, cards, Some(ids), episode_ids_for_card),
            None => import_user_situations(bytes, cards, None, episode_ids_for_card),
        }
    } else if number == 22 {
        import_area_items(bytes, area_items)
    } else if number == 401 {
        let out = potential(bytes);
        let ghost seen = out;
        match out {
            Ok(v) => {
                potentials.push(v);
                Ok(())
            },
            Err(e) => Err(e),
        }
    } else {
        let out = task_bonus(bytes);
        let ghost seen = out;
        match out {
            Ok(w) => {
                task_bonuses.push(w);
                Ok(())
            },
            Err(e) => Err(e),
        }
    }
}

/// Reads a player's suite: the read episode ids from the first field 16,
/// then every situations (3), area item (22), potential (401) and task-bonus
/// (456) section in order, stopping at the first error. A card's episodes
/// come from `episode_ids_for_card` where the read ids are known; the
/// potential and task-bonus sections go to `potential` and `task_bonus`.
pub fn suite_user_to_player_config<F, P, T, V, W>(
    user_id: u64,
    buf: &[u8],
    episode_ids_for_card: &F,
    potential: P,
    task_bonus: T,
) -> (r: Result<SuiteUserImport<V, W>, ImportError>)
    where
        F: Fn(u64) -> Option<[u64; 2]>,
        P: Fn(&[u8]) -> Result<V, ImportError>,
        T: Fn(&[u8]) -> Result<W, ImportError>,
    requires
        forall|id: u64| #[trigger] episode_ids_for_card.requires((id,)),
        forall|x: &[u8]| #[trigger] potential.requires((x,)),
        forall|x: &[u8]| #[trigger] task_bonus.requires((x,)),
    ensures
        match fields_from(buf@, 0) {
            Err(m) => r matches Err(ImportError::Protobuf(e)) && e@ == m,
            Ok(ts) => exists|fs: Seq<ProtoField>, read: Option<Seq<u64>>, states: Seq<SuiteState<V, W>>, stop: int|
                #[trigger] suite_import_explained(ts, user_id, *episode_ids_for_card, potential, task_bonus,
                    fs, read, states, stop, r),
        },
{
    let fields = match parse_fields(buf) {
        Ok(f) => f,
        Err(e) => return Err(e),
    };
    let ghost ts = fields_from(buf@, 0)->Ok_0;
    let ghost fs = fields@;
    let read: Option<Vec<u64>> = match find_field(fields.as_slice(), 16) {
        None => None,
        Some(j) => {
            proof {
                crate::protobuf::lemma_first_field_from_bounds(fields@, 16, 0);
            }
            let bytes = match fields[j].bytes_value() {
                Ok(b) => b,
                Err(e) => {
                    let r = Err(e);
                    proof {
                        let states = seq![(Seq::<(Seq<char>, PlayerCardConfig)>::empty(),
                            Seq::<(Seq<char>, AreaItemConfig)>::empty(), Seq::<V>::empty(), Seq::<W>::empty())];
                        assert(suite_import_explained(ts, user_id, *episode_ids_for_card, potential, task_bonus,
                            fs, None, states, 0, r));
                    }
                    return r;
                },
            };
            match import_read_episode_ids(bytes) {
                Ok(ids) => Some(ids),
                Err(e) => {
                    let r = Err(e);
                    proof {
                        let states = seq![(Seq::<(Seq<char>, PlayerCardConfig)>::empty(),
                            Seq::<(Seq<char>, AreaItemConfig)>::empty(), Seq::<V>::empty(), Seq::<W>::empty())];
                        assert(suite_import_explained(ts, user_id, *episode_ids_for_card, potential, task_bonus,
                            fs, None, states, 0, r));
                    }
                    return r;
                },
            }
        },
    };
    let ghost read_v: Option<Seq<u64>> = read_view_of(read);
    assert(read_rows_of(fs) is Ok && read_ids_from(read_rows_of(fs)->Ok_0, read_v));
    let mut cards: Vec<(String, PlayerCardConfig)> = Vec::new();
    let mut area_items: Vec<(String, AreaItemConfig)> = Vec::new();
    let mut potentials: Vec<V> = Vec::new();
    let mut task_bonuses: Vec<W> = Vec::new();
    let ghost mut states: Seq<SuiteState<V, W>> = seq![(Seq::<(Seq<char>, PlayerCardConfig)>::empty(),
        Seq::<(Seq<char>, AreaItemConfig)>::empty(), Seq::<V>::empty(), Seq::<W>::empty())];
    proof {
        assert(cards_view(cards@) =~= Seq::<(Seq<char>, PlayerCardConfig)>::empty());
        assert(cards_view(area_items@) =~= Seq::<(Seq<char>, AreaItemConfig)>::empty());
    }
    let mut k: usize = 0;
    while k < fields.len()
        invariant
            k <= fields@.len(),
            fs == fields@,
            fields_from(buf@, 0) == Ok::<Seq<(u64, u8, u64, Seq<u8>)>, Seq<char>>(ts),
            fs.len() == ts.len(),
            forall|i: int| 0 <= i < ts.len() ==> field_is(#[trigger] fs[i], ts[i]),
            read_rows_of(fs) is Ok,
            read_ids_from(read_rows_of(fs)->Ok_0, read_v),
            read_v == read_view_of(read),
            sections_run(fs, read_v, *episode_ids_for_card, potential, task_bonus, states, k as int),
            states[k as int] == (cards_view(cards@), cards_view(area_items@), potentials@, task_bonuses@),
            card_keys_unique(cards_view(cards@)),
            card_keys_unique(cards_view(area_items@)),
            forall|id: u64| #[trigger] episode_ids_for_card.requires((id,)),
            forall|x: &[u8]| #[trigger] potential.requires((x,)),
            forall|x: &[u8]| #[trigger] task_bonus.requires((x,)),
        decreases fields@.len() - k,
    {
        let ghost s0 = states[k as int];
        match suite_section(&fields[k], &read, episode_ids_for_card, &potential, &task_bonus,
            &mut cards, &mut area_items, &mut potentials, &mut task_bonuses) {
            Ok(()) => {},
            Err(e) => {
                let r = Err(e);
                proof {
                    assert(suite_import_explained(ts, user_id, *episode_ids_for_card, potential, task_bonus,
                        fs, read_v, states, k as int, r));
                    assert(fields_from(buf@, 0)->Ok_0 == ts);
                }
                return r;
            },
        }
        proof {
            let s1 = (cards_view(cards@), cards_view(area_items@), potentials@, task_bonuses@);
            assert(section_step(fs[k as int], read_v, *episode_ids_for_card, potential, task_bonus, s0, s1, None));
            let next = states.push(s1);
            assert forall|i: int| 0 <= i < k + 1 implies #[trigger] section_step(fs[i], read_v, *episode_ids_for_card,
                potential, task_bonus, next[i], next[i + 1], None) by {
                if i < k {
                    assert(next[i] == states[i] && next[i + 1] == states[i + 1]);
                }
            }
            states = next;
        }
        k = k + 1;
    }
    let player_id: i64 = if user_id <= 0x7fff_ffff_ffff_ffff { user_id as i64 } else { 0x7fff_ffff_ffff_ffff };
    let r = Ok(SuiteUserImport { player_id, cards, area_items, potentials, task_bonuses });
    proof {
        assert(suite_import_explained(ts, user_id, *episode_ids_for_card, potential, task_bonus,
            fs, read_v, states, fs.len() as int, r));
    }
    r
}

} // verus!

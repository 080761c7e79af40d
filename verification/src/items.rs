//! Area item choices of a calculation: the song inputs it accepts, the band,
//! attribute and magazine combinations it tries, and which of them are dropped
//! because another combination gives every card at least as much.
use vstd::prelude::*;
use crate::model::{Attribute, EventType, Magazine, SelectedAreaItems, SongSelection};
use crate::candidate::{BuildError, MedleySolverPreference};
use crate::raw_candidate::{TeamBuildError, TeamGenerationOptions};

verus! {

/// The band and attribute items a user asks to have tried.
#[derive(Debug, Clone, PartialEq, Eq)]
pub struct PreferredItemTarget {
    pub band: String,
    pub attribute: String,
}

/// How a calculation searches: the preferred items, the solver, and how teams
/// are generated.
#[derive(Debug, Clone, PartialEq, Eq)]
pub struct ItemSearchOptions {
    pub preferred: Option<PreferredItemTarget>,
    pub solver_preference: Option<MedleySolverPreference>,
    pub team_generation: TeamGenerationOptions,
}

impl Default for ItemSearchOptions {
    /// No preferred items, no solver preference, and the default team
    /// generation.
    fn default() -> (r: Self)
        ensures
            r.preferred is None,
            r.solver_preference is None,
            r.team_generation.score_as_medley,
            r.team_generation.max_candidates == usize::MAX,
    {
        ItemSearchOptions {
            preferred: None,
            solver_preference: None,
            team_generation: TeamGenerationOptions::default(),
        }
    }
}

/// Why the single-song search found no team.
#[derive(Debug, Clone, Copy, PartialEq, Eq, Structural)]
pub enum SingleSongDpError {
    NotEnoughCards { count: usize },
    NoResult,
}

/// Why a calculation could not produce a result.
#[derive(Debug, Clone, PartialEq, Eq)]
pub enum CalculationError {
    NoAreaItemCombinations,
    NoBuildResult,
    Team(TeamBuildError),
    SingleDp(SingleSongDpError),
    Candidate(BuildError),
    SongChartCountMismatch { songs: usize, charts: usize },
    InvalidSongCount { event_type: EventType, expected: usize, actual: usize },
}

/// How many songs an event of this type is played with.
pub open spec fn expected_song_count(event_type: EventType) -> nat {
    if event_type == EventType::Medley { 3 } else { 1 }
}

/// What checking the song inputs answers.
pub open spec fn song_inputs_spec(event_type: EventType, songs: usize, charts: usize) -> Result<
    (),
    CalculationError,
> {
    if songs != charts {
        Err(CalculationError::SongChartCountMismatch { songs, charts })
    } else if songs != expected_song_count(event_type) {
        Err(
            CalculationError::InvalidSongCount {
                event_type,
                expected: expected_song_count(event_type) as usize,
                actual: songs,
            },
        )
    } else {
        Ok(())
    }
}

/// The song inputs are accepted exactly when there is one chart per song and
/// three songs for a medley, one for every other event type.
pub proof fn lemma_song_counts(event_type: EventType, songs: usize, charts: usize)
    ensures
        song_inputs_spec(event_type, songs, charts) is Ok <==> (songs == charts
            && (event_type == EventType::Medley ==> songs == 3)
            && (event_type != EventType::Medley ==> songs == 1)),
{
}

/// Checks that there is one chart per song and as many songs as the event
/// is played with.
pub fn validate_song_inputs(event_type: EventType, song_list: &[SongSelection], chart_count: usize) -> (r:
    Result<(), CalculationError>)
    ensures
        r == song_inputs_spec(event_type, song_list@.len() as usize, chart_count),
{
    if song_list.len() != chart_count {
        return Err(
            CalculationError::SongChartCountMismatch { songs: song_list.len(), charts: chart_count },
        );
    }
    let expected: usize = match event_type {
        EventType::Medley => 3,
        _ => 1,
    };
    if song_list.len() != expected {
        return Err(
            CalculationError::InvalidSongCount { event_type, expected, actual: song_list.len() },
        );
    }
    Ok(())
}

/// An area item choice as plain values.
pub type ItemsView = (Seq<char>, Seq<char>, Magazine);

pub open spec fn items_view(items: SelectedAreaItems) -> ItemsView {
    (items.band@, items.attribute@, items.magazine)
}

pub open spec fn items_views(items: Seq<SelectedAreaItems>) -> Seq<ItemsView> {
    items.map_values(|i: SelectedAreaItems| items_view(i))
}

pub open spec fn texts_view(texts: Seq<String>) -> Seq<Seq<char>> {
    texts.map_values(|s: String| s@)
}

/// The preferred band and attribute, which only a medley honours.
pub open spec fn target_view(preferred: Option<PreferredItemTarget>, event_type: EventType) -> Option<
    (Seq<char>, Seq<char>),
> {
    if event_type == EventType::Medley {
        match preferred {
            Some(t) => Some((t.band@, t.attribute@)),
            None => None,
        }
    } else {
        None
    }
}

/// The choices of one band and one magazine, in attribute order, without the
/// preferred pair (it is tried first for each magazine).
pub open spec fn band_row(
    band: Seq<char>,
    attributes: Seq<Seq<char>>,
    magazine: Magazine,
    target: Option<(Seq<char>, Seq<char>)>,
) -> Seq<ItemsView>
    decreases attributes.len(),
{
    if attributes.len() == 0 {
        Seq::empty()
    } else {
        let rest = band_row(band, attributes.drop_last(), magazine, target);
        if target == Some((band, attributes.last())) {
            rest
        } else {
            rest.push((band, attributes.last(), magazine))
        }
    }
}

/// The band and attribute choices of one magazine, band by band.
pub open spec fn band_rows(
    bands: Seq<Seq<char>>,
    attributes: Seq<Seq<char>>,
    magazine: Magazine,
    target: Option<(Seq<char>, Seq<char>)>,
) -> Seq<ItemsView>
    decreases bands.len(),
{
    if bands.len() == 0 {
        Seq::empty()
    } else {
        band_rows(bands.drop_last(), attributes, magazine, target) + band_row(
            bands.last(),
            attributes,
            magazine,
            target,
        )
    }
}

/// The choices of one magazine: the preferred pair first, then the others.
pub open spec fn magazine_choices(
    magazine: Magazine,
    bands: Seq<Seq<char>>,
    attributes: Seq<Seq<char>>,
    target: Option<(Seq<char>, Seq<char>)>,
) -> Seq<ItemsView> {
    let lead: Seq<ItemsView> = match target {
        Some(t) => seq![(t.0, t.1, magazine)],
        None => Seq::empty(),
    };
    lead + band_rows(bands, attributes, magazine, target)
}

/// Every choice that is tried, magazine by magazine.
pub open spec fn combinations_spec(
    magazines: Seq<Magazine>,
    bands: Seq<Seq<char>>,
    attributes: Seq<Seq<char>>,
    target: Option<(Seq<char>, Seq<char>)>,
) -> Seq<ItemsView>
    decreases magazines.len(),
{
    if magazines.len() == 0 {
        Seq::empty()
    } else {
        combinations_spec(magazines.drop_last(), bands, attributes, target) + magazine_choices(
            magazines.last(),
            bands,
            attributes,
            target,
        )
    }
}

fn skipped(target: &Option<PreferredItemTarget>, band: &String, attribute: &String) -> (r: bool)
    ensures
        r == (match target {
            Some(t) => t.band@ == band@ && t.attribute@ == attribute@,
            None => false,
        }),
{
    match target {
        Some(t) => t.band == *band && t.attribute == *attribute,
        None => false,
    }
}

fn choice(band: &String, attribute: &String, magazine: Magazine) -> (r: SelectedAreaItems)
    ensures
        items_view(r) == (band@, attribute@, magazine),
{
    SelectedAreaItems { band: band.clone(), attribute: attribute.clone(), magazine }
}

/// Appends the choices of one band and one magazine.
fn push_band_row(
    out: &mut Vec<SelectedAreaItems>,
    band: &String,
    attributes: &Vec<String>,
    magazine: Magazine,
    target: &Option<PreferredItemTarget>,
    Ghost(t): Ghost<Option<(Seq<char>, Seq<char>)>>,
)
    requires
        t == (match *target {
            Some(p) => Some((p.band@, p.attribute@)),
            None => None,
        }),
    ensures
        items_views(final(out)@) == items_views(old(out)@) + band_row(
            band@,
            texts_view(attributes@),
            magazine,
            t,
        ),
{
    let ghost start = items_views(out@);
    let ghost all = texts_view(attributes@);
    let mut ai: usize = 0;
    while ai < attributes.len()
        invariant
            ai <= attributes.len(),
            all == texts_view(attributes@),
            t == (match *target {
                Some(p) => Some((p.band@, p.attribute@)),
                None => None,
            }),
            items_views(out@) == start + band_row(band@, all.take(ai as int), magazine, t),
        decreases attributes.len() - ai,
    {
        let ghost before = out@;
        assert(all.take(ai as int + 1).drop_last() =~= all.take(ai as int));
        assert(all.take(ai as int + 1).last() == attributes@[ai as int]@);
        if !skipped(target, band, &attributes[ai]) {
            let c = choice(band, &attributes[ai], magazine);
            out.push(c);
            assert(items_views(out@) =~= items_views(before).push(items_view(c)));
        }
        ai += 1;
    }
    assert(all.take(attributes.len() as int) =~= all);
}

/// Every band, attribute and magazine choice that a calculation tries, in
/// the order of the given keys, or `NoAreaItemCombinations` where one of the
/// three lists is empty. In a medley, the preferred band and attribute are
/// tried first for each magazine and not again among the others.
pub fn item_combinations(
    magazines: &Vec<Magazine>,
    bands: &Vec<String>,
    attributes: &Vec<String>,
    event_type: EventType,
    preferred: Option<PreferredItemTarget>,
) -> (r: Result<Vec<SelectedAreaItems>, CalculationError>)
    ensures
        (magazines@.len() == 0 || bands@.len() == 0 || attributes@.len() == 0) ==> r
            == Err::<Vec<SelectedAreaItems>, CalculationError>(
            CalculationError::NoAreaItemCombinations,
        ),
        (magazines@.len() > 0 && bands@.len() > 0 && attributes@.len() > 0) ==> (r matches Ok(out)
            && items_views(out@) == combinations_spec(
            magazines@,
            texts_view(bands@),
            texts_view(attributes@),
            target_view(preferred, event_type),
        )),
{
    if magazines.len() == 0 || bands.len() == 0 || attributes.len() == 0 {
        return Err(CalculationError::NoAreaItemCombinations);
    }
    let ghost t = target_view(preferred, event_type);
    let ghost bs = texts_view(bands@);
    let ghost ats = texts_view(attributes@);
    let target: Option<PreferredItemTarget> = if event_type == EventType::Medley {
        preferred
    } else {
        None
    };
    let mut combinations: Vec<SelectedAreaItems> = Vec::new();
    let mut mi: usize = 0;
    while mi < magazines.len()
        invariant
            mi <= magazines.len(),
            bs == texts_view(bands@),
            ats == texts_view(attributes@),
            t == (match target {
                Some(p) => Some((p.band@, p.attribute@)),
                None => None,
            }),
            items_views(combinations@) == combinations_spec(
                magazines@.take(mi as int),
                bs,
                ats,
                t,
            ),
        decreases magazines.len() - mi,
    {
        let magazine = magazines[mi];
        let ghost before = items_views(combinations@);
        assert(magazines@.take(mi as int + 1).drop_last() =~= magazines@.take(mi as int));
        match &target {
            Some(p) => {
                let ghost b0 = combinations@;
                let c = choice(&p.band, &p.attribute, magazine);
                combinations.push(c);
                assert(items_views(combinations@) =~= items_views(b0).push(items_view(c)));
            },
            None => {},
        }
        let ghost lead = items_views(combinations@);
        let mut bi: usize = 0;
        while bi < bands.len()
            invariant
                bi <= bands.len(),
                bs == texts_view(bands@),
                ats == texts_view(attributes@),
                t == (match target {
                    Some(p) => Some((p.band@, p.attribute@)),
                    None => None,
                }),
                items_views(combinations@) == lead + band_rows(bs.take(bi as int), ats, magazine, t),
            decreases bands.len() - bi,
        {
            assert(bs.take(bi as int + 1).drop_last() =~= bs.take(bi as int));
            assert(bs.take(bi as int + 1).last() == bands@[bi as int]@);
            push_band_row(&mut combinations, &bands[bi], attributes, magazine, &target, Ghost(t));
            assert(items_views(combinations@) =~= lead + band_rows(
                bs.take(bi as int + 1),
                ats,
                magazine,
                t,
            ));
            bi += 1;
        }
        assert(bs.take(bands.len() as int) =~= bs);
        assert(items_views(combinations@) =~= before + magazine_choices(magazine, bs, ats, t));
        mi += 1;
    }
    assert(magazines@.take(magazines.len() as int) =~= magazines@);
    Ok(combinations)
}


/// Every card does at least as well with `left` as with `right`, comparing
/// position by position as far as both go.
pub open spec fn stats_dominate(left: Seq<i32>, right: Seq<i32>) -> bool {
    forall|k: int| 0 <= k < left.len() && k < right.len() ==> left[k] >= right[k]
}

/// Some card does better with `left` than with `right`.
pub open spec fn stats_strictly_better(left: Seq<i32>, right: Seq<i32>) -> bool {
    exists|k: int| 0 <= k < left.len() && k < right.len() && left[k] > right[k]
}

/// The choice at `other` beats the one at `idx`: it gives every card at least
/// as much, and either gives some card more or comes first.
pub open spec fn beats(stats: Seq<Seq<i32>>, other: int, idx: int) -> bool {
    &&& 0 <= other < stats.len()
    &&& other != idx
    &&& stats_dominate(stats[other], stats[idx])
    &&& (stats_strictly_better(stats[other], stats[idx]) || other < idx)
}

/// The choice at `idx` is dropped: another choice beats it.
pub open spec fn dominated(stats: Seq<Seq<i32>>, idx: int) -> bool {
    exists|other: int| #[trigger] beats(stats, other, idx)
}

/// Every choice has a stat for each of the same cards.
pub open spec fn same_cards(stats: Seq<Seq<i32>>) -> bool {
    forall|i: int| 0 <= i < stats.len() ==> #[trigger] stats[i].len() == stats[0].len()
}

proof fn lemma_beats_transitive(stats: Seq<Seq<i32>>, a: int, b: int, c: int)
    requires
        same_cards(stats),
        0 <= c < stats.len(),
        beats(stats, a, b),
        beats(stats, b, c),
    ensures
        beats(stats, a, c),
{
    let (ra, rb, rc) = (stats[a], stats[b], stats[c]);
    assert(ra.len() == rb.len() && rb.len() == rc.len());
    assert forall|k: int| 0 <= k < ra.len() && k < rc.len() implies ra[k] >= rc[k] by {
        assert(ra[k] >= rb[k]);
        assert(rb[k] >= rc[k]);
    }
    if stats_strictly_better(ra, rb) {
        let k = choose|k: int| 0 <= k < ra.len() && k < rb.len() && ra[k] > rb[k];
        assert(rb[k] >= rc[k]);
    } else if stats_strictly_better(rb, rc) {
        let k = choose|k: int| 0 <= k < rb.len() && k < rc.len() && rb[k] > rc[k];
        assert(ra[k] >= rb[k]);
    }
    if a == c {
        assert forall|k: int| 0 <= k < ra.len() && k < rb.len() implies ra[k] == rb[k] by {
            assert(ra[k] >= rb[k]);
            assert(rb[k] >= rc[k]);
        }
        assert(!stats_strictly_better(ra, rb));
        assert(!stats_strictly_better(rb, rc));
    }
}

/// The choices that beat the one at `idx`.
pub open spec fn beaten_by(stats: Seq<Seq<i32>>, idx: int) -> Set<int> {
    Set::new(|other: int| beats(stats, other, idx))
}

/// Pruning loses nothing: when every choice has a stat for each of the same
/// cards, each dropped choice is beaten by a choice that stays.
pub proof fn lemma_dropped_choice_is_beaten_by_a_kept_one(stats: Seq<Seq<i32>>, idx: int)
    requires
        same_cards(stats),
        0 <= idx < stats.len(),
        dominated(stats, idx),
    ensures
        exists|kept: int| #[trigger] beats(stats, kept, idx) && !dominated(stats, kept),
    decreases beaten_by(stats, idx).len(),
{
    let all = vstd::set_lib::set_int_range(0, stats.len() as int);
    vstd::set_lib::lemma_int_range(0, stats.len() as int);
    let over = beaten_by(stats, idx);
    assert(over.subset_of(all));
    vstd::set_lib::lemma_len_subset(over, all);
    let o = choose|o: int| #[trigger] beats(stats, o, idx);
    if dominated(stats, o) {
        let under = beaten_by(stats, o);
        assert forall|x: int| under.contains(x) implies over.remove(o).contains(x) by {
            lemma_beats_transitive(stats, x, o, idx);
        }
        assert(under.subset_of(over.remove(o)));
        vstd::set_lib::lemma_len_subset(under, over.remove(o));
        lemma_dropped_choice_is_beaten_by_a_kept_one(stats, o);
        let kept = choose|kept: int| #[trigger] beats(stats, kept, o) && !dominated(stats, kept);
        lemma_beats_transitive(stats, kept, o, idx);
    }
}

/// Pruning keeps at least one of a non-empty list of choices that have stats
/// for the same cards.
pub proof fn lemma_pruning_keeps_a_choice(stats: Seq<Seq<i32>>)
    requires
        same_cards(stats),
        stats.len() > 0,
    ensures
        exists|kept: int| 0 <= kept < stats.len() && !#[trigger] dominated(stats, kept),
{
    if dominated(stats, 0) {
        lemma_dropped_choice_is_beaten_by_a_kept_one(stats, 0);
        let kept = choose|kept: int| #[trigger] beats(stats, kept, 0) && !dominated(stats, kept);
        assert(!dominated(stats, kept));
    } else {
        assert(!dominated(stats, 0));
    }
}

/// The first `n` choices without those dropped.
pub open spec fn kept_choices<T>(items: Seq<T>, stats: Seq<Seq<i32>>, n: int) -> Seq<T>
    decreases n,
{
    if n <= 0 {
        Seq::empty()
    } else {
        let rest = kept_choices(items, stats, n - 1);
        if dominated(stats, n - 1) {
            rest
        } else {
            rest.push(items[n - 1])
        }
    }
}

pub open spec fn stat_rows(stats: Seq<Vec<i32>>) -> Seq<Seq<i32>> {
    stats.map_values(|row: Vec<i32>| row@)
}

/// Whether every card does at least as well with `left` as with `right`.
pub fn item_stats_dominate(left: &[i32], right: &[i32]) -> (r: bool)
    ensures
        r == stats_dominate(left@, right@),
{
    let n = if left.len() < right.len() { left.len() } else { right.len() };
    let mut k: usize = 0;
    while k < n
        invariant
            k <= n,
            n <= left@.len(),
            n <= right@.len(),
            n == left@.len() || n == right@.len(),
            forall|j: int| 0 <= j < k ==> left@[j] >= right@[j],
        decreases n - k,
    {
        if left[k] < right[k] {
            return false;
        }
        k += 1;
    }
    true
}

/// Whether some card does better with `left` than with `right`.
pub fn item_stats_strictly_better(left: &[i32], right: &[i32]) -> (r: bool)
    ensures
        r == stats_strictly_better(left@, right@),
{
    let n = if left.len() < right.len() { left.len() } else { right.len() };
    let mut k: usize = 0;
    while k < n
        invariant
            k <= n,
            n <= left@.len(),
            n <= right@.len(),
            n == left@.len() || n == right@.len(),
            forall|j: int| 0 <= j < k ==> left@[j] <= right@[j],
        decreases n - k,
    {
        if left[k] > right[k] {
            return true;
        }
        k += 1;
    }
    false
}

fn is_dominated(stats: &Vec<Vec<i32>>, idx: usize) -> (r: bool)
    requires
        idx < stats@.len(),
    ensures
        r == dominated(stat_rows(stats@), idx as int),
{
    let ghost rows = stat_rows(stats@);
    let mut other: usize = 0;
    while other < stats.len()
        invariant
            other <= stats@.len(),
            idx < stats@.len(),
            rows == stat_rows(stats@),
            forall|o: int| 0 <= o < other ==> !#[trigger] beats(rows, o, idx as int),
        decreases stats.len() - other,
    {
        if other != idx && item_stats_dominate(stats[other].as_slice(), stats[idx].as_slice()) && (
        item_stats_strictly_better(stats[other].as_slice(), stats[idx].as_slice()) || other < idx) {
            assert(rows[other as int] == stats@[other as int]@);
            assert(beats(rows, other as int, idx as int));
            return true;
        }
        other += 1;
    }
    false
}

/// Drops each choice that another choice dominates: `stats[i][c]` is the
/// stat that card `c` has with choice `i`. Of two choices with equal stats
/// the first stays.
pub fn prune_dominated_item_combinations(
    combinations: Vec<SelectedAreaItems>,
    stats: &Vec<Vec<i32>>,
) -> (r: Vec<SelectedAreaItems>)
    requires
        stats@.len() == combinations@.len(),
    ensures
        r@ == kept_choices(combinations@, stat_rows(stats@), combinations@.len() as int),
{
    let mut kept: Vec<SelectedAreaItems> = Vec::new();
    let mut idx: usize = 0;
    while idx < combinations.len()
        invariant
            idx <= combinations@.len(),
            stats@.len() == combinations@.len(),
            kept@ == kept_choices(combinations@, stat_rows(stats@), idx as int),
        decreases combinations.len() - idx,
    {
        if !is_dominated(stats, idx) {
            let c = &combinations[idx];
            let copy = SelectedAreaItems {
                band: c.band.clone(),
                attribute: c.attribute.clone(),
                magazine: c.magazine,
            };
            kept.push(copy);
        }
        idx += 1;
    }
    kept
}

pub(crate) proof fn lemma_push_contains<T>(s: Seq<T>, x: T)
    ensures
        forall|y: T| #[trigger] s.push(x).contains(y) <==> (s.contains(y) || y == x),
{
    assert forall|y: T| #[trigger] s.push(x).contains(y) <==> (s.contains(y) || y == x) by {
        if s.push(x).contains(y) {
            let i = choose|i: int| 0 <= i < s.push(x).len() && s.push(x)[i] == y;
            if i < s.len() {
                assert(s[i] == y);
            }
        }
        if s.contains(y) {
            let i = choose|i: int| 0 <= i < s.len() && s[i] == y;
            assert(s.push(x)[i] == y);
        }
        if y == x {
            assert(s.push(x)[s.len() as int] == y);
        }
    }
}

/// The band ids of the cards, each once, in increasing order.
pub fn card_bands(band_ids: &[u32]) -> (r: Vec<u32>)
    ensures
        forall|i: int, j: int| 0 <= i < j < r@.len() ==> r@[i] < r@[j],
        forall|b: u32| r@.contains(b) <==> band_ids@.contains(b),
{
    sorted_distinct(band_ids)
}

/// The values, each once, in increasing order.
pub(crate) fn sorted_distinct(band_ids: &[u32]) -> (r: Vec<u32>)
    ensures
        forall|i: int, j: int| 0 <= i < j < r@.len() ==> r@[i] < r@[j],
        forall|b: u32| r@.contains(b) <==> band_ids@.contains(b),
{
    let mut bands: Vec<u32> = Vec::new();
    let mut k: usize = 0;
    while k < band_ids.len()
        invariant
            k <= band_ids@.len(),
            forall|i: int, j: int| 0 <= i < j < bands@.len() ==> bands@[i] < bands@[j],
            forall|b: u32| bands@.contains(b) <==> band_ids@.take(k as int).contains(b),
        decreases band_ids.len() - k,
    {
        let b = band_ids[k];
        let mut pos: usize = 0;
        while pos < bands.len() && bands[pos] < b
            invariant
                pos <= bands@.len(),
                forall|i: int| 0 <= i < pos ==> bands@[i] < b,
                forall|i: int, j: int| 0 <= i < j < bands@.len() ==> bands@[i] < bands@[j],
                forall|x: u32| bands@.contains(x) <==> band_ids@.take(k as int).contains(x),
            decreases bands.len() - pos,
        {
            pos += 1;
        }
        assert(band_ids@.take(k as int + 1) =~= band_ids@.take(k as int).push(b));
        proof {
            lemma_push_contains(band_ids@.take(k as int), b);
        }
        if pos < bands.len() && bands[pos] == b {
            assert(bands@.contains(b));
        } else {
            let ghost before = bands@;
            bands.insert(pos, b);
            assert forall|x: u32| #[trigger] bands@.contains(x) <==> (before.contains(x) || x == b) by {
                if bands@.contains(x) {
                    let i = choose|i: int| 0 <= i < bands@.len() && bands@[i] == x;
                    if i < pos {
                        assert(before[i] == x);
                    } else if i > pos {
                        assert(before[i - 1] == x);
                    }
                }
                if before.contains(x) {
                    let i = choose|i: int| 0 <= i < before.len() && before[i] == x;
                    if i < pos {
                        assert(bands@[i] == x);
                    } else {
                        assert(bands@[i + 1] == x);
                    }
                }
                if x == b {
                    assert(bands@[pos as int] == b);
                }
            }
        }
        assert forall|x: u32| #[trigger] bands@.contains(x) <==> band_ids@.take(k as int + 1).contains(x) by {
            assert(band_ids@.take(k as int + 1).contains(x) <==> (band_ids@.take(k as int).contains(x) || x == b));
        }
        k += 1;
    }
    assert(band_ids@.take(band_ids.len() as int) =~= band_ids@);
    bands
}

/// The order in which attributes are listed.
pub open spec fn attribute_order() -> Seq<Attribute> {
    seq![Attribute::Cool, Attribute::Happy, Attribute::Pure, Attribute::Powerful, Attribute::All]
}

/// The attributes that occur among the cards, in the order Cool, Happy, Pure,
/// Powerful, All.
pub fn card_attributes(attributes: &[Attribute]) -> (r: Vec<Attribute>)
    ensures
        r@ == attribute_order().filter(|a: Attribute| attributes@.contains(a)),
{
    let order: [Attribute; 5] = [
        Attribute::Cool,
        Attribute::Happy,
        Attribute::Pure,
        Attribute::Powerful,
        Attribute::All,
    ];
    assert(order@ =~= attribute_order());
    let mut out: Vec<Attribute> = Vec::new();
    let mut k: usize = 0;
    while k < 5
        invariant
            k <= 5,
            order@ == attribute_order(),
            out@ == order@.take(k as int).filter(|a: Attribute| attributes@.contains(a)),
        decreases 5 - k,
    {
        let a = order[k];
        let mut found = false;
        let mut j: usize = 0;
        while j < attributes.len()
            invariant
                j <= attributes@.len(),
                found == attributes@.take(j as int).contains(a),
            decreases attributes.len() - j,
        {
            assert(attributes@.take(j as int + 1) =~= attributes@.take(j as int).push(attributes@[j as int]));
            proof {
                lemma_push_contains(attributes@.take(j as int), attributes@[j as int]);
            }
            if attributes[j] == a {
                found = true;
            }
            j += 1;
        }
        assert(attributes@.take(attributes.len() as int) =~= attributes@);
        assert(order@.take(k as int + 1).drop_last() =~= order@.take(k as int));
        reveal(Seq::filter);
        if found {
            out.push(a);
        }
        k += 1;
    }
    assert(order@.take(5) =~= order@);
    out
}

} // verus!

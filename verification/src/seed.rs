//! Helpers of the medley seed search: teams as card positions, their overlap,
//! local replacements and the best disjoint choice of one team per song.
use vstd::prelude::*;
use crate::candidate::TeamCandidate;
use crate::disjoint_bound::{disjoint, team_has, team_has_first, TEAM_SIZE};
use crate::raw_candidate::{ids_of, team_ids, RawTeamCandidate, MEDLEY_TEAM_COUNT};

verus! {

/// A team found for one song, with its cards named by position.
#[derive(Debug, Clone)]
pub struct SeedTeamCandidate {
    pub raw_indices: [usize; TEAM_SIZE],
    pub candidate: TeamCandidate,
}

fn team_contains(team: [usize; TEAM_SIZE], card: usize) -> (r: bool)
    ensures
        r == team_has(team, card),
{
    team[0] == card || team[1] == card || team[2] == card || team[3] == card || team[4] == card
}

/// Whether two teams share no card.
pub fn seed_teams_disjoint(left: [usize; TEAM_SIZE], right: [usize; TEAM_SIZE]) -> (r: bool)
    ensures
        r == disjoint(left, right),
{
    !team_contains(left, right[0]) && !team_contains(left, right[1]) && !team_contains(left, right[2])
        && !team_contains(left, right[3]) && !team_contains(left, right[4])
}

/// Some team of the partition has the card.
pub open spec fn partition_uses(teams: [SeedTeamCandidate; 3], card: usize) -> bool {
    team_has(teams[0].raw_indices, card) || team_has(teams[1].raw_indices, card) || team_has(teams[2].raw_indices, card)
}

/// Whether some team of the partition has the card.
pub fn seed_partition_uses_card(teams: &[SeedTeamCandidate; 3], raw_idx: usize) -> (r: bool)
    ensures
        r == partition_uses(*teams, raw_idx),
{
    team_contains(teams[0].raw_indices, raw_idx) || team_contains(teams[1].raw_indices, raw_idx)
        || team_contains(teams[2].raw_indices, raw_idx)
}

/// The seed score of a partition: each team's score on its own song.
pub open spec fn partition_score(teams: [SeedTeamCandidate; 3]) -> int {
    teams[0].candidate.scores@[0] + teams[1].candidate.scores@[1] + teams[2].candidate.scores@[2]
}

/// The seed score of a partition.
pub fn seed_partition_score(teams: &[SeedTeamCandidate; 3]) -> (r: i32)
    requires
        teams[0].candidate.scores@.len() > 0,
        teams[1].candidate.scores@.len() > 1,
        teams[2].candidate.scores@.len() > 2,
        i32::MIN <= teams[0].candidate.scores@[0] + teams[1].candidate.scores@[1] <= i32::MAX,
        i32::MIN <= partition_score(*teams) <= i32::MAX,
    ensures
        r == partition_score(*teams),
{
    teams[0].candidate.scores[0] + teams[1].candidate.scores[1] + teams[2].candidate.scores[2]
}

/// Putting card `replacement` in slot `slot` keeps the team's characters distinct:
/// no other slot holds a card of its character.
pub open spec fn keeps_characters(character_ids: Seq<u32>, team: [usize; TEAM_SIZE], slot: int, replacement: usize) -> bool {
    forall|s: int| 0 <= s < TEAM_SIZE && s != slot ==> character_ids[team[s] as int] != character_ids[replacement as int]
}

/// Whether card `replacement_idx` may replace the card in `replacement_slot`
/// without two cards of one character in the team; `character_ids` gives the
/// character of each card position.
pub fn seed_replacement_keeps_team_characters(
    character_ids: &[u32],
    raw_indices: [usize; TEAM_SIZE],
    replacement_slot: usize,
    replacement_idx: usize,
) -> (r: bool)
    requires
        replacement_idx < character_ids@.len(),
        forall|s: int| 0 <= s < TEAM_SIZE ==> raw_indices[s] < character_ids@.len(),
    ensures
        r == keeps_characters(character_ids@, raw_indices, replacement_slot as int, replacement_idx),
{
    let replacement_character = character_ids[replacement_idx];
    let mut slot: usize = 0;
    while slot < TEAM_SIZE
        invariant
            slot <= TEAM_SIZE,
            replacement_idx < character_ids@.len(),
            forall|s: int| 0 <= s < TEAM_SIZE ==> raw_indices[s] < character_ids@.len(),
            replacement_character == character_ids@[replacement_idx as int],
            forall|s: int| 0 <= s < slot && s != replacement_slot ==> character_ids@[raw_indices[s] as int] != replacement_character,
        decreases TEAM_SIZE - slot,
    {
        if slot != replacement_slot && character_ids[raw_indices[slot]] == replacement_character {
            return false;
        }
        slot = slot + 1;
    }
    true
}

/// How often `x` occurs in a team.
pub open spec fn occurrences(team: [usize; TEAM_SIZE], x: usize) -> int {
    (if team[0] == x { 1int } else { 0 }) + (if team[1] == x { 1int } else { 0 }) + (if team[2] == x { 1int } else { 0 })
        + (if team[3] == x { 1int } else { 0 }) + (if team[4] == x { 1int } else { 0 })
}

fn count_in(team: [usize; TEAM_SIZE], x: usize) -> (r: usize)
    ensures
        r == occurrences(team, x),
{
    (if team[0] == x { 1usize } else { 0 }) + (if team[1] == x { 1usize } else { 0 }) + (if team[2] == x { 1usize } else { 0 })
        + (if team[3] == x { 1usize } else { 0 }) + (if team[4] == x { 1usize } else { 0 })
}

/// Whether two teams hold the same cards, in any order.
pub fn same_seed_team(left: [usize; TEAM_SIZE], right: [usize; TEAM_SIZE]) -> (r: bool)
    ensures
        r == forall|x: usize| #[trigger] occurrences(left, x) == occurrences(right, x),
{
    let mut i: usize = 0;
    while i < TEAM_SIZE
        invariant
            i <= TEAM_SIZE,
            forall|s: int| 0 <= s < i ==> occurrences(left, #[trigger] left[s]) == occurrences(right, left[s])
                && occurrences(left, right[s]) == occurrences(right, right[s]),
        decreases TEAM_SIZE - i,
    {
        if count_in(left, left[i]) != count_in(right, left[i]) || count_in(left, right[i]) != count_in(right, right[i]) {
            return false;
        }
        i = i + 1;
    }
    proof {
        assert forall|x: usize| #[trigger] occurrences(left, x) == occurrences(right, x) by {
            if !team_has(left, x) && !team_has(right, x) {
            } else if team_has(left, x) {
                if left[0] == x { assert(occurrences(left, left[0]) == occurrences(right, left[0])); }
                else if left[1] == x { assert(occurrences(left, left[1]) == occurrences(right, left[1])); }
                else if left[2] == x { assert(occurrences(left, left[2]) == occurrences(right, left[2])); }
                else if left[3] == x { assert(occurrences(left, left[3]) == occurrences(right, left[3])); }
                else { assert(occurrences(left, left[4]) == occurrences(right, left[4])); }
            } else {
                if right[0] == x { assert(occurrences(left, right[0]) == occurrences(right, right[0])); }
                else if right[1] == x { assert(occurrences(left, right[1]) == occurrences(right, right[1])); }
                else if right[2] == x { assert(occurrences(left, right[2]) == occurrences(right, right[2])); }
                else if right[3] == x { assert(occurrences(left, right[3]) == occurrences(right, right[3])); }
                else { assert(occurrences(left, right[4]) == occurrences(right, right[4])); }
            }
        }
    }
    true
}


/// Teams `a`, `b` and `c` of songs 1, 2 and 3 exist and share no card.
pub open spec fn triple_ok(sc: Seq<Seq<SeedTeamCandidate>>, a: int, b: int, c: int) -> bool {
    &&& 0 <= a < sc[0].len()
    &&& 0 <= b < sc[1].len()
    &&& 0 <= c < sc[2].len()
    &&& disjoint(sc[0][a].raw_indices, sc[1][b].raw_indices)
    &&& disjoint(sc[0][a].raw_indices, sc[2][c].raw_indices)
    &&& disjoint(sc[1][b].raw_indices, sc[2][c].raw_indices)
}

/// The seed score of choosing teams `a`, `b` and `c`.
pub open spec fn triple_score(sc: Seq<Seq<SeedTeamCandidate>>, a: int, b: int, c: int) -> int {
    sc[0][a].candidate.scores@[0] + sc[1][b].candidate.scores@[1] + sc[2][c].candidate.scores@[2]
}

/// The choice `(a, b, c)` comes before `(x, y, z)` in the search.
pub open spec fn searched_before(a: int, b: int, c: int, x: int, y: int, z: int) -> bool {
    a < x || (a == x && (b < y || (b == y && c < z)))
}

/// Every choice searched before `(x, y, z)` scores at most `best`.
pub open spec fn none_better(sc: Seq<Seq<SeedTeamCandidate>>, x: int, y: int, z: int, best: int) -> bool {
    forall|a: int, b: int, c: int| #[trigger] triple_ok(sc, a, b, c) && searched_before(a, b, c, x, y, z)
        ==> triple_score(sc, a, b, c) <= best
}

/// `t` is the first choice searched before `(x, y, z)` to score `best`.
pub open spec fn first_best(sc: Seq<Seq<SeedTeamCandidate>>, t: [usize; 3], x: int, y: int, z: int, best: int) -> bool {
    &&& triple_ok(sc, t[0] as int, t[1] as int, t[2] as int)
    &&& searched_before(t[0] as int, t[1] as int, t[2] as int, x, y, z)
    &&& triple_score(sc, t[0] as int, t[1] as int, t[2] as int) == best
    &&& forall|a: int, b: int, c: int| #[trigger] triple_ok(sc, a, b, c)
        && searched_before(a, b, c, t[0] as int, t[1] as int, t[2] as int) ==> triple_score(sc, a, b, c) < best
}

/// The teams of each song.
pub open spec fn song_views(songs: Seq<Vec<SeedTeamCandidate>>) -> Seq<Seq<SeedTeamCandidate>> {
    songs.map_values(|v: Vec<SeedTeamCandidate>| v@)
}

/// Every disjoint choice has the scores the search reads, and they add up
/// within `i32`, the first two and all three.
pub open spec fn scores_fit(sc: Seq<Seq<SeedTeamCandidate>>) -> bool {
    forall|a: int, b: int, c: int| #[trigger] triple_ok(sc, a, b, c) ==> {
        &&& sc[0][a].candidate.scores@.len() > 0
        &&& sc[1][b].candidate.scores@.len() > 1
        &&& sc[2][c].candidate.scores@.len() > 2
        &&& i32::MIN <= sc[0][a].candidate.scores@[0] + sc[1][b].candidate.scores@[1] <= i32::MAX
        &&& i32::MIN <= triple_score(sc, a, b, c) <= i32::MAX
    }
}

/// The first disjoint choice of one team per song with the highest seed score
/// above `i32::MIN`, if there is one.
pub fn best_seed_candidate_indices(song_candidates: &[Vec<SeedTeamCandidate>]) -> (r: Option<[usize; 3]>)
    requires
        song_candidates@.len() >= 3,
        scores_fit(song_views(song_candidates@)),
    ensures
        ({
            let sc = song_views(song_candidates@);
            &&& r matches Some(t) ==> triple_score(sc, t[0] as int, t[1] as int, t[2] as int) > i32::MIN
                && first_best(sc, t, sc[0].len() as int, 0, 0, triple_score(sc, t[0] as int, t[1] as int, t[2] as int))
                && none_better(sc, sc[0].len() as int, 0, 0, triple_score(sc, t[0] as int, t[1] as int, t[2] as int))
            &&& r is None ==> none_better(sc, sc[0].len() as int, 0, 0, i32::MIN as int)
        }),
{
    let ghost sc = song_views(song_candidates@);
    let first = &song_candidates[0];
    let second = &song_candidates[1];
    let third = &song_candidates[2];
    assert(first@ == sc[0] && second@ == sc[1] && third@ == sc[2]);
    let mut best_score: i32 = i32::MIN;
    let mut best_indices: Option<[usize; 3]> = None;
    let mut i: usize = 0;
    while i < first.len()
        invariant
            sc == song_views(song_candidates@),
            first@ == sc[0] && second@ == sc[1] && third@ == sc[2],
            i <= sc[0].len(),
            scores_fit(sc),
            none_better(sc, i as int, 0, 0, best_score as int),
            best_indices matches Some(t) ==> best_score > i32::MIN && first_best(sc, t, i as int, 0, 0, best_score as int),
            best_indices is None ==> best_score == i32::MIN,
        decreases sc[0].len() - i,
    {
        let mut j: usize = 0;
        while j < second.len()
            invariant
                sc == song_views(song_candidates@),
                first@ == sc[0] && second@ == sc[1] && third@ == sc[2],
                i < sc[0].len(),
                j <= sc[1].len(),
                scores_fit(sc),
                none_better(sc, i as int, j as int, 0, best_score as int),
                best_indices matches Some(t) ==> best_score > i32::MIN && first_best(sc, t, i as int, j as int, 0, best_score as int),
                best_indices is None ==> best_score == i32::MIN,
            decreases sc[1].len() - j,
        {
            if seed_teams_disjoint(first[i].raw_indices, second[j].raw_indices) {
                let mut k: usize = 0;
                while k < third.len()
                    invariant
                        sc == song_views(song_candidates@),
                        first@ == sc[0] && second@ == sc[1] && third@ == sc[2],
                        i < sc[0].len(),
                        j < sc[1].len(),
                        k <= sc[2].len(),
                        disjoint(sc[0][i as int].raw_indices, sc[1][j as int].raw_indices),
                        scores_fit(sc),
                        none_better(sc, i as int, j as int, k as int, best_score as int),
                        best_indices matches Some(t) ==> best_score > i32::MIN && first_best(sc, t, i as int, j as int, k as int, best_score as int),
                        best_indices is None ==> best_score == i32::MIN,
                    decreases sc[2].len() - k,
                {
                    if seed_teams_disjoint(first[i].raw_indices, third[k].raw_indices)
                        && seed_teams_disjoint(second[j].raw_indices, third[k].raw_indices) {
                        assert(triple_ok(sc, i as int, j as int, k as int));
                        let score = first[i].candidate.scores[0] + second[j].candidate.scores[1]
                            + third[k].candidate.scores[2];
                        if score > best_score {
                            best_score = score;
                            best_indices = Some([i, j, k]);
                            proof {
                                let t = [i, j, k];
                                assert(t[0] == i && t[1] == j && t[2] == k);
                            }
                        }
                    } else {
                        assert(!triple_ok(sc, i as int, j as int, k as int));
                    }
                    k = k + 1;
                }
                proof {
                    assert forall|a: int, b: int, c: int| #[trigger] triple_ok(sc, a, b, c)
                        && searched_before(a, b, c, i as int, (j + 1) as int, 0) implies triple_score(sc, a, b, c) <= best_score by {
                        assert(searched_before(a, b, c, i as int, j as int, k as int));
                    }
                    if let Some(t) = best_indices {
                        assert(searched_before(t[0] as int, t[1] as int, t[2] as int, i as int, (j + 1) as int, 0));
                    }
                }
            } else {
                proof {
                    assert forall|a: int, b: int, c: int| #[trigger] triple_ok(sc, a, b, c)
                        && searched_before(a, b, c, i as int, (j + 1) as int, 0) implies triple_score(sc, a, b, c) <= best_score by {
                        if a == i && b == j {
                            assert(!triple_ok(sc, a, b, c));
                        }
                    }
                }
            }
            j = j + 1;
        }
        proof {
            assert forall|a: int, b: int, c: int| #[trigger] triple_ok(sc, a, b, c)
                && searched_before(a, b, c, (i + 1) as int, 0, 0) implies triple_score(sc, a, b, c) <= best_score by {
                assert(searched_before(a, b, c, i as int, j as int, 0));
            }
            if let Some(t) = best_indices {
                assert(searched_before(t[0] as int, t[1] as int, t[2] as int, (i + 1) as int, 0, 0));
            }
        }
        i = i + 1;
    }
    best_indices
}


/// The cards the greedy seed picks after the first `n` cards of `order`: each
/// card not banned whose character is not picked yet, until five are picked.
pub open spec fn greedy_picks(character_ids: Seq<u32>, order: Seq<usize>, banned: Seq<usize>, n: int) -> Seq<usize>
    decreases n,
{
    if n <= 0 {
        Seq::empty()
    } else {
        let prev = greedy_picks(character_ids, order, banned, n - 1);
        let idx = order[n - 1];
        if prev.len() >= TEAM_SIZE || banned.contains(idx)
            || exists|s: int| 0 <= s < prev.len() && character_ids[prev[s] as int] == character_ids[idx as int] {
            prev
        } else {
            prev.push(idx)
        }
    }
}

proof fn lemma_greedy_picks_len(character_ids: Seq<u32>, order: Seq<usize>, banned: Seq<usize>, n: int)
    ensures
        greedy_picks(character_ids, order, banned, n).len() <= TEAM_SIZE,
        n > 0 ==> greedy_picks(character_ids, order, banned, n - 1).len() <= greedy_picks(character_ids, order, banned, n).len(),
    decreases n,
{
    if n > 0 {
        lemma_greedy_picks_len(character_ids, order, banned, n - 1);
    }
}

/// A team of five cards of distinct characters, taken greedily in the order
/// given and skipping banned cards; none when fewer than five can be taken.
pub fn greedy_seed_team(character_ids: &[u32], order: &[usize], banned_indices: &[usize]) -> (r: Option<[usize; TEAM_SIZE]>)
    requires
        forall|i: int| 0 <= i < order@.len() ==> #[trigger] order@[i] < character_ids@.len(),
    ensures
        ({
            let picks = greedy_picks(character_ids@, order@, banned_indices@, order@.len() as int);
            &&& picks.len() == TEAM_SIZE ==> (r matches Some(t) && t@ == picks)
            &&& picks.len() < TEAM_SIZE ==> r is None
        }),
{
    let mut selected: Vec<usize> = Vec::new();
    let mut characters: Vec<u32> = Vec::new();
    let mut n: usize = 0;
    while n < order.len()
        invariant
            n <= order@.len(),
            forall|i: int| 0 <= i < order@.len() ==> #[trigger] order@[i] < character_ids@.len(),
            selected@ == greedy_picks(character_ids@, order@, banned_indices@, n as int),
            selected@.len() < TEAM_SIZE,
            characters@.len() == selected@.len(),
            forall|s: int| 0 <= s < selected@.len() ==> selected@[s] < character_ids@.len()
                && characters@[s] == character_ids@[#[trigger] selected@[s] as int],
        decreases order@.len() - n,
    {
        let idx = order[n];
        let mut banned = false;
        let mut b: usize = 0;
        while b < banned_indices.len()
            invariant
                b <= banned_indices@.len(),
                banned == exists|q: int| 0 <= q < b && banned_indices@[q] == idx,
            decreases banned_indices@.len() - b,
        {
            if banned_indices[b] == idx {
                banned = true;
            }
            b = b + 1;
        }
        let character_id = character_ids[idx];
        let mut seen = false;
        let mut c: usize = 0;
        while c < characters.len()
            invariant
                c <= characters@.len(),
                seen == exists|q: int| 0 <= q < c && characters@[q] == character_id,
            decreases characters@.len() - c,
        {
            if characters[c] == character_id {
                seen = true;
            }
            c = c + 1;
        }
        proof {
            lemma_greedy_picks_len(character_ids@, order@, banned_indices@, n + 1);
            assert(banned == banned_indices@.contains(idx));
            assert(seen == exists|s: int| 0 <= s < selected@.len() && character_ids@[selected@[s] as int] == character_ids@[idx as int]) by {
                if seen {
                    let q = choose|q: int| 0 <= q < characters@.len() && characters@[q] == character_id;
                    assert(characters@[q] == character_ids@[selected@[q] as int]);
                }
                if exists|s: int| 0 <= s < selected@.len() && character_ids@[selected@[s] as int] == character_ids@[idx as int] {
                    let s = choose|s: int| 0 <= s < selected@.len() && character_ids@[selected@[s] as int] == character_ids@[idx as int];
                    assert(characters@[s] == character_ids@[selected@[s] as int]);
                }
            }
        }
        if !banned && !seen {
            characters.push(character_id);
            selected.push(idx);
            if selected.len() == TEAM_SIZE {
                proof {
                    assert forall|m: int| n + 1 <= m <= order@.len() implies
                        #[trigger] greedy_picks(character_ids@, order@, banned_indices@, m) == selected@ by {
                        lemma_greedy_stays(character_ids@, order@, banned_indices@, n + 1, m);
                    }
                }
                let team: [usize; TEAM_SIZE] = [selected[0], selected[1], selected[2], selected[3], selected[4]];
                proof { assert(team@ =~= selected@); }
                return Some(team);
            }
        }
        n = n + 1;
    }
    None
}

proof fn lemma_greedy_stays(character_ids: Seq<u32>, order: Seq<usize>, banned: Seq<usize>, n: int, m: int)
    requires
        0 <= n <= m,
        greedy_picks(character_ids, order, banned, n).len() >= TEAM_SIZE,
    ensures
        greedy_picks(character_ids, order, banned, m) == greedy_picks(character_ids, order, banned, n),
    decreases m - n,
{
    if m > n {
        lemma_greedy_stays(character_ids, order, banned, n, m - 1);
    }
}

/// `tc` is the seed candidate of `raw`: all five cards in its mask, the card
/// ids of its positions, and its orders, captains and scores on the first
/// `chart_count` songs.
pub open spec fn seed_candidate_of(raw: RawTeamCandidate, card_ids: Seq<u32>, chart_count: int, tc: TeamCandidate) -> bool {
    &&& tc.mask == 0x1f
    &&& tc.mask_words@.len() == 0
    &&& tc.team_card_ids@ == ids_of(card_ids, raw.raw_indices)
    &&& (tc.ordered_team_card_ids matches Some(ordered) && ordered@.len() == chart_count
        && forall|c: int| 0 <= c < chart_count ==> (#[trigger] ordered@[c])@ == ids_of(card_ids, raw.ordered_raw_indices[c]))
    &&& tc.captain_card_ids@ == Seq::new(chart_count as nat, |c: int| card_ids[raw.captain_raw_indices[c] as int])
    &&& tc.scores@ == raw.scores@.subrange(0, chart_count)
    &&& tc.stat == raw.stat
}

/// The seed candidate of a built team: its five cards make the whole mask.
pub fn seed_team_candidate_from_raw(candidate: RawTeamCandidate, card_ids: &Vec<u32>, chart_count: usize) -> (r: TeamCandidate)
    requires
        chart_count <= MEDLEY_TEAM_COUNT,
        crate::raw_candidate::raw_positions_valid(candidate, card_ids@.len() as int, chart_count as int),
    ensures
        seed_candidate_of(candidate, card_ids@, chart_count as int, r),
{
    let mut mask: u64 = 0;
    let mut idx: u64 = 0;
    assert((1u64 << 0u64) - 1 == 0) by (bit_vector);
    while idx < 5
        invariant
            idx <= 5,
            mask == (1u64 << idx) - 1,
        decreases 5 - idx,
    {
        assert(mask | (1u64 << idx) == (1u64 << (idx + 1)) - 1 && (1u64 << (idx + 1)) >= 1) by (bit_vector)
            requires mask == (1u64 << idx) - 1, idx < 5;
        mask = mask | (1u64 << idx);
        idx = idx + 1;
    }
    assert((1u64 << 5u64) - 1 == 0x1f) by (bit_vector);
    let mut ordered: Vec<Vec<u32>> = Vec::new();
    let mut captains: Vec<u32> = Vec::new();
    let mut scores: Vec<i32> = Vec::new();
    let mut c: usize = 0;
    while c < chart_count
        invariant
            c <= chart_count <= MEDLEY_TEAM_COUNT,
            crate::raw_candidate::raw_positions_valid(candidate, card_ids@.len() as int, chart_count as int),
            ordered@.len() == c,
            forall|q: int| 0 <= q < c ==> (#[trigger] ordered@[q])@ == ids_of(card_ids@, candidate.ordered_raw_indices[q]),
            captains@ =~= Seq::new(chart_count as nat, |q: int| card_ids@[candidate.captain_raw_indices[q] as int]).subrange(0, c as int),
            scores@ =~= candidate.scores@.subrange(0, c as int),
        decreases chart_count - c,
    {
        let team = candidate.ordered_raw_indices[c];
        proof {
            assert forall|k: int| 0 <= k < TEAM_SIZE implies #[trigger] team[k] < card_ids@.len() by {
                assert(candidate.ordered_raw_indices[c as int][k] < card_ids@.len());
            }
        }
        ordered.push(team_ids(card_ids, team));
        captains.push(card_ids[candidate.captain_raw_indices[c]]);
        scores.push(candidate.scores[c]);
        c = c + 1;
    }
    proof {
        assert(captains@ =~= Seq::new(chart_count as nat, |q: int| card_ids@[candidate.captain_raw_indices[q] as int]));
    }
    TeamCandidate {
        mask,
        mask_words: Vec::new(),
        team_card_ids: team_ids(card_ids, candidate.raw_indices),
        ordered_team_card_ids: Some(ordered),
        captain_card_ids: captains,
        scores,
        stat: candidate.stat,
    }
}

} // verus!

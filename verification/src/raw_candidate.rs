//! Teams as found by the enumeration, named by card positions: the solver's candidate
//! filter over them, the incumbent refresh schedule, and their compaction into
//! card-id candidates whose masks number only the cards in use.
use vstd::prelude::*;
use crate::disjoint_bound::{team_has, team_has_first, disjoint, TEAM_SIZE};
use crate::bits::{bit, lemma_bit_set, lemma_bit_zero};
use crate::candidate::{
    chosen_preference, format_medley_solver, plan_fits, preference_or_auto, solver_name, BuildError,
    MedleyPlan, MedleySolverFailure, MedleySolverInput, MedleySolverPreference, TeamCandidate, TeamMasks,
};
use crate::model::{
    BuildResult, EventType, MedleyCalculationMetrics, SelectedAreaItems, SongBuildResult, SongSelection,
};

verus! {

/// Number of songs of a medley.
pub const MEDLEY_TEAM_COUNT: usize = 3;
/// Candidates found before the incumbent is first refreshed.
pub const INCUMBENT_REFRESH_MIN_CANDIDATES: usize = 32_768;
/// Largest solver input an incumbent refresh may use.
pub const INCUMBENT_REFRESH_MAX_SOLVER_CANDIDATES: usize = 4_096;

/// Why no team candidates could be built.
#[derive(Debug, Clone, Copy, PartialEq, Eq, Structural)]
pub enum TeamBuildError {
    NotEnoughCards { count: usize },
    TooManyCandidates { limit: usize },
}

/// How teams are generated: whether scores are those of a medley, and how many
/// candidates may be kept.
#[derive(Debug, Clone, Copy, PartialEq, Eq, Structural)]
pub struct TeamGenerationOptions {
    pub score_as_medley: bool,
    pub max_candidates: usize,
}

impl Default for TeamGenerationOptions {
    /// Medley scoring, and no limit on the candidates.
    fn default() -> (r: Self)
        ensures
            r.score_as_medley,
            r.max_candidates == usize::MAX,
    {
        TeamGenerationOptions { score_as_medley: true, max_candidates: usize::MAX }
    }
}

/// A team found by the enumeration, its cards named by position in the card list.
#[derive(Debug, Clone, Copy, PartialEq, Eq)]
pub struct RawTeamCandidate {
    pub raw_indices: [usize; TEAM_SIZE],
    pub ordered_raw_indices: [[usize; TEAM_SIZE]; MEDLEY_TEAM_COUNT],
    pub captain_raw_indices: [usize; MEDLEY_TEAM_COUNT],
    pub scores: [i32; MEDLEY_TEAM_COUNT],
    pub stat: i32,
}

/// The scores of each candidate, one row per candidate.
pub open spec fn score_rows(candidates: Seq<RawTeamCandidate>) -> Seq<[i32; 3]> {
    Seq::new(candidates.len(), |i: int| candidates[i].scores)
}

/// Highest score on `song` among the first `k` rows, 0 when `k` is 0.
pub open spec fn row_max_prefix(rows: Seq<[i32; 3]>, song: int, k: int) -> int
    decreases k,
{
    if k <= 0 {
        0
    } else if k == 1 {
        rows[0][song] as int
    } else {
        let rest = row_max_prefix(rows, song, k - 1);
        let x = rows[k - 1][song] as int;
        if x > rest { x } else { rest }
    }
}

/// Highest score on `song` among all rows, 0 when there is none.
pub open spec fn row_max(rows: Seq<[i32; 3]>, song: int) -> int {
    row_max_prefix(rows, song, rows.len() as int)
}

/// Row `c` can still be part of a plan beating `current_best`: on some song its score,
/// plus the best scores of the other two songs, exceeds it.
pub open spec fn row_may_beat(rows: Seq<[i32; 3]>, c: int, current_best: int) -> bool {
    let s = rows[c];
    ||| s[0] + row_max(rows, 1) + row_max(rows, 2) > current_best
    ||| s[1] + row_max(rows, 2) + row_max(rows, 0) > current_best
    ||| s[2] + row_max(rows, 0) + row_max(rows, 1) > current_best
}

/// The indices among the first `k` rows that may beat `current_best`, in order.
pub open spec fn row_kept(rows: Seq<[i32; 3]>, current_best: int, k: int) -> Seq<usize>
    decreases k,
{
    if k <= 0 {
        Seq::empty()
    } else if row_may_beat(rows, k - 1, current_best) {
        row_kept(rows, current_best, k - 1).push((k - 1) as usize)
    } else {
        row_kept(rows, current_best, k - 1)
    }
}

proof fn lemma_row_max_bounds(rows: Seq<[i32; 3]>, song: int, k: int)
    requires
        0 <= song < 3,
        0 <= k <= rows.len(),
    ensures
        forall|c: int| 0 <= c < k ==> #[trigger] rows[c][song] <= row_max_prefix(rows, song, k),
        k > 0 ==> i32::MIN <= row_max_prefix(rows, song, k) <= i32::MAX,
    decreases k,
{
    if k > 1 {
        lemma_row_max_bounds(rows, song, k - 1);
    }
}

proof fn lemma_row_kept_contains(rows: Seq<[i32; 3]>, current_best: int, k: int, c: int)
    requires
        0 <= c < k,
        row_may_beat(rows, c, current_best),
    ensures
        row_kept(rows, current_best, k).contains(c as usize),
    decreases k,
{
    if c < k - 1 {
        lemma_row_kept_contains(rows, current_best, k - 1, c);
        if row_may_beat(rows, k - 1, current_best) {
            let prev = row_kept(rows, current_best, k - 1);
            let j = choose|j: int| 0 <= j < prev.len() && prev[j] == c as usize;
            assert(prev.push((k - 1) as usize)[j] == c as usize);
        }
    } else {
        let prev = row_kept(rows, current_best, k - 1);
        assert(prev.push((k - 1) as usize)[prev.len() as int] == c as usize);
    }
}

proof fn lemma_row_kept_below(rows: Seq<[i32; 3]>, current_best: int, k: int)
    requires
        0 <= k,
    ensures
        forall|j: int| 0 <= j < row_kept(rows, current_best, k).len() ==> #[trigger] row_kept(rows, current_best, k)[j] < k,
    decreases k,
{
    if k > 0 {
        lemma_row_kept_below(rows, current_best, k - 1);
        let prev = row_kept(rows, current_best, k - 1);
        if row_may_beat(rows, k - 1, current_best) {
            assert forall|j: int| 0 <= j < prev.len() + 1 implies #[trigger] prev.push((k - 1) as usize)[j] < k by {
                if j < prev.len() {
                    assert(prev.push((k - 1) as usize)[j] == prev[j]);
                }
            }
        }
    }
}

/// The candidates kept for the solver against `current_best`.
pub open spec fn raw_kept_indices(candidates: Seq<RawTeamCandidate>, current_best: int) -> Seq<usize> {
    row_kept(score_rows(candidates), current_best, candidates.len() as int)
}

/// Highest score on `song` over the candidates, 0 when there is none.
fn raw_max_score(candidates: &Vec<RawTeamCandidate>, song: usize) -> (r: i32)
    requires
        song < 3,
    ensures
        r as int == row_max(score_rows(candidates@), song as int),
{
    let ghost rows = score_rows(candidates@);
    let mut best: i32 = 0;
    let mut i: usize = 0;
    while i < candidates.len()
        invariant
            i <= candidates@.len(),
            song < 3,
            rows == score_rows(candidates@),
            best as int == row_max_prefix(rows, song as int, i as int),
        decreases candidates@.len() - i,
    {
        let x = candidates[i].scores[song];
        if i == 0 || x > best {
            best = x;
        }
        i = i + 1;
    }
    best
}

/// The candidates that may still be part of a plan beating `current_best`, in order. Every
/// candidate of a three-team plan scoring more than `current_best` is kept.
pub fn raw_medley_solver_candidate_indices(candidates: &Vec<RawTeamCandidate>, current_best: i32) -> (r: Vec<usize>)
    ensures
        r@ == row_kept(score_rows(candidates@), current_best as int, candidates@.len() as int),
        forall|k: int| 0 <= k < r@.len() ==> #[trigger] r@[k] < candidates@.len(),
        forall|a: int, b: int, c: int|
            0 <= a < candidates@.len() && 0 <= b < candidates@.len() && 0 <= c < candidates@.len()
            && #[trigger] candidates@[a].scores[0] + #[trigger] candidates@[b].scores[1] + #[trigger] candidates@[c].scores[2] > current_best
            ==> r@.contains(a as usize) && r@.contains(b as usize) && r@.contains(c as usize),
{
    let ghost rows = score_rows(candidates@);
    let m0 = raw_max_score(candidates, 0);
    let m1 = raw_max_score(candidates, 1);
    let m2 = raw_max_score(candidates, 2);
    let mut out: Vec<usize> = Vec::new();
    let mut i: usize = 0;
    while i < candidates.len()
        invariant
            i <= candidates@.len(),
            rows == score_rows(candidates@),
            m0 as int == row_max(rows, 0),
            m1 as int == row_max(rows, 1),
            m2 as int == row_max(rows, 2),
            out@ == row_kept(rows, current_best as int, i as int),
        decreases candidates@.len() - i,
    {
        let s = candidates[i].scores;
        let best = current_best as i64;
        let keep = (s[0] as i64) + (m1 as i64) + (m2 as i64) > best
            || (s[1] as i64) + (m2 as i64) + (m0 as i64) > best
            || (s[2] as i64) + (m0 as i64) + (m1 as i64) > best;
        proof { assert(rows[i as int] == s); }
        if keep {
            out.push(i);
        }
        i = i + 1;
    }
    proof {
        let n = candidates@.len() as int;
        lemma_row_kept_below(rows, current_best as int, n);
        lemma_row_max_bounds(rows, 0, n);
        lemma_row_max_bounds(rows, 1, n);
        lemma_row_max_bounds(rows, 2, n);
        assert forall|a: int, b: int, c: int|
            0 <= a < n && 0 <= b < n && 0 <= c < n
            && #[trigger] candidates@[a].scores[0] + #[trigger] candidates@[b].scores[1] + #[trigger] candidates@[c].scores[2] > current_best
            implies out@.contains(a as usize) && out@.contains(b as usize) && out@.contains(c as usize) by {
            assert(rows[a] == candidates@[a].scores);
            assert(rows[b] == candidates@[b].scores);
            assert(rows[c] == candidates@[c].scores);
            lemma_row_kept_contains(rows, current_best as int, n, a);
            lemma_row_kept_contains(rows, current_best as int, n, b);
            lemma_row_kept_contains(rows, current_best as int, n, c);
        }
    }
    out
}

/// The candidates an incumbent refresh hands to the solver: the same filter as a full solve.
pub fn refresh_candidate_indices(candidates: &Vec<RawTeamCandidate>, current_best: i32) -> (r: Vec<usize>)
    ensures
        r@ == row_kept(score_rows(candidates@), current_best as int, candidates@.len() as int),
        forall|k: int| 0 <= k < r@.len() ==> #[trigger] r@[k] < candidates@.len(),
{
    raw_medley_solver_candidate_indices(candidates, current_best)
}

/// Whether a refresh may solve over `candidate_count` teams.
pub fn incumbent_refresh_within_solver_budget(candidate_count: usize) -> (r: bool)
    ensures
        r == (candidate_count <= INCUMBENT_REFRESH_MAX_SOLVER_CANDIDATES),
{
    candidate_count <= INCUMBENT_REFRESH_MAX_SOLVER_CANDIDATES
}

/// Whether the enumeration should refresh its incumbent now: there is one to improve,
/// the event is a three-song medley, and enough candidates have been found.
pub fn should_refresh_candidate_incumbent(
    current_best: i32,
    chart_count: usize,
    candidate_count: usize,
    next_refresh_at: usize,
) -> (r: bool)
    ensures
        r == (current_best > 0 && chart_count == MEDLEY_TEAM_COUNT && candidate_count >= next_refresh_at),
{
    current_best > 0 && chart_count == MEDLEY_TEAM_COUNT && candidate_count >= next_refresh_at
}

/// `x` capped at `usize::MAX`.
pub open spec fn cap_usize(x: int) -> int {
    if x > usize::MAX { usize::MAX as int } else { x }
}

/// The candidate count of the next refresh: twice the current count, or
/// `INCUMBENT_REFRESH_MIN_CANDIDATES` more, whichever is larger, capped at `usize::MAX`.
pub fn next_incumbent_refresh_count(candidate_count: usize) -> (r: usize)
    ensures
        r as int == cap_usize(if candidate_count >= INCUMBENT_REFRESH_MIN_CANDIDATES {
            2 * candidate_count
        } else {
            candidate_count + INCUMBENT_REFRESH_MIN_CANDIDATES
        }),
        r >= candidate_count,
{
    let doubled = if candidate_count > usize::MAX / 2 { usize::MAX } else { candidate_count * 2 };
    let stepped = candidate_count.saturating_add(INCUMBENT_REFRESH_MIN_CANDIDATES);
    if doubled >= stepped { doubled } else { stepped }
}

/// `s` is strictly increasing.
pub open spec fn increasing(s: Seq<usize>) -> bool {
    forall|i: int, j: int| 0 <= i < j < s.len() ==> s[i] < s[j]
}

/// Whether one of the candidates at `idxs` has `card` in its team.
pub open spec fn selected_use(candidates: Seq<RawTeamCandidate>, idxs: Seq<usize>, card: usize) -> bool {
    exists|i: int| 0 <= i < idxs.len() && team_has(candidates[idxs[i] as int].raw_indices, card)
}

/// `used` lists, in increasing order, every card of the candidates at `idxs` and nothing else.
pub open spec fn lists_used_cards(candidates: Seq<RawTeamCandidate>, idxs: Seq<usize>, used: Seq<usize>) -> bool {
    &&& increasing(used)
    &&& forall|p: int| 0 <= p < used.len() ==> selected_use(candidates, idxs, #[trigger] used[p])
    &&& forall|i: int, k: int| 0 <= i < idxs.len() && 0 <= k < TEAM_SIZE
        ==> used.contains(#[trigger] candidates[idxs[i] as int].raw_indices[k])
}

/// All candidate positions `0..n`.
pub open spec fn all_indices(n: int) -> Seq<usize> {
    Seq::new(n as nat, |i: int| i as usize)
}

/// Adds a card to an increasing list, unless it is there already.
fn insert_card(used: &mut Vec<usize>, x: usize)
    requires
        increasing(old(used)@),
    ensures
        increasing(final(used)@),
        final(used)@.contains(x),
        forall|y: usize| #[trigger] final(used)@.contains(y) ==> old(used)@.contains(y) || y == x,
        forall|y: usize| #[trigger] old(used)@.contains(y) ==> final(used)@.contains(y),
{
    let mut p: usize = 0;
    while p < used.len() && used[p] < x
        invariant
            p <= used@.len(),
            forall|i: int| 0 <= i < p ==> #[trigger] used@[i] < x,
        decreases used@.len() - p,
    {
        p = p + 1;
    }
    if p < used.len() && used[p] == x {
        return;
    }
    let ghost before = used@;
    used.insert(p, x);
    proof {
        let after = used@;
        assert(after == before.insert(p as int, x));
        assert forall|i: int, j: int| 0 <= i < j < after.len() implies after[i] < after[j] by {
            if j < p {
            } else if j == p {
            } else if i < p {
                assert(after[j] == before[j - 1]);
            } else if i == p {
                assert(after[j] == before[j - 1]);
                assert(before[p as int] > x);
                if j - 1 > p {
                    assert(before[p as int] < before[j - 1]);
                }
            } else {
                assert(after[j] == before[j - 1]);
                assert(after[i] == before[i - 1]);
            }
        }
        assert(after[p as int] == x);
        assert forall|y: usize| #[trigger] after.contains(y) implies before.contains(y) || y == x by {
            let i = choose|i: int| 0 <= i < after.len() && after[i] == y;
            if i < p {
                assert(before[i] == y);
            } else if i > p {
                assert(before[i - 1] == y);
            }
        }
        assert forall|y: usize| #[trigger] before.contains(y) implies after.contains(y) by {
            let i = choose|i: int| 0 <= i < before.len() && before[i] == y;
            if i < p {
                assert(after[i] == y);
            } else {
                assert(after[i + 1] == y);
            }
        }
    }
}

/// The cards of the candidates at `idxs`, in increasing order.
fn used_cards(candidates: &Vec<RawTeamCandidate>, idxs: &Vec<usize>) -> (r: Vec<usize>)
    requires
        forall|i: int| 0 <= i < idxs@.len() ==> #[trigger] idxs@[i] < candidates@.len(),
    ensures
        lists_used_cards(candidates@, idxs@, r@),
{
    let ghost cands = candidates@;
    let mut used: Vec<usize> = Vec::new();
    let mut i: usize = 0;
    while i < idxs.len()
        invariant
            i <= idxs@.len(),
            cands == candidates@,
            forall|q: int| 0 <= q < idxs@.len() ==> #[trigger] idxs@[q] < cands.len(),
            increasing(used@),
            forall|p: int| 0 <= p < used@.len() ==> selected_use(cands, idxs@.subrange(0, i as int), #[trigger] used@[p]),
            forall|q: int, k: int| 0 <= q < i && 0 <= k < TEAM_SIZE
                ==> used@.contains(#[trigger] cands[idxs@[q] as int].raw_indices[k]),
        decreases idxs@.len() - i,
    {
        let team = candidates[idxs[i]].raw_indices;
        let ghost start = used@;
        let mut k: usize = 0;
        while k < TEAM_SIZE
            invariant
                k <= TEAM_SIZE,
                i < idxs@.len(),
                cands == candidates@,
                team == cands[idxs@[i as int] as int].raw_indices,
                increasing(used@),
                forall|y: usize| #[trigger] start.contains(y) ==> used@.contains(y),
                forall|y: usize| #[trigger] used@.contains(y) ==> start.contains(y) || team_has_first(team, y, k as int),
                forall|m: int| 0 <= m < k ==> used@.contains(#[trigger] team[m]),
            decreases TEAM_SIZE - k,
        {
            insert_card(&mut used, team[k]);
            k = k + 1;
        }
        proof {
            let idx_next = idxs@.subrange(0, i + 1);
            assert forall|p: int| 0 <= p < used@.len() implies selected_use(cands, idx_next, #[trigger] used@[p]) by {
                let y = used@[p];
                assert(used@.contains(y));
                if start.contains(y) {
                    let p0 = choose|p0: int| 0 <= p0 < start.len() && start[p0] == y;
                    assert(selected_use(cands, idxs@.subrange(0, i as int), start[p0]));
                    let q = choose|q: int| 0 <= q < i && team_has(cands[idxs@.subrange(0, i as int)[q] as int].raw_indices, y);
                    assert(idx_next[q] == idxs@[q]);
                } else {
                    assert(idx_next[i as int] == idxs@[i as int]);
                }
            }
            assert forall|q: int, k2: int| 0 <= q < i + 1 && 0 <= k2 < TEAM_SIZE
                implies used@.contains(#[trigger] cands[idxs@[q] as int].raw_indices[k2]) by {
                if q < i {
                    assert(start.contains(cands[idxs@[q] as int].raw_indices[k2]));
                }
            }
        }
        i = i + 1;
    }
    proof {
        assert(idxs@.subrange(0, idxs@.len() as int) =~= idxs@);
    }
    used
}

/// Position of `x` in an increasing list that holds it.
fn card_position(used: &Vec<usize>, x: usize) -> (r: usize)
    requires
        increasing(used@),
        used@.contains(x),
    ensures
        r < used@.len(),
        used@[r as int] == x,
{
    let mut lo: usize = 0;
    let mut hi: usize = used.len();
    while lo + 1 < hi
        invariant
            lo < hi <= used@.len(),
            increasing(used@),
            used@.contains(x),
            forall|i: int| 0 <= i < used@.len() && used@[i] == x ==> lo <= i < hi,
        decreases hi - lo,
    {
        let mid = lo + (hi - lo) / 2;
        if used[mid] <= x {
            lo = mid;
        } else {
            hi = mid;
        }
    }
    lo
}

/// The mask words of a team: bit `j` of word `w` is set exactly when card `used[64 * w + j]`
/// is in the team.
pub open spec fn team_words(used: Seq<usize>, team: [usize; TEAM_SIZE], words: Seq<u64>) -> bool {
    forall|w: int, j: u64| 0 <= w < words.len() && j < 64 ==>
        (#[trigger] bit(words[w], j) <==> (w * 64 + j < used.len() && team_has(team, used[w * 64 + j])))
}

/// Number of 64-bit words for `n` cards, at least one.
pub open spec fn word_count_for(n: int) -> int {
    if n <= 64 { 1 } else if n % 64 == 0 { n / 64 } else { n / 64 + 1 }
}

/// The mask words of a team over `word_count` words.
fn team_mask_words(team: [usize; TEAM_SIZE], used: &Vec<usize>, word_count: usize) -> (r: Vec<u64>)
    requires
        increasing(used@),
        used@.len() <= 64 * word_count,
        forall|k: int| 0 <= k < TEAM_SIZE ==> used@.contains(#[trigger] team[k]),
    ensures
        r@.len() == word_count,
        team_words(used@, team, r@),
{
    let mut words: Vec<u64> = Vec::new();
    let mut w: usize = 0;
    while w < word_count
        invariant
            w <= word_count,
            words@.len() == w,
            forall|q: int| 0 <= q < w ==> #[trigger] words@[q] == 0u64,
        decreases word_count - w,
    {
        words.push(0);
        w = w + 1;
    }
    proof {
        assert forall|q: int, j: u64| 0 <= q < word_count && j < 64 implies
            (#[trigger] bit(words@[q], j) <==> (q * 64 + j < used@.len() && team_has_first(team, used@[q * 64 + j], 0))) by {
            lemma_bit_zero(j);
        }
    }
    let mut k: usize = 0;
    while k < TEAM_SIZE
        invariant
            k <= TEAM_SIZE,
            increasing(used@),
            used@.len() <= 64 * word_count,
            forall|m: int| 0 <= m < TEAM_SIZE ==> used@.contains(#[trigger] team[m]),
            words@.len() == word_count,
            forall|q: int, j: u64| 0 <= q < word_count && j < 64 ==>
                (#[trigger] bit(words@[q], j) <==> (q * 64 + j < used@.len() && team_has_first(team, used@[q * 64 + j], k as int))),
        decreases TEAM_SIZE - k,
    {
        let p = card_position(used, team[k]);
        let word = p / 64;
        let j = (p % 64) as u64;
        let old_word = words[word];
        let ghost before = words@;
        words.set(word, old_word | (1u64 << j));
        proof {
            assert forall|q: int, j2: u64| 0 <= q < word_count && j2 < 64 implies
                (#[trigger] bit(words@[q], j2) <==> (q * 64 + j2 < used@.len() && team_has_first(team, used@[q * 64 + j2], k + 1))) by {
                if q == word {
                    lemma_bit_set(old_word, j, j2);
                    if j2 == j {
                        assert(q * 64 + j2 == p);
                    } else {
                        assert(q * 64 + j2 != p);
                        if q * 64 + j2 < used@.len() && used@[q * 64 + j2] == team[k as int] {
                            assert(used@[p as int] == team[k as int]);
                            if q * 64 + j2 < p {
                                assert(used@[q * 64 + j2] < used@[p as int]);
                            } else {
                                assert(used@[p as int] < used@[q * 64 + j2]);
                            }
                        }
                    }
                } else {
                    assert(words@[q] == before[q]);
                    if q * 64 + j2 < used@.len() && used@[q * 64 + j2] == team[k as int] {
                        assert(used@[p as int] == team[k as int]);
                        assert(q * 64 + j2 != p);
                        if q * 64 + j2 < p {
                            assert(used@[q * 64 + j2] < used@[p as int]);
                        } else {
                            assert(used@[p as int] < used@[q * 64 + j2]);
                        }
                    }
                }
            }
        }
        k = k + 1;
    }
    words
}

/// Number of distinct cards over all candidates.
pub fn raw_candidate_used_card_count(raw_candidates: &Vec<RawTeamCandidate>) -> (r: usize)
    ensures
        exists|used: Seq<usize>| lists_used_cards(raw_candidates@, all_indices(raw_candidates@.len() as int), used)
            && r == used.len(),
{
    let mut all: Vec<usize> = Vec::new();
    let mut i: usize = 0;
    while i < raw_candidates.len()
        invariant
            i <= raw_candidates@.len(),
            all@ =~= all_indices(i as int),
        decreases raw_candidates@.len() - i,
    {
        all.push(i);
        i = i + 1;
    }
    let used = used_cards(raw_candidates, &all);
    used.len()
}

/// Two teams' masks over the same used-card list share a bit exactly when the teams share
/// a card.
pub proof fn lemma_masks_overlap_iff_teams_overlap(
    used: Seq<usize>,
    a: [usize; TEAM_SIZE],
    b: [usize; TEAM_SIZE],
    wa: Seq<u64>,
    wb: Seq<u64>,
)
    requires
        increasing(used),
        wa.len() == wb.len(),
        used.len() <= 64 * wa.len(),
        team_words(used, a, wa),
        team_words(used, b, wb),
        forall|k: int| 0 <= k < TEAM_SIZE ==> used.contains(#[trigger] a[k]),
        forall|k: int| 0 <= k < TEAM_SIZE ==> used.contains(#[trigger] b[k]),
    ensures
        (exists|w: int, j: u64| 0 <= w < wa.len() && j < 64 && #[trigger] bit(wa[w], j) && bit(wb[w], j))
            <==> !disjoint(a, b),
{
    if !disjoint(a, b) {
        let k = choose|k: int| 0 <= k < TEAM_SIZE && team_has(a, b[k]);
        assert(used.contains(b[k]));
        let p = choose|p: int| 0 <= p < used.len() && used[p] == b[k];
        let w = p / 64;
        let j = (p % 64) as u64;
        assert(w * 64 + j == p);
        assert(bit(wa[w], j) && bit(wb[w], j));
    }
    if exists|w: int, j: u64| 0 <= w < wa.len() && j < 64 && #[trigger] bit(wa[w], j) && bit(wb[w], j) {
        let (w, j) = choose|w: int, j: u64| 0 <= w < wa.len() && j < 64 && #[trigger] bit(wa[w], j) && bit(wb[w], j);
        let x = used[w * 64 + j];
        assert(team_has(a, x) && team_has(b, x));
    }
}

/// The solver input over the candidates at `idxs`: their scores, and their masks over the
/// used-card list, in one word when at most 64 cards are used and in several otherwise.
pub open spec fn raw_solver_input_matches(
    candidates: Seq<RawTeamCandidate>,
    current_best: i32,
    idxs: Seq<usize>,
    used: Seq<usize>,
    input: MedleySolverInput,
) -> bool {
    &&& input.current_best == current_best
    &&& input.scores@ == Seq::new(idxs.len(), |k: int| candidates[idxs[k] as int].scores)
    &&& match input.team_masks {
        TeamMasks::Narrow(ns) => used.len() <= 64 && ns@.len() == idxs.len() && forall|k: int|
            0 <= k < idxs.len() ==> team_words(used, candidates[idxs[k] as int].raw_indices, seq![#[trigger] ns@[k]]),
        TeamMasks::Wide(ws) => used.len() > 64 && ws@.len() == idxs.len() && forall|k: int|
            0 <= k < idxs.len() ==> (#[trigger] ws@[k])@.len() == word_count_for(used.len() as int)
                && team_words(used, candidates[idxs[k] as int].raw_indices, ws@[k]@),
    }
}

/// The solver input over the candidates at `candidate_indices`, and the number of cards they use.
pub fn raw_candidate_solver_input_for_indices(
    raw_candidates: &Vec<RawTeamCandidate>,
    current_best: i32,
    candidate_indices: &Vec<usize>,
) -> (r: (MedleySolverInput, usize))
    requires
        forall|i: int| 0 <= i < candidate_indices@.len() ==> #[trigger] candidate_indices@[i] < raw_candidates@.len(),
    ensures
        exists|used: Seq<usize>| lists_used_cards(raw_candidates@, candidate_indices@, used)
            && r.1 == used.len()
            && raw_solver_input_matches(raw_candidates@, current_best, candidate_indices@, used, r.0),
{
    let ghost cands = raw_candidates@;
    let ghost idxs = candidate_indices@;
    let used = used_cards(raw_candidates, candidate_indices);
    let used_card_count = used.len();
    let mut scores: Vec<[i32; 3]> = Vec::new();
    let mut k: usize = 0;
    while k < candidate_indices.len()
        invariant
            k <= idxs.len(),
            cands == raw_candidates@,
            idxs == candidate_indices@,
            forall|i: int| 0 <= i < idxs.len() ==> #[trigger] idxs[i] < cands.len(),
            scores@ =~= Seq::new(idxs.len(), |q: int| cands[idxs[q] as int].scores).subrange(0, k as int),
        decreases idxs.len() - k,
    {
        scores.push(raw_candidates[candidate_indices[k]].scores);
        k = k + 1;
    }
    proof { assert(scores@ =~= Seq::new(idxs.len(), |q: int| cands[idxs[q] as int].scores)); }
    if used_card_count <= 64 {
        let mut masks: Vec<u64> = Vec::new();
        let mut k: usize = 0;
        while k < candidate_indices.len()
            invariant
                k <= idxs.len(),
                cands == raw_candidates@,
                idxs == candidate_indices@,
                forall|i: int| 0 <= i < idxs.len() ==> #[trigger] idxs[i] < cands.len(),
                lists_used_cards(cands, idxs, used@),
                used@.len() <= 64,
                masks@.len() == k,
                forall|q: int| 0 <= q < k ==> team_words(used@, cands[idxs[q] as int].raw_indices, seq![#[trigger] masks@[q]]),
            decreases idxs.len() - k,
        {
            let team = raw_candidates[candidate_indices[k]].raw_indices;
            proof {
                assert forall|m: int| 0 <= m < TEAM_SIZE implies used@.contains(#[trigger] team[m]) by {
                    assert(used@.contains(cands[idxs[k as int] as int].raw_indices[m]));
                }
            }
            let words = team_mask_words(team, &used, 1);
            proof { assert(seq![words@[0]] =~= words@); }
            masks.push(words[0]);
            k = k + 1;
        }
        let input = MedleySolverInput { current_best, team_masks: TeamMasks::Narrow(masks), scores };
        (input, used_card_count)
    } else {
        let word_count = if used_card_count % 64 == 0 { used_card_count / 64 } else { used_card_count / 64 + 1 };
        let mut masks: Vec<Vec<u64>> = Vec::new();
        let mut k: usize = 0;
        while k < candidate_indices.len()
            invariant
                k <= idxs.len(),
                cands == raw_candidates@,
                idxs == candidate_indices@,
                forall|i: int| 0 <= i < idxs.len() ==> #[trigger] idxs[i] < cands.len(),
                lists_used_cards(cands, idxs, used@),
                used@.len() > 64,
                word_count as int == word_count_for(used@.len() as int),
                masks@.len() == k,
                forall|q: int| 0 <= q < k ==> (#[trigger] masks@[q])@.len() == word_count
                    && team_words(used@, cands[idxs[q] as int].raw_indices, masks@[q]@),
            decreases idxs.len() - k,
        {
            let team = raw_candidates[candidate_indices[k]].raw_indices;
            proof {
                assert forall|m: int| 0 <= m < TEAM_SIZE implies used@.contains(#[trigger] team[m]) by {
                    assert(used@.contains(cands[idxs[k as int] as int].raw_indices[m]));
                }
            }
            let words = team_mask_words(team, &used, word_count);
            masks.push(words);
            k = k + 1;
        }
        let input = MedleySolverInput { current_best, team_masks: TeamMasks::Wide(masks), scores };
        (input, used_card_count)
    }
}

/// The card ids of a team's card positions.
pub open spec fn ids_of(card_ids: Seq<u32>, team: [usize; TEAM_SIZE]) -> Seq<u32> {
    Seq::new(TEAM_SIZE as nat, |k: int| card_ids[team[k] as int])
}

/// Every card position a candidate uses on the first `chart_count` songs names a card.
pub open spec fn raw_positions_valid(raw: RawTeamCandidate, card_count: int, chart_count: int) -> bool {
    &&& forall|k: int| 0 <= k < TEAM_SIZE ==> #[trigger] raw.raw_indices[k] < card_count
    &&& forall|c: int, k: int| 0 <= c < chart_count && 0 <= k < TEAM_SIZE ==> #[trigger] raw.ordered_raw_indices[c][k] < card_count
    &&& forall|c: int| 0 <= c < chart_count ==> #[trigger] raw.captain_raw_indices[c] < card_count
}

/// The card-id candidate of a raw candidate, its mask numbering the cards of `used`.
pub open spec fn compacted(raw: RawTeamCandidate, card_ids: Seq<u32>, chart_count: int, used: Seq<usize>, tc: TeamCandidate) -> bool {
    let word_count = word_count_for(used.len() as int);
    &&& (word_count == 1 ==> tc.mask_words@.len() == 0 && team_words(used, raw.raw_indices, seq![tc.mask]))
    &&& (word_count > 1 ==> tc.mask == 0 && tc.mask_words@.len() == word_count
        && team_words(used, raw.raw_indices, tc.mask_words@))
    &&& tc.team_card_ids@ == ids_of(card_ids, raw.raw_indices)
    &&& (tc.ordered_team_card_ids matches Some(ordered) && ordered@.len() == chart_count
        && forall|c: int| 0 <= c < chart_count ==> (#[trigger] ordered@[c])@ == ids_of(card_ids, raw.ordered_raw_indices[c]))
    &&& tc.captain_card_ids@ == Seq::new(chart_count as nat, |c: int| card_ids[raw.captain_raw_indices[c] as int])
    &&& tc.scores@ == raw.scores@.subrange(0, chart_count)
    &&& tc.stat == raw.stat
}

pub(crate) fn team_ids(card_ids: &Vec<u32>, team: [usize; TEAM_SIZE]) -> (r: Vec<u32>)
    requires
        forall|k: int| 0 <= k < TEAM_SIZE ==> #[trigger] team[k] < card_ids@.len(),
    ensures
        r@ == ids_of(card_ids@, team),
{
    let mut out: Vec<u32> = Vec::new();
    let mut k: usize = 0;
    while k < TEAM_SIZE
        invariant
            k <= TEAM_SIZE,
            forall|m: int| 0 <= m < TEAM_SIZE ==> #[trigger] team[m] < card_ids@.len(),
            out@ =~= ids_of(card_ids@, team).subrange(0, k as int),
        decreases TEAM_SIZE - k,
    {
        out.push(card_ids[team[k]]);
        k = k + 1;
    }
    proof { assert(out@ =~= ids_of(card_ids@, team)); }
    out
}

fn compact_one(raw: &RawTeamCandidate, card_ids: &Vec<u32>, chart_count: usize, used: &Vec<usize>) -> (r: TeamCandidate)
    requires
        chart_count <= MEDLEY_TEAM_COUNT,
        increasing(used@),
        raw_positions_valid(*raw, card_ids@.len() as int, chart_count as int),
        forall|k: int| 0 <= k < TEAM_SIZE ==> used@.contains(#[trigger] raw.raw_indices[k]),
    ensures
        compacted(*raw, card_ids@, chart_count as int, used@, r),
{
    let n = used.len();
    let word_count: usize = if n <= 64 { 1 } else if n % 64 == 0 { n / 64 } else { n / 64 + 1 };
    let words = team_mask_words(raw.raw_indices, used, word_count);
    let (mask, mask_words) = if word_count == 1 {
        proof { assert(seq![words@[0]] =~= words@); }
        (words[0], Vec::new())
    } else {
        (0u64, words)
    };
    let mut ordered: Vec<Vec<u32>> = Vec::new();
    let mut captains: Vec<u32> = Vec::new();
    let mut scores: Vec<i32> = Vec::new();
    let mut c: usize = 0;
    while c < chart_count
        invariant
            c <= chart_count <= MEDLEY_TEAM_COUNT,
            raw_positions_valid(*raw, card_ids@.len() as int, chart_count as int),
            ordered@.len() == c,
            forall|q: int| 0 <= q < c ==> (#[trigger] ordered@[q])@ == ids_of(card_ids@, raw.ordered_raw_indices[q]),
            captains@ =~= Seq::new(chart_count as nat, |q: int| card_ids@[raw.captain_raw_indices[q] as int]).subrange(0, c as int),
            scores@ =~= raw.scores@.subrange(0, c as int),
        decreases chart_count - c,
    {
        let team = raw.ordered_raw_indices[c];
        proof {
            assert forall|k: int| 0 <= k < TEAM_SIZE implies #[trigger] team[k] < card_ids@.len() by {
                assert(raw.ordered_raw_indices[c as int][k] < card_ids@.len());
            }
        }
        ordered.push(team_ids(card_ids, team));
        captains.push(card_ids[raw.captain_raw_indices[c]]);
        scores.push(raw.scores[c]);
        c = c + 1;
    }
    proof {
        assert(captains@ =~= Seq::new(chart_count as nat, |q: int| card_ids@[raw.captain_raw_indices[q] as int]));
    }
    TeamCandidate {
        mask,
        mask_words,
        team_card_ids: team_ids(card_ids, raw.raw_indices),
        ordered_team_card_ids: Some(ordered),
        captain_card_ids: captains,
        scores,
        stat: raw.stat,
    }
}

/// The card-id candidates of raw candidates, in order. Their masks number only the cards the
/// candidates use, in increasing position order, one word when at most 64 are used.
pub fn compact_raw_candidate_masks(
    raw_candidates: Vec<RawTeamCandidate>,
    card_ids: &Vec<u32>,
    chart_count: usize,
) -> (r: Result<Vec<TeamCandidate>, TeamBuildError>)
    requires
        chart_count <= MEDLEY_TEAM_COUNT,
        forall|i: int| 0 <= i < raw_candidates@.len()
            ==> raw_positions_valid(#[trigger] raw_candidates@[i], card_ids@.len() as int, chart_count as int),
    ensures
        r matches Ok(out) && out@.len() == raw_candidates@.len() && exists|used: Seq<usize>|
            lists_used_cards(raw_candidates@, all_indices(raw_candidates@.len() as int), used)
            && forall|i: int| 0 <= i < out@.len()
                ==> compacted(raw_candidates@[i], card_ids@, chart_count as int, used, #[trigger] out@[i]),
{
    let ghost cands = raw_candidates@;
    let mut all: Vec<usize> = Vec::new();
    let mut i: usize = 0;
    while i < raw_candidates.len()
        invariant
            i <= raw_candidates@.len(),
            all@ =~= all_indices(i as int),
        decreases raw_candidates@.len() - i,
    {
        all.push(i);
        i = i + 1;
    }
    let used = used_cards(&raw_candidates, &all);
    let mut out: Vec<TeamCandidate> = Vec::new();
    let mut i: usize = 0;
    while i < raw_candidates.len()
        invariant
            i <= cands.len(),
            cands == raw_candidates@,
            all@ == all_indices(cands.len() as int),
            chart_count <= MEDLEY_TEAM_COUNT,
            forall|q: int| 0 <= q < cands.len()
                ==> raw_positions_valid(#[trigger] cands[q], card_ids@.len() as int, chart_count as int),
            lists_used_cards(cands, all@, used@),
            out@.len() == i,
            forall|q: int| 0 <= q < i ==> compacted(cands[q], card_ids@, chart_count as int, used@, #[trigger] out@[q]),
        decreases cands.len() - i,
    {
        let raw = &raw_candidates[i];
        proof {
            assert forall|k: int| 0 <= k < TEAM_SIZE implies used@.contains(#[trigger] raw.raw_indices[k]) by {
                assert(all@[i as int] == i);
                assert(used@.contains(cands[all@[i as int] as int].raw_indices[k]));
            }
        }
        out.push(compact_one(raw, card_ids, chart_count, &used));
        i = i + 1;
    }
    Ok(out)
}

/// A medley request over raw candidates and the card ids of their card positions.
#[derive(Debug, Clone, PartialEq, Eq)]
pub struct RawCandidateBuildRequest {
    pub event_id: u32,
    pub song_list: Vec<SongSelection>,
    pub candidates: Vec<RawTeamCandidate>,
    pub card_ids: Vec<u32>,
    pub current_best: i32,
    pub solver_preference: Option<MedleySolverPreference>,
    pub items: Option<SelectedAreaItems>,
}

/// A song result is the one a raw candidate gives on song `k`.
pub open spec fn raw_song_matches(result: SongBuildResult, song: SongSelection, raw: RawTeamCandidate, card_ids: Seq<u32>, k: int) -> bool {
    &&& result.song_id == song.song_id
    &&& result.difficulty == song.difficulty
    &&& result.score == raw.scores[k]
    &&& result.stat == raw.stat
    &&& result.team_card_ids@ == ids_of(card_ids, raw.ordered_raw_indices[k])
    &&& result.captain_card_id == card_ids[raw.captain_raw_indices[k] as int]
}

/// The result a raw candidate gives on one song.
pub fn raw_song_result(song: &SongSelection, candidate: &RawTeamCandidate, card_ids: &Vec<u32>, song_idx: usize) -> (r: SongBuildResult)
    requires
        song_idx < MEDLEY_TEAM_COUNT,
        raw_positions_valid(*candidate, card_ids@.len() as int, MEDLEY_TEAM_COUNT as int),
    ensures
        raw_song_matches(r, *song, *candidate, card_ids@, song_idx as int),
{
    let team = candidate.ordered_raw_indices[song_idx];
    proof {
        assert forall|k: int| 0 <= k < TEAM_SIZE implies #[trigger] team[k] < card_ids@.len() by {
            assert(candidate.ordered_raw_indices[song_idx as int][k] < card_ids@.len());
        }
    }
    SongBuildResult {
        song_id: song.song_id,
        difficulty: song.difficulty,
        score: candidate.scores[song_idx],
        stat: candidate.stat,
        team_card_ids: team_ids(card_ids, team),
        captain_card_id: card_ids[candidate.captain_raw_indices[song_idx]],
    }
}

/// The medley result of a plan over raw candidates: the chosen candidates' results per
/// song, the plan's score, the sum of their stats as `i32` arithmetic wraps it, and the
/// solver's name and counters.
pub open spec fn raw_medley_result_matches(
    request: RawCandidateBuildRequest,
    indices: Seq<usize>,
    used_card_count: int,
    plan: MedleyPlan,
    result: BuildResult,
) -> bool {
    let cands = request.candidates@;
    let c0 = cands[indices[plan.indices[0] as int] as int];
    let c1 = cands[indices[plan.indices[1] as int] as int];
    let c2 = cands[indices[plan.indices[2] as int] as int];
    &&& result.event_id == request.event_id
    &&& result.event_type == EventType::Medley
    &&& result.total_score == plan.score
    &&& result.total_stat == 0i32.wrapping_add(c0.stat).wrapping_add(c1.stat).wrapping_add(c2.stat)
    &&& result.songs@.len() == 3
    &&& raw_song_matches(result.songs@[0], request.song_list@[0], c0, request.card_ids@, 0)
    &&& raw_song_matches(result.songs@[1], request.song_list@[1], c1, request.card_ids@, 1)
    &&& raw_song_matches(result.songs@[2], request.song_list@[2], c2, request.card_ids@, 2)
    &&& result.items == request.items
    &&& (result.solver matches Some(name) && name@ == solver_name(plan.implementation))
    &&& result.medley_metrics == Some(MedleyCalculationMetrics {
        candidate_count: cands.len() as usize,
        solver_candidate_count: indices.len() as usize,
        used_card_count: Some(used_card_count as usize),
    })
}

/// Solves a medley over raw candidates: keeps the candidates that may beat the request's
/// incumbent, hands their solver input to `solve` with the request's preference (`Auto`
/// by default), and builds the result from the plan.
pub fn calculate_medley_from_raw_candidates<F: Fn(&MedleySolverInput, MedleySolverPreference) -> Result<MedleyPlan, MedleySolverFailure>>(
    request: RawCandidateBuildRequest,
    solve: F,
) -> (r: Result<BuildResult, BuildError>)
    requires
        forall|input: &MedleySolverInput, preference: MedleySolverPreference| #[trigger] solve.requires((input, preference)),
        forall|input: &MedleySolverInput, preference: MedleySolverPreference, plan: MedleyPlan|
            #[trigger] solve.ensures((input, preference), Ok(plan)) ==> plan_fits(plan, input.scores@.len() as int),
        forall|i: int| 0 <= i < request.candidates@.len() ==>
            raw_positions_valid(#[trigger] request.candidates@[i], request.card_ids@.len() as int, MEDLEY_TEAM_COUNT as int),
    ensures
        request.candidates@.len() == 0 ==> r == Err::<BuildResult, BuildError>(BuildError::EmptyCandidates),
        request.candidates@.len() > 0 && request.song_list@.len() != 3 ==>
            r == Err::<BuildResult, BuildError>(BuildError::InvalidMedleySongCount { count: request.song_list@.len() as usize }),
        request.candidates@.len() > 0 && request.song_list@.len() == 3 ==> (r is Ok || r matches Err(BuildError::MedleySolver(_))),
        r matches Ok(res) ==> exists|used: Seq<usize>, input: MedleySolverInput, plan: MedleyPlan| {
            &&& #[trigger] lists_used_cards(request.candidates@, raw_kept_indices(request.candidates@, request.current_best as int), used)
            &&& raw_solver_input_matches(request.candidates@, request.current_best, raw_kept_indices(request.candidates@, request.current_best as int), used, input)
            &&& #[trigger] solve.ensures((&input, chosen_preference(request.solver_preference)), Ok::<MedleyPlan, MedleySolverFailure>(plan))
            &&& raw_medley_result_matches(request, raw_kept_indices(request.candidates@, request.current_best as int), used.len() as int, plan, res)
        },
        r matches Err(BuildError::MedleySolver(e)) ==> exists|used: Seq<usize>, input: MedleySolverInput| {
            &&& #[trigger] lists_used_cards(request.candidates@, raw_kept_indices(request.candidates@, request.current_best as int), used)
            &&& raw_solver_input_matches(request.candidates@, request.current_best, raw_kept_indices(request.candidates@, request.current_best as int), used, input)
            &&& #[trigger] solve.ensures((&input, chosen_preference(request.solver_preference)), Err::<MedleyPlan, MedleySolverFailure>(e))
        },
{
    if request.candidates.len() == 0 {
        return Err(BuildError::EmptyCandidates);
    }
    if request.song_list.len() != 3 {
        return Err(BuildError::InvalidMedleySongCount { count: request.song_list.len() });
    }
    let ghost cands = request.candidates@;
    let indices = raw_medley_solver_candidate_indices(&request.candidates, request.current_best);
    let preference = preference_or_auto(request.solver_preference);
    let (input, used_card_count) = raw_candidate_solver_input_for_indices(&request.candidates, request.current_best, &indices);
    let ghost used = choose|used: Seq<usize>| lists_used_cards(cands, indices@, used) && used_card_count == used.len()
        && raw_solver_input_matches(cands, request.current_best, indices@, used, input);
    let plan = match solve(&input, preference) {
        Ok(plan) => plan,
        Err(e) => {
            proof {
                assert(lists_used_cards(cands, raw_kept_indices(cands, request.current_best as int), used));
                assert(solve.ensures((&input, chosen_preference(request.solver_preference)), Err::<MedleyPlan, MedleySolverFailure>(e)));
            }
            return Err(BuildError::MedleySolver(e));
        },
    };
    proof {
        assert(solve.ensures((&input, preference), Ok::<MedleyPlan, MedleySolverFailure>(plan)));
        assert(input.scores@.len() == indices@.len());
    }
    let mut total_stat: i32 = 0;
    let mut songs: Vec<SongBuildResult> = Vec::new();
    let mut song_idx: usize = 0;
    while song_idx < 3
        invariant
            song_idx <= 3,
            cands == request.candidates@,
            request.song_list@.len() == 3,
            forall|i: int| 0 <= i < cands.len() ==>
                raw_positions_valid(#[trigger] cands[i], request.card_ids@.len() as int, MEDLEY_TEAM_COUNT as int),
            forall|j: int| 0 <= j < indices@.len() ==> #[trigger] indices@[j] < cands.len(),
            plan_fits(plan, indices@.len() as int),
            songs@.len() == song_idx,
            forall|k: int| 0 <= k < song_idx ==> raw_song_matches(#[trigger] songs@[k], request.song_list@[k],
                cands[indices@[plan.indices[k] as int] as int], request.card_ids@, k),
            total_stat == (if song_idx == 0 { 0i32 } else if song_idx == 1 {
                0i32.wrapping_add(cands[indices@[plan.indices[0] as int] as int].stat)
            } else if song_idx == 2 {
                0i32.wrapping_add(cands[indices@[plan.indices[0] as int] as int].stat).wrapping_add(cands[indices@[plan.indices[1] as int] as int].stat)
            } else {
                0i32.wrapping_add(cands[indices@[plan.indices[0] as int] as int].stat).wrapping_add(cands[indices@[plan.indices[1] as int] as int].stat)
                    .wrapping_add(cands[indices@[plan.indices[2] as int] as int].stat)
            }),
        decreases 3 - song_idx,
    {
        let candidate_idx = indices[plan.indices[song_idx]];
        let candidate = &request.candidates[candidate_idx];
        total_stat = total_stat.wrapping_add(candidate.stat);
        songs.push(raw_song_result(&request.song_list[song_idx], candidate, &request.card_ids, song_idx));
        song_idx = song_idx + 1;
    }
    let res = BuildResult {
        event_id: request.event_id,
        event_type: EventType::Medley,
        total_score: plan.score,
        total_stat,
        songs,
        items: request.items,
        solver: Some(format_medley_solver(plan.implementation).to_owned()),
        medley_metrics: Some(MedleyCalculationMetrics {
            candidate_count: request.candidates.len(),
            solver_candidate_count: indices.len(),
            used_card_count: Some(used_card_count),
        }),
    };
    proof {
        assert(lists_used_cards(cands, raw_kept_indices(cands, request.current_best as int), used));
        assert(solve.ensures((&input, chosen_preference(request.solver_preference)), Ok::<MedleyPlan, MedleySolverFailure>(plan)));
        assert(raw_medley_result_matches(request, indices@, used.len() as int, plan, res));
    }
    Ok(res)
}

/// Raises the incumbent from the candidates found so far: when at least three candidates
/// pass the filter and the solver budget allows, `solve` (with `Auto`) runs on them and a
/// plan it finds raises the incumbent to its score. Otherwise the incumbent stays.
pub fn refresh_candidate_incumbent<F: Fn(&MedleySolverInput, MedleySolverPreference) -> Result<MedleyPlan, MedleySolverFailure>>(
    raw_candidates: &Vec<RawTeamCandidate>,
    current_best: i32,
    solve: F,
) -> (r: i32)
    requires
        forall|input: &MedleySolverInput, preference: MedleySolverPreference| #[trigger] solve.requires((input, preference)),
    ensures
        r >= current_best,
        ({
            let indices = raw_kept_indices(raw_candidates@, current_best as int);
            raw_candidates@.len() < 3 || indices.len() < 3 || indices.len() > INCUMBENT_REFRESH_MAX_SOLVER_CANDIDATES
        }) ==> r == current_best,
        ({
            let indices = raw_kept_indices(raw_candidates@, current_best as int);
            raw_candidates@.len() >= 3 && 3 <= indices.len() <= INCUMBENT_REFRESH_MAX_SOLVER_CANDIDATES
        }) ==> exists|used: Seq<usize>, input: MedleySolverInput, answer: Result<MedleyPlan, MedleySolverFailure>| {
            &&& #[trigger] lists_used_cards(raw_candidates@, raw_kept_indices(raw_candidates@, current_best as int), used)
            &&& raw_solver_input_matches(raw_candidates@, current_best, raw_kept_indices(raw_candidates@, current_best as int), used, input)
            &&& #[trigger] solve.ensures((&input, MedleySolverPreference::Auto), answer)
            &&& r == match answer {
                Ok(plan) => if plan.score > current_best { plan.score } else { current_best },
                Err(_) => current_best,
            }
        },
{
    if raw_candidates.len() < 3 {
        return current_best;
    }
    let indices = refresh_candidate_indices(raw_candidates, current_best);
    if indices.len() < 3 {
        return current_best;
    }
    if !incumbent_refresh_within_solver_budget(indices.len()) {
        return current_best;
    }
    let (input, used_card_count) = raw_candidate_solver_input_for_indices(raw_candidates, current_best, &indices);
    let ghost used = choose|used: Seq<usize>| lists_used_cards(raw_candidates@, indices@, used) && used_card_count == used.len()
        && raw_solver_input_matches(raw_candidates@, current_best, indices@, used, input);
    let answer = solve(&input, MedleySolverPreference::Auto);
    proof {
        assert(lists_used_cards(raw_candidates@, raw_kept_indices(raw_candidates@, current_best as int), used));
        assert(solve.ensures((&input, MedleySolverPreference::Auto), answer));
    }
    match answer {
        Ok(plan) => if plan.score > current_best { plan.score } else { current_best },
        Err(_) => current_best,
    }
}

/// The mask words of a card-id candidate: its single mask, or its words when it has them.
pub open spec fn mask_seq(tc: TeamCandidate) -> Seq<u64> {
    if tc.mask_words@.len() == 0 { seq![tc.mask] } else { tc.mask_words@ }
}

/// After compaction, two candidates' masks share a bit exactly when their teams share a card.
pub proof fn lemma_compacted_masks_overlap_iff_teams_overlap(
    candidates: Seq<RawTeamCandidate>,
    card_ids: Seq<u32>,
    chart_count: int,
    used: Seq<usize>,
    a: int,
    b: int,
    ta: TeamCandidate,
    tb: TeamCandidate,
)
    requires
        candidates.len() <= usize::MAX,
        0 <= a < candidates.len(),
        0 <= b < candidates.len(),
        lists_used_cards(candidates, all_indices(candidates.len() as int), used),
        compacted(candidates[a], card_ids, chart_count, used, ta),
        compacted(candidates[b], card_ids, chart_count, used, tb),
    ensures
        (exists|w: int, j: u64| 0 <= w < mask_seq(ta).len() && j < 64
            && #[trigger] bit(mask_seq(ta)[w], j) && bit(mask_seq(tb)[w], j))
            <==> !disjoint(candidates[a].raw_indices, candidates[b].raw_indices),
{
    let all = all_indices(candidates.len() as int);
    assert(all[a] == a as usize && all[b] == b as usize);
    assert forall|k: int| 0 <= k < TEAM_SIZE implies used.contains(#[trigger] candidates[a].raw_indices[k]) by {
        assert(used.contains(candidates[all[a] as int].raw_indices[k]));
    }
    assert forall|k: int| 0 <= k < TEAM_SIZE implies used.contains(#[trigger] candidates[b].raw_indices[k]) by {
        assert(used.contains(candidates[all[b] as int].raw_indices[k]));
    }
    lemma_masks_overlap_iff_teams_overlap(used, candidates[a].raw_indices, candidates[b].raw_indices, mask_seq(ta), mask_seq(tb));
}

/// What `refresh_candidate_incumbent` answers for the candidates and the incumbent.
pub open spec fn refresh_outcome<F>(cands: Seq<RawTeamCandidate>, best: i32, solve: F, r: i32) -> bool
    where F: Fn(&MedleySolverInput, MedleySolverPreference) -> Result<MedleyPlan, MedleySolverFailure>,
{
    let indices = raw_kept_indices(cands, best as int);
    &&& r >= best
    &&& (cands.len() < 3 || indices.len() < 3 || indices.len() > INCUMBENT_REFRESH_MAX_SOLVER_CANDIDATES) ==> r == best
    &&& (cands.len() >= 3 && 3 <= indices.len() <= INCUMBENT_REFRESH_MAX_SOLVER_CANDIDATES) ==>
        exists|used: Seq<usize>, input: MedleySolverInput, answer: Result<MedleyPlan, MedleySolverFailure>| {
            &&& #[trigger] lists_used_cards(cands, indices, used)
            &&& raw_solver_input_matches(cands, best, indices, used, input)
            &&& #[trigger] solve.ensures((&input, MedleySolverPreference::Auto), answer)
            &&& r == match answer {
                Ok(plan) => if plan.score > best { plan.score } else { best },
                Err(_) => best,
            }
        }
}

/// The candidate count at which the incumbent is refreshed next.
pub open spec fn next_refresh_spec(count: nat) -> int {
    cap_usize(if count >= INCUMBENT_REFRESH_MIN_CANDIDATES { 2 * count as int } else { count + INCUMBENT_REFRESH_MIN_CANDIDATES as int })
}

/// The candidates found so far, the incumbent, and the count at which it is refreshed next.
pub type PoolState = (Seq<RawTeamCandidate>, i32, usize);

/// What enumerating pool `k` does: `enumerate` is given the pool and the
/// incumbent and answers the pool's candidates, which are appended, or an
/// error; once enough candidates are found in a three-song medley with an
/// incumbent, the incumbent is refreshed by solving them.
pub open spec fn pool_step<E, F>(enumerate: E, solve: F, chart_count: usize, k: int, s0: PoolState, s1: PoolState,
    err: Option<TeamBuildError>) -> bool
    where
        E: Fn(usize, i32) -> Result<Vec<RawTeamCandidate>, TeamBuildError>,
        F: Fn(&MedleySolverInput, MedleySolverPreference) -> Result<MedleyPlan, MedleySolverFailure>,
{
    exists|answer: Result<Vec<RawTeamCandidate>, TeamBuildError>|
        #![trigger enumerate.ensures((k as usize, s0.1), answer)]
        enumerate.ensures((k as usize, s0.1), answer) && match answer {
            Err(e) => err == Some(e),
            Ok(found) => {
                let c = s0.0 + found@;
                &&& err is None
                &&& s1.0 == c
                &&& if s0.1 > 0 && chart_count == MEDLEY_TEAM_COUNT && c.len() >= s0.2 {
                    refresh_outcome(c, s0.1, solve, s1.1) && s1.2 as int == next_refresh_spec(c.len())
                } else {
                    s1.1 == s0.1 && s1.2 == s0.2
                }
            },
        }
}

/// How building the raw candidates went over `pool_count` pools: `states[k]`
/// is the state before pool `k`, and `stop` the pool it stopped at
/// (`pool_count` where every pool went through).
pub open spec fn pools_explained<E, F>(enumerate: E, solve: F, chart_count: usize, current_best: i32, pool_count: usize,
    states: Seq<PoolState>, stop: int, r: Result<Vec<RawTeamCandidate>, TeamBuildError>) -> bool
    where
        E: Fn(usize, i32) -> Result<Vec<RawTeamCandidate>, TeamBuildError>,
        F: Fn(&MedleySolverInput, MedleySolverPreference) -> Result<MedleyPlan, MedleySolverFailure>,
{
    &&& 0 <= stop <= pool_count
    &&& states.len() == stop + 1
    &&& states[0] == (Seq::<RawTeamCandidate>::empty(), current_best, INCUMBENT_REFRESH_MIN_CANDIDATES)
    &&& forall|k: int| 0 <= k < stop ==> #[trigger] pool_step(enumerate, solve, chart_count, k, states[k], states[k + 1], None)
    &&& stop < pool_count ==> (r matches Err(e) && pool_step(enumerate, solve, chart_count, stop, states[stop], states[stop], Some(e)))
    &&& stop == pool_count ==> if states[stop].0.len() == 0 {
        r == Err::<Vec<RawTeamCandidate>, TeamBuildError>(TeamBuildError::NotEnoughCards { count: 0 })
    } else {
        r matches Ok(v) && v@ == states[stop].0
    }
}

/// Builds the raw team candidates of a medley: too few cards fail first;
/// `prepare` then readies the card profiles and signature pools and answers
/// how many pools there are (none fails); each pool is enumerated in turn
/// with the current incumbent, which is refreshed by solving the candidates
/// found once there are enough of them; no candidate at all fails.
pub fn build_raw_team_candidates_with_current_best<P, E, F>(
    card_count: usize,
    chart_count: usize,
    current_best: i32,
    prepare: P,
    enumerate: E,
    solve: F,
) -> (r: Result<Vec<RawTeamCandidate>, TeamBuildError>)
    where
        P: Fn() -> Result<usize, TeamBuildError>,
        E: Fn(usize, i32) -> Result<Vec<RawTeamCandidate>, TeamBuildError>,
        F: Fn(&MedleySolverInput, MedleySolverPreference) -> Result<MedleyPlan, MedleySolverFailure>,
    requires
        prepare.requires(()),
        forall|k: usize, best: i32| #[trigger] enumerate.requires((k, best)),
        forall|input: &MedleySolverInput, preference: MedleySolverPreference| #[trigger] solve.requires((input, preference)),
    ensures
        card_count < TEAM_SIZE ==> r == Err::<Vec<RawTeamCandidate>, TeamBuildError>(TeamBuildError::NotEnoughCards { count: card_count }),
        card_count >= TEAM_SIZE ==> exists|prepared: Result<usize, TeamBuildError>| #[trigger] prepare.ensures((), prepared)
            && match prepared {
                Err(e) => r == Err::<Vec<RawTeamCandidate>, TeamBuildError>(e),
                Ok(pool_count) => if pool_count == 0 {
                    r == Err::<Vec<RawTeamCandidate>, TeamBuildError>(TeamBuildError::NotEnoughCards { count: 0 })
                } else {
                    exists|states: Seq<PoolState>, stop: int|
                        #[trigger] pools_explained(enumerate, solve, chart_count, current_best, pool_count, states, stop, r)
                },
            },
{
    if card_count < TEAM_SIZE {
        return Err(TeamBuildError::NotEnoughCards { count: card_count });
    }
    let prepared = prepare();
    let pool_count = match prepared {
        Ok(n) => n,
        Err(e) => return Err(e),
    };
    if pool_count == 0 {
        return Err(TeamBuildError::NotEnoughCards { count: 0 });
    }
    let mut raw: Vec<RawTeamCandidate> = Vec::new();
    let mut best = current_best;
    let mut next_at: usize = INCUMBENT_REFRESH_MIN_CANDIDATES;
    let ghost mut states: Seq<PoolState> = seq![(Seq::<RawTeamCandidate>::empty(), current_best, INCUMBENT_REFRESH_MIN_CANDIDATES)];
    let mut k: usize = 0;
    while k < pool_count
        invariant
            k <= pool_count,
            card_count >= TEAM_SIZE,
            pool_count > 0,
            prepare.ensures((), Ok::<usize, TeamBuildError>(pool_count)),
            states.len() == k + 1,
            states[0] == (Seq::<RawTeamCandidate>::empty(), current_best, INCUMBENT_REFRESH_MIN_CANDIDATES),
            forall|j: int| 0 <= j < k ==> #[trigger] pool_step(enumerate, solve, chart_count, j, states[j], states[j + 1], None),
            states[k as int] == (raw@, best, next_at),
            forall|k2: usize, b: i32| #[trigger] enumerate.requires((k2, b)),
            forall|input: &MedleySolverInput, preference: MedleySolverPreference| #[trigger] solve.requires((input, preference)),
        decreases pool_count - k,
    {
        let ghost s0 = states[k as int];
        let answer = enumerate(k, best);
        let ghost seen = answer;
        proof {
            assert(((k as int) as usize) == k);
            assert(enumerate.ensures(((k as int) as usize, s0.1), seen));
        }
        let mut found = match answer {
            Ok(f) => f,
            Err(e) => {
                let r = Err(e);
                proof {
                    assert(pool_step(enumerate, solve, chart_count, k as int, s0, s0, Some(e)));
                    assert(pools_explained(enumerate, solve, chart_count, current_best, pool_count, states, k as int, r));
                }
                return r;
            },
        };
        let ghost found_seq = found@;
        raw.append(&mut found);
        if should_refresh_candidate_incumbent(best, chart_count, raw.len(), next_at) {
            best = refresh_candidate_incumbent(&raw, best, &solve);
            next_at = next_incumbent_refresh_count(raw.len());
        }
        proof {
            let s1 = (raw@, best, next_at);
            assert(raw@ == s0.0 + found_seq);
            assert(pool_step(enumerate, solve, chart_count, k as int, s0, s1, None));
            let next = states.push(s1);
            assert forall|j: int| 0 <= j < k + 1 implies #[trigger] pool_step(enumerate, solve, chart_count, j, next[j],
                next[j + 1], None) by {
                if j < k {
                    assert(next[j] == states[j] && next[j + 1] == states[j + 1]);
                }
            }
            states = next;
        }
        k = k + 1;
    }
    let r = if raw.len() == 0 { Err(TeamBuildError::NotEnoughCards { count: 0 }) } else { Ok(raw) };
    proof {
        assert(pools_explained(enumerate, solve, chart_count, current_best, pool_count, states, pool_count as int, r));
    }
    r
}

} // verus!

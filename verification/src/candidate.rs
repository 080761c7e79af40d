//! Choosing teams from prebuilt candidates: validation, the solver's candidate filter,
//! its input masks, and the result built from the solver's plan.
use vstd::prelude::*;
use crate::model::{
    event_type_name, BuildResult, EventType, MedleyCalculationMetrics, SelectedAreaItems,
    SongBuildResult, SongSelection,
};

verus! {

/// One team with its score on each song.
#[derive(Debug, Clone, PartialEq, Eq)]
pub struct TeamCandidate {
    pub mask: u64,
    pub mask_words: Vec<u64>,
    pub team_card_ids: Vec<u32>,
    pub ordered_team_card_ids: Option<Vec<Vec<u32>>>,
    pub captain_card_ids: Vec<u32>,
    pub scores: Vec<i32>,
    pub stat: i32,
}

/// Which solver the caller prefers.
#[derive(Debug, Clone, Copy, PartialEq, Eq, Structural)]
pub enum MedleySolverPreference {
    Auto,
    Scalar,
    Avx2,
}

/// Which solver produced a plan.
#[derive(Debug, Clone, Copy, PartialEq, Eq, Structural)]
pub enum MedleySolverImplementation {
    Scalar,
    ScalarWide,
    RandomBucket,
    RandomBucketAvx2,
    Avx2,
    Avx2Wide,
    ScalarFallbackAvx2Unavailable,
    ScalarFallbackAvx2Unsupported,
}

/// Why the solver produced no plan.
#[derive(Debug, Clone, Copy, PartialEq, Eq, Structural)]
pub enum MedleySolverFailure {
    NoValidPlan,
    Failed,
}

/// Masks of the teams handed to the solver: one word per team, or several.
#[derive(Debug, Clone, PartialEq, Eq)]
pub enum TeamMasks {
    Narrow(Vec<u64>),
    Wide(Vec<Vec<u64>>),
}

/// What the medley solver is asked: the teams that can still beat `current_best`.
#[derive(Debug, Clone, PartialEq, Eq)]
pub struct MedleySolverInput {
    pub current_best: i32,
    pub team_masks: TeamMasks,
    pub scores: Vec<[i32; 3]>,
}

/// The solver's answer: the chosen team for each song, by position in the solver's input.
#[derive(Debug, Clone, Copy, PartialEq, Eq)]
pub struct MedleyPlan {
    pub score: i32,
    pub indices: [usize; 3],
    pub implementation: MedleySolverImplementation,
}

/// A request to pick teams from candidates.
#[derive(Debug, Clone, PartialEq, Eq)]
pub struct CandidateBuildRequest {
    pub event_id: u32,
    pub event_type: EventType,
    pub song_list: Vec<SongSelection>,
    pub candidates: Vec<TeamCandidate>,
    pub current_best: i32,
    pub solver_preference: Option<MedleySolverPreference>,
    pub items: Option<SelectedAreaItems>,
}

/// Why candidates could not be turned into a result.
#[derive(Debug, Clone, PartialEq, Eq)]
pub enum BuildError {
    EmptyCandidates,
    UnsupportedEventType { event_type: String },
    InvalidMedleySongCount { count: usize },
    CandidateSongCountMismatch { candidate_id: usize, expected: usize, actual: usize },
    MedleySolver(MedleySolverFailure),
}

/// The index of the first candidate whose score count differs from `expected`, if any.
pub open spec fn first_mismatch(candidates: Seq<TeamCandidate>, expected: int, from: int) -> Option<int>
    decreases candidates.len() - from,
{
    if from >= candidates.len() || from < 0 {
        None
    } else if candidates[from].scores@.len() != expected {
        Some(from)
    } else {
        first_mismatch(candidates, expected, from + 1)
    }
}

/// Every candidate has exactly `expected` scores.
proof fn lemma_no_mismatch(candidates: Seq<TeamCandidate>, expected: int, from: int)
    requires
        0 <= from,
        first_mismatch(candidates, expected, from) is None,
    ensures
        forall|c: int| from <= c < candidates.len() ==> #[trigger] candidates[c].scores@.len() == expected,
    decreases candidates.len() - from,
{
    if from < candidates.len() {
        lemma_no_mismatch(candidates, expected, from + 1);
    }
}

/// Checks that there are candidates and that each has one score per song.
pub fn validate_candidates(request: &CandidateBuildRequest) -> (r: Result<(), BuildError>)
    ensures
        request.candidates@.len() == 0 ==> r == Err::<(), BuildError>(BuildError::EmptyCandidates),
        request.candidates@.len() > 0 ==> match first_mismatch(request.candidates@, request.song_list@.len() as int, 0) {
            Some(c) => r == Err::<(), BuildError>(BuildError::CandidateSongCountMismatch {
                candidate_id: c as usize,
                expected: request.song_list@.len() as usize,
                actual: request.candidates@[c].scores@.len() as usize,
            }),
            None => r == Ok::<(), BuildError>(()),
        },
{
    if request.candidates.len() == 0 {
        return Err(BuildError::EmptyCandidates);
    }
    let expected = request.song_list.len();
    let mut idx: usize = 0;
    while idx < request.candidates.len()
        invariant
            idx <= request.candidates@.len(),
            expected == request.song_list@.len(),
            first_mismatch(request.candidates@, expected as int, 0) == first_mismatch(request.candidates@, expected as int, idx as int),
        decreases request.candidates@.len() - idx,
    {
        if request.candidates[idx].scores.len() != expected {
            return Err(BuildError::CandidateSongCountMismatch {
                candidate_id: idx,
                expected,
                actual: request.candidates[idx].scores.len(),
            });
        }
        idx = idx + 1;
    }
    Ok(())
}

/// Every candidate has at least three scores.
pub open spec fn has_three_scores(candidates: Seq<TeamCandidate>) -> bool {
    forall|c: int| 0 <= c < candidates.len() ==> #[trigger] candidates[c].scores@.len() >= 3
}

/// Highest score on `song` among the first `k` candidates, 0 when `k` is 0.
pub open spec fn max_score_prefix(candidates: Seq<TeamCandidate>, song: int, k: int) -> int
    decreases k,
{
    if k <= 0 {
        0
    } else if k == 1 {
        candidates[0].scores@[song] as int
    } else {
        let rest = max_score_prefix(candidates, song, k - 1);
        let x = candidates[k - 1].scores@[song] as int;
        if x > rest { x } else { rest }
    }
}

/// Highest score on `song` among all candidates, 0 when there is none.
pub open spec fn max_score(candidates: Seq<TeamCandidate>, song: int) -> int {
    max_score_prefix(candidates, song, candidates.len() as int)
}

proof fn lemma_max_score_prefix_bounds(candidates: Seq<TeamCandidate>, song: int, k: int)
    requires
        0 <= song < 3,
        0 <= k <= candidates.len(),
        has_three_scores(candidates),
    ensures
        forall|c: int| 0 <= c < k ==> #[trigger] candidates[c].scores@[song] <= max_score_prefix(candidates, song, k),
        k > 0 ==> i32::MIN <= max_score_prefix(candidates, song, k) <= i32::MAX,
    decreases k,
{
    if k > 1 {
        lemma_max_score_prefix_bounds(candidates, song, k - 1);
    }
}

/// A candidate can still be part of a plan beating `current_best` on one of the songs,
/// taking the best score of the other two songs.
pub open spec fn may_beat(candidates: Seq<TeamCandidate>, c: int, current_best: int) -> bool {
    let s = candidates[c].scores@;
    ||| s[0] + max_score(candidates, 1) + max_score(candidates, 2) > current_best
    ||| s[1] + max_score(candidates, 2) + max_score(candidates, 0) > current_best
    ||| s[2] + max_score(candidates, 0) + max_score(candidates, 1) > current_best
}

/// The indices among the first `k` candidates that may beat `current_best`, in order.
pub open spec fn kept_indices(candidates: Seq<TeamCandidate>, current_best: int, k: int) -> Seq<usize>
    decreases k,
{
    if k <= 0 {
        Seq::empty()
    } else if may_beat(candidates, k - 1, current_best) {
        kept_indices(candidates, current_best, k - 1).push((k - 1) as usize)
    } else {
        kept_indices(candidates, current_best, k - 1)
    }
}

proof fn lemma_kept_indices_contains(candidates: Seq<TeamCandidate>, current_best: int, k: int, c: int)
    requires
        0 <= c < k,
        may_beat(candidates, c, current_best),
    ensures
        kept_indices(candidates, current_best, k).contains(c as usize),
    decreases k,
{
    if c < k - 1 {
        lemma_kept_indices_contains(candidates, current_best, k - 1, c);
        if may_beat(candidates, k - 1, current_best) {
            let prev = kept_indices(candidates, current_best, k - 1);
            let j = choose|j: int| 0 <= j < prev.len() && prev[j] == c as usize;
            assert(prev.push((k - 1) as usize)[j] == c as usize);
        }
    } else {
        let prev = kept_indices(candidates, current_best, k - 1);
        assert(prev.push((k - 1) as usize)[prev.len() as int] == c as usize);
    }
}

/// Highest score on `song` over the candidates, 0 when there is none.
fn max_score_exec(candidates: &Vec<TeamCandidate>, song: usize) -> (r: i32)
    requires
        song < 3,
        has_three_scores(candidates@),
    ensures
        r as int == max_score(candidates@, song as int),
{
    let mut best: i32 = 0;
    let mut i: usize = 0;
    while i < candidates.len()
        invariant
            i <= candidates@.len(),
            song < 3,
            has_three_scores(candidates@),
            best as int == max_score_prefix(candidates@, song as int, i as int),
        decreases candidates@.len() - i,
    {
        let x = candidates[i].scores[song];
        if i == 0 || x > best {
            best = x;
        }
        i = i + 1;
    }
    best
}

/// The candidates that may still be part of a plan beating `current_best`: those whose score
/// on some song, plus the best scores on the other two songs, exceeds it.
pub fn medley_solver_candidate_indices(candidates: &Vec<TeamCandidate>, current_best: i32) -> (r: Vec<usize>)
    requires
        has_three_scores(candidates@),
    ensures
        r@ == kept_indices(candidates@, current_best as int, candidates@.len() as int),
        forall|k: int| 0 <= k < r@.len() ==> #[trigger] r@[k] < candidates@.len(),
        forall|a: int, b: int, c: int|
            0 <= a < candidates@.len() && 0 <= b < candidates@.len() && 0 <= c < candidates@.len()
            && #[trigger] candidates@[a].scores@[0] + #[trigger] candidates@[b].scores@[1] + #[trigger] candidates@[c].scores@[2] > current_best
            ==> r@.contains(a as usize) && r@.contains(b as usize) && r@.contains(c as usize),
{
    let m0 = max_score_exec(candidates, 0);
    let m1 = max_score_exec(candidates, 1);
    let m2 = max_score_exec(candidates, 2);
    let mut out: Vec<usize> = Vec::new();
    let mut i: usize = 0;
    while i < candidates.len()
        invariant
            i <= candidates@.len(),
            has_three_scores(candidates@),
            m0 as int == max_score(candidates@, 0),
            m1 as int == max_score(candidates@, 1),
            m2 as int == max_score(candidates@, 2),
            out@ == kept_indices(candidates@, current_best as int, i as int),
            forall|k: int| 0 <= k < out@.len() ==> #[trigger] out@[k] < i,
        decreases candidates@.len() - i,
    {
        let s = &candidates[i].scores;
        let best = current_best as i64;
        let keep = (s[0] as i64) + (m1 as i64) + (m2 as i64) > best
            || (s[1] as i64) + (m2 as i64) + (m0 as i64) > best
            || (s[2] as i64) + (m0 as i64) + (m1 as i64) > best;
        if keep {
            out.push(i);
        }
        i = i + 1;
    }
    proof {
        let cands = candidates@;
        let n = cands.len() as int;
        lemma_max_score_prefix_bounds(cands, 0, n);
        lemma_max_score_prefix_bounds(cands, 1, n);
        lemma_max_score_prefix_bounds(cands, 2, n);
        assert forall|a: int, b: int, c: int|
            0 <= a < n && 0 <= b < n && 0 <= c < n
            && #[trigger] cands[a].scores@[0] + #[trigger] cands[b].scores@[1] + #[trigger] cands[c].scores@[2] > current_best
            implies out@.contains(a as usize) && out@.contains(b as usize) && out@.contains(c as usize) by {
            lemma_kept_indices_contains(cands, current_best as int, n, a);
            lemma_kept_indices_contains(cands, current_best as int, n, b);
            lemma_kept_indices_contains(cands, current_best as int, n, c);
        }
    }
    out
}

/// Whether some candidate carries its mask in several words.
pub fn candidates_use_wide_masks(candidates: &Vec<TeamCandidate>) -> (r: bool)
    ensures
        r == exists|c: int| 0 <= c < candidates@.len() && #[trigger] candidates@[c].mask_words@.len() > 0,
{
    let mut i: usize = 0;
    while i < candidates.len()
        invariant
            i <= candidates@.len(),
            forall|c: int| 0 <= c < i ==> #[trigger] candidates@[c].mask_words@.len() == 0,
        decreases candidates@.len() - i,
    {
        if candidates[i].mask_words.len() != 0 {
            return true;
        }
        i = i + 1;
    }
    false
}

/// Number of mask words a candidate needs: its word list, or one word when its single mask is set.
pub open spec fn words_needed(candidate: TeamCandidate) -> int {
    let w = candidate.mask_words@.len() as int;
    let single: int = if candidate.mask != 0 { 1 } else { 0 };
    if w > single { w } else { single }
}

/// The number of words every wide mask gets: the most any candidate needs, at least one.
pub open spec fn wide_word_count(candidates: Seq<TeamCandidate>, k: int) -> int
    decreases k,
{
    if k <= 0 {
        1
    } else {
        let rest = wide_word_count(candidates, k - 1);
        let x = words_needed(candidates[k - 1]);
        if x > rest { x } else { rest }
    }
}

/// The number of words every wide mask gets: the most any candidate needs, at least one.
pub fn candidate_wide_mask_word_count(candidates: &Vec<TeamCandidate>) -> (r: usize)
    ensures
        r as int == wide_word_count(candidates@, candidates@.len() as int),
        r >= 1,
{
    let mut count: usize = 1;
    let mut i: usize = 0;
    while i < candidates.len()
        invariant
            i <= candidates@.len(),
            count as int == wide_word_count(candidates@, i as int),
            count >= 1,
        decreases candidates@.len() - i,
    {
        let single: usize = if candidates[i].mask != 0 { 1 } else { 0 };
        let w = candidates[i].mask_words.len();
        let needed = if w > single { w } else { single };
        if needed > count {
            count = needed;
        }
        i = i + 1;
    }
    count
}

/// A candidate's mask as `word_count` words: its single mask in the first word, or its
/// words cut or padded with zeros.
pub open spec fn wide_mask_spec(candidate: TeamCandidate, word_count: int) -> Seq<u64> {
    if candidate.mask_words@.len() == 0 {
        Seq::new(word_count as nat, |k: int| if k == 0 { candidate.mask } else { 0u64 })
    } else {
        Seq::new(word_count as nat, |k: int| if k < candidate.mask_words@.len() { candidate.mask_words@[k] } else { 0u64 })
    }
}

/// A candidate's mask as `word_count` words.
pub fn candidate_wide_mask(candidate: &TeamCandidate, word_count: usize) -> (r: Vec<u64>)
    requires
        word_count >= 1,
    ensures
        r@ == wide_mask_spec(*candidate, word_count as int),
{
    let mut words: Vec<u64> = Vec::new();
    let mut k: usize = 0;
    while k < word_count
        invariant
            k <= word_count,
            words@ =~= wide_mask_spec(*candidate, word_count as int).subrange(0, k as int),
        decreases word_count - k,
    {
        let value = if candidate.mask_words.len() == 0 {
            if k == 0 { candidate.mask } else { 0 }
        } else if k < candidate.mask_words.len() {
            candidate.mask_words[k]
        } else {
            0
        };
        words.push(value);
        k = k + 1;
    }
    proof {
        assert(words@ =~= wide_mask_spec(*candidate, word_count as int));
    }
    words
}

/// The team card ids shown for `song_idx`: the ordered team when there is one for that song.
pub open spec fn shown_team_ids(candidate: TeamCandidate, song_idx: int) -> Seq<u32> {
    match candidate.ordered_team_card_ids {
        Some(teams) => if song_idx < teams@.len() { teams@[song_idx]@ } else { candidate.team_card_ids@ },
        None => candidate.team_card_ids@,
    }
}

/// The captain shown for `song_idx`: its own captain, else the first card, else 0.
pub open spec fn shown_captain(candidate: TeamCandidate, song_idx: int) -> u32 {
    if song_idx < candidate.captain_card_ids@.len() {
        candidate.captain_card_ids@[song_idx]
    } else if candidate.team_card_ids@.len() > 0 {
        candidate.team_card_ids@[0]
    } else {
        0
    }
}

fn copy_ids(ids: &Vec<u32>) -> (r: Vec<u32>)
    ensures
        r@ == ids@,
{
    let mut out: Vec<u32> = Vec::new();
    let mut i: usize = 0;
    while i < ids.len()
        invariant
            i <= ids@.len(),
            out@ =~= ids@.subrange(0, i as int),
        decreases ids@.len() - i,
    {
        out.push(ids[i]);
        i = i + 1;
    }
    proof {
        assert(out@ =~= ids@);
    }
    out
}

/// The result of one song played by a candidate.
pub fn song_result(song: &SongSelection, candidate: &TeamCandidate, song_idx: usize) -> (r: SongBuildResult)
    requires
        song_idx < candidate.scores@.len(),
    ensures
        r.song_id == song.song_id,
        r.difficulty == song.difficulty,
        r.score == candidate.scores@[song_idx as int],
        r.stat == candidate.stat,
        r.team_card_ids@ == shown_team_ids(*candidate, song_idx as int),
        r.captain_card_id == shown_captain(*candidate, song_idx as int),
{
    let team_card_ids = match &candidate.ordered_team_card_ids {
        Some(teams) => if song_idx < teams.len() { copy_ids(&teams[song_idx]) } else { copy_ids(&candidate.team_card_ids) },
        None => copy_ids(&candidate.team_card_ids),
    };
    let captain_card_id = if song_idx < candidate.captain_card_ids.len() {
        candidate.captain_card_ids[song_idx]
    } else if candidate.team_card_ids.len() > 0 {
        candidate.team_card_ids[0]
    } else {
        0
    };
    SongBuildResult {
        song_id: song.song_id,
        difficulty: song.difficulty,
        score: candidate.scores[song_idx],
        stat: candidate.stat,
        team_card_ids,
        captain_card_id,
    }
}

/// The name of a solver implementation.
pub fn format_medley_solver(implementation: MedleySolverImplementation) -> (r: &'static str)
    ensures
        r@ == solver_name(implementation),
{
    match implementation {
        MedleySolverImplementation::Scalar => "scalar",
        MedleySolverImplementation::ScalarWide => "scalarWide",
        MedleySolverImplementation::RandomBucket => "randomBucket",
        MedleySolverImplementation::RandomBucketAvx2 => "randomBucketAvx2",
        MedleySolverImplementation::Avx2 => "avx2",
        MedleySolverImplementation::Avx2Wide => "avx2Wide",
        MedleySolverImplementation::ScalarFallbackAvx2Unavailable => "scalarFallbackAvx2Unavailable",
        MedleySolverImplementation::ScalarFallbackAvx2Unsupported => "scalarFallbackAvx2Unsupported",
    }
}

/// The name of a solver implementation.
pub open spec fn solver_name(implementation: MedleySolverImplementation) -> Seq<char> {
    match implementation {
        MedleySolverImplementation::Scalar => "scalar"@,
        MedleySolverImplementation::ScalarWide => "scalarWide"@,
        MedleySolverImplementation::RandomBucket => "randomBucket"@,
        MedleySolverImplementation::RandomBucketAvx2 => "randomBucketAvx2"@,
        MedleySolverImplementation::Avx2 => "avx2"@,
        MedleySolverImplementation::Avx2Wide => "avx2Wide"@,
        MedleySolverImplementation::ScalarFallbackAvx2Unavailable => "scalarFallbackAvx2Unavailable"@,
        MedleySolverImplementation::ScalarFallbackAvx2Unsupported => "scalarFallbackAvx2Unsupported"@,
    }
}

/// Scores of the candidates at `indices`, three per team.
pub open spec fn solver_scores_spec(candidates: Seq<TeamCandidate>, indices: Seq<usize>) -> Seq<[i32; 3]> {
    Seq::new(indices.len(), |k: int| {
        let s = candidates[indices[k] as int].scores@;
        [s[0], s[1], s[2]]
    })
}

/// The solver input of a medley request: the kept candidates' scores and masks, wide masks
/// when some candidate needs several words.
pub open spec fn solver_input_matches(request: CandidateBuildRequest, input: MedleySolverInput) -> bool {
    let cands = request.candidates@;
    let indices = kept_indices(cands, request.current_best as int, cands.len() as int);
    let wide = exists|c: int| 0 <= c < cands.len() && #[trigger] cands[c].mask_words@.len() > 0;
    let word_count = wide_word_count(cands, cands.len() as int);
    &&& input.current_best == request.current_best
    &&& input.scores@ == solver_scores_spec(cands, indices)
    &&& match input.team_masks {
        TeamMasks::Wide(ws) => wide && ws@.len() == indices.len() && forall|k: int|
            0 <= k < indices.len() ==> (#[trigger] ws@[k])@ == wide_mask_spec(cands[indices[k] as int], word_count),
        TeamMasks::Narrow(ns) => !wide && ns@ == Seq::new(indices.len(), |k: int| cands[indices[k] as int].mask),
    }
}

/// The solver input and the candidate index behind each of its teams.
pub fn medley_solver_input(request: &CandidateBuildRequest) -> (r: (MedleySolverInput, Vec<usize>))
    requires
        has_three_scores(request.candidates@),
    ensures
        r.1@ == kept_indices(request.candidates@, request.current_best as int, request.candidates@.len() as int),
        forall|j: int| 0 <= j < r.1@.len() ==> #[trigger] r.1@[j] < request.candidates@.len(),
        solver_input_matches(*request, r.0),
{
    let ghost cands = request.candidates@;
    let indices = medley_solver_candidate_indices(&request.candidates, request.current_best);
    let mut scores: Vec<[i32; 3]> = Vec::new();
    let mut k: usize = 0;
    while k < indices.len()
        invariant
            k <= indices@.len(),
            cands == request.candidates@,
            has_three_scores(cands),
            forall|j: int| 0 <= j < indices@.len() ==> #[trigger] indices@[j] < cands.len(),
            scores@ =~= solver_scores_spec(cands, indices@).subrange(0, k as int),
        decreases indices@.len() - k,
    {
        let s = &request.candidates[indices[k]].scores;
        scores.push([s[0], s[1], s[2]]);
        k = k + 1;
    }
    proof { assert(scores@ =~= solver_scores_spec(cands, indices@)); }
    let team_masks = if candidates_use_wide_masks(&request.candidates) {
        let word_count = candidate_wide_mask_word_count(&request.candidates);
        let mut masks: Vec<Vec<u64>> = Vec::new();
        let mut k: usize = 0;
        while k < indices.len()
            invariant
                k <= indices@.len(),
                cands == request.candidates@,
                word_count >= 1,
                word_count as int == wide_word_count(cands, cands.len() as int),
                forall|j: int| 0 <= j < indices@.len() ==> #[trigger] indices@[j] < cands.len(),
                masks@.len() == k,
                forall|j: int| 0 <= j < k ==> (#[trigger] masks@[j])@ == wide_mask_spec(cands[indices@[j] as int], word_count as int),
            decreases indices@.len() - k,
        {
            masks.push(candidate_wide_mask(&request.candidates[indices[k]], word_count));
            k = k + 1;
        }
        TeamMasks::Wide(masks)
    } else {
        let mut masks: Vec<u64> = Vec::new();
        let mut k: usize = 0;
        while k < indices.len()
            invariant
                k <= indices@.len(),
                cands == request.candidates@,
                forall|j: int| 0 <= j < indices@.len() ==> #[trigger] indices@[j] < cands.len(),
                masks@ =~= Seq::new(indices@.len(), |j: int| cands[indices@[j] as int].mask).subrange(0, k as int),
            decreases indices@.len() - k,
        {
            masks.push(request.candidates[indices[k]].mask);
            k = k + 1;
        }
        proof { assert(masks@ =~= Seq::new(indices@.len(), |j: int| cands[indices@[j] as int].mask)); }
        TeamMasks::Narrow(masks)
    };
    (MedleySolverInput { current_best: request.current_best, team_masks, scores }, indices)
}

/// Every team a plan names is in the solver's input.
pub open spec fn plan_fits(plan: MedleyPlan, team_count: int) -> bool {
    plan.indices[0] < team_count && plan.indices[1] < team_count && plan.indices[2] < team_count
}

/// A song result is the one a candidate gives on song `k`.
pub open spec fn song_matches(result: SongBuildResult, song: SongSelection, candidate: TeamCandidate, k: int) -> bool {
    &&& result.song_id == song.song_id
    &&& result.difficulty == song.difficulty
    &&& result.score == candidate.scores@[k]
    &&& result.stat == candidate.stat
    &&& result.team_card_ids@ == shown_team_ids(candidate, k)
    &&& result.captain_card_id == shown_captain(candidate, k)
}

/// The medley result of a plan: the chosen candidates' results per song, the plan's score,
/// and the sum of their stats as `i32` arithmetic wraps it.
pub open spec fn medley_result_matches(request: CandidateBuildRequest, indices: Seq<usize>, plan: MedleyPlan, result: BuildResult) -> bool {
    let cands = request.candidates@;
    let c0 = cands[indices[plan.indices[0] as int] as int];
    let c1 = cands[indices[plan.indices[1] as int] as int];
    let c2 = cands[indices[plan.indices[2] as int] as int];
    &&& result.event_id == request.event_id
    &&& result.event_type == request.event_type
    &&& result.total_score == plan.score
    &&& result.total_stat == 0i32.wrapping_add(c0.stat).wrapping_add(c1.stat).wrapping_add(c2.stat)
    &&& result.songs@.len() == 3
    &&& song_matches(result.songs@[0], request.song_list@[0], c0, 0)
    &&& song_matches(result.songs@[1], request.song_list@[1], c1, 1)
    &&& song_matches(result.songs@[2], request.song_list@[2], c2, 2)
    &&& result.items == request.items
    &&& (result.solver matches Some(name) && name@ == solver_name(plan.implementation))
    &&& result.medley_metrics == Some(MedleyCalculationMetrics {
        candidate_count: cands.len() as usize,
        solver_candidate_count: indices.len() as usize,
        used_card_count: None,
    })
}

/// Builds the medley result from the solver's plan.
pub fn medley_result_from_plan(request: CandidateBuildRequest, indices: &Vec<usize>, plan: MedleyPlan) -> (r: BuildResult)
    requires
        request.song_list@.len() == 3,
        has_three_scores(request.candidates@),
        forall|j: int| 0 <= j < indices@.len() ==> #[trigger] indices@[j] < request.candidates@.len(),
        plan_fits(plan, indices@.len() as int),
    ensures
        medley_result_matches(request, indices@, plan, r),
{
    let mut total_stat: i32 = 0;
    let mut songs: Vec<SongBuildResult> = Vec::new();
    let mut song_idx: usize = 0;
    let ghost cands = request.candidates@;
    while song_idx < 3
        invariant
            song_idx <= 3,
            cands == request.candidates@,
            request.song_list@.len() == 3,
            has_three_scores(cands),
            forall|j: int| 0 <= j < indices@.len() ==> #[trigger] indices@[j] < cands.len(),
            plan_fits(plan, indices@.len() as int),
            songs@.len() == song_idx,
            forall|k: int| 0 <= k < song_idx ==> song_matches(#[trigger] songs@[k], request.song_list@[k],
                cands[indices@[plan.indices[k] as int] as int], k),
            total_stat == (if song_idx == 0 { 0i32 } else if song_idx == 1 {
                0i32.wrapping_add(cands[indices@[plan.indices[0] as int] as int].stat)
            } else if song_idx == 2 {
                0i32.wrapping_add(cands[indices@[plan.indices[0] as int] as int].stat).wrapping_add(cands[indices@[plan.indices[1] as int] as int].stat)
            } else {
                0i32.wrapping_add(cands[indices@[plan.indices[0] as int] as int].stat).wrapping_add(cands[indices@[plan.indices[1] as int] as int].stat)
                    .wrapping_add(cands[indices@[plan.indices[2] as int] as int].stat)
            }),
        decreases 3 - song_idx,
    {
        let candidate_idx = indices[plan.indices[song_idx]];
        let candidate = &request.candidates[candidate_idx];
        total_stat = total_stat.wrapping_add(candidate.stat);
        songs.push(song_result(&request.song_list[song_idx], candidate, song_idx));
        song_idx = song_idx + 1;
    }
    BuildResult {
        event_id: request.event_id,
        event_type: request.event_type,
        total_score: plan.score,
        total_stat,
        songs,
        items: request.items,
        solver: Some(format_medley_solver(plan.implementation).to_owned()),
        medley_metrics: Some(MedleyCalculationMetrics {
            candidate_count: request.candidates.len(),
            solver_candidate_count: indices.len(),
            used_card_count: None,
        }),
    }
}

/// The candidate a single-song event picks: the last one with the highest first score.
pub open spec fn is_last_best(candidates: Seq<TeamCandidate>, c: int) -> bool {
    &&& 0 <= c < candidates.len()
    &&& forall|j: int| 0 <= j < candidates.len() ==> #[trigger] candidates[j].scores@[0] <= candidates[c].scores@[0]
    &&& forall|j: int| c < j < candidates.len() ==> #[trigger] candidates[j].scores@[0] < candidates[c].scores@[0]
}

/// The result of a single-song event: the last candidate with the highest score on the song.
pub fn calculate_single_team(request: CandidateBuildRequest) -> (r: Result<BuildResult, BuildError>)
    requires
        request.song_list@.len() >= 1,
        forall|c: int| 0 <= c < request.candidates@.len() ==> #[trigger] request.candidates@[c].scores@.len() >= 1,
    ensures
        request.candidates@.len() == 0 ==> r == Err::<BuildResult, BuildError>(BuildError::EmptyCandidates),
        request.candidates@.len() > 0 ==> (r matches Ok(res) && exists|c: int| #[trigger] is_last_best(request.candidates@, c) && {
            &&& res.event_id == request.event_id
            &&& res.event_type == request.event_type
            &&& res.total_score == request.candidates@[c].scores@[0]
            &&& res.total_stat == request.candidates@[c].stat
            &&& res.songs@.len() == 1
            &&& song_matches(res.songs@[0], request.song_list@[0], request.candidates@[c], 0)
            &&& res.items == request.items
            &&& res.solver is None
            &&& res.medley_metrics is None
        }),
{
    if request.candidates.len() == 0 {
        return Err(BuildError::EmptyCandidates);
    }
    let mut best: usize = 0;
    let mut i: usize = 1;
    while i < request.candidates.len()
        invariant
            1 <= i <= request.candidates@.len(),
            best < i,
            forall|c: int| 0 <= c < request.candidates@.len() ==> #[trigger] request.candidates@[c].scores@.len() >= 1,
            forall|j: int| 0 <= j < i ==> #[trigger] request.candidates@[j].scores@[0] <= request.candidates@[best as int].scores@[0],
            forall|j: int| best < j < i ==> #[trigger] request.candidates@[j].scores@[0] < request.candidates@[best as int].scores@[0],
        decreases request.candidates@.len() - i,
    {
        if request.candidates[i].scores[0] >= request.candidates[best].scores[0] {
            best = i;
        }
        i = i + 1;
    }
    let candidate = &request.candidates[best];
    let song = song_result(&request.song_list[0], candidate, 0);
    let res = BuildResult {
        event_id: request.event_id,
        event_type: request.event_type,
        total_score: candidate.scores[0],
        total_stat: candidate.stat,
        songs: vec![song],
        items: request.items,
        solver: None,
        medley_metrics: None,
    };
    proof { assert(is_last_best(request.candidates@, best as int)); }
    Ok(res)
}

/// The solver preference of a request: `Auto` unless one is given.
pub open spec fn chosen_preference(preference: Option<MedleySolverPreference>) -> MedleySolverPreference {
    match preference {
        Some(p) => p,
        None => MedleySolverPreference::Auto,
    }
}

/// The solver preference of a request: `Auto` unless one is given.
pub fn preference_or_auto(preference: Option<MedleySolverPreference>) -> (r: MedleySolverPreference)
    ensures
        r == chosen_preference(preference),
{
    match preference {
        Some(p) => p,
        None => MedleySolverPreference::Auto,
    }
}

/// Whether the event's teams can be chosen from candidates (festival and cooperative events cannot).
pub open spec fn candidate_event_supported(event_type: EventType) -> bool {
    event_type == EventType::Medley || event_type == EventType::Versus || event_type == EventType::Challenge
}

/// Picks teams from prebuilt candidates. A medley hands the kept candidates to `solve` and
/// builds the result from its plan; a single-song event takes the best candidate.
pub fn calculate_from_candidates<F: Fn(&MedleySolverInput, MedleySolverPreference) -> Result<MedleyPlan, MedleySolverFailure>>(
    request: CandidateBuildRequest,
    solve: F,
) -> (r: Result<BuildResult, BuildError>)
    requires
        forall|input: &MedleySolverInput, preference: MedleySolverPreference| #[trigger] solve.requires((input, preference)),
        forall|input: &MedleySolverInput, preference: MedleySolverPreference, plan: MedleyPlan|
            #[trigger] solve.ensures((input, preference), Ok(plan)) ==> plan_fits(plan, input.scores@.len() as int),
        // a single-song event whose candidates all have empty score lists, with no song, has no
        // score to read
        !(request.event_type != EventType::Medley && candidate_event_supported(request.event_type)
            && request.candidates@.len() > 0 && request.song_list@.len() == 0
            && first_mismatch(request.candidates@, 0, 0) is None),
    ensures
        !candidate_event_supported(request.event_type) ==> (r matches Err(BuildError::UnsupportedEventType { event_type })
            && event_type@ == event_type_name(request.event_type)),
        candidate_event_supported(request.event_type) && request.candidates@.len() == 0 ==>
            r == Err::<BuildResult, BuildError>(BuildError::EmptyCandidates),
        candidate_event_supported(request.event_type) && request.candidates@.len() > 0 ==>
            (first_mismatch(request.candidates@, request.song_list@.len() as int, 0) matches Some(c) ==>
                r == Err::<BuildResult, BuildError>(BuildError::CandidateSongCountMismatch {
                    candidate_id: c as usize,
                    expected: request.song_list@.len() as usize,
                    actual: request.candidates@[c].scores@.len() as usize,
                })),
        request.event_type == EventType::Medley && request.candidates@.len() > 0
            && first_mismatch(request.candidates@, request.song_list@.len() as int, 0) is None
            && request.song_list@.len() != 3 ==>
            r == Err::<BuildResult, BuildError>(BuildError::InvalidMedleySongCount { count: request.song_list@.len() as usize }),
        request.event_type == EventType::Medley && r is Ok ==> exists|input: MedleySolverInput, plan: MedleyPlan|
            solver_input_matches(request, input)
            && #[trigger] solve.ensures((&input, chosen_preference(request.solver_preference)), Ok::<MedleyPlan, MedleySolverFailure>(plan))
            && medley_result_matches(request, kept_indices(request.candidates@, request.current_best as int,
                request.candidates@.len() as int), plan, r->Ok_0),
        request.event_type == EventType::Medley ==> (r matches Err(BuildError::MedleySolver(e)) ==>
            exists|input: MedleySolverInput| solver_input_matches(request, input)
                && #[trigger] solve.ensures((&input, chosen_preference(request.solver_preference)), Err::<MedleyPlan, MedleySolverFailure>(e))),
        request.event_type == EventType::Medley && first_mismatch(request.candidates@, request.song_list@.len() as int, 0) is None
            && request.candidates@.len() > 0 && request.song_list@.len() == 3 ==>
            (r is Ok || r matches Err(BuildError::MedleySolver(_))),
        (request.event_type == EventType::Versus || request.event_type == EventType::Challenge)
            && request.candidates@.len() > 0 && first_mismatch(request.candidates@, request.song_list@.len() as int, 0) is None ==>
            (r matches Ok(res) && exists|c: int| #[trigger] is_last_best(request.candidates@, c)
                && res.total_score == request.candidates@[c].scores@[0]
                && res.total_stat == request.candidates@[c].stat
                && res.songs@.len() == 1
                && song_matches(res.songs@[0], request.song_list@[0], request.candidates@[c], 0)),
{
    if !(request.event_type == EventType::Medley || request.event_type == EventType::Versus
        || request.event_type == EventType::Challenge) {
        return Err(BuildError::UnsupportedEventType { event_type: request.event_type.as_str().to_owned() });
    }
    match validate_candidates(&request) {
        Ok(()) => {},
        Err(e) => return Err(e),
    }
    proof { lemma_no_mismatch(request.candidates@, request.song_list@.len() as int, 0); }
    if request.event_type != EventType::Medley {
        return calculate_single_team(request);
    }
    if request.song_list.len() != 3 {
        return Err(BuildError::InvalidMedleySongCount { count: request.song_list.len() });
    }
    let (input, indices) = medley_solver_input(&request);
    let preference = preference_or_auto(request.solver_preference);
    match solve(&input, preference) {
        Ok(plan) => {
            proof {
                assert(solve.ensures((&input, preference), Ok::<MedleyPlan, MedleySolverFailure>(plan)));
                assert(input.scores@.len() == indices@.len());
                assert(plan_fits(plan, input.scores@.len() as int));
            }
            let res = medley_result_from_plan(request, &indices, plan);
            Ok(res)
        },
        Err(e) => Err(BuildError::MedleySolver(e)),
    }
}

} // verus!

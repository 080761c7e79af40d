//! The search over area item choices: each choice is scored, given the best
//! score so far, and the best result is kept. A medley first asks whether the
//! choice can beat the best at all, and with a large card pool seeds the best
//! from a quick search.
use vstd::prelude::*;
use crate::candidate::{BuildError, MedleySolverFailure};
use crate::items::{CalculationError, SingleSongDpError};
use crate::model::{BuildResult, EventType, Magazine, SelectedAreaItems, SongSelection};
use crate::items::{PreferredItemTarget, validate_song_inputs, song_inputs_spec, item_combinations,
    prune_dominated_item_combinations, items_views, combinations_spec, texts_view, target_view, kept_choices, stat_rows};
use crate::raw_candidate::{TeamBuildError, RawTeamCandidate, RawCandidateBuildRequest, calculate_medley_from_raw_candidates,
    raw_positions_valid, raw_kept_indices, lists_used_cards, raw_solver_input_matches, raw_medley_result_matches,
    MEDLEY_TEAM_COUNT};
use crate::candidate::{MedleySolverInput, MedleySolverPreference, MedleyPlan, chosen_preference, plan_fits};

verus! {

/// The card count above which a medley seeds its best result.
pub const SEED_CARD_COUNT: usize = 128;

/// The score to beat: that of the best result so far, or 0.
pub open spec fn best_score_spec(best: Option<BuildResult>) -> i32 {
    match best {
        Some(r) => r.total_score,
        None => 0,
    }
}

fn best_score(best: &Option<BuildResult>) -> (r: i32)
    ensures
        r == best_score_spec(*best),
{
    match best {
        Some(r) => r.total_score,
        None => 0,
    }
}

/// An error that only means there is no result for this choice: too few cards for a
/// team, no single-song team, no candidates, or no plan from the solver.
pub open spec fn no_result_error(e: CalculationError) -> bool {
    ||| e matches CalculationError::Team(TeamBuildError::NotEnoughCards { .. })
    ||| e matches CalculationError::SingleDp(SingleSongDpError::NotEnoughCards { .. })
    ||| e matches CalculationError::SingleDp(SingleSongDpError::NoResult)
    ||| e matches CalculationError::Candidate(BuildError::EmptyCandidates)
    ||| e matches CalculationError::Candidate(BuildError::MedleySolver(MedleySolverFailure::NoValidPlan))
}

/// The best so far after a medley's seed for a choice.
pub open spec fn after_seed(
    best: Option<BuildResult>,
    seeds: bool,
    seeded: Result<Option<BuildResult>, CalculationError>,
) -> Result<Option<BuildResult>, CalculationError> {
    if !seeds {
        Ok(best)
    } else {
        match seeded {
            Err(e) => Err(e),
            Ok(Some(s)) => if best_score_spec(best) < s.total_score {
                Ok(Some(s))
            } else {
                Ok(best)
            },
            Ok(None) => Ok(best),
        }
    }
}

/// The best so far after a choice's result: a result at least as good as the
/// best replaces it.
pub open spec fn after_result(
    best: Option<BuildResult>,
    found: Result<Option<BuildResult>, CalculationError>,
) -> Result<Option<BuildResult>, CalculationError> {
    match found {
        Ok(Some(r)) => if best_score_spec(best) <= r.total_score {
            Ok(Some(r))
        } else {
            Ok(best)
        },
        Ok(None) => Ok(best),
        Err(e) => if no_result_error(e) {
            Ok(best)
        } else {
            Err(e)
        },
    }
}

/// One choice: for a medley, the bound answer `bound` first (a choice that
/// cannot beat the best is passed over), then the seed, then the result.
pub open spec fn item_step(
    best: Option<BuildResult>,
    medley: bool,
    seeds: bool,
    bound: Result<bool, CalculationError>,
    seeded: Result<Option<BuildResult>, CalculationError>,
    found: Result<Option<BuildResult>, CalculationError>,
) -> Result<Option<BuildResult>, CalculationError> {
    if medley && bound is Err {
        Err(bound->Err_0)
    } else if medley && bound == Ok::<bool, CalculationError>(false) {
        Ok(best)
    } else {
        match after_seed(best, seeds, seeded) {
            Err(e) => Err(e),
            Ok(b) => after_result(b, found),
        }
    }
}

/// The best result after the first `n` choices, given what each step saw;
/// an error ends the search.
pub open spec fn search_from(
    medley: bool,
    seeds: bool,
    bounds: Seq<Result<bool, CalculationError>>,
    seeded: Seq<Result<Option<BuildResult>, CalculationError>>,
    found: Seq<Result<Option<BuildResult>, CalculationError>>,
    n: int,
) -> Result<Option<BuildResult>, CalculationError>
    decreases n,
{
    if n <= 0 {
        Ok(None)
    } else {
        match search_from(medley, seeds, bounds, seeded, found, n - 1) {
            Err(e) => Err(e),
            Ok(b) => item_step(b, medley, seeds, bounds[n - 1], seeded[n - 1], found[n - 1]),
        }
    }
}

/// What the step for a choice saw, the best so far being `best`, are answers
/// the three computations may give: the bound for a medley, the seed when it
/// is asked, and the result when it is asked.
pub open spec fn step_observed<B, S, C>(
    can_beat: B,
    seed: S,
    calculate: C,
    items: SelectedAreaItems,
    best: Option<BuildResult>,
    medley: bool,
    seeds: bool,
    bound: Result<bool, CalculationError>,
    seeded: Result<Option<BuildResult>, CalculationError>,
    found: Result<Option<BuildResult>, CalculationError>,
) -> bool where
    B: Fn(&SelectedAreaItems, i32) -> Result<bool, CalculationError>,
    S: Fn(&SelectedAreaItems) -> Result<Option<BuildResult>, CalculationError>,
    C: Fn(&SelectedAreaItems, i32) -> Result<Option<BuildResult>, CalculationError>,
 {
    &&& medley ==> can_beat.ensures((&items, best_score_spec(best)), bound)
    &&& (!medley || bound == Ok::<bool, CalculationError>(true)) && seeds ==> seed.ensures(
        (&items,),
        seeded,
    )
    &&& (!medley || bound == Ok::<bool, CalculationError>(true)) ==> match after_seed(
        best,
        seeds,
        seeded,
    ) {
        Ok(b) => calculate.ensures((&items, best_score_spec(b)), found),
        Err(_) => true,
    }
}

/// The final answer of a search: its best result, or `NoBuildResult`.
pub open spec fn search_answer(state: Result<Option<BuildResult>, CalculationError>) -> Result<
    BuildResult,
    CalculationError,
> {
    match state {
        Err(e) => Err(e),
        Ok(None) => Err(CalculationError::NoBuildResult),
        Ok(Some(r)) => Ok(r),
    }
}

/// The first `n` steps saw answers the computations may give.
pub open spec fn observed_upto<B, S, C>(
    can_beat: B,
    seed: S,
    calculate: C,
    items: Seq<SelectedAreaItems>,
    medley: bool,
    seeds: bool,
    bounds: Seq<Result<bool, CalculationError>>,
    seeded: Seq<Result<Option<BuildResult>, CalculationError>>,
    found: Seq<Result<Option<BuildResult>, CalculationError>>,
    n: int,
) -> bool where
    B: Fn(&SelectedAreaItems, i32) -> Result<bool, CalculationError>,
    S: Fn(&SelectedAreaItems) -> Result<Option<BuildResult>, CalculationError>,
    C: Fn(&SelectedAreaItems, i32) -> Result<Option<BuildResult>, CalculationError>,
 {
    forall|i: int|
        0 <= i < n ==> (#[trigger] search_from(medley, seeds, bounds, seeded, found, i) matches Ok(
            b,
        ) ==> step_observed(
            can_beat,
            seed,
            calculate,
            items[i],
            b,
            medley,
            seeds,
            bounds[i],
            seeded[i],
            found[i],
        ))
}

/// The answer `r` of a search over `items` is that of the steps with the
/// answers `bounds`, `seeded` and `found`, each of which the computations may
/// give for its step.
pub open spec fn search_explained<B, S, C>(
    event_type: EventType,
    card_count: usize,
    items: Seq<SelectedAreaItems>,
    can_beat: B,
    seed: S,
    calculate: C,
    bounds: Seq<Result<bool, CalculationError>>,
    seeded: Seq<Result<Option<BuildResult>, CalculationError>>,
    found: Seq<Result<Option<BuildResult>, CalculationError>>,
    r: Result<BuildResult, CalculationError>,
) -> bool where
    B: Fn(&SelectedAreaItems, i32) -> Result<bool, CalculationError>,
    S: Fn(&SelectedAreaItems) -> Result<Option<BuildResult>, CalculationError>,
    C: Fn(&SelectedAreaItems, i32) -> Result<Option<BuildResult>, CalculationError>,
 {
    let medley = event_type == EventType::Medley;
    let seeds = medley && card_count > SEED_CARD_COUNT;
    let n = items.len() as int;
    &&& bounds.len() == n && seeded.len() == n && found.len() == n
    &&& observed_upto(can_beat, seed, calculate, items, medley, seeds, bounds, seeded, found, n)
    &&& r == search_answer(search_from(medley, seeds, bounds, seeded, found, n))
}

proof fn lemma_search_prefix(
    medley: bool,
    seeds: bool,
    b1: Seq<Result<bool, CalculationError>>,
    s1: Seq<Result<Option<BuildResult>, CalculationError>>,
    f1: Seq<Result<Option<BuildResult>, CalculationError>>,
    b2: Seq<Result<bool, CalculationError>>,
    s2: Seq<Result<Option<BuildResult>, CalculationError>>,
    f2: Seq<Result<Option<BuildResult>, CalculationError>>,
    i: int,
)
    requires
        forall|j: int| 0 <= j < i ==> b1[j] == b2[j] && s1[j] == s2[j] && f1[j] == f2[j],
    ensures
        search_from(medley, seeds, b1, s1, f1, i) == search_from(medley, seeds, b2, s2, f2, i),
    decreases i,
{
    if i > 0 {
        lemma_search_prefix(medley, seeds, b1, s1, f1, b2, s2, f2, i - 1);
    }
}

proof fn lemma_error_stays(
    medley: bool,
    seeds: bool,
    bounds: Seq<Result<bool, CalculationError>>,
    seeded: Seq<Result<Option<BuildResult>, CalculationError>>,
    found: Seq<Result<Option<BuildResult>, CalculationError>>,
    i: int,
    n: int,
)
    requires
        0 <= i <= n,
        search_from(medley, seeds, bounds, seeded, found, i) is Err,
    ensures
        search_from(medley, seeds, bounds, seeded, found, n) == search_from(
            medley,
            seeds,
            bounds,
            seeded,
            found,
            i,
        ),
    decreases n - i,
{
    if i < n {
        lemma_error_stays(medley, seeds, bounds, seeded, found, i, n - 1);
    }
}

/// `s` followed by copies of `x`, up to length `n`.
pub open spec fn filled<T>(s: Seq<T>, x: T, n: int) -> Seq<T> {
    s + Seq::new((n - s.len()) as nat, |i: int| x)
}

proof fn lemma_extend<B, S, C>(
    can_beat: B,
    seed: S,
    calculate: C,
    items: Seq<SelectedAreaItems>,
    medley: bool,
    seeds: bool,
    bounds: Seq<Result<bool, CalculationError>>,
    seeded: Seq<Result<Option<BuildResult>, CalculationError>>,
    found: Seq<Result<Option<BuildResult>, CalculationError>>,
    bound: Result<bool, CalculationError>,
    seed_seen: Result<Option<BuildResult>, CalculationError>,
    result_seen: Result<Option<BuildResult>, CalculationError>,
    k: int,
    n: int,
) where
    B: Fn(&SelectedAreaItems, i32) -> Result<bool, CalculationError>,
    S: Fn(&SelectedAreaItems) -> Result<Option<BuildResult>, CalculationError>,
    C: Fn(&SelectedAreaItems, i32) -> Result<Option<BuildResult>, CalculationError>,

    requires
        0 <= k < n,
        bounds.len() == k && seeded.len() == k && found.len() == k,
        observed_upto(can_beat, seed, calculate, items, medley, seeds, bounds, seeded, found, k),
        search_from(medley, seeds, bounds, seeded, found, k) matches Ok(b) ==> step_observed(
            can_beat,
            seed,
            calculate,
            items[k],
            b,
            medley,
            seeds,
            bound,
            seed_seen,
            result_seen,
        ),
    ensures
        ({
            let nb = filled(bounds.push(bound), bound, n);
            let ns = filled(seeded.push(seed_seen), seed_seen, n);
            let nf = filled(found.push(result_seen), result_seen, n);
            &&& nb.len() == n && ns.len() == n && nf.len() == n
            &&& observed_upto(can_beat, seed, calculate, items, medley, seeds, nb, ns, nf, k + 1)
            &&& search_from(medley, seeds, nb, ns, nf, k + 1) == match search_from(
                medley,
                seeds,
                bounds,
                seeded,
                found,
                k,
            ) {
                Err(e) => Err(e),
                Ok(b) => item_step(b, medley, seeds, bound, seed_seen, result_seen),
            }
        }),
{
    let nb = filled(bounds.push(bound), bound, n);
    let ns = filled(seeded.push(seed_seen), seed_seen, n);
    let nf = filled(found.push(result_seen), result_seen, n);
    assert forall|j: int| 0 <= j < k + 1 implies nb[j] == bounds.push(bound)[j] && ns[j] == seeded.push(
        seed_seen,
    )[j] && nf[j] == found.push(result_seen)[j] by {}
    assert forall|i: int|
        0 <= i < k + 1 implies (#[trigger] search_from(medley, seeds, nb, ns, nf, i) matches Ok(
            b,
        ) ==> step_observed(
            can_beat,
            seed,
            calculate,
            items[i],
            b,
            medley,
            seeds,
            nb[i],
            ns[i],
            nf[i],
        )) by {
        lemma_search_prefix(medley, seeds, nb, ns, nf, bounds, seeded, found, i);
    }
    lemma_search_prefix(medley, seeds, nb, ns, nf, bounds, seeded, found, k);
}

/// Searches the area item choices in order and keeps the best result: a
/// later result with an equal score replaces an earlier one, a seed only a
/// lower one. `calculate` answers `None` where a choice has no result; it is
/// given the score to beat. For a medley, `can_beat` tells whether a choice
/// can beat the best score at all, and with more than `SEED_CARD_COUNT` cards
/// `seed` gives a quick result first. The first error other than too few
/// cards for a team ends the search.
pub fn search_item_combinations<B, S, C>(
    event_type: EventType,
    card_count: usize,
    item_combinations: Vec<SelectedAreaItems>,
    can_beat: B,
    seed: S,
    calculate: C,
) -> (r: Result<BuildResult, CalculationError>) where
    B: Fn(&SelectedAreaItems, i32) -> Result<bool, CalculationError>,
    S: Fn(&SelectedAreaItems) -> Result<Option<BuildResult>, CalculationError>,
    C: Fn(&SelectedAreaItems, i32) -> Result<Option<BuildResult>, CalculationError>,

    requires
        forall|items: &SelectedAreaItems, best: i32| #[trigger] can_beat.requires((items, best)),
        forall|items: &SelectedAreaItems| #[trigger] seed.requires((items,)),
        forall|items: &SelectedAreaItems, best: i32| #[trigger] calculate.requires((items, best)),
    ensures
        exists|
            bounds: Seq<Result<bool, CalculationError>>,
            seeded: Seq<Result<Option<BuildResult>, CalculationError>>,
            found: Seq<Result<Option<BuildResult>, CalculationError>>,
        |
            #[trigger] search_explained(
                event_type,
                card_count,
                item_combinations@,
                can_beat,
                seed,
                calculate,
                bounds,
                seeded,
                found,
                r,
            ),
{
    let medley = event_type == EventType::Medley;
    let seeds = medley && card_count > SEED_CARD_COUNT;
    let n = item_combinations.len();
    let ghost items = item_combinations@;
    let ghost mut bounds: Seq<Result<bool, CalculationError>> = Seq::empty();
    let ghost mut seeded: Seq<Result<Option<BuildResult>, CalculationError>> = Seq::empty();
    let ghost mut found: Seq<Result<Option<BuildResult>, CalculationError>> = Seq::empty();
    let mut best: Option<BuildResult> = None;
    let mut k: usize = 0;
    while k < n
        invariant
            k <= n,
            n == items.len(),
            items == item_combinations@,
            medley == (event_type == EventType::Medley),
            seeds == (medley && card_count > SEED_CARD_COUNT),
            bounds.len() == k,
            seeded.len() == k,
            found.len() == k,
            search_from(medley, seeds, bounds, seeded, found, k as int) == Ok::<
                Option<BuildResult>,
                CalculationError,
            >(best),
            observed_upto(can_beat, seed, calculate, items, medley, seeds, bounds, seeded, found, k as int),
            forall|items: &SelectedAreaItems, best: i32| #[trigger] can_beat.requires((items, best)),
            forall|items: &SelectedAreaItems| #[trigger] seed.requires((items,)),
            forall|items: &SelectedAreaItems, best: i32| #[trigger] calculate.requires((items, best)),
        decreases n - k,
    {
        let chosen = &item_combinations[k];
        let ghost before = best;
        let ghost mut bound: Result<bool, CalculationError> = Ok(true);
        let ghost mut seed_seen: Result<Option<BuildResult>, CalculationError> = Ok(None);
        let ghost mut result_seen: Result<Option<BuildResult>, CalculationError> = Ok(None);
        let mut stop: Option<CalculationError> = None;
        let mut go = true;
        if medley {
            let answer = can_beat(chosen, best_score(&best));
            proof {
                bound = answer;
            }
            match answer {
                Err(e) => {
                    stop = Some(e);
                    go = false;
                },
                Ok(false) => {
                    go = false;
                },
                Ok(true) => {},
            }
        }
        if go && seeds {
            let answer = seed(chosen);
            proof {
                seed_seen = answer;
            }
            match answer {
                Err(e) => {
                    stop = Some(e);
                    go = false;
                },
                Ok(Some(quick)) => {
                    if best_score(&best) < quick.total_score {
                        best = Some(quick);
                    }
                },
                Ok(None) => {},
            }
        }
        if go {
            let answer = calculate(chosen, best_score(&best));
            proof {
                result_seen = answer;
            }
            match answer {
                Ok(Some(result)) => {
                    if best_score(&best) <= result.total_score {
                        best = Some(result);
                    }
                },
                Ok(None) => {},
                Err(e) => {
                    let tolerated = match &e {
                        CalculationError::Team(TeamBuildError::NotEnoughCards { .. }) => true,
                        CalculationError::SingleDp(SingleSongDpError::NotEnoughCards { .. }) => true,
                        CalculationError::SingleDp(SingleSongDpError::NoResult) => true,
                        CalculationError::Candidate(BuildError::EmptyCandidates) => true,
                        CalculationError::Candidate(BuildError::MedleySolver(MedleySolverFailure::NoValidPlan)) => true,
                        _ => false,
                    };
                    if !tolerated {
                        stop = Some(e);
                    }
                },
            }
        }
        match stop {
            Some(e) => {
                proof {
                    lemma_extend(can_beat, seed, calculate, items, medley, seeds, bounds, seeded, found,
                        bound, seed_seen, result_seen, k as int, n as int);
                    let nb = filled(bounds.push(bound), bound, n as int);
                    let ns = filled(seeded.push(seed_seen), seed_seen, n as int);
                    let nf = filled(found.push(result_seen), result_seen, n as int);
                    assert(search_from(medley, seeds, nb, ns, nf, k + 1) == Err::<Option<BuildResult>, CalculationError>(e));
                    lemma_error_stays(medley, seeds, nb, ns, nf, k + 1, n as int);
                    lemma_observed_after_error(can_beat, seed, calculate, items, medley, seeds, nb, ns, nf, k + 1, n as int);
                    assert(search_explained(event_type, card_count, items, can_beat, seed, calculate, nb, ns, nf,
                        Err::<BuildResult, CalculationError>(e)));
                }
                return Err(e);
            },
            None => {},
        }
        proof {
            lemma_extend(can_beat, seed, calculate, items, medley, seeds, bounds, seeded, found,
                bound, seed_seen, result_seen, k as int, k + 1);
            assert(filled(bounds.push(bound), bound, k + 1) =~= bounds.push(bound));
            assert(filled(seeded.push(seed_seen), seed_seen, k + 1) =~= seeded.push(seed_seen));
            assert(filled(found.push(result_seen), result_seen, k + 1) =~= found.push(result_seen));
            bounds = bounds.push(bound);
            seeded = seeded.push(seed_seen);
            found = found.push(result_seen);
        }
        k += 1;
    }
    let r = match best {
        Some(r) => Ok(r),
        None => Err(CalculationError::NoBuildResult),
    };
    assert(search_explained(event_type, card_count, items, can_beat, seed, calculate, bounds, seeded, found, r));
    r
}

proof fn lemma_observed_after_error<B, S, C>(
    can_beat: B,
    seed: S,
    calculate: C,
    items: Seq<SelectedAreaItems>,
    medley: bool,
    seeds: bool,
    bounds: Seq<Result<bool, CalculationError>>,
    seeded: Seq<Result<Option<BuildResult>, CalculationError>>,
    found: Seq<Result<Option<BuildResult>, CalculationError>>,
    k: int,
    n: int,
) where
    B: Fn(&SelectedAreaItems, i32) -> Result<bool, CalculationError>,
    S: Fn(&SelectedAreaItems) -> Result<Option<BuildResult>, CalculationError>,
    C: Fn(&SelectedAreaItems, i32) -> Result<Option<BuildResult>, CalculationError>,

    requires
        0 <= k <= n,
        observed_upto(can_beat, seed, calculate, items, medley, seeds, bounds, seeded, found, k),
        search_from(medley, seeds, bounds, seeded, found, k) is Err,
    ensures
        observed_upto(can_beat, seed, calculate, items, medley, seeds, bounds, seeded, found, n),
{
    assert forall|i: int|
        0 <= i < n implies (#[trigger] search_from(medley, seeds, bounds, seeded, found, i) matches Ok(
            b,
        ) ==> step_observed(
            can_beat,
            seed,
            calculate,
            items[i],
            b,
            medley,
            seeds,
            bounds[i],
            seeded[i],
            found[i],
        )) by {
        if i >= k {
            lemma_error_stays(medley, seeds, bounds, seeded, found, k, i);
        }
    }
}

/// The best result of an area item search, with how many item choices there
/// were before and after the dominated ones were dropped.
#[derive(Debug)]
pub struct ItemSearchOutcome {
    pub result: BuildResult,
    pub item_combinations_before: usize,
    pub item_combinations_after: usize,
}

/// The build result of a search outcome.
pub open spec fn outcome_result(r: Result<ItemSearchOutcome, CalculationError>) -> Result<BuildResult, CalculationError> {
    match r {
        Ok(o) => Ok(o.result),
        Err(e) => Err(e),
    }
}

/// How a whole area item search went: `combos` are the item choices, `stats`
/// what `stats_for` answered for each, and the search ran over the choices
/// that no other dominates.
pub open spec fn item_search_explained<St, B, S, C>(
    event_type: EventType,
    card_count: usize,
    magazines: Seq<Magazine>,
    bands: Seq<String>,
    attributes: Seq<String>,
    preferred: Option<PreferredItemTarget>,
    stats_for: St,
    can_beat: B,
    seed: S,
    calculate: C,
    combos: Seq<SelectedAreaItems>,
    stats: Seq<Vec<i32>>,
    bounds: Seq<Result<bool, CalculationError>>,
    seeded: Seq<Result<Option<BuildResult>, CalculationError>>,
    found: Seq<Result<Option<BuildResult>, CalculationError>>,
    r: Result<ItemSearchOutcome, CalculationError>,
) -> bool where
    St: Fn(&SelectedAreaItems) -> Vec<i32>,
    B: Fn(&SelectedAreaItems, i32) -> Result<bool, CalculationError>,
    S: Fn(&SelectedAreaItems) -> Result<Option<BuildResult>, CalculationError>,
    C: Fn(&SelectedAreaItems, i32) -> Result<Option<BuildResult>, CalculationError>,
 {
    let kept = kept_choices(combos, stat_rows(stats), combos.len() as int);
    &&& items_views(combos) == combinations_spec(magazines, texts_view(bands), texts_view(attributes),
        target_view(preferred, event_type))
    &&& stats.len() == combos.len()
    &&& forall|i: int| 0 <= i < combos.len() ==> stats_for.ensures((&combos[i],), #[trigger] stats[i])
    &&& search_explained(event_type, card_count, kept, can_beat, seed, calculate, bounds, seeded, found,
        outcome_result(r))
    &&& (r matches Ok(o) ==> o.item_combinations_before == combos.len()
        && o.item_combinations_after == kept.len())
}

/// The best result over the area item choices: the song inputs are checked,
/// the item choices are listed (magazines, bands and attributes present among
/// the area items, narrowed to a preferred target outside medleys), those that
/// another choice dominates on every card's stat are dropped, and the rest
/// are searched. `stats_for` gives each card's stat under a choice.
pub fn calculate_best_result_for_items<St, B, S, C>(
    event_type: EventType,
    song_list: &[SongSelection],
    chart_count: usize,
    magazines: &Vec<Magazine>,
    bands: &Vec<String>,
    attributes: &Vec<String>,
    preferred: Option<PreferredItemTarget>,
    card_count: usize,
    stats_for: St,
    can_beat: B,
    seed: S,
    calculate: C,
) -> (r: Result<ItemSearchOutcome, CalculationError>) where
    St: Fn(&SelectedAreaItems) -> Vec<i32>,
    B: Fn(&SelectedAreaItems, i32) -> Result<bool, CalculationError>,
    S: Fn(&SelectedAreaItems) -> Result<Option<BuildResult>, CalculationError>,
    C: Fn(&SelectedAreaItems, i32) -> Result<Option<BuildResult>, CalculationError>,

    requires
        forall|items: &SelectedAreaItems| #[trigger] stats_for.requires((items,)),
        forall|items: &SelectedAreaItems, best: i32| #[trigger] can_beat.requires((items, best)),
        forall|items: &SelectedAreaItems| #[trigger] seed.requires((items,)),
        forall|items: &SelectedAreaItems, best: i32| #[trigger] calculate.requires((items, best)),
    ensures
        match song_inputs_spec(event_type, song_list@.len() as usize, chart_count) {
            Err(e) => r == Err::<ItemSearchOutcome, CalculationError>(e),
            Ok(_) => if magazines@.len() == 0 || bands@.len() == 0 || attributes@.len() == 0 {
                r == Err::<ItemSearchOutcome, CalculationError>(CalculationError::NoAreaItemCombinations)
            } else {
                exists|
                    combos: Seq<SelectedAreaItems>,
                    stats: Seq<Vec<i32>>,
                    bounds: Seq<Result<bool, CalculationError>>,
                    seeded: Seq<Result<Option<BuildResult>, CalculationError>>,
                    found: Seq<Result<Option<BuildResult>, CalculationError>>,
                | #[trigger] item_search_explained(event_type, card_count, magazines@, bands@, attributes@,
                    preferred, stats_for, can_beat, seed, calculate, combos, stats, bounds, seeded, found, r)
            },
        },
{
    match validate_song_inputs(event_type, song_list, chart_count) {
        Err(e) => return Err(e),
        Ok(()) => {},
    }
    let combos = match item_combinations(magazines, bands, attributes, event_type, preferred) {
        Err(e) => return Err(e),
        Ok(c) => c,
    };
    let before = combos.len();
    let mut stats: Vec<Vec<i32>> = Vec::new();
    let mut i: usize = 0;
    while i < combos.len()
        invariant
            i <= combos@.len(),
            stats@.len() == i,
            forall|items: &SelectedAreaItems| #[trigger] stats_for.requires((items,)),
            forall|j: int| 0 <= j < i ==> stats_for.ensures((&combos@[j],), #[trigger] stats@[j]),
        decreases combos@.len() - i,
    {
        let row = stats_for(&combos[i]);
        stats.push(row);
        i = i + 1;
    }
    let ghost all = combos@;
    let ghost rows = stats@;
    let kept = prune_dominated_item_combinations(combos, &stats);
    let after = kept.len();
    let searched = search_item_combinations(event_type, card_count, kept, can_beat, seed, calculate);
    let r = match searched {
        Ok(result) => Ok(ItemSearchOutcome { result, item_combinations_before: before, item_combinations_after: after }),
        Err(e) => Err(e),
    };
    proof {
        let (b, s, f) = choose|
            b: Seq<Result<bool, CalculationError>>,
            s: Seq<Result<Option<BuildResult>, CalculationError>>,
            f: Seq<Result<Option<BuildResult>, CalculationError>>,
        | #[trigger] search_explained(event_type, card_count, kept_choices(all, stat_rows(rows), all.len() as int),
            can_beat, seed, calculate, b, s, f, searched);
        assert(outcome_result(r) == searched);
        assert(item_search_explained(event_type, card_count, magazines@, bands@, attributes@,
            preferred, stats_for, can_beat, seed, calculate, all, rows, b, s, f, r));
    }
    r
}

/// One less than `best`, held at `i32::MIN`.
pub open spec fn one_below(best: i32) -> i32 {
    if best > i32::MIN { (best - 1) as i32 } else { i32::MIN }
}

/// What solving a medley over raw candidates answers, as
/// `calculate_medley_from_raw_candidates` states it.
pub open spec fn raw_medley_outcome<F>(request: RawCandidateBuildRequest, solve: F, r: Result<BuildResult, BuildError>) -> bool
    where F: Fn(&MedleySolverInput, MedleySolverPreference) -> Result<MedleyPlan, MedleySolverFailure>,
{
    &&& request.candidates@.len() == 0 ==> r == Err::<BuildResult, BuildError>(BuildError::EmptyCandidates)
    &&& request.candidates@.len() > 0 && request.song_list@.len() != 3 ==>
        r == Err::<BuildResult, BuildError>(BuildError::InvalidMedleySongCount { count: request.song_list@.len() as usize })
    &&& request.candidates@.len() > 0 && request.song_list@.len() == 3 ==> (r is Ok || r matches Err(BuildError::MedleySolver(_)))
    &&& r matches Ok(res) ==> exists|used: Seq<usize>, input: MedleySolverInput, plan: MedleyPlan| {
        &&& #[trigger] lists_used_cards(request.candidates@, raw_kept_indices(request.candidates@, request.current_best as int), used)
        &&& raw_solver_input_matches(request.candidates@, request.current_best, raw_kept_indices(request.candidates@, request.current_best as int), used, input)
        &&& #[trigger] solve.ensures((&input, chosen_preference(request.solver_preference)), Ok::<MedleyPlan, MedleySolverFailure>(plan))
        &&& raw_medley_result_matches(request, raw_kept_indices(request.candidates@, request.current_best as int), used.len() as int, plan, res)
    }
    &&& r matches Err(BuildError::MedleySolver(e)) ==> exists|used: Seq<usize>, input: MedleySolverInput| {
        &&& #[trigger] lists_used_cards(request.candidates@, raw_kept_indices(request.candidates@, request.current_best as int), used)
        &&& raw_solver_input_matches(request.candidates@, request.current_best, raw_kept_indices(request.candidates@, request.current_best as int), used, input)
        &&& #[trigger] solve.ensures((&input, chosen_preference(request.solver_preference)), Err::<MedleyPlan, MedleySolverFailure>(e))
    }
}

/// The medley result for one area item choice: `build` makes the raw
/// candidates that may beat `current_best` (a team build error stops), then
/// they are solved with the incumbent one below `current_best`, so that a
/// plan of equal score is still found; a solver error comes back as a
/// candidate error.
pub fn calculate_medley_result_for_items<BC, F>(
    event_id: u32,
    song_list: Vec<SongSelection>,
    card_ids: Vec<u32>,
    selected_items: SelectedAreaItems,
    solver_preference: Option<MedleySolverPreference>,
    current_best: i32,
    build: BC,
    solve: F,
) -> (r: Result<BuildResult, CalculationError>)
    where
        BC: Fn(i32) -> Result<Vec<RawTeamCandidate>, TeamBuildError>,
        F: Fn(&MedleySolverInput, MedleySolverPreference) -> Result<MedleyPlan, MedleySolverFailure>,
    requires
        build.requires((current_best,)),
        forall|cands: Vec<RawTeamCandidate>| #[trigger] build.ensures((current_best,), Ok(cands))
            ==> forall|i: int| 0 <= i < cands@.len() ==> raw_positions_valid(#[trigger] cands@[i], card_ids@.len() as int,
                MEDLEY_TEAM_COUNT as int),
        forall|input: &MedleySolverInput, preference: MedleySolverPreference| #[trigger] solve.requires((input, preference)),
        forall|input: &MedleySolverInput, preference: MedleySolverPreference, plan: MedleyPlan|
            #[trigger] solve.ensures((input, preference), Ok(plan)) ==> plan_fits(plan, input.scores@.len() as int),
    ensures
        exists|built: Result<Vec<RawTeamCandidate>, TeamBuildError>| #[trigger] build.ensures((current_best,), built)
            && match built {
                Err(e) => r == Err::<BuildResult, CalculationError>(CalculationError::Team(e)),
                Ok(cands) => exists|solved: Result<BuildResult, BuildError>| {
                    &&& #[trigger] raw_medley_outcome(RawCandidateBuildRequest {
                        event_id,
                        song_list,
                        candidates: cands,
                        card_ids,
                        current_best: one_below(current_best),
                        solver_preference,
                        items: Some(selected_items),
                    }, solve, solved)
                    &&& r == match solved {
                        Ok(b) => Ok::<BuildResult, CalculationError>(b),
                        Err(e) => Err(CalculationError::Candidate(e)),
                    }
                },
            },
{
    let built = build(current_best);
    let ghost built_seen = built;
    let candidates = match built {
        Ok(c) => c,
        Err(e) => return Err(CalculationError::Team(e)),
    };
    let incumbent = if current_best > i32::MIN { current_best - 1 } else { i32::MIN };
    let request = RawCandidateBuildRequest {
        event_id,
        song_list,
        candidates,
        card_ids,
        current_best: incumbent,
        solver_preference,
        items: Some(selected_items),
    };
    let ghost req = request;
    let solved = calculate_medley_from_raw_candidates(request, solve);
    proof {
        assert(raw_medley_outcome(req, solve, solved));
    }
    match solved {
        Ok(b) => Ok(b),
        Err(e) => Err(CalculationError::Candidate(e)),
    }
}

} // verus!

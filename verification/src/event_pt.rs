//! Event point formulas.
use vstd::prelude::*;
use crate::model::EventType;

verus! {

pub const POINT_BONUS_BASE_BASIS_POINTS: u64 = 10_000;
pub const MEDLEY_SCORE_DIVISOR: u64 = 18_500;
pub const MEDLEY_THREE_SONG_FIXED_PT: u64 = 100;

pub const MISSION_FIXED_PT: u64 = 120;
pub const MISSION_PERSONAL_SCORE_DIVISOR: u64 = 15_000;
pub const MISSION_OTHER_SCORE_DIVISOR: u64 = 150_000;
pub const LIVE_TRY_FIXED_PT: u64 = 130;
pub const LIVE_TRY_PERSONAL_SCORE_DIVISOR: u64 = 26_000;
pub const LIVE_TRY_OTHER_SCORE_DIVISOR: u64 = 260_000;
pub const CHALLENGE_FIXED_PT: u64 = 70;
pub const CHALLENGE_PERSONAL_SCORE_DIVISOR: u64 = 50_000;
pub const CHALLENGE_OTHER_SCORE_DIVISOR: u64 = 500_000;
pub const VERSUS_SOLO_FIXED_PT: u64 = 100;
pub const VERSUS_SOLO_SCORE_DIVISOR: u64 = 9_750;
pub const FESTIVAL_SOLO_FIXED_PT: u64 = 80;
pub const FESTIVAL_SOLO_SCORE_DIVISOR: u64 = 14_000;
pub const MULTIPLAYER_SCORE_DIVISOR: u64 = 6_500;
pub const FESTIVAL_MULTIPLAYER_FIXED_PT: u64 = 50;
pub const FESTIVAL_WIN_PT: u64 = 125;
pub const CHALLENGE_CP_FIXED_PT: u64 = 3_250;
pub const CHALLENGE_CP_SCORE_DIVISOR: u64 = 450;

/// Why an event point formula refused its input.
#[derive(Debug, Clone, PartialEq, Eq, Structural)]
pub enum EventPtError {
    UnsupportedEventType { event_type: EventType },
    InvalidTeamRank { rank: u8 },
    TotalScoreBelowPersonalScore { personal_score: u64, total_score: u64 },
}

/// `a * b`, clamped to `u64::MAX`.
pub open spec fn saturating_mul_spec(a: int, b: int) -> int {
    if a * b > u64::MAX as int { u64::MAX as int } else { a * b }
}

/// `a + b`, clamped to `u64::MAX`.
pub open spec fn saturating_add_spec(a: int, b: int) -> int {
    if a + b > u64::MAX as int { u64::MAX as int } else { a + b }
}

/// Points after a basis-point bonus: the value scaled by `(10000 + bonus) / 10000`,
/// rounded down, where the product saturates at `u64::MAX`.
pub open spec fn point_bonus_spec(value: int, bonus_basis_points: int) -> int {
    saturating_mul_spec(value, 10_000 + bonus_basis_points) / 10_000
}

/// A score clamped below at zero.
pub open spec fn non_negative_spec(score: int) -> int {
    if score < 0 { 0 } else { score }
}

/// Points of one solo play, `None` where the event has no solo formula.
pub open spec fn solo_points_spec(event_type: EventType, score: int, bonus: int, support: int) -> Option<int> {
    let s = non_negative_spec(score);
    match event_type {
        EventType::MissionLive => Some(saturating_add_spec(
            point_bonus_spec(120 + s / 15_000, bonus), support)),
        EventType::LiveTry => Some(point_bonus_spec(130 + s / 26_000, bonus)),
        EventType::Challenge => Some(point_bonus_spec(70 + s / 50_000, bonus)),
        EventType::Versus => Some(100 + s / 9_750),
        EventType::Festival => Some(point_bonus_spec(80 + s / 14_000, bonus)),
        EventType::Medley => None,
    }
}

/// Base points of a cooperative play from the player's own score and the others' score.
pub open spec fn cooperative_base_spec(event_type: EventType, personal: int, other: int) -> int {
    match event_type {
        EventType::MissionLive => 120 + personal / 15_000 + other / 150_000,
        EventType::LiveTry => 130 + personal / 26_000 + other / 260_000,
        _ => 70 + personal / 50_000 + other / 500_000,
    }
}

/// Whether an event type has a cooperative formula.
pub open spec fn has_cooperative_formula(event_type: EventType) -> bool {
    event_type == EventType::MissionLive || event_type == EventType::LiveTry
        || event_type == EventType::Challenge
}

/// Points of one cooperative play for valid inputs.
pub open spec fn cooperative_points_spec(event_type: EventType, personal: int, total: int, bonus: int, support: int) -> int {
    let points = point_bonus_spec(cooperative_base_spec(event_type, personal, total - personal), bonus);
    if event_type == EventType::MissionLive { saturating_add_spec(points, support) } else { points }
}

/// Points of a rank among five teams.
pub open spec fn versus_rank_points(rank: int) -> int {
    if rank == 0 { 200 } else if rank == 1 { 173 } else if rank == 2 { 146 } else if rank == 3 { 123 } else { 100 }
}

/// Points of a rank among five teams in a festival.
pub open spec fn festival_rank_points(rank: int) -> int {
    if rank == 0 { 125 } else if rank == 1 { 117 } else if rank == 2 { 110 } else if rank == 3 { 105 } else { 100 }
}

/// Scales `value` by the point bonus in basis points, rounding down.
pub fn apply_point_bonus(value: u64, bonus_basis_points: u32) -> (r: u64)
    ensures
        r == point_bonus_spec(value as int, bonus_basis_points as int),
{
    let factor: u64 = POINT_BONUS_BASE_BASIS_POINTS + bonus_basis_points as u64;
    let product: u64 = if value > u64::MAX / factor {
        proof {
            assert(value * factor > u64::MAX) by (nonlinear_arith)
                requires value > u64::MAX / factor, factor > 0;
        }
        u64::MAX
    } else {
        proof {
            assert(value * factor <= u64::MAX) by (nonlinear_arith)
                requires value <= u64::MAX / factor, factor > 0;
        }
        value * factor
    };
    product / POINT_BONUS_BASE_BASIS_POINTS
}

fn saturating_add(a: u64, b: u64) -> (r: u64)
    ensures
        r == saturating_add_spec(a as int, b as int),
{
    if a > u64::MAX - b { u64::MAX } else { a + b }
}

/// The score clamped below at zero.
pub fn non_negative_score(score: i32) -> (r: u64)
    ensures
        r == non_negative_spec(score as int),
{
    if score < 0 { 0 } else { score as u64 }
}

/// Points of one solo play.
pub fn solo_points(
    event_type: EventType,
    personal_score: i32,
    point_bonus_basis_points: u32,
    mission_support_pt_bonus: u64,
) -> (r: Result<u64, EventPtError>)
    ensures
        solo_points_spec(event_type, personal_score as int, point_bonus_basis_points as int,
            mission_support_pt_bonus as int) matches Some(p) ==> r == Ok::<u64, EventPtError>(p as u64),
        solo_points_spec(event_type, personal_score as int, point_bonus_basis_points as int,
            mission_support_pt_bonus as int) is None ==> r == Err::<u64, EventPtError>(
            EventPtError::UnsupportedEventType { event_type }),
{
    let score = non_negative_score(personal_score);
    match event_type {
        EventType::MissionLive => Ok(saturating_add(
            apply_point_bonus(MISSION_FIXED_PT + score / MISSION_PERSONAL_SCORE_DIVISOR, point_bonus_basis_points),
            mission_support_pt_bonus,
        )),
        EventType::LiveTry => Ok(apply_point_bonus(
            LIVE_TRY_FIXED_PT + score / LIVE_TRY_PERSONAL_SCORE_DIVISOR, point_bonus_basis_points)),
        EventType::Challenge => Ok(apply_point_bonus(
            CHALLENGE_FIXED_PT + score / CHALLENGE_PERSONAL_SCORE_DIVISOR, point_bonus_basis_points)),
        EventType::Versus => Ok(VERSUS_SOLO_FIXED_PT + score / VERSUS_SOLO_SCORE_DIVISOR),
        EventType::Festival => Ok(apply_point_bonus(
            FESTIVAL_SOLO_FIXED_PT + score / FESTIVAL_SOLO_SCORE_DIVISOR, point_bonus_basis_points)),
        EventType::Medley => Err(EventPtError::UnsupportedEventType { event_type }),
    }
}

/// Points of one cooperative play: the player's own score and the rest of the room's.
pub fn cooperative_points(
    event_type: EventType,
    personal_score: i32,
    total_score: i64,
    point_bonus_basis_points: u32,
    mission_support_pt_bonus: u64,
) -> (r: Result<u64, EventPtError>)
    ensures
        ({
            let personal = non_negative_spec(personal_score as int);
            let total = non_negative_spec(total_score as int);
            if total < personal {
                r == Err::<u64, EventPtError>(EventPtError::TotalScoreBelowPersonalScore {
                    personal_score: personal as u64, total_score: total as u64 })
            } else if !has_cooperative_formula(event_type) {
                r == Err::<u64, EventPtError>(EventPtError::UnsupportedEventType { event_type })
            } else {
                r == Ok::<u64, EventPtError>(cooperative_points_spec(event_type, personal, total,
                    point_bonus_basis_points as int, mission_support_pt_bonus as int) as u64)
            }
        }),
{
    let personal_score = non_negative_score(personal_score);
    let total_score: u64 = if total_score < 0 { 0 } else { total_score as u64 };
    if total_score < personal_score {
        return Err(EventPtError::TotalScoreBelowPersonalScore { personal_score, total_score });
    }
    let other_score = total_score - personal_score;
    let base = match event_type {
        EventType::MissionLive => MISSION_FIXED_PT + personal_score / MISSION_PERSONAL_SCORE_DIVISOR
            + other_score / MISSION_OTHER_SCORE_DIVISOR,
        EventType::LiveTry => LIVE_TRY_FIXED_PT + personal_score / LIVE_TRY_PERSONAL_SCORE_DIVISOR
            + other_score / LIVE_TRY_OTHER_SCORE_DIVISOR,
        EventType::Challenge => CHALLENGE_FIXED_PT + personal_score / CHALLENGE_PERSONAL_SCORE_DIVISOR
            + other_score / CHALLENGE_OTHER_SCORE_DIVISOR,
        _ => {
            return Err(EventPtError::UnsupportedEventType { event_type });
        },
    };
    let points = apply_point_bonus(base, point_bonus_basis_points);
    if event_type == EventType::MissionLive {
        Ok(saturating_add(points, mission_support_pt_bonus))
    } else {
        Ok(points)
    }
}

/// Points of the five team ranks in a versus live, best rank first.
pub fn versus_rank_table() -> (r: [u64; 5])
    ensures
        r[0] == 200 && r[1] == 173 && r[2] == 146 && r[3] == 123 && r[4] == 100,
{
    [200, 173, 146, 123, 100]
}

/// Points of the five team ranks in a festival live, best rank first.
pub fn festival_rank_table() -> (r: [u64; 5])
    ensures
        r[0] == 125 && r[1] == 117 && r[2] == 110 && r[3] == 105 && r[4] == 100,
{
    [125, 117, 110, 105, 100]
}

/// The points of a zero-based rank in a table of five, or an error for a rank past the table.
pub fn rank_points(values: [u64; 5], rank: u8) -> (r: Result<u64, EventPtError>)
    ensures
        rank < 5 ==> r == Ok::<u64, EventPtError>(values[rank as int]),
        rank >= 5 ==> r == Err::<u64, EventPtError>(EventPtError::InvalidTeamRank { rank }),
{
    if (rank as usize) < 5 {
        Ok(values[rank as usize])
    } else {
        Err(EventPtError::InvalidTeamRank { rank })
    }
}

/// Points of a versus multiplayer live.
pub fn versus_multiplayer_points(score: i32, team_rank: u8) -> (r: Result<u64, EventPtError>)
    ensures
        team_rank < 5 ==> r == Ok::<u64, EventPtError>(
            (non_negative_spec(score as int) / 6_500 + versus_rank_points(team_rank as int)) as u64),
        team_rank >= 5 ==> r == Err::<u64, EventPtError>(EventPtError::InvalidTeamRank { rank: team_rank }),
{
    let rank_points = match rank_points(versus_rank_table(), team_rank) {
        Ok(p) => p,
        Err(e) => return Err(e),
    };
    Ok(non_negative_score(score) / MULTIPLAYER_SCORE_DIVISOR + rank_points)
}

/// Points of a festival multiplayer live.
pub fn festival_multiplayer_points(score: i32, team_rank: u8, won: bool) -> (r: Result<u64, EventPtError>)
    ensures
        team_rank < 5 ==> r == Ok::<u64, EventPtError>(
            (50 + non_negative_spec(score as int) / 6_500 + festival_rank_points(team_rank as int)
                + if won { 125int } else { 0int }) as u64),
        team_rank >= 5 ==> r == Err::<u64, EventPtError>(EventPtError::InvalidTeamRank { rank: team_rank }),
{
    let rank_points = match rank_points(festival_rank_table(), team_rank) {
        Ok(p) => p,
        Err(e) => return Err(e),
    };
    let win: u64 = if won { 1 } else { 0 };
    Ok(FESTIVAL_MULTIPLAYER_FIXED_PT + non_negative_score(score) / MULTIPLAYER_SCORE_DIVISOR
        + rank_points + win * FESTIVAL_WIN_PT)
}

/// Points of a three-song medley live from its total score.
pub fn medley_three_song_points(total_score: i64) -> (r: u64)
    ensures
        r == 100 + non_negative_spec(total_score as int) / 18_500,
{
    let total: u64 = if total_score < 0 { 0 } else { total_score as u64 };
    MEDLEY_THREE_SONG_FIXED_PT + total / MEDLEY_SCORE_DIVISOR
}

/// Challenge points of one play.
pub fn challenge_cp_points(score: i32) -> (r: u64)
    ensures
        r == 3_250 + non_negative_spec(score as int) / 450,
{
    CHALLENGE_CP_FIXED_PT + non_negative_score(score) / CHALLENGE_CP_SCORE_DIVISOR
}

/// Challenge points gained for event points: one per twenty, rounded up.
pub fn challenge_cp_gain(event_points: u64) -> (r: u64)
    ensures
        r == (event_points as int + 19) / 20,
{
    event_points / 20 + if event_points % 20 != 0 { 1 } else { 0 }
}

/// The point bonus never lowers points: for every value and bonus, the bonused
/// value is at least the value itself, unless the product saturated.
pub proof fn lemma_point_bonus_at_least_value(value: u64, bonus: u32)
    requires
        value * (10_000 + bonus) <= u64::MAX,
    ensures
        point_bonus_spec(value as int, bonus as int) >= value,
{
    assert(value * (10_000 + bonus as int) >= value * 10_000) by (nonlinear_arith);
    assert((value * 10_000) / 10_000 == value) by (nonlinear_arith);
    assert((value * (10_000 + bonus as int)) / 10_000 >= (value * 10_000) / 10_000) by (nonlinear_arith)
        requires value * (10_000 + bonus as int) >= value * 10_000;
}

/// The point bonus adds the bonus share of the value, rounded down: for every
/// value and bonus whose product does not saturate, the bonused value is the
/// value plus `value * bonus / 10000`; with no bonus it is the value itself.
pub proof fn lemma_point_bonus_adds_its_share(value: int, bonus: int)
    requires
        0 <= value,
        0 <= bonus,
        value * (10_000 + bonus) <= 0xffff_ffff_ffff_ffff,
    ensures
        point_bonus_spec(value, bonus) == value + (value * bonus) / 10_000,
        point_bonus_spec(value, 0) == value,
{
    assert(value * (10_000 + bonus) == value * 10_000 + value * bonus) by (nonlinear_arith);
    assert((value * 10_000 + value * bonus) / 10_000 == value + (value * bonus) / 10_000) by (nonlinear_arith)
        requires value >= 0, bonus >= 0;
    assert(value * (10_000 + 0) == value * 10_000) by (nonlinear_arith);
    assert((value * 10_000) / 10_000 == value) by (nonlinear_arith);
    assert(value * 10_000 <= value * (10_000 + bonus)) by (nonlinear_arith)
        requires value >= 0, bonus >= 0;
}

/// Event point formulas written out, for every non-negative score: a solo play
/// earns 120 + score/15000 in a mission live (before the bonus, then the
/// mission support bonus), 130 + score/26000 in a live try, 70 + score/50000
/// in a challenge live, 100 + score/9750 in a versus live (no bonus) and
/// 80 + score/14000 in a festival; a medley has no solo formula. A
/// cooperative play adds the rest of the room's score over 150000, 260000 and
/// 500000 in a mission live, a live try and a challenge live.
pub proof fn lemma_event_point_formulas(score: int, personal: int, others: int, bonus: int, support: int)
    requires
        0 <= score,
        0 <= personal,
        0 <= others,
    ensures
        solo_points_spec(EventType::MissionLive, score, bonus, support)
            == Some(saturating_add_spec(point_bonus_spec(120 + score / 15_000, bonus), support)),
        solo_points_spec(EventType::LiveTry, score, bonus, support) == Some(point_bonus_spec(130 + score / 26_000, bonus)),
        solo_points_spec(EventType::Challenge, score, bonus, support) == Some(point_bonus_spec(70 + score / 50_000, bonus)),
        solo_points_spec(EventType::Versus, score, bonus, support) == Some(100 + score / 9_750),
        solo_points_spec(EventType::Festival, score, bonus, support) == Some(point_bonus_spec(80 + score / 14_000, bonus)),
        solo_points_spec(EventType::Medley, score, bonus, support) is None,
        cooperative_points_spec(EventType::MissionLive, personal, personal + others, bonus, support)
            == saturating_add_spec(point_bonus_spec(120 + personal / 15_000 + others / 150_000, bonus), support),
        cooperative_points_spec(EventType::LiveTry, personal, personal + others, bonus, support)
            == point_bonus_spec(130 + personal / 26_000 + others / 260_000, bonus),
        cooperative_points_spec(EventType::Challenge, personal, personal + others, bonus, support)
            == point_bonus_spec(70 + personal / 50_000 + others / 500_000, bonus),
        has_cooperative_formula(EventType::MissionLive),
        has_cooperative_formula(EventType::LiveTry),
        has_cooperative_formula(EventType::Challenge),
        !has_cooperative_formula(EventType::Versus),
        !has_cooperative_formula(EventType::Festival),
        !has_cooperative_formula(EventType::Medley),
{
}

/// How the cooperative base points grow: with both scores below one step, a
/// play earns the fixed points (120, 130 and 70 in a mission live, a live try
/// and a challenge live); each further 15000, 26000 or 50000 of the player's
/// own score adds one point, and each further 150000, 260000 or 500000 of the
/// others' score adds one point.
pub proof fn lemma_cooperative_base_steps(personal: int, others: int)
    requires
        0 <= personal,
        0 <= others,
    ensures
        personal < 15_000 && others < 150_000 ==> cooperative_base_spec(EventType::MissionLive, personal, others) == 120,
        personal < 26_000 && others < 260_000 ==> cooperative_base_spec(EventType::LiveTry, personal, others) == 130,
        personal < 50_000 && others < 500_000 ==> cooperative_base_spec(EventType::Challenge, personal, others) == 70,
        cooperative_base_spec(EventType::MissionLive, personal + 15_000, others)
            == cooperative_base_spec(EventType::MissionLive, personal, others) + 1,
        cooperative_base_spec(EventType::MissionLive, personal, others + 150_000)
            == cooperative_base_spec(EventType::MissionLive, personal, others) + 1,
        cooperative_base_spec(EventType::LiveTry, personal + 26_000, others)
            == cooperative_base_spec(EventType::LiveTry, personal, others) + 1,
        cooperative_base_spec(EventType::LiveTry, personal, others + 260_000)
            == cooperative_base_spec(EventType::LiveTry, personal, others) + 1,
        cooperative_base_spec(EventType::Challenge, personal + 50_000, others)
            == cooperative_base_spec(EventType::Challenge, personal, others) + 1,
        cooperative_base_spec(EventType::Challenge, personal, others + 500_000)
            == cooperative_base_spec(EventType::Challenge, personal, others) + 1,
{
}

/// A saturating sum is the sum where it fits and `u64::MAX` otherwise; a
/// saturating product likewise.
pub proof fn lemma_saturating_specs(a: int, b: int)
    ensures
        a + b <= 0xffff_ffff_ffff_ffff ==> saturating_add_spec(a, b) == a + b,
        a + b > 0xffff_ffff_ffff_ffff ==> saturating_add_spec(a, b) == 0xffff_ffff_ffff_ffff,
        a * b <= 0xffff_ffff_ffff_ffff ==> saturating_mul_spec(a, b) == a * b,
        a * b > 0xffff_ffff_ffff_ffff ==> saturating_mul_spec(a, b) == 0xffff_ffff_ffff_ffff,
        non_negative_spec(a) == if a < 0 { 0 } else { a },
{
}

/// The team-rank points written out: a versus live gives 200, 173, 146, 123
/// and 100 to ranks one to five; a festival live 125, 117, 110, 105 and 100.
pub proof fn lemma_rank_point_tables()
    ensures
        versus_rank_points(0) == 200 && versus_rank_points(1) == 173 && versus_rank_points(2) == 146
            && versus_rank_points(3) == 123 && versus_rank_points(4) == 100,
        festival_rank_points(0) == 125 && festival_rank_points(1) == 117 && festival_rank_points(2) == 110
            && festival_rank_points(3) == 105 && festival_rank_points(4) == 100,
{
}

} // verus!

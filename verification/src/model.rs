//! Plain data shared by the calculators.
use vstd::prelude::*;

verus! {

/// The kinds of events whose points can be computed.
#[derive(Debug, Clone, Copy, PartialEq, Eq, Structural)]
pub enum EventType {
    Medley,
    Versus,
    Challenge,
    Festival,
    LiveTry,
    MissionLive,
}

/// Card attribute.
#[derive(Debug, Clone, Copy, PartialEq, Eq, Structural)]
pub enum Attribute {
    Cool,
    Happy,
    Pure,
    Powerful,
    All,
}

impl EventType {
    /// The event type's name as the API writes it.
    pub fn as_str(self) -> (r: &'static str)
        ensures
            r@ == event_type_name(self),
    {
        match self {
            EventType::Medley => "medley",
            EventType::Versus => "versus",
            EventType::Challenge => "challenge",
            EventType::Festival => "festival",
            EventType::LiveTry => "liveTry",
            EventType::MissionLive => "missionLive",
        }
    }
}

/// The event type's name as the API writes it.
pub open spec fn event_type_name(event_type: EventType) -> Seq<char> {
    match event_type {
        EventType::Medley => "medley"@,
        EventType::Versus => "versus"@,
        EventType::Challenge => "challenge"@,
        EventType::Festival => "festival"@,
        EventType::LiveTry => "liveTry"@,
        EventType::MissionLive => "missionLive"@,
    }
}

/// Which magazine area item is chosen.
#[derive(Debug, Clone, Copy, PartialEq, Eq, Structural)]
pub enum Magazine {
    Performance,
    Technique,
    Visual,
}

/// The area items chosen for a calculation.
#[derive(Debug, Clone, PartialEq, Eq)]
pub struct SelectedAreaItems {
    pub band: String,
    pub attribute: String,
    pub magazine: Magazine,
}

/// One song of a calculation.
#[derive(Debug, Clone, Copy, PartialEq, Eq, Structural)]
pub struct SongSelection {
    pub song_id: u32,
    pub difficulty: u8,
}

/// The team chosen for one song.
#[derive(Debug, Clone, PartialEq, Eq)]
pub struct SongBuildResult {
    pub song_id: u32,
    pub difficulty: u8,
    pub score: i32,
    pub stat: i32,
    pub team_card_ids: Vec<u32>,
    pub captain_card_id: u32,
}

/// Counters of a medley calculation.
#[derive(Debug, Clone, Copy, PartialEq, Eq, Structural)]
pub struct MedleyCalculationMetrics {
    pub candidate_count: usize,
    pub solver_candidate_count: usize,
    pub used_card_count: Option<usize>,
}

/// The result of a calculation.
#[derive(Debug, Clone, PartialEq, Eq)]
pub struct BuildResult {
    pub event_id: u32,
    pub event_type: EventType,
    pub total_score: i32,
    pub total_stat: i32,
    pub songs: Vec<SongBuildResult>,
    pub items: Option<SelectedAreaItems>,
    pub solver: Option<String>,
    pub medley_metrics: Option<MedleyCalculationMetrics>,
}

} // verus!

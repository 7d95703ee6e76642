use vstd::prelude::*;

verus! {

/// Confidence and trust are fixed-point fractions: one whole is this many units.
pub const SCALE: u32 = 10000;

/// A named belief with its definition and strength.
#[derive(Debug, Clone)]
pub struct Concept {
    pub id: i64,
    pub name: String,
    pub definition: String,
    /// Belief strength in units of `1 / SCALE`, within `0..=SCALE`.
    pub confidence: u32,
    pub created_at: String,
}

/// A directed, typed edge between two concepts.
#[derive(Debug, Clone)]
pub struct Relation {
    pub id: i64,
    pub from: String,
    pub relation_type: String,
    pub to: String,
    pub created_at: String,
}

/// Trust-scored supporting material attached to a concept.
#[derive(Debug, Clone)]
pub struct Evidence {
    pub id: i64,
    pub concept_name: String,
    pub content: String,
    pub source: Option<String>,
    pub domain: Option<String>,
    /// Trust in units of `1 / SCALE`, within `0..=SCALE`.
    pub trust: u32,
    pub created_at: String,
}

/// Links an episode to a concept it concerns.
#[derive(Debug, Clone)]
pub struct EpisodeTag {
    pub episode_id: i64,
    pub concept_name: String,
}

/// A named procedure.
#[derive(Debug, Clone)]
pub struct Skill {
    pub id: i64,
    pub name: String,
    pub description: String,
    pub created_at: String,
}

/// One ordered step of a skill.
#[derive(Debug, Clone)]
pub struct SkillStep {
    pub id: i64,
    pub skill_id: i64,
    pub step_no: i64,
    pub text: String,
    pub evidence_id: Option<i64>,
    pub episode_id: Option<i64>,
    pub created_at: String,
}

/// A timestamped outcome record; `outcome` is "ok", "fail" or "note".
#[derive(Debug, Clone)]
pub struct Episode {
    pub id: i64,
    pub captured_at: String,
    pub outcome: String,
    pub summary: String,
}

/// How an episode went.
#[derive(Clone, Copy, Debug, PartialEq, Eq, Structural)]
pub enum Outcome {
    Success,
    Failure,
    Note,
}

/// The kinds of entries in the append-only confidence log.
#[derive(Clone, Copy, Debug, PartialEq, Eq, Structural)]
pub enum EventKind {
    ConfirmClaim,
    RejectClaim,
    EpisodeOk,
    EpisodeFail,
    EpisodeNote,
}

/// One trust adjustment step (0.1).
pub const TRUST_STEP: u32 = 1000;

/// Trust after one step up or down, kept within `0..=SCALE`.
pub open spec fn adjusted_trust_spec(trust: int, raise: bool) -> int {
    if raise {
        if trust + TRUST_STEP > SCALE {
            SCALE as int
        } else {
            trust + TRUST_STEP
        }
    } else if trust < TRUST_STEP {
        0
    } else {
        trust - TRUST_STEP
    }
}

/// Moves a trust value one step up or down, within the unit interval.
pub fn adjusted_trust(trust: u32, raise: bool) -> (r: u32)
    ensures
        r == adjusted_trust_spec(trust as int, raise),
{
    if raise {
        if trust > SCALE - TRUST_STEP {
            SCALE
        } else {
            trust + TRUST_STEP
        }
    } else if trust < TRUST_STEP {
        0
    } else {
        trust - TRUST_STEP
    }
}

/// The log entry that tagging an episode of the given outcome appends.
pub open spec fn episode_event_spec(o: Outcome) -> EventKind {
    match o {
        Outcome::Success => EventKind::EpisodeOk,
        Outcome::Failure => EventKind::EpisodeFail,
        Outcome::Note => EventKind::EpisodeNote,
    }
}

impl Outcome {
    /// The confidence-log entry for an episode with this outcome.
    pub fn episode_event(&self) -> (r: EventKind)
        ensures
            r == episode_event_spec(*self),
    {
        match self {
            Outcome::Success => EventKind::EpisodeOk,
            Outcome::Failure => EventKind::EpisodeFail,
            Outcome::Note => EventKind::EpisodeNote,
        }
    }

    /// The stored label of the outcome.
    pub fn as_str(&self) -> (r: &'static str)
        ensures
            *self == Outcome::Success ==> r@ == "ok"@,
            *self == Outcome::Failure ==> r@ == "fail"@,
            *self == Outcome::Note ==> r@ == "note"@,
    {
        proof {
            reveal_strlit("ok");
            reveal_strlit("fail");
            reveal_strlit("note");
        }
        match self {
            Outcome::Success => "ok",
            Outcome::Failure => "fail",
            Outcome::Note => "note",
        }
    }
}

impl EventKind {
    /// The stored label of the event kind.
    pub fn as_str(&self) -> (r: &'static str)
        ensures
            *self == EventKind::ConfirmClaim ==> r@ == "confirm_claim"@,
            *self == EventKind::RejectClaim ==> r@ == "reject_claim"@,
            *self == EventKind::EpisodeOk ==> r@ == "episode_ok"@,
            *self == EventKind::EpisodeFail ==> r@ == "episode_fail"@,
            *self == EventKind::EpisodeNote ==> r@ == "episode_note"@,
    {
        proof {
            reveal_strlit("confirm_claim");
            reveal_strlit("reject_claim");
            reveal_strlit("episode_ok");
            reveal_strlit("episode_fail");
            reveal_strlit("episode_note");
        }
        match self {
            EventKind::ConfirmClaim => "confirm_claim",
            EventKind::RejectClaim => "reject_claim",
            EventKind::EpisodeOk => "episode_ok",
            EventKind::EpisodeFail => "episode_fail",
            EventKind::EpisodeNote => "episode_note",
        }
    }
}

} // verus!

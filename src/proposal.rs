use vstd::prelude::*;

use crate::confidence::ConfidenceUpdate;
use crate::gaps::GapPlan;
use crate::order::names_of;
use crate::records::{episode_event_spec, EventKind, Outcome};
use crate::tags::{suggest_tags, tags_in};
use crate::text::{derive_domain, domain_of, lower_of, opt_view};

verus! {

/// The confidence a newly learned concept starts with (0.40).
pub const PROPOSED_CONFIDENCE: u32 = 4000;

/// A knowledge mutation awaiting the operator's decision.
#[derive(Debug)]
pub enum PendingAction {
    Concept { name: String, definition: String, confidence: u32 },
    Relation { from: String, relation_type: String, to: String },
    Episode { outcome: Outcome, summary: String },
    Evidence { concept: String, content: String, source: Option<String>, domain: Option<String> },
    TagEpisode { episode_id: i64, tags: Vec<String>, outcome: Outcome },
    Recalc { updates: Vec<ConfidenceUpdate> },
    TrustAdjust { evidence_id: i64, raise: bool },
    SkillNew { name: String, description: String },
    SkillAdd { name: String, text: String },
    Suggestion { plans: Vec<GapPlan> },
}

/// A structured operator request that would change the knowledge base.
///
/// Requests that need a lookup first carry its result: whether the evidence's concept
/// exists, the updates that `compute_updates` planned, the plans that `gaps_report` found.
#[derive(Debug)]
pub enum Intent {
    LearnConcept { name: String, definition: String },
    AddRelation { from: String, relation_type: String, to: String },
    AddEpisode { outcome: Outcome, summary: String },
    AddEvidence { concept: String, content: String, source: Option<String>, concept_known: bool },
    AdjustTrust { evidence_id: i64, raise: bool },
    NewSkill { name: String, description: String },
    AddSkillStep { name: String, text: String },
    Recalc { updates: Vec<ConfidenceUpdate> },
    Gaps { plans: Vec<GapPlan> },
}

/// A confidence-log entry to append.
#[derive(Debug, Clone)]
pub struct LogEntry {
    pub concept: String,
    pub kind: EventKind,
}

/// One store operation of a commit.
#[derive(Debug)]
pub enum Effect {
    UpsertConcept { name: String, definition: String, confidence: u32 },
    UpsertRelation { from: String, relation_type: String, to: String },
    AddEpisode { outcome: Outcome, summary: String },
    AddEvidence { concept: String, content: String, source: Option<String>, domain: Option<String> },
    TagEpisode { episode_id: i64, concept: String },
    ApplyUpdates { updates: Vec<ConfidenceUpdate> },
    AdjustTrust { evidence_id: i64, raise: bool },
    AddSkill { name: String, description: String },
    AddSkillStep { name: String, text: String },
    /// Plans are acknowledged only: nothing is stored.
    NotePlans { plans: Vec<GapPlan> },
}

/// A store operation and the log entry to append once it has succeeded.
#[derive(Debug)]
pub struct Commit {
    pub effect: Effect,
    pub log: Option<LogEntry>,
}

/// What the engine answers.
#[derive(Debug)]
pub enum Response {
    /// A new proposal is pending.
    Proposed,
    /// A proposal is already pending: resolve it first. Nothing changed.
    Busy,
    /// A required field is empty. Nothing changed.
    Invalid,
    /// The evidence names a concept that does not exist. Nothing changed.
    UnknownConcept,
    /// Recalculation would change nothing.
    UpToDate,
    /// No gaps were found.
    NoGaps,
    /// No concept occurs in the episode's summary.
    NoTags,
    /// There is no proposal to confirm or reject.
    NoPending,
    /// The proposal was confirmed: perform these steps in order.
    Committed { steps: Vec<Commit> },
    /// The proposal was dropped; the log entry, if any, is to be appended.
    Rejected { log: Option<LogEntry> },
}

/// The domain recorded with a piece of evidence.
pub open spec fn source_domain(source: Option<String>) -> Option<Seq<char>> {
    match source {
        Some(s) => domain_of(s@),
        None => None,
    }
}

/// What an intent leads to when nothing is pending: the answer and the new pending action.
pub open spec fn proposal_of(intent: Intent, r: Response, pending: Option<PendingAction>) -> bool {
    match intent {
        Intent::LearnConcept { name, definition } => if name@.len() == 0 || definition@.len() == 0 {
            r == Response::Invalid && pending is None
        } else {
            r == Response::Proposed && pending == Some(
                PendingAction::Concept { name, definition, confidence: PROPOSED_CONFIDENCE },
            )
        },
        Intent::AddRelation { from, relation_type, to } => if from@.len() == 0
            || relation_type@.len() == 0 || to@.len() == 0 {
            r == Response::Invalid && pending is None
        } else {
            r == Response::Proposed && pending == Some(
                PendingAction::Relation { from, relation_type, to },
            )
        },
        Intent::AddEpisode { outcome, summary } => if summary@.len() == 0 {
            r == Response::Invalid && pending is None
        } else {
            r == Response::Proposed && pending == Some(PendingAction::Episode { outcome, summary })
        },
        Intent::AddEvidence { concept, content, source, concept_known } => if concept@.len() == 0
            || content@.len() == 0 {
            r == Response::Invalid && pending is None
        } else if !concept_known {
            r == Response::UnknownConcept && pending is None
        } else {
            r == Response::Proposed && match pending {
                Some(PendingAction::Evidence { concept: c, content: t, source: s, domain: d }) => c
                    == concept && t == content && s == source && opt_view(d) == source_domain(
                    source,
                ),
                _ => false,
            }
        },
        Intent::AdjustTrust { evidence_id, raise } => r == Response::Proposed && pending == Some(
            PendingAction::TrustAdjust { evidence_id, raise },
        ),
        Intent::NewSkill { name, description } => if name@.len() == 0 || description@.len() == 0 {
            r == Response::Invalid && pending is None
        } else {
            r == Response::Proposed && pending == Some(PendingAction::SkillNew { name, description })
        },
        Intent::AddSkillStep { name, text } => if name@.len() == 0 || text@.len() == 0 {
            r == Response::Invalid && pending is None
        } else {
            r == Response::Proposed && pending == Some(PendingAction::SkillAdd { name, text })
        },
        Intent::Recalc { updates } => if updates.len() == 0 {
            r == Response::UpToDate && pending is None
        } else {
            r == Response::Proposed && pending == Some(PendingAction::Recalc { updates })
        },
        Intent::Gaps { plans } => if plans.len() == 0 {
            r == Response::NoGaps && pending is None
        } else {
            r == Response::Proposed && pending == Some(PendingAction::Suggestion { plans })
        },
    }
}

/// The steps that confirming an action performs.
pub open spec fn commit_plan(p: PendingAction) -> Seq<Commit> {
    match p {
        PendingAction::Concept { name, definition, confidence } => seq![
            Commit {
                effect: Effect::UpsertConcept { name, definition, confidence },
                log: Some(LogEntry { concept: name, kind: EventKind::ConfirmClaim }),
            },
        ],
        PendingAction::Relation { from, relation_type, to } => seq![
            Commit { effect: Effect::UpsertRelation { from, relation_type, to }, log: None },
        ],
        PendingAction::Episode { outcome, summary } => seq![
            Commit { effect: Effect::AddEpisode { outcome, summary }, log: None },
        ],
        PendingAction::Evidence { concept, content, source, domain } => seq![
            Commit {
                effect: Effect::AddEvidence { concept, content, source, domain },
                log: Some(LogEntry { concept, kind: EventKind::ConfirmClaim }),
            },
        ],
        PendingAction::TagEpisode { episode_id, tags, outcome } => Seq::new(
            tags.len() as nat,
            |i: int|
                Commit {
                    effect: Effect::TagEpisode { episode_id, concept: tags@[i] },
                    log: Some(LogEntry { concept: tags@[i], kind: episode_event_spec(outcome) }),
                },
        ),
        PendingAction::Recalc { updates } => seq![
            Commit { effect: Effect::ApplyUpdates { updates }, log: None },
        ],
        PendingAction::TrustAdjust { evidence_id, raise } => seq![
            Commit { effect: Effect::AdjustTrust { evidence_id, raise }, log: None },
        ],
        PendingAction::SkillNew { name, description } => seq![
            Commit { effect: Effect::AddSkill { name, description }, log: None },
        ],
        PendingAction::SkillAdd { name, text } => seq![
            Commit { effect: Effect::AddSkillStep { name, text }, log: None },
        ],
        PendingAction::Suggestion { plans } => seq![
            Commit { effect: Effect::NotePlans { plans }, log: None },
        ],
    }
}

/// What rejecting an action logs: only a rejected concept proposal leaves a trace.
pub open spec fn reject_log(p: PendingAction) -> Option<LogEntry> {
    match p {
        PendingAction::Concept { name, .. } => Some(
            LogEntry { concept: name, kind: EventKind::RejectClaim },
        ),
        _ => None,
    }
}

/// The two-phase gate in front of every knowledge mutation: it holds at most one
/// pending action, and only confirming it yields store operations.
pub struct ProposalEngine {
    pub pending: Option<PendingAction>,
}

impl ProposalEngine {
    /// An engine with nothing pending.
    pub fn new() -> (r: ProposalEngine)
        ensures
            r.pending is None,
    {
        ProposalEngine { pending: None }
    }

    /// Whether no proposal is pending.
    pub fn is_idle(&self) -> (r: bool)
        ensures
            r == self.pending is None,
    {
        self.pending.is_none()
    }

    /// Turns an intent into the pending proposal. While one is pending, the intent is
    /// dropped and nothing changes.
    pub fn propose(&mut self, intent: Intent) -> (r: Response)
        ensures
            old(self).pending is Some ==> r == Response::Busy && *final(self) == *old(self),
            old(self).pending is None ==> proposal_of(intent, r, final(self).pending),
    {
        if self.pending.is_some() {
            return Response::Busy;
        }
        match intent {
            Intent::LearnConcept { name, definition } => {
                if name.as_str().is_empty() || definition.as_str().is_empty() {
                    return Response::Invalid;
                }
                self.pending = Some(
                    PendingAction::Concept { name, definition, confidence: PROPOSED_CONFIDENCE },
                );
            },
            Intent::AddRelation { from, relation_type, to } => {
                if from.as_str().is_empty() || relation_type.as_str().is_empty()
                    || to.as_str().is_empty() {
                    return Response::Invalid;
                }
                self.pending = Some(PendingAction::Relation { from, relation_type, to });
            },
            Intent::AddEpisode { outcome, summary } => {
                if summary.as_str().is_empty() {
                    return Response::Invalid;
                }
                self.pending = Some(PendingAction::Episode { outcome, summary });
            },
            Intent::AddEvidence { concept, content, source, concept_known } => {
                if concept.as_str().is_empty() || content.as_str().is_empty() {
                    return Response::Invalid;
                }
                if !concept_known {
                    return Response::UnknownConcept;
                }
                let domain = match &source {
                    Some(s) => derive_domain(s.as_str()),
                    None => None,
                };
                self.pending = Some(PendingAction::Evidence { concept, content, source, domain });
            },
            Intent::AdjustTrust { evidence_id, raise } => {
                self.pending = Some(PendingAction::TrustAdjust { evidence_id, raise });
            },
            Intent::NewSkill { name, description } => {
                if name.as_str().is_empty() || description.as_str().is_empty() {
                    return Response::Invalid;
                }
                self.pending = Some(PendingAction::SkillNew { name, description });
            },
            Intent::AddSkillStep { name, text } => {
                if name.as_str().is_empty() || text.as_str().is_empty() {
                    return Response::Invalid;
                }
                self.pending = Some(PendingAction::SkillAdd { name, text });
            },
            Intent::Recalc { updates } => {
                if updates.len() == 0 {
                    return Response::UpToDate;
                }
                self.pending = Some(PendingAction::Recalc { updates });
            },
            Intent::Gaps { plans } => {
                if plans.len() == 0 {
                    return Response::NoGaps;
                }
                self.pending = Some(PendingAction::Suggestion { plans });
            },
        }
        Response::Proposed
    }

    /// After an episode has been stored, proposes tagging it with every concept whose name
    /// occurs in its summary.
    pub fn episode_recorded(
        &mut self,
        episode_id: i64,
        outcome: Outcome,
        summary: &str,
        concept_names: &Vec<String>,
    ) -> (r: Response)
        ensures
            old(self).pending is Some ==> r == Response::Busy && *final(self) == *old(self),
            old(self).pending is None ==> {
                let tags = tags_in(names_of(concept_names@), lower_of(summary@));
                if tags.len() == 0 {
                    r == Response::NoTags && final(self).pending is None
                } else {
                    r == Response::Proposed && match final(self).pending {
                        Some(PendingAction::TagEpisode { episode_id: e, tags: t, outcome: o }) => e
                            == episode_id && o == outcome && names_of(t@) == tags,
                        _ => false,
                    }
                }
            },
    {
        if self.pending.is_some() {
            return Response::Busy;
        }
        match suggest_tags(concept_names, summary) {
            None => Response::NoTags,
            Some(tags) => {
                self.pending = Some(PendingAction::TagEpisode { episode_id, tags, outcome });
                Response::Proposed
            },
        }
    }

    /// Confirms the pending proposal: the engine returns to idle and hands back the store
    /// operations that commit it.
    pub fn confirm(&mut self) -> (r: Response)
        ensures
            final(self).pending is None,
            match old(self).pending {
                None => r == Response::NoPending,
                Some(p) => match r {
                    Response::Committed { steps } => steps@ == commit_plan(p),
                    _ => false,
                },
            },
    {
        let ghost before = self.pending;
        let mut steps: Vec<Commit> = Vec::new();
        match self.pending.take() {
            None => {
                return Response::NoPending;
            },
            Some(PendingAction::Concept { name, definition, confidence }) => {
                let log = LogEntry { concept: name.clone(), kind: EventKind::ConfirmClaim };
                steps.push(
                    Commit {
                        effect: Effect::UpsertConcept { name, definition, confidence },
                        log: Some(log),
                    },
                );
            },
            Some(PendingAction::Relation { from, relation_type, to }) => {
                steps.push(
                    Commit { effect: Effect::UpsertRelation { from, relation_type, to }, log: None },
                );
            },
            Some(PendingAction::Episode { outcome, summary }) => {
                steps.push(Commit { effect: Effect::AddEpisode { outcome, summary }, log: None });
            },
            Some(PendingAction::Evidence { concept, content, source, domain }) => {
                let log = LogEntry { concept: concept.clone(), kind: EventKind::ConfirmClaim };
                steps.push(
                    Commit {
                        effect: Effect::AddEvidence { concept, content, source, domain },
                        log: Some(log),
                    },
                );
            },
            Some(PendingAction::TagEpisode { episode_id, tags, outcome }) => {
                let kind = outcome.episode_event();
                let mut i: usize = 0;
                while i < tags.len()
                    invariant
                        i <= tags.len(),
                        kind == episode_event_spec(outcome),
                        steps.len() == i,
                        forall|t: int|
                            0 <= t < i ==> #[trigger] steps@[t] == (Commit {
                                effect: Effect::TagEpisode { episode_id, concept: tags@[t] },
                                log: Some(LogEntry { concept: tags@[t], kind }),
                            }),
                    decreases tags.len() - i,
                {
                    steps.push(
                        Commit {
                            effect: Effect::TagEpisode { episode_id, concept: tags[i].clone() },
                            log: Some(LogEntry { concept: tags[i].clone(), kind }),
                        },
                    );
                    i += 1;
                }
                assert(steps@ =~= commit_plan(PendingAction::TagEpisode { episode_id, tags, outcome }));
            },
            Some(PendingAction::Recalc { updates }) => {
                steps.push(Commit { effect: Effect::ApplyUpdates { updates }, log: None });
            },
            Some(PendingAction::TrustAdjust { evidence_id, raise }) => {
                steps.push(Commit { effect: Effect::AdjustTrust { evidence_id, raise }, log: None });
            },
            Some(PendingAction::SkillNew { name, description }) => {
                steps.push(Commit { effect: Effect::AddSkill { name, description }, log: None });
            },
            Some(PendingAction::SkillAdd { name, text }) => {
                steps.push(Commit { effect: Effect::AddSkillStep { name, text }, log: None });
            },
            Some(PendingAction::Suggestion { plans }) => {
                steps.push(Commit { effect: Effect::NotePlans { plans }, log: None });
            },
        }
        assert(steps@ =~= commit_plan(before->0));
        Response::Committed { steps }
    }

    /// Drops the pending proposal; a rejected concept proposal is logged as a rejected claim.
    pub fn reject(&mut self) -> (r: Response)
        ensures
            final(self).pending is None,
            match old(self).pending {
                None => r == Response::NoPending,
                Some(p) => r == Response::Rejected { log: reject_log(p) },
            },
    {
        match self.pending.take() {
            None => Response::NoPending,
            Some(PendingAction::Concept { name, .. }) => Response::Rejected {
                log: Some(LogEntry { concept: name, kind: EventKind::RejectClaim }),
            },
            Some(_) => Response::Rejected { log: None },
        }
    }
}

} // verus!

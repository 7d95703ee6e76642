use mother::confidence::ConfidenceUpdate;
use mother::gaps::GapPlan;
use mother::proposal::{Effect, Intent, PendingAction, ProposalEngine, Response, PROPOSED_CONFIDENCE};
use mother::records::{EventKind, Outcome};

fn s(x: &str) -> String {
    x.to_string()
}

fn learn(name: &str, def: &str) -> Intent {
    Intent::LearnConcept { name: s(name), definition: s(def) }
}

#[test]
fn learn_then_confirm_upserts_and_logs_a_confirmation() {
    let mut e = ProposalEngine::new();
    assert!(e.is_idle());
    assert!(matches!(e.propose(learn("jwt", "a signed token")), Response::Proposed));
    match &e.pending {
        Some(PendingAction::Concept { name, definition, confidence }) => {
            assert_eq!(name, "jwt");
            assert_eq!(definition, "a signed token");
            assert_eq!(*confidence, PROPOSED_CONFIDENCE);
        }
        other => panic!("unexpected pending {:?}", other),
    }
    match e.confirm() {
        Response::Committed { steps } => {
            assert_eq!(steps.len(), 1);
            assert!(matches!(&steps[0].effect, Effect::UpsertConcept { name, confidence: 4000, .. } if name == "jwt"));
            let log = steps[0].log.as_ref().unwrap();
            assert_eq!(log.concept, "jwt");
            assert_eq!(log.kind, EventKind::ConfirmClaim);
        }
        other => panic!("unexpected {:?}", other),
    }
    assert!(e.is_idle());
}

#[test]
fn second_intent_while_pending_is_refused() {
    let mut e = ProposalEngine::new();
    e.propose(learn("a", "first"));
    let r = e.propose(Intent::AddRelation { from: s("a"), relation_type: s("uses"), to: s("b") });
    assert!(matches!(r, Response::Busy));
    assert!(matches!(&e.pending, Some(PendingAction::Concept { name, .. }) if name == "a"));
    let r = e.episode_recorded(7, Outcome::Note, "a note", &vec![s("a")]);
    assert!(matches!(r, Response::Busy));
    assert!(matches!(&e.pending, Some(PendingAction::Concept { .. })));
}

#[test]
fn rejecting_a_concept_logs_a_rejected_claim() {
    let mut e = ProposalEngine::new();
    e.propose(learn("oauth", "delegated authorisation"));
    match e.reject() {
        Response::Rejected { log: Some(l) } => {
            assert_eq!(l.concept, "oauth");
            assert_eq!(l.kind, EventKind::RejectClaim);
        }
        other => panic!("unexpected {:?}", other),
    }
    assert!(e.is_idle());
}

#[test]
fn rejecting_other_actions_leaves_no_trace() {
    let mut e = ProposalEngine::new();
    e.propose(Intent::AdjustTrust { evidence_id: 3, raise: true });
    assert!(matches!(e.reject(), Response::Rejected { log: None }));
    assert!(e.is_idle());
    assert!(matches!(e.reject(), Response::NoPending));
    assert!(matches!(e.confirm(), Response::NoPending));
}

#[test]
fn empty_fields_are_invalid() {
    let mut e = ProposalEngine::new();
    assert!(matches!(e.propose(learn("", "x")), Response::Invalid));
    assert!(matches!(e.propose(learn("x", "")), Response::Invalid));
    assert!(matches!(
        e.propose(Intent::AddRelation { from: s("a"), relation_type: s(""), to: s("b") }),
        Response::Invalid
    ));
    assert!(matches!(e.propose(Intent::AddEpisode { outcome: Outcome::Success, summary: s("") }), Response::Invalid));
    assert!(matches!(e.propose(Intent::NewSkill { name: s("deploy"), description: s("") }), Response::Invalid));
    assert!(matches!(e.propose(Intent::AddSkillStep { name: s(""), text: s("x") }), Response::Invalid));
    assert!(e.is_idle());
}

#[test]
fn evidence_needs_a_known_concept_and_records_the_domain() {
    let mut e = ProposalEngine::new();
    let unknown = Intent::AddEvidence { concept: s("jwt"), content: s("spec"), source: None, concept_known: false };
    assert!(matches!(e.propose(unknown), Response::UnknownConcept));
    assert!(e.is_idle());
    let known = Intent::AddEvidence {
        concept: s("jwt"),
        content: s("rfc 7519"),
        source: Some(s("https://datatracker.ietf.org/doc/html/rfc7519")),
        concept_known: true,
    };
    assert!(matches!(e.propose(known), Response::Proposed));
    match &e.pending {
        Some(PendingAction::Evidence { domain, .. }) => assert_eq!(domain.as_deref(), Some("datatracker.ietf.org")),
        other => panic!("unexpected {:?}", other),
    }
    match e.confirm() {
        Response::Committed { steps } => {
            assert!(matches!(&steps[0].effect, Effect::AddEvidence { concept, .. } if concept == "jwt"));
            assert_eq!(steps[0].log.as_ref().unwrap().kind, EventKind::ConfirmClaim);
        }
        other => panic!("unexpected {:?}", other),
    }
}

#[test]
fn episode_commit_proposes_tags_and_confirming_logs_the_outcome() {
    let mut e = ProposalEngine::new();
    let ep = Intent::AddEpisode { outcome: Outcome::Failure, summary: s("jwt rotation failed") };
    assert!(matches!(e.propose(ep), Response::Proposed));
    match e.confirm() {
        Response::Committed { steps } => {
            assert_eq!(steps.len(), 1);
            assert!(steps[0].log.is_none());
            assert!(matches!(&steps[0].effect, Effect::AddEpisode { outcome: Outcome::Failure, summary } if summary == "jwt rotation failed"));
        }
        other => panic!("unexpected {:?}", other),
    }
    let names = vec![s("jwt"), s("oauth")];
    assert!(matches!(e.episode_recorded(12, Outcome::Failure, "jwt rotation failed", &names), Response::Proposed));
    match &e.pending {
        Some(PendingAction::TagEpisode { episode_id, tags, outcome }) => {
            assert_eq!(*episode_id, 12);
            assert_eq!(tags, &vec![s("jwt")]);
            assert_eq!(*outcome, Outcome::Failure);
        }
        other => panic!("unexpected {:?}", other),
    }
    match e.confirm() {
        Response::Committed { steps } => {
            assert_eq!(steps.len(), 1);
            assert!(matches!(&steps[0].effect, Effect::TagEpisode { episode_id: 12, concept } if concept == "jwt"));
            let log = steps[0].log.as_ref().unwrap();
            assert_eq!(log.concept, "jwt");
            assert_eq!(log.kind, EventKind::EpisodeFail);
        }
        other => panic!("unexpected {:?}", other),
    }
}

#[test]
fn episode_without_matching_concepts_proposes_nothing() {
    let mut e = ProposalEngine::new();
    assert!(matches!(e.episode_recorded(1, Outcome::Success, "all good", &vec![s("jwt")]), Response::NoTags));
    assert!(e.is_idle());
}

#[test]
fn recalc_and_gaps_need_something_to_propose() {
    let mut e = ProposalEngine::new();
    assert!(matches!(e.propose(Intent::Recalc { updates: vec![] }), Response::UpToDate));
    assert!(matches!(e.propose(Intent::Gaps { plans: vec![] }), Response::NoGaps));
    let ups = vec![ConfidenceUpdate { concept: s("a"), old: 3000, new: 4500 }];
    assert!(matches!(e.propose(Intent::Recalc { updates: ups }), Response::Proposed));
    match e.confirm() {
        Response::Committed { steps } => match &steps[0].effect {
            Effect::ApplyUpdates { updates } => assert_eq!(updates[0].new, 4500),
            other => panic!("unexpected {:?}", other),
        },
        other => panic!("unexpected {:?}", other),
    }
    let plans = vec![GapPlan::ReviewTrust { evidence_id: 4 }];
    assert!(matches!(e.propose(Intent::Gaps { plans }), Response::Proposed));
    match e.confirm() {
        Response::Committed { steps } => assert!(matches!(&steps[0].effect, Effect::NotePlans { plans } if plans.len() == 1)),
        other => panic!("unexpected {:?}", other),
    }
}

#[test]
fn skill_and_trust_commits() {
    let mut e = ProposalEngine::new();
    e.propose(Intent::NewSkill { name: s("deploy"), description: s("ship it") });
    assert!(matches!(e.confirm(), Response::Committed { steps } if matches!(&steps[0].effect, Effect::AddSkill { name, .. } if name == "deploy")));
    e.propose(Intent::AddSkillStep { name: s("deploy"), text: s("build") });
    assert!(matches!(e.confirm(), Response::Committed { steps } if matches!(&steps[0].effect, Effect::AddSkillStep { text, .. } if text == "build")));
    e.propose(Intent::AdjustTrust { evidence_id: 9, raise: false });
    assert!(matches!(e.confirm(), Response::Committed { steps } if matches!(steps[0].effect, Effect::AdjustTrust { evidence_id: 9, raise: false })));
}

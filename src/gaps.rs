use vstd::prelude::*;

use crate::records::{Concept, Evidence, Relation};

verus! {

/// A suggested follow-up for a weak spot in the knowledge base; nothing runs it.
#[derive(Debug, Clone)]
pub enum GapPlan {
    /// The concept has no evidence.
    SearchEvidence { concept: String },
    /// The concept takes part in no relation.
    SearchRelations { concept: String },
    /// The evidence item's trust is low.
    ReviewTrust { evidence_id: i64 },
    /// The concept's confidence is low.
    Reinforce { concept: String },
}

/// Trust and confidence below this many units (0.30) count as low.
pub const LOW_MARK: u32 = 3000;

pub open spec fn has_evidence_spec(ev: Seq<Evidence>, name: Seq<char>) -> bool {
    exists|k: int| 0 <= k < ev.len() && #[trigger] ev[k].concept_name@ == name
}

pub open spec fn has_relation_spec(rels: Seq<Relation>, name: Seq<char>) -> bool {
    exists|k: int| 0 <= k < rels.len() && (#[trigger] rels[k].from@ == name || rels[k].to@ == name)
}

/// One plan per concept without evidence, in concept order.
pub open spec fn evidence_plans(cs: Seq<Concept>, ev: Seq<Evidence>) -> Seq<GapPlan>
    decreases cs.len(),
{
    if cs.len() == 0 {
        Seq::empty()
    } else {
        let c = cs.last();
        evidence_plans(cs.drop_last(), ev) + if has_evidence_spec(ev, c.name@) {
            Seq::empty()
        } else {
            seq![GapPlan::SearchEvidence { concept: c.name }]
        }
    }
}

/// One plan per concept outside every relation, in concept order.
pub open spec fn relation_plans(cs: Seq<Concept>, rels: Seq<Relation>) -> Seq<GapPlan>
    decreases cs.len(),
{
    if cs.len() == 0 {
        Seq::empty()
    } else {
        let c = cs.last();
        relation_plans(cs.drop_last(), rels) + if has_relation_spec(rels, c.name@) {
            Seq::empty()
        } else {
            seq![GapPlan::SearchRelations { concept: c.name }]
        }
    }
}

/// One plan per low-trust evidence item of the concept named `name`, in list order.
pub open spec fn low_trust_of(ev: Seq<Evidence>, name: Seq<char>) -> Seq<GapPlan>
    decreases ev.len(),
{
    if ev.len() == 0 {
        Seq::empty()
    } else {
        let e = ev.last();
        low_trust_of(ev.drop_last(), name) + if e.concept_name@ == name && e.trust < LOW_MARK {
            seq![GapPlan::ReviewTrust { evidence_id: e.id }]
        } else {
            Seq::empty()
        }
    }
}

/// The low-trust plans of every concept, concept by concept.
pub open spec fn trust_plans(cs: Seq<Concept>, ev: Seq<Evidence>) -> Seq<GapPlan>
    decreases cs.len(),
{
    if cs.len() == 0 {
        Seq::empty()
    } else {
        trust_plans(cs.drop_last(), ev) + low_trust_of(ev, cs.last().name@)
    }
}

/// One plan per low-confidence concept, in concept order.
pub open spec fn confidence_plans(cs: Seq<Concept>) -> Seq<GapPlan>
    decreases cs.len(),
{
    if cs.len() == 0 {
        Seq::empty()
    } else {
        let c = cs.last();
        confidence_plans(cs.drop_last()) + if c.confidence < LOW_MARK {
            seq![GapPlan::Reinforce { concept: c.name }]
        } else {
            Seq::empty()
        }
    }
}

/// All gap plans: missing evidence, missing relations, low trust, low confidence.
pub open spec fn all_plans(cs: Seq<Concept>, rels: Seq<Relation>, ev: Seq<Evidence>) -> Seq<GapPlan> {
    evidence_plans(cs, ev) + relation_plans(cs, rels) + trust_plans(cs, ev) + confidence_plans(cs)
}

fn has_evidence(ev: &Vec<Evidence>, name: &String) -> (r: bool)
    ensures
        r == has_evidence_spec(ev@, name@),
{
    let mut k: usize = 0;
    while k < ev.len()
        invariant
            k <= ev.len(),
            forall|j: int| 0 <= j < k ==> ev@[j].concept_name@ != name@,
        decreases ev.len() - k,
    {
        if ev[k].concept_name == *name {
            return true;
        }
        k += 1;
    }
    false
}

fn has_relation(rels: &Vec<Relation>, name: &String) -> (r: bool)
    ensures
        r == has_relation_spec(rels@, name@),
{
    let mut k: usize = 0;
    while k < rels.len()
        invariant
            k <= rels.len(),
            forall|j: int| 0 <= j < k ==> rels@[j].from@ != name@ && rels@[j].to@ != name@,
        decreases rels.len() - k,
    {
        if rels[k].from == *name || rels[k].to == *name {
            return true;
        }
        k += 1;
    }
    false
}

fn push_low_trust(out: &mut Vec<GapPlan>, ev: &Vec<Evidence>, name: &String)
    ensures
        final(out)@ == old(out)@ + low_trust_of(ev@, name@),
{
    let ghost start = out@;
    let mut k: usize = 0;
    while k < ev.len()
        invariant
            k <= ev.len(),
            out@ == start + low_trust_of(ev@.take(k as int), name@),
        decreases ev.len() - k,
    {
        assert(ev@.take(k + 1).drop_last() =~= ev@.take(k as int));
        if ev[k].concept_name == *name && ev[k].trust < LOW_MARK {
            out.push(GapPlan::ReviewTrust { evidence_id: ev[k].id });
        }
        assert(out@ =~= start + low_trust_of(ev@.take(k + 1), name@));
        k += 1;
    }
    assert(ev@.take(ev.len() as int) =~= ev@);
}

/// Lists what the knowledge base lacks; `None` when nothing is missing.
pub fn gaps_report(concepts: &Vec<Concept>, rels: &Vec<Relation>, evidence: &Vec<Evidence>) -> (r:
    Option<Vec<GapPlan>>)
    ensures
        match r {
            None => all_plans(concepts@, rels@, evidence@).len() == 0,
            Some(v) => v.len() > 0 && v@ == all_plans(concepts@, rels@, evidence@),
        },
{
    let ghost cs = concepts@;
    let mut plans: Vec<GapPlan> = Vec::new();
    let mut i: usize = 0;
    while i < concepts.len()
        invariant
            i <= concepts.len(),
            cs == concepts@,
            plans@ == evidence_plans(cs.take(i as int), evidence@),
        decreases concepts.len() - i,
    {
        assert(cs.take(i + 1).drop_last() =~= cs.take(i as int));
        if !has_evidence(evidence, &concepts[i].name) {
            plans.push(GapPlan::SearchEvidence { concept: concepts[i].name.clone() });
        }
        assert(plans@ =~= evidence_plans(cs.take(i + 1), evidence@));
        i += 1;
    }
    assert(cs.take(cs.len() as int) =~= cs);
    let ghost after_evidence = plans@;
    let mut i: usize = 0;
    while i < concepts.len()
        invariant
            i <= concepts.len(),
            cs == concepts@,
            plans@ == after_evidence + relation_plans(cs.take(i as int), rels@),
        decreases concepts.len() - i,
    {
        assert(cs.take(i + 1).drop_last() =~= cs.take(i as int));
        if !has_relation(rels, &concepts[i].name) {
            plans.push(GapPlan::SearchRelations { concept: concepts[i].name.clone() });
        }
        assert(plans@ =~= after_evidence + relation_plans(cs.take(i + 1), rels@));
        i += 1;
    }
    let ghost after_relations = plans@;
    let mut i: usize = 0;
    while i < concepts.len()
        invariant
            i <= concepts.len(),
            cs == concepts@,
            plans@ == after_relations + trust_plans(cs.take(i as int), evidence@),
        decreases concepts.len() - i,
    {
        assert(cs.take(i + 1).drop_last() =~= cs.take(i as int));
        push_low_trust(&mut plans, evidence, &concepts[i].name);
        assert(plans@ =~= after_relations + trust_plans(cs.take(i + 1), evidence@));
        i += 1;
    }
    let ghost after_trust = plans@;
    let mut i: usize = 0;
    while i < concepts.len()
        invariant
            i <= concepts.len(),
            cs == concepts@,
            plans@ == after_trust + confidence_plans(cs.take(i as int)),
        decreases concepts.len() - i,
    {
        assert(cs.take(i + 1).drop_last() =~= cs.take(i as int));
        if concepts[i].confidence < LOW_MARK {
            plans.push(GapPlan::Reinforce { concept: concepts[i].name.clone() });
        }
        assert(plans@ =~= after_trust + confidence_plans(cs.take(i + 1)));
        i += 1;
    }
    assert(plans@ =~= all_plans(cs, rels@, evidence@));
    if plans.len() == 0 {
        None
    } else {
        Some(plans)
    }
}

} // verus!

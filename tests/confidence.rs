use mother::confidence::{
    apply_updates, compute_updates, score_units, target_for, ConfidenceUpdate, EventCount,
    TrustTotal,
};
use mother::records::{Concept, EventKind, SCALE};

fn concept(name: &str, confidence: u32) -> Concept {
    Concept {
        id: 1,
        name: name.to_string(),
        definition: format!("about {}", name),
        confidence,
        created_at: "t0".to_string(),
    }
}

fn events(name: &str, kind: EventKind, count: u64) -> EventCount {
    EventCount { concept: name.to_string(), kind, count }
}

#[test]
fn jwt_scenario_two_confirms_and_trust() {
    // 0.30 + 2 * 0.15 + 0.25 * (0.70 - 0.50) = 0.65
    assert_eq!(score_units(2, 0, 0, 0, 7000, 1), 6500);
    let cs = vec![concept("jwt", 3000)];
    let ev = vec![events("jwt", EventKind::ConfirmClaim, 2)];
    let tr = vec![TrustTotal { concept: "jwt".to_string(), total: 7000, samples: 1 }];
    let ups = compute_updates(&cs, &ev, &tr);
    assert_eq!(ups.len(), 1);
    assert_eq!(ups[0].concept, "jwt");
    assert_eq!(ups[0].old, 3000);
    assert_eq!(ups[0].new, 6500);
}

#[test]
fn score_without_evidence_counts_trust_as_half() {
    assert_eq!(score_units(0, 0, 0, 0, 0, 0), 3000);
    assert_eq!(score_units(1, 1, 1, 1, 0, 0), 3000 + 1500 - 1200);
    assert_eq!(score_units(0, 0, 2, 0, 0, 0), 4600);
}

#[test]
fn score_rounds_trust_term_down() {
    // average trust 0.5333..: quarter of 0.0333.. is 83.33 units, rounded down
    assert_eq!(score_units(0, 0, 0, 0, 16000, 3), 3083);
    // average trust 0.4: the shift is -250 units
    assert_eq!(score_units(0, 0, 0, 0, 4000, 1), 2750);
    // average trust 0.49997: -0.0000075 rounds down to -1 unit
    assert_eq!(score_units(0, 0, 0, 0, 9999, 2), 2999);
}

#[test]
fn score_clamps_to_unit_interval() {
    assert_eq!(score_units(10, 0, 0, 0, 0, 0), SCALE);
    assert_eq!(score_units(0, 5, 0, 0, 0, 0), 0);
    assert_eq!(score_units(u64::MAX, 0, 0, 0, u64::MAX, 1), SCALE);
    assert_eq!(score_units(0, u64::MAX, 0, u64::MAX, 0, u64::MAX), 0);
}

#[test]
fn later_rows_override_earlier_ones() {
    let ev = vec![
        events("a", EventKind::ConfirmClaim, 5),
        events("b", EventKind::ConfirmClaim, 1),
        events("a", EventKind::ConfirmClaim, 1),
    ];
    assert_eq!(target_for(&"a".to_string(), &ev, &vec![]), 4500);
    assert_eq!(target_for(&"c".to_string(), &ev, &vec![]), 3000);
}

#[test]
fn unchanged_concepts_are_left_out() {
    let cs = vec![concept("a", 3000), concept("b", 3000)];
    let ev = vec![events("b", EventKind::EpisodeFail, 1)];
    let ups = compute_updates(&cs, &ev, &vec![]);
    assert_eq!(ups.len(), 1);
    assert_eq!(ups[0].concept, "b");
    assert_eq!(ups[0].new, 2200);
}

#[test]
fn recalculation_reaches_a_fixed_point() {
    let mut cs = vec![concept("a", 3000), concept("b", 9000), concept("c", 3000)];
    let ev = vec![
        events("a", EventKind::ConfirmClaim, 3),
        events("b", EventKind::RejectClaim, 1),
        events("c", EventKind::EpisodeNote, 4),
    ];
    let tr = vec![TrustTotal { concept: "b".to_string(), total: 1000, samples: 2 }];
    let ups = compute_updates(&cs, &ev, &tr);
    assert_eq!(ups.len(), 2);
    apply_updates(&mut cs, &ups);
    assert_eq!(cs[0].confidence, 7500);
    assert_eq!(cs[1].confidence, 3000 - 1200 - 1125);
    assert_eq!(cs[2].confidence, 3000);
    assert!(compute_updates(&cs, &ev, &tr).is_empty());
}

#[test]
fn recalculation_is_deterministic() {
    let cs = vec![concept("x", 1000), concept("y", 1000)];
    let ev1 = vec![events("x", EventKind::ConfirmClaim, 1), events("y", EventKind::EpisodeOk, 2)];
    let ev2 = vec![events("y", EventKind::EpisodeOk, 2), events("x", EventKind::ConfirmClaim, 1)];
    let a = compute_updates(&cs, &ev1, &vec![]);
    let b = compute_updates(&cs, &ev1, &vec![]);
    let c = compute_updates(&cs, &ev2, &vec![]);
    let view = |v: &Vec<ConfidenceUpdate>| {
        v.iter().map(|u| (u.concept.clone(), u.old, u.new)).collect::<Vec<_>>()
    };
    assert_eq!(view(&a), view(&b));
    assert_eq!(view(&a), view(&c));
}

#[test]
fn confidence_stays_in_range_over_many_batches() {
    let mut cs = vec![concept("p", 0), concept("q", SCALE)];
    for round in 0..5u64 {
        let ev = vec![
            events("p", EventKind::ConfirmClaim, round * 3),
            events("q", EventKind::RejectClaim, round * 2),
        ];
        let ups = compute_updates(&cs, &ev, &vec![]);
        for u in ups.iter() {
            assert!(u.new <= SCALE);
        }
        apply_updates(&mut cs, &ups);
        for c in cs.iter() {
            assert!(c.confidence <= SCALE);
        }
    }
}

#[test]
fn apply_overwrites_only_named_concepts() {
    let mut cs = vec![concept("a", 100), concept("b", 200)];
    let ups = vec![ConfidenceUpdate { concept: "b".to_string(), old: 200, new: 900 }];
    apply_updates(&mut cs, &ups);
    assert_eq!(cs[0].confidence, 100);
    assert_eq!(cs[1].confidence, 900);
    assert_eq!(cs[1].definition, "about b");
}

use mother::gaps::{gaps_report, GapPlan};
use mother::records::{adjusted_trust, Concept, Evidence, Relation};
use mother::tags::suggest_tags;
use mother::screen::{screen_action, Screen, ScreenAction};
use mother::text::derive_domain;

fn concept(name: &str, confidence: u32) -> Concept {
    Concept { id: 0, name: name.to_string(), definition: String::new(), confidence, created_at: String::new() }
}

fn evidence(id: i64, concept: &str, trust: u32) -> Evidence {
    Evidence {
        id,
        concept_name: concept.to_string(),
        content: String::new(),
        source: None,
        domain: None,
        trust,
        created_at: String::new(),
    }
}

#[test]
fn tags_match_case_insensitively_once_each() {
    let names = vec!["jwt".to_string(), "oauth".to_string(), "jwt".to_string(), "saml".to_string()];
    assert_eq!(suggest_tags(&names, "JWT and OAuth rotation"), Some(vec!["jwt".to_string(), "oauth".to_string()]));
    assert_eq!(suggest_tags(&names, "nothing relevant"), None);
    assert_eq!(suggest_tags(&vec![], "jwt"), None);
}

#[test]
fn domain_is_the_host_part() {
    assert_eq!(derive_domain("https://example.org/a/b").as_deref(), Some("example.org"));
    assert_eq!(derive_domain("ftp://host").as_deref(), Some("host"));
    assert_eq!(derive_domain("x://"), Some(String::new()));
    assert_eq!(derive_domain("example.org/a"), None);
}

#[test]
fn gaps_list_all_four_kinds_in_order() {
    let cs = vec![concept("a", 5000), concept("b", 1000)];
    let rels = vec![Relation {
        id: 1,
        from: "a".to_string(),
        relation_type: "r".to_string(),
        to: "z".to_string(),
        created_at: String::new(),
    }];
    let ev = vec![evidence(7, "a", 2000), evidence(8, "a", 9000)];
    let plans = gaps_report(&cs, &rels, &ev).unwrap();
    let shown: Vec<String> = plans
        .iter()
        .map(|p| match p {
            GapPlan::SearchEvidence { concept } => format!("evidence {}", concept),
            GapPlan::SearchRelations { concept } => format!("relations {}", concept),
            GapPlan::ReviewTrust { evidence_id } => format!("trust {}", evidence_id),
            GapPlan::Reinforce { concept } => format!("reinforce {}", concept),
        })
        .collect();
    assert_eq!(shown, vec!["evidence b", "relations b", "trust 7", "reinforce b"]);
}

#[test]
fn no_gaps_gives_none() {
    let cs = vec![concept("a", 3000)];
    let rels = vec![Relation { id: 1, from: "a".to_string(), relation_type: "r".to_string(), to: "a".to_string(), created_at: String::new() }];
    let ev = vec![evidence(1, "a", 3000)];
    assert!(gaps_report(&cs, &rels, &ev).is_none());
}

#[test]
fn trust_moves_in_bounded_steps() {
    assert_eq!(adjusted_trust(5000, true), 6000);
    assert_eq!(adjusted_trust(9500, true), 10000);
    assert_eq!(adjusted_trust(10000, true), 10000);
    assert_eq!(adjusted_trust(5000, false), 4000);
    assert_eq!(adjusted_trust(400, false), 0);
}

#[test]
fn front_end_commands() {
    assert_eq!(screen_action("c"), ScreenAction::Switch(Screen::Console));
    assert_eq!(screen_action("d"), ScreenAction::Switch(Screen::Dialog));
    assert_eq!(screen_action("g"), ScreenAction::Switch(Screen::Graph));
    assert_eq!(screen_action("q"), ScreenAction::Quit);
    assert_eq!(screen_action(""), ScreenAction::Nothing);
    assert_eq!(screen_action("quit"), ScreenAction::Unknown);
    assert_eq!(screen_action("x"), ScreenAction::Unknown);
}

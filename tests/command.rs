use mother::command::{parse_command, Command, Usage};
use mother::proposal::Intent;
use mother::records::Outcome;

fn malformed(line: &str) -> Usage {
    match parse_command(line) {
        Command::Malformed(u) => u,
        other => panic!("{:?} parsed as {:?}", line, other),
    }
}

#[test]
fn blank_and_keyword_lines() {
    assert!(matches!(parse_command("   "), Command::Empty));
    assert!(matches!(parse_command(" ReCalc "), Command::Recalc));
    assert!(matches!(parse_command("GAPS"), Command::Gaps));
    assert!(matches!(parse_command("list"), Command::List));
    assert!(matches!(parse_command("Model Status"), Command::ModelStatus));
}

#[test]
fn learn_lowercases_the_name() {
    match parse_command("learn JWT is A signed token is nice ") {
        Command::Propose(Intent::LearnConcept { name, definition }) => {
            assert_eq!(name, "jwt");
            assert_eq!(definition, "A signed token is nice");
        }
        other => panic!("{:?}", other),
    }
    assert_eq!(malformed("learn jwt"), Usage::Learn);
    assert_eq!(malformed("learn  is x"), Usage::LearnFields);
}

#[test]
fn relation_joins_the_tail() {
    match parse_command("rel JWT used_for  Web   Authentication") {
        Command::Propose(Intent::AddRelation { from, relation_type, to }) => {
            assert_eq!(from, "jwt");
            assert_eq!(relation_type, "used_for");
            assert_eq!(to, "web authentication");
        }
        other => panic!("{:?}", other),
    }
    assert_eq!(malformed("rel a b"), Usage::Relation);
}

#[test]
fn episode_forms() {
    match parse_command("ep FAIL  jwt rotation failed ") {
        Command::Propose(Intent::AddEpisode { outcome, summary }) => {
            assert_eq!(outcome, Outcome::Failure);
            assert_eq!(summary, "jwt rotation failed");
        }
        other => panic!("{:?}", other),
    }
    assert_eq!(malformed("ep maybe it worked"), Usage::Episode);
    assert_eq!(malformed("ep ok"), Usage::Episode);
}

#[test]
fn episodes_listing() {
    assert!(matches!(parse_command("episodes"), Command::Episodes { concept: None }));
    match parse_command("Episodes JWT extra") {
        Command::Episodes { concept: Some(c) } => assert_eq!(c, "jwt"),
        other => panic!("{:?}", other),
    }
}

#[test]
fn evidence_forms() {
    match parse_command("evidence JWT :: signed claims :: https://jwt.io/intro") {
        Command::Evidence { concept, content, source } => {
            assert_eq!(concept, "jwt");
            assert_eq!(content, "signed claims");
            assert_eq!(source.as_deref(), Some("https://jwt.io/intro"));
        }
        other => panic!("{:?}", other),
    }
    match parse_command("evidence jwt :: claims ::  ") {
        Command::Evidence { source, .. } => assert!(source.is_none()),
        other => panic!("{:?}", other),
    }
    assert_eq!(malformed("evidence jwt claims"), Usage::Evidence);
    assert_eq!(malformed("evidence  :: claims"), Usage::EvidenceFields);
}

#[test]
fn trust_forms() {
    assert!(matches!(parse_command("trust 42 UP"), Command::Propose(Intent::AdjustTrust { evidence_id: 42, raise: true })));
    assert!(matches!(parse_command("trust -7 down"), Command::Propose(Intent::AdjustTrust { evidence_id: -7, raise: false })));
    assert_eq!(malformed("trust 42"), Usage::Trust);
    assert_eq!(malformed("trust x up"), Usage::TrustId);
    assert_eq!(malformed("trust 99999999999999999999 up"), Usage::TrustId);
    assert_eq!(malformed("trust 4 sideways"), Usage::TrustDirection);
    assert!(matches!(
        parse_command("trust -9223372036854775808 up"),
        Command::Propose(Intent::AdjustTrust { evidence_id: i64::MIN, raise: true })
    ));
}

#[test]
fn show_and_skill_forms() {
    assert!(matches!(parse_command("show  JWT "), Command::Show { name } if name == "jwt"));
    match parse_command("skill NEW Deploy :: Ship It") {
        Command::Propose(Intent::NewSkill { name, description }) => {
            assert_eq!(name, "deploy");
            assert_eq!(description, "ship it");
        }
        other => panic!("{:?}", other),
    }
    match parse_command("skill add deploy :: run the build") {
        Command::Propose(Intent::AddSkillStep { name, text }) => {
            assert_eq!(name, "deploy");
            assert_eq!(text, "run the build");
        }
        other => panic!("{:?}", other),
    }
    assert!(matches!(parse_command("skill run Deploy"), Command::SkillShow { name, run: true } if name == "deploy"));
    assert!(matches!(parse_command("skill show deploy"), Command::SkillShow { run: false, .. }));
    assert_eq!(malformed("skill new deploy"), Usage::SkillNew);
    assert_eq!(malformed("skill new a :: b :: c"), Usage::SkillNew);
    assert_eq!(malformed("skill add deploy ::  "), Usage::SkillAddFields);
    assert_eq!(malformed("skill dance"), Usage::Skill);
}

#[test]
fn anything_else_is_reflected() {
    assert!(matches!(parse_command("  why is the sky blue "), Command::Reflect { text } if text == "why is the sky blue"));
    assert!(matches!(parse_command("show"), Command::Reflect { .. }));
}

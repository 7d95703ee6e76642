use vstd::prelude::*;

use crate::proposal::Intent;
use crate::records::Outcome;
use crate::scan::{
    after_sep, before_sep, find_range, nocase_eq, nocase_range, parse_i64_range, parse_i64_spec,
    starts_range, starts_with, word_bounds,
};
use crate::search::{trim_range, trim_spec, words};
use crate::text::{chars_of, lower_of, lowercase, opt_view};

verus! {

/// Which form of a command was malformed.
#[derive(Clone, Copy, Debug, PartialEq, Eq, Structural)]
pub enum Usage {
    Episode,
    Evidence,
    EvidenceFields,
    Trust,
    TrustId,
    TrustDirection,
    Learn,
    LearnFields,
    Relation,
    RelationFields,
    SkillNew,
    SkillNewFields,
    SkillAdd,
    SkillAddFields,
    Skill,
}

/// What a line typed by the operator asks for.
#[derive(Debug)]
pub enum Command {
    /// A blank line.
    Empty,
    Recalc,
    Gaps,
    List,
    ModelStatus,
    Episodes { concept: Option<String> },
    Show { name: String },
    SkillShow { name: String, run: bool },
    /// Attaching evidence, once the concept has been looked up.
    Evidence { concept: String, content: String, source: Option<String> },
    /// A mutation that needs no lookup.
    Propose(Intent),
    Malformed(Usage),
    /// Unrecognised text, reflected back.
    Reflect { text: String },
}

pub open spec fn outcome_named(w: Seq<char>) -> Option<Outcome> {
    if w == "ok"@ {
        Some(Outcome::Success)
    } else if w == "fail"@ {
        Some(Outcome::Failure)
    } else if w == "note"@ {
        Some(Outcome::Note)
    } else {
        None
    }
}

/// The words of `ws` joined by single spaces.
pub open spec fn join_words(ws: Seq<Seq<char>>) -> Seq<char>
    decreases ws.len(),
{
    if ws.len() == 0 {
        Seq::empty()
    } else if ws.len() == 1 {
        ws[0]
    } else {
        join_words(ws.drop_last()) + " "@ + ws.last()
    }
}

pub open spec fn episodes_ok(t: Seq<char>, c: Command) -> bool {
    let ws = words(t);
    match c {
        Command::Episodes { concept } => if ws.len() < 2 {
            concept is None
        } else {
            opt_view(concept) == Some(lower_of(ws[1]))
        },
        _ => false,
    }
}

pub open spec fn episode_ok(rest: Seq<char>, c: Command) -> bool {
    let word = lower_of(trim_spec(before_sep(rest, " "@)));
    let summary = match after_sep(rest, " "@) {
        Some(x) => trim_spec(x),
        None => Seq::empty(),
    };
    if outcome_named(word) is Some && summary.len() > 0 {
        match c {
            Command::Propose(Intent::AddEpisode { outcome, summary: s }) => Some(outcome)
                == outcome_named(word) && s@ == summary,
            _ => false,
        }
    } else {
        c == Command::Malformed(Usage::Episode)
    }
}

pub open spec fn evidence_ok(rest: Seq<char>, c: Command) -> bool {
    match after_sep(rest, "::"@) {
        None => c == Command::Malformed(Usage::Evidence),
        Some(r1) => {
            let concept = lower_of(trim_spec(before_sep(rest, "::"@)));
            let content = trim_spec(before_sep(r1, "::"@));
            let source = match after_sep(r1, "::"@) {
                Some(r2) => if trim_spec(before_sep(r2, "::"@)).len() > 0 {
                    Some(trim_spec(before_sep(r2, "::"@)))
                } else {
                    None
                },
                None => None,
            };
            if concept.len() == 0 || content.len() == 0 {
                c == Command::Malformed(Usage::EvidenceFields)
            } else {
                match c {
                    Command::Evidence { concept: n, content: t, source: s } => n@ == concept
                        && t@ == content && opt_view(s) == source,
                    _ => false,
                }
            }
        },
    }
}

pub open spec fn trust_ok(rest: Seq<char>, c: Command) -> bool {
    let ws = words(rest);
    if ws.len() != 2 {
        c == Command::Malformed(Usage::Trust)
    } else {
        match parse_i64_spec(ws[0]) {
            None => c == Command::Malformed(Usage::TrustId),
            Some(id) => if lower_of(ws[1]) == "up"@ {
                c == Command::Propose(Intent::AdjustTrust { evidence_id: id, raise: true })
            } else if lower_of(ws[1]) == "down"@ {
                c == Command::Propose(Intent::AdjustTrust { evidence_id: id, raise: false })
            } else {
                c == Command::Malformed(Usage::TrustDirection)
            },
        }
    }
}

pub open spec fn learn_ok(rest: Seq<char>, c: Command) -> bool {
    match after_sep(rest, " is "@) {
        None => c == Command::Malformed(Usage::Learn),
        Some(d) => {
            let name = lower_of(trim_spec(before_sep(rest, " is "@)));
            let definition = trim_spec(d);
            if name.len() == 0 || definition.len() == 0 {
                c == Command::Malformed(Usage::LearnFields)
            } else {
                match c {
                    Command::Propose(Intent::LearnConcept { name: n, definition: t }) => n@
                        == name && t@ == definition,
                    _ => false,
                }
            }
        },
    }
}

pub open spec fn relation_ok(rest: Seq<char>, c: Command) -> bool {
    let ws = words(rest);
    if ws.len() < 3 {
        c == Command::Malformed(Usage::Relation)
    } else {
        let from = lower_of(trim_spec(ws[0]));
        let kind = lower_of(trim_spec(ws[1]));
        let to = lower_of(trim_spec(join_words(ws.skip(2))));
        if from.len() == 0 || kind.len() == 0 || to.len() == 0 {
            c == Command::Malformed(Usage::RelationFields)
        } else {
            match c {
                Command::Propose(Intent::AddRelation { from: f, relation_type: k, to: t }) => f@
                    == from && k@ == kind && t@ == to,
                _ => false,
            }
        }
    }
}

/// `name :: text` with exactly one separator, for the skill commands.
pub open spec fn skill_pair_ok(x: Seq<char>, adding: bool, c: Command) -> bool {
    let whole = if adding {
        Usage::SkillAdd
    } else {
        Usage::SkillNew
    };
    let fields = if adding {
        Usage::SkillAddFields
    } else {
        Usage::SkillNewFields
    };
    match after_sep(x, "::"@) {
        None => c == Command::Malformed(whole),
        Some(r1) => if after_sep(r1, "::"@) is Some {
            c == Command::Malformed(whole)
        } else {
            let name = lower_of(trim_spec(before_sep(x, "::"@)));
            let text = trim_spec(r1);
            if name.len() == 0 || text.len() == 0 {
                c == Command::Malformed(fields)
            } else if adding {
                match c {
                    Command::Propose(Intent::AddSkillStep { name: n, text: t }) => n@ == name
                        && t@ == text,
                    _ => false,
                }
            } else {
                match c {
                    Command::Propose(Intent::NewSkill { name: n, description: t }) => n@ == name
                        && t@ == text,
                    _ => false,
                }
            }
        },
    }
}

pub open spec fn skill_ok(low: Seq<char>, c: Command) -> bool {
    if starts_with(low, "new "@) {
        skill_pair_ok(low.skip(4), false, c)
    } else if starts_with(low, "add "@) {
        skill_pair_ok(low.skip(4), true, c)
    } else if starts_with(low, "show "@) {
        match c {
            Command::SkillShow { name, run } => !run && name@ == lower_of(trim_spec(low.skip(5))),
            _ => false,
        }
    } else if starts_with(low, "run "@) {
        match c {
            Command::SkillShow { name, run } => run && name@ == lower_of(trim_spec(low.skip(4))),
            _ => false,
        }
    } else {
        c == Command::Malformed(Usage::Skill)
    }
}

/// The command grammar: the first form that the trimmed line matches decides.
pub open spec fn parsed(line: Seq<char>, c: Command) -> bool {
    let t = trim_spec(line);
    if t.len() == 0 {
        c == Command::Empty
    } else if nocase_eq(t, "recalc"@) {
        c == Command::Recalc
    } else if nocase_eq(t, "gaps"@) {
        c == Command::Gaps
    } else if starts_with(lower_of(t), "episodes"@) {
        episodes_ok(t, c)
    } else if starts_with(t, "ep "@) {
        episode_ok(t.skip(3), c)
    } else if starts_with(t, "evidence "@) {
        evidence_ok(t.skip(9), c)
    } else if starts_with(t, "trust "@) {
        trust_ok(t.skip(6), c)
    } else if nocase_eq(t, "list"@) {
        c == Command::List
    } else if starts_with(t, "show "@) {
        match c {
            Command::Show { name } => name@ == lower_of(trim_spec(t.skip(5))),
            _ => false,
        }
    } else if starts_with(t, "learn "@) {
        learn_ok(t.skip(6), c)
    } else if starts_with(t, "rel "@) {
        relation_ok(t.skip(4), c)
    } else if starts_with(t, "skill "@) {
        skill_ok(lower_of(t.skip(6)), c)
    } else if nocase_eq(t, "model status"@) {
        c == Command::ModelStatus
    } else {
        match c {
            Command::Reflect { text } => text@ == t,
            _ => false,
        }
    }
}

/// `src[a..b]` as a string.
fn piece(src: &str, cs: &Vec<char>, a: usize, b: usize) -> (r: String)
    requires
        cs@ == src@,
        a <= b <= cs.len(),
    ensures
        r@ == cs@.subrange(a as int, b as int),
{
    String::from_str(src.substring_char(a, b))
}

/// `src[a..b]`, trimmed.
fn trimmed_piece(src: &str, cs: &Vec<char>, a: usize, b: usize) -> (r: String)
    requires
        cs@ == src@,
        a <= b <= cs.len(),
    ensures
        r@ == trim_spec(cs@.subrange(a as int, b as int)),
{
    let (x, y) = trim_range(cs, a, b);
    piece(src, cs, x, y)
}

/// `src[a..b]`, trimmed and in lower case.
fn lower_piece(src: &str, cs: &Vec<char>, a: usize, b: usize) -> (r: String)
    requires
        cs@ == src@,
        a <= b <= cs.len(),
    ensures
        r@ == lower_of(trim_spec(cs@.subrange(a as int, b as int))),
{
    let (x, y) = trim_range(cs, a, b);
    lowercase(src.substring_char(x, y))
}

fn same_text(s: &String, lit: &str) -> (r: bool)
    ensures
        r == (s@ == lit@),
{
    *s == String::from_str(lit)
}

fn named_outcome(w: &String) -> (r: Option<Outcome>)
    ensures
        r == outcome_named(w@),
{
    if same_text(w, "ok") {
        Some(Outcome::Success)
    } else if same_text(w, "fail") {
        Some(Outcome::Failure)
    } else if same_text(w, "note") {
        Some(Outcome::Note)
    } else {
        None
    }
}

proof fn lemma_split_at(s: Seq<char>, a: int, k: int, n: int, sep: Seq<char>)
    requires
        0 <= a <= k,
        k + sep.len() <= n <= s.len(),
        crate::scan::find_in(s.subrange(a, n), sep) == Some(k - a),
    ensures
        before_sep(s.subrange(a, n), sep) == s.subrange(a, k),
        after_sep(s.subrange(a, n), sep) == Some(s.subrange(k + sep.len(), n)),
{
    assert(s.subrange(a, n).take(k - a) =~= s.subrange(a, k));
    assert(s.subrange(a, n).skip(k - a + sep.len()) =~= s.subrange(k + sep.len(), n));
}

fn parse_episode(src: &str, cs: &Vec<char>, a: usize) -> (c: Command)
    requires
        cs@ == src@,
        a <= cs.len(),
    ensures
        episode_ok(cs@.subrange(a as int, cs.len() as int), c),
{
    proof {
        reveal_strlit(" ");
    }
    let n = cs.len();
    let sp = chars_of(" ");
    let found = find_range(cs, a, n, &sp);
    let (word, summary) = match found {
        Some(k) => {
            proof {
                lemma_split_at(cs@, a as int, k as int, n as int, sp@);
            }
            (lower_piece(src, cs, a, k), trimmed_piece(src, cs, k + 1, n))
        },
        None => {
            assert(cs@.subrange(a as int, n as int) == before_sep(cs@.subrange(a as int, n as int), " "@));
            (lower_piece(src, cs, a, n), String::new())
        },
    };
    match named_outcome(&word) {
        Some(outcome) => {
            if summary.as_str().is_empty() {
                Command::Malformed(Usage::Episode)
            } else {
                Command::Propose(Intent::AddEpisode { outcome, summary })
            }
        },
        None => Command::Malformed(Usage::Episode),
    }
}

fn parse_evidence(src: &str, cs: &Vec<char>, a: usize) -> (c: Command)
    requires
        cs@ == src@,
        a <= cs.len(),
    ensures
        evidence_ok(cs@.subrange(a as int, cs.len() as int), c),
{
    proof {
        reveal_strlit("::");
    }
    let n = cs.len();
    let dc = chars_of("::");
    let k0 = match find_range(cs, a, n, &dc) {
        None => {
            return Command::Malformed(Usage::Evidence);
        },
        Some(k) => k,
    };
    proof {
        lemma_split_at(cs@, a as int, k0 as int, n as int, dc@);
    }
    let concept = lower_piece(src, cs, a, k0);
    let r1 = k0 + 2;
    let (content, source) = match find_range(cs, r1, n, &dc) {
        Some(k1) => {
            proof {
                lemma_split_at(cs@, r1 as int, k1 as int, n as int, dc@);
            }
            let content = trimmed_piece(src, cs, r1, k1);
            let r2 = k1 + 2;
            let e2 = match find_range(cs, r2, n, &dc) {
                Some(k2) => {
                    proof {
                        lemma_split_at(cs@, r2 as int, k2 as int, n as int, dc@);
                    }
                    k2
                },
                None => n,
            };
            let src_text = trimmed_piece(src, cs, r2, e2);
            if src_text.as_str().is_empty() {
                (content, None)
            } else {
                (content, Some(src_text))
            }
        },
        None => (trimmed_piece(src, cs, r1, n), None),
    };
    if concept.as_str().is_empty() || content.as_str().is_empty() {
        return Command::Malformed(Usage::EvidenceFields);
    }
    Command::Evidence { concept, content, source }
}

fn parse_trust(src: &str, cs: &Vec<char>, a: usize) -> (c: Command)
    requires
        cs@ == src@,
        a <= cs.len(),
    ensures
        trust_ok(cs@.subrange(a as int, cs.len() as int), c),
{
    let n = cs.len();
    let ws = word_bounds(cs, a, n);
    if ws.len() != 2 {
        return Command::Malformed(Usage::Trust);
    }
    let id = match parse_i64_range(cs, ws[0].0, ws[0].1) {
        None => {
            return Command::Malformed(Usage::TrustId);
        },
        Some(v) => v,
    };
    let dir = lowercase(src.substring_char(ws[1].0, ws[1].1));
    if same_text(&dir, "up") {
        Command::Propose(Intent::AdjustTrust { evidence_id: id, raise: true })
    } else if same_text(&dir, "down") {
        Command::Propose(Intent::AdjustTrust { evidence_id: id, raise: false })
    } else {
        Command::Malformed(Usage::TrustDirection)
    }
}

fn parse_learn(src: &str, cs: &Vec<char>, a: usize) -> (c: Command)
    requires
        cs@ == src@,
        a <= cs.len(),
    ensures
        learn_ok(cs@.subrange(a as int, cs.len() as int), c),
{
    proof {
        reveal_strlit(" is ");
    }
    let n = cs.len();
    let sep = chars_of(" is ");
    let k = match find_range(cs, a, n, &sep) {
        None => {
            return Command::Malformed(Usage::Learn);
        },
        Some(k) => k,
    };
    proof {
        lemma_split_at(cs@, a as int, k as int, n as int, sep@);
    }
    let name = lower_piece(src, cs, a, k);
    let definition = trimmed_piece(src, cs, k + 4, n);
    if name.as_str().is_empty() || definition.as_str().is_empty() {
        return Command::Malformed(Usage::LearnFields);
    }
    Command::Propose(Intent::LearnConcept { name, definition })
}

fn parse_relation(src: &str, cs: &Vec<char>, a: usize) -> (c: Command)
    requires
        cs@ == src@,
        a <= cs.len(),
    ensures
        relation_ok(cs@.subrange(a as int, cs.len() as int), c),
{
    proof {
        reveal_strlit(" ");
    }
    let n = cs.len();
    let ws = word_bounds(cs, a, n);
    let ghost wv = words(cs@.subrange(a as int, n as int));
    if ws.len() < 3 {
        return Command::Malformed(Usage::Relation);
    }
    let from = lower_piece(src, cs, ws[0].0, ws[0].1);
    let kind = lower_piece(src, cs, ws[1].0, ws[1].1);
    let mut joined = String::new();
    let mut k: usize = 2;
    assert(wv.skip(2).take(0) =~= Seq::<Seq<char>>::empty());
    while k < ws.len()
        invariant
            2 <= k <= ws.len(),
            cs@ == src@,
            ws.len() == wv.len(),
            forall|j: int|
                0 <= j < ws.len() ==> (#[trigger] ws@[j]).0 <= ws@[j].1 <= cs.len() && cs@.subrange(
                    ws@[j].0 as int,
                    ws@[j].1 as int,
                ) == wv[j],
            joined@ == join_words(wv.skip(2).take(k - 2)),
        decreases ws.len() - k,
    {
        let ghost before = joined@;
        let ghost taken = wv.skip(2).take(k - 1);
        assert(taken.drop_last() =~= wv.skip(2).take(k - 2));
        assert(taken.last() == wv[k as int]);
        if k > 2 {
            joined.append(" ");
        } else {
            assert(taken =~= seq![wv[2]]);
            assert(before =~= Seq::<char>::empty());
        }
        joined.append(src.substring_char(ws[k].0, ws[k].1));
        assert(joined@ =~= join_words(taken));
        k += 1;
    }
    assert(wv.skip(2).take(ws.len() - 2) =~= wv.skip(2));
    let jcs = chars_of(joined.as_str());
    let to = lower_piece(joined.as_str(), &jcs, 0, jcs.len());
    assert(jcs@.subrange(0, jcs.len() as int) =~= joined@);
    if from.as_str().is_empty() || kind.as_str().is_empty() || to.as_str().is_empty() {
        return Command::Malformed(Usage::RelationFields);
    }
    Command::Propose(Intent::AddRelation { from, relation_type: kind, to })
}

fn parse_skill_pair(src: &str, cs: &Vec<char>, a: usize, adding: bool) -> (c: Command)
    requires
        cs@ == src@,
        a <= cs.len(),
    ensures
        skill_pair_ok(cs@.subrange(a as int, cs.len() as int), adding, c),
{
    proof {
        reveal_strlit("::");
    }
    let whole = if adding {
        Usage::SkillAdd
    } else {
        Usage::SkillNew
    };
    let fields = if adding {
        Usage::SkillAddFields
    } else {
        Usage::SkillNewFields
    };
    let n = cs.len();
    let dc = chars_of("::");
    let k = match find_range(cs, a, n, &dc) {
        None => {
            return Command::Malformed(whole);
        },
        Some(k) => k,
    };
    proof {
        lemma_split_at(cs@, a as int, k as int, n as int, dc@);
    }
    if find_range(cs, k + 2, n, &dc).is_some() {
        return Command::Malformed(whole);
    }
    let name = lower_piece(src, cs, a, k);
    let text = trimmed_piece(src, cs, k + 2, n);
    if name.as_str().is_empty() || text.as_str().is_empty() {
        return Command::Malformed(fields);
    }
    if adding {
        Command::Propose(Intent::AddSkillStep { name, text })
    } else {
        Command::Propose(Intent::NewSkill { name, description: text })
    }
}

fn parse_skill(low: &str) -> (c: Command)
    ensures
        skill_ok(low@, c),
{
    proof {
        reveal_strlit("new ");
        reveal_strlit("add ");
        reveal_strlit("show ");
        reveal_strlit("run ");
    }
    let cs = chars_of(low);
    let n = cs.len();
    assert(cs@.subrange(0, n as int) =~= low@);
    if starts_range(&cs, 0, n, &chars_of("new ")) {
        assert(cs@.subrange(4, n as int) =~= low@.skip(4));
        return parse_skill_pair(low, &cs, 4, false);
    }
    if starts_range(&cs, 0, n, &chars_of("add ")) {
        assert(cs@.subrange(4, n as int) =~= low@.skip(4));
        return parse_skill_pair(low, &cs, 4, true);
    }
    if starts_range(&cs, 0, n, &chars_of("show ")) {
        assert(cs@.subrange(5, n as int) =~= low@.skip(5));
        return Command::SkillShow { name: lower_piece(low, &cs, 5, n), run: false };
    }
    if starts_range(&cs, 0, n, &chars_of("run ")) {
        assert(cs@.subrange(4, n as int) =~= low@.skip(4));
        return Command::SkillShow { name: lower_piece(low, &cs, 4, n), run: true };
    }
    Command::Malformed(Usage::Skill)
}

/// Reads one line typed by the operator.
pub fn parse_command(line: &str) -> (c: Command)
    ensures
        parsed(line@, c),
{
    proof {
        reveal_strlit("ep ");
        reveal_strlit("evidence ");
        reveal_strlit("trust ");
        reveal_strlit("show ");
        reveal_strlit("learn ");
        reveal_strlit("rel ");
        reveal_strlit("skill ");
    }
    let all = chars_of(line);
    assert(all@.subrange(0, all.len() as int) =~= line@);
    let (s, e) = trim_range(&all, 0, all.len());
    let t = line.substring_char(s, e);
    let cs = chars_of(t);
    let n = cs.len();
    assert(cs@.subrange(0, n as int) =~= t@);
    if n == 0 {
        return Command::Empty;
    }
    if nocase_range(&cs, 0, n, &chars_of("recalc")) {
        return Command::Recalc;
    }
    if nocase_range(&cs, 0, n, &chars_of("gaps")) {
        return Command::Gaps;
    }
    let low = lowercase(t);
    let lcs = chars_of(low.as_str());
    assert(lcs@.subrange(0, lcs.len() as int) =~= low@);
    if starts_range(&lcs, 0, lcs.len(), &chars_of("episodes")) {
        let ws = word_bounds(&cs, 0, n);
        if ws.len() < 2 {
            return Command::Episodes { concept: None };
        }
        let name = lowercase(t.substring_char(ws[1].0, ws[1].1));
        return Command::Episodes { concept: Some(name) };
    }
    if starts_range(&cs, 0, n, &chars_of("ep ")) {
        assert(cs@.subrange(3, n as int) =~= t@.skip(3));
        return parse_episode(t, &cs, 3);
    }
    if starts_range(&cs, 0, n, &chars_of("evidence ")) {
        assert(cs@.subrange(9, n as int) =~= t@.skip(9));
        return parse_evidence(t, &cs, 9);
    }
    if starts_range(&cs, 0, n, &chars_of("trust ")) {
        assert(cs@.subrange(6, n as int) =~= t@.skip(6));
        return parse_trust(t, &cs, 6);
    }
    if nocase_range(&cs, 0, n, &chars_of("list")) {
        return Command::List;
    }
    if starts_range(&cs, 0, n, &chars_of("show ")) {
        assert(cs@.subrange(5, n as int) =~= t@.skip(5));
        return Command::Show { name: lower_piece(t, &cs, 5, n) };
    }
    if starts_range(&cs, 0, n, &chars_of("learn ")) {
        assert(cs@.subrange(6, n as int) =~= t@.skip(6));
        return parse_learn(t, &cs, 6);
    }
    if starts_range(&cs, 0, n, &chars_of("rel ")) {
        assert(cs@.subrange(4, n as int) =~= t@.skip(4));
        return parse_relation(t, &cs, 4);
    }
    if starts_range(&cs, 0, n, &chars_of("skill ")) {
        let rest = lowercase(t.substring_char(6, n));
        assert(t@.subrange(6, n as int) =~= t@.skip(6));
        return parse_skill(rest.as_str());
    }
    if nocase_range(&cs, 0, n, &chars_of("model status")) {
        return Command::ModelStatus;
    }
    Command::Reflect { text: String::from_str(t) }
}

} // verus!

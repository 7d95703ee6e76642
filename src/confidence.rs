use vstd::prelude::*;
use vstd::arithmetic::div_mod::{lemma_fundamental_div_mod, lemma_fundamental_div_mod_converse};

use crate::records::{Concept, EventKind, SCALE};

verus! {

/// How many log entries of one kind a concept has.
#[derive(Debug, Clone)]
pub struct EventCount {
    pub concept: String,
    pub kind: EventKind,
    pub count: u64,
}

/// The sum of a concept's evidence trust values (in units of `1 / SCALE`) and how many there are.
#[derive(Debug, Clone)]
pub struct TrustTotal {
    pub concept: String,
    pub total: u64,
    pub samples: u64,
}

/// A proposed change of one concept's confidence.
#[derive(Debug, Clone)]
pub struct ConfidenceUpdate {
    pub concept: String,
    pub old: u32,
    pub new: u32,
}

impl View for ConfidenceUpdate {
    type V = (Seq<char>, u32, u32);

    open spec fn view(&self) -> (Seq<char>, u32, u32) {
        (self.concept@, self.old, self.new)
    }
}

pub open spec fn view_updates(s: Seq<ConfidenceUpdate>) -> Seq<(Seq<char>, u32, u32)> {
    s.map_values(|u: ConfidenceUpdate| u@)
}

/// The count that the rows give for `name` and `kind`: the last matching row wins, none means zero.
pub open spec fn count_for(rows: Seq<EventCount>, name: Seq<char>, kind: EventKind) -> int
    decreases rows.len(),
{
    if rows.len() == 0 {
        0
    } else if rows.last().concept@ == name && rows.last().kind == kind {
        rows.last().count as int
    } else {
        count_for(rows.drop_last(), name, kind)
    }
}

/// The trust sum and sample count that the rows give for `name`: the last matching row wins.
pub open spec fn trust_for(rows: Seq<TrustTotal>, name: Seq<char>) -> (int, int)
    decreases rows.len(),
{
    if rows.len() == 0 {
        (0, 0)
    } else if rows.last().concept@ == name {
        (rows.last().total as int, rows.last().samples as int)
    } else {
        trust_for(rows.drop_last(), name)
    }
}

pub open spec fn clamp_unit(x: int) -> int {
    if x < 0 {
        0
    } else if x > SCALE {
        SCALE as int
    } else {
        x
    }
}

/// A quarter of how far the average trust lies from one half, rounded down;
/// zero when there is no evidence (the average then counts as one half).
pub open spec fn trust_shift(total: int, samples: int) -> int {
    if samples <= 0 {
        0
    } else {
        (total - 5000 * samples) / (4 * samples)
    }
}

/// The update rule, in units of `1 / SCALE`:
/// 0.30 + 0.15 confirmed - 0.12 rejected + 0.08 ok - 0.08 failed + 0.25 (average trust - 0.5),
/// clamped to the unit interval.
pub open spec fn score(
    confirmed: int,
    rejected: int,
    ok: int,
    failed: int,
    total: int,
    samples: int,
) -> int {
    clamp_unit(
        3000 + 1500 * confirmed - 1200 * rejected + 800 * ok - 800 * failed + trust_shift(
            total,
            samples,
        ),
    )
}

/// The confidence the rule gives to the concept named `name`.
pub open spec fn target_confidence(
    name: Seq<char>,
    events: Seq<EventCount>,
    trust: Seq<TrustTotal>,
) -> int {
    score(
        count_for(events, name, EventKind::ConfirmClaim),
        count_for(events, name, EventKind::RejectClaim),
        count_for(events, name, EventKind::EpisodeOk),
        count_for(events, name, EventKind::EpisodeFail),
        trust_for(trust, name).0,
        trust_for(trust, name).1,
    )
}

/// One entry per concept whose target differs from its current confidence, in concept order.
pub open spec fn planned_updates(
    cs: Seq<Concept>,
    events: Seq<EventCount>,
    trust: Seq<TrustTotal>,
) -> Seq<(Seq<char>, u32, u32)>
    decreases cs.len(),
{
    if cs.len() == 0 {
        Seq::empty()
    } else {
        let c = cs.last();
        let t = target_confidence(c.name@, events, trust);
        planned_updates(cs.drop_last(), events, trust) + if t != c.confidence {
            seq![(c.name@, c.confidence, t as u32)]
        } else {
            Seq::empty()
        }
    }
}

proof fn lemma_floor_of_negative(num: int, den: int)
    requires
        num < 0,
        den > 0,
    ensures
        -((-num + den - 1) / den) == num / den,
{
    let a = -num + den - 1;
    lemma_fundamental_div_mod(a, den);
    let q = a / den;
    let r = a % den;
    assert(num == (-q) * den + (den - 1 - r)) by (nonlinear_arith)
        requires
            a == den * q + r,
            a == -num + den - 1,
    ;
    lemma_fundamental_div_mod_converse(num, den, -q, den - 1 - r);
}

/// Evaluates the update rule on explicit counts.
pub fn score_units(
    confirmed: u64,
    rejected: u64,
    ok: u64,
    failed: u64,
    total: u64,
    samples: u64,
) -> (r: u32)
    ensures
        r == score(
            confirmed as int,
            rejected as int,
            ok as int,
            failed as int,
            total as int,
            samples as int,
        ),
        r <= SCALE,
{
    let base: i128 = 3000 + 1500 * (confirmed as i128) - 1200 * (rejected as i128) + 800 * (
    ok as i128) - 800 * (failed as i128);
    let shift: i128 = if samples == 0 {
        0
    } else {
        let num: i128 = total as i128 - 5000 * (samples as i128);
        let den: i128 = 4 * (samples as i128);
        if num >= 0 {
            num / den
        } else {
            proof {
                lemma_floor_of_negative(num as int, den as int);
            }
            let q: i128 = (-num + den - 1) / den;
            -q
        }
    };
    let v: i128 = base + shift;
    if v < 0 {
        0
    } else if v > SCALE as i128 {
        SCALE
    } else {
        v as u32
    }
}

fn count_of(rows: &Vec<EventCount>, name: &String, kind: EventKind) -> (r: u64)
    ensures
        r == count_for(rows@, name@, kind),
{
    let mut r: u64 = 0;
    let mut i: usize = 0;
    while i < rows.len()
        invariant
            i <= rows.len(),
            r == count_for(rows@.take(i as int), name@, kind),
        decreases rows.len() - i,
    {
        if rows[i].concept == *name && rows[i].kind == kind {
            r = rows[i].count;
        }
        assert(rows@.take(i + 1).drop_last() =~= rows@.take(i as int));
        i += 1;
    }
    assert(rows@.take(rows.len() as int) =~= rows@);
    r
}

fn trust_of(rows: &Vec<TrustTotal>, name: &String) -> (r: (u64, u64))
    ensures
        (r.0 as int, r.1 as int) == trust_for(rows@, name@),
{
    let mut r: (u64, u64) = (0, 0);
    let mut i: usize = 0;
    while i < rows.len()
        invariant
            i <= rows.len(),
            (r.0 as int, r.1 as int) == trust_for(rows@.take(i as int), name@),
        decreases rows.len() - i,
    {
        if rows[i].concept == *name {
            r = (rows[i].total, rows[i].samples);
        }
        assert(rows@.take(i + 1).drop_last() =~= rows@.take(i as int));
        i += 1;
    }
    assert(rows@.take(rows.len() as int) =~= rows@);
    r
}

/// The confidence the rule gives to the concept named `name`.
pub fn target_for(name: &String, events: &Vec<EventCount>, trust: &Vec<TrustTotal>) -> (r: u32)
    ensures
        r == target_confidence(name@, events@, trust@),
        r <= SCALE,
{
    let (total, samples) = trust_of(trust, name);
    score_units(
        count_of(events, name, EventKind::ConfirmClaim),
        count_of(events, name, EventKind::RejectClaim),
        count_of(events, name, EventKind::EpisodeOk),
        count_of(events, name, EventKind::EpisodeFail),
        total,
        samples,
    )
}

pub open spec fn updates_in_range(ups: Seq<(Seq<char>, u32, u32)>) -> bool {
    forall|k: int| 0 <= k < ups.len() ==> #[trigger] ups[k].2 <= SCALE
}

proof fn lemma_planned_in_range(cs: Seq<Concept>, events: Seq<EventCount>, trust: Seq<TrustTotal>)
    ensures
        updates_in_range(planned_updates(cs, events, trust)),
    decreases cs.len(),
{
    if cs.len() > 0 {
        lemma_planned_in_range(cs.drop_last(), events, trust);
    }
}

/// Recomputes every concept's confidence from its event counts and evidence trust, and
/// lists those that change.
pub fn compute_updates(
    concepts: &Vec<Concept>,
    events: &Vec<EventCount>,
    trust: &Vec<TrustTotal>,
) -> (r: Vec<ConfidenceUpdate>)
    ensures
        view_updates(r@) == planned_updates(concepts@, events@, trust@),
        updates_in_range(view_updates(r@)),
{
    let mut r: Vec<ConfidenceUpdate> = Vec::new();
    let mut i: usize = 0;
    while i < concepts.len()
        invariant
            i <= concepts.len(),
            view_updates(r@) == planned_updates(concepts@.take(i as int), events@, trust@),
        decreases concepts.len() - i,
    {
        let c = &concepts[i];
        let t = target_for(&c.name, events, trust);
        let ghost before = r@;
        if t != c.confidence {
            r.push(ConfidenceUpdate { concept: c.name.clone(), old: c.confidence, new: t });
        }
        assert(concepts@.take(i + 1).drop_last() =~= concepts@.take(i as int));
        assert(view_updates(r@) =~= planned_updates(concepts@.take(i + 1), events@, trust@));
        i += 1;
    }
    assert(concepts@.take(concepts.len() as int) =~= concepts@);
    proof {
        lemma_planned_in_range(concepts@, events@, trust@);
    }
    r
}

/// The confidence a concept ends with once the updates are applied in order: the last
/// update naming it wins, and none leaves it as it was.
pub open spec fn confidence_after(name: Seq<char>, conf: u32, ups: Seq<(Seq<char>, u32, u32)>) -> u32
    decreases ups.len(),
{
    if ups.len() == 0 {
        conf
    } else if ups.last().0 == name {
        ups.last().2
    } else {
        confidence_after(name, conf, ups.drop_last())
    }
}

pub open spec fn with_confidence(c: Concept, conf: u32) -> Concept {
    Concept {
        id: c.id,
        name: c.name,
        definition: c.definition,
        confidence: conf,
        created_at: c.created_at,
    }
}

/// The concepts after the updates: the same records, each with its confidence overwritten.
pub open spec fn applied(cs: Seq<Concept>, ups: Seq<(Seq<char>, u32, u32)>) -> Seq<Concept> {
    Seq::new(
        cs.len(),
        |k: int| with_confidence(cs[k], confidence_after(cs[k].name@, cs[k].confidence, ups)),
    )
}

/// Overwrites the confidence of every concept that an update names.
pub fn apply_updates(concepts: &mut Vec<Concept>, updates: &Vec<ConfidenceUpdate>)
    ensures
        final(concepts)@ == applied(old(concepts)@, view_updates(updates@)),
{
    let ghost orig = concepts@;
    let ghost ups = view_updates(updates@);
    let mut j: usize = 0;
    assert(concepts@ =~= applied(orig, ups.take(0)));
    while j < updates.len()
        invariant
            j <= updates.len(),
            ups == view_updates(updates@),
            concepts@ == applied(orig, ups.take(j as int)),
        decreases updates.len() - j,
    {
        let ghost mid = concepts@;
        let u = &updates[j];
        let mut i: usize = 0;
        while i < concepts.len()
            invariant
                i <= concepts.len(),
                concepts@.len() == mid.len(),
                u@ == ups[j as int],
                forall|k: int|
                    0 <= k < i ==> concepts@[k] == with_confidence(
                        mid[k],
                        if mid[k].name@ == u@.0 {
                            u.new
                        } else {
                            mid[k].confidence
                        },
                    ),
                forall|k: int| i <= k < concepts@.len() ==> concepts@[k] == mid[k],
            decreases concepts.len() - i,
        {
            if concepts[i].name == u.concept {
                concepts[i].confidence = u.new;
            }
            i += 1;
        }
        proof {
            assert(ups.take(j + 1).drop_last() =~= ups.take(j as int));
            assert(concepts@ =~= applied(orig, ups.take(j + 1)));
        }
        j += 1;
    }
    assert(ups.take(updates.len() as int) =~= ups);
}

pub open spec fn all_in_range(cs: Seq<Concept>) -> bool {
    forall|k: int| 0 <= k < cs.len() ==> #[trigger] cs[k].confidence <= SCALE
}

/// The concepts after applying each batch of updates in turn.
pub open spec fn applied_all(cs: Seq<Concept>, batches: Seq<Seq<(Seq<char>, u32, u32)>>) -> Seq<
    Concept,
>
    decreases batches.len(),
{
    if batches.len() == 0 {
        cs
    } else {
        applied(applied_all(cs, batches.drop_last()), batches.last())
    }
}

proof fn lemma_after_in_range(name: Seq<char>, conf: u32, ups: Seq<(Seq<char>, u32, u32)>)
    requires
        conf <= SCALE,
        updates_in_range(ups),
    ensures
        confidence_after(name, conf, ups) <= SCALE,
    decreases ups.len(),
{
    if ups.len() > 0 {
        assert(ups.last() == ups[ups.len() - 1]);
        lemma_after_in_range(name, conf, ups.drop_last());
    }
}

/// Confidence stays within the unit interval after any sequence of applied batches of
/// updates whose new values lie in it (as every batch that `compute_updates` plans does).
pub proof fn lemma_confidence_stays_in_range(
    cs: Seq<Concept>,
    batches: Seq<Seq<(Seq<char>, u32, u32)>>,
)
    requires
        all_in_range(cs),
        forall|b: int| 0 <= b < batches.len() ==> updates_in_range(#[trigger] batches[b]),
    ensures
        all_in_range(applied_all(cs, batches)),
    decreases batches.len(),
{
    if batches.len() > 0 {
        let prev = batches.drop_last();
        assert forall|b: int| 0 <= b < prev.len() implies updates_in_range(#[trigger] prev[b]) by {
            assert(prev[b] == batches[b]);
        }
        lemma_confidence_stays_in_range(cs, prev);
        let mid = applied_all(cs, prev);
        assert(updates_in_range(batches[batches.len() - 1]));
        assert forall|k: int| 0 <= k < mid.len() implies #[trigger] applied(
            mid,
            batches.last(),
        )[k].confidence <= SCALE by {
            lemma_after_in_range(mid[k].name@, mid[k].confidence, batches.last());
        }
    }
}

/// Whether two event-count tables and two trust tables give every concept the same signals.
pub open spec fn same_signals(
    e1: Seq<EventCount>,
    t1: Seq<TrustTotal>,
    e2: Seq<EventCount>,
    t2: Seq<TrustTotal>,
) -> bool {
    &&& forall|name: Seq<char>, kind: EventKind| #[trigger]
        count_for(e1, name, kind) == count_for(e2, name, kind)
    &&& forall|name: Seq<char>| #[trigger] trust_for(t1, name) == trust_for(t2, name)
}

/// Recalculation is a function of the state alone: concept records and tables that give the
/// same signals yield the same plan, however the tables are laid out.
pub proof fn lemma_compute_deterministic(
    cs: Seq<Concept>,
    e1: Seq<EventCount>,
    t1: Seq<TrustTotal>,
    e2: Seq<EventCount>,
    t2: Seq<TrustTotal>,
)
    requires
        same_signals(e1, t1, e2, t2),
    ensures
        planned_updates(cs, e1, t1) == planned_updates(cs, e2, t2),
    decreases cs.len(),
{
    if cs.len() > 0 {
        lemma_compute_deterministic(cs.drop_last(), e1, t1, e2, t2);
        let n = cs.last().name@;
        assert(count_for(e1, n, EventKind::ConfirmClaim) == count_for(e2, n, EventKind::ConfirmClaim));
        assert(count_for(e1, n, EventKind::RejectClaim) == count_for(e2, n, EventKind::RejectClaim));
        assert(count_for(e1, n, EventKind::EpisodeOk) == count_for(e2, n, EventKind::EpisodeOk));
        assert(count_for(e1, n, EventKind::EpisodeFail) == count_for(e2, n, EventKind::EpisodeFail));
        assert(trust_for(t1, n) == trust_for(t2, n));
    }
}

proof fn lemma_planned_are_targets(cs: Seq<Concept>, events: Seq<EventCount>, trust: Seq<TrustTotal>)
    ensures
        forall|j: int|
            0 <= j < planned_updates(cs, events, trust).len() ==> (#[trigger] planned_updates(
                cs,
                events,
                trust,
            )[j]).2 == target_confidence(planned_updates(cs, events, trust)[j].0, events, trust),
    decreases cs.len(),
{
    if cs.len() > 0 {
        lemma_planned_are_targets(cs.drop_last(), events, trust);
        let p = planned_updates(cs, events, trust);
        let pp = planned_updates(cs.drop_last(), events, trust);
        assert forall|j: int| 0 <= j < p.len() implies (#[trigger] p[j]).2 == target_confidence(
            p[j].0,
            events,
            trust,
        ) by {
            if j < pp.len() {
                assert(p[j] == pp[j]);
            }
        }
    }
}

proof fn lemma_changed_are_planned(
    cs: Seq<Concept>,
    events: Seq<EventCount>,
    trust: Seq<TrustTotal>,
    k: int,
)
    requires
        0 <= k < cs.len(),
        cs[k].confidence != target_confidence(cs[k].name@, events, trust),
    ensures
        exists|j: int|
            0 <= j < planned_updates(cs, events, trust).len() && (#[trigger] planned_updates(
                cs,
                events,
                trust,
            )[j]).0 == cs[k].name@,
    decreases cs.len(),
{
    let p = planned_updates(cs, events, trust);
    let pp = planned_updates(cs.drop_last(), events, trust);
    if k < cs.len() - 1 {
        assert(cs.drop_last()[k] == cs[k]);
        lemma_changed_are_planned(cs.drop_last(), events, trust, k);
        let j = choose|j: int| 0 <= j < pp.len() && (#[trigger] pp[j]).0 == cs[k].name@;
        assert(p[j] == pp[j]);
    } else {
        assert(cs.last() == cs[k]);
        assert(p[pp.len() as int].0 == cs[k].name@);
    }
}

proof fn lemma_after_value(name: Seq<char>, conf: u32, ups: Seq<(Seq<char>, u32, u32)>, v: u32)
    requires
        forall|j: int| 0 <= j < ups.len() && (#[trigger] ups[j]).0 == name ==> ups[j].2 == v,
    ensures
        (exists|j: int| 0 <= j < ups.len() && (#[trigger] ups[j]).0 == name) ==> confidence_after(
            name,
            conf,
            ups,
        ) == v,
        !(exists|j: int| 0 <= j < ups.len() && (#[trigger] ups[j]).0 == name) ==> confidence_after(
            name,
            conf,
            ups,
        ) == conf,
    decreases ups.len(),
{
    if ups.len() > 0 {
        let q = ups.drop_last();
        assert forall|j: int| 0 <= j < q.len() && (#[trigger] q[j]).0 == name implies q[j].2 == v by {
            assert(q[j] == ups[j]);
        }
        lemma_after_value(name, conf, q, v);
        assert(ups.last() == ups[ups.len() - 1]);
        if exists|j: int| 0 <= j < q.len() && (#[trigger] q[j]).0 == name {
            let j = choose|j: int| 0 <= j < q.len() && (#[trigger] q[j]).0 == name;
            assert(ups[j] == q[j]);
        }
        if exists|j: int| 0 <= j < ups.len() && (#[trigger] ups[j]).0 == name {
            let j = choose|j: int| 0 <= j < ups.len() && (#[trigger] ups[j]).0 == name;
            if j < ups.len() - 1 {
                assert(q[j] == ups[j]);
            }
        }
    }
}

proof fn lemma_settled_plans_nothing(cs: Seq<Concept>, events: Seq<EventCount>, trust: Seq<TrustTotal>)
    requires
        forall|k: int|
            0 <= k < cs.len() ==> #[trigger] cs[k].confidence == target_confidence(
                cs[k].name@,
                events,
                trust,
            ),
    ensures
        planned_updates(cs, events, trust) == Seq::<(Seq<char>, u32, u32)>::empty(),
    decreases cs.len(),
{
    if cs.len() > 0 {
        let prev = cs.drop_last();
        assert forall|k: int| 0 <= k < prev.len() implies #[trigger] prev[k].confidence
            == target_confidence(prev[k].name@, events, trust) by {
            assert(prev[k] == cs[k]);
        }
        lemma_settled_plans_nothing(prev, events, trust);
        assert(cs[cs.len() - 1] == cs.last());
    }
}

/// Applying the planned updates reaches a fixed point: with no new events, planning again
/// on the result proposes nothing.
pub proof fn lemma_recalc_fixed_point(
    cs: Seq<Concept>,
    events: Seq<EventCount>,
    trust: Seq<TrustTotal>,
)
    ensures
        planned_updates(applied(cs, planned_updates(cs, events, trust)), events, trust)
            == Seq::<(Seq<char>, u32, u32)>::empty(),
{
    let ups = planned_updates(cs, events, trust);
    let after = applied(cs, ups);
    lemma_planned_are_targets(cs, events, trust);
    assert forall|k: int| 0 <= k < after.len() implies #[trigger] after[k].confidence
        == target_confidence(after[k].name@, events, trust) by {
        let x = cs[k].name@;
        let t = target_confidence(x, events, trust);
        assert forall|j: int| 0 <= j < ups.len() && (#[trigger] ups[j]).0 == x implies ups[j].2
            == t as u32 by {
            assert(ups[j].2 == target_confidence(ups[j].0, events, trust));
        }
        lemma_after_value(x, cs[k].confidence, ups, t as u32);
        if cs[k].confidence != t {
            lemma_changed_are_planned(cs, events, trust, k);
        }
    }
    lemma_settled_plans_nothing(after, events, trust);
}

} // verus!

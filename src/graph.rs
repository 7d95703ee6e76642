use vstd::prelude::*;

use crate::order::{
    insert_sorted, lemma_lex_irreflexive, lex_lt, names_of, strictly_sorted,
};
use crate::records::{Concept, Relation};

verus! {

/// A connected group of concepts with its most connected members.
#[derive(Debug, Clone)]
pub struct ClusterInfo {
    pub nodes: Vec<String>,
    pub top: Vec<String>,
}

/// Whether relation `r` joins `a` and `b`, read in either direction.
pub open spec fn joins(r: Relation, a: Seq<char>, b: Seq<char>) -> bool {
    (r.from@ == a && r.to@ == b) || (r.from@ == b && r.to@ == a)
}

/// Whether some relation joins `a` and `b`.
pub open spec fn adjacent(rels: Seq<Relation>, a: Seq<char>, b: Seq<char>) -> bool {
    exists|k: int| 0 <= k < rels.len() && #[trigger] joins(rels[k], a, b)
}

/// A nonempty sequence of names in which each one is adjacent to the next.
pub open spec fn is_walk(rels: Seq<Relation>, p: Seq<Seq<char>>) -> bool {
    &&& p.len() > 0
    &&& forall|i: int| 0 <= i < p.len() - 1 ==> adjacent(rels, #[trigger] p[i], p[i + 1])
}

/// Whether a walk leads from `a` to `b` in the undirected relation graph.
pub open spec fn linked(rels: Seq<Relation>, a: Seq<char>, b: Seq<char>) -> bool {
    exists|p: Seq<Seq<char>>| #[trigger] is_walk(rels, p) && p[0] == a && p.last() == b
}

/// The graph's nodes: every concept name and every endpoint of a relation.
pub open spec fn is_node(cs: Seq<Concept>, rels: Seq<Relation>, x: Seq<char>) -> bool {
    (exists|i: int| 0 <= i < cs.len() && #[trigger] cs[i].name@ == x) || (exists|k: int|
        0 <= k < rels.len() && (#[trigger] rels[k].from@ == x || rels[k].to@ == x))
}

proof fn lemma_linked_refl(rels: Seq<Relation>, a: Seq<char>)
    ensures
        linked(rels, a, a),
{
    let p = seq![a];
    assert(is_walk(rels, p));
}

proof fn lemma_linked_chain(
    rels: Seq<Relation>,
    a: Seq<char>,
    b: Seq<char>,
    c: Seq<char>,
    d: Seq<char>,
)
    requires
        linked(rels, a, b),
        adjacent(rels, b, c),
        linked(rels, c, d),
    ensures
        linked(rels, a, d),
{
    let walk_ab = choose|p: Seq<Seq<char>>| #[trigger] is_walk(rels, p) && p[0] == a && p.last() == b;
    let walk_cd = choose|p: Seq<Seq<char>>| #[trigger] is_walk(rels, p) && p[0] == c && p.last() == d;
    let p = walk_ab + walk_cd;
    assert forall|i: int| 0 <= i < p.len() - 1 implies adjacent(rels, #[trigger] p[i], p[i + 1]) by {
        if i < walk_ab.len() - 1 {
            assert(p[i] == walk_ab[i] && p[i + 1] == walk_ab[i + 1]);
        } else if i == walk_ab.len() - 1 {
            assert(p[i] == b && p[i + 1] == c);
        } else {
            assert(p[i] == walk_cd[i - walk_ab.len()] && p[i + 1] == walk_cd[i - walk_ab.len() + 1]);
        }
    }
    assert(is_walk(rels, p));
    assert(p.last() == d);
}

proof fn lemma_sorted_distinct(s: Seq<Seq<char>>, a: int, b: int)
    requires
        strictly_sorted(s),
        0 <= a < s.len(),
        0 <= b < s.len(),
        s[a] == s[b],
    ensures
        a == b,
{
    if a < b {
        lemma_lex_irreflexive(s[a]);
    } else if b < a {
        lemma_lex_irreflexive(s[a]);
    }
}

/// Every node of the graph once, in lexicographic order.
fn node_names(cs: &Vec<Concept>, rels: &Vec<Relation>) -> (r: Vec<String>)
    ensures
        strictly_sorted(names_of(r@)),
        forall|x: Seq<char>| names_of(r@).contains(x) <==> is_node(cs@, rels@, x),
{
    let mut r: Vec<String> = Vec::new();
    let mut i: usize = 0;
    assert(names_of(r@).to_set() =~= Set::empty());
    while i < cs.len()
        invariant
            i <= cs.len(),
            strictly_sorted(names_of(r@)),
            names_of(r@).to_set() == Set::new(
                |x: Seq<char>| exists|j: int| 0 <= j < i && #[trigger] cs@[j].name@ == x,
            ),
        decreases cs.len() - i,
    {
        insert_sorted(&mut r, &cs[i].name);
        assert(names_of(r@).to_set() =~= Set::new(
            |x: Seq<char>| exists|j: int| 0 <= j < i + 1 && #[trigger] cs@[j].name@ == x,
        ));
        i += 1;
    }
    let mut k: usize = 0;
    while k < rels.len()
        invariant
            k <= rels.len(),
            strictly_sorted(names_of(r@)),
            names_of(r@).to_set() == Set::new(
                |x: Seq<char>|
                    (exists|j: int| 0 <= j < cs.len() && #[trigger] cs@[j].name@ == x) || (exists|
                        j: int,
                    |
                        0 <= j < k && (#[trigger] rels@[j].from@ == x || rels@[j].to@ == x)),
            ),
        decreases rels.len() - k,
    {
        insert_sorted(&mut r, &rels[k].from);
        insert_sorted(&mut r, &rels[k].to);
        assert(names_of(r@).to_set() =~= Set::new(
            |x: Seq<char>|
                (exists|j: int| 0 <= j < cs.len() && #[trigger] cs@[j].name@ == x) || (exists|
                    j: int,
                |
                    0 <= j < k + 1 && (#[trigger] rels@[j].from@ == x || rels@[j].to@ == x)),
        ));
        k += 1;
    }
    assert forall|x: Seq<char>| names_of(r@).contains(x) <==> is_node(cs@, rels@, x) by {
        assert(names_of(r@).contains(x) <==> names_of(r@).to_set().contains(x));
    }
    r
}

/// Where `x` stands in `names`, which holds it.
fn index_in(names: &Vec<String>, x: &String) -> (r: usize)
    requires
        names_of(names@).contains(x@),
    ensures
        r < names.len(),
        names@[r as int]@ == x@,
{
    let ghost nm = names_of(names@);
    let ghost at = choose|j: int| 0 <= j < nm.len() && nm[j] == x@;
    let mut i: usize = 0;
    while i < names.len()
        invariant
            i <= names.len(),
            nm == names_of(names@),
            0 <= at < nm.len(),
            nm[at] == x@,
            forall|j: int| 0 <= j < i ==> nm[j] != x@,
        decreases names.len() - i,
    {
        if names[i] == *x {
            return i;
        }
        i += 1;
    }
    assert(nm[at] == x@);
    0
}

/// The node indices of each relation's endpoints.
fn endpoints(names: &Vec<String>, cs: &Vec<Concept>, rels: &Vec<Relation>) -> (r: Vec<(usize, usize)>)
    requires
        forall|x: Seq<char>| names_of(names@).contains(x) <==> is_node(cs@, rels@, x),
    ensures
        r.len() == rels.len(),
        forall|k: int|
            0 <= k < r.len() ==> (#[trigger] r@[k]).0 < names.len() && r@[k].1 < names.len()
                && names@[r@[k].0 as int]@ == rels@[k].from@ && names@[r@[k].1 as int]@
                == rels@[k].to@,
{
    let mut r: Vec<(usize, usize)> = Vec::new();
    let mut k: usize = 0;
    while k < rels.len()
        invariant
            k <= rels.len(),
            r.len() == k,
            forall|x: Seq<char>| names_of(names@).contains(x) <==> is_node(cs@, rels@, x),
            forall|j: int|
                0 <= j < r.len() ==> (#[trigger] r@[j]).0 < names.len() && r@[j].1 < names.len()
                    && names@[r@[j].0 as int]@ == rels@[j].from@ && names@[r@[j].1 as int]@
                    == rels@[j].to@,
        decreases rels.len() - k,
    {
        assert(is_node(cs@, rels@, rels@[k as int].from@));
        assert(is_node(cs@, rels@, rels@[k as int].to@));
        let u = index_in(names, &rels[k].from);
        let v = index_in(names, &rels[k].to);
        r.push((u, v));
        k += 1;
    }
    r
}

pub open spec fn ends_match(
    nm: Seq<Seq<char>>,
    rels: Seq<Relation>,
    ends: Seq<(usize, usize)>,
) -> bool {
    &&& ends.len() == rels.len()
    &&& forall|k: int|
        0 <= k < ends.len() ==> (#[trigger] ends[k]).0 < nm.len() && ends[k].1 < nm.len()
            && nm[ends[k].0 as int] == rels[k].from@ && nm[ends[k].1 as int] == rels[k].to@
}

proof fn lemma_walk_keeps_label(
    nm: Seq<Seq<char>>,
    rels: Seq<Relation>,
    ends: Seq<(usize, usize)>,
    lab: Seq<usize>,
    p: Seq<Seq<char>>,
    i: int,
)
    requires
        strictly_sorted(nm),
        ends_match(nm, rels, ends),
        lab.len() == nm.len(),
        forall|e: int| 0 <= e < ends.len() ==> lab[(#[trigger] ends[e]).0 as int] == lab[ends[e].1 as int],
        is_walk(rels, p),
        0 <= i < nm.len(),
        nm[i] == p[0],
    ensures
        exists|j: int| 0 <= j < nm.len() && nm[j] == p.last() && lab[j] == lab[i],
    decreases p.len(),
{
    if p.len() == 1 {
        assert(nm[i] == p.last());
    } else {
        let q = p.drop_last();
        assert forall|t: int| 0 <= t < q.len() - 1 implies adjacent(rels, #[trigger] q[t], q[t + 1]) by {
            assert(q[t] == p[t] && q[t + 1] == p[t + 1]);
        }
        lemma_walk_keeps_label(nm, rels, ends, lab, q, i);
        let j0 = choose|j: int| 0 <= j < nm.len() && nm[j] == q.last() && lab[j] == lab[i];
        let t = p.len() - 2;
        assert(p[t] == q.last());
        assert(adjacent(rels, p[t], p[t + 1]));
        let k = choose|k: int| 0 <= k < rels.len() && #[trigger] joins(rels[k], p[t], p[t + 1]);
        let e = ends[k];
        if rels[k].from@ == p[t] && rels[k].to@ == p[t + 1] {
            lemma_sorted_distinct(nm, e.0 as int, j0);
            assert(nm[e.1 as int] == p.last());
        } else {
            lemma_sorted_distinct(nm, e.1 as int, j0);
            assert(nm[e.0 as int] == p.last());
        }
    }
}

/// Labels the nodes so that two share a label exactly when a walk links them.
fn component_labels(names: &Vec<String>, rels: &Vec<Relation>, ends: &Vec<(usize, usize)>) -> (lab:
    Vec<usize>)
    requires
        strictly_sorted(names_of(names@)),
        ends_match(names_of(names@), rels@, ends@),
    ensures
        lab.len() == names.len(),
        forall|i: int| 0 <= i < lab.len() ==> #[trigger] lab@[i] < names.len(),
        forall|i: int, j: int|
            0 <= i < lab.len() && 0 <= j < lab.len() ==> (lab@[i] == lab@[j] <==> linked(
                rels@,
                #[trigger] names@[i]@,
                #[trigger] names@[j]@,
            )),
{
    let ghost nm = names_of(names@);
    let n = names.len();
    let mut lab: Vec<usize> = Vec::new();
    let mut i: usize = 0;
    while i < n
        invariant
            i <= n,
            n == names.len(),
            lab.len() == i,
            forall|j: int| 0 <= j < i ==> #[trigger] lab@[j] == j,
        decreases n - i,
    {
        lab.push(i);
        i += 1;
    }
    assert forall|a: int, b: int|
        0 <= a < n && 0 <= b < n && #[trigger] lab@[a] == #[trigger] lab@[b] implies linked(
        rels@,
        nm[a],
        nm[b],
    ) by {
        lemma_linked_refl(rels@, nm[a]);
    }
    let mut k: usize = 0;
    while k < ends.len()
        invariant
            k <= ends.len(),
            n == names.len(),
            nm == names_of(names@),
            ends_match(nm, rels@, ends@),
            lab.len() == n,
            forall|j: int| 0 <= j < n ==> #[trigger] lab@[j] < n,
            forall|a: int, b: int|
                0 <= a < n && 0 <= b < n && #[trigger] lab@[a] == #[trigger] lab@[b] ==> linked(
                    rels@,
                    nm[a],
                    nm[b],
                ),
            forall|e: int| 0 <= e < k ==> lab@[(#[trigger] ends@[e]).0 as int] == lab@[ends@[e].1 as int],
        decreases ends.len() - k,
    {
        let (u, v) = ends[k];
        let lu = lab[u];
        let lv = lab[v];
        let ghost old_lab = lab@;
        let mut i: usize = 0;
        while i < n
            invariant
                i <= n,
                n == names.len(),
                lab.len() == n,
                old_lab.len() == n,
                forall|j: int|
                    0 <= j < i ==> #[trigger] lab@[j] == (if old_lab[j] == lv {
                        lu
                    } else {
                        old_lab[j]
                    }),
                forall|j: int| i <= j < n ==> #[trigger] lab@[j] == old_lab[j],
            decreases n - i,
        {
            if lab[i] == lv {
                lab.set(i, lu);
            }
            i += 1;
        }
        proof {
            assert(joins(rels@[k as int], nm[u as int], nm[v as int]));
            assert(joins(rels@[k as int], nm[v as int], nm[u as int]));
            assert forall|a: int, b: int|
                0 <= a < n && 0 <= b < n && #[trigger] lab@[a] == #[trigger] lab@[b] implies linked(
                rels@,
                nm[a],
                nm[b],
            ) by {
                assert(lab@[a] == (if old_lab[a] == lv { lu } else { old_lab[a] }));
                assert(lab@[b] == (if old_lab[b] == lv { lu } else { old_lab[b] }));
                if old_lab[a] == lv && old_lab[b] != lv {
                    assert(old_lab[a] == old_lab[v as int]);
                    assert(old_lab[u as int] == old_lab[b]);
                    lemma_linked_chain(rels@, nm[a], nm[v as int], nm[u as int], nm[b]);
                } else if old_lab[a] != lv && old_lab[b] == lv {
                    assert(old_lab[a] == old_lab[u as int]);
                    assert(old_lab[v as int] == old_lab[b]);
                    lemma_linked_chain(rels@, nm[a], nm[u as int], nm[v as int], nm[b]);
                } else {
                    assert(old_lab[a] == old_lab[b]);
                }
            }
            assert forall|e: int| 0 <= e < k + 1 implies lab@[(#[trigger] ends@[e]).0 as int]
                == lab@[ends@[e].1 as int] by {
                let x = ends@[e].0 as int;
                let y = ends@[e].1 as int;
                assert(lab@[x] == (if old_lab[x] == lv { lu } else { old_lab[x] }));
                assert(lab@[y] == (if old_lab[y] == lv { lu } else { old_lab[y] }));
                if e < k {
                    assert(old_lab[x] == old_lab[y]);
                } else {
                    assert(old_lab[u as int] == lu);
                }
            }
        }
        k += 1;
    }
    proof {
        assert forall|i: int, j: int|
            0 <= i < lab.len() && 0 <= j < lab.len() implies (lab@[i] == lab@[j] <==> linked(
            rels@,
            #[trigger] names@[i]@,
            #[trigger] names@[j]@,
        )) by {
            assert(nm[i] == names@[i]@ && nm[j] == names@[j]@);
            if linked(rels@, nm[i], nm[j]) {
                let p = choose|p: Seq<Seq<char>>| #[trigger] is_walk(rels@, p) && p[0] == nm[i]
                    && p.last() == nm[j];
                lemma_walk_keeps_label(nm, rels@, ends@, lab@, p, i);
                let j2 = choose|j2: int| 0 <= j2 < nm.len() && nm[j2] == p.last() && lab@[j2] == lab@[i];
                lemma_sorted_distinct(nm, j, j2);
            }
        }
    }
    lab
}

/// How many of `nodes` are adjacent to `a`: for a cluster, the number of distinct
/// neighbours of `a`, since a cluster holds every neighbour of its members.
pub open spec fn degree_in(rels: Seq<Relation>, a: Seq<char>, nodes: Seq<Seq<char>>) -> nat
    decreases nodes.len(),
{
    if nodes.len() == 0 {
        0
    } else {
        degree_in(rels, a, nodes.drop_last()) + if adjacent(rels, a, nodes.last()) {
            1nat
        } else {
            0nat
        }
    }
}

pub open spec fn member_names(nm: Seq<Seq<char>>, g: Seq<usize>) -> Seq<Seq<char>> {
    g.map_values(|j: usize| nm[j as int])
}

/// The indices of the nodes that a relation joins to node `a`.
fn neighbours(ends: &Vec<(usize, usize)>, a: usize, Ghost(nm): Ghost<Seq<Seq<char>>>, Ghost(rels): Ghost<
    Seq<Relation>,
>) -> (r: Vec<usize>)
    requires
        strictly_sorted(nm),
        ends_match(nm, rels, ends@),
        a < nm.len(),
    ensures
        forall|b: usize| b < nm.len() ==> (#[trigger] r@.contains(b) <==> adjacent(rels, nm[a as int], nm[b as int])),
{
    let mut r: Vec<usize> = Vec::new();
    let mut k: usize = 0;
    while k < ends.len()
        invariant
            k <= ends.len(),
            strictly_sorted(nm),
            ends_match(nm, rels, ends@),
            a < nm.len(),
            forall|b: usize|
                b < nm.len() ==> (#[trigger] r@.contains(b) <==> exists|e: int|
                    0 <= e < k && #[trigger] joins(rels[e], nm[a as int], nm[b as int])),
        decreases ends.len() - k,
    {
        let (u, v) = ends[k];
        assert(nm[u as int] == rels[k as int].from@ && nm[v as int] == rels[k as int].to@);
        let ghost before = r@;
        if u == a {
            r.push(v);
        }
        if v == a {
            r.push(u);
        }
        assert forall|b: usize| b < nm.len() implies (#[trigger] r@.contains(b) <==> exists|e: int|
            0 <= e < k + 1 && #[trigger] joins(rels[e], nm[a as int], nm[b as int])) by {
            if r@.contains(b) && !before.contains(b) {
                assert(joins(rels[k as int], nm[a as int], nm[b as int]));
            }
            if before.contains(b) {
                let t = choose|t: int| 0 <= t < before.len() && before[t] == b;
                assert(r@[t] == b);
                let e = choose|e: int| 0 <= e < k && #[trigger] joins(rels[e], nm[a as int], nm[b as int]);
                assert(0 <= e < k + 1 && joins(rels[e], nm[a as int], nm[b as int]));
            }
            if exists|e: int| 0 <= e < k + 1 && #[trigger] joins(rels[e], nm[a as int], nm[b as int]) {
                let e = choose|e: int| 0 <= e < k + 1 && #[trigger] joins(rels[e], nm[a as int], nm[b as int]);
                if e == k {
                    if rels[k as int].from@ == nm[a as int] && rels[k as int].to@ == nm[b as int] {
                        lemma_sorted_distinct(nm, u as int, a as int);
                        lemma_sorted_distinct(nm, v as int, b as int);
                        if v == a {
                            assert(r@[r@.len() - 2] == b);
                        } else {
                            assert(r@.last() == b);
                        }
                    } else {
                        lemma_sorted_distinct(nm, v as int, a as int);
                        lemma_sorted_distinct(nm, u as int, b as int);
                        assert(r@.last() == b);
                    }
                } else {
                    assert(before.contains(b));
                    let t = choose|t: int| 0 <= t < before.len() && before[t] == b;
                    assert(r@[t] == b);
                }
            }
        }
        k += 1;
    }
    r
}

fn holds(v: &Vec<usize>, x: usize) -> (r: bool)
    ensures
        r == v@.contains(x),
{
    let mut i: usize = 0;
    while i < v.len()
        invariant
            i <= v.len(),
            forall|t: int| 0 <= t < i ==> v@[t] != x,
        decreases v.len() - i,
    {
        if v[i] == x {
            return true;
        }
        i += 1;
    }
    false
}

/// The degree of node `a` within the group of nodes `g`.
fn degree_within(
    ends: &Vec<(usize, usize)>,
    g: &Vec<usize>,
    a: usize,
    Ghost(nm): Ghost<Seq<Seq<char>>>,
    Ghost(rels): Ghost<Seq<Relation>>,
) -> (r: usize)
    requires
        strictly_sorted(nm),
        ends_match(nm, rels, ends@),
        a < nm.len(),
        forall|t: int| 0 <= t < g.len() ==> #[trigger] g@[t] < nm.len(),
    ensures
        r == degree_in(rels, nm[a as int], member_names(nm, g@)),
{
    let nb = neighbours(ends, a, Ghost(nm), Ghost(rels));
    let mut c: usize = 0;
    let mut t: usize = 0;
    while t < g.len()
        invariant
            t <= g.len(),
            c <= t,
            forall|u: int| 0 <= u < g.len() ==> #[trigger] g@[u] < nm.len(),
            forall|b: usize| b < nm.len() ==> (#[trigger] nb@.contains(b) <==> adjacent(rels, nm[a as int], nm[b as int])),
            c == degree_in(rels, nm[a as int], member_names(nm, g@.take(t as int))),
        decreases g.len() - t,
    {
        assert(member_names(nm, g@.take(t + 1)).drop_last() =~= member_names(nm, g@.take(t as int)));
        assert(member_names(nm, g@.take(t + 1)).last() == nm[g@[t as int] as int]);
        if holds(&nb, g[t]) {
            c += 1;
        }
        t += 1;
    }
    assert(g@.take(g.len() as int) =~= g@);
    c
}

/// Whether `x` ranks before `y`: larger `major` first, then smaller `minor`.
pub open spec fn ranks(major: Seq<usize>, minor: Seq<usize>, x: usize, y: usize) -> bool {
    major[x as int] > major[y as int] || (major[x as int] == major[y as int] && minor[x as int]
        < minor[y as int])
}

pub open spec fn ranked(major: Seq<usize>, minor: Seq<usize>, order: Seq<usize>) -> bool {
    forall|a: int, b: int|
        0 <= a < b < order.len() ==> ranks(major, minor, #[trigger] order[a], #[trigger] order[b])
}

pub open spec fn injective(v: Seq<usize>) -> bool {
    forall|a: int, b: int| 0 <= a < v.len() && 0 <= b < v.len() && a != b ==> #[trigger] v[a] != #[trigger] v[b]
}

/// Inserts `q` into `order` at its rank.
fn insert_ranked(order: &mut Vec<usize>, q: usize, major: &Vec<usize>, minor: &Vec<usize>)
    requires
        major.len() == minor.len(),
        injective(minor@),
        q < major.len(),
        !old(order)@.contains(q),
        forall|t: int| 0 <= t < old(order).len() ==> #[trigger] old(order)@[t] < major.len(),
        ranked(major@, minor@, old(order)@),
    ensures
        final(order).len() == old(order).len() + 1,
        forall|t: int| 0 <= t < final(order).len() ==> #[trigger] final(order)@[t] < major.len(),
        forall|x: usize| #[trigger] final(order)@.contains(x) <==> (old(order)@.contains(x) || x == q),
        ranked(major@, minor@, final(order)@),
{
    let ghost o = order@;
    let mut p: usize = 0;
    while p < order.len() && (major[order[p]] > major[q] || (major[order[p]] == major[q]
        && minor[order[p]] < minor[q]))
        invariant
            p <= order.len(),
            order@ == o,
            major.len() == minor.len(),
            forall|t: int| 0 <= t < o.len() ==> #[trigger] o[t] < major.len(),
            q < major.len(),
            forall|t: int| 0 <= t < p ==> ranks(major@, minor@, #[trigger] o[t], q),
        decreases order.len() - p,
    {
        p += 1;
    }
    if p < order.len() {
        assert(o[p as int] != q);
        assert(minor@[o[p as int] as int] != minor@[q as int]);
        assert(ranks(major@, minor@, q, o[p as int]));
    }
    order.insert(p, q);
    let ghost o2 = order@;
    assert(o2 =~= o.take(p as int).push(q) + o.skip(p as int));
    assert forall|a: int, b: int| 0 <= a < b < o2.len() implies ranks(
        major@,
        minor@,
        #[trigger] o2[a],
        #[trigger] o2[b],
    ) by {
        if b < p {
            assert(o2[a] == o[a] && o2[b] == o[b]);
        } else if b == p {
            assert(o2[a] == o[a]);
        } else if a < p {
            assert(o2[a] == o[a] && o2[b] == o[b - 1]);
            assert(ranks(major@, minor@, o[p as int], o[b - 1]) || b - 1 == p);
        } else if a == p {
            assert(o2[b] == o[b - 1]);
            assert(ranks(major@, minor@, o[p as int], o[b - 1]) || b - 1 == p);
        } else {
            assert(o2[a] == o[a - 1] && o2[b] == o[b - 1]);
        }
    }
    assert forall|x: usize| #[trigger] o2.contains(x) <==> (o.contains(x) || x == q) by {
        if o2.contains(x) {
            let k = choose|k: int| 0 <= k < o2.len() && o2[k] == x;
            if k < p {
                assert(o[k] == x);
            } else if k > p {
                assert(o[k - 1] == x);
            }
        }
        if o.contains(x) {
            let k = choose|k: int| 0 <= k < o.len() && o[k] == x;
            if k < p {
                assert(o2[k] == x);
            } else {
                assert(o2[k + 1] == x);
            }
        }
        if x == q {
            assert(o2[p as int] == x);
        }
    }
}

/// All of `0..major.len()`, each once, in rank order.
fn rank_all(major: &Vec<usize>, minor: &Vec<usize>) -> (order: Vec<usize>)
    requires
        major.len() == minor.len(),
        injective(minor@),
    ensures
        order.len() == major.len(),
        forall|t: int| 0 <= t < order.len() ==> #[trigger] order@[t] < major.len(),
        forall|x: usize| x < major.len() ==> #[trigger] order@.contains(x),
        ranked(major@, minor@, order@),
{
    let mut order: Vec<usize> = Vec::new();
    let mut q: usize = 0;
    while q < major.len()
        invariant
            q <= major.len(),
            major.len() == minor.len(),
            injective(minor@),
            order.len() == q,
            forall|t: int| 0 <= t < order.len() ==> #[trigger] order@[t] < q,
            forall|x: usize| #[trigger] order@.contains(x) <==> x < q,
            ranked(major@, minor@, order@),
        decreases major.len() - q,
    {
        insert_ranked(&mut order, q, major, minor);
        assert forall|t: int| 0 <= t < order.len() implies #[trigger] order@[t] < q + 1 by {
            assert(order@.contains(order@[t]));
        }
        q += 1;
    }
    order
}

/// Whether `a` ranks before `b` among the cluster `nodes`: more neighbours first, then by name.
pub open spec fn ranks_before(
    rels: Seq<Relation>,
    nodes: Seq<Seq<char>>,
    a: Seq<char>,
    b: Seq<char>,
) -> bool {
    degree_in(rels, a, nodes) > degree_in(rels, b, nodes) || (degree_in(rels, a, nodes)
        == degree_in(rels, b, nodes) && lex_lt(a, b))
}

/// Whether `top` is the highest-ranked three of `nodes` (all of them if fewer), best first.
pub open spec fn is_top(rels: Seq<Relation>, nodes: Seq<Seq<char>>, top: Seq<Seq<char>>) -> bool {
    &&& top.len() == if nodes.len() < 3 {
        nodes.len()
    } else {
        3
    }
    &&& forall|t: int| 0 <= t < top.len() ==> nodes.contains(#[trigger] top[t])
    &&& forall|t: int|
        0 <= t < top.len() - 1 ==> ranks_before(rels, nodes, #[trigger] top[t], top[t + 1])
    &&& forall|x: Seq<char>|
        #[trigger] nodes.contains(x) && !top.contains(x) ==> ranks_before(rels, nodes, top.last(), x)
}

pub open spec fn increasing(g: Seq<usize>) -> bool {
    forall|a: int, b: int| 0 <= a < b < g.len() ==> #[trigger] g[a] < #[trigger] g[b]
}

proof fn lemma_members_sorted(nm: Seq<Seq<char>>, g: Seq<usize>)
    requires
        strictly_sorted(nm),
        increasing(g),
        forall|t: int| 0 <= t < g.len() ==> #[trigger] g[t] < nm.len(),
    ensures
        strictly_sorted(member_names(nm, g)),
{
    let m = member_names(nm, g);
    assert forall|a: int, b: int| 0 <= a < b < m.len() implies lex_lt(#[trigger] m[a], #[trigger] m[b]) by {
        assert(g[a] < g[b]);
    }
}

/// The three best-ranked nodes of the group `g`, as node indices.
fn top_nodes(
    ends: &Vec<(usize, usize)>,
    g: &Vec<usize>,
    Ghost(nm): Ghost<Seq<Seq<char>>>,
    Ghost(rels): Ghost<Seq<Relation>>,
) -> (top: Vec<usize>)
    requires
        strictly_sorted(nm),
        ends_match(nm, rels, ends@),
        increasing(g@),
        forall|t: int| 0 <= t < g.len() ==> #[trigger] g@[t] < nm.len(),
    ensures
        forall|t: int| 0 <= t < top.len() ==> #[trigger] top@[t] < nm.len(),
        is_top(rels, member_names(nm, g@), member_names(nm, top@)),
{
    let ghost nodes = member_names(nm, g@);
    let mut degs: Vec<usize> = Vec::new();
    let mut pos: Vec<usize> = Vec::new();
    let mut t: usize = 0;
    while t < g.len()
        invariant
            t <= g.len(),
            strictly_sorted(nm),
            ends_match(nm, rels, ends@),
            forall|u: int| 0 <= u < g.len() ==> #[trigger] g@[u] < nm.len(),
            nodes == member_names(nm, g@),
            degs.len() == t,
            pos.len() == t,
            forall|u: int| 0 <= u < t ==> #[trigger] pos@[u] == u,
            forall|u: int| 0 <= u < t ==> #[trigger] degs@[u] == degree_in(rels, nodes[u], nodes),
        decreases g.len() - t,
    {
        let d = degree_within(ends, g, g[t], Ghost(nm), Ghost(rels));
        degs.push(d);
        pos.push(t);
        t += 1;
    }
    let order = rank_all(&degs, &pos);
    let n = if g.len() < 3 {
        g.len()
    } else {
        3
    };
    let mut top: Vec<usize> = Vec::new();
    let mut i: usize = 0;
    while i < n
        invariant
            i <= n,
            n <= g.len(),
            order.len() == g.len(),
            forall|u: int| 0 <= u < order.len() ==> #[trigger] order@[u] < g.len(),
            forall|u: int| 0 <= u < g.len() ==> #[trigger] g@[u] < nm.len(),
            top.len() == i,
            forall|u: int| 0 <= u < i ==> #[trigger] top@[u] == g@[order@[u] as int],
        decreases n - i,
    {
        top.push(g[order[i]]);
        i += 1;
    }
    proof {
        lemma_members_sorted(nm, g@);
        let tp = member_names(nm, top@);
        assert forall|a: int, b: int|
            0 <= a < order.len() && 0 <= b < order.len() && a < b implies ranks_before(
            rels,
            nodes,
            nodes[#[trigger] order@[a] as int],
            nodes[#[trigger] order@[b] as int],
        ) by {
            let x = order@[a] as int;
            let y = order@[b] as int;
            assert(ranks(degs@, pos@, order@[a], order@[b]));
            if degs@[x] == degs@[y] {
                assert(x < y);
            }
        }
        assert forall|t: int| 0 <= t < tp.len() implies nodes.contains(#[trigger] tp[t]) by {
            assert(tp[t] == nodes[order@[t] as int]);
        }
        assert forall|t: int| 0 <= t < tp.len() - 1 implies ranks_before(
            rels,
            nodes,
            #[trigger] tp[t],
            tp[t + 1],
        ) by {
            assert(tp[t] == nodes[order@[t] as int]);
            assert(tp[t + 1] == nodes[order@[t + 1] as int]);
        }
        assert forall|x: Seq<char>| #[trigger] nodes.contains(x) && !tp.contains(x) implies ranks_before(
            rels,
            nodes,
            tp.last(),
            x,
        ) by {
            let j = choose|j: int| 0 <= j < nodes.len() && nodes[j] == x;
            assert(order@.contains(j as usize));
            let i = choose|i: int| 0 <= i < order.len() && order@[i] == j as usize;
            if i < n {
                assert(tp[i] == x);
            } else {
                assert(tp.last() == nodes[order@[n - 1] as int]);
            }
        }
    }
    top
}

pub open spec fn group_ok(lab: Seq<usize>, g: Seq<usize>) -> bool {
    &&& g.len() > 0
    &&& increasing(g)
    &&& forall|t: int| 0 <= t < g.len() ==> #[trigger] g[t] < lab.len()
    &&& forall|t: int| 0 <= t < g.len() ==> lab[#[trigger] g[t] as int] == lab[g[0] as int]
    &&& forall|j: int| 0 <= j < lab.len() && lab[j] == lab[g[0] as int] ==> #[trigger] g.contains(j as usize)
    &&& forall|j: int| 0 <= j < g[0] ==> #[trigger] lab[j] != lab[g[0] as int]
}

proof fn lemma_names_push(v: Seq<String>, x: String)
    ensures
        names_of(v.push(x)) == names_of(v).push(x@),
{
    assert(names_of(v.push(x)) =~= names_of(v).push(x@));
}

proof fn lemma_members_push(nm: Seq<Seq<char>>, g: Seq<usize>, t: int)
    requires
        0 <= t < g.len(),
    ensures
        member_names(nm, g.take(t + 1)) == member_names(nm, g.take(t)).push(nm[g[t] as int]),
{
    assert(member_names(nm, g.take(t + 1)) =~= member_names(nm, g.take(t)).push(nm[g[t] as int]));
}

/// Whether some group's label is the label of node `j`.
pub open spec fn covered(lab: Seq<usize>, gs: Seq<Vec<usize>>, j: int) -> bool {
    exists|q: int| 0 <= q < gs.len() && lab[gs[q]@[0] as int] == lab[j]
}

/// Whether no node before `i` carries the label of node `i`.
fn first_of_label(lab: &Vec<usize>, i: usize) -> (r: bool)
    requires
        i < lab.len(),
    ensures
        r == forall|k: int| 0 <= k < i ==> #[trigger] lab@[k] != lab@[i as int],
{
    let mut j: usize = 0;
    while j < i
        invariant
            j <= i,
            i < lab.len(),
            forall|k: int| 0 <= k < j ==> #[trigger] lab@[k] != lab@[i as int],
        decreases i - j,
    {
        if lab[j] == lab[i] {
            return false;
        }
        j += 1;
    }
    true
}

/// The nodes from `i` on that carry the label of node `i`, which is the first to carry it.
fn collect_group(lab: &Vec<usize>, i: usize) -> (g: Vec<usize>)
    requires
        i < lab.len(),
        forall|k: int| 0 <= k < i ==> #[trigger] lab@[k] != lab@[i as int],
    ensures
        group_ok(lab@, g@),
        g@[0] == i,
{
    let n = lab.len();
    let mut g: Vec<usize> = Vec::new();
    let mut j: usize = i;
    while j < n
        invariant
            i <= j <= n,
            n == lab.len(),
            forall|k: int| 0 <= k < i ==> #[trigger] lab@[k] != lab@[i as int],
            j > i ==> g.len() > 0 && g@[0] == i,
            increasing(g@),
            forall|t: int| 0 <= t < g.len() ==> i <= #[trigger] g@[t] < j,
            forall|t: int| 0 <= t < g.len() ==> lab@[#[trigger] g@[t] as int] == lab@[i as int],
            forall|k: int| i <= k < j && lab@[k] == lab@[i as int] ==> #[trigger] g@.contains(k as usize),
        decreases n - j,
    {
        if lab[j] == lab[i] {
            let ghost before = g@;
            g.push(j);
            assert forall|k: int| i <= k < j + 1 && lab@[k] == lab@[i as int] implies #[trigger] g@.contains(k as usize) by {
                if k < j {
                    assert(before.contains(k as usize));
                    let t = choose|t: int| 0 <= t < before.len() && before[t] == k as usize;
                    assert(g@[t] == k as usize);
                } else {
                    assert(g@[g.len() - 1] == k as usize);
                }
            }
        }
        j += 1;
    }
    g
}

/// The nodes grouped by label, each group in index order, groups in order of their first node.
#[verifier::rlimit(40)]
fn label_groups(lab: &Vec<usize>) -> (gs: Vec<Vec<usize>>)
    ensures
        forall|q: int| 0 <= q < gs.len() ==> group_ok(lab@, #[trigger] gs@[q]@),
        forall|q1: int, q2: int|
            0 <= q1 < q2 < gs.len() ==> #[trigger] gs@[q1]@[0] < #[trigger] gs@[q2]@[0],
        forall|j: int| 0 <= j < lab.len() ==> #[trigger] covered(lab@, gs@, j),
{
    let n = lab.len();
    let mut gs: Vec<Vec<usize>> = Vec::new();
    let ghost mut owner: Seq<int> = Seq::empty();
    let mut i: usize = 0;
    while i < n
        invariant
            i <= n,
            n == lab.len(),
            owner.len() == i,
            forall|q: int| 0 <= q < gs.len() ==> group_ok(lab@, #[trigger] gs@[q]@),
            forall|q: int| 0 <= q < gs.len() ==> #[trigger] gs@[q]@[0] < i,
            forall|q1: int, q2: int|
                0 <= q1 < q2 < gs.len() ==> #[trigger] gs@[q1]@[0] < #[trigger] gs@[q2]@[0],
            forall|j: int|
                0 <= j < i ==> 0 <= #[trigger] owner[j] < gs.len() && lab@[gs@[owner[j]]@[0] as int]
                    == lab@[j],
        decreases n - i,
    {
        if first_of_label(&lab, i) {
            let g = collect_group(&lab, i);
            gs.push(g);
            proof {
                owner = owner.push(gs.len() - 1);
            }
        } else {
            proof {
                let k0 = choose|k: int| 0 <= k < i && #[trigger] lab@[k] == lab@[i as int];
                owner = owner.push(owner[k0]);
            }
        }
        i += 1;
    }
    assert forall|j: int| 0 <= j < lab.len() implies #[trigger] covered(lab@, gs@, j) by {
        let q = owner[j];
        assert(0 <= q < gs.len() && lab@[gs@[q]@[0] as int] == lab@[j]);
    }
    gs
}

/// Partitions the graph's nodes into connected clusters, biggest first, each with its
/// three best-connected members.
pub fn compute_clusters(concepts: &Vec<Concept>, rels: &Vec<Relation>) -> (r: Vec<ClusterInfo>)
    ensures
        forall|x: Seq<char>|
            is_node(concepts@, rels@, x) <==> exists|k: int, j: int|
                0 <= k < r.len() && 0 <= j < r@[k].nodes.len() && #[trigger] r@[k].nodes@[j]@ == x,
        forall|k: int|
            0 <= k < r.len() ==> (#[trigger] r@[k]).nodes.len() > 0 && strictly_sorted(
                names_of(r@[k].nodes@),
            ) && is_top(rels@, names_of(r@[k].nodes@), names_of(r@[k].top@)),
        forall|k1: int, j1: int, k2: int, j2: int|
            0 <= k1 < r.len() && 0 <= j1 < r@[k1].nodes.len() && 0 <= k2 < r.len() && 0 <= j2
                < r@[k2].nodes.len() ==> (k1 == k2 <==> linked(
                rels@,
                #[trigger] r@[k1].nodes@[j1]@,
                #[trigger] r@[k2].nodes@[j2]@,
            )),
        forall|k: int|
            0 <= k < r.len() - 1 ==> (#[trigger] r@[k]).nodes.len() > r@[k + 1].nodes.len() || (
            r@[k].nodes.len() == r@[k + 1].nodes.len() && lex_lt(
                r@[k].nodes@[0]@,
                r@[k + 1].nodes@[0]@,
            )),
        forall|k1: int, j1: int, k2: int, j2: int|
            0 <= k1 < r.len() && 0 <= j1 < r@[k1].nodes.len() && 0 <= k2 < r.len() && 0 <= j2
                < r@[k2].nodes.len() && #[trigger] r@[k1].nodes@[j1]@ == #[trigger] r@[k2].nodes@[j2]@
                ==> k1 == k2 && j1 == j2,
        forall|k: int, j: int|
            0 <= k < r.len() && 0 <= j < r@[k].nodes.len() && isolated(
                rels@,
                #[trigger] r@[k].nodes@[j]@,
            ) ==> r@[k].nodes.len() == 1,
{
    let names = node_names(concepts, rels);
    let ghost nm = names_of(names@);
    let ends = endpoints(&names, concepts, rels);
    let lab = component_labels(&names, rels, &ends);
    let gs = label_groups(&lab);
    let mut sizes: Vec<usize> = Vec::new();
    let mut firsts: Vec<usize> = Vec::new();
    let mut q: usize = 0;
    while q < gs.len()
        invariant
            q <= gs.len(),
            sizes.len() == q,
            firsts.len() == q,
            forall|u: int| 0 <= u < q ==> #[trigger] sizes@[u] == gs@[u]@.len(),
            forall|u: int| 0 <= u < q ==> #[trigger] firsts@[u] == gs@[u]@[0],
            forall|u: int| 0 <= u < gs.len() ==> group_ok(lab@, #[trigger] gs@[u]@),
        decreases gs.len() - q,
    {
        sizes.push(gs[q].len());
        firsts.push(gs[q][0]);
        q += 1;
    }
    assert(injective(firsts@)) by {
        assert forall|a: int, b: int| 0 <= a < firsts.len() && 0 <= b < firsts.len() && a != b implies #[trigger] firsts@[a] != #[trigger] firsts@[b] by {
            if a < b {
                assert(gs@[a]@[0] < gs@[b]@[0]);
            } else {
                assert(gs@[b]@[0] < gs@[a]@[0]);
            }
        }
    }
    let order = rank_all(&sizes, &firsts);
    let mut r: Vec<ClusterInfo> = Vec::new();
    let mut p: usize = 0;
    while p < order.len()
        invariant
            p <= order.len(),
            nm == names_of(names@),
            strictly_sorted(nm),
            ends_match(nm, rels@, ends@),
            lab.len() == names.len(),
            forall|u: int| 0 <= u < gs.len() ==> group_ok(lab@, #[trigger] gs@[u]@),
            order.len() == gs.len(),
            forall|u: int| 0 <= u < order.len() ==> #[trigger] order@[u] < gs.len(),
            r.len() == p,
            forall|u: int|
                0 <= u < p ==> names_of((#[trigger] r@[u]).nodes@) == member_names(
                    nm,
                    gs@[order@[u] as int]@,
                ) && is_top(rels@, names_of(r@[u].nodes@), names_of(r@[u].top@)),
        decreases order.len() - p,
    {
        let g = &gs[order[p]];
        let ghost gv = g@;
        assert(group_ok(lab@, gv));
        let mut nodes: Vec<String> = Vec::new();
        let mut t: usize = 0;
        while t < g.len()
            invariant
                t <= g.len(),
                g@ == gv,
                group_ok(lab@, gv),
                lab.len() == names.len(),
                nm == names_of(names@),
                names_of(nodes@) == member_names(nm, gv.take(t as int)),
            decreases g.len() - t,
        {
            let x = names[g[t]].clone();
            assert(gv[t as int] < names.len());
            assert(x@ == nm[gv[t as int] as int]);
            let ghost before = nodes@;
            nodes.push(x);
            proof {
                lemma_names_push(before, x);
                lemma_members_push(nm, gv, t as int);
            }
            t += 1;
        }
        assert(gv.take(g.len() as int) =~= gv);
        let top_idx = top_nodes(&ends, g, Ghost(nm), Ghost(rels@));
        let mut top: Vec<String> = Vec::new();
        let mut t: usize = 0;
        while t < top_idx.len()
            invariant
                t <= top_idx.len(),
                nm == names_of(names@),
                forall|u: int| 0 <= u < top_idx.len() ==> #[trigger] top_idx@[u] < nm.len(),
                names_of(top@) == member_names(nm, top_idx@.take(t as int)),
            decreases top_idx.len() - t,
        {
            let x = names[top_idx[t]].clone();
            assert(x@ == nm[top_idx@[t as int] as int]);
            let ghost before = top@;
            top.push(x);
            proof {
                lemma_names_push(before, x);
                lemma_members_push(nm, top_idx@, t as int);
            }
            t += 1;
        }
        assert(top_idx@.take(top_idx.len() as int) =~= top_idx@);
        let ghost before = r@;
        r.push(ClusterInfo { nodes, top });
        assert forall|u: int| 0 <= u < p + 1 implies names_of((#[trigger] r@[u]).nodes@) == member_names(
            nm,
            gs@[order@[u] as int]@,
        ) && is_top(rels@, names_of(r@[u].nodes@), names_of(r@[u].top@)) by {
            if u < p {
                assert(r@[u] == before[u]);
            }
        }
        p += 1;
    }
    proof {
        assert forall|k: int| 0 <= k < r.len() implies (#[trigger] r@[k]).nodes.len() > 0 && strictly_sorted(
            names_of(r@[k].nodes@),
        ) && is_top(rels@, names_of(r@[k].nodes@), names_of(r@[k].top@)) by {
            let g = gs@[order@[k] as int]@;
            assert(group_ok(lab@, g));
            lemma_members_sorted(nm, g);
            assert(names_of(r@[k].nodes@).len() == g.len());
        }
        assert forall|x: Seq<char>|
            is_node(concepts@, rels@, x) implies exists|k: int, j: int|
                0 <= k < r.len() && 0 <= j < r@[k].nodes.len() && #[trigger] r@[k].nodes@[j]@ == x by {
            assert(nm.contains(x));
            let i = choose|i: int| 0 <= i < nm.len() && nm[i] == x;
            assert(covered(lab@, gs@, i));
            let q = choose|q: int| 0 <= q < gs.len() && lab@[gs@[q]@[0] as int] == lab@[i];
            assert(group_ok(lab@, gs@[q]@));
            assert(gs@[q]@.contains(i as usize));
            let t = choose|t: int| 0 <= t < gs@[q]@.len() && gs@[q]@[t] == i as usize;
            assert(order@.contains(q as usize));
            let k = choose|k: int| 0 <= k < order.len() && order@[k] == q as usize;
            assert(names_of(r@[k].nodes@)[t] == nm[i]);
            assert(r@[k].nodes@[t]@ == x);
        }
        assert forall|x: Seq<char>|
            (exists|k: int, j: int|
                0 <= k < r.len() && 0 <= j < r@[k].nodes.len() && #[trigger] r@[k].nodes@[j]@ == x)
            implies is_node(concepts@, rels@, x) by {
            let (k, j) = choose|k: int, j: int|
                0 <= k < r.len() && 0 <= j < r@[k].nodes.len() && #[trigger] r@[k].nodes@[j]@ == x;
            let g = gs@[order@[k] as int]@;
            assert(group_ok(lab@, g));
            assert(names_of(r@[k].nodes@)[j] == nm[g[j] as int]);
            assert(nm.contains(x));
        }
        assert forall|k1: int, j1: int, k2: int, j2: int|
            0 <= k1 < r.len() && 0 <= j1 < r@[k1].nodes.len() && 0 <= k2 < r.len() && 0 <= j2
                < r@[k2].nodes.len() implies (k1 == k2 <==> linked(
                rels@,
                #[trigger] r@[k1].nodes@[j1]@,
                #[trigger] r@[k2].nodes@[j2]@,
            )) by {
            let g1 = gs@[order@[k1] as int]@;
            let g2 = gs@[order@[k2] as int]@;
            assert(group_ok(lab@, g1));
            assert(group_ok(lab@, g2));
            assert(names_of(r@[k1].nodes@)[j1] == nm[g1[j1] as int]);
            assert(names_of(r@[k2].nodes@)[j2] == nm[g2[j2] as int]);
            assert(lab@[g1[j1] as int] == lab@[g1[0] as int]);
            assert(lab@[g2[j2] as int] == lab@[g2[0] as int]);
            if k1 != k2 {
                assert(order@[k1] != order@[k2]) by {
                    if k1 < k2 {
                        assert(ranks(sizes@, firsts@, order@[k1], order@[k2]));
                    } else {
                        assert(ranks(sizes@, firsts@, order@[k2], order@[k1]));
                    }
                }
                let a = order@[k1] as int;
                let b = order@[k2] as int;
                if a < b {
                    assert(gs@[a]@[0] < gs@[b]@[0]);
                    assert(lab@[g1[0] as int] != lab@[g2[0] as int]);
                } else {
                    assert(gs@[b]@[0] < gs@[a]@[0]);
                    assert(lab@[g1[0] as int] != lab@[g2[0] as int]);
                }
            }
        }
        assert forall|k: int|
            0 <= k < r.len() - 1 implies (#[trigger] r@[k]).nodes.len() > r@[k + 1].nodes.len() || (
            r@[k].nodes.len() == r@[k + 1].nodes.len() && lex_lt(
                r@[k].nodes@[0]@,
                r@[k + 1].nodes@[0]@,
            )) by {
            let a = order@[k] as int;
            let b = order@[k + 1] as int;
            assert(ranks(sizes@, firsts@, order@[k], order@[k + 1]));
            assert(names_of(r@[k].nodes@).len() == gs@[a]@.len());
            assert(names_of(r@[k + 1].nodes@).len() == gs@[b]@.len());
            assert(group_ok(lab@, gs@[a]@));
            assert(group_ok(lab@, gs@[b]@));
            assert(names_of(r@[k].nodes@)[0] == nm[gs@[a]@[0] as int]);
            assert(names_of(r@[k + 1].nodes@)[0] == nm[gs@[b]@[0] as int]);
        }
        assert forall|k1: int, j1: int, k2: int, j2: int|
            0 <= k1 < r.len() && 0 <= j1 < r@[k1].nodes.len() && 0 <= k2 < r.len() && 0 <= j2
                < r@[k2].nodes.len() && #[trigger] r@[k1].nodes@[j1]@ == #[trigger] r@[k2].nodes@[j2]@
                implies k1 == k2 && j1 == j2 by {
            lemma_linked_refl(rels@, r@[k1].nodes@[j1]@);
            assert(linked(rels@, r@[k1].nodes@[j1]@, r@[k2].nodes@[j2]@));
            assert(k1 == k2);
            let nv = names_of(r@[k1].nodes@);
            assert(strictly_sorted(nv));
            assert(nv[j1] == nv[j2]);
            lemma_sorted_distinct(nv, j1, j2);
        }
        assert forall|k: int, j: int|
            0 <= k < r.len() && 0 <= j < r@[k].nodes.len() && isolated(
                rels@,
                #[trigger] r@[k].nodes@[j]@,
            ) implies r@[k].nodes.len() == 1 by {
            let nv = names_of(r@[k].nodes@);
            assert(strictly_sorted(nv));
            if r@[k].nodes.len() > 1 {
                let other = if j == 0 { 1int } else { 0int };
                assert(linked(rels@, r@[k].nodes@[j]@, r@[k].nodes@[other]@));
                lemma_isolated_alone(rels@, r@[k].nodes@[j]@, r@[k].nodes@[other]@);
                assert(nv[j] == nv[other]);
                lemma_sorted_distinct(nv, j, other);
            }
        }
    }
    r
}

/// Whether no relation touches `a`.
pub open spec fn isolated(rels: Seq<Relation>, a: Seq<char>) -> bool {
    forall|y: Seq<char>| !#[trigger] adjacent(rels, a, y)
}

/// A node that no relation touches is linked to nothing but itself, which is why
/// `compute_clusters` gives it a cluster of its own.
pub proof fn lemma_isolated_alone(rels: Seq<Relation>, a: Seq<char>, b: Seq<char>)
    requires
        isolated(rels, a),
        linked(rels, a, b),
    ensures
        a == b,
{
    let p = choose|p: Seq<Seq<char>>| #[trigger] is_walk(rels, p) && p[0] == a && p.last() == b;
    if p.len() > 1 {
        assert(adjacent(rels, p[0], p[1]));
    }
}

} // verus!

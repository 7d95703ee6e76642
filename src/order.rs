use vstd::prelude::*;

verus! {

/// Lexicographic order on character sequences, by code point: the order of `str`'s `<`.
pub open spec fn lex_lt(a: Seq<char>, b: Seq<char>) -> bool
    decreases a.len(),
{
    if b.len() == 0 {
        false
    } else if a.len() == 0 {
        true
    } else if a[0] != b[0] {
        a[0] < b[0]
    } else {
        lex_lt(a.drop_first(), b.drop_first())
    }
}

pub proof fn lemma_lex_irreflexive(a: Seq<char>)
    ensures
        !lex_lt(a, a),
    decreases a.len(),
{
    if a.len() > 0 {
        lemma_lex_irreflexive(a.drop_first());
    }
}

pub proof fn lemma_lex_transitive(a: Seq<char>, b: Seq<char>, c: Seq<char>)
    requires
        lex_lt(a, b),
        lex_lt(b, c),
    ensures
        lex_lt(a, c),
    decreases a.len(),
{
    if a.len() > 0 && b.len() > 0 && c.len() > 0 && a[0] == b[0] && b[0] == c[0] {
        lemma_lex_transitive(a.drop_first(), b.drop_first(), c.drop_first());
    }
}

pub proof fn lemma_lex_total(a: Seq<char>, b: Seq<char>)
    requires
        a != b,
    ensures
        lex_lt(a, b) || lex_lt(b, a),
    decreases a.len(),
{
    if a.len() > 0 && b.len() > 0 {
        if a[0] == b[0] {
            if a.drop_first() == b.drop_first() {
                assert(a =~= seq![a[0]] + a.drop_first());
                assert(b =~= seq![b[0]] + b.drop_first());
                assert(false);
            } else {
                lemma_lex_total(a.drop_first(), b.drop_first());
            }
        } else {
            assert(a[0] < b[0] || b[0] < a[0]);
        }
    } else if a.len() == 0 && b.len() == 0 {
        assert(a =~= b);
    }
}

/// Whether `a` sorts strictly before `b`.
pub fn lex_less(a: &String, b: &String) -> (r: bool)
    ensures
        r == lex_lt(a@, b@),
{
    let sa = a.as_str();
    let sb = b.as_str();
    let na = sa.unicode_len();
    let nb = sb.unicode_len();
    let mut i: usize = 0;
    assert(a@.skip(0) =~= a@);
    assert(b@.skip(0) =~= b@);
    while i < na && i < nb
        invariant
            sa@ == a@,
            sb@ == b@,
            na == a@.len(),
            nb == b@.len(),
            i <= na,
            i <= nb,
            lex_lt(a@, b@) == lex_lt(a@.skip(i as int), b@.skip(i as int)),
        decreases na - i,
    {
        let ca = sa.get_char(i);
        let cb = sb.get_char(i);
        assert(a@.skip(i as int)[0] == ca);
        assert(b@.skip(i as int)[0] == cb);
        if ca != cb {
            return ca < cb;
        }
        assert(a@.skip(i as int).drop_first() =~= a@.skip(i + 1));
        assert(b@.skip(i as int).drop_first() =~= b@.skip(i + 1));
        i += 1;
    }
    i < nb
}

pub open spec fn strictly_sorted(s: Seq<Seq<char>>) -> bool {
    forall|a: int, b: int| 0 <= a < b < s.len() ==> lex_lt(#[trigger] s[a], #[trigger] s[b])
}

pub open spec fn names_of(v: Seq<String>) -> Seq<Seq<char>> {
    v.map_values(|s: String| s@)
}

/// Whether `v` holds a string equal to `x`.
pub fn listed(v: &Vec<String>, x: &String) -> (r: bool)
    ensures
        r == names_of(v@).contains(x@),
{
    let mut i: usize = 0;
    while i < v.len()
        invariant
            i <= v.len(),
            forall|t: int| 0 <= t < i ==> v@[t]@ != x@,
        decreases v.len() - i,
    {
        if v[i] == *x {
            assert(names_of(v@)[i as int] == x@);
            return true;
        }
        i += 1;
    }
    false
}

/// Puts `x` into the strictly sorted `v` unless it is already there.
pub fn insert_sorted(v: &mut Vec<String>, x: &String)
    requires
        strictly_sorted(names_of(old(v)@)),
    ensures
        strictly_sorted(names_of(final(v)@)),
        names_of(final(v)@).to_set() == names_of(old(v)@).to_set().insert(x@),
{
    let ghost s0 = names_of(v@);
    let mut p: usize = 0;
    while p < v.len() && lex_less(&v[p], x)
        invariant
            p <= v.len(),
            v@ == old(v)@,
            s0 == names_of(v@),
            forall|k: int| 0 <= k < p ==> lex_lt(#[trigger] s0[k], x@),
        decreases v.len() - p,
    {
        p += 1;
    }
    if p < v.len() && v[p] == *x {
        assert(s0.to_set().contains(s0[p as int]));
        assert(s0.to_set().insert(x@) =~= s0.to_set());
        return;
    }
    proof {
        if p < v.len() {
            lemma_lex_total(s0[p as int], x@);
        }
    }
    v.insert(p, x.clone());
    let ghost s1 = names_of(v@);
    assert(s1 =~= s0.take(p as int).push(x@) + s0.skip(p as int));
    assert forall|a: int, b: int| 0 <= a < b < s1.len() implies lex_lt(
        #[trigger] s1[a],
        #[trigger] s1[b],
    ) by {
        if b < p {
        } else if b == p {
        } else if a < p {
            lemma_lex_transitive(s1[a], x@, s0[p as int]);
            if b > p + 1 {
                lemma_lex_transitive(s1[a], s0[p as int], s1[b]);
            }
        } else if a == p {
            if b > p + 1 {
                lemma_lex_transitive(x@, s0[p as int], s1[b]);
            }
        } else {
        }
    }
    assert forall|y: Seq<char>| s1.to_set().contains(y) <==> s0.to_set().insert(x@).contains(y) by {
        if s1.to_set().contains(y) {
            let k = choose|k: int| 0 <= k < s1.len() && s1[k] == y;
            if k < p {
                assert(s0[k] == y);
            } else if k > p {
                assert(s0[k - 1] == y);
            }
        }
        if s0.to_set().contains(y) {
            let k = choose|k: int| 0 <= k < s0.len() && s0[k] == y;
            if k < p {
                assert(s1[k] == y);
            } else {
                assert(s1[k + 1] == y);
            }
        }
        if y == x@ {
            assert(s1[p as int] == y);
        }
    }
    assert(s1.to_set() =~= s0.to_set().insert(x@));
}

} // verus!

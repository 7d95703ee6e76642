use vstd::prelude::*;

use crate::search::{is_space, space_char, words};

verus! {

/// Whether `s` begins with `p`.
pub open spec fn starts_with(s: Seq<char>, p: Seq<char>) -> bool {
    p.len() <= s.len() && s.take(p.len() as int) == p
}

/// A character with ASCII capitals folded to lower case, as a code point.
pub open spec fn ascii_fold(c: char) -> int {
    if 'A' <= c && c <= 'Z' {
        c as int + 32
    } else {
        c as int
    }
}

/// What `str::eq_ignore_ascii_case` says.
pub open spec fn nocase_eq(a: Seq<char>, b: Seq<char>) -> bool {
    a.len() == b.len() && forall|i: int| 0 <= i < a.len() ==> #[trigger] ascii_fold(a[i]) == ascii_fold(b[i])
}

/// Where `sep` first occurs in `s`.
pub open spec fn find_in(s: Seq<char>, sep: Seq<char>) -> Option<int>
    decreases s.len(),
{
    if s.len() < sep.len() {
        None
    } else if s.take(sep.len() as int) == sep {
        Some(0)
    } else if s.len() == 0 {
        None
    } else {
        match find_in(s.drop_first(), sep) {
            Some(i) => Some(i + 1),
            None => None,
        }
    }
}

/// The part of `s` before the first `sep`, or all of it.
pub open spec fn before_sep(s: Seq<char>, sep: Seq<char>) -> Seq<char> {
    match find_in(s, sep) {
        Some(i) => s.take(i),
        None => s,
    }
}

/// The part of `s` after the first `sep`, if it occurs.
pub open spec fn after_sep(s: Seq<char>, sep: Seq<char>) -> Option<Seq<char>> {
    match find_in(s, sep) {
        Some(i) => Some(s.skip(i + sep.len())),
        None => None,
    }
}

fn fold_char(c: char) -> (r: u32)
    ensures
        r == ascii_fold(c),
{
    if 'A' <= c && c <= 'Z' {
        (c as u32) + 32
    } else {
        c as u32
    }
}

/// Whether `cs[a..b]` equals `lit` up to ASCII case.
pub fn nocase_range(cs: &Vec<char>, a: usize, b: usize, lit: &Vec<char>) -> (r: bool)
    requires
        a <= b <= cs.len(),
    ensures
        r == nocase_eq(cs@.subrange(a as int, b as int), lit@),
{
    if b - a != lit.len() {
        return false;
    }
    let mut i: usize = 0;
    while i < lit.len()
        invariant
            i <= lit.len(),
            b - a == lit.len(),
            b <= cs.len(),
            forall|k: int| 0 <= k < i ==> ascii_fold(cs@[a + k]) == ascii_fold(lit@[k]),
        decreases lit.len() - i,
    {
        if fold_char(cs[a + i]) != fold_char(lit[i]) {
            assert(cs@.subrange(a as int, b as int)[i as int] == cs@[a + i]);
            return false;
        }
        i += 1;
    }
    assert forall|k: int| 0 <= k < lit.len() implies #[trigger] ascii_fold(
        cs@.subrange(a as int, b as int)[k],
    ) == ascii_fold(lit@[k]) by {
        assert(cs@.subrange(a as int, b as int)[k] == cs@[a + k]);
    }
    true
}

/// Whether `cs[a..b]` begins with `lit`.
pub fn starts_range(cs: &Vec<char>, a: usize, b: usize, lit: &Vec<char>) -> (r: bool)
    requires
        a <= b <= cs.len(),
    ensures
        r == starts_with(cs@.subrange(a as int, b as int), lit@),
{
    if b - a < lit.len() {
        return false;
    }
    let mut i: usize = 0;
    while i < lit.len()
        invariant
            i <= lit.len(),
            lit.len() <= b - a,
            b <= cs.len(),
            forall|k: int| 0 <= k < i ==> cs@[a + k] == lit@[k],
        decreases lit.len() - i,
    {
        if cs[a + i] != lit[i] {
            assert(cs@.subrange(a as int, b as int).take(lit.len() as int)[i as int] == cs@[a + i]);
            return false;
        }
        i += 1;
    }
    assert(cs@.subrange(a as int, b as int).take(lit.len() as int) =~= lit@);
    true
}

/// Where `sep` first occurs in `cs[a..b]`, as an index of `cs`.
pub fn find_range(cs: &Vec<char>, a: usize, b: usize, sep: &Vec<char>) -> (r: Option<usize>)
    requires
        a <= b <= cs.len(),
    ensures
        match r {
            Some(k) => a <= k && k + sep.len() <= b && find_in(
                cs@.subrange(a as int, b as int),
                sep@,
            ) == Some(k - a),
            None => find_in(cs@.subrange(a as int, b as int), sep@) is None,
        },
{
    let mut i: usize = a;
    while b - i >= sep.len()
        invariant
            a <= i <= b,
            b <= cs.len(),
            find_in(cs@.subrange(a as int, b as int), sep@) == match find_in(
                cs@.subrange(i as int, b as int),
                sep@,
            ) {
                Some(j) => Some(j + (i - a)),
                None => None,
            },
        decreases b - i,
    {
        let ghost s = cs@.subrange(i as int, b as int);
        let mut hit = true;
        let mut k: usize = 0;
        while k < sep.len()
            invariant
                k <= sep.len(),
                sep.len() <= b - i,
                b <= cs.len(),
                hit == forall|t: int| 0 <= t < k ==> cs@[i + t] == sep@[t],
            decreases sep.len() - k,
        {
            if cs[i + k] != sep[k] {
                hit = false;
            }
            k += 1;
        }
        if hit {
            assert(s.take(sep.len() as int) =~= sep@);
            return Some(i);
        }
        assert(exists|t: int| 0 <= t < sep.len() && cs@[i + t] != sep@[t]);
        let ghost t = choose|t: int| 0 <= t < sep.len() && cs@[i + t] != sep@[t];
        assert(s.take(sep.len() as int)[t] != sep@[t]);
        assert(s.drop_first() =~= cs@.subrange(i + 1, b as int));
        i += 1;
    }
    None
}

/// The bounds, within `cs`, of the words of `cs[a..b]`.
pub fn word_bounds(cs: &Vec<char>, a: usize, b: usize) -> (r: Vec<(usize, usize)>)
    requires
        a <= b <= cs.len(),
    ensures
        r.len() == words(cs@.subrange(a as int, b as int)).len(),
        forall|k: int|
            0 <= k < r.len() ==> a <= (#[trigger] r@[k]).0 <= r@[k].1 <= b && cs@.subrange(
                r@[k].0 as int,
                r@[k].1 as int,
            ) == words(cs@.subrange(a as int, b as int))[k],
{
    let mut r: Vec<(usize, usize)> = Vec::new();
    let mut i: usize = a;
    while i < b
        invariant
            a <= i <= b,
            b <= cs.len(),
            r.len() == words(cs@.subrange(a as int, i as int)).len(),
            forall|k: int|
                0 <= k < r.len() ==> a <= (#[trigger] r@[k]).0 <= r@[k].1 <= i && cs@.subrange(
                    r@[k].0 as int,
                    r@[k].1 as int,
                ) == words(cs@.subrange(a as int, i as int))[k],
            r.len() > 0 && i > a && !is_space(cs@[i - 1]) ==> r@[r.len() - 1].1 == i,
            i > a && !is_space(cs@[i - 1]) ==> r.len() > 0,
        decreases b - i,
    {
        let c = cs[i];
        let ghost x = cs@.subrange(a as int, i + 1);
        let ghost prev = words(cs@.subrange(a as int, i as int));
        assert(x.drop_last() =~= cs@.subrange(a as int, i as int));
        assert(x.last() == c);
        if i > a {
            assert(x[x.len() - 2] == cs@[i - 1]);
        }
        let sp = space_char(c);
        if sp {
            assert(words(x) == prev);
        } else if i > a && !space_char(cs[i - 1]) {
            let last = r.len() - 1;
            let s0 = r[last].0;
            let ghost w = prev.drop_last().push(prev.last().push(c));
            assert(words(x) == w);
            assert(cs@.subrange(s0 as int, i + 1) =~= cs@.subrange(s0 as int, i as int).push(c));
            r.set(last, (s0, i + 1));
        } else {
            assert(!(i > a && !is_space(cs@[i - 1])));
            assert(words(x) == prev.push(seq![c]));
            assert(cs@.subrange(i as int, i + 1) =~= seq![c]);
            r.push((i, i + 1));
        }
        i += 1;
    }
    r
}

/// The value of a run of decimal digits.
pub open spec fn digits_value(d: Seq<char>) -> int
    decreases d.len(),
{
    if d.len() == 0 {
        0
    } else {
        digits_value(d.drop_last()) * 10 + (d.last() as int - '0' as int)
    }
}

pub open spec fn all_digits(d: Seq<char>) -> bool {
    forall|i: int| 0 <= i < d.len() ==> '0' <= #[trigger] d[i] && d[i] <= '9'
}

/// What `str::parse::<i64>` gives: an optional sign, then one or more ASCII digits, with a
/// value in range.
pub open spec fn parse_i64_spec(s: Seq<char>) -> Option<i64> {
    let neg = s.len() > 0 && s[0] == '-';
    let d = if s.len() > 0 && (s[0] == '-' || s[0] == '+') {
        s.drop_first()
    } else {
        s
    };
    let v = if neg {
        -digits_value(d)
    } else {
        digits_value(d)
    };
    if d.len() == 0 || !all_digits(d) || v < i64::MIN || v > i64::MAX {
        None
    } else {
        Some(v as i64)
    }
}

proof fn lemma_digits_nonneg(d: Seq<char>)
    requires
        all_digits(d),
    ensures
        0 <= digits_value(d),
    decreases d.len(),
{
    if d.len() > 0 {
        assert(all_digits(d.drop_last())) by {
            assert forall|i: int| 0 <= i < d.len() - 1 implies '0' <= #[trigger] d.drop_last()[i]
                && d.drop_last()[i] <= '9' by {
                assert(d.drop_last()[i] == d[i]);
            }
        }
        lemma_digits_nonneg(d.drop_last());
        assert(d.last() == d[d.len() - 1]);
    }
}

proof fn lemma_digits_grow(d: Seq<char>, k: int)
    requires
        all_digits(d),
        0 <= k <= d.len(),
    ensures
        digits_value(d.take(k)) <= digits_value(d),
        0 <= digits_value(d.take(k)),
    decreases d.len() - k,
{
    assert(all_digits(d.take(k))) by {
        assert forall|i: int| 0 <= i < k implies '0' <= #[trigger] d.take(k)[i] && d.take(k)[i] <= '9' by {
            assert(d.take(k)[i] == d[i]);
        }
    }
    lemma_digits_nonneg(d.take(k));
    if k < d.len() {
        lemma_digits_grow(d, k + 1);
        assert(d.take(k + 1).drop_last() =~= d.take(k));
        assert(d.take(k + 1).last() == d[k]);
        let x = digits_value(d.take(k));
        assert(digits_value(d.take(k + 1)) == x * 10 + (d[k] as int - '0' as int));
        assert(x <= x * 10 + (d[k] as int - '0' as int)) by (nonlinear_arith)
            requires
                x >= 0,
                '0' as int <= d[k] as int,
        ;
    } else {
        assert(d.take(k) =~= d);
    }
}

/// Reads a decimal `i64` from `cs[a..b]` as `str::parse` does.
pub fn parse_i64_range(cs: &Vec<char>, a: usize, b: usize) -> (r: Option<i64>)
    requires
        a <= b <= cs.len(),
    ensures
        r == parse_i64_spec(cs@.subrange(a as int, b as int)),
{
    let ghost s = cs@.subrange(a as int, b as int);
    let neg = a < b && cs[a] == '-';
    let start = if a < b && (cs[a] == '-' || cs[a] == '+') {
        a + 1
    } else {
        a
    };
    let ghost d = cs@.subrange(start as int, b as int);
    assert(d =~= if s.len() > 0 && (s[0] == '-' || s[0] == '+') {
        s.drop_first()
    } else {
        s
    });
    if start == b {
        return None;
    }
    let limit: u64 = if neg {
        9223372036854775808
    } else {
        9223372036854775807
    };
    let mut acc: u64 = 0;
    let mut i: usize = start;
    while i < b
        invariant
            start <= i <= b,
            b <= cs.len(),
            d == cs@.subrange(start as int, b as int),
            acc == digits_value(d.take(i - start)),
            acc <= limit,
            limit <= 9223372036854775808,
            limit >= 9223372036854775807,
            neg == (s.len() > 0 && s[0] == '-'),
            limit == if neg { 9223372036854775808u64 } else { 9223372036854775807u64 },
            s == cs@.subrange(a as int, b as int),
            d == if s.len() > 0 && (s[0] == '-' || s[0] == '+') {
                s.drop_first()
            } else {
                s
            },
            all_digits(d.take(i - start)),
        decreases b - i,
    {
        let c = cs[i];
        assert(d[i - start] == c);
        if !('0' <= c && c <= '9') {
            assert(!all_digits(d));
            assert(parse_i64_spec(s) is None);
            return None;
        }
        let v = (c as u32 - '0' as u32) as u64;
        assert(v <= 9);
        assert(d.take(i - start + 1).drop_last() =~= d.take(i - start));
        assert(d.take(i - start + 1).last() == c);
        if acc > (limit - v) / 10 {
            proof {
                assert(acc * 10 + v > limit) by (nonlinear_arith)
                    requires
                        acc > (limit - v) / 10,
                        v <= limit,
                ;
                if all_digits(d) {
                    lemma_digits_grow(d, i - start + 1);
                }
                assert(parse_i64_spec(s) is None);
            }
            return None;
        }
        assert(acc * 10 + v <= limit) by (nonlinear_arith)
            requires
                acc <= (limit - v) / 10,
                v <= 9,
                v <= limit,
        ;
        acc = acc * 10 + v;
        assert(all_digits(d.take(i - start + 1))) by {
            assert forall|t: int| 0 <= t < i - start + 1 implies '0' <= #[trigger] d.take(i - start + 1)[t]
                && d.take(i - start + 1)[t] <= '9' by {
                if t < i - start {
                    assert(d.take(i - start + 1)[t] == d.take(i - start)[t]);
                }
            }
        }
        i += 1;
    }
    assert(d.take(b - start) =~= d);
    if neg {
        if acc == 9223372036854775808 {
            Some(i64::MIN)
        } else {
            Some(-(acc as i64))
        }
    } else {
        Some(acc as i64)
    }
}

} // verus!

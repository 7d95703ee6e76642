use vstd::prelude::*;

verus! {

/// What `str::to_lowercase` makes of a string.
pub uninterp spec fn lower_of(s: Seq<char>) -> Seq<char>;

/// Relies on `str::to_lowercase`: the result depends on the characters alone, and the
/// empty string stays empty.
#[verifier::external_body]
pub(crate) fn lowercase(s: &str) -> (r: String)
    ensures
        r@ == lower_of(s@),
        s@.len() == 0 ==> r@.len() == 0,
{
    s.to_lowercase()
}

/// The characters of `s`, in order.
pub fn chars_of(s: &str) -> (r: Vec<char>)
    ensures
        r@ == s@,
{
    let n = s.unicode_len();
    let mut r: Vec<char> = Vec::new();
    let mut i: usize = 0;
    while i < n
        invariant
            i <= n,
            n == s@.len(),
            r@ == s@.take(i as int),
        decreases n - i,
    {
        r.push(s.get_char(i));
        assert(r@ =~= s@.take(i + 1));
        i += 1;
    }
    assert(s@.take(n as int) =~= s@);
    r
}

/// Whether `needle` occurs in `hay` starting at position `i`.
pub open spec fn occurs_at(hay: Seq<char>, needle: Seq<char>, i: int) -> bool {
    0 <= i && i + needle.len() <= hay.len() && hay.subrange(i, i + needle.len()) == needle
}

/// Whether `needle` occurs somewhere in `hay`.
pub open spec fn contains_seq(hay: Seq<char>, needle: Seq<char>) -> bool {
    exists|i: int| #[trigger] occurs_at(hay, needle, i)
}

fn matches_at(hay: &Vec<char>, needle: &Vec<char>, i: usize) -> (r: bool)
    requires
        i + needle.len() <= hay.len(),
    ensures
        r == occurs_at(hay@, needle@, i as int),
{
    let mut k: usize = 0;
    while k < needle.len()
        invariant
            k <= needle.len(),
            i + needle.len() <= hay.len(),
            forall|t: int| 0 <= t < k ==> hay@[i + t] == needle@[t],
        decreases needle.len() - k,
    {
        if hay[i + k] != needle[k] {
            assert(hay@.subrange(i as int, i + needle.len())[k as int] != needle@[k as int]);
            return false;
        }
        k += 1;
    }
    assert(hay@.subrange(i as int, i + needle.len()) =~= needle@);
    true
}

/// Whether `needle` occurs in `hay`.
pub fn contains_chars(hay: &Vec<char>, needle: &Vec<char>) -> (r: bool)
    ensures
        r == contains_seq(hay@, needle@),
{
    if needle.len() == 0 {
        assert(hay@.subrange(0, 0) =~= needle@);
        assert(occurs_at(hay@, needle@, 0));
        return true;
    }
    let mut i: usize = 0;
    while i < hay.len()
        invariant
            i <= hay.len(),
            needle.len() > 0,
            forall|j: int| 0 <= j < i ==> !#[trigger] occurs_at(hay@, needle@, j),
        decreases hay.len() - i,
    {
        if needle.len() <= hay.len() - i && matches_at(hay, needle, i) {
            return true;
        }
        i += 1;
    }
    false
}

/// What follows the first "://" in `s`, if it occurs.
pub open spec fn after_scheme(s: Seq<char>) -> Option<Seq<char>>
    decreases s.len(),
{
    if s.len() < 3 {
        None
    } else if s[0] == ':' && s[1] == '/' && s[2] == '/' {
        Some(s.skip(3))
    } else {
        after_scheme(s.drop_first())
    }
}

/// The characters of `s` before its first '/'.
pub open spec fn before_slash(s: Seq<char>) -> Seq<char>
    decreases s.len(),
{
    if s.len() == 0 || s[0] == '/' {
        Seq::empty()
    } else {
        seq![s[0]] + before_slash(s.drop_first())
    }
}

/// The host part of a URL-like source: what lies between the first "://" and the next '/'.
pub open spec fn domain_of(s: Seq<char>) -> Option<Seq<char>> {
    match after_scheme(s) {
        Some(rest) => Some(before_slash(rest)),
        None => None,
    }
}

pub open spec fn opt_view(o: Option<String>) -> Option<Seq<char>> {
    match o {
        Some(x) => Some(x@),
        None => None,
    }
}

/// The host part of a URL-like source, when it has a scheme.
pub fn derive_domain(source: &str) -> (r: Option<String>)
    ensures
        opt_view(r) == domain_of(source@),
{
    let cs = chars_of(source);
    let ghost s = source@;
    let n = cs.len();
    let mut i: usize = 0;
    assert(s.skip(0) =~= s);
    while n - i >= 3
        invariant
            i <= n,
            n == s.len(),
            s == source@,
            cs@ == s,
            after_scheme(s) == after_scheme(s.skip(i as int)),
        decreases n - i,
    {
        if cs[i] == ':' && cs[i + 1] == '/' && cs[i + 2] == '/' {
            let start = i + 3;
            assert(after_scheme(s) == Some(s.skip(start as int)));
            let mut j: usize = start;
            assert(s.subrange(start as int, start as int) =~= Seq::<char>::empty());
            assert(s.subrange(start as int, start as int) + before_slash(s.skip(start as int)) =~= before_slash(s.skip(start as int)));
            while j < n && cs[j] != '/'
                invariant
                    start <= j <= n,
                    n == s.len(),
                    s == source@,
                    cs@ == s,
                    before_slash(s.skip(start as int)) == s.subrange(start as int, j as int)
                        + before_slash(s.skip(j as int)),
                decreases n - j,
            {
                assert(s.skip(j as int).drop_first() =~= s.skip(j + 1));
                assert(s.subrange(start as int, j + 1) =~= s.subrange(start as int, j as int) + seq![s[j as int]]);
                j += 1;
            }
            assert(before_slash(s.skip(j as int)) =~= Seq::<char>::empty());
            assert(s.subrange(start as int, j as int) + Seq::<char>::empty() =~= s.subrange(start as int, j as int));
            let part = source.substring_char(start, j);
            return Some(String::from_str(part));
        }
        assert(s.skip(i as int).drop_first() =~= s.skip(i + 1));
        i += 1;
    }
    None
}

} // verus!

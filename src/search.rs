use vstd::prelude::*;

use crate::order::{listed, names_of};
use crate::text::{chars_of, contains_chars, contains_seq};

verus! {

/// Which external text-fetching tools were found on the machine.
#[derive(Clone, Copy, Debug, Default)]
pub struct ToolStatus {
    pub lynx: bool,
    pub curl: bool,
}

impl ToolStatus {
    /// A search can run only when the page dumper is present.
    pub fn ready(&self) -> (r: bool)
        ensures
            r == self.lynx,
    {
        self.lynx
    }
}

/// Why a search could not run.
#[derive(Debug)]
pub enum SearchError {
    ToolMissing(&'static str),
    CommandFailed(String),
    Utf8Error,
    InvalidInput(&'static str),
}

/// A fetched page and the lines worth offering from it.
#[derive(Debug)]
pub struct SearchResult {
    pub raw_text: String,
    pub candidates: Vec<String>,
}

/// Records which tools a probe of the machine found.
pub fn probe_tools(lynx_found: bool, curl_found: bool) -> (r: ToolStatus)
    ensures
        r.lynx == lynx_found,
        r.curl == curl_found,
{
    ToolStatus { lynx: lynx_found, curl: curl_found }
}

/// Unicode White_Space, the characters that `str::trim` removes.
pub open spec fn is_space(c: char) -> bool {
    c == '\t' || c == '\n' || c == '\u{0B}' || c == '\u{0C}' || c == '\r' || c == ' ' || c
        == '\u{85}' || c == '\u{A0}' || c == '\u{1680}' || ('\u{2000}' <= c && c <= '\u{200A}')
        || c == '\u{2028}' || c == '\u{2029}' || c == '\u{202F}' || c == '\u{205F}' || c
        == '\u{3000}'
}

pub const SPACES: u8 = 0;

pub const DIGITS: u8 = 1;

pub const CLOSERS: u8 = 2;

pub const MARKS: u8 = 3;

/// Whether a character is white space.
pub fn space_char(c: char) -> (r: bool)
    ensures
        r == is_space(c),
{
    class_has(c, SPACES)
}

/// The character classes that normalisation strips from the front of a line.
pub open spec fn in_class(c: char, k: u8) -> bool {
    if k == SPACES {
        is_space(c)
    } else if k == DIGITS {
        '0' <= c && c <= '9'
    } else if k == CLOSERS {
        c == ']'
    } else {
        c == ':' || c == '-' || c == '.'
    }
}

fn class_has(c: char, k: u8) -> (r: bool)
    ensures
        r == in_class(c, k),
{
    if k == SPACES {
        c == '\t' || c == '\n' || c == '\u{0B}' || c == '\u{0C}' || c == '\r' || c == ' ' || c
            == '\u{85}' || c == '\u{A0}' || c == '\u{1680}' || ('\u{2000}' <= c && c
            <= '\u{200A}') || c == '\u{2028}' || c == '\u{2029}' || c == '\u{202F}' || c
            == '\u{205F}' || c == '\u{3000}'
    } else if k == DIGITS {
        '0' <= c && c <= '9'
    } else if k == CLOSERS {
        c == ']'
    } else {
        c == ':' || c == '-' || c == '.'
    }
}

/// `x` without its leading characters of class `k`.
pub open spec fn skip_class(x: Seq<char>, k: u8) -> Seq<char>
    decreases x.len(),
{
    if x.len() > 0 && in_class(x[0], k) {
        skip_class(x.drop_first(), k)
    } else {
        x
    }
}

/// `x` without its trailing white space.
pub open spec fn trim_end_spec(x: Seq<char>) -> Seq<char>
    decreases x.len(),
{
    if x.len() > 0 && is_space(x.last()) {
        trim_end_spec(x.drop_last())
    } else {
        x
    }
}

/// `x` without leading and trailing white space, as `str::trim` gives it.
pub open spec fn trim_spec(x: Seq<char>) -> Seq<char> {
    trim_end_spec(skip_class(x, SPACES))
}

/// A line without a leading "[n]" reference marker.
pub open spec fn strip_reference(s: Seq<char>) -> Seq<char> {
    if s.len() > 0 && s[0] == '[' {
        skip_class(skip_class(s.drop_first(), DIGITS), CLOSERS)
    } else {
        s
    }
}

/// A line with its reference marker and leading ':', '-', '.' removed, trimmed.
pub open spec fn normalize_spec(x: Seq<char>) -> Seq<char> {
    trim_spec(skip_class(strip_reference(trim_spec(x)), MARKS))
}

fn skip_front(cs: &Vec<char>, a: usize, b: usize, k: u8) -> (r: usize)
    requires
        a <= b <= cs.len(),
    ensures
        a <= r <= b,
        cs@.subrange(r as int, b as int) == skip_class(cs@.subrange(a as int, b as int), k),
{
    let mut i: usize = a;
    while i < b && class_has(cs[i], k)
        invariant
            a <= i <= b,
            b <= cs.len(),
            skip_class(cs@.subrange(a as int, b as int), k) == skip_class(
                cs@.subrange(i as int, b as int),
                k,
            ),
        decreases b - i,
    {
        assert(cs@.subrange(i as int, b as int).drop_first() =~= cs@.subrange(i + 1, b as int));
        i += 1;
    }
    i
}

fn trim_back(cs: &Vec<char>, a: usize, b: usize) -> (r: usize)
    requires
        a <= b <= cs.len(),
    ensures
        a <= r <= b,
        cs@.subrange(a as int, r as int) == trim_end_spec(cs@.subrange(a as int, b as int)),
{
    let mut j: usize = b;
    while j > a && class_has(cs[j - 1], SPACES)
        invariant
            a <= j <= b,
            b <= cs.len(),
            trim_end_spec(cs@.subrange(a as int, b as int)) == trim_end_spec(
                cs@.subrange(a as int, j as int),
            ),
        decreases j - a,
    {
        assert(cs@.subrange(a as int, j as int).drop_last() =~= cs@.subrange(a as int, j - 1));
        j -= 1;
    }
    j
}

/// The bounds of the trimmed part of `cs[a..b]`.
pub fn trim_range(cs: &Vec<char>, a: usize, b: usize) -> (r: (usize, usize))
    requires
        a <= b <= cs.len(),
    ensures
        a <= r.0 <= r.1 <= b,
        cs@.subrange(r.0 as int, r.1 as int) == trim_spec(cs@.subrange(a as int, b as int)),
{
    let s = skip_front(cs, a, b, SPACES);
    let e = trim_back(cs, s, b);
    (s, e)
}

/// The bounds of the normalised part of `cs[a..b]`.
fn normalize_range(cs: &Vec<char>, a: usize, b: usize) -> (r: (usize, usize))
    requires
        a <= b <= cs.len(),
    ensures
        a <= r.0 <= r.1 <= b,
        cs@.subrange(r.0 as int, r.1 as int) == normalize_spec(cs@.subrange(a as int, b as int)),
{
    let (s, e) = trim_range(cs, a, b);
    let mut s2 = s;
    if s < e && cs[s] == '[' {
        assert(cs@.subrange(s as int, e as int).drop_first() =~= cs@.subrange(s + 1, e as int));
        let d = skip_front(cs, s + 1, e, DIGITS);
        s2 = skip_front(cs, d, e, CLOSERS);
    }
    let s3 = skip_front(cs, s2, e, MARKS);
    trim_range(cs, s3, e)
}

/// A line with its reference marker and leading punctuation removed, trimmed.
pub fn normalize_line(line: &str) -> (r: String)
    ensures
        r@ == normalize_spec(line@),
{
    let cs = chars_of(line);
    assert(cs@.subrange(0, cs.len() as int) =~= line@);
    let (s, e) = normalize_range(&cs, 0, cs.len());
    String::from_str(line.substring_char(s, e))
}

/// Whether a line mentions a web address.
pub open spec fn url_spec(x: Seq<char>) -> bool {
    contains_seq(x, "http://"@) || contains_seq(x, "https://"@) || contains_seq(x, "www."@)
}

fn url_chars(x: &Vec<char>) -> (r: bool)
    ensures
        r == url_spec(x@),
{
    contains_chars(x, &chars_of("http://")) || contains_chars(x, &chars_of("https://"))
        || contains_chars(x, &chars_of("www."))
}

/// Whether a line mentions a web address.
pub fn looks_like_url(line: &str) -> (r: bool)
    ensures
        r == url_spec(line@),
{
    url_chars(&chars_of(line))
}

/// What `char::is_lowercase` says of a character.
pub uninterp spec fn lowercase_char(c: char) -> bool;

/// Relies on `char::is_lowercase`: whether the character has the Unicode Lowercase property.
#[verifier::external_body]
fn is_lower(c: char) -> (r: bool)
    ensures
        r == lowercase_char(c),
{
    c.is_lowercase()
}

/// The maximal runs of non-space characters of `x`, in order.
pub open spec fn words(x: Seq<char>) -> Seq<Seq<char>>
    decreases x.len(),
{
    if x.len() == 0 {
        Seq::empty()
    } else if is_space(x.last()) {
        words(x.drop_last())
    } else if x.len() >= 2 && !is_space(x[x.len() - 2]) {
        let w = words(x.drop_last());
        w.drop_last().push(w.last().push(x.last()))
    } else {
        words(x.drop_last()).push(seq![x.last()])
    }
}

pub open spec fn has_lower(w: Seq<char>) -> bool
    decreases w.len(),
{
    w.len() > 0 && (has_lower(w.drop_last()) || lowercase_char(w.last()))
}

/// How many of the words hold a lowercase character.
pub open spec fn lower_words(ws: Seq<Seq<char>>) -> nat
    decreases ws.len(),
{
    if ws.len() == 0 {
        0
    } else {
        lower_words(ws.drop_last()) + if has_lower(ws.last()) {
            1nat
        } else {
            0nat
        }
    }
}

proof fn lemma_lower_words_le(ws: Seq<Seq<char>>)
    ensures
        lower_words(ws) <= ws.len(),
    decreases ws.len(),
{
    if ws.len() > 0 {
        lemma_lower_words_le(ws.drop_last());
    }
}

/// Counts the words of `t` and those among them that hold a lowercase character.
fn count_words(t: &Vec<char>) -> (r: (usize, usize))
    ensures
        r.0 == words(t@).len(),
        r.1 == lower_words(words(t@)),
{
    let mut nwords: usize = 0;
    let mut closed_lower: usize = 0;
    let mut cur_lower = false;
    let mut i: usize = 0;
    while i < t.len()
        invariant
            i <= t.len(),
            nwords == words(t@.take(i as int)).len(),
            nwords <= i,
            nwords > 0 ==> closed_lower < nwords,
            nwords > 0 ==> closed_lower == lower_words(words(t@.take(i as int)).drop_last())
                && cur_lower == has_lower(words(t@.take(i as int)).last()),
            nwords == 0 ==> closed_lower == 0,
            i > 0 && !is_space(t@[i - 1]) ==> nwords > 0,
        decreases t.len() - i,
    {
        let c = t[i];
        let ghost x = t@.take(i + 1);
        let ghost prev = words(t@.take(i as int));
        assert(x.drop_last() =~= t@.take(i as int));
        assert(x.last() == c);
        if i > 0 {
            assert(x[x.len() - 2] == t@[i - 1]);
        }
        if class_has(c, SPACES) {
        } else if i > 0 && !class_has(t[i - 1], SPACES) {
            let ghost w = prev.drop_last().push(prev.last().push(c));
            assert(words(x) == w);
            assert(w.drop_last() =~= prev.drop_last());
            assert(prev.last().push(c).drop_last() =~= prev.last());
            let l = is_lower(c);
            cur_lower = cur_lower || l;
            assert(has_lower(w.last()) == (has_lower(prev.last()) || lowercase_char(c)));
            assert(cur_lower == has_lower(w.last()));
            assert(closed_lower == lower_words(w.drop_last()));
        } else {
            let ghost w = prev.push(seq![c]);
            assert(words(x) == w);
            assert(w.drop_last() =~= prev);
            assert(seq![c].drop_last() =~= Seq::<char>::empty());
            if nwords > 0 && cur_lower {
                closed_lower += 1;
            }
            assert(nwords > 0 ==> lower_words(prev) == lower_words(prev.drop_last()) + if has_lower(prev.last()) { 1nat } else { 0nat });
            cur_lower = is_lower(c);
            nwords += 1;
            assert(!has_lower(Seq::<char>::empty()));
            assert(w.last() == seq![c]);
            assert(seq![c].last() == c);
            assert(cur_lower == has_lower(w.last()));
            assert(closed_lower == lower_words(w.drop_last()));
        }
        i += 1;
    }
    assert(t@.take(t.len() as int) =~= t@);
    if nwords > 0 && cur_lower {
        (nwords, closed_lower + 1)
    } else {
        (nwords, closed_lower)
    }
}

/// The first character that takes two bytes in UTF-8.
pub const TWO_BYTES: char = '\u{80}';

/// The first character that takes three bytes in UTF-8.
pub const THREE_BYTES: char = '\u{800}';

/// The first character that takes four bytes in UTF-8.
pub const FOUR_BYTES: char = '\u{10000}';

/// How many bytes a character takes in UTF-8.
pub open spec fn utf8_width(c: char) -> nat {
    if c < TWO_BYTES {
        1
    } else if c < THREE_BYTES {
        2
    } else if c < FOUR_BYTES {
        3
    } else {
        4
    }
}

/// How many bytes `x` takes in UTF-8: what `str::len` reports.
pub open spec fn utf8_len(x: Seq<char>) -> nat
    decreases x.len(),
{
    if x.len() == 0 {
        0
    } else {
        utf8_len(x.drop_last()) + utf8_width(x.last())
    }
}

/// Whether `t` takes between 8 and 120 bytes in UTF-8.
fn heading_length(t: &Vec<char>) -> (r: bool)
    ensures
        r == (8 <= utf8_len(t@) <= 120),
{
    let mut total: usize = 0;
    let mut i: usize = 0;
    while i < t.len()
        invariant
            i <= t.len(),
            total == utf8_len(t@.take(i as int)),
            total <= 120,
        decreases t.len() - i,
    {
        let c = t[i];
        let w: usize = if c < TWO_BYTES {
            1
        } else if c < THREE_BYTES {
            2
        } else if c < FOUR_BYTES {
            3
        } else {
            4
        };
        assert(t@.take(i + 1).drop_last() =~= t@.take(i as int));
        total += w;
        i += 1;
        if total > 120 {
            proof {
                lemma_utf8_len_grows(t@, i as int);
            }
            return false;
        }
    }
    assert(t@.take(t.len() as int) =~= t@);
    total >= 8
}

proof fn lemma_utf8_len_grows(x: Seq<char>, i: int)
    requires
        0 <= i <= x.len(),
    ensures
        utf8_len(x.take(i)) <= utf8_len(x),
    decreases x.len() - i,
{
    if i < x.len() {
        lemma_utf8_len_grows(x, i + 1);
        assert(x.take(i + 1).drop_last() =~= x.take(i));
    } else {
        assert(x.take(i) =~= x);
    }
}

/// Whether a line reads like a heading: 8 to 120 bytes, two words or more, and at least as
/// many words without a lowercase letter as with one (and at least one such word).
pub open spec fn title_spec(x: Seq<char>) -> bool {
    let t = trim_spec(x);
    let ws = words(t);
    let lower = lower_words(ws);
    let upper = ws.len() - lower;
    8 <= utf8_len(t) && utf8_len(t) <= 120 && ws.len() >= 2 && upper > 0 && upper >= lower
}

fn title_chars(t: &Vec<char>) -> (r: bool)
    ensures
        r == (8 <= utf8_len(t@) <= 120 && words(t@).len() >= 2 && words(t@).len() - lower_words(
            words(t@),
        ) > 0 && words(t@).len() - lower_words(words(t@)) >= lower_words(words(t@))),
{
    if !heading_length(t) {
        return false;
    }
    let (n, lower) = count_words(t);
    proof {
        lemma_lower_words_le(words(t@));
    }
    if n < 2 {
        return false;
    }
    let upper = n - lower;
    upper > 0 && upper >= lower
}

fn copy_range(cs: &Vec<char>, a: usize, b: usize) -> (t: Vec<char>)
    requires
        a <= b <= cs.len(),
    ensures
        t@ == cs@.subrange(a as int, b as int),
{
    let mut t: Vec<char> = Vec::new();
    let mut k: usize = a;
    while k < b
        invariant
            a <= k <= b,
            b <= cs.len(),
            t@ == cs@.subrange(a as int, k as int),
        decreases b - k,
    {
        t.push(cs[k]);
        assert(t@ =~= cs@.subrange(a as int, k + 1));
        k += 1;
    }
    t
}

fn title_range(cs: &Vec<char>, a: usize, b: usize) -> (r: bool)
    requires
        a <= b <= cs.len(),
    ensures
        r == title_spec(cs@.subrange(a as int, b as int)),
{
    let (s, e) = trim_range(cs, a, b);
    title_chars(&copy_range(cs, s, e))
}

/// Whether a line reads like a heading.
pub fn looks_like_title(line: &str) -> (r: bool)
    ensures
        r == title_spec(line@),
{
    let cs = chars_of(line);
    assert(cs@.subrange(0, cs.len() as int) =~= line@);
    title_range(&cs, 0, cs.len())
}

/// The most candidates one page yields.
pub const MAX_CANDIDATES: usize = 40;

/// The pieces of `s` between line feeds, in order (a trailing '\r' is white space and
/// goes with the trimming).
pub open spec fn pieces(s: Seq<char>) -> Seq<Seq<char>>
    decreases s.len(),
{
    if s.len() == 0 {
        seq![Seq::empty()]
    } else {
        let p = pieces(s.drop_last());
        if s.last() == '\n' {
            p.push(Seq::empty())
        } else {
            p.drop_last().push(p.last().push(s.last()))
        }
    }
}

/// The candidates the lines give: each normalised line that is nonempty and looks like an
/// address or a heading, once, in order, at most `MAX_CANDIDATES` of them.
pub open spec fn candidates_of(lines: Seq<Seq<char>>) -> Seq<Seq<char>>
    decreases lines.len(),
{
    if lines.len() == 0 {
        Seq::empty()
    } else {
        let prev = candidates_of(lines.drop_last());
        let x = normalize_spec(lines.last());
        if prev.len() < MAX_CANDIDATES && x.len() > 0 && (url_spec(x) || title_spec(x))
            && !prev.contains(x) {
            prev.push(x)
        } else {
            prev
        }
    }
}

/// Adds the normalised line `raw[a..b]` to `out` when it qualifies.
fn take_line(out: &mut Vec<String>, raw: &str, cs: &Vec<char>, a: usize, b: usize)
    requires
        cs@ == raw@,
        a <= b <= cs.len(),
    ensures
        names_of(final(out)@) == {
            let prev = names_of(old(out)@);
            let x = normalize_spec(cs@.subrange(a as int, b as int));
            if prev.len() < MAX_CANDIDATES && x.len() > 0 && (url_spec(x) || title_spec(x))
                && !prev.contains(x) {
                prev.push(x)
            } else {
                prev
            }
        },
{
    let (s, e) = normalize_range(cs, a, b);
    if out.len() >= MAX_CANDIDATES || s == e {
        return;
    }
    if !url_chars(&copy_range(cs, s, e)) && !title_range(cs, s, e) {
        return;
    }
    let x = String::from_str(raw.substring_char(s, e));
    if listed(out, &x) {
        return;
    }
    let ghost before = out@;
    out.push(x);
    assert(names_of(out@) =~= names_of(before).push(x@));
}

/// The lines of a fetched page that look like addresses or headings, normalised, each
/// once, in order, at most `MAX_CANDIDATES`.
pub fn extract_candidates(raw: &str) -> (r: Vec<String>)
    ensures
        names_of(r@) == candidates_of(pieces(raw@)),
{
    let cs = chars_of(raw);
    let mut out: Vec<String> = Vec::new();
    let ghost mut done: Seq<Seq<char>> = Seq::empty();
    let mut start: usize = 0;
    let mut i: usize = 0;
    assert(cs@.take(0) =~= Seq::<char>::empty());
    assert(cs@.subrange(0, 0) =~= Seq::<char>::empty());
    assert(pieces(cs@.take(0)) =~= done.push(cs@.subrange(0, 0)));
    while i < cs.len()
        invariant
            cs@ == raw@,
            start <= i <= cs.len(),
            pieces(cs@.take(i as int)) == done.push(cs@.subrange(start as int, i as int)),
            names_of(out@) == candidates_of(done),
        decreases cs.len() - i,
    {
        let ghost x = cs@.take(i + 1);
        assert(x.drop_last() =~= cs@.take(i as int));
        if cs[i] == '\n' {
            take_line(&mut out, raw, &cs, start, i);
            proof {
                let cur = cs@.subrange(start as int, i as int);
                assert(done.push(cur).drop_last() =~= done);
                assert(done.push(cur).last() == cur);
                done = done.push(cur);
                assert(cs@.subrange(i + 1, i + 1) =~= Seq::<char>::empty());
            }
            start = i + 1;
        } else {
            proof {
                let cur = cs@.subrange(start as int, i as int);
                let p = done.push(cur);
                assert(p.drop_last() =~= done);
                assert(cur.push(cs@[i as int]) =~= cs@.subrange(start as int, i + 1));
                assert(p.drop_last().push(p.last().push(x.last())) =~= done.push(
                    cs@.subrange(start as int, i + 1),
                ));
            }
        }
        i += 1;
    }
    take_line(&mut out, raw, &cs, start, cs.len());
    proof {
        let cur = cs@.subrange(start as int, cs.len() as int);
        assert(cs@.take(cs.len() as int) =~= cs@);
        assert(done.push(cur).drop_last() =~= done);
    }
    out
}

/// Checks that a search can start: an address is given and the page dumper is present.
pub fn check_search(url: &str, tools: ToolStatus) -> (r: Result<(), SearchError>)
    ensures
        trim_spec(url@).len() == 0 ==> (r matches Err(SearchError::InvalidInput(m)) && m@
            == "url missing"@),
        trim_spec(url@).len() > 0 && !tools.lynx ==> (r matches Err(SearchError::ToolMissing(t))
            && t@ == "lynx"@),
        trim_spec(url@).len() > 0 && tools.lynx ==> r is Ok,
{
    let cs = chars_of(url);
    assert(cs@.subrange(0, cs.len() as int) =~= url@);
    let (s, e) = trim_range(&cs, 0, cs.len());
    if s == e {
        return Err(SearchError::InvalidInput("url missing"));
    }
    if !tools.ready() {
        return Err(SearchError::ToolMissing("lynx"));
    }
    Ok(())
}

/// Packs a fetched page with the candidates it yields.
pub fn search_result(raw_text: String) -> (r: SearchResult)
    ensures
        r.raw_text == raw_text,
        names_of(r.candidates@) == candidates_of(pieces(raw_text@)),
{
    let candidates = extract_candidates(raw_text.as_str());
    SearchResult { raw_text, candidates }
}

} // verus!

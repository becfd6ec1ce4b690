//! Character-level text handling: white space, trimming, lines, joining,
//! substring search and replacement, all on sequences of `char`.
use vstd::prelude::*;
use vstd::slice::{slice_subrange, slice_to_vec};

verus! {

/// The characters that `char::is_whitespace` accepts: those with the
/// Unicode `White_Space` property.
pub open spec fn is_ws(c: char) -> bool {
    ||| c == '\t' || c == '\n' || c == '\u{0B}' || c == '\u{0C}' || c == '\r' || c == ' '
    ||| c == '\u{85}' || c == '\u{A0}' || c == '\u{1680}'
    ||| ('\u{2000}' <= c && c <= '\u{200A}')
    ||| c == '\u{2028}' || c == '\u{2029}' || c == '\u{202F}' || c == '\u{205F}' || c == '\u{3000}'
}

/// Whether `c` is Unicode white space.
pub fn is_whitespace(c: char) -> (r: bool)
    ensures
        r == is_ws(c),
{
    c == '\t' || c == '\n' || c == '\u{0B}' || c == '\u{0C}' || c == '\r' || c == ' ' || c
        == '\u{85}' || c == '\u{A0}' || c == '\u{1680}' || ('\u{2000}' <= c && c <= '\u{200A}')
        || c == '\u{2028}' || c == '\u{2029}' || c == '\u{202F}' || c == '\u{205F}' || c
        == '\u{3000}'
}

/// The characters of a string, in order.
pub fn chars_of(s: &str) -> (v: Vec<char>)
    ensures
        v@ == s@,
{
    let n = s.unicode_len();
    let mut v: Vec<char> = Vec::new();
    let mut i: usize = 0;
    while i < n
        invariant
            n == s@.len(),
            i <= n,
            v@ == s@.take(i as int),
        decreases n - i,
    {
        v.push(s.get_char(i));
        i = i + 1;
        assert(v@ == s@.take(i as int));
    }
    assert(s@.take(n as int) == s@);
    v
}

/// Builds a `String` from characters (std's `FromIterator<&char>` for `String`).
#[verifier::external_body]
pub(crate) fn string_of(v: &[char]) -> (s: String)
    ensures
        s@ == v@,
{
    v.iter().collect()
}

// ── Trimming ────────────────────────────────────────────────────────────────

/// `s` without its leading white space.
pub open spec fn trim_start(s: Seq<char>) -> Seq<char>
    decreases s.len(),
{
    if s.len() > 0 && is_ws(s[0]) {
        trim_start(s.drop_first())
    } else {
        s
    }
}

/// `s` without its trailing white space.
pub open spec fn trim_end(s: Seq<char>) -> Seq<char>
    decreases s.len(),
{
    if s.len() > 0 && is_ws(s.last()) {
        trim_end(s.drop_last())
    } else {
        s
    }
}

/// `s` without leading and trailing white space (`str::trim`).
pub open spec fn trim(s: Seq<char>) -> Seq<char> {
    trim_end(trim_start(s))
}

proof fn lemma_trim_start_skip(s: Seq<char>, i: int)
    requires
        0 <= i <= s.len(),
        forall|j: int| 0 <= j < i ==> is_ws(#[trigger] s[j]),
    ensures
        trim_start(s) == trim_start(s.skip(i)),
    decreases i,
{
    if i > 0 {
        assert(is_ws(s[0]));
        let t = s.drop_first();
        assert forall|j: int| 0 <= j < i - 1 implies is_ws(#[trigger] t[j]) by {
            assert(t[j] == s[j + 1]);
        }
        lemma_trim_start_skip(t, i - 1);
        assert(t.skip(i - 1) == s.skip(i));
    } else {
        assert(s.skip(0) == s);
    }
}

proof fn lemma_trim_end_take(s: Seq<char>, k: int)
    requires
        0 <= k <= s.len(),
        forall|j: int| k <= j < s.len() ==> is_ws(#[trigger] s[j]),
    ensures
        trim_end(s) == trim_end(s.take(k)),
    decreases s.len() - k,
{
    if k < s.len() {
        assert(is_ws(s.last()));
        let t = s.drop_last();
        assert forall|j: int| k <= j < t.len() implies is_ws(#[trigger] t[j]) by {
            assert(t[j] == s[j]);
        }
        lemma_trim_end_take(t, k);
        assert(t.take(k) == s.take(k));
    } else {
        assert(s.take(k) == s);
    }
}

/// `s` trimmed of white space at both ends.
pub fn trim_chars(s: &[char]) -> (r: Vec<char>)
    ensures
        r@ == trim(s@),
{
    let (i, k) = trim_bounds(s);
    slice_to_vec(slice_subrange(s, i, k))
}

/// Where the trimmed part of `s` starts and ends.
pub fn trim_bounds(s: &[char]) -> (r: (usize, usize))
    ensures
        r.0 <= r.1 <= s@.len(),
        s@.subrange(r.0 as int, r.1 as int) == trim(s@),
{
    let n = s.len();
    let mut i: usize = 0;
    while i < n && is_whitespace(s[i])
        invariant
            n == s@.len(),
            i <= n,
            forall|j: int| 0 <= j < i ==> is_ws(#[trigger] s@[j]),
        decreases n - i,
    {
        i = i + 1;
    }
    proof {
        lemma_trim_start_skip(s@, i as int);
    }
    let ghost t = s@.skip(i as int);
    assert(trim_start(t) == t);
    let mut k: usize = n;
    while k > i && is_whitespace(s[k - 1])
        invariant
            n == s@.len(),
            i <= k <= n,
            t == s@.skip(i as int),
            forall|j: int| k - i <= j < t.len() ==> is_ws(#[trigger] t[j]),
        decreases k,
    {
        assert(t[k - 1 - i] == s@[k - 1]);
        k = k - 1;
    }
    proof {
        lemma_trim_end_take(t, k - i);
        let u = t.take(k - i);
        if u.len() > 0 {
            assert(u.last() == s@[k - 1]);
        }
        assert(trim_end(u) == u);
        assert(u == s@.subrange(i as int, k as int));
    }
    (i, k)
}

/// A string trimmed of white space at both ends (`str::trim`).
pub fn trim_str(s: &str) -> (r: String)
    ensures
        r@ == trim(s@),
{
    let v = chars_of(s);
    let t = trim_chars(v.as_slice());
    string_of(t.as_slice())
}

// ── Lines ───────────────────────────────────────────────────────────────────

/// State while cutting text at line feeds: the finished lines and the line
/// being read.
pub struct LineCut {
    pub done: Seq<Seq<char>>,
    pub cur: Seq<char>,
}

pub open spec fn line_step(st: LineCut, c: char) -> LineCut {
    if c == '\n' {
        LineCut { done: st.done.push(st.cur), cur: Seq::empty() }
    } else {
        LineCut { done: st.done, cur: st.cur.push(c) }
    }
}

pub open spec fn line_f() -> spec_fn(LineCut, char) -> LineCut {
    |st: LineCut, c: char| line_step(st, c)
}

pub open spec fn line_cut(s: Seq<char>) -> LineCut {
    s.fold_left(LineCut { done: Seq::empty(), cur: Seq::empty() }, line_f())
}

/// The lines of `s` as `str::lines` yields them, up to a carriage return
/// before a line feed (every caller trims the lines, which removes it): `s`
/// cut at each `'\n'`, where a final line feed ends the last line rather
/// than starting an empty one.
pub open spec fn lines(s: Seq<char>) -> Seq<Seq<char>> {
    let st = line_cut(s);
    if s.len() == 0 || s.last() == '\n' {
        st.done
    } else {
        st.done.push(st.cur)
    }
}

/// `s` cut at every `'\n'` (`str::split('\n')`): one piece more than there
/// are line feeds.
pub open spec fn split_lines(s: Seq<char>) -> Seq<Seq<char>> {
    line_cut(s).done.push(line_cut(s).cur)
}

/// The lines of `s`, each trimmed.
pub open spec fn trimmed_lines(s: Seq<char>) -> Seq<Seq<char>> {
    lines(s).map_values(|l: Seq<char>| trim(l))
}

/// The views of a sequence of character vectors.
pub open spec fn views(v: Seq<Vec<char>>) -> Seq<Seq<char>> {
    v.map_values(|x: Vec<char>| x@)
}

/// The lines of `s`, each trimmed of white space.
pub fn trimmed_lines_of(s: &[char]) -> (r: Vec<Vec<char>>)
    ensures
        views(r@) == trimmed_lines(s@),
{
    let n = s.len();
    let mut r: Vec<Vec<char>> = Vec::new();
    let mut cur: Vec<char> = Vec::new();
    let mut i: usize = 0;
    while i < n
        invariant
            n == s@.len(),
            i <= n,
            line_cut(s@.take(i as int)).done.map_values(|l: Seq<char>| trim(l)) == views(r@),
            line_cut(s@.take(i as int)).cur == cur@,
        decreases n - i,
    {
        let c = s[i];
        let ghost old_r = r@;
        proof {
            assert(s@.take(i + 1).drop_last() == s@.take(i as int));
            assert(s@.take(i + 1).last() == c);
            assert(line_cut(s@.take(i + 1)) == line_step(line_cut(s@.take(i as int)), c));
        }
        if c == '\n' {
            let t = trim_chars(cur.as_slice());
            r.push(t);
            cur = Vec::new();
            assert(views(r@) == views(old_r).push(t@));
        } else {
            cur.push(c);
        }
        i = i + 1;
    }
    assert(s@.take(n as int) == s@);
    if !(n == 0 || s[n - 1] == '\n') {
        let ghost old_r = r@;
        let t = trim_chars(cur.as_slice());
        r.push(t);
        assert(views(r@) == views(old_r).push(t@));
    }
    assert(views(r@) == trimmed_lines(s@));
    r
}

/// `s` cut at every `'\n'`.
pub fn split_lines_of(s: &[char]) -> (r: Vec<Vec<char>>)
    ensures
        views(r@) == split_lines(s@),
{
    let n = s.len();
    let mut r: Vec<Vec<char>> = Vec::new();
    let mut cur: Vec<char> = Vec::new();
    let mut i: usize = 0;
    assert(views(r@) =~= Seq::<Seq<char>>::empty());
    assert(s@.take(0) =~= Seq::<char>::empty());
    while i < n
        invariant
            n == s@.len(),
            i <= n,
            line_cut(s@.take(i as int)).done == views(r@),
            line_cut(s@.take(i as int)).cur == cur@,
        decreases n - i,
    {
        let c = s[i];
        let ghost old_r = r@;
        proof {
            assert(s@.take(i + 1).drop_last() == s@.take(i as int));
            assert(s@.take(i + 1).last() == c);
            assert(line_cut(s@.take(i + 1)) == line_step(line_cut(s@.take(i as int)), c));
        }
        if c == '\n' {
            let ghost piece = cur@;
            r.push(cur);
            cur = Vec::new();
            assert(views(r@) == views(old_r).push(piece));
        } else {
            cur.push(c);
        }
        i = i + 1;
    }
    assert(s@.take(n as int) == s@);
    let ghost old_r = r@;
    let ghost piece = cur@;
    r.push(cur);
    assert(views(r@) == views(old_r).push(piece));
    r
}

// ── Joining ─────────────────────────────────────────────────────────────────

/// The pieces with `sep` between each two (`[T]::join`).
pub open spec fn join(ps: Seq<Seq<char>>, sep: Seq<char>) -> Seq<char>
    decreases ps.len(),
{
    if ps.len() == 0 {
        Seq::empty()
    } else if ps.len() == 1 {
        ps[0]
    } else {
        join(ps.drop_last(), sep) + sep + ps.last()
    }
}

/// The pieces joined with `sep` between each two.
pub fn join_chars(ps: &Vec<Vec<char>>, sep: &[char]) -> (r: Vec<char>)
    ensures
        r@ == join(views(ps@), sep@),
{
    let mut r: Vec<char> = Vec::new();
    let mut i: usize = 0;
    while i < ps.len()
        invariant
            i <= ps@.len(),
            r@ == join(views(ps@).take(i as int), sep@),
        decreases ps@.len() - i,
    {
        proof {
            assert(views(ps@).take(i + 1).drop_last() == views(ps@).take(i as int));
        }
        if i > 0 {
            r.extend_from_slice(sep);
        }
        r.extend_from_slice(ps[i].as_slice());
        i = i + 1;
        assert(r@ == join(views(ps@).take(i as int), sep@));
    }
    assert(views(ps@).take(ps@.len() as int) == views(ps@));
    r
}

// ── Search and replacement ──────────────────────────────────────────────────

/// The first index at or after `i` where `s` holds `c`.
pub open spec fn first_index(s: Seq<char>, c: char, i: int) -> Option<int>
    decreases s.len() - i,
{
    if i < 0 || i >= s.len() {
        None
    } else if s[i] == c {
        Some(i)
    } else {
        first_index(s, c, i + 1)
    }
}


/// `pat` occurs in `s` at position `i`.
pub open spec fn occurs_at(s: Seq<char>, pat: Seq<char>, i: int) -> bool {
    0 <= i && i + pat.len() <= s.len() && s.subrange(i, i + pat.len()) == pat
}

/// The index of the first `c` in `l`, if any.
pub fn first_index_of(l: &[char], c: char) -> (r: Option<usize>)
    ensures
        match r {
            Some(k) => first_index(l@, c, 0) == Some(k as int) && k < l@.len(),
            None => first_index(l@, c, 0) is None,
        },
{
    let mut i: usize = 0;
    while i < l.len()
        invariant
            i <= l@.len(),
            first_index(l@, c, 0) == first_index(l@, c, i as int),
        decreases l@.len() - i,
    {
        if l[i] == c {
            return Some(i);
        }
        i = i + 1;
    }
    None
}

/// Text made of ASCII characters only.
pub open spec fn is_ascii_text(cs: Seq<char>) -> bool {
    forall|i: int| 0 <= i < cs.len() ==> (#[trigger] cs[i] as u32) < 128
}

/// An ASCII letter in lower case; any other character as it is.
pub open spec fn ascii_lower(c: char) -> char {
    if 'A' <= c <= 'Z' {
        ((c as u32) + 32) as char
    } else {
        c
    }
}

/// `pat` occurs somewhere in `s` (`str::contains`).
pub open spec fn contains(s: Seq<char>, pat: Seq<char>) -> bool {
    exists|i: int| occurs_at(s, pat, i)
}

/// Whether the characters `s[i..i + pat.len()]` are those of `pat`.
pub fn matches_at(s: &[char], pat: &[char], i: usize) -> (r: bool)
    requires
        i <= s@.len(),
    ensures
        r == occurs_at(s@, pat@, i as int),
{
    let plen = pat.len();
    let slen = s.len();
    if plen > slen - i {
        return false;
    }
    let mut k: usize = 0;
    while k < plen
        invariant
            plen == pat@.len(),
            slen == s@.len(),
            i + plen <= slen,
            k <= plen,
            forall|j: int| 0 <= j < k ==> s@[i + j] == pat@[j],
        decreases plen - k,
    {
        if s[i + k] != pat[k] {
            assert(s@.subrange(i as int, i + pat@.len())[k as int] != pat@[k as int]);
            return false;
        }
        k = k + 1;
    }
    assert(s@.subrange(i as int, i + pat@.len()) == pat@);
    true
}

/// Whether `pat` occurs in `s`.
pub fn contains_chars(s: &[char], pat: &[char]) -> (r: bool)
    ensures
        r == contains(s@, pat@),
{
    let mut i: usize = 0;
    loop
        invariant
            i <= s@.len(),
            forall|j: int| 0 <= j < i ==> !occurs_at(s@, pat@, j),
        decreases s@.len() - i,
    {
        if matches_at(s, pat, i) {
            return true;
        }
        if i == s.len() {
            assert forall|j: int| !occurs_at(s@, pat@, j) by {
                if 0 <= j < i {
                    assert(!occurs_at(s@, pat@, j));
                }
            }
            return false;
        }
        i = i + 1;
    }
}

/// `s` with every occurrence of `pat` replaced by `rep`, scanning from the
/// left, occurrences not overlapping (`str::replace`).
pub open spec fn replace_all(s: Seq<char>, pat: Seq<char>, rep: Seq<char>) -> Seq<char>
    recommends
        pat.len() > 0,
    decreases s.len(),
{
    if s.len() == 0 || pat.len() == 0 {
        s
    } else if occurs_at(s, pat, 0) {
        rep + replace_all(s.skip(pat.len() as int), pat, rep)
    } else {
        seq![s[0]] + replace_all(s.skip(1), pat, rep)
    }
}

/// `s` with every occurrence of the non-empty `pat` replaced by `rep`.
pub fn replace_chars(s: &[char], pat: &[char], rep: &[char]) -> (r: Vec<char>)
    requires
        pat@.len() > 0,
    ensures
        r@ == replace_all(s@, pat@, rep@),
{
    let mut r: Vec<char> = Vec::new();
    let mut i: usize = 0;
    assert(s@.skip(0) == s@);
    assert(r@ + replace_all(s@, pat@, rep@) == replace_all(s@, pat@, rep@));
    while i < s.len()
        invariant
            pat@.len() > 0,
            i <= s@.len(),
            replace_all(s@, pat@, rep@) == r@ + replace_all(s@.skip(i as int), pat@, rep@),
        decreases s@.len() - i,
    {
        let ghost t = s@.skip(i as int);
        if matches_at(s, pat, i) {
            proof {
                assert(t.subrange(0, pat@.len() as int) == s@.subrange(i as int, i + pat@.len()));
                assert(t.skip(pat@.len() as int) == s@.skip(i + pat@.len()));
            }
            r.extend_from_slice(rep);
            i = i + pat.len();
        } else {
            proof {
                if occurs_at(t, pat@, 0) {
                    assert(t.subrange(0, pat@.len() as int) == s@.subrange(i as int, i + pat@.len()));
                }
                assert(t[0] == s@[i as int]);
                assert(t.skip(1) == s@.skip(i + 1));
            }
            r.push(s[i]);
            i = i + 1;
        }
    }
    assert(s@.skip(i as int).len() == 0);
    r
}

} // verus!

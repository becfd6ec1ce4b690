//! The file browser's logic: the tree of saved requests, counting and
//! filtering it, and the short labels it shows.
use vstd::prelude::*;

use crate::text::{
    ascii_lower, chars_of, contains, contains_chars, first_index, is_ascii_text, occurs_at, string_of,
    trim, trim_bounds,
};

verus! {

/// An entry of the saved-requests tree: a `.curl` file, or a directory with
/// the entries below it. Paths are kept as text.
pub enum DirEntry {
    File { name: String, path: String },
    Dir { name: String, path: String, children: Vec<DirEntry> },
}

/// The number of files in an entry.
pub open spec fn files_in(e: DirEntry) -> nat
    decreases e,
{
    match e {
        DirEntry::File { .. } => 1,
        DirEntry::Dir { children, .. } => files_in_all(children@),
    }
}

/// The number of files in the entries.
pub open spec fn files_in_all(es: Seq<DirEntry>) -> nat
    decreases es,
{
    if es.len() == 0 {
        0
    } else {
        files_in_all(es.drop_last()) + files_in(es.last())
    }
}

proof fn lemma_files_prefix(es: Seq<DirEntry>, i: int)
    requires
        0 <= i < es.len(),
    ensures
        files_in_all(es.take(i)) + files_in(es[i]) <= files_in_all(es),
        files_in_all(es.take(i + 1)) == files_in_all(es.take(i)) + files_in(es[i]),
    decreases es.len(),
{
    assert(es.take(i + 1).drop_last() == es.take(i));
    assert(es.take(i + 1).last() == es[i]);
    if i < es.len() - 1 {
        lemma_files_prefix(es.drop_last(), i);
        assert(es.drop_last().take(i) == es.take(i));
        assert(es.drop_last()[i] == es[i]);
    } else {
        assert(es.take(i) == es.drop_last());
    }
}

/// Counting files adds up: no entries hold no file, the files of two lists
/// of entries are those of each, and a directory holds the files of its
/// children.
pub proof fn lemma_files_add_up(a: Seq<DirEntry>, b: Seq<DirEntry>, d: DirEntry)
    ensures
        files_in_all(Seq::empty()) == 0,
        files_in_all(a + b) == files_in_all(a) + files_in_all(b),
        d matches DirEntry::Dir { children, .. } ==> files_in_all(seq![d]) == files_in_all(
            children@,
        ),
    decreases b.len(),
{
    if b.len() == 0 {
        assert(a + b =~= a);
    } else {
        lemma_files_add_up(a, b.drop_last(), d);
        assert((a + b).drop_last() =~= a + b.drop_last());
        assert((a + b).last() == b.last());
    }
    assert(seq![d].drop_last() =~= Seq::<DirEntry>::empty());
    assert(seq![d].last() == d);
    assert(files_in_all(Seq::<DirEntry>::empty()) == 0);
    assert(files_in_all(seq![d]) == files_in(d));
}

/// The number of files in the entries and all directories below them.
pub fn count_files(entries: &[DirEntry]) -> (n: usize)
    requires
        files_in_all(entries@) <= usize::MAX,
    ensures
        n == files_in_all(entries@),
    decreases entries@,
{
    let mut total: usize = 0;
    let mut i: usize = 0;
    assert(entries@.take(0) =~= Seq::<DirEntry>::empty());
    while i < entries.len()
        invariant
            i <= entries@.len(),
            files_in_all(entries@) <= usize::MAX,
            total == files_in_all(entries@.take(i as int)),
        decreases entries@.len() - i,
    {
        proof {
            lemma_files_prefix(entries@, i as int);
        }
        let c: usize = match &entries[i] {
            DirEntry::File { .. } => 1,
            DirEntry::Dir { children, .. } => {
                proof {
                    assert(decreases_to!(entries@ => entries@[i as int]));
                    assert(decreases_to!(entries@[i as int] => entries@[i as int]->Dir_children));
                    assert(decreases_to!(entries@[i as int]->Dir_children => entries@[i as int]->Dir_children@));
                }
                count_files(children.as_slice())
            },
        };
        total = total + c;
        i = i + 1;
    }
    assert(entries@.take(entries@.len() as int) == entries@);
    total
}

/// `s` in lower case, as `str::to_lowercase` maps it (by the Unicode
/// lower-case mapping, with the final-sigma rule).
pub uninterp spec fn lowercase(s: Seq<char>) -> Seq<char>;

/// `str::to_lowercase`: its result depends on the text alone; ASCII text
/// has its letters lowered one by one (the Unicode lower-case mapping of an
/// ASCII character is the ASCII one), so the empty text stays empty.
#[verifier::external_body]
fn to_lowercase(s: &str) -> (r: String)
    ensures
        r@ == lowercase(s@),
        is_ascii_text(s@) ==> r@ == s@.map_values(|c: char| ascii_lower(c)),
{
    s.to_lowercase()
}

/// Whether an entry is, or holds, a file whose lower-cased name contains `f`.
pub open spec fn entry_matches(e: DirEntry, f: Seq<char>) -> bool
    decreases e,
{
    match e {
        DirEntry::File { name, .. } => contains(lowercase(name@), f),
        DirEntry::Dir { children, .. } => any_matches(children@, f),
    }
}

/// Whether one of the entries matches (see `entry_matches`).
pub open spec fn any_matches(es: Seq<DirEntry>, f: Seq<char>) -> bool
    decreases es,
{
    es.len() > 0 && (any_matches(es.drop_last(), f) || entry_matches(es.last(), f))
}

proof fn lemma_any_prefix(es: Seq<DirEntry>, f: Seq<char>, i: int)
    requires
        0 <= i < es.len(),
    ensures
        any_matches(es.take(i + 1), f) == (any_matches(es.take(i), f) || entry_matches(es[i], f)),
{
    assert(es.take(i + 1).drop_last() == es.take(i));
    assert(es.take(i + 1).last() == es[i]);
}

impl DirEntry {
    /// Whether some file among the entries, at any depth, has a name that
    /// contains the filter, both lower-cased.
    pub fn has_match(entries: &[DirEntry], filter: &str) -> (r: bool)
        ensures
            r == any_matches(entries@, lowercase(filter@)),
            filter@.len() == 0 ==> (r <==> files_in_all(entries@) > 0),
            r == some_name_holds(file_names_all(entries@), lowercase(filter@)),
        decreases entries@,
    {
        proof {
            lemma_matches_names(entries@, lowercase(filter@));
        }
        let f = to_lowercase(filter);
        proof {
            if filter@.len() == 0 {
                assert(f@ =~= Seq::<char>::empty());
                lemma_empty_filter(entries@);
            }
        }
        let fc = chars_of(f.as_str());
        let mut i: usize = 0;
        assert(entries@.take(0) =~= Seq::<DirEntry>::empty());
        while i < entries.len()
            invariant
                i <= entries@.len(),
                fc@ == lowercase(filter@),
                any_matches(entries@, fc@) == some_name_holds(file_names_all(entries@), fc@),
                filter@.len() == 0 ==> (any_matches(entries@, fc@) == (files_in_all(entries@) > 0)),
                !any_matches(entries@.take(i as int), fc@),
            decreases entries@.len() - i,
        {
            proof {
                lemma_any_prefix(entries@, fc@, i as int);
            }
            let m = match &entries[i] {
                DirEntry::File { name, .. } => {
                    let lower = to_lowercase(name.as_str());
                    let lc = chars_of(lower.as_str());
                    contains_chars(lc.as_slice(), fc.as_slice())
                },
                DirEntry::Dir { children, .. } => {
                    proof {
                        assert(decreases_to!(entries@ => entries@[i as int]));
                        assert(decreases_to!(entries@[i as int] => entries@[i as int]->Dir_children));
                        assert(decreases_to!(entries@[i as int]->Dir_children => entries@[i as int]->Dir_children@));
                    }
                    DirEntry::has_match(children.as_slice(), filter)
                },
            };
            if m {
                proof {
                    lemma_any_prefix_true(entries@, fc@, i as int);
                }
                return true;
            }
            i = i + 1;
        }
        assert(entries@.take(entries@.len() as int) == entries@);
        false
    }
}

proof fn lemma_empty_filter_entry(e: DirEntry)
    ensures
        entry_matches(e, Seq::empty()) == (files_in(e) > 0),
    decreases e,
{
    match e {
        DirEntry::File { name, .. } => {
            assert(lowercase(name@).subrange(0, 0) =~= Seq::<char>::empty());
            assert(occurs_at(lowercase(name@), Seq::empty(), 0));
        },
        DirEntry::Dir { children, .. } => {
            lemma_empty_filter(children@);
        },
    }
}

/// The empty filter matches exactly the entries that hold a file.
proof fn lemma_empty_filter(es: Seq<DirEntry>)
    ensures
        any_matches(es, Seq::empty()) == (files_in_all(es) > 0),
    decreases es,
{
    if es.len() > 0 {
        lemma_empty_filter(es.drop_last());
        lemma_empty_filter_entry(es.last());
    }
}

/// The names of the files in an entry, at any depth, in order.
pub open spec fn file_names(e: DirEntry) -> Seq<Seq<char>>
    decreases e,
{
    match e {
        DirEntry::File { name, .. } => seq![name@],
        DirEntry::Dir { children, .. } => file_names_all(children@),
    }
}

/// The names of the files in the entries, at any depth, in order.
pub open spec fn file_names_all(es: Seq<DirEntry>) -> Seq<Seq<char>>
    decreases es,
{
    if es.len() == 0 {
        Seq::empty()
    } else {
        file_names_all(es.drop_last()) + file_names(es.last())
    }
}

/// Some name in `ns`, lower-cased, contains `f`.
pub open spec fn some_name_holds(ns: Seq<Seq<char>>, f: Seq<char>) -> bool {
    exists|i: int| 0 <= i < ns.len() && contains(lowercase(#[trigger] ns[i]), f)
}

proof fn lemma_some_name_concat(a: Seq<Seq<char>>, b: Seq<Seq<char>>, f: Seq<char>)
    ensures
        some_name_holds(a + b, f) == (some_name_holds(a, f) || some_name_holds(b, f)),
{
    if some_name_holds(a + b, f) {
        let i = choose|i: int| 0 <= i < (a + b).len() && contains(lowercase(#[trigger] (a + b)[i]), f);
        if i < a.len() {
            assert((a + b)[i] == a[i]);
        } else {
            assert((a + b)[i] == b[i - a.len()]);
        }
    }
    if some_name_holds(a, f) {
        let i = choose|i: int| 0 <= i < a.len() && contains(lowercase(#[trigger] a[i]), f);
        assert((a + b)[i] == a[i]);
    }
    if some_name_holds(b, f) {
        let i = choose|i: int| 0 <= i < b.len() && contains(lowercase(#[trigger] b[i]), f);
        assert((a + b)[a.len() + i] == b[i]);
    }
}

proof fn lemma_entry_matches_names(e: DirEntry, f: Seq<char>)
    ensures
        entry_matches(e, f) == some_name_holds(file_names(e), f),
    decreases e,
{
    match e {
        DirEntry::File { name, .. } => {
            let ns = seq![name@];
            if contains(lowercase(name@), f) {
                assert(contains(lowercase(ns[0]), f));
            }
        },
        DirEntry::Dir { children, .. } => {
            lemma_matches_names(children@, f);
        },
    }
}

/// Whether a filter matches entries depends on the names of their files
/// alone, at any depth (a directory's own name and every path play no
/// part): it matches exactly when some file name, lower-cased, contains it.
pub proof fn lemma_matches_names(es: Seq<DirEntry>, f: Seq<char>)
    ensures
        any_matches(es, f) == some_name_holds(file_names_all(es), f),
    decreases es,
{
    if es.len() == 0 {
        assert(!some_name_holds(Seq::<Seq<char>>::empty(), f));
    } else {
        lemma_matches_names(es.drop_last(), f);
        lemma_entry_matches_names(es.last(), f);
        lemma_some_name_concat(file_names_all(es.drop_last()), file_names(es.last()), f);
    }
}

/// A file matches a filter by its name alone: two files of the same name
/// match the same filters, wherever they lie.
pub proof fn lemma_file_match_by_name(name: String, p1: String, p2: String, f: Seq<char>)
    ensures
        entry_matches(DirEntry::File { name: name, path: p1 }, f) == contains(lowercase(name@), f),
        entry_matches(DirEntry::File { name: name, path: p1 }, f) == entry_matches(
            DirEntry::File { name: name, path: p2 },
            f,
        ),
{
}

proof fn lemma_any_prefix_true(es: Seq<DirEntry>, f: Seq<char>, i: int)
    requires
        0 <= i < es.len(),
        entry_matches(es[i], f),
    ensures
        any_matches(es, f),
    decreases es.len(),
{
    if i < es.len() - 1 {
        lemma_any_prefix_true(es.drop_last(), f, i);
        assert(es.drop_last()[i] == es[i]);
    }
}

// ── Labels ──────────────────────────────────────────────────────────────────

/// `s` with every leading copy of `p` removed (`str::trim_start_matches`).
pub open spec fn strip_all(s: Seq<char>, p: Seq<char>) -> Seq<char>
    decreases s.len(),
{
    if p.len() > 0 && p.len() <= s.len() && s.take(p.len() as int) == p {
        strip_all(s.skip(p.len() as int), p)
    } else {
        s
    }
}

pub open spec fn https_scheme() -> Seq<char> {
    seq!['h', 't', 't', 'p', 's', ':', '/', '/']
}

pub open spec fn http_scheme() -> Seq<char> {
    seq!['h', 't', 't', 'p', ':', '/', '/']
}

/// The host part of a URL: trimmed, every leading `https://` then every
/// leading `http://` removed, up to the first `/`.
pub open spec fn host_of(url: Seq<char>) -> Seq<char> {
    let s = strip_all(strip_all(trim(url), https_scheme()), http_scheme());
    match first_index(s, '/', 0) {
        Some(k) => s.take(k),
        None => s,
    }
}

/// Moves `i` past every copy of `p` that starts at it, up to `end`.
fn skip_prefixes(cs: &[char], i: usize, end: usize, p: &[char]) -> (r: usize)
    requires
        i <= end <= cs@.len(),
        p@.len() > 0,
    ensures
        i <= r <= end,
        cs@.subrange(r as int, end as int) == strip_all(cs@.subrange(i as int, end as int), p@),
{
    let mut j: usize = i;
    while p.len() <= end - j && crate::text::matches_at(cs, p, j)
        invariant
            i <= j <= end,
            end <= cs@.len(),
            p@.len() > 0,
            strip_all(cs@.subrange(i as int, end as int), p@) == strip_all(
                cs@.subrange(j as int, end as int),
                p@,
            ),
        decreases end - j,
    {
        let ghost t = cs@.subrange(j as int, end as int);
        assert(t.take(p@.len() as int) == cs@.subrange(j as int, j + p@.len()));
        assert(t.skip(p@.len() as int) == cs@.subrange(j + p@.len(), end as int));
        j = j + p.len();
    }
    proof {
        let t = cs@.subrange(j as int, end as int);
        if p@.len() <= t.len() && t.take(p@.len() as int) == p@ {
            assert(t.take(p@.len() as int) == cs@.subrange(j as int, j + p@.len()));
        }
    }
    j
}

/// The host part of a URL (see `host_of`).
pub fn extract_host(url: &str) -> (r: &str)
    ensures
        r@ == host_of(url@),
{
    let cs = chars_of(url);
    let (a, b) = trim_bounds(cs.as_slice());
    let https = vec!['h', 't', 't', 'p', 's', ':', '/', '/'];
    let http = vec!['h', 't', 't', 'p', ':', '/', '/'];
    let a1 = skip_prefixes(cs.as_slice(), a, b, https.as_slice());
    let a2 = skip_prefixes(cs.as_slice(), a1, b, http.as_slice());
    let ghost s = cs@.subrange(a2 as int, b as int);
    assert(s == strip_all(strip_all(trim(url@), https_scheme()), http_scheme()));
    let mut k: usize = a2;
    while k < b && cs[k] != '/'
        invariant
            a2 <= k <= b,
            b <= cs@.len(),
            s == cs@.subrange(a2 as int, b as int),
            first_index(s, '/', 0) == first_index(s, '/', k - a2),
        decreases b - k,
    {
        assert(s[k - a2] == cs@[k as int]);
        k = k + 1;
    }
    proof {
        if k < b {
            assert(s[k - a2] == cs@[k as int]);
            assert(s.take(k - a2) == cs@.subrange(a2 as int, k as int));
        } else {
            assert(s == cs@.subrange(a2 as int, k as int));
        }
    }
    url.substring_char(a2, k)
}

/// The part of `s` after its last `c` (all of `s` when there is none).
pub open spec fn after_last(s: Seq<char>, c: char) -> Seq<char>
    decreases s.len(),
{
    if s.len() == 0 {
        Seq::empty()
    } else if s.last() == c {
        Seq::empty()
    } else {
        after_last(s.drop_last(), c).push(s.last())
    }
}

/// The label of the default directory: `~/` and its last path component.
pub open spec fn dir_label(dir: Seq<char>) -> Seq<char> {
    seq!['~', '/'] + after_last(dir, '/')
}

/// The label of the default directory (see `dir_label`).
pub fn short_dir_label(dir: &str) -> (r: String)
    ensures
        r@ == dir_label(dir@),
{
    let cs = chars_of(dir);
    let mut start: usize = cs.len();
    assert(cs@.take(start as int) == cs@);
    assert(cs@.subrange(start as int, cs@.len() as int) =~= Seq::<char>::empty());
    assert(after_last(cs@, '/') + Seq::<char>::empty() == after_last(cs@, '/'));
    while start > 0 && cs[start - 1] != '/'
        invariant
            start <= cs@.len(),
            after_last(cs@, '/') == after_last(cs@.take(start as int), '/') + cs@.subrange(
                start as int,
                cs@.len() as int,
            ),
        decreases start,
    {
        let ghost t = cs@.take(start as int);
        assert(t.drop_last() == cs@.take(start - 1));
        assert(t.last() == cs@[start - 1]);
        assert(cs@.subrange(start - 1, cs@.len() as int) == seq![cs@[start - 1]] + cs@.subrange(
            start as int,
            cs@.len() as int,
        ));
        start = start - 1;
    }
    proof {
        let t = cs@.take(start as int);
        if start > 0 {
            assert(t.last() == cs@[start - 1]);
        }
        assert(after_last(t, '/') == Seq::<char>::empty());
    }
    let mut v = vec!['~', '/'];
    let mut tail = vstd::slice::slice_to_vec(vstd::slice::slice_subrange(cs.as_slice(), start, cs.len()));
    v.append(&mut tail);
    assert(v@ =~= dir_label(dir@));
    string_of(v.as_slice())
}

} // verus!

//! JSON values, dot-notation paths into them, and filtering a value by a
//! path so that the key hierarchy around the matched values is kept.
use vstd::prelude::*;

use crate::num::{parse_usize, parse_usize_chars};
use crate::text::{chars_of, string_of, trim, trim_chars, trim_str};

verus! {

// ── Values ──────────────────────────────────────────────────────────────────

/// A JSON value. Numbers keep their text; an object keeps its entries in
/// order (a key is looked up at its first entry).
pub enum JsonValue {
    Null,
    Bool(bool),
    Number(String),
    Str(String),
    Array(Vec<JsonValue>),
    Object(Vec<(String, JsonValue)>),
}

/// The mathematical content of a `JsonValue`.
pub enum Json {
    Null,
    Bool(bool),
    Number(Seq<char>),
    Str(Seq<char>),
    Array(Seq<Json>),
    Object(Seq<(Seq<char>, Json)>),
}

pub open spec fn json_model(v: JsonValue) -> Json
    decreases v,
{
    match v {
        JsonValue::Null => Json::Null,
        JsonValue::Bool(b) => Json::Bool(b),
        JsonValue::Number(n) => Json::Number(n@),
        JsonValue::Str(s) => Json::Str(s@),
        JsonValue::Array(a) => Json::Array(json_models(a@)),
        JsonValue::Object(o) => Json::Object(entry_models(o@)),
    }
}

pub open spec fn json_models(vs: Seq<JsonValue>) -> Seq<Json>
    decreases vs,
{
    if vs.len() == 0 {
        Seq::empty()
    } else {
        json_models(vs.drop_last()).push(json_model(vs.last()))
    }
}

pub open spec fn entry_models(es: Seq<(String, JsonValue)>) -> Seq<(Seq<char>, Json)>
    decreases es,
{
    if es.len() == 0 {
        Seq::empty()
    } else {
        entry_models(es.drop_last()).push((es.last().0@, json_model(es.last().1)))
    }
}

/// A copy of `v`.
pub fn copy_json(v: &JsonValue) -> (r: JsonValue)
    ensures
        json_model(r) == json_model(*v),
    decreases v,
{
    match v {
        JsonValue::Null => JsonValue::Null,
        JsonValue::Bool(b) => JsonValue::Bool(*b),
        JsonValue::Number(n) => JsonValue::Number(n.clone()),
        JsonValue::Str(s) => JsonValue::Str(s.clone()),
        JsonValue::Array(a) => {
            let mut out: Vec<JsonValue> = Vec::new();
            let mut i: usize = 0;
            while i < a.len()
                invariant
                    *v == JsonValue::Array(*a),
                    i <= a@.len(),
                    json_models(out@) == json_models(a@.take(i as int)),
                decreases a@.len() - i,
            {
                assert(a@.take(i + 1).drop_last() == a@.take(i as int));
                let ghost before = out@;
                proof {
                    assert(decreases_to!(*v => (*v)->Array_0));
                    assert(decreases_to!(*a => a@));
                    assert(decreases_to!(a@ => a@[i as int]));
                    assert(decreases_to!(*v => a@[i as int]));
                }
                let c = copy_json(&a[i]);
                out.push(c);
                assert(out@.drop_last() == before);
                i = i + 1;
            }
            assert(a@.take(a@.len() as int) == a@);
            JsonValue::Array(out)
        },
        JsonValue::Object(o) => {
            let mut out: Vec<(String, JsonValue)> = Vec::new();
            let mut i: usize = 0;
            while i < o.len()
                invariant
                    *v == JsonValue::Object(*o),
                    i <= o@.len(),
                    entry_models(out@) == entry_models(o@.take(i as int)),
                decreases o@.len() - i,
            {
                assert(o@.take(i + 1).drop_last() == o@.take(i as int));
                let ghost before = out@;
                let k = o[i].0.clone();
                proof {
                    assert(decreases_to!(*v => (*v)->Object_0));
                    assert(decreases_to!(*o => o@));
                    assert(decreases_to!(o@ => o@[i as int]));
                    assert(decreases_to!(o@[i as int] => o@[i as int].1));
                    assert(decreases_to!(*v => o@[i as int].1));
                }
                let c = copy_json(&o[i].1);
                out.push((k, c));
                assert(out@.drop_last() == before);
                i = i + 1;
            }
            assert(o@.take(o@.len() as int) == o@);
            JsonValue::Object(out)
        },
    }
}

// ── Paths ───────────────────────────────────────────────────────────────────

/// One step of a path: an object key, an array index, or every element of
/// an array.
pub enum PathSegment {
    Key(String),
    Index(usize),
    Wildcard,
}

/// The content of a `PathSegment`.
pub enum SegView {
    Key(Seq<char>),
    Index(usize),
    Wildcard,
}

impl View for PathSegment {
    type V = SegView;

    open spec fn view(&self) -> SegView {
        match self {
            PathSegment::Key(k) => SegView::Key(k@),
            PathSegment::Index(i) => SegView::Index(*i),
            PathSegment::Wildcard => SegView::Wildcard,
        }
    }
}

/// Where the path reader stands: in a key, inside `[...]`, or just after
/// a `]` (where one `.` is skipped).
#[derive(Clone, Copy, Debug, PartialEq, Eq, Structural)]
pub enum PathMode {
    Normal,
    Bracket,
    AfterBracket,
}

pub struct PathState {
    pub mode: PathMode,
    pub seg: Seq<char>,
    pub idx: Seq<char>,
    pub segs: Seq<SegView>,
}

/// `segs` with the key `seg` added when it is not empty.
pub open spec fn flush_key(segs: Seq<SegView>, seg: Seq<char>) -> Seq<SegView> {
    if seg.len() > 0 {
        segs.push(SegView::Key(seg))
    } else {
        segs
    }
}

/// `segs` with what the bracket text `idx` denotes: `*` the wildcard, a
/// `usize` an index; anything else adds nothing.
pub open spec fn add_bracket(segs: Seq<SegView>, idx: Seq<char>) -> Seq<SegView> {
    if idx == seq!['*'] {
        segs.push(SegView::Wildcard)
    } else {
        match parse_usize(idx) {
            Some(i) => segs.push(SegView::Index(i)),
            None => segs,
        }
    }
}

pub open spec fn path_key_step(st: PathState, c: char) -> PathState {
    if c == '.' {
        PathState { mode: PathMode::Normal, seg: Seq::empty(), idx: st.idx, segs: flush_key(st.segs, st.seg) }
    } else if c == '[' {
        PathState { mode: PathMode::Bracket, seg: Seq::empty(), idx: Seq::empty(), segs: flush_key(st.segs, st.seg) }
    } else {
        PathState { mode: PathMode::Normal, seg: st.seg.push(c), idx: st.idx, segs: st.segs }
    }
}

/// One character of a path: `.` ends a key, `[` ends a key and opens a
/// bracket that runs to `]`, and a `.` right after `]` is skipped.
pub open spec fn path_step(st: PathState, c: char) -> PathState {
    match st.mode {
        PathMode::Normal => path_key_step(st, c),
        PathMode::Bracket => if c == ']' {
            PathState { mode: PathMode::AfterBracket, seg: st.seg, idx: Seq::empty(), segs: add_bracket(st.segs, st.idx) }
        } else {
            PathState { mode: PathMode::Bracket, seg: st.seg, idx: st.idx.push(c), segs: st.segs }
        },
        PathMode::AfterBracket => if c == '.' {
            PathState { mode: PathMode::Normal, ..st }
        } else {
            path_key_step(PathState { mode: PathMode::Normal, ..st }, c)
        },
    }
}

pub open spec fn path_f() -> spec_fn(PathState, char) -> PathState {
    |st: PathState, c: char| path_step(st, c)
}

pub open spec fn path_start() -> PathState {
    PathState { mode: PathMode::Normal, seg: Seq::empty(), idx: Seq::empty(), segs: Seq::empty() }
}

/// The segments once the text ends: an unclosed bracket still counts, then
/// the last key.
pub open spec fn path_finish(st: PathState) -> Seq<SegView> {
    let segs = if st.mode == PathMode::Bracket {
        add_bracket(st.segs, st.idx)
    } else {
        st.segs
    };
    flush_key(segs, st.seg)
}

/// `s` without its leading dots.
pub open spec fn skip_dots(s: Seq<char>) -> Seq<char>
    decreases s.len(),
{
    if s.len() > 0 && s[0] == '.' {
        skip_dots(s.drop_first())
    } else {
        s
    }
}

/// The part of a path that names segments: trimmed, one leading `$` and
/// then all leading dots removed.
pub open spec fn path_body(p: Seq<char>) -> Seq<char> {
    let t = trim(p);
    let t = if t.len() > 0 && t[0] == '$' {
        t.drop_first()
    } else {
        t
    };
    skip_dots(t)
}

/// The segments of a dot-notation path such as `data.items[0].name`,
/// `data[*].id` or `$.items[*].tags[0]`.
pub open spec fn parse_path(p: Seq<char>) -> Seq<SegView> {
    let b = path_body(p);
    if b.len() == 0 {
        Seq::empty()
    } else {
        path_finish(b.fold_left(path_start(), path_f()))
    }
}

pub open spec fn seg_views(v: Seq<PathSegment>) -> Seq<SegView> {
    v.map_values(|s: PathSegment| s@)
}

fn push_key(segs: &mut Vec<PathSegment>, seg: &Vec<char>)
    ensures
        seg_views(final(segs)@) == flush_key(seg_views(old(segs)@), seg@),
{
    if seg.len() > 0 {
        let k = string_of(seg.as_slice());
        segs.push(PathSegment::Key(k));
        assert(seg_views(final(segs)@) =~= seg_views(old(segs)@).push(SegView::Key(seg@)));
    }
}

fn push_bracket(segs: &mut Vec<PathSegment>, idx: &Vec<char>)
    ensures
        seg_views(final(segs)@) == add_bracket(seg_views(old(segs)@), idx@),
{
    if idx.len() == 1 && idx[0] == '*' {
        assert(idx@ =~= seq!['*']);
        segs.push(PathSegment::Wildcard);
        assert(seg_views(final(segs)@) =~= seg_views(old(segs)@).push(SegView::Wildcard));
    } else {
        assert(idx@ != seq!['*']) by {
            if idx@ == seq!['*'] {
                assert(idx@.len() == 1 && idx@[0] == '*');
            }
        }
        match parse_usize_chars(idx.as_slice()) {
            Some(i) => {
                segs.push(PathSegment::Index(i));
                assert(seg_views(final(segs)@) =~= seg_views(old(segs)@).push(SegView::Index(i)));
            },
            None => {},
        }
    }
}

/// `s` without its leading dots.
fn skip_dots_chars(s: &[char]) -> (r: Vec<char>)
    ensures
        r@ == skip_dots(s@),
{
    let mut i: usize = 0;
    assert(s@.skip(0) == s@);
    while i < s.len() && s[i] == '.'
        invariant
            i <= s@.len(),
            skip_dots(s@) == skip_dots(s@.skip(i as int)),
        decreases s@.len() - i,
    {
        assert(s@.skip(i as int).drop_first() == s@.skip(i + 1));
        i = i + 1;
    }
    let r = vstd::slice::slice_to_vec(vstd::slice::slice_subrange(s, i, s.len()));
    assert(r@ == s@.skip(i as int));
    r
}

/// Reads a dot-notation path into its segments (see `parse_path`).
pub fn parse_path_segments(path: &str) -> (r: Vec<PathSegment>)
    ensures
        seg_views(r@) == parse_path(path@),
{
    let v = chars_of(path);
    let t = trim_chars(v.as_slice());
    let t2 = if t.len() > 0 && t[0] == '$' {
        vstd::slice::slice_to_vec(vstd::slice::slice_subrange(t.as_slice(), 1, t.len()))
    } else {
        t
    };
    let b = skip_dots_chars(t2.as_slice());
    assert(b@ == path_body(path@));
    let mut segs: Vec<PathSegment> = Vec::new();
    if b.len() == 0 {
        assert(seg_views(segs@) =~= Seq::<SegView>::empty());
        return segs;
    }
    let mut mode = PathMode::Normal;
    let mut seg: Vec<char> = Vec::new();
    let mut idx: Vec<char> = Vec::new();
    let n = b.len();
    let mut i: usize = 0;
    assert(b@.take(0) =~= Seq::<char>::empty());
    assert(seg_views(segs@) =~= Seq::<SegView>::empty());
    while i < n
        invariant
            n == b@.len(),
            i <= n,
            b@.take(i as int).fold_left(path_start(), path_f()) == (PathState {
                mode: mode,
                seg: seg@,
                idx: idx@,
                segs: seg_views(segs@),
            }),
        decreases n - i,
    {
        let c = b[i];
        proof {
            assert(b@.take(i + 1).drop_last() == b@.take(i as int));
            assert(b@.take(i + 1).last() == c);
        }
        let key_mode = match mode {
            PathMode::Normal => true,
            PathMode::Bracket => false,
            PathMode::AfterBracket => c != '.',
        };
        if key_mode {
            if c == '.' {
                push_key(&mut segs, &seg);
                seg = Vec::new();
                mode = PathMode::Normal;
            } else if c == '[' {
                push_key(&mut segs, &seg);
                seg = Vec::new();
                idx = Vec::new();
                mode = PathMode::Bracket;
            } else {
                seg.push(c);
                mode = PathMode::Normal;
            }
        } else if mode == PathMode::Bracket {
            if c == ']' {
                push_bracket(&mut segs, &idx);
                idx = Vec::new();
                mode = PathMode::AfterBracket;
            } else {
                idx.push(c);
            }
        } else {
            mode = PathMode::Normal;
        }
        i = i + 1;
    }
    assert(b@.take(n as int) == b@);
    if mode == PathMode::Bracket {
        push_bracket(&mut segs, &idx);
    }
    push_key(&mut segs, &seg);
    segs
}

// ── Filtering ───────────────────────────────────────────────────────────────

/// The value under the first entry with key `k`.
pub open spec fn find_entry(es: Seq<(Seq<char>, Json)>, k: Seq<char>) -> Option<Json>
    decreases es.len(),
{
    if es.len() == 0 {
        None
    } else if es[0].0 == k {
        Some(es[0].1)
    } else {
        find_entry(es.drop_first(), k)
    }
}

/// The value a filter step steps into: an object's entry by key, or an
/// array's element by index.
pub open spec fn child(v: Json, s: SegView) -> Option<Json> {
    match s {
        SegView::Key(k) => match v {
            Json::Object(es) => find_entry(es, k),
            _ => None,
        },
        SegView::Index(i) => match v {
            Json::Array(a) => if i < a.len() {
                Some(a[i as int])
            } else {
                None
            },
            _ => None,
        },
        SegView::Wildcard => None,
    }
}

/// `v` filtered by the segments: a key keeps only that entry (as a
/// one-entry object), an index only that element (as a one-element array),
/// and the wildcard maps the rest of the path over all elements of an
/// array, keeping those that match; none when nothing matches.
pub open spec fn filter_json(v: Json, segs: Seq<SegView>) -> Option<Json>
    decreases 2 * segs.len() + 1, 0nat,
{
    if segs.len() == 0 {
        Some(v)
    } else {
        let rest = segs.drop_first();
        match segs[0] {
            SegView::Wildcard => match v {
                Json::Array(a) => {
                    let rs = filter_each(a, rest);
                    if rs.len() == 0 {
                        None
                    } else {
                        Some(Json::Array(rs))
                    }
                },
                _ => None,
            },
            SegView::Key(k) => match child(v, segs[0]) {
                Some(c) => match filter_json(c, rest) {
                    Some(f) => Some(Json::Object(seq![(k, f)])),
                    None => None,
                },
                None => None,
            },
            SegView::Index(_) => match child(v, segs[0]) {
                Some(c) => match filter_json(c, rest) {
                    Some(f) => Some(Json::Array(seq![f])),
                    None => None,
                },
                None => None,
            },
        }
    }
}

/// The elements of `a` that the segments match, each filtered.
pub open spec fn filter_each(a: Seq<Json>, segs: Seq<SegView>) -> Seq<Json>
    decreases 2 * segs.len() + 2, a.len(),
{
    if a.len() == 0 {
        Seq::empty()
    } else {
        let p = filter_each(a.drop_last(), segs);
        match filter_json(a.last(), segs) {
            Some(f) => p.push(f),
            None => p,
        }
    }
}

proof fn lemma_models_index(vs: Seq<JsonValue>, i: int)
    requires
        0 <= i < vs.len(),
    ensures
        json_models(vs).len() == vs.len(),
        json_models(vs)[i] == json_model(vs[i]),
    decreases vs.len(),
{
    if i < vs.len() - 1 {
        lemma_models_index(vs.drop_last(), i);
    } else {
        lemma_models_len(vs.drop_last());
    }
}

proof fn lemma_models_len(vs: Seq<JsonValue>)
    ensures
        json_models(vs).len() == vs.len(),
    decreases vs.len(),
{
    if vs.len() > 0 {
        lemma_models_len(vs.drop_last());
    }
}

fn find_key<'a>(es: &'a Vec<(String, JsonValue)>, k: &String) -> (r: Option<&'a JsonValue>)
    ensures
        match r {
            Some(v) => find_entry(entry_models(es@), k@) == Some(json_model(*v)),
            None => find_entry(entry_models(es@), k@) is None,
        },
{
    let mut i: usize = 0;
    assert(es@.skip(0) == es@);
    while i < es.len()
        invariant
            i <= es@.len(),
            find_entry(entry_models(es@), k@) == find_entry(entry_models(es@.skip(i as int)), k@),
        decreases es@.len() - i,
    {
        let ghost x = (es@[i as int].0@, json_model(es@[i as int].1));
        let ghost rest = entry_models(es@.skip(i + 1));
        proof {
            lemma_entry_models_front(es@.skip(i as int));
            assert(es@.skip(i as int).drop_first() == es@.skip(i + 1));
            assert(es@.skip(i as int)[0] == es@[i as int]);
            assert(entry_models(es@.skip(i as int)) == seq![x] + rest);
            assert((seq![x] + rest)[0] == x);
            assert((seq![x] + rest).drop_first() == rest);
        }
        if es[i].0 == *k {
            return Some(&es[i].1);
        }
        i = i + 1;
    }
    proof {
        lemma_entry_models_front(es@.skip(i as int));
    }
    None
}

proof fn lemma_entry_models_front(es: Seq<(String, JsonValue)>)
    ensures
        es.len() > 0 ==> entry_models(es) == seq![(es[0].0@, json_model(es[0].1))] + entry_models(
            es.drop_first(),
        ),
        es.len() == 0 ==> entry_models(es) == Seq::<(Seq<char>, Json)>::empty(),
    decreases es.len(),
{
    if es.len() > 1 {
        let p = es.drop_last();
        lemma_entry_models_front(p);
        assert(p.drop_first() == es.drop_first().drop_last());
        assert(es.drop_first().last() == es.last());
        assert(p[0] == es[0]);
    } else if es.len() == 1 {
        assert(es.drop_last() =~= Seq::<(String, JsonValue)>::empty());
        assert(es.drop_first() =~= Seq::<(String, JsonValue)>::empty());
        assert(es.last() == es[0]);
    }
}

/// `value` filtered by `segments` (see `filter_json`).
pub fn filter_recursive(value: &JsonValue, segments: &[PathSegment]) -> (r: Option<JsonValue>)
    ensures
        match r {
            Some(f) => filter_json(json_model(*value), seg_views(segments@)) == Some(json_model(f)),
            None => filter_json(json_model(*value), seg_views(segments@)) is None,
        },
    decreases segments@.len(), 1nat,
{
    let ghost sv = seg_views(segments@);
    if segments.len() == 0 {
        return Some(copy_json(value));
    }
    let rest = vstd::slice::slice_subrange(segments, 1, segments.len());
    assert(seg_views(rest@) =~= sv.drop_first());
    match &segments[0] {
        PathSegment::Key(k) => {
            let c = match value {
                JsonValue::Object(es) => find_key(es, k),
                _ => None,
            };
            match c {
                Some(cv) => {
                    match filter_recursive(cv, rest) {
                        Some(f) => {
                            let mut es: Vec<(String, JsonValue)> = Vec::new();
                            es.push((k.clone(), f));
                            proof {
                                assert(es@.drop_last() =~= Seq::<(String, JsonValue)>::empty());
                                assert(entry_models(Seq::<(String, JsonValue)>::empty()) == Seq::<
                                    (Seq<char>, Json),
                                >::empty());
                                assert(es@.last() == es@[0]);
                                assert(entry_models(es@) =~= seq![(k@, json_model(f))]);
                            }
                            Some(JsonValue::Object(es))
                        },
                        None => None,
                    }
                },
                None => None,
            }
        },
        PathSegment::Index(i) => {
            let c = match value {
                JsonValue::Array(a) => {
                    if *i < a.len() {
                        proof {
                            lemma_models_index(a@, *i as int);
                        }
                        Some(&a[*i])
                    } else {
                        proof {
                            lemma_models_len(a@);
                        }
                        None
                    }
                },
                _ => None,
            };
            match c {
                Some(cv) => {
                    match filter_recursive(cv, rest) {
                        Some(f) => {
                            let mut a: Vec<JsonValue> = Vec::new();
                            a.push(f);
                            proof {
                                assert(a@.drop_last() =~= Seq::<JsonValue>::empty());
                                assert(json_models(Seq::<JsonValue>::empty()) == Seq::<Json>::empty());
                                assert(a@.last() == a@[0]);
                                assert(json_models(a@) =~= seq![json_model(f)]);
                            }
                            Some(JsonValue::Array(a))
                        },
                        None => None,
                    }
                },
                None => None,
            }
        },
        PathSegment::Wildcard => {
            match value {
                JsonValue::Array(a) => {
                    let mut out: Vec<JsonValue> = Vec::new();
                    let mut j: usize = 0;
                    assert(a@.take(0) =~= Seq::<JsonValue>::empty());
                    while j < a.len()
                        invariant
                            j <= a@.len(),
                            sv == seg_views(segments@),
                            seg_views(rest@) == sv.drop_first(),
                            rest@.len() < segments@.len(),
                            json_models(out@) == filter_each(
                                json_models(a@.take(j as int)),
                                sv.drop_first(),
                            ),
                        decreases a@.len() - j,
                    {
                        let ghost before = out@;
                        let ghost xs = json_models(a@.take(j as int));
                        let ghost y = json_model(a@[j as int]);
                        proof {
                            assert(a@.take(j + 1).drop_last() == a@.take(j as int));
                            assert(a@.take(j + 1).last() == a@[j as int]);
                            assert(json_models(a@.take(j + 1)) == xs.push(y));
                            assert(xs.push(y).drop_last() == xs);
                            assert(xs.push(y).last() == y);
                        }
                        match filter_recursive(&a[j], rest) {
                            Some(f) => {
                                out.push(f);
                                assert(out@.drop_last() == before);
                                assert(out@.last() == f);
                            },
                            None => {},
                        }
                        j = j + 1;
                    }
                    assert(a@.take(a@.len() as int) == a@);
                    if out.len() == 0 {
                        proof {
                            lemma_models_len(out@);
                        }
                        None
                    } else {
                        proof {
                            lemma_models_len(out@);
                        }
                        Some(JsonValue::Array(out))
                    }
                },
                _ => None,
            }
        },
    }
}

/// Applies a dot-notation path to a JSON value, keeping the full key
/// hierarchy around the matched value(s); `[*]` maps over all elements of
/// an array. None when the path matches nothing. An empty path (after
/// trimming, a leading `$` and dots) gives the whole value.
pub open spec fn json_filter(root: Json, path: Seq<char>) -> Option<Json> {
    let segs = parse_path(path);
    if segs.len() == 0 {
        Some(root)
    } else {
        filter_json(root, segs)
    }
}

/// Applies a dot-notation path to a JSON value (see `json_filter`).
pub fn apply_json_path(root: &JsonValue, path: &str) -> (r: Option<JsonValue>)
    ensures
        match r {
            Some(f) => json_filter(json_model(*root), path@) == Some(json_model(f)),
            None => json_filter(json_model(*root), path@) is None,
        },
{
    let segments = parse_path_segments(path);
    if segments.len() == 0 {
        Some(copy_json(root))
    } else {
        filter_recursive(root, segments.as_slice())
    }
}

/// A key step keeps an object's entry whatever its value, `null` included:
/// filtering an object that holds key `k` (its first entry with that key
/// holding `c`) by the path `k` and then `rest` matches exactly when `rest`
/// matches in `c`, and gives the one-entry object of `k` and that match.
/// So the one-key path `k` always gives `{k: c}`.
pub proof fn lemma_key_step(es: Seq<(Seq<char>, Json)>, k: Seq<char>, c: Json, rest: Seq<SegView>)
    requires
        find_entry(es, k) == Some(c),
    ensures
        filter_json(Json::Object(es), seq![SegView::Key(k)] + rest) == match filter_json(c, rest) {
            Some(f) => Some(Json::Object(seq![(k, f)])),
            None => None::<Json>,
        },
        filter_json(Json::Object(es), seq![SegView::Key(k)]) == Some(Json::Object(seq![(k, c)])),
{
    let segs = seq![SegView::Key(k)] + rest;
    assert(segs[0] == SegView::Key(k));
    assert(segs.drop_first() =~= rest);
    let one = seq![SegView::Key(k)];
    assert(one[0] == SegView::Key(k));
    assert(one.drop_first() =~= Seq::<SegView>::empty());
    assert(filter_json(c, Seq::<SegView>::empty()) == Some(c));
    assert(filter_json(Json::Object(es), one) == Some(Json::Object(seq![(k, c)])));
}

/// Filtering a value that is not an object by a key path, or an object
/// without the key, matches nothing.
pub proof fn lemma_key_missing(v: Json, k: Seq<char>, rest: Seq<SegView>)
    requires
        !(v matches Json::Object(es) && find_entry(es, k) is Some),
    ensures
        filter_json(v, seq![SegView::Key(k)] + rest) is None,
{
    let segs = seq![SegView::Key(k)] + rest;
    assert(segs[0] == SegView::Key(k));
}

// ── JSON text ───────────────────────────────────────────────────────────────

/// `serde_json::Value`, which the parsing and printing below go through.
#[verifier::external_type_specification]
#[verifier::external_body]
pub struct ExSerdeValue(serde_json::Value);

/// The value that `serde_json::from_str::<Value>` reads from a text (its
/// objects with keys sorted, each key once), or none when the text is not
/// one JSON value.
pub uninterp spec fn parsed_json(text: Seq<char>) -> Option<Json>;

/// The text that `serde_json::to_string_pretty` writes for a value, or none
/// where the value cannot be written (a number whose text is no JSON
/// number).
pub uninterp spec fn printed_json(v: Json) -> Option<Seq<char>>;

pub open spec fn opt_view(r: Option<String>) -> Option<Seq<char>> {
    match r {
        Some(s) => Some(s@),
        None => None,
    }
}

pub open spec fn opt_model(r: Option<JsonValue>) -> Option<Json> {
    match r {
        Some(v) => Some(json_model(v)),
        None => None,
    }
}

/// A text parsed as JSON and written back pretty-printed; none when it is
/// not JSON.
pub open spec fn pretty_text(text: Seq<char>) -> Option<Seq<char>> {
    match parsed_json(text) {
        Some(v) => printed_json(v),
        None => None,
    }
}

/// A `serde_json::Value` as a `JsonValue`, variant for variant, a number
/// by its text. Only `serde_parse` uses it.
#[verifier::external_body]
fn value_of(v: &serde_json::Value) -> JsonValue {
    match v {
        serde_json::Value::Null => JsonValue::Null,
        serde_json::Value::Bool(b) => JsonValue::Bool(*b),
        serde_json::Value::Number(n) => JsonValue::Number(n.to_string()),
        serde_json::Value::String(s) => JsonValue::Str(s.clone()),
        serde_json::Value::Array(a) => JsonValue::Array(a.iter().map(value_of).collect()),
        serde_json::Value::Object(o) => JsonValue::Object(
            o.iter().map(|(k, x)| (k.clone(), value_of(x))).collect(),
        ),
    }
}

/// A `JsonValue` as a `serde_json::Value`, variant for variant, a number
/// read from its text with `Number::from_str`; none where that fails. Only
/// `serde_print` uses it.
#[verifier::external_body]
fn value_from(v: &JsonValue) -> Option<serde_json::Value> {
    match v {
        JsonValue::Null => Some(serde_json::Value::Null),
        JsonValue::Bool(b) => Some(serde_json::Value::Bool(*b)),
        JsonValue::Number(n) => n.parse().ok().map(serde_json::Value::Number),
        JsonValue::Str(s) => Some(serde_json::Value::String(s.clone())),
        JsonValue::Array(a) => a.iter().map(value_from).collect::<Option<_>>().map(serde_json::Value::Array),
        JsonValue::Object(o) => o.iter().map(|(k, x)| value_from(x).map(|y| (k.clone(), y))).collect::<
            Option<_>,
        >().map(serde_json::Value::Object),
    }
}

/// `serde_json::from_str::<Value>`: the value a text holds (see
/// `parsed_json`), or none when it is not one JSON value.
#[verifier::external_body]
pub(crate) fn serde_parse(text: &str) -> (r: Option<JsonValue>)
    ensures
        opt_model(r) == parsed_json(text@),
{
    match serde_json::from_str::<serde_json::Value>(text) {
        Ok(v) => Some(value_of(&v)),
        Err(_) => None,
    }
}

/// `serde_json::to_string_pretty`: a value written as indented JSON text
/// (see `printed_json`).
#[verifier::external_body]
pub(crate) fn serde_print(v: &JsonValue) -> (r: Option<String>)
    ensures
        opt_view(r) == printed_json(json_model(*v)),
{
    match value_from(v) {
        Some(x) => serde_json::to_string_pretty(&x).ok(),
        None => None,
    }
}

/// Apply a dot-notation JSON path to a JSON string, preserving the full key
/// hierarchy around the matched value(s), and write the result
/// pretty-printed. Supports `[*]` wildcard to map over all array elements.
/// Returns `None` if the body is not valid JSON or the path does not match
/// anything.
///
/// Examples: `data.user.id`, `data[*].id`, `results[0].name`,
/// `$.items[*].tags[0]`
pub fn apply_json_filter(json_str: &str, path: &str) -> (r: Option<String>)
    ensures
        match parsed_json(trim(json_str@)) {
            None => r is None,
            Some(root) => match json_filter(root, path@) {
                None => r is None,
                Some(f) => opt_view(r) == printed_json(f),
            },
        },
{
    let t = trim_str(json_str);
    match serde_parse(t.as_str()) {
        None => None,
        Some(root) => match apply_json_path(&root, path) {
            None => None,
            Some(f) => serde_print(&f),
        },
    }
}

// ── Laws ────────────────────────────────────────────────────────────────────

/// No segment is an index other than 0: every step that a filter takes stays
/// where the filtered value puts the match.
pub open spec fn stays_in_place(segs: Seq<SegView>) -> bool {
    forall|i: int| 0 <= i < segs.len() ==> (#[trigger] segs[i] matches SegView::Index(n) ==> n == 0)
}

proof fn lemma_rest_in_place(segs: Seq<SegView>)
    requires
        segs.len() > 0,
        stays_in_place(segs),
    ensures
        stays_in_place(segs.drop_first()),
{
    assert forall|i: int| 0 <= i < segs.drop_first().len() implies (
    #[trigger] segs.drop_first()[i] matches SegView::Index(n) ==> n == 0) by {
        assert(segs.drop_first()[i] == segs[i + 1]);
    }
}

proof fn lemma_filter_again(v: Json, segs: Seq<SegView>)
    requires
        stays_in_place(segs),
        filter_json(v, segs) is Some,
    ensures
        filter_json(filter_json(v, segs)->0, segs) == filter_json(v, segs),
    decreases 2 * segs.len() + 1, 0nat,
{
    if segs.len() > 0 {
        let rest = segs.drop_first();
        lemma_rest_in_place(segs);
        match segs[0] {
            SegView::Wildcard => {
                if let Json::Array(a) = v {
                    lemma_each_again(a, rest);
                }
            },
            SegView::Key(k) => {
                let c = child(v, segs[0])->0;
                lemma_filter_again(c, rest);
                let f = filter_json(c, rest)->0;
                let es = seq![(k, f)];
                assert(find_entry(es, k) == Some(f));
            },
            SegView::Index(n) => {
                assert(segs[0] matches SegView::Index(m) ==> m == 0);
                let c = child(v, segs[0])->0;
                lemma_filter_again(c, rest);
            },
        }
    }
}

proof fn lemma_each_again(a: Seq<Json>, segs: Seq<SegView>)
    requires
        stays_in_place(segs),
    ensures
        filter_each(filter_each(a, segs), segs) == filter_each(a, segs),
    decreases 2 * segs.len() + 2, a.len(),
{
    if a.len() > 0 {
        let p = filter_each(a.drop_last(), segs);
        lemma_each_again(a.drop_last(), segs);
        match filter_json(a.last(), segs) {
            Some(f) => {
                lemma_filter_again(a.last(), segs);
                assert(p.push(f).drop_last() == p);
                assert(p.push(f).last() == f);
            },
            None => {},
        }
    }
}

/// Filtering a filtered value again by the same path gives it back
/// unchanged, where the path holds no array index but 0: the filter keeps
/// the matched values at the places the path names.
pub proof fn lemma_json_filter_stable(root: Json, path: Seq<char>)
    requires
        stays_in_place(parse_path(path)),
        json_filter(root, path) is Some,
    ensures
        json_filter(json_filter(root, path)->0, path) == json_filter(root, path),
{
    if parse_path(path).len() > 0 {
        lemma_filter_again(root, parse_path(path));
    }
}

} // verus!

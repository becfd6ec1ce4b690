//! What reading a written curl command gives back.
use vstd::prelude::*;

use crate::http::{
    body_part, curl_command, curl_parts, escape_quotes, head_part, header_lines, header_part,
    method_name, method_named, non_empty_lines, opts_start, parse_opts, quote_escaped,
    request_of_curl, tok_f, tok_run, tok_start, tok_step, tokenize, url_part, CurlOpts, Method,
    RequestView, TokMode, TokState, flush, curl_line,
};
use crate::text::{
    contains, is_ws, join, line_cut, line_f, line_step, lines, occurs_at, replace_all, trim,
    trim_end, trim_start, trimmed_lines, LineCut,
};

verus! {

// ── Folds over concatenations ───────────────────────────────────────────────

pub proof fn lemma_fold_concat<B>(a: Seq<char>, b: Seq<char>, st: B, f: spec_fn(B, char) -> B)
    ensures
        (a + b).fold_left(st, f) == b.fold_left(a.fold_left(st, f), f),
{
    let ab = a + b;
    ab.lemma_fold_left_split(st, f, a.len() as int);
    assert(ab.subrange(0, a.len() as int) == a);
    assert(ab.subrange(a.len() as int, ab.len() as int) == b);
}

// ── Lines ───────────────────────────────────────────────────────────────────

pub open spec fn no_nl(s: Seq<char>) -> bool {
    forall|i: int| 0 <= i < s.len() ==> s[i] != '\n'
}

proof fn lemma_line_run_plain(st: LineCut, x: Seq<char>)
    requires
        no_nl(x),
    ensures
        x.fold_left(st, line_f()) == (LineCut { done: st.done, cur: st.cur + x }),
    decreases x.len(),
{
    if x.len() == 0 {
        assert(st.cur + x == st.cur);
    } else {
        let y = x.drop_last();
        lemma_line_run_plain(st, y);
        assert(x.last() == x[x.len() - 1]);
        assert(st.cur + y.push(x.last()) == st.cur + x);
    }
}

proof fn lemma_line_cut_join(ps: Seq<Seq<char>>, t: Seq<char>)
    requires
        ps.len() >= 1,
        forall|k: int| 0 <= k < ps.len() ==> no_nl(#[trigger] ps[k]),
        no_nl(t),
    ensures
        line_cut(join(ps, t.push('\n'))) == (LineCut {
            done: ps.drop_last().map_values(|p: Seq<char>| p + t),
            cur: ps.last(),
        }),
    decreases ps.len(),
{
    let start = LineCut { done: Seq::empty(), cur: Seq::empty() };
    if ps.len() == 1 {
        assert(no_nl(ps[0]));
        lemma_line_run_plain(start, ps[0]);
        assert(ps.drop_last().map_values(|p: Seq<char>| p + t) =~= Seq::<Seq<char>>::empty());
        assert(Seq::<char>::empty() + ps[0] == ps[0]);
    } else {
        let q = ps.drop_last();
        assert forall|k: int| 0 <= k < q.len() implies no_nl(#[trigger] q[k]) by {
            assert(q[k] == ps[k]);
        }
        lemma_line_cut_join(q, t);
        let a = join(q, t.push('\n'));
        let st1 = line_cut(a);
        assert(no_nl(ps.last()));
        // a + sep + last
        lemma_fold_concat(a + t.push('\n'), ps.last(), start, line_f());
        lemma_fold_concat(a, t.push('\n'), start, line_f());
        lemma_fold_concat(t, seq!['\n'], st1, line_f());
        assert(t.push('\n') == t + seq!['\n']);
        lemma_line_run_plain(st1, t);
        let st2 = LineCut { done: st1.done, cur: st1.cur + t };
        assert(seq!['\n'].drop_last() =~= Seq::<char>::empty());
        assert(Seq::<char>::empty().fold_left(st2, line_f()) == st2);
        assert(seq!['\n'].fold_left(st2, line_f()) == line_step(st2, '\n'));
        let st3 = line_step(st2, '\n');
        lemma_line_run_plain(st3, ps.last());
        assert(st3.cur + ps.last() == ps.last());
        assert(st3.done =~= ps.drop_last().map_values(|p: Seq<char>| p + t));
    }
}

proof fn lemma_lines_join(ps: Seq<Seq<char>>, t: Seq<char>)
    requires
        ps.len() >= 1,
        forall|k: int| 0 <= k < ps.len() ==> no_nl(#[trigger] ps[k]),
        no_nl(t),
        ps.last().len() > 0,
    ensures
        lines(join(ps, t.push('\n'))) == ps.drop_last().map_values(|p: Seq<char>| p + t).push(
            ps.last(),
        ),
{
    lemma_line_cut_join(ps, t);
    let s = join(ps, t.push('\n'));
    if ps.len() == 1 {
        assert(s == ps[0]);
    } else {
        assert(s == join(ps.drop_last(), t.push('\n')) + t.push('\n') + ps.last());
    }
    assert(s.len() > 0);
    assert(s.last() == ps.last().last());
    assert(no_nl(ps.last()));
    assert(ps.last().last() == ps.last()[ps.last().len() - 1]);
}

// ── Trimming ────────────────────────────────────────────────────────────────

proof fn lemma_trim_clean(x: Seq<char>)
    requires
        x.len() > 0,
        !is_ws(x[0]),
        !is_ws(x.last()),
    ensures
        trim(x) == x,
{
    assert(trim_start(x) == x);
}

proof fn lemma_trim_indented(x: Seq<char>)
    requires
        x.len() > 0,
        !is_ws(x[0]),
        !is_ws(x.last()),
    ensures
        trim(seq![' ', ' '] + x) == x,
{
    let y = seq![' ', ' '] + x;
    let z = seq![' '] + x;
    assert(y[0] == ' ');
    assert(y.drop_first() == z);
    assert(z[0] == ' ');
    assert(z.drop_first() == x);
    assert(trim_start(z) == trim_start(x));
    assert(trim_start(y) == trim_start(z));
    assert(trim_start(x) == x);
}

// ── Joining ─────────────────────────────────────────────────────────────────

proof fn lemma_join_suffixed(ps: Seq<Seq<char>>, t: Seq<char>, s: Seq<char>)
    requires
        ps.len() >= 1,
    ensures
        join(ps.drop_last().map_values(|p: Seq<char>| p + t).push(ps.last()), s) == join(
            ps,
            t + s,
        ),
    decreases ps.len(),
{
    let m = ps.drop_last().map_values(|p: Seq<char>| p + t).push(ps.last());
    if ps.len() == 1 {
        assert(m.len() == 1);
    } else {
        let q = ps.drop_last();
        lemma_join_suffixed(q, t, s);
        let mq = q.drop_last().map_values(|p: Seq<char>| p + t).push(q.last());
        assert(m.drop_last().drop_last() =~= q.drop_last().map_values(|p: Seq<char>| p + t));
        assert(m.drop_last().last() == q.last() + t);
        if q.len() == 1 {
            assert(join(m.drop_last(), s) == q.last() + t);
            assert(join(q, t + s) == q[0]);
        } else {
            assert(m.drop_last().drop_last() == mq.drop_last());
            assert(join(m.drop_last(), s) == join(mq.drop_last(), s) + s + (q.last() + t));
            assert(join(mq, s) == join(mq.drop_last(), s) + s + q.last());
        }
        assert(join(m, s) == join(m.drop_last(), s) + s + ps.last());
        assert(join(ps, t + s) == join(q, t + s) + (t + s) + ps.last());
    }
}

/// Joining, read from the front.
proof fn lemma_join_front(ps: Seq<Seq<char>>, s: Seq<char>)
    requires
        ps.len() >= 2,
    ensures
        join(ps, s) == ps[0] + s + join(ps.drop_first(), s),
    decreases ps.len(),
{
    let r = ps.drop_first();
    if ps.len() == 2 {
        assert(r.len() == 1);
        assert(ps.drop_last().len() == 1);
        assert(join(ps.drop_last(), s) == ps[0]);
        assert(join(r, s) == ps[1]);
    } else {
        let q = ps.drop_last();
        lemma_join_front(q, s);
        assert(q.drop_first() == r.drop_last());
        assert(r.last() == ps.last());
        assert(q[0] == ps[0]);
        assert(join(r, s) == join(r.drop_last(), s) + s + r.last());
        assert(join(ps, s) == join(q, s) + s + ps.last());
        assert(join(ps, s) == ps[0] + s + join(q.drop_first(), s) + s + ps.last());
    }
}

// ── Replacing line continuations ────────────────────────────────────────────

/// A line continuation as it reads once the lines are joined.
pub open spec fn cont() -> Seq<char> {
    seq![' ', '\\', ' ']
}

proof fn lemma_occurs_cont(s: Seq<char>, i: int)
    ensures
        occurs_at(s, cont(), i) <==> (0 <= i && i + 3 <= s.len() && s[i] == ' ' && s[i + 1]
            == '\\' && s[i + 2] == ' '),
{
    if 0 <= i && i + 3 <= s.len() {
        let w = s.subrange(i, i + 3);
        if w == cont() {
            assert(w[0] == s[i] && w[1] == s[i + 1] && w[2] == s[i + 2]);
        }
        if s[i] == ' ' && s[i + 1] == '\\' && s[i + 2] == ' ' {
            assert(w =~= cont());
        }
    }
}

proof fn lemma_replace_prefix(a: Seq<char>, x: Seq<char>, pat: Seq<char>, rep: Seq<char>)
    requires
        pat.len() > 0,
        forall|i: int| 0 <= i < a.len() ==> !occurs_at(a + x, pat, i),
    ensures
        replace_all(a + x, pat, rep) == a + replace_all(x, pat, rep),
    decreases a.len(),
{
    if a.len() == 0 {
        assert(a + x == x);
    } else {
        let ax = a + x;
        assert(!occurs_at(ax, pat, 0));
        let b = a.drop_first();
        assert(ax.skip(1) == b + x);
        assert forall|i: int| 0 <= i < b.len() implies !occurs_at(b + x, pat, i) by {
            assert(!occurs_at(ax, pat, i + 1));
            if occurs_at(b + x, pat, i) {
                assert((b + x).subrange(i, i + pat.len()) == ax.subrange(i + 1, i + 1 + pat.len()));
            }
        }
        lemma_replace_prefix(b, x, pat, rep);
        assert(seq![a[0]] + (b + replace_all(x, pat, rep)) == a + replace_all(x, pat, rep));
    }
}

/// Every piece is free of line continuations and does not end in a backslash.
pub open spec fn clean_pieces(qs: Seq<Seq<char>>) -> bool {
    forall|k: int|
        0 <= k < qs.len() ==> !contains(#[trigger] qs[k], cont()) && qs[k].len() > 0
            && qs[k].last() != '\\'
}

proof fn lemma_replace_join(qs: Seq<Seq<char>>)
    requires
        qs.len() >= 1,
        clean_pieces(qs),
    ensures
        replace_all(join(qs, cont()), cont(), seq![' ']) == join(qs, seq![' ']),
    decreases qs.len(),
{
    let q0 = qs[0];
    assert(!contains(q0, cont()) && q0.len() > 0 && q0.last() != '\\');
    if qs.len() == 1 {
        assert forall|i: int| 0 <= i < q0.len() implies !occurs_at(q0 + Seq::empty(), cont(), i) by {
            assert(q0 + Seq::<char>::empty() == q0);
        }
        lemma_replace_prefix(q0, Seq::empty(), cont(), seq![' ']);
        assert(q0 + Seq::<char>::empty() == q0);
    } else {
        let rest = qs.drop_first();
        assert forall|k: int| 0 <= k < rest.len() implies !contains(#[trigger] rest[k], cont())
            && rest[k].len() > 0 && rest[k].last() != '\\' by {
            assert(rest[k] == qs[k + 1]);
        }
        lemma_replace_join(rest);
        lemma_join_front(qs, cont());
        lemma_join_front(qs, seq![' ']);
        let j = join(rest, cont());
        let x = cont() + j;
        assert(q0 + cont() + j == q0 + x);
        assert forall|i: int| 0 <= i < q0.len() implies !occurs_at(q0 + x, cont(), i) by {
            let s = q0 + x;
            lemma_occurs_cont(s, i);
            if i + 3 <= q0.len() {
                lemma_occurs_cont(q0, i);
                assert(s[i] == q0[i] && s[i + 1] == q0[i + 1] && s[i + 2] == q0[i + 2]);
            } else if i + 2 == q0.len() {
                assert(s[i + 1] == q0.last());
            } else {
                assert(s[i + 1] == ' ');
            }
        }
        lemma_replace_prefix(q0, x, cont(), seq![' ']);
        assert(occurs_at(x, cont(), 0)) by {
            lemma_occurs_cont(x, 0);
        }
        assert(x.skip(3) == j);
        assert(replace_all(x, cont(), seq![' ']) == seq![' '] + replace_all(j, cont(), seq![' ']));
    }
}

// ── Escaped quotes ──────────────────────────────────────────────────────────

proof fn lemma_escape_concat(a: Seq<char>, b: Seq<char>)
    ensures
        escape_quotes(a + b) == escape_quotes(a) + escape_quotes(b),
    decreases b.len(),
{
    if b.len() == 0 {
        assert(a + b == a);
        assert(escape_quotes(a) + escape_quotes(b) == escape_quotes(a));
    } else {
        lemma_escape_concat(a, b.drop_last());
        assert((a + b).drop_last() == a + b.drop_last());
        assert((a + b).last() == b.last());
    }
}

proof fn lemma_escape_one(c: char)
    ensures
        escape_quotes(seq![c]) == quote_escaped(c),
{
    assert(seq![c].drop_last() =~= Seq::<char>::empty());
    assert(seq![c].last() == c);
    assert(escape_quotes(Seq::<char>::empty()) == Seq::<char>::empty());
    assert(Seq::<char>::empty() + quote_escaped(c) == quote_escaped(c));
}

proof fn lemma_escape_front(v: Seq<char>)
    requires
        v.len() > 0,
    ensures
        escape_quotes(v) == quote_escaped(v[0]) + escape_quotes(v.drop_first()),
{
    assert(v == seq![v[0]] + v.drop_first());
    lemma_escape_concat(seq![v[0]], v.drop_first());
    lemma_escape_one(v[0]);
}

proof fn lemma_escape_no_nl(v: Seq<char>)
    requires
        no_nl(v),
    ensures
        no_nl(escape_quotes(v)),
    decreases v.len(),
{
    if v.len() > 0 {
        let w = v.drop_last();
        assert forall|i: int| 0 <= i < w.len() implies w[i] != '\n' by {
            assert(w[i] == v[i]);
        }
        lemma_escape_no_nl(w);
        assert(v.last() == v[v.len() - 1]);
    }
}

pub open spec fn cont_at(s: Seq<char>, i: int) -> bool {
    0 <= i && i + 3 <= s.len() && s[i] == ' ' && s[i + 1] == '\\' && s[i + 2] == ' '
}

pub open spec fn no_cont(s: Seq<char>) -> bool {
    !contains(s, cont())
}

proof fn lemma_no_cont_intro(s: Seq<char>)
    requires
        forall|i: int| !#[trigger] cont_at(s, i),
    ensures
        no_cont(s),
{
    assert forall|i: int| !occurs_at(s, cont(), i) by {
        lemma_occurs_cont(s, i);
        assert(!cont_at(s, i));
    }
}

proof fn lemma_no_cont_at(s: Seq<char>, i: int)
    requires
        no_cont(s),
    ensures
        !cont_at(s, i),
{
    lemma_occurs_cont(s, i);
    assert(!occurs_at(s, cont(), i));
}

/// A quote cannot lie inside a line continuation.
proof fn lemma_no_cont_quote(u: Seq<char>, v: Seq<char>)
    requires
        no_cont(u),
        no_cont(v),
    ensures
        no_cont(u + seq!['\''] + v),
{
    let s = u + seq!['\''] + v;
    assert forall|i: int| !#[trigger] cont_at(s, i) by {
        if i < 0 || i + 3 > s.len() {
        } else if i + 3 <= u.len() {
            lemma_no_cont_at(u, i);
        } else if i <= u.len() {
            assert(s[u.len() as int] == '\'');
        } else {
            lemma_no_cont_at(v, i - u.len() - 1);
        }
    }
    lemma_no_cont_intro(s);
}

proof fn lemma_no_cont_short(s: Seq<char>)
    requires
        forall|i: int| 0 <= i < s.len() ==> s[i] != '\\',
    ensures
        no_cont(s),
{
    assert forall|i: int| !#[trigger] cont_at(s, i) by {
        if 0 <= i && i + 3 <= s.len() {
            assert(s[i + 1] != '\\');
        }
    }
    lemma_no_cont_intro(s);
}

proof fn lemma_no_cont_tiny(s: Seq<char>)
    requires
        s.len() < 3,
    ensures
        no_cont(s),
{
    lemma_no_cont_intro(s);
}

proof fn lemma_escape_no_cont(v: Seq<char>)
    requires
        no_cont(v),
    ensures
        no_cont(escape_quotes(v)),
    decreases v.len(),
{
    if v.len() == 0 {
        lemma_no_cont_short(escape_quotes(v));
    } else {
        let rest = v.drop_first();
        assert forall|i: int| !#[trigger] cont_at(rest, i) by {
            lemma_no_cont_at(v, i + 1);
        }
        lemma_no_cont_intro(rest);
        lemma_escape_no_cont(rest);
        lemma_escape_front(v);
        let e = escape_quotes(rest);
        let c = v[0];
        if c == '\'' {
            let bs: Seq<char> = seq!['\\'];
            lemma_no_cont_tiny(bs);
            lemma_no_cont_tiny(Seq::empty());
            lemma_no_cont_quote(Seq::empty(), e);
            assert(Seq::<char>::empty() + seq!['\''] + e == seq!['\''] + e);
            lemma_no_cont_quote(bs, seq!['\''] + e);
            let w = bs + seq!['\''] + (seq!['\''] + e);
            lemma_no_cont_quote(Seq::empty(), w);
            assert(escape_quotes(v) == Seq::<char>::empty() + seq!['\''] + w);
        } else {
            let s = seq![c] + e;
            assert(escape_quotes(v) == s);
            assert forall|i: int| !#[trigger] cont_at(s, i) by {
                if i < 0 || i + 3 > s.len() {
                } else if i == 0 {
                    if s[0] == ' ' && s[1] == '\\' && s[2] == ' ' {
                        lemma_escape_front(rest);
                        assert(rest.len() > 0);
                        assert(e[0] == '\\');
                        assert(rest[0] != '\'');
                        assert(e == seq![rest[0]] + escape_quotes(rest.drop_first()));
                        let r2 = rest.drop_first();
                        assert(r2.len() > 0);
                        lemma_escape_front(r2);
                        assert(e[1] == escape_quotes(r2)[0]);
                        if r2[0] == '\'' {
                            assert(escape_quotes(r2)[0] == '\'');
                        } else {
                            assert(escape_quotes(r2)[0] == r2[0]);
                        }
                        lemma_no_cont_at(v, 0);
                        assert(v[1] == rest[0] && v[2] == r2[0]);
                    }
                } else {
                    lemma_no_cont_at(e, i - 1);
                }
            }
            lemma_no_cont_intro(s);
        }
    }
}

// ── Tokenizing ──────────────────────────────────────────────────────────────

/// Characters the tokenizer takes as they are outside quotes.
pub open spec fn plain_char(c: char) -> bool {
    c != ' ' && c != '\t' && c != '\'' && c != '"' && c != '\\'
}

pub open spec fn plain_word(w: Seq<char>) -> bool {
    forall|i: int| 0 <= i < w.len() ==> plain_char(#[trigger] w[i])
}

proof fn lemma_tok_one(st: TokState, c: char)
    ensures
        tok_run(st, seq![c]) == tok_step(st, c),
{
    assert(seq![c].drop_last() =~= Seq::<char>::empty());
    assert(seq![c].last() == c);
    assert(Seq::<char>::empty().fold_left(st, tok_f()) == st);
}

proof fn lemma_tok_concat(st: TokState, a: Seq<char>, b: Seq<char>)
    ensures
        tok_run(st, a + b) == tok_run(tok_run(st, a), b),
{
    lemma_fold_concat(a, b, st, tok_f());
}

proof fn lemma_tok_plain(st: TokState, w: Seq<char>)
    requires
        st.mode == TokMode::Plain,
        plain_word(w),
    ensures
        tok_run(st, w) == (TokState { mode: TokMode::Plain, cur: st.cur + w, toks: st.toks }),
    decreases w.len(),
{
    if w.len() == 0 {
        assert(st.cur + w == st.cur);
    } else {
        let v = w.drop_last();
        assert forall|i: int| 0 <= i < v.len() implies plain_char(#[trigger] v[i]) by {
            assert(v[i] == w[i]);
        }
        lemma_tok_plain(st, v);
        assert(plain_char(w[w.len() - 1]));
        assert(st.cur + v.push(w.last()) == st.cur + w);
    }
}

proof fn lemma_tok_space(st: TokState)
    requires
        st.mode == TokMode::Plain,
    ensures
        tok_run(st, seq![' ']) == (TokState {
            mode: TokMode::Plain,
            cur: Seq::empty(),
            toks: flush(st.toks, st.cur),
        }),
{
    lemma_tok_one(st, ' ');
}

proof fn lemma_tok_escaped(st: TokState, v: Seq<char>)
    requires
        st.mode == TokMode::Single,
    ensures
        tok_run(st, escape_quotes(v)) == (TokState {
            mode: TokMode::Single,
            cur: st.cur + v,
            toks: st.toks,
        }),
    decreases v.len(),
{
    if v.len() == 0 {
        assert(st.cur + v == st.cur);
        assert(escape_quotes(v) == Seq::<char>::empty());
    } else {
        let w = v.drop_last();
        let c = v.last();
        lemma_tok_escaped(st, w);
        let s1 = TokState { mode: TokMode::Single, cur: st.cur + w, toks: st.toks };
        lemma_tok_concat(st, escape_quotes(w), quote_escaped(c));
        if c == '\'' {
            let q = seq!['\''];
            let b = seq!['\\'];
            assert(quote_escaped(c) == q + (b + (q + q)));
            lemma_tok_concat(s1, q, b + (q + q));
            lemma_tok_one(s1, '\'');
            let s2 = tok_step(s1, '\'');
            lemma_tok_concat(s2, b, q + q);
            lemma_tok_one(s2, '\\');
            let s3 = tok_step(s2, '\\');
            lemma_tok_concat(s3, q, q);
            lemma_tok_one(s3, '\'');
            let s4 = tok_step(s3, '\'');
            lemma_tok_one(s4, '\'');
        } else {
            lemma_tok_one(s1, c);
        }
        assert((st.cur + w).push(c) == st.cur + v);
    }
}

/// `v` in single quotes, with no prefix.
pub open spec fn in_quotes(v: Seq<char>) -> Seq<char> {
    seq!['\''] + escape_quotes(v) + seq!['\'']
}

proof fn lemma_tok_quoted(st: TokState, v: Seq<char>)
    requires
        st.mode == TokMode::Plain,
    ensures
        tok_run(st, in_quotes(v)) == (TokState {
            mode: TokMode::Plain,
            cur: st.cur + v,
            toks: st.toks,
        }),
{
    let q = seq!['\''];
    lemma_tok_concat(st, q + escape_quotes(v), q);
    lemma_tok_concat(st, q, escape_quotes(v));
    lemma_tok_one(st, '\'');
    let s1 = tok_step(st, '\'');
    lemma_tok_escaped(s1, v);
    let s2 = TokState { mode: TokMode::Single, cur: st.cur + v, toks: st.toks };
    lemma_tok_one(s2, '\'');
}

/// Any text written in single quotes the way a curl command writes its
/// values (each `'` as `'\''`) reads back as that text, one token, or no
/// token when the text is empty.
pub proof fn lemma_quoted_reads_back(v: Seq<char>)
    ensures
        tokenize(in_quotes(v)) == if v.len() == 0 {
            Seq::<Seq<char>>::empty()
        } else {
            seq![v]
        },
{
    lemma_tok_quoted(tok_start(), v);
    assert(tok_start().cur + v == v);
}

/// An option flag followed by its quoted argument, as a curl line reads
/// once trimmed: `-H '...'`.
pub open spec fn flagged(flag: char, v: Seq<char>) -> Seq<char> {
    seq!['-', flag, ' '] + in_quotes(v)
}

proof fn lemma_tok_flagged(st: TokState, flag: char, v: Seq<char>)
    requires
        st.mode == TokMode::Plain,
        st.cur.len() == 0,
        plain_char(flag),
    ensures
        tok_run(st, flagged(flag, v)) == (TokState {
            mode: TokMode::Plain,
            cur: v,
            toks: st.toks.push(seq!['-', flag]),
        }),
{
    let w = seq!['-', flag];
    assert(seq!['-', flag, ' '] == w + seq![' ']);
    assert(flagged(flag, v) == w + seq![' '] + in_quotes(v));
    lemma_tok_concat(st, w + seq![' '], in_quotes(v));
    lemma_tok_concat(st, w, seq![' ']);
    assert(plain_char(w[0]) && plain_char(w[1]));
    lemma_tok_plain(st, w);
    let s1 = TokState { mode: TokMode::Plain, cur: st.cur + w, toks: st.toks };
    assert(st.cur + w == w);
    lemma_tok_space(s1);
    let s2 = TokState { mode: TokMode::Plain, cur: Seq::empty(), toks: st.toks.push(w) };
    lemma_tok_quoted(s2, v);
    assert(s2.cur + v == v);
}

// ── Methods ─────────────────────────────────────────────────────────────────

proof fn lemma_method_name(m: Method)
    ensures
        method_named(method_name(m)) == Some(m),
        method_name(m).len() > 0,
        plain_word(method_name(m)),
        no_nl(method_name(m)),
        !is_ws(method_name(m).last()),
        method_name(m).last() != '\\',
{
    let n = method_name(m);
    assert(plain_word(n));
    match m {
        Method::Get => {},
        Method::Post => {
            assert(n[0] != method_name(Method::Get)[0]);
        },
        Method::Put => {
            assert(n[1] != method_name(Method::Get)[1]);
        },
        Method::Patch => {},
        Method::Delete => {},
        Method::Head => {
            assert(n[0] != method_name(Method::Post)[0]);
        },
        Method::Options => {},
    }
}

// ── The command as pieces ───────────────────────────────────────────────────

pub open spec fn header_pieces(hs: Seq<Seq<char>>) -> Seq<Seq<char>> {
    hs.map_values(|l: Seq<char>| flagged('H', l))
}

pub open spec fn body_pieces(b: Seq<char>) -> Seq<Seq<char>> {
    if b.len() > 0 {
        seq![flagged('d', b)]
    } else {
        Seq::empty()
    }
}

/// The trimmed lines of the curl command for `r`, without the continuations.
pub open spec fn pieces(r: RequestView) -> Seq<Seq<char>> {
    seq![head_part(r.method)] + header_pieces(header_lines(r.headers)) + body_pieces(r.body)
        + seq![in_quotes(r.url)]
}

pub open spec fn indent(x: Seq<char>) -> Seq<char> {
    seq![' ', ' '] + x
}

pub open spec fn header_tokens(hs: Seq<Seq<char>>) -> Seq<Seq<char>>
    decreases hs.len(),
{
    if hs.len() == 0 {
        Seq::empty()
    } else {
        header_tokens(hs.drop_last()) + seq![seq!['-', 'H'], hs.last()]
    }
}

pub open spec fn head_tokens(m: Method) -> Seq<Seq<char>> {
    seq![seq!['c', 'u', 'r', 'l'], seq!['-', 'X'], method_name(m)]
}

/// The tokens of the curl command for `r`.
pub open spec fn curl_tokens(r: RequestView) -> Seq<Seq<char>> {
    head_tokens(r.method) + header_tokens(header_lines(r.headers)) + (if r.body.len() > 0 {
        seq![seq!['-', 'd'], r.body]
    } else {
        Seq::empty()
    }) + (if r.url.len() > 0 {
        seq![r.url]
    } else {
        Seq::empty()
    })
}

proof fn lemma_tok_head(m: Method)
    ensures
        tok_run(tok_start(), head_part(m)) == (TokState {
            mode: TokMode::Plain,
            cur: method_name(m),
            toks: seq![seq!['c', 'u', 'r', 'l'], seq!['-', 'X']],
        }),
{
    let c = seq!['c', 'u', 'r', 'l'];
    let x = seq!['-', 'X'];
    let sp = seq![' '];
    let n = method_name(m);
    lemma_method_name(m);
    assert(head_part(m) == c + sp + x + sp + n);
    let s0 = tok_start();
    lemma_tok_concat(s0, c + sp + x + sp, n);
    lemma_tok_concat(s0, c + sp + x, sp);
    lemma_tok_concat(s0, c + sp, x);
    lemma_tok_concat(s0, c, sp);
    assert(plain_word(c));
    lemma_tok_plain(s0, c);
    assert(s0.cur + c == c);
    let s1 = TokState { mode: TokMode::Plain, cur: c, toks: Seq::empty() };
    lemma_tok_space(s1);
    let s2 = TokState { mode: TokMode::Plain, cur: Seq::empty(), toks: seq![c] };
    assert(flush(Seq::empty(), c) == seq![c]);
    assert(plain_word(x));
    lemma_tok_plain(s2, x);
    assert(s2.cur + x == x);
    let s3 = TokState { mode: TokMode::Plain, cur: x, toks: seq![c] };
    lemma_tok_space(s3);
    let s4 = TokState { mode: TokMode::Plain, cur: Seq::empty(), toks: seq![c, x] };
    assert(flush(seq![c], x) == seq![c, x]);
    lemma_tok_plain(s4, n);
    assert(s4.cur + n == n);
}

/// After a token `last` that is not empty, a space and a flagged argument.
proof fn lemma_tok_next_flagged(rest: Seq<Seq<char>>, last: Seq<char>, flag: char, v: Seq<char>)
    requires
        last.len() > 0,
        plain_char(flag),
    ensures
        tok_run(
            TokState { mode: TokMode::Plain, cur: last, toks: rest },
            seq![' '] + flagged(flag, v),
        ) == (TokState {
            mode: TokMode::Plain,
            cur: v,
            toks: rest.push(last).push(seq!['-', flag]),
        }),
{
    let st = TokState { mode: TokMode::Plain, cur: last, toks: rest };
    lemma_tok_concat(st, seq![' '], flagged(flag, v));
    lemma_tok_space(st);
    let s1 = TokState { mode: TokMode::Plain, cur: Seq::empty(), toks: rest.push(last) };
    lemma_tok_flagged(s1, flag, v);
}

proof fn lemma_join_push(ps: Seq<Seq<char>>, x: Seq<char>, sep: Seq<char>)
    requires
        ps.len() >= 1,
    ensures
        join(ps.push(x), sep) == join(ps, sep) + sep + x,
{
    assert(ps.push(x).drop_last() == ps);
    assert(ps.push(x).last() == x);
}

pub open spec fn acc_tokens(m: Method, hs: Seq<Seq<char>>, k: int) -> Seq<Seq<char>> {
    head_tokens(m) + header_tokens(hs.take(k))
}

pub open spec fn acc_pieces(m: Method, hs: Seq<Seq<char>>, k: int) -> Seq<Seq<char>> {
    seq![head_part(m)] + header_pieces(hs.take(k))
}

proof fn lemma_acc_zero(m: Method, hs: Seq<Seq<char>>)
    ensures
        acc_tokens(m, hs, 0) == head_tokens(m),
        acc_pieces(m, hs, 0) == seq![head_part(m)],
{
    assert(hs.take(0) =~= Seq::<Seq<char>>::empty());
    assert(header_pieces(hs.take(0)) =~= Seq::<Seq<char>>::empty());
    assert(header_tokens(hs.take(0)) == Seq::<Seq<char>>::empty());
    assert(acc_tokens(m, hs, 0) =~= head_tokens(m));
    assert(acc_pieces(m, hs, 0) =~= seq![head_part(m)]);
}

proof fn lemma_acc_step(m: Method, hs: Seq<Seq<char>>, k: int)
    requires
        1 <= k <= hs.len(),
    ensures
        acc_tokens(m, hs, k) == acc_tokens(m, hs, k - 1) + seq![seq!['-', 'H'], hs[k - 1]],
        acc_pieces(m, hs, k) == acc_pieces(m, hs, k - 1).push(flagged('H', hs[k - 1])),
{
    assert(hs.take(k).drop_last() =~= hs.take(k - 1));
    assert(hs.take(k).last() == hs[k - 1]);
    assert(header_tokens(hs.take(k)) == header_tokens(hs.take(k - 1)) + seq![
        seq!['-', 'H'],
        hs[k - 1],
    ]);
    assert(acc_tokens(m, hs, k) =~= acc_tokens(m, hs, k - 1) + seq![seq!['-', 'H'], hs[k - 1]]);
    assert(header_pieces(hs.take(k)) =~= header_pieces(hs.take(k - 1)).push(flagged('H', hs[k - 1])));
    assert(acc_pieces(m, hs, k) =~= acc_pieces(m, hs, k - 1).push(flagged('H', hs[k - 1])));
}

proof fn lemma_acc_last(m: Method, hs: Seq<Seq<char>>, k: int)
    requires
        0 <= k <= hs.len(),
        forall|j: int| 0 <= j < hs.len() ==> (#[trigger] hs[j]).len() > 0,
    ensures
        acc_tokens(m, hs, k).len() >= 3,
        acc_tokens(m, hs, k).last().len() > 0,
    decreases k,
{
    if k == 0 {
        lemma_acc_zero(m, hs);
        lemma_method_name(m);
    } else {
        lemma_acc_step(m, hs, k);
        assert(hs[k - 1].len() > 0);
        lemma_acc_last(m, hs, k - 1);
    }
}

proof fn lemma_tok_headers(m: Method, hs: Seq<Seq<char>>, k: int)
    requires
        0 <= k <= hs.len(),
        forall|j: int| 0 <= j < hs.len() ==> (#[trigger] hs[j]).len() > 0,
    ensures
        tok_run(tok_start(), join(acc_pieces(m, hs, k), seq![' '])) == (TokState {
            mode: TokMode::Plain,
            cur: acc_tokens(m, hs, k).last(),
            toks: acc_tokens(m, hs, k).drop_last(),
        }),
    decreases k,
{
    if k == 0 {
        lemma_acc_zero(m, hs);
        lemma_tok_head(m);
        assert(head_tokens(m).drop_last() =~= seq![seq!['c', 'u', 'r', 'l'], seq!['-', 'X']]);
    } else {
        lemma_tok_headers(m, hs, k - 1);
        lemma_acc_step(m, hs, k);
        lemma_acc_last(m, hs, k - 1);
        let a0 = acc_tokens(m, hs, k - 1);
        let ps0 = acc_pieces(m, hs, k - 1);
        let h = hs[k - 1];
        lemma_join_push(ps0, flagged('H', h), seq![' ']);
        lemma_tok_concat(tok_start(), join(ps0, seq![' ']), seq![' '] + flagged('H', h));
        assert(join(ps0, seq![' ']) + seq![' '] + flagged('H', h) == join(ps0, seq![' ']) + (
        seq![' '] + flagged('H', h)));
        lemma_tok_next_flagged(a0.drop_last(), a0.last(), 'H', h);
        assert(a0.drop_last().push(a0.last()) =~= a0);
        let a = acc_tokens(m, hs, k);
        assert(a.last() == h);
        assert(a.drop_last() =~= a0.push(seq!['-', 'H']));
    }
}

proof fn lemma_header_lines_non_empty(h: Seq<char>)
    ensures
        forall|j: int|
            0 <= j < header_lines(h).len() ==> (#[trigger] header_lines(h)[j]).len() > 0,
{
    lemma_non_empty_lines(trimmed_lines(h));
}

proof fn lemma_non_empty_lines(ls: Seq<Seq<char>>)
    ensures
        forall|j: int|
            0 <= j < non_empty_lines(ls).len() ==> (#[trigger] non_empty_lines(ls)[j]).len() > 0
                && exists|i: int| 0 <= i < ls.len() && non_empty_lines(ls)[j] == ls[i],
    decreases ls.len(),
{
    if ls.len() > 0 {
        let p = ls.drop_last();
        lemma_non_empty_lines(p);
        let r = non_empty_lines(ls);
        assert forall|j: int| 0 <= j < r.len() implies (#[trigger] r[j]).len() > 0 && exists|
            i: int,
        | 0 <= i < ls.len() && r[j] == ls[i] by {
            if j < non_empty_lines(p).len() {
                assert(r[j] == non_empty_lines(p)[j]);
                let i = choose|i: int| 0 <= i < p.len() && non_empty_lines(p)[j] == p[i];
                assert(r[j] == ls[i]);
            } else {
                assert(r[j] == ls.last());
                assert(r[j] == ls[ls.len() - 1]);
            }
        }
    }
}

proof fn lemma_tokenize_pieces(r: RequestView)
    ensures
        tokenize(join(pieces(r), seq![' '])) == curl_tokens(r),
{
    let m = r.method;
    let hs = header_lines(r.headers);
    let n = hs.len() as int;
    lemma_header_lines_non_empty(r.headers);
    lemma_tok_headers(m, hs, n);
    lemma_acc_last(m, hs, n);
    assert(hs.take(n) == hs);
    let a = acc_tokens(m, hs, n);
    let x = acc_pieces(m, hs, n);
    assert(x.len() >= 1);
    let sp = seq![' '];
    // the body, when there is one
    let (y, a2) = if r.body.len() > 0 {
        (x.push(flagged('d', r.body)), a + seq![seq!['-', 'd'], r.body])
    } else {
        (x, a)
    };
    assert(tok_run(tok_start(), join(y, sp)) == (TokState {
        mode: TokMode::Plain,
        cur: a2.last(),
        toks: a2.drop_last(),
    }) && a2.last().len() > 0 && y.len() >= 1) by {
        if r.body.len() > 0 {
            lemma_join_push(x, flagged('d', r.body), sp);
            lemma_tok_concat(tok_start(), join(x, sp), sp + flagged('d', r.body));
            assert(join(x, sp) + sp + flagged('d', r.body) == join(x, sp) + (sp + flagged(
                'd',
                r.body,
            )));
            lemma_tok_next_flagged(a.drop_last(), a.last(), 'd', r.body);
            assert(a.drop_last().push(a.last()) =~= a);
            assert(a2.drop_last() =~= a.push(seq!['-', 'd']));
        }
    }
    assert(pieces(r) =~= y.push(in_quotes(r.url)));
    lemma_join_push(y, in_quotes(r.url), sp);
    let st = TokState { mode: TokMode::Plain, cur: a2.last(), toks: a2.drop_last() };
    lemma_tok_concat(tok_start(), join(y, sp) + sp, in_quotes(r.url));
    lemma_tok_concat(tok_start(), join(y, sp), sp);
    lemma_tok_space(st);
    assert(a2.drop_last().push(a2.last()) =~= a2);
    let st2 = TokState { mode: TokMode::Plain, cur: Seq::empty(), toks: a2 };
    lemma_tok_quoted(st2, r.url);
    assert(st2.cur + r.url == r.url);
    assert(curl_tokens(r) =~= flush(a2, r.url));
}

// ── Reading the options ─────────────────────────────────────────────────────

proof fn lemma_header_tokens(hs: Seq<Seq<char>>)
    ensures
        header_tokens(hs).len() == 2 * hs.len(),
        forall|k: int| 0 <= k < hs.len() ==> #[trigger] header_tokens(hs)[2 * k] == seq!['-', 'H'],
        forall|k: int| 0 <= k < hs.len() ==> header_tokens(hs)[2 * k + 1] == #[trigger] hs[k],
    decreases hs.len(),
{
    if hs.len() > 0 {
        let p = hs.drop_last();
        lemma_header_tokens(p);
        let t = header_tokens(hs);
        let tp = header_tokens(p);
        let tail = seq![seq!['-', 'H'], hs.last()];
        assert(t == tp + tail);
        assert forall|k: int| 0 <= k < hs.len() implies #[trigger] header_tokens(hs)[2 * k] == seq![
            '-',
            'H',
        ] by {
            if k < p.len() {
                assert(t[2 * k] == tp[2 * k]);
            } else {
                assert(t[2 * k] == tail[0]);
            }
        }
        assert forall|k: int| 0 <= k < hs.len() implies header_tokens(hs)[2 * k + 1]
            == #[trigger] hs[k] by {
            if k < p.len() {
                assert(p[k] == hs[k]);
                assert(t[2 * k + 1] == tp[2 * k + 1]);
                assert(tp[2 * k + 1] == p[k]);
            } else {
                assert(k == hs.len() - 1);
                assert(t[2 * k + 1] == tail[1]);
            }
        }
    }
}

proof fn lemma_option_words()
    ensures
        seq!['-', 'H'] != seq!['-', 'X'],
        seq!['-', 'H'] != seq!['-', '-', 'r', 'e', 'q', 'u', 'e', 's', 't'],
        seq!['-', 'd'] != seq!['-', 'X'],
        seq!['-', 'd'] != seq!['-', '-', 'r', 'e', 'q', 'u', 'e', 's', 't'],
        seq!['-', 'd'] != seq!['-', 'H'],
        seq!['-', 'd'] != seq!['-', '-', 'h', 'e', 'a', 'd', 'e', 'r'],
{
    assert(seq!['-', 'H'][1] != seq!['-', 'X'][1]);
    assert(seq!['-', 'd'][1] != seq!['-', 'X'][1]);
    assert(seq!['-', 'd'][1] != seq!['-', 'H'][1]);
}

proof fn lemma_parse_headers(r: RequestView, k: int)
    requires
        0 <= k <= header_lines(r.headers).len(),
    ensures
        ({
            let hs = header_lines(r.headers);
            let n = hs.len() as int;
            let t = curl_tokens(r);
            parse_opts(t, 3 + 2 * k, CurlOpts {
                method: r.method,
                url: Seq::empty(),
                headers: hs.take(k),
                body: Seq::empty(),
            }) == parse_opts(t, 3 + 2 * n, CurlOpts {
                method: r.method,
                url: Seq::empty(),
                headers: hs,
                body: Seq::empty(),
            })
        }),
    decreases header_lines(r.headers).len() - k,
{
    let hs = header_lines(r.headers);
    let n = hs.len() as int;
    let t = curl_tokens(r);
    if k == n {
        assert(hs.take(n) == hs);
    } else {
        lemma_parse_headers(r, k + 1);
        lemma_header_tokens(hs);
        lemma_option_words();
        let i = 3 + 2 * k;
        let a = head_tokens(r.method) + header_tokens(hs);
        assert(t[i] == a[i]);
        assert(t[i + 1] == a[i + 1]);
        assert(a[i] == header_tokens(hs)[2 * k]);
        assert(a[i + 1] == header_tokens(hs)[2 * k + 1]);
        assert(hs.take(k).push(hs[k]) == hs.take(k + 1));
    }
}

proof fn lemma_parse_tokens(r: RequestView)
    requires
        r.url.len() > 0 ==> r.url[0] != '-',
    ensures
        parse_opts(curl_tokens(r), 1, opts_start()) == (CurlOpts {
            method: r.method,
            url: r.url,
            headers: header_lines(r.headers),
            body: r.body,
        }),
{
    let hs = header_lines(r.headers);
    let n = hs.len() as int;
    let t = curl_tokens(r);
    lemma_header_tokens(hs);
    lemma_option_words();
    lemma_method_name(r.method);
    let a = head_tokens(r.method) + header_tokens(hs);
    assert(a.len() == 3 + 2 * n);
    let bt = if r.body.len() > 0 {
        seq![seq!['-', 'd'], r.body]
    } else {
        Seq::empty()
    };
    let ut = if r.url.len() > 0 {
        seq![r.url]
    } else {
        Seq::empty()
    };
    assert(t == a + bt + ut);
    // the method
    assert(t[1] == a[1] && t[2] == a[2]);
    assert(t[1] == seq!['-', 'X']);
    assert(t[2] == method_name(r.method));
    assert(hs.take(0) =~= Seq::<Seq<char>>::empty());
    let o0 = CurlOpts { method: r.method, url: Seq::empty(), headers: hs.take(0), body: Seq::empty() };
    assert(parse_opts(t, 1, opts_start()) == parse_opts(t, 3, o0));
    lemma_parse_headers(r, 0);
    let o = CurlOpts { method: r.method, url: Seq::empty(), headers: hs, body: Seq::empty() };
    let j = 3 + 2 * n + bt.len();
    let o2 = CurlOpts { body: r.body, ..o };
    assert(parse_opts(t, 3 + 2 * n, o) == parse_opts(t, j, o2)) by {
        let i = 3 + 2 * n;
        if r.body.len() > 0 {
            assert(t[i] == (a + bt)[i]);
            assert((a + bt)[i] == bt[0]);
            assert(t[i] == seq!['-', 'd']);
            assert(t[i + 1] == (a + bt)[i + 1]);
            assert(t[i + 1] == r.body);
            assert(i + 1 < t.len());
        } else {
            assert(r.body =~= Seq::<char>::empty());
            assert(o2 == o);
        }
    }
    if r.url.len() > 0 {
        assert(t.len() == j + 1);
        assert(t[j] == r.url);
        assert(r.url != seq!['-', 'X'] && r.url != seq!['-', 'H'] && r.url != seq!['-', 'd']) by {
            assert(seq!['-', 'X'][0] == '-');
            assert(seq!['-', 'H'][0] == '-');
            assert(seq!['-', 'd'][0] == '-');
        }
        assert(r.url != seq!['-', '-', 'r', 'e', 'q', 'u', 'e', 's', 't'] && r.url != seq![
            '-',
            '-',
            'h',
            'e',
            'a',
            'd',
            'e',
            'r',
        ] && r.url != seq!['-', '-', 'd', 'a', 't', 'a'] && r.url != seq![
            '-',
            '-',
            'd',
            'a',
            't',
            'a',
            '-',
            'r',
            'a',
            'w',
        ]) by {
            assert(seq!['-', '-', 'r', 'e', 'q', 'u', 'e', 's', 't'][0] == '-');
            assert(seq!['-', '-', 'h', 'e', 'a', 'd', 'e', 'r'][0] == '-');
            assert(seq!['-', '-', 'd', 'a', 't', 'a'][0] == '-');
            assert(seq!['-', '-', 'd', 'a', 't', 'a', '-', 'r', 'a', 'w'][0] == '-');
        }
        let o3 = CurlOpts { url: r.url, ..o2 };
        assert(parse_opts(t, j + 1, o3) == o3);
        assert(parse_opts(t, j, o2) == parse_opts(t, j + 1, o3));
    } else {
        assert(t.len() == j);
        assert(parse_opts(t, j, o2) == o2);
        assert(r.url =~= Seq::<char>::empty());
    }
}

// ── Header lines carry no line feed ─────────────────────────────────────────

proof fn lemma_line_cut_no_nl(s: Seq<char>)
    ensures
        no_nl(line_cut(s).cur),
        forall|k: int| 0 <= k < line_cut(s).done.len() ==> no_nl(#[trigger] line_cut(s).done[k]),
    decreases s.len(),
{
    if s.len() > 0 {
        let p = s.drop_last();
        lemma_line_cut_no_nl(p);
        let st = line_cut(p);
        assert(line_cut(s) == line_step(st, s.last()));
        if s.last() != '\n' {
            assert(no_nl(st.cur.push(s.last())));
        }
    }
}

proof fn lemma_trim_no_nl(x: Seq<char>)
    requires
        no_nl(x),
    ensures
        no_nl(trim(x)),
{
    lemma_trim_start_no_nl(x);
    lemma_trim_end_no_nl(trim_start(x));
}

proof fn lemma_trim_start_no_nl(x: Seq<char>)
    requires
        no_nl(x),
    ensures
        no_nl(trim_start(x)),
    decreases x.len(),
{
    if x.len() > 0 && is_ws(x[0]) {
        let y = x.drop_first();
        assert forall|i: int| 0 <= i < y.len() implies y[i] != '\n' by {
            assert(y[i] == x[i + 1]);
        }
        lemma_trim_start_no_nl(y);
    }
}

proof fn lemma_trim_end_no_nl(x: Seq<char>)
    requires
        no_nl(x),
    ensures
        no_nl(trim_end(x)),
    decreases x.len(),
{
    if x.len() > 0 && is_ws(x.last()) {
        let y = x.drop_last();
        assert forall|i: int| 0 <= i < y.len() implies y[i] != '\n' by {
            assert(y[i] == x[i]);
        }
        lemma_trim_end_no_nl(y);
    }
}

proof fn lemma_header_lines_no_nl(h: Seq<char>)
    ensures
        forall|k: int| 0 <= k < header_lines(h).len() ==> no_nl(#[trigger] header_lines(h)[k]),
{
    lemma_line_cut_no_nl(h);
    let ls = lines(h);
    assert forall|k: int| 0 <= k < ls.len() implies no_nl(#[trigger] ls[k]) by {
        let st = line_cut(h);
        if k < st.done.len() {
            assert(ls[k] == st.done[k]);
        } else {
            assert(ls[k] == st.cur);
        }
    }
    let tl = trimmed_lines(h);
    assert forall|k: int| 0 <= k < tl.len() implies no_nl(#[trigger] tl[k]) by {
        assert(tl[k] == trim(ls[k]));
        lemma_trim_no_nl(ls[k]);
    }
    lemma_non_empty_lines(tl);
    let hl = header_lines(h);
    assert forall|k: int| 0 <= k < hl.len() implies no_nl(#[trigger] hl[k]) by {
        let i = choose|i: int| 0 <= i < tl.len() && hl[k] == tl[i];
    }
}

// ── Pieces of the command ───────────────────────────────────────────────────

/// A piece of the command that reads back cleanly: not empty, no white
/// space at either end, no line feed, no line continuation, and not ending
/// in a backslash.
pub open spec fn good_piece(x: Seq<char>) -> bool {
    &&& x.len() > 0
    &&& !is_ws(x[0])
    &&& !is_ws(x.last())
    &&& x.last() != '\\'
    &&& no_nl(x)
    &&& no_cont(x)
}

proof fn lemma_good_head(m: Method)
    ensures
        good_piece(head_part(m)),
{
    let h = head_part(m);
    let n = method_name(m);
    lemma_method_name(m);
    assert(h.last() == n.last());
    assert forall|i: int| 0 <= i < h.len() implies h[i] != '\\' && h[i] != '\n' by {
        if i >= 8 {
            assert(h[i] == n[i - 8]);
            assert(plain_char(n[i - 8]));
        }
    }
    lemma_no_cont_short(h);
}

proof fn lemma_good_quoted(v: Seq<char>)
    requires
        no_nl(v),
        no_cont(v),
    ensures
        good_piece(in_quotes(v)),
        no_cont(escape_quotes(v)),
        no_nl(escape_quotes(v)),
{
    let e = escape_quotes(v);
    lemma_escape_no_nl(v);
    lemma_escape_no_cont(v);
    lemma_no_cont_tiny(Seq::empty());
    lemma_no_cont_quote(Seq::empty(), e);
    assert(Seq::<char>::empty() + seq!['\''] + e == seq!['\''] + e);
    lemma_no_cont_quote(seq!['\''] + e, Seq::empty());
    assert(seq!['\''] + e + seq!['\''] + Seq::<char>::empty() == in_quotes(v));
    let q = in_quotes(v);
    assert forall|i: int| 0 <= i < q.len() implies q[i] != '\n' by {
        if 1 <= i < q.len() - 1 {
            assert(q[i] == e[i - 1]);
        }
    }
}

proof fn lemma_good_flagged(f: char, v: Seq<char>)
    requires
        no_nl(v),
        no_cont(v),
        f == 'H' || f == 'd',
    ensures
        good_piece(flagged(f, v)),
{
    let e = escape_quotes(v);
    lemma_good_quoted(v);
    let p = seq!['-', f, ' '];
    lemma_no_cont_short(p);
    lemma_no_cont_quote(p, e);
    lemma_no_cont_quote(p + seq!['\''] + e, Seq::empty());
    let x = flagged(f, v);
    assert(p + seq!['\''] + e + seq!['\''] + Seq::<char>::empty() == x);
    let q = in_quotes(v);
    assert forall|i: int| 0 <= i < x.len() implies x[i] != '\n' by {
        if i >= 3 {
            assert(x[i] == q[i - 3]);
        }
    }
    assert(x.last() == q.last());
}

/// The values in a request that a curl command carries back unchanged: no
/// line feed and no ` \ ` in the URL, the body or any header line.
pub open spec fn carries_back(r: RequestView) -> bool {
    &&& no_nl(r.url)
    &&& no_cont(r.url)
    &&& no_nl(r.body)
    &&& no_cont(r.body)
    &&& forall|k: int|
        0 <= k < header_lines(r.headers).len() ==> no_cont(#[trigger] header_lines(r.headers)[k])
}

proof fn lemma_good_pieces(r: RequestView)
    requires
        carries_back(r),
    ensures
        forall|k: int| 0 <= k < pieces(r).len() ==> good_piece(#[trigger] pieces(r)[k]),
        forall|k: int| 1 <= k < pieces(r).len() - 1 ==> (#[trigger] pieces(r)[k])[0] == '-',
        pieces(r).len() >= 2,
{
    let hs = header_lines(r.headers);
    lemma_header_lines_no_nl(r.headers);
    let q = pieces(r);
    let hp = header_pieces(hs);
    let bp = body_pieces(r.body);
    assert forall|k: int| 0 <= k < q.len() implies good_piece(#[trigger] q[k]) && (1 <= k < q.len()
        - 1 ==> q[k][0] == '-') by {
        if k == 0 {
            lemma_good_head(r.method);
        } else if k < 1 + hp.len() {
            assert(q[k] == hp[k - 1]);
            assert(hp[k - 1] == flagged('H', hs[k - 1]));
            lemma_good_flagged('H', hs[k - 1]);
        } else if k < 1 + hp.len() + bp.len() {
            assert(q[k] == bp[k - 1 - hp.len()]);
            assert(q[k] == flagged('d', r.body));
            lemma_good_flagged('d', r.body);
        } else {
            assert(q[k] == in_quotes(r.url));
            lemma_good_quoted(r.url);
        }
    }
}

// ── The round trip ──────────────────────────────────────────────────────────

proof fn lemma_parts_indented(r: RequestView)
    ensures
        curl_parts(r).len() == pieces(r).len(),
        curl_parts(r)[0] == pieces(r)[0],
        forall|k: int|
            1 <= k < pieces(r).len() ==> #[trigger] curl_parts(r)[k] == indent(pieces(r)[k]),
{
    let hs = header_lines(r.headers);
    let cp = curl_parts(r);
    let q = pieces(r);
    let hp = header_pieces(hs);
    let bp = body_pieces(r.body);
    let hc = hs.map_values(|l: Seq<char>| header_part(l));
    let bc = if r.body.len() > 0 {
        seq![body_part(r.body)]
    } else {
        Seq::<Seq<char>>::empty()
    };
    assert(cp == seq![head_part(r.method)] + hc + bc + seq![url_part(r.url)]);
    assert forall|k: int| 1 <= k < q.len() implies #[trigger] cp[k] == indent(q[k]) by {
        if k < 1 + hs.len() {
            assert(cp[k] == hc[k - 1]);
            assert(q[k] == hp[k - 1]);
            assert(header_part(hs[k - 1]) =~= indent(flagged('H', hs[k - 1])));
        } else if k < 1 + hs.len() + bp.len() {
            assert(cp[k] == bc[k - 1 - hs.len()]);
            assert(q[k] == bp[k - 1 - hs.len()]);
            assert(body_part(r.body) =~= indent(flagged('d', r.body)));
        } else {
            assert(cp[k] == url_part(r.url));
            assert(q[k] == in_quotes(r.url));
            assert(url_part(r.url) =~= indent(in_quotes(r.url)));
        }
    }
}

proof fn lemma_trimmed_command(r: RequestView)
    requires
        carries_back(r),
    ensures
        trimmed_lines(curl_command(r)) == pieces(r).drop_last().map_values(
            |p: Seq<char>| p + seq![' ', '\\'],
        ).push(pieces(r).last()),
{
    let q = pieces(r);
    let cp = curl_parts(r);
    let t = seq![' ', '\\'];
    lemma_good_pieces(r);
    lemma_parts_indented(r);
    assert forall|k: int| 0 <= k < cp.len() implies no_nl(#[trigger] cp[k]) by {
        assert(good_piece(q[k]));
        if k > 0 {
            assert(cp[k] == indent(q[k]));
            assert forall|i: int| 0 <= i < cp[k].len() implies cp[k][i] != '\n' by {
                if i >= 2 {
                    assert(cp[k][i] == q[k][i - 2]);
                }
            }
        }
    }
    assert(no_nl(t));
    assert(t.push('\n') == seq![' ', '\\', '\n']);
    assert(cp.last() == indent(q.last()));
    lemma_lines_join(cp, t);
    let ls = lines(curl_command(r));
    let want = q.drop_last().map_values(|p: Seq<char>| p + t).push(q.last());
    let got = ls.map_values(|l: Seq<char>| trim(l));
    assert forall|k: int| 0 <= k < got.len() implies got[k] == want[k] by {
        assert(good_piece(q[k]));
        if k == 0 {
            assert(ls[0] == cp[0] + t);
            let x = q[0] + t;
            assert(x.last() == '\\');
            assert(x[0] == q[0][0]);
            lemma_trim_clean(x);
        } else if k < q.len() - 1 {
            assert(ls[k] == cp[k] + t);
            let x = q[k] + t;
            assert(cp[k] + t == indent(x));
            assert(x.last() == '\\');
            assert(x[0] == q[k][0]);
            lemma_trim_indented(x);
        } else {
            assert(ls[k] == cp.last());
            lemma_trim_indented(q[k]);
        }
    }
    assert(got =~= want);
}

/// Reading back what `to_curl` writes gives the request again: the same
/// method, URL and body, and the header lines as `to_curl` keeps them
/// (trimmed, the empty ones left out, joined with line feeds). This holds
/// for every request whose URL, body and header lines contain no line feed
/// and no ` \ ` (which reading takes for a line continuation), and whose
/// URL does not start with `-` (which reading takes for an option).
pub proof fn lemma_curl_round_trip(r: RequestView)
    requires
        carries_back(r),
        r.url.len() > 0 ==> r.url[0] != '-',
    ensures
        request_of_curl(curl_command(r)) == Some(
            RequestView {
                method: r.method,
                url: r.url,
                headers: join(header_lines(r.headers), seq!['\n']),
                body: r.body,
            },
        ),
{
    let q = pieces(r);
    let t = seq![' ', '\\'];
    lemma_good_pieces(r);
    lemma_trimmed_command(r);
    lemma_join_suffixed(q, t, seq![' ']);
    assert(t + seq![' '] == cont());
    assert(clean_pieces(q)) by {
        assert forall|k: int| 0 <= k < q.len() implies !contains(#[trigger] q[k], cont()) && q[k].len()
            > 0 && q[k].last() != '\\' by {
            assert(good_piece(q[k]));
        }
    }
    lemma_replace_join(q);
    assert(seq![' ', '\\', ' '] == cont());
    assert(curl_line(curl_command(r)) == join(q, seq![' ']));
    lemma_tokenize_pieces(r);
    lemma_parse_tokens(r);
    let toks = curl_tokens(r);
    assert(toks[0] == seq!['c', 'u', 'r', 'l']);
}

// ── Other laws of requests ──────────────────────────────────────────────────

/// A method's name reads back as the same method, and only method names
/// read as methods.
pub proof fn lemma_method_names(m: Method, s: Seq<char>)
    ensures
        method_named(method_name(m)) == Some(m),
        method_named(s) == Some(m) ==> s == method_name(m),
{
    lemma_method_name(m);
}

/// `Method::ALL` lists every method exactly once, and no two methods share a
/// name.
pub proof fn lemma_method_list()
    ensures
        forall|m: Method| #[trigger] Method::ALL@.contains(m),
        forall|i: int, j: int|
            0 <= i < 7 && 0 <= j < 7 && i != j ==> #[trigger] Method::ALL[i] != #[trigger] Method::ALL[j],
        forall|m1: Method, m2: Method|
            m1 != m2 ==> #[trigger] method_name(m1) != #[trigger] method_name(m2),
{
    let all = Method::ALL;
    assert(all[0] == Method::Get && all[1] == Method::Post && all[2] == Method::Put);
    assert(all[3] == Method::Patch && all[4] == Method::Delete && all[5] == Method::Head);
    assert(all[6] == Method::Options);
    assert forall|m: Method| #[trigger] Method::ALL@.contains(m) by {
        let j: int = match m {
            Method::Get => 0,
            Method::Post => 1,
            Method::Put => 2,
            Method::Patch => 3,
            Method::Delete => 4,
            Method::Head => 5,
            Method::Options => 6,
        };
        assert(Method::ALL@[j] == m);
    }
    assert forall|m1: Method, m2: Method| m1 != m2 implies #[trigger] method_name(m1)
        != #[trigger] method_name(m2) by {
        lemma_method_names(m1, method_name(m2));
        lemma_method_names(m2, method_name(m2));
    }
}

proof fn lemma_tok_run_non_empty(s: Seq<char>)
    ensures
        forall|k: int|
            0 <= k < tok_run(tok_start(), s).toks.len() ==> (#[trigger] tok_run(
                tok_start(),
                s,
            ).toks[k]).len() > 0,
    decreases s.len(),
{
    if s.len() > 0 {
        lemma_tok_run_non_empty(s.drop_last());
        let st = tok_run(tok_start(), s.drop_last());
        assert(tok_run(tok_start(), s) == tok_step(st, s.last()));
        let t = tok_run(tok_start(), s).toks;
        assert forall|k: int| 0 <= k < t.len() implies (#[trigger] t[k]).len() > 0 by {
            if k < st.toks.len() {
                assert(t[k] == st.toks[k]);
            }
        }
    } else {
        assert(tok_run(tok_start(), s) == tok_start());
    }
}

/// Tokenizing never yields an empty token.
pub proof fn lemma_tokens_non_empty(s: Seq<char>)
    ensures
        forall|k: int| 0 <= k < tokenize(s).len() ==> (#[trigger] tokenize(s)[k]).len() > 0,
{
    lemma_tok_run_non_empty(s);
    let st = tok_run(tok_start(), s);
    assert forall|k: int| 0 <= k < tokenize(s).len() implies (#[trigger] tokenize(s)[k]).len() > 0 by {
        if k < st.toks.len() {
            assert(tokenize(s)[k] == st.toks[k]);
        }
    }
}

proof fn lemma_trim_start_clean(x: Seq<char>)
    ensures
        x == trim_start(x) || (x.len() > 0 && is_ws(x[0])),
        trim_start(x).len() > 0 ==> !is_ws(trim_start(x)[0]),
        trim_start(x).len() <= x.len(),
        trim_start(x).len() > 0 ==> trim_start(x).last() == x.last(),
    decreases x.len(),
{
    if x.len() > 0 && is_ws(x[0]) {
        lemma_trim_start_clean(x.drop_first());
    }
}

proof fn lemma_trim_end_clean(x: Seq<char>)
    ensures
        trim_end(x).len() > 0 ==> !is_ws(trim_end(x).last()),
        trim_end(x).len() > 0 ==> trim_end(x)[0] == x[0],
        trim_end(x).len() <= x.len(),
        trim_end(x) == x.take(trim_end(x).len() as int),
    decreases x.len(),
{
    if x.len() > 0 && is_ws(x.last()) {
        lemma_trim_end_clean(x.drop_last());
        assert(trim_end(x) == trim_end(x.drop_last()));
        assert(x.drop_last().take(trim_end(x).len() as int) == x.take(trim_end(x).len() as int));
    } else {
        assert(x.take(x.len() as int) == x);
    }
}

/// Trimming twice trims no more than once.
pub proof fn lemma_trim_idempotent(x: Seq<char>)
    ensures
        trim(trim(x)) == trim(x),
{
    let y = trim(x);
    lemma_trim_start_clean(x);
    lemma_trim_end_clean(trim_start(x));
    if y.len() > 0 {
        lemma_trim_clean(y);
    } else {
        assert(trim_start(y) == y);
    }
}

proof fn lemma_non_empty_fixed(ls: Seq<Seq<char>>)
    requires
        forall|k: int| 0 <= k < ls.len() ==> (#[trigger] ls[k]).len() > 0,
    ensures
        non_empty_lines(ls) == ls,
    decreases ls.len(),
{
    if ls.len() > 0 {
        let p = ls.drop_last();
        assert forall|k: int| 0 <= k < p.len() implies (#[trigger] p[k]).len() > 0 by {
            assert(p[k] == ls[k]);
        }
        lemma_non_empty_fixed(p);
        assert(ls.last() == ls[ls.len() - 1]);
        assert(p.push(ls.last()) == ls);
    }
}

/// Header text as a read-back request keeps it (its header lines joined
/// with line feeds) has those same header lines: normalising twice is
/// normalising once.
pub proof fn lemma_header_lines_fixed(h: Seq<char>)
    ensures
        header_lines(join(header_lines(h), seq!['\n'])) == header_lines(h),
{
    let hs = header_lines(h);
    lemma_header_lines_non_empty(h);
    lemma_header_lines_no_nl(h);
    if hs.len() == 0 {
        assert(join(hs, seq!['\n']) == Seq::<char>::empty());
        assert(lines(Seq::<char>::empty()) == line_cut(Seq::<char>::empty()).done);
        assert(trimmed_lines(Seq::<char>::empty()) =~= Seq::<Seq<char>>::empty());
    } else {
        let e = Seq::<char>::empty();
        assert(e.push('\n') == seq!['\n']);
        assert(hs.last() == hs[hs.len() - 1]);
        lemma_lines_join(hs, e);
        let ls = lines(join(hs, seq!['\n']));
        assert(ls =~= hs) by {
            assert forall|k: int| 0 <= k < ls.len() implies ls[k] == hs[k] by {
                if k < hs.len() - 1 {
                    assert(hs[k] + e == hs[k]);
                }
            }
        }
        let tl = trimmed_lines(join(hs, seq!['\n']));
        assert(tl =~= hs) by {
            lemma_non_empty_lines(trimmed_lines(h));
            assert forall|k: int| 0 <= k < tl.len() implies tl[k] == hs[k] by {
                let i = choose|i: int|
                    0 <= i < trimmed_lines(h).len() && hs[k] == trimmed_lines(h)[i];
                assert(trimmed_lines(h)[i] == trim(lines(h)[i]));
                lemma_trim_idempotent(lines(h)[i]);
            }
        }
        lemma_non_empty_fixed(hs);
    }
}

/// The request a written command reads back as is written and read back
/// unchanged: after one round trip the request is a fixed point.
pub proof fn lemma_curl_round_trip_stable(r: RequestView)
    requires
        carries_back(r),
        r.url.len() > 0 ==> r.url[0] != '-',
    ensures
        ({
            let back = RequestView {
                method: r.method,
                url: r.url,
                headers: join(header_lines(r.headers), seq!['\n']),
                body: r.body,
            };
            request_of_curl(curl_command(back)) == Some(back)
        }),
{
    let back = RequestView {
        method: r.method,
        url: r.url,
        headers: join(header_lines(r.headers), seq!['\n']),
        body: r.body,
    };
    lemma_header_lines_fixed(r.headers);
    assert(header_lines(back.headers) == header_lines(r.headers));
    lemma_curl_round_trip(back);
}

} // verus!

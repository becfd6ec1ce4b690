//! Syntax highlighting: cutting JSON text and HTTP header text into spans,
//! each with the role that decides its colour.
use vstd::prelude::*;
use vstd::utf8::{encode_scalar, encode_utf8, is_char_boundary};

use crate::num::is_digit;
use crate::theme::{Palette, Rgba};
use crate::text::{
    chars_of, first_index, first_index_of, is_ascii_text, join, line_cut, line_f, line_step,
    split_lines, split_lines_of, string_of, views, LineCut,
};

verus! {

/// What a span of highlighted text is.
#[derive(Clone, Copy, Debug, PartialEq, Eq, Structural)]
pub enum SynRole {
    Key,
    Str,
    Num,
    Bool,
    Null,
    Punct,
    FieldValue,
}

/// A run of text with one role.
pub struct Span {
    pub text: String,
    pub role: SynRole,
}

impl View for Span {
    type V = (Seq<char>, SynRole);

    open spec fn view(&self) -> (Seq<char>, SynRole) {
        (self.text@, self.role)
    }
}

pub open spec fn span_views(v: Seq<Span>) -> Seq<(Seq<char>, SynRole)> {
    v.map_values(|s: Span| s@)
}

fn push_span(out: &mut Vec<Span>, cs: &[char], lo: usize, hi: usize, role: SynRole)
    requires
        lo <= hi <= cs@.len(),
    ensures
        span_views(final(out)@) == span_views(old(out)@).push((cs@.subrange(lo as int, hi as int), role)),
{
    let t = string_of(vstd::slice::slice_subrange(cs, lo, hi));
    out.push(Span { text: t, role: role });
    assert(span_views(final(out)@) =~= span_views(old(out)@).push((cs@.subrange(lo as int, hi as int), role)));
}

fn push_word(out: &mut Vec<Span>, w: Vec<char>, role: SynRole)
    ensures
        span_views(final(out)@) == span_views(old(out)@).push((w@, role)),
{
    let t = string_of(w.as_slice());
    out.push(Span { text: t, role: role });
    assert(span_views(final(out)@) =~= span_views(old(out)@).push((w@, role)));
}

// ── JSON ────────────────────────────────────────────────────────────────────

/// ASCII white space (`char::is_ascii_whitespace`).
pub open spec fn is_ascii_ws(c: char) -> bool {
    c == ' ' || c == '\t' || c == '\n' || c == '\u{0C}' || c == '\r'
}

/// Characters that continue a number.
pub open spec fn num_char(c: char) -> bool {
    is_digit(c) || c == '.' || c == 'e' || c == 'E' || c == '+' || c == '-'
}

/// Characters that may start another kind of token, ending a run of other
/// text.
pub open spec fn stop_char(c: char) -> bool {
    c == '{' || c == '}' || c == '[' || c == ']' || c == '"' || c == ':' || c == ',' || c == 't'
        || c == 'f' || c == 'n' || c == '-' || is_digit(c)
}

/// Where a string that started before `i` ends: at the first unescaped `"`
/// from `i` (or past the text), a backslash skipping the character after it.
pub open spec fn str_end(cs: Seq<char>, i: int) -> int
    decreases cs.len() + 2 - i,
{
    if 0 <= i < cs.len() && cs[i] != '"' {
        if cs[i] == '\\' {
            str_end(cs, i + 2)
        } else {
            str_end(cs, i + 1)
        }
    } else {
        i
    }
}

pub open spec fn num_end(cs: Seq<char>, i: int) -> int
    decreases cs.len() - i,
{
    if 0 <= i < cs.len() && num_char(cs[i]) {
        num_end(cs, i + 1)
    } else {
        i
    }
}

pub open spec fn other_end(cs: Seq<char>, i: int) -> int
    decreases cs.len() - i,
{
    if 0 <= i < cs.len() && !stop_char(cs[i]) {
        other_end(cs, i + 1)
    } else {
        i
    }
}

pub open spec fn ws_end(cs: Seq<char>, i: int) -> int
    decreases cs.len() - i,
{
    if 0 <= i < cs.len() && is_ascii_ws(cs[i]) {
        ws_end(cs, i + 1)
    } else {
        i
    }
}

pub proof fn lemma_ends_grow(cs: Seq<char>, i: int)
    ensures
        str_end(cs, i) >= i,
        num_end(cs, i) >= i,
        other_end(cs, i) >= i,
        ws_end(cs, i) >= i,
        0 <= i <= cs.len() ==> num_end(cs, i) <= cs.len() && other_end(cs, i) <= cs.len()
            && ws_end(cs, i) <= cs.len(),
    decreases cs.len() + 2 - i,
{
    if 0 <= i < cs.len() {
        lemma_ends_grow(cs, i + 1);
        lemma_ends_grow(cs, i + 2);
    }
}

/// Whether the bytes from `i` start with `w`.
pub open spec fn bytes_at(bs: Seq<u8>, i: int, w: Seq<u8>) -> bool {
    0 <= i && i + w.len() <= bs.len() && bs.subrange(i, i + w.len()) == w
}

pub open spec fn true_bytes() -> Seq<u8> {
    seq![116u8, 114u8, 117u8, 101u8]
}

pub open spec fn false_bytes() -> Seq<u8> {
    seq![102u8, 97u8, 108u8, 115u8, 101u8]
}

pub open spec fn null_bytes() -> Seq<u8> {
    seq![110u8, 117u8, 108u8, 108u8]
}

/// Whether the innermost open bracket is a `{`.
pub open spec fn in_object(stack: Seq<bool>) -> bool {
    stack.len() > 0 && stack.last()
}

pub open spec fn prepend(x: (Seq<char>, SynRole), r: Option<Seq<(Seq<char>, SynRole)>>) -> Option<
    Seq<(Seq<char>, SynRole)>,
> {
    match r {
        Some(rest) => Some(seq![x] + rest),
        None => None,
    }
}

/// The spans of JSON text `cs` from character `i` on, given the brackets
/// open there (`true` for `{`). Brackets, `:` and `,` are punctuation; a
/// string is a key when inside an object and followed (after ASCII white
/// space) by `:`; numbers run over digits, `.`, `e`, `E`, `+` and `-`;
/// `true`, `false` and `null` are recognised by looking at the UTF-8 bytes
/// of the text at index `i`, as a byte offset; anything else runs up to the
/// next character that may start a token. None where the text at a byte
/// offset is not on a character boundary, or where a string ends in a
/// backslash with nothing after it (both make `str` slicing panic).
pub open spec fn json_scan(cs: Seq<char>, i: int, stack: Seq<bool>) -> Option<
    Seq<(Seq<char>, SynRole)>,
>
    decreases cs.len() + 5 - i,
{
    if i < 0 || i >= cs.len() {
        Some(Seq::empty())
    } else {
        let c = cs[i];
        if c == '{' {
            prepend((seq![c], SynRole::Punct), json_scan(cs, i + 1, stack.push(true)))
        } else if c == '[' {
            prepend((seq![c], SynRole::Punct), json_scan(cs, i + 1, stack.push(false)))
        } else if c == '}' || c == ']' {
            let st = if stack.len() > 0 {
                stack.drop_last()
            } else {
                stack
            };
            prepend((seq![c], SynRole::Punct), json_scan(cs, i + 1, st))
        } else if c == ':' || c == ',' {
            prepend((seq![c], SynRole::Punct), json_scan(cs, i + 1, stack))
        } else if c == '"' {
            proof {
                lemma_ends_grow(cs, i + 1);
            }
            let j = str_end(cs, i + 1);
            let e = if j < cs.len() {
                j + 1
            } else {
                j
            };
            if e > cs.len() {
                None
            } else {
                let k = ws_end(cs, e);
                let key = in_object(stack) && k < cs.len() && cs[k] == ':';
                let role = if key {
                    SynRole::Key
                } else {
                    SynRole::Str
                };
                prepend((cs.subrange(i, e), role), json_scan(cs, e, stack))
            }
        } else if is_digit(c) || c == '-' {
            proof {
                lemma_ends_grow(cs, i + 1);
            }
            let e = num_end(cs, i + 1);
            prepend((cs.subrange(i, e), SynRole::Num), json_scan(cs, e, stack))
        } else if (c == 't' || c == 'f') && !is_char_boundary(encode_utf8(cs), i) {
            None
        } else if (c == 't' || c == 'f') && (bytes_at(encode_utf8(cs), i, true_bytes()) || bytes_at(
            encode_utf8(cs),
            i,
            false_bytes(),
        )) {
            if c == 't' {
                prepend((seq!['t', 'r', 'u', 'e'], SynRole::Bool), json_scan(cs, i + 4, stack))
            } else {
                prepend((seq!['f', 'a', 'l', 's', 'e'], SynRole::Bool), json_scan(cs, i + 5, stack))
            }
        } else if c == 'n' && !is_char_boundary(encode_utf8(cs), i) {
            None
        } else if c == 'n' && bytes_at(encode_utf8(cs), i, null_bytes()) {
            prepend((seq!['n', 'u', 'l', 'l'], SynRole::Null), json_scan(cs, i + 4, stack))
        } else {
            proof {
                lemma_ends_grow(cs, i);
            }
            let e0 = other_end(cs, i);
            let e = if e0 == i {
                i + 1
            } else {
                e0
            };
            prepend((cs.subrange(i, e), SynRole::Punct), json_scan(cs, e, stack))
        }
    }
}

pub open spec fn after(out: Seq<(Seq<char>, SynRole)>, r: Option<Seq<(Seq<char>, SynRole)>>) -> Option<
    Seq<(Seq<char>, SynRole)>,
> {
    match r {
        Some(rest) => Some(out + rest),
        None => None,
    }
}

proof fn lemma_after_prepend(
    out: Seq<(Seq<char>, SynRole)>,
    x: (Seq<char>, SynRole),
    r: Option<Seq<(Seq<char>, SynRole)>>,
)
    ensures
        after(out, prepend(x, r)) == after(out.push(x), r),
{
    match r {
        Some(rest) => {
            assert(out + (seq![x] + rest) =~= out.push(x) + rest);
        },
        None => {},
    }
}

fn string_end(cs: &[char], start: usize) -> (r: Option<usize>)
    requires
        start <= cs@.len(),
    ensures
        match r {
            Some(e) => e == str_end(cs@, start as int) && e <= cs@.len(),
            None => str_end(cs@, start as int) > cs@.len(),
        },
{
    let n = cs.len();
    let mut j: usize = start;
    while j < n && cs[j] != '"'
        invariant
            n == cs@.len(),
            start <= j <= n,
            str_end(cs@, start as int) == str_end(cs@, j as int),
        decreases n - j,
    {
        if cs[j] == '\\' {
            if j + 1 >= n {
                assert(str_end(cs@, j + 2) == j + 2);
                return None;
            }
            j = j + 2;
        } else {
            j = j + 1;
        }
    }
    Some(j)
}

fn number_end(cs: &[char], start: usize) -> (e: usize)
    requires
        start <= cs@.len(),
    ensures
        e == num_end(cs@, start as int),
{
    let n = cs.len();
    let mut e: usize = start;
    while e < n && (('0' <= cs[e] && cs[e] <= '9') || cs[e] == '.' || cs[e] == 'e' || cs[e] == 'E'
        || cs[e] == '+' || cs[e] == '-')
        invariant
            n == cs@.len(),
            start <= e <= n,
            num_end(cs@, start as int) == num_end(cs@, e as int),
        decreases n - e,
    {
        e = e + 1;
    }
    e
}

fn space_end(cs: &[char], start: usize) -> (e: usize)
    requires
        start <= cs@.len(),
    ensures
        e == ws_end(cs@, start as int),
{
    let n = cs.len();
    let mut k: usize = start;
    while k < n && (cs[k] == ' ' || cs[k] == '\t' || cs[k] == '\n' || cs[k] == '\u{0C}' || cs[k]
        == '\r')
        invariant
            n == cs@.len(),
            start <= k <= n,
            ws_end(cs@, start as int) == ws_end(cs@, k as int),
        decreases n - k,
    {
        k = k + 1;
    }
    k
}

fn run_end(cs: &[char], start: usize) -> (e: usize)
    requires
        start <= cs@.len(),
    ensures
        e == other_end(cs@, start as int),
{
    let n = cs.len();
    let mut e: usize = start;
    while e < n && !(cs[e] == '{' || cs[e] == '}' || cs[e] == '[' || cs[e] == ']' || cs[e] == '"'
        || cs[e] == ':' || cs[e] == ',' || cs[e] == 't' || cs[e] == 'f' || cs[e] == 'n' || cs[e]
        == '-' || ('0' <= cs[e] && cs[e] <= '9'))
        invariant
            n == cs@.len(),
            start <= e <= n,
            other_end(cs@, start as int) == other_end(cs@, e as int),
        decreases n - e,
    {
        e = e + 1;
    }
    e
}

fn bytes_match(bs: &[u8], i: usize, w: &[u8]) -> (r: bool)
    ensures
        r == bytes_at(bs@, i as int, w@),
{
    let blen = bs.len();
    let wlen = w.len();
    if i > blen || wlen > blen - i {
        return false;
    }
    let mut k: usize = 0;
    while k < wlen
        invariant
            blen == bs@.len(),
            wlen == w@.len(),
            i + wlen <= blen,
            k <= wlen,
            forall|j: int| 0 <= j < k ==> bs@[i + j] == w@[j],
        decreases wlen - k,
    {
        if bs[i + k] != w[k] {
            assert(bs@.subrange(i as int, i + w@.len())[k as int] != w@[k as int]);
            return false;
        }
        k = k + 1;
    }
    assert(bs@.subrange(i as int, i + w@.len()) == w@);
    true
}

/// The spans of JSON text (see `json_scan`); none where the scan would
/// slice the text off a character boundary.
pub fn json_spans(text: &str) -> (r: Option<Vec<Span>>)
    ensures
        match r {
            Some(v) => json_scan(text@, 0, Seq::empty()) == Some(span_views(v@)),
            None => json_scan(text@, 0, Seq::empty()) is None,
        },
{
    let cs_v = chars_of(text);
    let cs = cs_v.as_slice();
    let bs = text.as_bytes();
    let n = cs.len();
    let blen = bs.len();
    let mut out: Vec<Span> = Vec::new();
    let mut stack: Vec<bool> = Vec::new();
    let mut i: usize = 0;
    let tw: Vec<u8> = vec![116u8, 114u8, 117u8, 101u8];
    let fw: Vec<u8> = vec![102u8, 97u8, 108u8, 115u8, 101u8];
    let nw: Vec<u8> = vec![110u8, 117u8, 108u8, 108u8];
    assert(span_views(out@) =~= Seq::<(Seq<char>, SynRole)>::empty());
    assert(Seq::<(Seq<char>, SynRole)>::empty() + Seq::<(Seq<char>, SynRole)>::empty() =~= Seq::<(Seq<char>, SynRole)>::empty());
    while i < n
        invariant
            cs@ == text@,
            n == cs@.len(),
            blen == bs@.len(),
            bs@ == encode_utf8(text@),
            tw@ == true_bytes(),
            fw@ == false_bytes(),
            nw@ == null_bytes(),
            json_scan(text@, 0, Seq::empty()) == after(span_views(out@), json_scan(cs@, i as int, stack@)),
        decreases n + 5 - i,
    {
        let c = cs[i];
        let ghost sv = span_views(out@);
        if c == '{' || c == '[' {
            proof {
                lemma_after_prepend(sv, (seq![c], SynRole::Punct), json_scan(cs@, i + 1, stack@.push(c == '{')));
            }
            let w = vec![c];
            assert(w@ == seq![c]);
            push_word(&mut out, w, SynRole::Punct);
            stack.push(c == '{');
            i = i + 1;
        } else if c == '}' || c == ']' {
            let ghost st = if stack@.len() > 0 { stack@.drop_last() } else { stack@ };
            proof {
                lemma_after_prepend(sv, (seq![c], SynRole::Punct), json_scan(cs@, i + 1, st));
            }
            let w = vec![c];
            assert(w@ == seq![c]);
            push_word(&mut out, w, SynRole::Punct);
            stack.pop();
            i = i + 1;
        } else if c == ':' || c == ',' {
            proof {
                lemma_after_prepend(sv, (seq![c], SynRole::Punct), json_scan(cs@, i + 1, stack@));
            }
            let w = vec![c];
            assert(w@ == seq![c]);
            push_word(&mut out, w, SynRole::Punct);
            i = i + 1;
        } else if c == '"' {
            proof {
                lemma_ends_grow(cs@, i + 1);
            }
            let e = match string_end(cs, i + 1) {
                Some(j) => if j < n { j + 1 } else { j },
                None => {
                    return None;
                },
            };
            let k = space_end(cs, e);
            let is_key = stack.len() > 0 && stack[stack.len() - 1] && k < n && cs[k] == ':';
            let role = if is_key { SynRole::Key } else { SynRole::Str };
            proof {
                lemma_after_prepend(sv, (cs@.subrange(i as int, e as int), role), json_scan(cs@, e as int, stack@));
            }
            push_span(&mut out, cs, i, e, role);
            i = e;
        } else if ('0' <= c && c <= '9') || c == '-' {
            let e = number_end(cs, i + 1);
            proof {
                lemma_ends_grow(cs@, i + 1);
            }
            proof {
                lemma_after_prepend(sv, (cs@.subrange(i as int, e as int), SynRole::Num), json_scan(cs@, e as int, stack@));
            }
            push_span(&mut out, cs, i, e, SynRole::Num);
            i = e;
        } else {
            let word = c == 't' || c == 'f' || c == 'n';
            if word && !text.is_char_boundary(i) {
                return None;
            }
            let is_bool = (c == 't' || c == 'f') && (bytes_match(bs, i, tw.as_slice()) || bytes_match(bs, i, fw.as_slice()));
            let is_null = c == 'n' && bytes_match(bs, i, nw.as_slice());
            proof {
                if is_bool {
                    assert(bs@.len() >= i + 4);
                }
                if is_null {
                    assert(bs@.len() >= i + 4);
                }
            }
            if is_bool && c == 't' {
                proof {
                    lemma_after_prepend(sv, (seq!['t', 'r', 'u', 'e'], SynRole::Bool), json_scan(cs@, i + 4, stack@));
                }
                push_word(&mut out, vec!['t', 'r', 'u', 'e'], SynRole::Bool);
                i = i + 4;
            } else if is_bool {
                proof {
                    lemma_after_prepend(sv, (seq!['f', 'a', 'l', 's', 'e'], SynRole::Bool), json_scan(cs@, i + 5, stack@));
                }
                push_word(&mut out, vec!['f', 'a', 'l', 's', 'e'], SynRole::Bool);
                if i + 4 >= n {
                    assert(json_scan(cs@, i + 5, stack@) == json_scan(cs@, n as int, stack@));
                    i = n;
                } else {
                    i = i + 5;
                }
            } else if is_null {
                proof {
                    lemma_after_prepend(sv, (seq!['n', 'u', 'l', 'l'], SynRole::Null), json_scan(cs@, i + 4, stack@));
                }
                push_word(&mut out, vec!['n', 'u', 'l', 'l'], SynRole::Null);
                i = i + 4;
            } else {
                let mut e = run_end(cs, i);
                proof {
                    lemma_ends_grow(cs@, i as int);
                }
                if e == i {
                    e = i + 1;
                }
                proof {
                    lemma_after_prepend(sv, (cs@.subrange(i as int, e as int), SynRole::Punct), json_scan(cs@, e as int, stack@));
                }
                push_span(&mut out, cs, i, e, SynRole::Punct);
                i = e;
            }
        }
    }
    assert(span_views(out@) + Seq::<(Seq<char>, SynRole)>::empty() =~= span_views(out@));
    Some(out)
}

// ── Header text ─────────────────────────────────────────────────────────────

pub open spec fn http_prefix() -> Seq<char> {
    seq!['H', 'T', 'T', 'P']
}

/// The spans of one header line: a status line (starting with `HTTP`) is
/// all key colour; otherwise a name, the first `:` and the value; a line
/// without `:` is punctuation.
pub open spec fn header_line_spans(l: Seq<char>) -> Seq<(Seq<char>, SynRole)> {
    if l.len() >= 4 && l.take(4) == http_prefix() {
        seq![(l, SynRole::Key)]
    } else {
        match first_index(l, ':', 0) {
            Some(k) => seq![
                (l.take(k), SynRole::Key),
                (seq![':'], SynRole::Punct),
                (l.skip(k + 1), SynRole::FieldValue),
            ],
            None => seq![(l, SynRole::Punct)],
        }
    }
}

/// The spans of header lines, a line feed (punctuation) between each two.
pub open spec fn header_lines_spans(ls: Seq<Seq<char>>) -> Seq<(Seq<char>, SynRole)>
    decreases ls.len(),
{
    if ls.len() == 0 {
        Seq::empty()
    } else if ls.len() == 1 {
        header_line_spans(ls[0])
    } else {
        header_lines_spans(ls.drop_last()) + seq![(seq!['\n'], SynRole::Punct)] + header_line_spans(
            ls.last(),
        )
    }
}

/// The spans of header text, cut at every line feed.
pub open spec fn header_scan(text: Seq<char>) -> Seq<(Seq<char>, SynRole)> {
    header_lines_spans(split_lines(text))
}

fn push_line_spans(out: &mut Vec<Span>, l: &[char])
    ensures
        span_views(final(out)@) == span_views(old(out)@) + header_line_spans(l@),
{
    let ghost sv = span_views(out@);
    if l.len() >= 4 && l[0] == 'H' && l[1] == 'T' && l[2] == 'T' && l[3] == 'P' {
        assert(l@.take(4) =~= http_prefix());
        push_span(out, l, 0, l.len(), SynRole::Key);
        assert(l@.subrange(0, l@.len() as int) == l@);
        assert(span_views(out@) =~= sv + header_line_spans(l@));
    } else {
        assert(!(l@.len() >= 4 && l@.take(4) == http_prefix())) by {
            if l@.len() >= 4 && l@.take(4) == http_prefix() {
                assert(l@.take(4)[0] == 'H' && l@.take(4)[1] == 'T' && l@.take(4)[2] == 'T'
                    && l@.take(4)[3] == 'P');
            }
        }
        match first_index_of(l, ':') {
            Some(k) => {
                push_span(out, l, 0, k, SynRole::Key);
                let w = vec![':'];
                assert(w@ == seq![':']);
                push_word(out, w, SynRole::Punct);
                push_span(out, l, k + 1, l.len(), SynRole::FieldValue);
                assert(l@.subrange(0, k as int) == l@.take(k as int));
                assert(l@.subrange(k + 1, l@.len() as int) == l@.skip(k + 1));
                assert(span_views(out@) =~= sv + header_line_spans(l@));
            },
            None => {
                push_span(out, l, 0, l.len(), SynRole::Punct);
                assert(l@.subrange(0, l@.len() as int) == l@);
                assert(span_views(out@) =~= sv + header_line_spans(l@));
            },
        }
    }
}

/// The spans of HTTP header text (see `header_scan`).
pub fn header_spans(text: &str) -> (r: Vec<Span>)
    ensures
        span_views(r@) == header_scan(text@),
{
    let cs = chars_of(text);
    let ls = split_lines_of(cs.as_slice());
    let mut out: Vec<Span> = Vec::new();
    let mut i: usize = 0;
    assert(span_views(out@) =~= Seq::<(Seq<char>, SynRole)>::empty());
    assert(views(ls@).take(0) =~= Seq::<Seq<char>>::empty());
    while i < ls.len()
        invariant
            i <= ls@.len(),
            span_views(out@) == header_lines_spans(views(ls@).take(i as int)),
        decreases ls@.len() - i,
    {
        let ghost before = span_views(out@);
        proof {
            assert(views(ls@).take(i + 1).drop_last() == views(ls@).take(i as int));
            assert(views(ls@).take(i + 1).last() == ls@[i as int]@);
        }
        if i > 0 {
            let w = vec!['\n'];
            assert(w@ == seq!['\n']);
            push_word(&mut out, w, SynRole::Punct);
        } else {
            assert(views(ls@).take(1)[0] == ls@[0]@);
            assert(before =~= Seq::<(Seq<char>, SynRole)>::empty());
        }
        push_line_spans(&mut out, ls[i].as_slice());
        i = i + 1;
    }
    assert(views(ls@).take(ls@.len() as int) == views(ls@));
    out
}

// ── Colours ─────────────────────────────────────────────────────────────────

/// A run of text in one colour.
pub struct Colored {
    pub text: String,
    pub color: Rgba,
}

impl View for Colored {
    type V = (Seq<char>, Rgba);

    open spec fn view(&self) -> (Seq<char>, Rgba) {
        (self.text@, self.color)
    }
}

pub open spec fn colored_views(v: Seq<Colored>) -> Seq<(Seq<char>, Rgba)> {
    v.map_values(|c: Colored| c@)
}

/// The spans, each in the colour that `color` gives its role.
pub open spec fn paint(sp: Seq<(Seq<char>, SynRole)>, color: spec_fn(SynRole) -> Rgba) -> Seq<
    (Seq<char>, Rgba),
> {
    sp.map_values(|x: (Seq<char>, SynRole)| (x.0, color(x.1)))
}

/// The palette's colour for a role in JSON text.
pub open spec fn json_role_color(pal: Palette, role: SynRole) -> Rgba {
    match role {
        SynRole::Key => pal.syn_key,
        SynRole::Str => pal.syn_str,
        SynRole::Num => pal.syn_num,
        SynRole::Bool => pal.syn_bool,
        SynRole::Null => pal.syn_null,
        _ => pal.syn_punct,
    }
}

/// The colour for a role in header text: names and status lines in the key
/// colour, values in the value colour, the rest in the punctuation colour.
pub open spec fn header_role_color(key: Rgba, value: Rgba, punct: Rgba, role: SynRole) -> Rgba {
    match role {
        SynRole::Key => key,
        SynRole::FieldValue => value,
        _ => punct,
    }
}

fn json_color(pal: &Palette, role: SynRole) -> (c: Rgba)
    ensures
        c == json_role_color(*pal, role),
{
    match role {
        SynRole::Key => pal.syn_key,
        SynRole::Str => pal.syn_str,
        SynRole::Num => pal.syn_num,
        SynRole::Bool => pal.syn_bool,
        SynRole::Null => pal.syn_null,
        _ => pal.syn_punct,
    }
}

fn header_color(key: Rgba, value: Rgba, punct: Rgba, role: SynRole) -> (c: Rgba)
    ensures
        c == header_role_color(key, value, punct, role),
{
    match role {
        SynRole::Key => key,
        SynRole::FieldValue => value,
        _ => punct,
    }
}

/// Whether JSON text can be highlighted: false exactly where the scan would
/// slice the text off a character boundary (see `json_scan`).
pub fn json_highlightable(text: &str) -> (r: bool)
    ensures
        r == json_scan(text@, 0, Seq::empty()) is Some,
{
    json_spans(text).is_some()
}

/// JSON text in the palette's syntax colours (see `json_scan`).
pub fn json_colored(text: &str, pal: &Palette) -> (r: Vec<Colored>)
    requires
        json_scan(text@, 0, Seq::empty()) is Some,
    ensures
        colored_views(r@) == paint(
            json_scan(text@, 0, Seq::empty())->0,
            |role: SynRole| json_role_color(*pal, role),
        ),
{
    match json_spans(text) {
        None => {
            proof {
                assert(false);
            }
            Vec::new()
        },
        Some(spans) => {
            let ghost f = |role: SynRole| json_role_color(*pal, role);
            let mut out: Vec<Colored> = Vec::new();
            let mut i: usize = 0;
            while i < spans.len()
                invariant
                    i <= spans@.len(),
                    colored_views(out@) == paint(span_views(spans@).take(i as int), f),
                    f == (|role: SynRole| json_role_color(*pal, role)),
                decreases spans@.len() - i,
            {
                let c = json_color(pal, spans[i].role);
                let ghost before = colored_views(out@);
                out.push(Colored { text: spans[i].text.clone(), color: c });
                proof {
                    assert(span_views(spans@)[i as int] == spans@[i as int]@);
                    assert(f(spans@[i as int].role) == c);
                    assert(colored_views(out@) =~= before.push((spans@[i as int].text@, c)));
                    assert(paint(span_views(spans@).take(i + 1), f) =~= paint(
                        span_views(spans@).take(i as int),
                        f,
                    ).push((spans@[i as int].text@, c)));
                }
                i = i + 1;
            }
            assert(span_views(spans@).take(spans@.len() as int) =~= span_views(spans@));
            out
        },
    }
}

/// Header text in the given colours (see `header_scan` and
/// `header_role_color`).
pub fn headers_colored(text: &str, col_key: Rgba, col_value: Rgba, col_punct: Rgba) -> (r: Vec<
    Colored,
>)
    ensures
        colored_views(r@) == paint(
            header_scan(text@),
            |role: SynRole| header_role_color(col_key, col_value, col_punct, role),
        ),
{
    let spans = header_spans(text);
    let ghost f = |role: SynRole| header_role_color(col_key, col_value, col_punct, role);
    let mut out: Vec<Colored> = Vec::new();
    let mut i: usize = 0;
    while i < spans.len()
        invariant
            i <= spans@.len(),
            colored_views(out@) == paint(span_views(spans@).take(i as int), f),
            f == (|role: SynRole| header_role_color(col_key, col_value, col_punct, role)),
        decreases spans@.len() - i,
    {
        let c = header_color(col_key, col_value, col_punct, spans[i].role);
        let ghost before = colored_views(out@);
        out.push(Colored { text: spans[i].text.clone(), color: c });
        proof {
            assert(span_views(spans@)[i as int] == spans@[i as int]@);
            assert(f(spans@[i as int].role) == c);
            assert(colored_views(out@) =~= before.push((spans@[i as int].text@, c)));
            assert(paint(span_views(spans@).take(i + 1), f) =~= paint(
                span_views(spans@).take(i as int),
                f,
            ).push((spans@[i as int].text@, c)));
        }
        i = i + 1;
    }
    assert(span_views(spans@).take(spans@.len() as int) =~= span_views(spans@));
    out
}

// ── Highlighting keeps the text ─────────────────────────────────────────────

/// The text of spans, one after the other.
pub open spec fn span_text(sp: Seq<(Seq<char>, SynRole)>) -> Seq<char>
    decreases sp.len(),
{
    if sp.len() == 0 {
        Seq::empty()
    } else {
        span_text(sp.drop_last()) + sp.last().0
    }
}

proof fn lemma_span_text_concat(a: Seq<(Seq<char>, SynRole)>, b: Seq<(Seq<char>, SynRole)>)
    ensures
        span_text(a + b) == span_text(a) + span_text(b),
    decreases b.len(),
{
    if b.len() == 0 {
        assert(a + b == a);
    } else {
        lemma_span_text_concat(a, b.drop_last());
        assert((a + b).drop_last() == a + b.drop_last());
        assert((a + b).last() == b.last());
    }
}

proof fn lemma_first_index(s: Seq<char>, c: char, i: int)
    requires
        0 <= i,
    ensures
        first_index(s, c, i) matches Some(k) ==> i <= k < s.len() && s[k] == c,
    decreases s.len() - i,
{
    if i < s.len() && s[i] != c {
        lemma_first_index(s, c, i + 1);
    }
}

proof fn lemma_line_spans_text(l: Seq<char>)
    ensures
        span_text(header_line_spans(l)) == l,
{
    let sp = header_line_spans(l);
    lemma_first_index(l, ':', 0);
    reveal_with_fuel(span_text, 4);
    if l.len() >= 4 && l.take(4) == http_prefix() {
        assert(sp == seq![(l, SynRole::Key)]);
    } else {
        match first_index(l, ':', 0) {
            Some(k) => {
                assert(l.take(k) + seq![':'] + l.skip(k + 1) =~= l);
            },
            None => {},
        }
    }
}

proof fn lemma_join_last_grow(ps: Seq<Seq<char>>, t: Seq<char>, sep: Seq<char>)
    requires
        ps.len() >= 1,
    ensures
        join(ps.drop_last().push(ps.last() + t), sep) == join(ps, sep) + t,
{
    let q = ps.drop_last().push(ps.last() + t);
    assert(q.drop_last() == ps.drop_last());
    if ps.len() == 1 {
        assert(q.len() == 1);
    }
}

/// Cutting text at line feeds and joining the pieces with line feeds gives
/// the text back.
pub proof fn lemma_split_join(s: Seq<char>)
    ensures
        join(split_lines(s), seq!['\n']) == s,
    decreases s.len(),
{
    if s.len() == 0 {
        assert(split_lines(s) =~= seq![Seq::<char>::empty()]);
    } else {
        let p = s.drop_last();
        let c = s.last();
        lemma_split_join(p);
        let st = line_cut(p);
        assert(line_cut(s) == line_step(st, c));
        let sp = split_lines(p);
        assert(sp == st.done.push(st.cur));
        if c == '\n' {
            assert(split_lines(s) == sp.push(Seq::<char>::empty()));
            assert(split_lines(s).drop_last() == sp);
            assert(join(split_lines(s), seq!['\n']) == join(sp, seq!['\n']) + seq!['\n'] + Seq::<
                char,
            >::empty());
        } else {
            assert(sp.drop_last() =~= st.done);
            assert(sp.last() == st.cur);
            assert(st.cur.push(c) =~= st.cur + seq![c]);
            assert(split_lines(s) == sp.drop_last().push(sp.last() + seq![c]));
            lemma_join_last_grow(sp, seq![c], seq!['\n']);
        }
        assert(p.push(c) == s);
        assert(join(sp, seq!['\n']) + seq![c] == p.push(c));
    }
}

proof fn lemma_lines_spans_text(ls: Seq<Seq<char>>)
    ensures
        span_text(header_lines_spans(ls)) == join(ls, seq!['\n']),
    decreases ls.len(),
{
    if ls.len() == 1 {
        lemma_line_spans_text(ls[0]);
    } else if ls.len() > 1 {
        lemma_lines_spans_text(ls.drop_last());
        let a = header_lines_spans(ls.drop_last());
        let nl = seq![(seq!['\n'], SynRole::Punct)];
        lemma_span_text_concat(a + nl, header_line_spans(ls.last()));
        lemma_span_text_concat(a, nl);
        reveal_with_fuel(span_text, 2);
        assert(nl.drop_last() =~= Seq::<(Seq<char>, SynRole)>::empty());
        lemma_line_spans_text(ls.last());
    }
}

/// Highlighting header text only colours it: the spans' texts, one after
/// the other, are the text.
pub proof fn lemma_header_spans_keep_text(text: Seq<char>)
    ensures
        span_text(header_scan(text)) == text,
{
    lemma_lines_spans_text(split_lines(text));
    lemma_split_join(text);
}


proof fn lemma_ascii_scalar(c: char)
    requires
        (c as u32) < 128,
    ensures
        encode_scalar(c as u32).len() == 1,
        encode_scalar(c as u32)[0] as u32 == c as u32,
{
    let u = c as u32;
    assert(((u & 0x7F) as u8) as u32 == u) by (bit_vector)
        requires
            u < 128u32,
    ;
}

proof fn lemma_ascii_encode(cs: Seq<char>)
    requires
        is_ascii_text(cs),
    ensures
        encode_utf8(cs).len() == cs.len(),
        forall|k: int| 0 <= k < cs.len() ==> #[trigger] encode_utf8(cs)[k] as u32 == cs[k] as u32,
    decreases cs.len(),
{
    if cs.len() > 0 {
        let r = cs.drop_first();
        assert forall|i: int| 0 <= i < r.len() implies (#[trigger] r[i] as u32) < 128 by {
            assert(r[i] == cs[i + 1]);
        }
        lemma_ascii_encode(r);
        assert((cs[0] as u32) < 128);
        lemma_ascii_scalar(cs[0]);
        assert forall|k: int| 0 <= k < cs.len() implies #[trigger] encode_utf8(cs)[k] as u32
            == cs[k] as u32 by {
            if k > 0 {
                assert(cs[k] == r[k - 1]);
            }
        }
    }
}

proof fn lemma_ascii_boundary(cs: Seq<char>, i: int)
    requires
        is_ascii_text(cs),
        0 <= i <= cs.len(),
    ensures
        is_char_boundary(encode_utf8(cs), i),
{
    lemma_ascii_encode(cs);
    let bs = encode_utf8(cs);
    vstd::utf8::encode_utf8_valid_utf8(cs);
    if i == cs.len() {
        vstd::utf8::is_char_boundary_start_end_of_seq(bs);
    } else {
        vstd::utf8::is_char_boundary_iff_not_is_continuation_byte(bs, i);
        assert(bs[i] as u32 == cs[i] as u32);
        assert((cs[i] as u32) < 128);
    }
}

proof fn lemma_ascii_word(cs: Seq<char>, i: int, w: Seq<u8>, ws: Seq<char>)
    requires
        is_ascii_text(cs),
        bytes_at(encode_utf8(cs), i, w),
        ws.len() == w.len(),
        forall|k: int| 0 <= k < w.len() ==> #[trigger] ws[k] as u32 == w[k] as u32,
    ensures
        i + ws.len() <= cs.len(),
        cs.subrange(i, i + ws.len()) == ws,
{
    lemma_ascii_encode(cs);
    let bs = encode_utf8(cs);
    assert forall|k: int| 0 <= k < ws.len() implies cs.subrange(i, i + ws.len())[k] == ws[k] by {
        assert(bs.subrange(i, i + w.len())[k] == w[k]);
        assert(bs[i + k] as u32 == cs[i + k] as u32);
        assert(ws[k] as u32 == w[k] as u32);
        vstd::utf8::char_u32_cast(ws[k], ws[k] as u32);
        vstd::utf8::char_u32_cast(cs[i + k], cs[i + k] as u32);
    }
    assert(cs.subrange(i, i + ws.len()) =~= ws);
}

proof fn lemma_prepend_text(x: (Seq<char>, SynRole), r: Option<Seq<(Seq<char>, SynRole)>>)
    requires
        r is Some,
    ensures
        prepend(x, r) is Some,
        span_text(prepend(x, r)->0) == x.0 + span_text(r->0),
{
    let rest = r->0;
    lemma_span_text_concat(seq![x], rest);
    reveal_with_fuel(span_text, 2);
    assert(seq![x].drop_last() =~= Seq::<(Seq<char>, SynRole)>::empty());
}

proof fn lemma_scan_step(cs: Seq<char>, i: int, e: int, x: (Seq<char>, SynRole), stack: Seq<bool>)
    requires
        is_ascii_text(cs),
        0 <= i < e <= cs.len(),
        x.0 == cs.subrange(i, e),
        json_scan(cs, e, stack) is Some,
        span_text(json_scan(cs, e, stack)->0) == cs.subrange(e, cs.len() as int),
    ensures
        span_text(prepend(x, json_scan(cs, e, stack))->0) == cs.subrange(i, cs.len() as int),
{
    lemma_prepend_text(x, json_scan(cs, e, stack));
    assert(cs.subrange(i, e) + cs.subrange(e, cs.len() as int) =~= cs.subrange(i, cs.len() as int));
}

proof fn lemma_scan_text(cs: Seq<char>, i: int, stack: Seq<bool>)
    requires
        is_ascii_text(cs),
        0 <= i <= cs.len(),
        json_scan(cs, i, stack) is Some,
    ensures
        span_text(json_scan(cs, i, stack)->0) == cs.subrange(i, cs.len() as int),
    decreases cs.len() + 5 - i,
{
    if i == cs.len() {
        assert(cs.subrange(i, i) =~= Seq::<char>::empty());
    } else {
        let c = cs[i];
        assert(seq![c] =~= cs.subrange(i, i + 1));
        lemma_ends_grow(cs, i);
        lemma_ends_grow(cs, i + 1);
        lemma_ascii_encode(cs);
        if c == '{' {
            lemma_scan_text(cs, i + 1, stack.push(true));
            lemma_scan_step(cs, i, i + 1, (seq![c], SynRole::Punct), stack.push(true));
        } else if c == '[' {
            lemma_scan_text(cs, i + 1, stack.push(false));
            lemma_scan_step(cs, i, i + 1, (seq![c], SynRole::Punct), stack.push(false));
        } else if c == '}' || c == ']' {
            let st = if stack.len() > 0 {
                stack.drop_last()
            } else {
                stack
            };
            lemma_scan_text(cs, i + 1, st);
            lemma_scan_step(cs, i, i + 1, (seq![c], SynRole::Punct), st);
        } else if c == ':' || c == ',' {
            lemma_scan_text(cs, i + 1, stack);
            lemma_scan_step(cs, i, i + 1, (seq![c], SynRole::Punct), stack);
        } else if c == '"' {
            let j = str_end(cs, i + 1);
            let e = if j < cs.len() {
                j + 1
            } else {
                j
            };
            let k = ws_end(cs, e);
            let key = in_object(stack) && k < cs.len() && cs[k] == ':';
            let role = if key {
                SynRole::Key
            } else {
                SynRole::Str
            };
            lemma_scan_text(cs, e, stack);
            lemma_scan_step(cs, i, e, (cs.subrange(i, e), role), stack);
        } else if is_digit(c) || c == '-' {
            let e = num_end(cs, i + 1);
            lemma_scan_text(cs, e, stack);
            lemma_scan_step(cs, i, e, (cs.subrange(i, e), SynRole::Num), stack);
        } else if (c == 't' || c == 'f') && (bytes_at(encode_utf8(cs), i, true_bytes()) || bytes_at(
            encode_utf8(cs),
            i,
            false_bytes(),
        )) {
            lemma_ascii_boundary(cs, i);
            assert(encode_utf8(cs)[i] as u32 == c as u32);
            if c == 't' {
                let w = seq!['t', 'r', 'u', 'e'];
                if bytes_at(encode_utf8(cs), i, false_bytes()) {
                    assert(encode_utf8(cs).subrange(i, i + 5)[0] == false_bytes()[0]);
                }
                lemma_ascii_word(cs, i, true_bytes(), w);
                lemma_scan_text(cs, i + 4, stack);
                lemma_scan_step(cs, i, i + 4, (w, SynRole::Bool), stack);
            } else {
                let w = seq!['f', 'a', 'l', 's', 'e'];
                if bytes_at(encode_utf8(cs), i, true_bytes()) {
                    assert(encode_utf8(cs).subrange(i, i + 4)[0] == true_bytes()[0]);
                }
                lemma_ascii_word(cs, i, false_bytes(), w);
                lemma_scan_text(cs, i + 5, stack);
                lemma_scan_step(cs, i, i + 5, (w, SynRole::Bool), stack);
            }
        } else if c == 'n' && bytes_at(encode_utf8(cs), i, null_bytes()) {
            lemma_ascii_boundary(cs, i);
            let w = seq!['n', 'u', 'l', 'l'];
            lemma_ascii_word(cs, i, null_bytes(), w);
            lemma_scan_text(cs, i + 4, stack);
            lemma_scan_step(cs, i, i + 4, (w, SynRole::Null), stack);
        } else {
            lemma_ascii_boundary(cs, i);
            let e0 = other_end(cs, i);
            let e = if e0 == i {
                i + 1
            } else {
                e0
            };
            lemma_scan_text(cs, e, stack);
            lemma_scan_step(cs, i, e, (cs.subrange(i, e), SynRole::Punct), stack);
        }
    }
}

/// Highlighting JSON text made of ASCII characters only colours it: where
/// the spans exist, their texts, one after the other, are the text.
pub proof fn lemma_json_spans_keep_text(text: Seq<char>)
    requires
        is_ascii_text(text),
        json_scan(text, 0, Seq::empty()) is Some,
    ensures
        span_text(json_scan(text, 0, Seq::empty())->0) == text,
{
    lemma_scan_text(text, 0, Seq::empty());
    assert(text.subrange(0, text.len() as int) =~= text);
}

proof fn lemma_str_end_plain(cs: Seq<char>, m: int, j: int)
    requires
        0 <= m <= j < cs.len(),
        cs[j] == '"',
        forall|t: int| m <= t < j ==> cs[t] != '"' && cs[t] != '\\',
    ensures
        str_end(cs, m) == j,
    decreases j - m,
{
    if m < j {
        lemma_str_end_plain(cs, m + 1, j);
    }
}

proof fn lemma_ws_end_run(cs: Seq<char>, m: int, k: int)
    requires
        0 <= m <= k < cs.len(),
        !is_ascii_ws(cs[k]),
        forall|t: int| m <= t < k ==> is_ascii_ws(cs[t]),
    ensures
        ws_end(cs, m) == k,
    decreases k - m,
{
    if m < k {
        lemma_ws_end_run(cs, m + 1, k);
    }
}

/// A string is a key exactly when the innermost bracket open before it is
/// a `{` and the next character after it that is not ASCII white space is
/// a `:`, however deep it lies: for a string from `i` to `j` (no quote or
/// backslash inside) followed by blanks and a `:` at `k`, its span has the
/// key role when the innermost open bracket is `{`, and the string role
/// when it is `[` or there is none.
pub proof fn lemma_json_key_role(cs: Seq<char>, i: int, j: int, k: int, stack: Seq<bool>)
    requires
        0 <= i < j < k < cs.len(),
        cs[i] == '"',
        cs[j] == '"',
        forall|t: int| i < t < j ==> cs[t] != '"' && cs[t] != '\\',
        forall|t: int| j < t < k ==> is_ascii_ws(cs[t]),
        cs[k] == ':',
        json_scan(cs, i, stack) is Some,
    ensures
        json_scan(cs, i, stack)->0.len() > 0,
        json_scan(cs, i, stack)->0[0] == (
            cs.subrange(i, j + 1),
            if stack.len() > 0 && stack[stack.len() - 1] {
                SynRole::Key
            } else {
                SynRole::Str
            },
        ),
{
    lemma_str_end_plain(cs, i + 1, j);
    lemma_ws_end_run(cs, j + 1, k);
    lemma_ends_grow(cs, i + 1);
    let role = if stack.len() > 0 && stack[stack.len() - 1] {
        SynRole::Key
    } else {
        SynRole::Str
    };
    let x = (cs.subrange(i, j + 1), role);
    let rest = json_scan(cs, j + 1, stack);
    assert(json_scan(cs, i, stack) == prepend(x, rest));
    assert((seq![x] + rest->0)[0] == x);
}

} // verus!

//! Requests: the HTTP method, a saved request, and its text form as a curl
//! command line (written by `to_curl`, read back by `from_curl`).
use vstd::prelude::*;
use vstd::string::StringExecFns;

use crate::json::{opt_view, pretty_text, serde_parse, serde_print};
use crate::text::{
    chars_of, first_index, first_index_of, join, join_chars, replace_all, replace_chars, string_of, trim,
    trim_chars, trim_str, trimmed_lines, trimmed_lines_of, views,
};

verus! {

/// An HTTP request method.
#[derive(Clone, Copy, Debug, PartialEq, Eq, Structural)]
pub enum Method {
    Get,
    Post,
    Put,
    Patch,
    Delete,
    Head,
    Options,
}

/// The upper-case name of a method.
pub open spec fn method_name(m: Method) -> Seq<char> {
    match m {
        Method::Get => seq!['G', 'E', 'T'],
        Method::Post => seq!['P', 'O', 'S', 'T'],
        Method::Put => seq!['P', 'U', 'T'],
        Method::Patch => seq!['P', 'A', 'T', 'C', 'H'],
        Method::Delete => seq!['D', 'E', 'L', 'E', 'T', 'E'],
        Method::Head => seq!['H', 'E', 'A', 'D'],
        Method::Options => seq!['O', 'P', 'T', 'I', 'O', 'N', 'S'],
    }
}

/// The method whose name is exactly `s`, if any.
pub open spec fn method_named(s: Seq<char>) -> Option<Method> {
    if s == method_name(Method::Get) {
        Some(Method::Get)
    } else if s == method_name(Method::Post) {
        Some(Method::Post)
    } else if s == method_name(Method::Put) {
        Some(Method::Put)
    } else if s == method_name(Method::Patch) {
        Some(Method::Patch)
    } else if s == method_name(Method::Delete) {
        Some(Method::Delete)
    } else if s == method_name(Method::Head) {
        Some(Method::Head)
    } else if s == method_name(Method::Options) {
        Some(Method::Options)
    } else {
        None
    }
}

/// Whether two character sequences are equal.
pub fn eq_chars(a: &[char], b: &[char]) -> (r: bool)
    ensures
        r == (a@ == b@),
{
    if a.len() != b.len() {
        return false;
    }
    let mut i: usize = 0;
    while i < a.len()
        invariant
            a@.len() == b@.len(),
            i <= a@.len(),
            forall|j: int| 0 <= j < i ==> a@[j] == b@[j],
        decreases a@.len() - i,
    {
        if a[i] != b[i] {
            return false;
        }
        i = i + 1;
    }
    assert(a@ == b@);
    true
}

impl Method {
    /// Every method, in the order a method picker lists them.
    pub const ALL: [Method; 7] = [
        Method::Get,
        Method::Post,
        Method::Put,
        Method::Patch,
        Method::Delete,
        Method::Head,
        Method::Options,
    ];

    /// The method's upper-case name.
    pub fn as_str(&self) -> (r: &'static str)
        ensures
            r@ == method_name(*self),
    {
        proof {
            reveal_strlit("GET");
            reveal_strlit("POST");
            reveal_strlit("PUT");
            reveal_strlit("PATCH");
            reveal_strlit("DELETE");
            reveal_strlit("HEAD");
            reveal_strlit("OPTIONS");
        }
        match self {
            Method::Get => "GET",
            Method::Post => "POST",
            Method::Put => "PUT",
            Method::Patch => "PATCH",
            Method::Delete => "DELETE",
            Method::Head => "HEAD",
            Method::Options => "OPTIONS",
        }
    }

    /// The method's name as characters.
    pub fn name_chars(&self) -> (r: Vec<char>)
        ensures
            r@ == method_name(*self),
    {
        match self {
            Method::Get => vec!['G', 'E', 'T'],
            Method::Post => vec!['P', 'O', 'S', 'T'],
            Method::Put => vec!['P', 'U', 'T'],
            Method::Patch => vec!['P', 'A', 'T', 'C', 'H'],
            Method::Delete => vec!['D', 'E', 'L', 'E', 'T', 'E'],
            Method::Head => vec!['H', 'E', 'A', 'D'],
            Method::Options => vec!['O', 'P', 'T', 'I', 'O', 'N', 'S'],
        }
    }

    /// The method named exactly by `s` (upper case), if there is one.
    pub fn from_chars(s: &[char]) -> (r: Option<Method>)
        ensures
            r == method_named(s@),
    {
        let all = Method::ALL;
        let mut i: usize = 0;
        while i < 7
            invariant
                all == Method::ALL,
                i <= 7,
                forall|j: int| 0 <= j < i ==> s@ != method_name(#[trigger] Method::ALL[j]),
            decreases 7 - i,
        {
            let m = all[i];
            let name = m.name_chars();
            if eq_chars(s, name.as_slice()) {
                return Some(m);
            }
            i = i + 1;
        }
        assert(s@ != method_name(Method::ALL[0]));
        assert(s@ != method_name(Method::ALL[1]));
        assert(s@ != method_name(Method::ALL[2]));
        assert(s@ != method_name(Method::ALL[3]));
        assert(s@ != method_name(Method::ALL[4]));
        assert(s@ != method_name(Method::ALL[5]));
        assert(s@ != method_name(Method::ALL[6]));
        None
    }

    /// The method named exactly by `s` (upper case), if there is one.
    pub fn from_name(s: &str) -> (r: Option<Method>)
        ensures
            r == method_named(s@),
    {
        let v = chars_of(s);
        Method::from_chars(v.as_slice())
    }
}

impl std::str::FromStr for Method {
    type Err = ();

    fn from_str(s: &str) -> (r: Result<Method, ()>)
        ensures
            match r {
                Ok(m) => method_named(s@) == Some(m),
                Err(_) => method_named(s@) is None,
            },
    {
        match Method::from_name(s) {
            Some(m) => Ok(m),
            None => Err(()),
        }
    }
}

// ── Shell-style tokenizing ──────────────────────────────────────────────────

/// Where the tokenizer stands: outside quotes, inside single or double
/// quotes, or just after a backslash (inside double quotes or outside any).
#[derive(Clone, Copy, Debug, PartialEq, Eq, Structural)]
pub enum TokMode {
    Plain,
    Single,
    Double,
    DoubleEscape,
    Escape,
}

/// The tokenizer's state: its mode, the token being read and the tokens
/// finished so far.
pub struct TokState {
    pub mode: TokMode,
    pub cur: Seq<char>,
    pub toks: Seq<Seq<char>>,
}

/// `toks` followed by `cur` when `cur` is not empty.
pub open spec fn flush(toks: Seq<Seq<char>>, cur: Seq<char>) -> Seq<Seq<char>> {
    if cur.len() > 0 {
        toks.push(cur)
    } else {
        toks
    }
}

/// One character read by the tokenizer. Outside quotes a space or tab ends
/// the token (an empty token is never emitted), quotes open a quoted run
/// that joins the current token, and a backslash takes the next character
/// as it is. Inside single quotes every character but `'` is literal; inside
/// double quotes a backslash takes the next character as it is.
pub open spec fn tok_step(st: TokState, c: char) -> TokState {
    match st.mode {
        TokMode::Plain => if c == ' ' || c == '\t' {
            TokState { mode: TokMode::Plain, cur: Seq::empty(), toks: flush(st.toks, st.cur) }
        } else if c == '\'' {
            TokState { mode: TokMode::Single, ..st }
        } else if c == '"' {
            TokState { mode: TokMode::Double, ..st }
        } else if c == '\\' {
            TokState { mode: TokMode::Escape, ..st }
        } else {
            TokState { cur: st.cur.push(c), ..st }
        },
        TokMode::Single => if c == '\'' {
            TokState { mode: TokMode::Plain, ..st }
        } else {
            TokState { cur: st.cur.push(c), ..st }
        },
        TokMode::Double => if c == '"' {
            TokState { mode: TokMode::Plain, ..st }
        } else if c == '\\' {
            TokState { mode: TokMode::DoubleEscape, ..st }
        } else {
            TokState { cur: st.cur.push(c), ..st }
        },
        TokMode::DoubleEscape => TokState { mode: TokMode::Double, cur: st.cur.push(c), toks: st.toks },
        TokMode::Escape => TokState { mode: TokMode::Plain, cur: st.cur.push(c), toks: st.toks },
    }
}

pub open spec fn tok_start() -> TokState {
    TokState { mode: TokMode::Plain, cur: Seq::empty(), toks: Seq::empty() }
}

pub open spec fn tok_f() -> spec_fn(TokState, char) -> TokState {
    |st: TokState, c: char| tok_step(st, c)
}

/// The tokenizer's state after reading `s` from `st`.
pub open spec fn tok_run(st: TokState, s: Seq<char>) -> TokState {
    s.fold_left(st, tok_f())
}

/// The tokens of `s`, split as a POSIX shell would split words (without
/// expansions): the last token is flushed at the end of input, and an
/// unterminated quote or a trailing backslash just ends the input.
pub open spec fn tokenize(s: Seq<char>) -> Seq<Seq<char>> {
    let st = tok_run(tok_start(), s);
    flush(st.toks, st.cur)
}

/// The tokens of `s` (see `tokenize`).
pub fn tokenize_chars(s: &[char]) -> (r: Vec<Vec<char>>)
    ensures
        views(r@) == tokenize(s@),
{
    let n = s.len();
    let mut mode = TokMode::Plain;
    let mut cur: Vec<char> = Vec::new();
    let mut toks: Vec<Vec<char>> = Vec::new();
    let mut i: usize = 0;
    assert(views(toks@) =~= Seq::<Seq<char>>::empty());
    assert(s@.take(0) =~= Seq::<char>::empty());
    while i < n
        invariant
            n == s@.len(),
            i <= n,
            tok_run(tok_start(), s@.take(i as int)) == (TokState {
                mode: mode,
                cur: cur@,
                toks: views(toks@),
            }),
        decreases n - i,
    {
        let c = s[i];
        let ghost before = TokState { mode: mode, cur: cur@, toks: views(toks@) };
        proof {
            assert(s@.take(i + 1).drop_last() == s@.take(i as int));
            assert(s@.take(i + 1).last() == c);
            assert(tok_run(tok_start(), s@.take(i + 1)) == tok_step(before, c));
        }
        match mode {
            TokMode::Plain => {
                if c == ' ' || c == '\t' {
                    if cur.len() > 0 {
                        let ghost old_toks = toks@;
                        toks.push(cur);
                        assert(views(toks@) == views(old_toks).push(before.cur));
                    }
                    cur = Vec::new();
                } else if c == '\'' {
                    mode = TokMode::Single;
                } else if c == '"' {
                    mode = TokMode::Double;
                } else if c == '\\' {
                    mode = TokMode::Escape;
                } else {
                    cur.push(c);
                }
            },
            TokMode::Single => {
                if c == '\'' {
                    mode = TokMode::Plain;
                } else {
                    cur.push(c);
                }
            },
            TokMode::Double => {
                if c == '"' {
                    mode = TokMode::Plain;
                } else if c == '\\' {
                    mode = TokMode::DoubleEscape;
                } else {
                    cur.push(c);
                }
            },
            TokMode::DoubleEscape => {
                cur.push(c);
                mode = TokMode::Double;
            },
            TokMode::Escape => {
                cur.push(c);
                mode = TokMode::Plain;
            },
        }
        i = i + 1;
    }
    assert(s@.take(n as int) == s@);
    if cur.len() > 0 {
        let ghost old_toks = toks@;
        let ghost last = cur@;
        toks.push(cur);
        assert(views(toks@) == views(old_toks).push(last));
    }
    toks
}

/// Splits `input` into shell-style tokens (see `tokenize`).
pub fn shell_tokenize(input: &str) -> (r: Vec<String>)
    ensures
        r@.map_values(|t: String| t@) == tokenize(input@),
{
    let v = chars_of(input);
    let toks = tokenize_chars(v.as_slice());
    let mut r: Vec<String> = Vec::new();
    let mut i: usize = 0;
    while i < toks.len()
        invariant
            i <= toks@.len(),
            r@.map_values(|t: String| t@) == views(toks@).take(i as int),
        decreases toks@.len() - i,
    {
        let ghost old_r = r@;
        let t = string_of(toks[i].as_slice());
        r.push(t);
        assert(r@.map_values(|t: String| t@) == old_r.map_values(|t: String| t@).push(t@));
        assert(views(toks@).take(i + 1) == views(toks@).take(i as int).push(toks@[i as int]@));
        i = i + 1;
    }
    assert(views(toks@).take(toks@.len() as int) == views(toks@));
    r
}

// ── Saved requests and curl commands ────────────────────────────────────────

/// A request as the user composed it: method, URL, header lines and body.
pub struct SavedRequest {
    pub method: Method,
    pub url: String,
    pub headers: String,
    pub body: String,
}

/// The contents of a `SavedRequest`.
pub struct RequestView {
    pub method: Method,
    pub url: Seq<char>,
    pub headers: Seq<char>,
    pub body: Seq<char>,
}

impl View for SavedRequest {
    type V = RequestView;

    open spec fn view(&self) -> RequestView {
        RequestView { method: self.method, url: self.url@, headers: self.headers@, body: self.body@ }
    }
}

/// How a character is written inside single quotes: a quote closes the
/// quoted run, is given escaped, and a new run opens (`'\''`).
pub open spec fn quote_escaped(c: char) -> Seq<char> {
    if c == '\'' {
        seq!['\'', '\\', '\'', '\'']
    } else {
        seq![c]
    }
}

/// `s` with every single quote written as `'\''`.
pub open spec fn escape_quotes(s: Seq<char>) -> Seq<char>
    decreases s.len(),
{
    if s.len() == 0 {
        Seq::empty()
    } else {
        escape_quotes(s.drop_last()) + quote_escaped(s.last())
    }
}

/// `prefix` followed by `v` in single quotes.
pub open spec fn quoted(prefix: Seq<char>, v: Seq<char>) -> Seq<char> {
    prefix + seq!['\''] + escape_quotes(v) + seq!['\'']
}

/// The lines that are not empty, in order.
pub open spec fn non_empty_lines(ls: Seq<Seq<char>>) -> Seq<Seq<char>>
    decreases ls.len(),
{
    if ls.len() == 0 {
        Seq::empty()
    } else if ls.last().len() > 0 {
        non_empty_lines(ls.drop_last()).push(ls.last())
    } else {
        non_empty_lines(ls.drop_last())
    }
}

/// The header lines of a request: its lines, trimmed, the empty ones left out.
pub open spec fn header_lines(h: Seq<char>) -> Seq<Seq<char>> {
    non_empty_lines(trimmed_lines(h))
}

pub open spec fn head_part(m: Method) -> Seq<char> {
    seq!['c', 'u', 'r', 'l', ' ', '-', 'X', ' '] + method_name(m)
}

pub open spec fn header_part(l: Seq<char>) -> Seq<char> {
    quoted(seq![' ', ' ', '-', 'H', ' '], l)
}

pub open spec fn body_part(b: Seq<char>) -> Seq<char> {
    quoted(seq![' ', ' ', '-', 'd', ' '], b)
}

pub open spec fn url_part(u: Seq<char>) -> Seq<char> {
    quoted(seq![' ', ' '], u)
}

/// The lines of the curl command for `r`: the method, one `-H` line per
/// header line, a `-d` line when the body is not empty, and the URL.
pub open spec fn curl_parts(r: RequestView) -> Seq<Seq<char>> {
    seq![head_part(r.method)] + header_lines(r.headers).map_values(|l: Seq<char>| header_part(l))
        + (if r.body.len() > 0 {
        seq![body_part(r.body)]
    } else {
        Seq::empty()
    }) + seq![url_part(r.url)]
}

/// The curl command for `r`, its lines continued with ` \`.
pub open spec fn curl_command(r: RequestView) -> Seq<char> {
    join(curl_parts(r), seq![' ', '\\', '\n'])
}

/// `s` with each single quote escaped as `'\''`.
pub fn escape_quotes_chars(s: &[char]) -> (r: Vec<char>)
    ensures
        r@ == escape_quotes(s@),
{
    let mut r: Vec<char> = Vec::new();
    let mut i: usize = 0;
    while i < s.len()
        invariant
            i <= s@.len(),
            r@ == escape_quotes(s@.take(i as int)),
        decreases s@.len() - i,
    {
        proof {
            assert(s@.take(i + 1).drop_last() == s@.take(i as int));
        }
        if s[i] == '\'' {
            r.push('\'');
            r.push('\\');
            r.push('\'');
            r.push('\'');
        } else {
            r.push(s[i]);
        }
        i = i + 1;
    }
    assert(s@.take(s@.len() as int) == s@);
    r
}

/// `prefix` followed by `v` in single quotes.
pub fn quoted_chars(prefix: Vec<char>, v: &[char]) -> (r: Vec<char>)
    ensures
        r@ == quoted(prefix@, v@),
{
    let mut r = prefix;
    r.push('\'');
    let mut e = escape_quotes_chars(v);
    r.append(&mut e);
    r.push('\'');
    r
}

/// What a curl command line sets, in the order the options come.
pub struct CurlOpts {
    pub method: Method,
    pub url: Seq<char>,
    pub headers: Seq<Seq<char>>,
    pub body: Seq<char>,
}

pub open spec fn is_option(t: Seq<char>, a: Seq<char>, b: Seq<char>) -> bool {
    t == a || t == b
}

/// Reads the tokens from index `i` on into `o`: `-X`/`--request` sets the
/// method (an unknown name gives GET), `-H`/`--header` adds a header line,
/// `-d`/`--data`/`--data-raw` sets the body, each taking the next token; a
/// token that does not start with `-` is the URL (the last one wins); any
/// other option is skipped alone.
pub open spec fn parse_opts(toks: Seq<Seq<char>>, i: int, o: CurlOpts) -> CurlOpts
    decreases toks.len() - i,
{
    if i < 0 || i >= toks.len() {
        o
    } else {
        let t = toks[i];
        if is_option(t, seq!['-', 'X'], seq!['-', '-', 'r', 'e', 'q', 'u', 'e', 's', 't']) {
            if i + 1 < toks.len() {
                let m = match method_named(toks[i + 1]) {
                    Some(m) => m,
                    None => Method::Get,
                };
                parse_opts(toks, i + 2, CurlOpts { method: m, ..o })
            } else {
                o
            }
        } else if is_option(t, seq!['-', 'H'], seq!['-', '-', 'h', 'e', 'a', 'd', 'e', 'r']) {
            if i + 1 < toks.len() {
                parse_opts(toks, i + 2, CurlOpts { headers: o.headers.push(toks[i + 1]), ..o })
            } else {
                o
            }
        } else if t == seq!['-', 'd'] || t == seq!['-', '-', 'd', 'a', 't', 'a'] || t == seq![
            '-',
            '-',
            'd',
            'a',
            't',
            'a',
            '-',
            'r',
            'a',
            'w',
        ] {
            if i + 1 < toks.len() {
                parse_opts(toks, i + 2, CurlOpts { body: toks[i + 1], ..o })
            } else {
                o
            }
        } else if !(t.len() > 0 && t[0] == '-') {
            parse_opts(toks, i + 1, CurlOpts { url: t, ..o })
        } else {
            parse_opts(toks, i + 1, o)
        }
    }
}

/// The single line a curl command text is read as: its lines trimmed and
/// joined with spaces, each ` \ ` (a line continuation) then made a space.
pub open spec fn curl_line(text: Seq<char>) -> Seq<char> {
    replace_all(join(trimmed_lines(text), seq![' ']), seq![' ', '\\', ' '], seq![' '])
}

pub open spec fn opts_start() -> CurlOpts {
    CurlOpts { method: Method::Get, url: Seq::empty(), headers: Seq::empty(), body: Seq::empty() }
}

/// The request a curl command text describes: none unless its first token
/// is `curl`; otherwise the options read from the tokens after it, the
/// header lines joined with line feeds.
pub open spec fn request_of_curl(text: Seq<char>) -> Option<RequestView> {
    let toks = tokenize(curl_line(text));
    if toks.len() > 0 && toks[0] == seq!['c', 'u', 'r', 'l'] {
        let o = parse_opts(toks, 1, opts_start());
        Some(RequestView { method: o.method, url: o.url, headers: join(o.headers, seq!['\n']), body: o.body })
    } else {
        None
    }
}

impl SavedRequest {
    /// The request as a curl command, one option per line.
    pub fn to_curl(&self) -> (r: String)
        ensures
            r@ == curl_command(self@),
    {
        let mut parts: Vec<Vec<char>> = Vec::new();
        let mut head = vec!['c', 'u', 'r', 'l', ' ', '-', 'X', ' '];
        let mut name = self.method.name_chars();
        head.append(&mut name);
        parts.push(head);
        let hv = chars_of(self.headers.as_str());
        let lines = trimmed_lines_of(hv.as_slice());
        let ghost hp = |l: Seq<char>| header_part(l);
        let mut i: usize = 0;
        assert(views(lines@).take(0) =~= Seq::<Seq<char>>::empty());
        assert(views(parts@) =~= seq![head_part(self.method)]);
        while i < lines.len()
            invariant
                i <= lines@.len(),
                views(lines@) == trimmed_lines(self.headers@),
                hp == (|l: Seq<char>| header_part(l)),
                views(parts@) == seq![head_part(self.method)] + non_empty_lines(
                    views(lines@).take(i as int),
                ).map_values(hp),
            decreases lines@.len() - i,
        {
            let ghost old_parts = views(parts@);
            let ghost pre = non_empty_lines(views(lines@).take(i as int));
            proof {
                assert(views(lines@).take(i + 1).drop_last() == views(lines@).take(i as int));
                assert(views(lines@).take(i + 1).last() == lines@[i as int]@);
            }
            if lines[i].len() > 0 {
                let part = quoted_chars(vec![' ', ' ', '-', 'H', ' '], lines[i].as_slice());
                parts.push(part);
                proof {
                    assert(pre.push(lines@[i as int]@).map_values(hp) =~= pre.map_values(hp).push(
                        header_part(lines@[i as int]@),
                    ));
                    assert(views(parts@) =~= old_parts.push(part@));
                }
            }
            i = i + 1;
        }
        assert(views(lines@).take(lines@.len() as int) == views(lines@));
        let ghost with_headers = views(parts@);
        let bv = chars_of(self.body.as_str());
        if bv.len() > 0 {
            let part = quoted_chars(vec![' ', ' ', '-', 'd', ' '], bv.as_slice());
            parts.push(part);
            assert(views(parts@) =~= with_headers.push(body_part(self.body@)));
        }
        let ghost with_body = views(parts@);
        let uv = chars_of(self.url.as_str());
        let part = quoted_chars(vec![' ', ' '], uv.as_slice());
        parts.push(part);
        assert(views(parts@) =~= with_body.push(url_part(self.url@)));
        assert(views(parts@) =~= curl_parts(self@));
        let sep = vec![' ', '\\', '\n'];
        let joined = join_chars(&parts, sep.as_slice());
        string_of(joined.as_slice())
    }

    /// Reads a request back from a curl command, as `to_curl` writes one;
    /// none when the command does not start with `curl`.
    pub fn from_curl(text: &str) -> (r: Option<SavedRequest>)
        ensures
            r matches Some(req) ==> request_of_curl(text@) == Some(req@),
            r is None ==> request_of_curl(text@) is None,
    {
        let v = chars_of(text);
        let lines = trimmed_lines_of(v.as_slice());
        let space = vec![' '];
        let joined = join_chars(&lines, space.as_slice());
        let pat = vec![' ', '\\', ' '];
        let line = replace_chars(joined.as_slice(), pat.as_slice(), space.as_slice());
        assert(space@ == seq![' ']);
        assert(pat@ == seq![' ', '\\', ' ']);
        assert(line@ == curl_line(text@));
        let toks = tokenize_chars(line.as_slice());
        let ghost tv = views(toks@);
        let curl = vec!['c', 'u', 'r', 'l'];
        if toks.len() == 0 || !eq_chars(toks[0].as_slice(), curl.as_slice()) {
            return None;
        }
        let mut method = Method::Get;
        let mut url: Vec<char> = Vec::new();
        let mut headers: Vec<Vec<char>> = Vec::new();
        let mut body: Vec<char> = Vec::new();
        let n = toks.len();
        let mut i: usize = 1;
        let opt_x = vec!['-', 'X'];
        let opt_request = vec!['-', '-', 'r', 'e', 'q', 'u', 'e', 's', 't'];
        let opt_h = vec!['-', 'H'];
        let opt_header = vec!['-', '-', 'h', 'e', 'a', 'd', 'e', 'r'];
        let opt_d = vec!['-', 'd'];
        let opt_data = vec!['-', '-', 'd', 'a', 't', 'a'];
        let opt_data_raw = vec!['-', '-', 'd', 'a', 't', 'a', '-', 'r', 'a', 'w'];
        assert(views(headers@) =~= Seq::<Seq<char>>::empty());
        while i < n
            invariant
                n == toks@.len(),
                tv == views(toks@),
                1 <= i <= n,
                opt_x@ == seq!['-', 'X'],
                opt_request@ == seq!['-', '-', 'r', 'e', 'q', 'u', 'e', 's', 't'],
                opt_h@ == seq!['-', 'H'],
                opt_header@ == seq!['-', '-', 'h', 'e', 'a', 'd', 'e', 'r'],
                opt_d@ == seq!['-', 'd'],
                opt_data@ == seq!['-', '-', 'd', 'a', 't', 'a'],
                opt_data_raw@ == seq!['-', '-', 'd', 'a', 't', 'a', '-', 'r', 'a', 'w'],
                parse_opts(tv, i as int, CurlOpts {
                    method: method,
                    url: url@,
                    headers: views(headers@),
                    body: body@,
                }) == parse_opts(tv, 1, opts_start()),
            decreases n - i,
        {
            let t = toks[i].as_slice();
            assert(t@ == tv[i as int]);
            if eq_chars(t, opt_x.as_slice()) || eq_chars(t, opt_request.as_slice()) {
                if i + 1 < n {
                    method = match Method::from_chars(toks[i + 1].as_slice()) {
                        Some(m) => m,
                        None => Method::Get,
                    };
                    i = i + 2;
                } else {
                    i = n;
                }
            } else if eq_chars(t, opt_h.as_slice()) || eq_chars(t, opt_header.as_slice()) {
                if i + 1 < n {
                    let ghost old_h = views(headers@);
                    let h = toks[i + 1].clone();
                    headers.push(h);
                    assert(views(headers@) =~= old_h.push(tv[i + 1]));
                    i = i + 2;
                } else {
                    i = n;
                }
            } else if eq_chars(t, opt_d.as_slice()) || eq_chars(t, opt_data.as_slice()) || eq_chars(
                t,
                opt_data_raw.as_slice(),
            ) {
                if i + 1 < n {
                    body = toks[i + 1].clone();
                    i = i + 2;
                } else {
                    i = n;
                }
            } else if !(t.len() > 0 && t[0] == '-') {
                url = toks[i].clone();
                i = i + 1;
            } else {
                i = i + 1;
            }
        }
        let sep = vec!['\n'];
        let hj = join_chars(&headers, sep.as_slice());
        assert(sep@ == seq!['\n']);
        Some(
            SavedRequest {
                method: method,
                url: string_of(url.as_slice()),
                headers: string_of(hj.as_slice()),
                body: string_of(body.as_slice()),
            },
        )
    }
}

// ── JSON bodies ─────────────────────────────────────────────────────────────

/// The text pretty-printed as JSON, once trimmed; none when it is not JSON.
pub fn pretty_print_json(text: &str) -> (r: Option<String>)
    ensures
        opt_view(r) == pretty_text(trim(text@)),
{
    let t = trim_str(text);
    match serde_parse(t.as_str()) {
        Some(v) => serde_print(&v),
        None => None,
    }
}

/// The body of a response as shown: pretty-printed when it is JSON, else
/// as received.
pub fn response_body_text(raw: &str) -> (r: String)
    ensures
        r@ == match pretty_text(raw@) {
            Some(p) => p,
            None => raw@,
        },
{
    let printed = match serde_parse(raw) {
        Some(v) => serde_print(&v),
        None => None,
    };
    match printed {
        Some(p) => p,
        None => String::from_str(raw),
    }
}

/// A request read back from a saved curl command, with its body
/// pretty-printed when it is JSON; none when it is not a curl command.
pub fn loaded_request(text: &str) -> (r: Option<SavedRequest>)
    ensures
        r is Some <==> request_of_curl(text@) is Some,
        r matches Some(req) ==> {
            let v = request_of_curl(text@)->0;
            &&& req.method == v.method
            &&& req.url@ == v.url
            &&& req.headers@ == v.headers
            &&& req.body@ == match pretty_text(trim(v.body)) {
                Some(p) => p,
                None => v.body,
            }
        },
{
    match SavedRequest::from_curl(text) {
        Some(saved) => {
            let body = match pretty_print_json(saved.body.as_str()) {
                Some(p) => p,
                None => saved.body,
            };
            Some(SavedRequest { method: saved.method, url: saved.url, headers: saved.headers, body })
        },
        None => None,
    }
}

// ── Sending ─────────────────────────────────────────────────────────────────

/// A token character of RFC 9110, the characters a header name is made of.
pub open spec fn token_char(c: char) -> bool {
    ||| ('0' <= c && c <= '9') || ('a' <= c && c <= 'z') || ('A' <= c && c <= 'Z')
    ||| c == '!' || c == '#' || c == '$' || c == '%' || c == '&' || c == '\'' || c == '*'
    ||| c == '+' || c == '-' || c == '.' || c == '^' || c == '_' || c == '`' || c == '|' || c == '~'
}

/// The names `HeaderName::from_str` accepts: 1 to 65535 token characters.
pub open spec fn header_name_ok(s: Seq<char>) -> bool {
    1 <= s.len() <= 65535 && forall|i: int| 0 <= i < s.len() ==> token_char(#[trigger] s[i])
}

/// The values `HeaderValue::from_str` accepts: no control character but
/// the tab (and no DEL).
pub open spec fn header_value_ok(s: Seq<char>) -> bool {
    forall|i: int|
        0 <= i < s.len() ==> ((#[trigger] s[i] as u32 >= 32 && s[i] != '\u{7F}') || s[i] == '\t')
}

/// `HeaderName::from_str` (http, through reqwest): it accepts a name when
/// it has 1 to 65535 bytes, all token characters (upper-case letters are
/// taken and lower-cased).
#[verifier::external_body]
fn header_name_valid(name: &str) -> (r: bool)
    ensures
        r == header_name_ok(name@),
{
    <reqwest::header::HeaderName as std::str::FromStr>::from_str(name).is_ok()
}

/// `HeaderValue::from_str` (http, through reqwest): it accepts a value when
/// every byte is at least 32 and not 127, or is a tab; every byte of a
/// character beyond ASCII is at least 128.
#[verifier::external_body]
fn header_value_valid(value: &str) -> (r: bool)
    ensures
        r == header_value_ok(value@),
{
    reqwest::header::HeaderValue::from_str(value).is_ok()
}

/// The header a line of the request's header text sends: the trimmed
/// name before the first `:` and the trimmed value after it, when both are
/// valid; none for a line without `:`.
pub open spec fn header_pair(l: Seq<char>) -> Option<(Seq<char>, Seq<char>)> {
    match first_index(l, ':', 0) {
        Some(k) => {
            let name = trim(l.take(k));
            let value = trim(l.skip(k + 1));
            if header_name_ok(name) && header_value_ok(value) {
                Some((name, value))
            } else {
                None
            }
        },
        None => None,
    }
}

proof fn lemma_first_colon(l: Seq<char>, k: int, i: int)
    requires
        0 <= i <= k < l.len(),
        l[k] == ':',
        forall|m: int| 0 <= m < k ==> l[m] != ':',
    ensures
        first_index(l, ':', i) == Some(k),
    decreases k - i,
{
    if i < k {
        lemma_first_colon(l, k, i + 1);
    }
}

/// A header line is split at its first `:` only: the name is what comes
/// before it and the value everything after it, each trimmed, so a value
/// that holds `:` itself (a port, a URL) is sent whole; the line is sent
/// exactly when both are valid.
pub proof fn lemma_header_split_at_first_colon(l: Seq<char>, k: int)
    requires
        0 <= k < l.len(),
        l[k] == ':',
        forall|m: int| 0 <= m < k ==> l[m] != ':',
    ensures
        header_pair(l) == if header_name_ok(trim(l.take(k))) && header_value_ok(
            trim(l.subrange(k + 1, l.len() as int)),
        ) {
            Some((trim(l.take(k)), trim(l.subrange(k + 1, l.len() as int))))
        } else {
            None
        },
{
    lemma_first_colon(l, k, 0);
    assert(l.skip(k + 1) == l.subrange(k + 1, l.len() as int));
}

pub open spec fn header_pairs_of(ls: Seq<Seq<char>>) -> Seq<(Seq<char>, Seq<char>)>
    decreases ls.len(),
{
    if ls.len() == 0 {
        Seq::empty()
    } else {
        match header_pair(ls.last()) {
            Some(p) => header_pairs_of(ls.drop_last()).push(p),
            None => header_pairs_of(ls.drop_last()),
        }
    }
}

/// The headers a request sends, in the order of its header lines (each
/// line trimmed; see `header_pair`). Sending sets them one after the
/// other, so a later header replaces an earlier one of the same name.
pub open spec fn request_header_pairs(raw: Seq<char>) -> Seq<(Seq<char>, Seq<char>)> {
    header_pairs_of(trimmed_lines(raw))
}

pub open spec fn pair_views(v: Seq<(String, String)>) -> Seq<(Seq<char>, Seq<char>)> {
    v.map_values(|p: (String, String)| (p.0@, p.1@))
}

/// The headers the request's header text sends (see `request_header_pairs`).
pub fn send_header_pairs(raw_headers: &str) -> (r: Vec<(String, String)>)
    ensures
        pair_views(r@) == request_header_pairs(raw_headers@),
{
    let cs = chars_of(raw_headers);
    let lines = trimmed_lines_of(cs.as_slice());
    let mut out: Vec<(String, String)> = Vec::new();
    let mut i: usize = 0;
    assert(views(lines@).take(0) =~= Seq::<Seq<char>>::empty());
    assert(pair_views(out@) =~= Seq::<(Seq<char>, Seq<char>)>::empty());
    while i < lines.len()
        invariant
            i <= lines@.len(),
            pair_views(out@) == header_pairs_of(views(lines@).take(i as int)),
        decreases lines@.len() - i,
    {
        let ghost before = pair_views(out@);
        let l = lines[i].as_slice();
        proof {
            assert(views(lines@).take(i + 1).drop_last() == views(lines@).take(i as int));
            assert(views(lines@).take(i + 1).last() == l@);
        }
        match first_index_of(l, ':') {
            Some(k) => {
                let n = l.len();
                let name_v = trim_chars(vstd::slice::slice_subrange(l, 0, k));
                let value_v = trim_chars(vstd::slice::slice_subrange(l, k + 1, n));
                assert(l@.subrange(0, k as int) == l@.take(k as int));
                assert(l@.subrange(k + 1, l@.len() as int) == l@.skip(k + 1));
                let name = string_of(name_v.as_slice());
                let value = string_of(value_v.as_slice());
                if header_name_valid(name.as_str()) && header_value_valid(value.as_str()) {
                    let ghost p = (name@, value@);
                    out.push((name, value));
                    assert(pair_views(out@) =~= before.push(p));
                }
            },
            None => {},
        }
        i = i + 1;
    }
    assert(views(lines@).take(lines@.len() as int) == views(lines@));
    out
}

/// The header text of a response: `HTTP` and the status, then one
/// `name: value` line per header, each line ending in a line feed.
pub open spec fn response_header_text_of(status: Seq<char>, hs: Seq<(Seq<char>, Seq<char>)>) -> Seq<char>
    decreases hs.len(),
{
    if hs.len() == 0 {
        seq!['H', 'T', 'T', 'P', ' '] + status + seq!['\n']
    } else {
        response_header_text_of(status, hs.drop_last()) + hs.last().0 + seq![':', ' '] + hs.last().1
            + seq!['\n']
    }
}

/// The header text of a response (see `response_header_text_of`).
pub fn response_header_text(status: &str, headers: &Vec<(String, String)>) -> (r: String)
    ensures
        r@ == response_header_text_of(status@, pair_views(headers@)),
{
    let mut v = vec!['H', 'T', 'T', 'P', ' '];
    let mut st = chars_of(status);
    v.append(&mut st);
    v.push('\n');
    let mut i: usize = 0;
    assert(pair_views(headers@).take(0) =~= Seq::<(Seq<char>, Seq<char>)>::empty());
    while i < headers.len()
        invariant
            i <= headers@.len(),
            v@ == response_header_text_of(status@, pair_views(headers@).take(i as int)),
        decreases headers@.len() - i,
    {
        proof {
            assert(pair_views(headers@).take(i + 1).drop_last() == pair_views(headers@).take(i as int));
            assert(pair_views(headers@).take(i + 1).last() == (headers@[i as int].0@, headers@[i as int].1@));
        }
        let ghost before = v@;
        let mut k = chars_of(headers[i].0.as_str());
        let mut val = chars_of(headers[i].1.as_str());
        v.append(&mut k);
        v.push(':');
        v.push(' ');
        v.append(&mut val);
        v.push('\n');
        assert(v@ =~= before + headers@[i as int].0@ + seq![':', ' '] + headers@[i as int].1@ + seq!['\n']);
        i = i + 1;
    }
    assert(pair_views(headers@).take(headers@.len() as int) == pair_views(headers@));
    string_of(v.as_slice())
}

} // verus!

use crate::json::{chars_eq, chars_eq_str, copy_range};
use crate::text::{
    chars_of, find_char_from, find_char_in, find_seq, find_seq_in, is_white_space, is_whitespace,
    lemma_find_char_from_bounds, lemma_find_seq_from_bounds, string_of, trim, trim_end_len,
    trim_start_index,
};
use vstd::prelude::*;
use vstd::utf8::{decode_utf8, valid_utf8};

verus! {

/// Why a request does not read.
#[derive(Debug, PartialEq, Hash, Eq, Clone, Copy, Structural)]
pub enum HttpParseError {
    InvalidMethod,
}

/// The methods a request can have.
#[derive(PartialEq, Debug, Hash, Eq, Clone, Copy, Structural)]
pub enum HttpMethod {
    GET,
    POST,
    PUT,
    DELETE,
    OPTIONS,
}

/// The name a method is written with.
pub open spec fn method_name(m: HttpMethod) -> Seq<char> {
    match m {
        HttpMethod::GET => "GET"@,
        HttpMethod::POST => "POST"@,
        HttpMethod::PUT => "PUT"@,
        HttpMethod::DELETE => "DELETE"@,
        HttpMethod::OPTIONS => "OPTIONS"@,
    }
}

/// The method a name stands for.
pub open spec fn method_named(s: Seq<char>) -> Option<HttpMethod> {
    if s == "GET"@ {
        Some(HttpMethod::GET)
    } else if s == "POST"@ {
        Some(HttpMethod::POST)
    } else if s == "PUT"@ {
        Some(HttpMethod::PUT)
    } else if s == "DELETE"@ {
        Some(HttpMethod::DELETE)
    } else if s == "OPTIONS"@ {
        Some(HttpMethod::OPTIONS)
    } else {
        None
    }
}

impl HttpMethod {
    /// The method a name stands for; an invalid-method error for any other name.
    pub fn from_name(value: &str) -> (r: Result<HttpMethod, HttpParseError>)
        ensures
            match method_named(value@) {
                Some(m) => r == Ok::<HttpMethod, HttpParseError>(m),
                None => r == Err::<HttpMethod, HttpParseError>(HttpParseError::InvalidMethod),
            },
    {
        let v = chars_of(value);
        Self::from_chars(v.as_slice())
    }

    /// The method the characters name.
    pub fn from_chars(v: &[char]) -> (r: Result<HttpMethod, HttpParseError>)
        ensures
            match method_named(v@) {
                Some(m) => r == Ok::<HttpMethod, HttpParseError>(m),
                None => r == Err::<HttpMethod, HttpParseError>(HttpParseError::InvalidMethod),
            },
    {
        if chars_eq_str(v, "GET") {
            Ok(HttpMethod::GET)
        } else if chars_eq_str(v, "POST") {
            Ok(HttpMethod::POST)
        } else if chars_eq_str(v, "PUT") {
            Ok(HttpMethod::PUT)
        } else if chars_eq_str(v, "DELETE") {
            Ok(HttpMethod::DELETE)
        } else if chars_eq_str(v, "OPTIONS") {
            Ok(HttpMethod::OPTIONS)
        } else {
            Err(HttpParseError::InvalidMethod)
        }
    }

    /// The name the method is written with.
    pub fn name(&self) -> (s: String)
        ensures
            s@ == method_name(*self),
    {
        match self {
            HttpMethod::GET => "GET".to_owned(),
            HttpMethod::POST => "POST".to_owned(),
            HttpMethod::PUT => "PUT".to_owned(),
            HttpMethod::DELETE => "DELETE".to_owned(),
            HttpMethod::OPTIONS => "OPTIONS".to_owned(),
        }
    }
}

// ------------------------------------------------------------------------------------------
// Splitting text.
// ------------------------------------------------------------------------------------------

/// The pieces of `s` from `start` on between the characters `c` (as `str::split`).
pub open spec fn split_from(s: Seq<char>, c: char, start: int) -> Seq<Seq<char>>
    decreases s.len() - start,
{
    if start < 0 || start > s.len() {
        Seq::empty()
    } else {
        match find_char_from(s, c, start) {
            None => seq![s.subrange(start, s.len() as int)],
            Some(i) => {
                proof {
                    lemma_find_char_from_bounds(s, c, start);
                }
                seq![s.subrange(start, i)] + split_from(s, c, i + 1)
            },
        }
    }
}

/// The pieces of `s` between the characters `c`.
pub open spec fn split_on(s: Seq<char>, c: char) -> Seq<Seq<char>> {
    split_from(s, c, 0)
}

/// A line without the carriage return before its line feed.
pub open spec fn strip_cr(l: Seq<char>) -> Seq<char> {
    if l.len() > 0 && l.last() == '\r' {
        l.drop_last()
    } else {
        l
    }
}

/// The lines of `s` from `start` on (as `str::lines`): split at line feeds, a carriage
/// return before a line feed dropped, no line after a final line feed.
pub open spec fn lines_from(s: Seq<char>, start: int) -> Seq<Seq<char>>
    decreases s.len() - start,
{
    if start < 0 || start >= s.len() {
        Seq::empty()
    } else {
        match find_char_from(s, '\n', start) {
            None => seq![s.subrange(start, s.len() as int)],
            Some(i) => {
                proof {
                    lemma_find_char_from_bounds(s, '\n', start);
                }
                seq![strip_cr(s.subrange(start, i))] + lines_from(s, i + 1)
            },
        }
    }
}

/// The end of the run of non-white-space characters at `i`.
pub open spec fn token_end(s: Seq<char>, i: int) -> int
    decreases s.len() - i,
{
    if 0 <= i < s.len() && !is_white_space(s[i]) {
        token_end(s, i + 1)
    } else {
        i
    }
}

pub proof fn lemma_token_end(s: Seq<char>, i: int)
    requires
        0 <= i <= s.len(),
    ensures
        i <= token_end(s, i) <= s.len(),
        forall|k: int| i <= k < token_end(s, i) ==> !is_white_space(#[trigger] s[k]),
        token_end(s, i) < s.len() ==> is_white_space(s[token_end(s, i)]),
    decreases s.len() - i,
{
    if i < s.len() && !is_white_space(s[i]) {
        lemma_token_end(s, i + 1);
    }
}

/// The runs of non-white-space characters of `s` from `start` on (as
/// `str::split_whitespace`).
pub open spec fn tokens_from(s: Seq<char>, start: int) -> Seq<Seq<char>>
    decreases s.len() - start,
{
    if start < 0 || start >= s.len() {
        Seq::empty()
    } else if is_white_space(s[start]) {
        tokens_from(s, start + 1)
    } else {
        proof {
            lemma_token_end(s, start + 1);
        }
        seq![s.subrange(start, token_end(s, start))] + tokens_from(s, token_end(s, start))
    }
}

// ------------------------------------------------------------------------------------------
// Maps of names to values.
// ------------------------------------------------------------------------------------------

/// The first position from `i` on of the key `k`.
pub open spec fn key_position_from(m: Seq<(Seq<char>, Seq<char>)>, k: Seq<char>, i: int) -> Option<
    int,
>
    decreases m.len() - i,
{
    if i < 0 || i >= m.len() {
        None
    } else if m[i].0 == k {
        Some(i)
    } else {
        key_position_from(m, k, i + 1)
    }
}

pub proof fn lemma_key_position_from(m: Seq<(Seq<char>, Seq<char>)>, k: Seq<char>, i: int)
    requires
        0 <= i,
    ensures
        match key_position_from(m, k, i) {
            Some(j) => i <= j < m.len() && m[j].0 == k && forall|l: int|
                i <= l < j ==> (#[trigger] m[l]).0 != k,
            None => forall|l: int| i <= l < m.len() ==> (#[trigger] m[l]).0 != k,
        },
    decreases m.len() - i,
{
    if i < m.len() && m[i].0 != k {
        lemma_key_position_from(m, k, i + 1);
    }
}

/// The value of the key `k`.
pub open spec fn assoc_get(m: Seq<(Seq<char>, Seq<char>)>, k: Seq<char>) -> Option<Seq<char>> {
    match key_position_from(m, k, 0) {
        Some(j) => Some(m[j].1),
        None => None,
    }
}

/// The map with `v` stored under `k`: in place of the old value, or added at the end.
pub open spec fn assoc_put(m: Seq<(Seq<char>, Seq<char>)>, k: Seq<char>, v: Seq<char>) -> Seq<
    (Seq<char>, Seq<char>),
> {
    match key_position_from(m, k, 0) {
        Some(j) => m.update(j, (k, v)),
        None => m.push((k, v)),
    }
}

/// The piece before the first `=` of `p`.
pub open spec fn pair_key(p: Seq<char>) -> Seq<char> {
    split_on(p, '=')[0]
}

/// The piece after the first `=` of `p` up to the next one (nothing when there is none).
pub open spec fn pair_value(p: Seq<char>) -> Seq<char> {
    if split_on(p, '=').len() > 1 {
        split_on(p, '=')[1]
    } else {
        Seq::empty()
    }
}

/// The parameters of a query: each `key=value` piece stored in turn.
pub open spec fn params_of(pieces: Seq<Seq<char>>) -> Seq<(Seq<char>, Seq<char>)>
    decreases pieces.len(),
{
    if pieces.len() == 0 {
        Seq::empty()
    } else {
        assoc_put(params_of(pieces.drop_last()), pair_key(pieces.last()), pair_value(pieces.last()))
    }
}

/// The cookies of a `Cookie` header: each `key=value` piece stored in turn, both trimmed.
pub open spec fn cookies_of(pieces: Seq<Seq<char>>) -> Seq<(Seq<char>, Seq<char>)>
    decreases pieces.len(),
{
    if pieces.len() == 0 {
        Seq::empty()
    } else {
        assoc_put(
            cookies_of(pieces.drop_last()),
            trim(pair_key(pieces.last())),
            trim(pair_value(pieces.last())),
        )
    }
}

/// The headers of header lines: each line with a colon stored in turn, name and value
/// trimmed; lines without a colon are passed over.
pub open spec fn headers_of(lines: Seq<Seq<char>>) -> Seq<(Seq<char>, Seq<char>)>
    decreases lines.len(),
{
    if lines.len() == 0 {
        Seq::empty()
    } else {
        let l = lines.last();
        match find_char_from(l, ':', 0) {
            Some(j) => assoc_put(
                headers_of(lines.drop_last()),
                trim(l.subrange(0, j)),
                trim(l.subrange(j + 1, l.len() as int)),
            ),
            None => headers_of(lines.drop_last()),
        }
    }
}

/// The position of the first empty line from `i` on (the number of lines if none).
pub open spec fn first_empty_from(lines: Seq<Seq<char>>, i: int) -> int
    decreases lines.len() - i,
{
    if i < 0 || i >= lines.len() {
        lines.len() as int
    } else if lines[i].len() == 0 {
        i
    } else {
        first_empty_from(lines, i + 1)
    }
}

/// The header lines of a request: those after the request line, up to the first empty one.
pub open spec fn header_lines(lines: Seq<Seq<char>>) -> Seq<Seq<char>> {
    if lines.len() == 0 {
        Seq::empty()
    } else {
        lines.subrange(1, first_empty_from(lines, 1))
    }
}

/// The text without the NUL characters at its start.
pub open spec fn strip_nul_start(s: Seq<char>) -> Seq<char>
    decreases s.len(),
{
    if s.len() > 0 && s[0] == '\0' {
        strip_nul_start(s.drop_first())
    } else {
        s
    }
}

/// The text without the NUL characters at its end.
pub open spec fn strip_nul_end(s: Seq<char>) -> Seq<char>
    decreases s.len(),
{
    if s.len() > 0 && s.last() == '\0' {
        strip_nul_end(s.drop_last())
    } else {
        s
    }
}

/// The body of a request: what follows the first empty line, NUL characters at its ends
/// dropped; none when nothing follows.
pub open spec fn body_of(t: Seq<char>) -> Option<Seq<char>> {
    match find_seq(t, seq!['\r', '\n', '\r', '\n']) {
        None => None,
        Some(i) => if i + 4 >= t.len() {
            None
        } else {
            Some(strip_nul_end(strip_nul_start(t.subrange(i + 4, t.len() as int))))
        },
    }
}

/// A request as values.
pub struct RequestModel {
    pub method: HttpMethod,
    pub path: Seq<char>,
    pub version: Seq<char>,
    pub params: Seq<(Seq<char>, Seq<char>)>,
    pub headers: Seq<(Seq<char>, Seq<char>)>,
    pub cookie: Option<Seq<(Seq<char>, Seq<char>)>>,
    pub body: Option<Seq<char>>,
}

/// How a request text reads: the request line gives the method, the target (path and
/// query parameters) and the version; header lines follow up to an empty line; the
/// `Cookie` header gives cookies; the text after the empty line is the body.
pub open spec fn parse_request(t: Seq<char>) -> Result<RequestModel, HttpParseError> {
    let ls = lines_from(t, 0);
    if ls.len() == 0 {
        Err(HttpParseError::InvalidMethod)
    } else {
        let toks = tokens_from(ls[0], 0);
        if toks.len() < 3 {
            Err(HttpParseError::InvalidMethod)
        } else {
            let parts = split_on(toks[1], '?');
            let headers = headers_of(header_lines(ls));
            match method_named(toks[0]) {
                None => Err(HttpParseError::InvalidMethod),
                Some(m) => Ok(
                    RequestModel {
                        method: m,
                        path: parts[0],
                        version: toks[2],
                        params: if parts.len() > 1 {
                            params_of(split_on(parts[1], '&'))
                        } else {
                            Seq::empty()
                        },
                        headers: headers,
                        cookie: match assoc_get(headers, "Cookie"@) {
                            Some(v) => Some(cookies_of(split_on(v, ';'))),
                            None => None,
                        },
                        body: body_of(t),
                    },
                ),
            }
        }
    }
}

/// The text `String::from_utf8_lossy` makes of bytes.
pub uninterp spec fn lossy_text(bytes: Seq<u8>) -> Seq<char>;

/// `String::from_utf8_lossy`: the bytes as text, invalid sequences replaced. Its result is
/// named; what is stated of it is that valid UTF-8 comes back decoded unchanged.
#[verifier::external_body]
fn text_of_bytes(bytes: &[u8]) -> (s: String)
    ensures
        s@ == lossy_text(bytes@),
        valid_utf8(bytes@) ==> s@ == decode_utf8(bytes@),
{
    String::from_utf8_lossy(bytes).into_owned()
}

/// The values of a list of name-value pairs.
pub open spec fn pairs_view(v: Seq<(String, String)>) -> Seq<(Seq<char>, Seq<char>)> {
    v.map_values(|e: (String, String)| (e.0@, e.1@))
}

/// The values of a list of texts.
pub open spec fn pieces_view(v: Seq<Vec<char>>) -> Seq<Seq<char>> {
    v.map_values(|p: Vec<char>| p@)
}

/// A request.
pub struct HttpRequest {
    pub method: HttpMethod,
    pub path: String,
    pub version: String,
    pub params: Vec<(String, String)>,
    pub headers: Vec<(String, String)>,
    pub cookie: Option<Vec<(String, String)>>,
    pub body: Option<String>,
}

impl View for HttpRequest {
    type V = RequestModel;

    open spec fn view(&self) -> RequestModel {
        RequestModel {
            method: self.method,
            path: self.path@,
            version: self.version@,
            params: pairs_view(self.params@),
            headers: pairs_view(self.headers@),
            cookie: match self.cookie {
                Some(c) => Some(pairs_view(c@)),
                None => None,
            },
            body: match self.body {
                Some(b) => Some(b@),
                None => None,
            },
        }
    }
}


// ------------------------------------------------------------------------------------------
// Reading requests.
// ------------------------------------------------------------------------------------------

/// The pieces of `v` between the characters `c`.
fn split_pieces(v: &[char], c: char) -> (r: Vec<Vec<char>>)
    ensures
        pieces_view(r@) == split_on(v@, c),
{
    let mut pieces: Vec<Vec<char>> = Vec::new();
    let mut start: usize = 0;
    assert(v@.subrange(0, v.len() as int) =~= v@);
    loop
        invariant
            start <= v.len(),
            v@.subrange(0, v.len() as int) == v@,
            split_on(v@, c) == pieces_view(pieces@) + split_from(v@, c, start as int),
        decreases v.len() - start,
    {
        proof {
            lemma_find_char_from_bounds(v@, c, start as int);
        }
        match find_char_in(v, c, start, v.len()) {
            Some(i) => {
                let ghost before = pieces@;
                pieces.push(copy_range(v, start, i));
                assert(pieces_view(pieces@) =~= pieces_view(before).push(v@.subrange(start as int, i as int)));
                assert(split_from(v@, c, start as int) == seq![v@.subrange(start as int, i as int)]
                    + split_from(v@, c, i + 1));
                assert(pieces_view(pieces@) + split_from(v@, c, i + 1) =~= pieces_view(before)
                    + split_from(v@, c, start as int));
                start = i + 1;
            },
            None => {
                let ghost before = pieces@;
                pieces.push(copy_range(v, start, v.len()));
                assert(pieces_view(pieces@) =~= pieces_view(before).push(
                    v@.subrange(start as int, v.len() as int),
                ));
                assert(split_from(v@, c, start as int) == seq![
                    v@.subrange(start as int, v.len() as int),
                ]);
                assert(pieces_view(pieces@) =~= pieces_view(before) + split_from(
                    v@,
                    c,
                    start as int,
                ));
                return pieces;
            },
        }
    }
}

/// The lines of `v`.
fn text_lines(v: &[char]) -> (r: Vec<Vec<char>>)
    ensures
        pieces_view(r@) == lines_from(v@, 0),
{
    let mut lines: Vec<Vec<char>> = Vec::new();
    let mut start: usize = 0;
    assert(v@.subrange(0, v.len() as int) =~= v@);
    assert(pieces_view(lines@) =~= Seq::<Seq<char>>::empty());
    while start < v.len()
        invariant
            start <= v.len(),
            v@.subrange(0, v.len() as int) == v@,
            lines_from(v@, 0) == pieces_view(lines@) + lines_from(v@, start as int),
        decreases v.len() - start,
    {
        proof {
            lemma_find_char_from_bounds(v@, '\n', start as int);
        }
        let ghost before = lines@;
        match find_char_in(v, '\n', start, v.len()) {
            Some(i) => {
                let mut line = copy_range(v, start, i);
                if line.len() > 0 && line[line.len() - 1] == '\r' {
                    line.pop();
                }
                assert(line@ == strip_cr(v@.subrange(start as int, i as int)));
                lines.push(line);
                assert(pieces_view(lines@) =~= pieces_view(before).push(
                    strip_cr(v@.subrange(start as int, i as int)),
                ));
                assert(pieces_view(lines@) + lines_from(v@, i + 1) =~= pieces_view(before)
                    + lines_from(v@, start as int));
                start = i + 1;
            },
            None => {
                lines.push(copy_range(v, start, v.len()));
                assert(pieces_view(lines@) =~= pieces_view(before).push(
                    v@.subrange(start as int, v.len() as int),
                ));
                assert(pieces_view(lines@) =~= pieces_view(before) + lines_from(
                    v@,
                    start as int,
                ));
                return lines;
            },
        }
    }
    assert(pieces_view(lines@) + lines_from(v@, start as int) =~= pieces_view(lines@));
    lines
}

/// The runs of non-white-space characters of `v`.
fn text_tokens(v: &[char]) -> (r: Vec<Vec<char>>)
    ensures
        pieces_view(r@) == tokens_from(v@, 0),
{
    let mut tokens: Vec<Vec<char>> = Vec::new();
    let mut start: usize = 0;
    assert(pieces_view(tokens@) =~= Seq::<Seq<char>>::empty());
    while start < v.len()
        invariant
            start <= v.len(),
            tokens_from(v@, 0) == pieces_view(tokens@) + tokens_from(v@, start as int),
        decreases v.len() - start,
    {
        if is_whitespace(v[start]) {
            start += 1;
        } else {
            proof {
                lemma_token_end(v@, start as int);
            }
            let mut end = start + 1;
            while end < v.len() && !is_whitespace(v[end])
                invariant
                    start < end <= v.len(),
                    token_end(v@, start as int) == token_end(v@, end as int),
                decreases v.len() - end,
            {
                end += 1;
            }
            let ghost before = tokens@;
            tokens.push(copy_range(v, start, end));
            assert(pieces_view(tokens@) =~= pieces_view(before).push(
                v@.subrange(start as int, end as int),
            ));
            assert(pieces_view(tokens@) + tokens_from(v@, end as int) =~= pieces_view(before)
                + tokens_from(v@, start as int));
            start = end;
        }
    }
    assert(pieces_view(tokens@) + tokens_from(v@, start as int) =~= pieces_view(tokens@));
    tokens
}

/// `v` without white space at either end.
fn trim_chars(v: &[char]) -> (r: Vec<char>)
    ensures
        r@ == trim(v@),
{
    let k = trim_start_index(v, 0, v.len());
    assert(v@.subrange(0, v.len() as int) =~= v@);
    let w = copy_range(v, k, v.len());
    let n = trim_end_len(w.as_slice(), w.len());
    assert(w@.subrange(0, w.len() as int) =~= w@);
    copy_range(w.as_slice(), 0, n)
}

/// The position of the key `k` in a list of name-value pairs.
fn key_index(m: &Vec<(String, String)>, k: &[char]) -> (r: Option<usize>)
    ensures
        match r {
            Some(i) => key_position_from(pairs_view(m@), k@, 0) == Some(i as int),
            None => key_position_from(pairs_view(m@), k@, 0) is None,
        },
{
    let ghost pm = pairs_view(m@);
    proof {
        lemma_key_position_from(pm, k@, 0);
    }
    let mut i: usize = 0;
    while i < m.len()
        invariant
            i <= m.len(),
            pm == pairs_view(m@),
            forall|l: int| 0 <= l < i ==> (#[trigger] pm[l]).0 != k@,
            match key_position_from(pm, k@, 0) {
                Some(j) => 0 <= j < pm.len() && pm[j].0 == k@ && forall|l: int|
                    0 <= l < j ==> (#[trigger] pm[l]).0 != k@,
                None => forall|l: int| 0 <= l < pm.len() ==> (#[trigger] pm[l]).0 != k@,
            },
        decreases m.len() - i,
    {
        let name = chars_of(m[i].0.as_str());
        assert(pm[i as int] == (m@[i as int].0@, m@[i as int].1@));
        if chars_eq(name.as_slice(), k) {
            return Some(i);
        }
        i += 1;
    }
    None
}

/// Stores `v` under `k` in a list of name-value pairs.
pub fn put_pair(m: &mut Vec<(String, String)>, k: String, v: String)
    ensures
        pairs_view(final(m)@) == assoc_put(pairs_view(old(m)@), k@, v@),
{
    let key = chars_of(k.as_str());
    match key_index(m, key.as_slice()) {
        Some(i) => {
            proof {
                lemma_key_position_from(pairs_view(m@), key@, 0);
            }
            let ghost before = m@;
            let ghost kv = (k@, v@);
            m.set(i, (k, v));
            assert(pairs_view(m@) =~= pairs_view(before).update(i as int, kv));
        },
        None => {
            let ghost before = m@;
            let ghost kv = (k@, v@);
            m.push((k, v));
            assert(pairs_view(m@) =~= pairs_view(before).push(kv));
        },
    }
}

/// The value stored under `k` in a list of name-value pairs.
pub fn get_pair<'a>(m: &'a Vec<(String, String)>, k: &str) -> (r: Option<&'a String>)
    ensures
        match r {
            Some(v) => assoc_get(pairs_view(m@), k@) == Some(v@),
            None => assoc_get(pairs_view(m@), k@) is None,
        },
{
    let key = chars_of(k);
    match key_index(m, key.as_slice()) {
        Some(i) => {
            proof {
                lemma_key_position_from(pairs_view(m@), k@, 0);
            }
            assert(pairs_view(m@)[i as int] == (m@[i as int].0@, m@[i as int].1@));
            Some(&m[i].1)
        },
        None => None,
    }
}

/// The text before the first `=` of `p`, and after it up to the next one.
fn pair_parts(p: &Vec<char>) -> (r: (Vec<char>, Vec<char>))
    ensures
        r.0@ == pair_key(p@),
        r.1@ == pair_value(p@),
{
    let kv = split_pieces(p.as_slice(), '=');
    proof {
        lemma_split_nonempty(p@, '=', 0);
    }
    assert(kv@[0]@ == pieces_view(kv@)[0]);
    let key = copy_range(kv[0].as_slice(), 0, kv[0].len());
    assert(kv@[0]@.subrange(0, kv@[0]@.len() as int) =~= kv@[0]@);
    let value = if kv.len() > 1 {
        assert(kv@[1]@ == pieces_view(kv@)[1]);
        assert(kv@[1]@.subrange(0, kv@[1]@.len() as int) =~= kv@[1]@);
        copy_range(kv[1].as_slice(), 0, kv[1].len())
    } else {
        Vec::new()
    };
    assert(value@ =~= pair_value(p@));
    (key, value)
}

/// A text always has at least one piece.
pub proof fn lemma_split_nonempty(s: Seq<char>, c: char, start: int)
    requires
        0 <= start <= s.len(),
    ensures
        split_from(s, c, start).len() >= 1,
{
}


/// `v` without the NUL characters at its ends.
fn strip_nul(v: &[char]) -> (r: Vec<char>)
    ensures
        r@ == strip_nul_end(strip_nul_start(v@)),
{
    let mut k: usize = 0;
    assert(v@.subrange(0, v.len() as int) =~= v@);
    while k < v.len() && v[k] == '\0'
        invariant
            k <= v.len(),
            strip_nul_start(v@.subrange(k as int, v.len() as int)) == strip_nul_start(v@),
        decreases v.len() - k,
    {
        assert(v@.subrange(k as int, v.len() as int).drop_first() =~= v@.subrange(
            k + 1,
            v.len() as int,
        ));
        k += 1;
    }
    let w = copy_range(v, k, v.len());
    assert(strip_nul_start(w@) == w@);
    let mut n: usize = w.len();
    assert(w@.subrange(0, n as int) =~= w@);
    while n > 0 && w[n - 1] == '\0'
        invariant
            n <= w.len(),
            strip_nul_end(w@.subrange(0, n as int)) == strip_nul_end(w@),
        decreases n,
    {
        assert(w@.subrange(0, n as int).drop_last() =~= w@.subrange(0, n - 1));
        n -= 1;
    }
    copy_range(w.as_slice(), 0, n)
}

/// The body of a request text.
fn body_text(t: &[char]) -> (r: Option<String>)
    ensures
        match r {
            Some(b) => body_of(t@) == Some(b@),
            None => body_of(t@) is None,
        },
{
    let mut sep: Vec<char> = Vec::new();
    sep.push('\r');
    sep.push('\n');
    sep.push('\r');
    sep.push('\n');
    assert(sep@ =~= seq!['\r', '\n', '\r', '\n']);
    assert(t@.subrange(0, t.len() as int) =~= t@);
    proof {
        lemma_find_seq_from_bounds(t@, sep@, 0);
    }
    match find_seq_in(t, sep.as_slice(), 0, t.len()) {
        None => None,
        Some(i) => {
            if i + 4 >= t.len() {
                None
            } else {
                let rest = copy_range(t, i + 4, t.len());
                let b = strip_nul(rest.as_slice());
                Some(string_of(b.as_slice()))
            }
        },
    }
}

/// The cookies of a `Cookie` header value.
fn cookies_from(value: &String) -> (r: Vec<(String, String)>)
    ensures
        pairs_view(r@) == cookies_of(split_on(value@, ';')),
{
    let v = chars_of(value.as_str());
    let pieces = split_pieces(v.as_slice(), ';');
    let ghost pv = pieces_view(pieces@);
    let mut out: Vec<(String, String)> = Vec::new();
    let mut i: usize = 0;
    assert(pv.take(0) =~= Seq::<Seq<char>>::empty());
    assert(pairs_view(out@) =~= Seq::<(Seq<char>, Seq<char>)>::empty());
    while i < pieces.len()
        invariant
            i <= pieces.len(),
            pv == pieces_view(pieces@),
            pairs_view(out@) == cookies_of(pv.take(i as int)),
        decreases pieces.len() - i,
    {
        assert(pv.take(i + 1).drop_last() =~= pv.take(i as int));
        assert(pv.take(i + 1).last() == pieces@[i as int]@);
        let (k, val) = pair_parts(&pieces[i]);
        let k = trim_chars(k.as_slice());
        let val = trim_chars(val.as_slice());
        put_pair(&mut out, string_of(k.as_slice()), string_of(val.as_slice()));
        i += 1;
    }
    assert(pv.take(pieces.len() as int) =~= pv);
    out
}

/// The parameters of a query text.
fn params_from(query: &Vec<char>) -> (r: Vec<(String, String)>)
    ensures
        pairs_view(r@) == params_of(split_on(query@, '&')),
{
    let pieces = split_pieces(query.as_slice(), '&');
    let ghost pv = pieces_view(pieces@);
    let mut out: Vec<(String, String)> = Vec::new();
    let mut i: usize = 0;
    assert(pv.take(0) =~= Seq::<Seq<char>>::empty());
    assert(pairs_view(out@) =~= Seq::<(Seq<char>, Seq<char>)>::empty());
    while i < pieces.len()
        invariant
            i <= pieces.len(),
            pv == pieces_view(pieces@),
            pairs_view(out@) == params_of(pv.take(i as int)),
        decreases pieces.len() - i,
    {
        assert(pv.take(i + 1).drop_last() =~= pv.take(i as int));
        assert(pv.take(i + 1).last() == pieces@[i as int]@);
        let (k, val) = pair_parts(&pieces[i]);
        put_pair(&mut out, string_of(k.as_slice()), string_of(val.as_slice()));
        i += 1;
    }
    assert(pv.take(pieces.len() as int) =~= pv);
    out
}

/// The headers of the header lines of a request.
fn headers_from(lines: &Vec<Vec<char>>) -> (r: Vec<(String, String)>)
    requires
        lines.len() > 0,
    ensures
        pairs_view(r@) == headers_of(header_lines(pieces_view(lines@))),
{
    let ghost ls = pieces_view(lines@);
    let mut end: usize = 1;
    while end < lines.len() && lines[end].len() != 0
        invariant
            1 <= end <= lines.len(),
            ls == pieces_view(lines@),
            first_empty_from(ls, 1) == first_empty_from(ls, end as int),
        decreases lines.len() - end,
    {
        assert(ls[end as int] == lines@[end as int]@);
        end += 1;
    }
    proof {
        if end < lines.len() {
            assert(ls[end as int] == lines@[end as int]@);
        }
    }
    let mut out: Vec<(String, String)> = Vec::new();
    let mut i: usize = 1;
    assert(ls.subrange(1, 1) =~= Seq::<Seq<char>>::empty());
    assert(pairs_view(out@) =~= Seq::<(Seq<char>, Seq<char>)>::empty());
    while i < end
        invariant
            1 <= i <= end <= lines.len(),
            ls == pieces_view(lines@),
            end == first_empty_from(ls, 1),
            pairs_view(out@) == headers_of(ls.subrange(1, i as int)),
        decreases end - i,
    {
        let line = &lines[i];
        assert(ls.subrange(1, i + 1).drop_last() =~= ls.subrange(1, i as int));
        assert(ls.subrange(1, i + 1).last() == line@);
        assert(line@.subrange(0, line.len() as int) =~= line@);
        proof {
            lemma_find_char_from_bounds(line@, ':', 0);
        }
        match find_char_in(line.as_slice(), ':', 0, line.len()) {
            Some(j) => {
                let name = copy_range(line.as_slice(), 0, j);
                let value = copy_range(line.as_slice(), j + 1, line.len());
                let name = trim_chars(name.as_slice());
                let value = trim_chars(value.as_slice());
                put_pair(&mut out, string_of(name.as_slice()), string_of(value.as_slice()));
            },
            None => {},
        }
        i += 1;
    }
    out
}

/// Reads a request text.
pub fn parse_text(t: &[char]) -> (r: Result<HttpRequest, HttpParseError>)
    ensures
        match parse_request(t@) {
            Ok(m) => r matches Ok(req) && req@ == m,
            Err(e) => r == Err::<HttpRequest, HttpParseError>(e),
        },
{
    let lines = text_lines(t);
    if lines.len() == 0 {
        return Err(HttpParseError::InvalidMethod);
    }
    assert(pieces_view(lines@)[0] == lines@[0]@);
    let toks = text_tokens(lines[0].as_slice());
    if toks.len() < 3 {
        return Err(HttpParseError::InvalidMethod);
    }
    assert(pieces_view(toks@)[0] == toks@[0]@);
    assert(pieces_view(toks@)[1] == toks@[1]@);
    assert(pieces_view(toks@)[2] == toks@[2]@);
    let parts = split_pieces(toks[1].as_slice(), '?');
    proof {
        lemma_split_nonempty(toks@[1]@, '?', 0);
    }
    assert(pieces_view(parts@)[0] == parts@[0]@);
    let path = string_of(parts[0].as_slice());
    let params = if parts.len() > 1 {
        assert(pieces_view(parts@)[1] == parts@[1]@);
        params_from(&parts[1])
    } else {
        let e: Vec<(String, String)> = Vec::new();
        assert(pairs_view(e@) =~= Seq::<(Seq<char>, Seq<char>)>::empty());
        e
    };
    let version = string_of(toks[2].as_slice());
    let headers = headers_from(&lines);
    let cookie = match get_pair(&headers, "Cookie") {
        Some(v) => Some(cookies_from(v)),
        None => None,
    };
    proof {
        reveal_strlit("Cookie");
    }
    let body = body_text(t);
    let method = HttpMethod::from_chars(toks[0].as_slice())?;
    Ok(HttpRequest { method, path, version, params, headers, cookie, body })
}

/// Reads a request from the bytes received: the bytes as text, invalid sequences
/// replaced, then read as [`parse_text`] reads it; valid UTF-8 is read as what it encodes.
pub fn parse(request_buffer: &[u8]) -> (r: Result<HttpRequest, HttpParseError>)
    ensures
        match parse_request(lossy_text(request_buffer@)) {
            Ok(m) => r matches Ok(req) && req@ == m,
            Err(e) => r == Err::<HttpRequest, HttpParseError>(e),
        },
        valid_utf8(request_buffer@) ==> lossy_text(request_buffer@) == decode_utf8(
            request_buffer@,
        ),
{
    let text = text_of_bytes(request_buffer);
    let chars = chars_of(text.as_str());
    parse_text(chars.as_slice())
}

/// Whether the text contains `application/json`.
pub open spec fn names_json(v: Seq<char>) -> bool {
    find_seq(v, "application/json"@) is Some
}

impl HttpRequest {
    /// The query parameter under `key`.
    pub fn get_param(&self, key: &str) -> (r: Option<&str>)
        ensures
            match r {
                Some(v) => assoc_get(self@.params, key@) == Some(v@),
                None => assoc_get(self@.params, key@) is None,
            },
    {
        match get_pair(&self.params, key) {
            Some(v) => Some(v.as_str()),
            None => None,
        }
    }

    /// The header under `key`.
    pub fn get_header(&self, key: &str) -> (r: Option<&String>)
        ensures
            match r {
                Some(v) => assoc_get(self@.headers, key@) == Some(v@),
                None => assoc_get(self@.headers, key@) is None,
            },
    {
        get_pair(&self.headers, key)
    }

    /// The cookie under `key`, when the request has cookies.
    pub fn get_cookie(&self, key: &str) -> (r: Option<&String>)
        ensures
            match self@.cookie {
                Some(c) => match r {
                    Some(v) => assoc_get(c, key@) == Some(v@),
                    None => assoc_get(c, key@) is None,
                },
                None => r is None,
            },
    {
        match &self.cookie {
            Some(c) => get_pair(c, key),
            None => None,
        }
    }

    /// The body, when the request has one.
    pub fn get_body(&self) -> (r: Option<&String>)
        ensures
            match r {
                Some(b) => self@.body == Some(b@),
                None => self@.body is None,
            },
    {
        match &self.body {
            Some(b) => Some(b),
            None => None,
        }
    }

    /// Whether the `Content-Type` header names JSON.
    pub fn body_is_json(&self) -> (b: bool)
        ensures
            b == match assoc_get(self@.headers, "Content-Type"@) {
                Some(v) => names_json(v),
                None => false,
            },
    {
        match self.get_header("Content-Type") {
            Some(v) => {
                let c = chars_of(v.as_str());
                let pat = chars_of("application/json");
                assert(c@.subrange(0, c.len() as int) =~= c@);
                find_seq_in(c.as_slice(), pat.as_slice(), 0, c.len()).is_some()
            },
            None => false,
        }
    }
}

} // verus!

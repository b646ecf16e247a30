//! Parsing of raw HTTP/1.1 requests into structured values.
//!
//! A raw request splits on `"\r\n"` into lines; the first line (the status
//! line) splits on single spaces into a method token, a URI token and a
//! version token. Header lines follow until the first empty line, and a body
//! begins after the first empty line that is immediately followed by a
//! non-empty line. The grammar is stated by the `spec_` functions here and
//! computed by [`HttpRequest::from`].

use vstd::prelude::*;

use crate::string_map::StringMap;
use crate::text::{find_first, find_sub, join_from, join_with, occurs_at, split_on, split_str,
    substring};

verus! {

/// The request methods this parser knows.
#[derive(PartialEq, Eq, Structural, Debug, Clone, Copy)]
pub enum HttpMethod {
    Get,
    Post,
    Delete,
    Options,
}

/// The outcome of handling a request, as the status line of the response
/// will carry it. Each variant stands for its standard numeric code.
#[derive(PartialEq, Eq, Structural, Debug, Clone, Copy)]
pub enum StatusCode {
    Okay,
    InternalServerError,
}

impl StatusCode {
    /// The standard numeric code of this status.
    pub open spec fn spec_code(self) -> u16 {
        match self {
            StatusCode::Okay => 200,
            StatusCode::InternalServerError => 500,
        }
    }

    /// The standard numeric code of this status.
    pub fn code(&self) -> (r: u16)
        ensures
            r == self.spec_code(),
    {
        match self {
            StatusCode::Okay => 200,
            StatusCode::InternalServerError => 500,
        }
    }
}

/// A protocol version `<major>.<minor>`, the two parts of the version
/// numeral in a token such as `HTTP/1.1`.
#[derive(PartialEq, Eq, Structural, Debug, Clone, Copy)]
pub struct HttpVersion {
    pub major: u32,
    pub minor: u32,
}

/// The structured response a handler produces: the transport layer, not
/// this crate, serializes it to wire bytes.
#[derive(PartialEq, Eq, Structural, Debug, Clone, Copy)]
pub struct HttpResponse {
    pub http_version: HttpVersion,
    pub status_code: StatusCode,
}

/// The ways a raw request can fail to parse.
#[derive(PartialEq, Eq, Structural, Debug, Clone, Copy)]
pub enum HttpParseError {
    /// The status line has fewer than three space-separated tokens.
    MalformedRequest,
    /// The method token matches none of the known methods.
    UnknownMethod,
    /// The version token carries no well-formed version numeral.
    InvalidVersion,
    /// A header line has no `": "` separator.
    MalformedHeader,
}

// ---------------------------------------------------------------------------
// The request grammar
// ---------------------------------------------------------------------------
/// The line terminator.
pub open spec fn crlf() -> Seq<char> {
    seq!['\r', '\n']
}

/// The header key/value separator.
pub open spec fn colon_space() -> Seq<char> {
    seq![':', ' ']
}

/// `c` with an ASCII capital letter folded to its small form.
pub open spec fn lower_char(c: char) -> char {
    if 'A' <= c && c <= 'Z' {
        (((c as u8) + 32) as u8) as char
    } else {
        c
    }
}

/// `s` with ASCII capital letters folded to their small forms.
pub open spec fn lower(s: Seq<char>) -> Seq<char> {
    s.map_values(|c: char| lower_char(c))
}

/// The lower-case token that names a method.
pub open spec fn method_token(m: HttpMethod) -> Seq<char> {
    match m {
        HttpMethod::Get => seq!['g', 'e', 't'],
        HttpMethod::Post => seq!['p', 'o', 's', 't'],
        HttpMethod::Delete => seq!['d', 'e', 'l', 'e', 't', 'e'],
        HttpMethod::Options => seq!['o', 'p', 't', 'i', 'o', 'n', 's'],
    }
}

/// The method a token denotes, compared without regard to ASCII case.
pub open spec fn spec_method(tok: Seq<char>) -> Option<HttpMethod> {
    if lower(tok) == method_token(HttpMethod::Get) {
        Some(HttpMethod::Get)
    } else if lower(tok) == method_token(HttpMethod::Post) {
        Some(HttpMethod::Post)
    } else if lower(tok) == method_token(HttpMethod::Delete) {
        Some(HttpMethod::Delete)
    } else if lower(tok) == method_token(HttpMethod::Options) {
        Some(HttpMethod::Options)
    } else {
        None
    }
}

/// An ASCII decimal digit.
pub open spec fn is_digit(c: char) -> bool {
    '0' <= c && c <= '9'
}

/// The value of one digit.
pub open spec fn digit_val(c: char) -> nat {
    (c as int - '0' as int) as nat
}

/// A non-empty run of digits.
pub open spec fn all_digits(s: Seq<char>) -> bool {
    s.len() > 0 && forall|i: int| 0 <= i < s.len() ==> is_digit(#[trigger] s[i])
}

/// The value of a run of digits, most significant first.
pub open spec fn digits_val(s: Seq<char>) -> nat
    decreases s.len(),
{
    if s.len() == 0 {
        0
    } else {
        digits_val(s.drop_last()) * 10 + digit_val(s.last())
    }
}

/// The version a numeral `<digits>.<digits>` denotes, when both parts fit a
/// `u32`.
pub open spec fn spec_numeral(s: Seq<char>) -> Option<HttpVersion> {
    let parts = split_on(s, seq!['.']);
    if parts.len() == 2 && all_digits(parts[0]) && all_digits(parts[1]) && digits_val(parts[0])
        <= u32::MAX && digits_val(parts[1]) <= u32::MAX {
        Some(
            HttpVersion {
                major: digits_val(parts[0]) as u32,
                minor: digits_val(parts[1]) as u32,
            },
        )
    } else {
        None
    }
}

/// The version a token such as `HTTP/1.1` denotes: the token splits on `/`
/// and the second segment must be a version numeral. No other segment is
/// inspected.
pub open spec fn spec_version(tok: Seq<char>) -> Option<HttpVersion> {
    let segs = split_on(tok, seq!['/']);
    if segs.len() < 2 {
        None
    } else {
        spec_numeral(segs[1])
    }
}

// ---------------------------------------------------------------------------
// Method parsing
// ---------------------------------------------------------------------------
/// `c` with an ASCII capital letter folded to its small form.
fn lower_char_exec(c: char) -> (r: char)
    ensures
        r == lower_char(c),
{
    if 'A' <= c && c <= 'Z' {
        (((c as u8) + 32) as u8) as char
    } else {
        c
    }
}

/// Whether `s`, lowercased, holds exactly the characters of `t`.
fn eq_lower(s: &str, t: &str) -> (r: bool)
    ensures
        r == (lower(s@) == t@),
{
    let n = s.unicode_len();
    if n != t.unicode_len() {
        return false;
    }
    let mut i: usize = 0;
    while i < n
        invariant
            n == s@.len() == t@.len(),
            0 <= i <= n,
            forall|k: int| 0 <= k < i ==> lower(s@)[k] == t@[k],
        decreases n - i,
    {
        if lower_char_exec(s.get_char(i)) != t.get_char(i) {
            return false;
        }
        i = i + 1;
    }
    proof {
        assert(lower(s@) =~= t@);
    }
    true
}

impl HttpMethod {
    /// The method that `method_string` names, compared without regard to
    /// ASCII case; an unrecognized token is an `UnknownMethod` failure.
    pub fn from(method_string: &str) -> (r: Result<HttpMethod, HttpParseError>)
        ensures
            match r {
                Ok(m) => spec_method(method_string@) == Some(m),
                Err(e) => spec_method(method_string@) is None && e
                    == HttpParseError::UnknownMethod,
            },
    {
        proof {
            reveal_strlit("get");
            reveal_strlit("post");
            reveal_strlit("delete");
            reveal_strlit("options");
            assert("get"@ =~= method_token(HttpMethod::Get));
            assert("post"@ =~= method_token(HttpMethod::Post));
            assert("delete"@ =~= method_token(HttpMethod::Delete));
            assert("options"@ =~= method_token(HttpMethod::Options));
        }
        if eq_lower(method_string, "get") {
            Ok(HttpMethod::Get)
        } else if eq_lower(method_string, "post") {
            Ok(HttpMethod::Post)
        } else if eq_lower(method_string, "delete") {
            Ok(HttpMethod::Delete)
        } else if eq_lower(method_string, "options") {
            Ok(HttpMethod::Options)
        } else {
            Err(HttpParseError::UnknownMethod)
        }
    }
}

// ---------------------------------------------------------------------------
// Version parsing
// ---------------------------------------------------------------------------
/// Value of a longer digit prefix is at least the value of a shorter one.
proof fn lemma_digits_val_prefix(s: Seq<char>, i: int, j: int)
    requires
        0 <= i <= j <= s.len(),
    ensures
        digits_val(s.subrange(0, i)) <= digits_val(s.subrange(0, j)),
    decreases j - i,
{
    if i < j {
        lemma_digits_val_prefix(s, i, j - 1);
        assert(s.subrange(0, j).drop_last() =~= s.subrange(0, j - 1));
        assert(digits_val(s.subrange(0, j - 1)) * 10 >= digits_val(s.subrange(0, j - 1)));
    }
}

/// The digits of `s` read as a number, when `s` is all digits with a value
/// that fits a `u32`.
fn parse_u32_digits(s: &str) -> (r: Option<u32>)
    ensures
        match r {
            Some(v) => all_digits(s@) && digits_val(s@) == v,
            None => !(all_digits(s@) && digits_val(s@) <= u32::MAX),
        },
{
    let n = s.unicode_len();
    if n == 0 {
        return None;
    }
    let mut val: u64 = 0;
    let mut i: usize = 0;
    while i < n
        invariant
            n == s@.len(),
            0 <= i <= n,
            forall|k: int| 0 <= k < i ==> is_digit(#[trigger] s@[k]),
            val == digits_val(s@.subrange(0, i as int)),
            val <= u32::MAX,
        decreases n - i,
    {
        let c = s.get_char(i);
        let cv = c as u32;
        if cv < 48 || cv > 57 {
            assert(!is_digit(s@[i as int]));
            return None;
        }
        assert(is_digit(s@[i as int]));
        let d = (cv - 48) as u64;
        let next = val * 10 + d;
        proof {
            assert(s@.subrange(0, i + 1).drop_last() =~= s@.subrange(0, i as int));
            assert(digits_val(s@.subrange(0, i + 1)) == val * 10 + digit_val(s@[i as int]));
        }
        if next > u32::MAX as u64 {
            proof {
                lemma_digits_val_prefix(s@, i + 1, n as int);
                assert(s@.subrange(0, n as int) =~= s@);
            }
            return None;
        }
        val = next;
        i = i + 1;
    }
    proof {
        assert(s@.subrange(0, n as int) =~= s@);
    }
    Some(val as u32)
}

/// The version that a numeral such as `1.1` denotes, per [`spec_numeral`].
fn parse_numeral(s: &str) -> (r: Option<HttpVersion>)
    ensures
        r == spec_numeral(s@),
{
    proof {
        reveal_strlit(".");
        assert("."@ =~= seq!['.']);
    }
    let parts = split_str(s, ".");
    if parts.len() != 2 {
        return None;
    }
    assert(parts.deep_view()[0] == parts@[0]@ && parts.deep_view()[1] == parts@[1]@);
    let major = match parse_u32_digits(parts[0].as_str()) {
        Some(v) => v,
        None => {
            return None;
        },
    };
    let minor = match parse_u32_digits(parts[1].as_str()) {
        Some(v) => v,
        None => {
            return None;
        },
    };
    Some(HttpVersion { major, minor })
}

/// The version carried by a full version token such as `HTTP/1.1`; a token
/// without a second `/`-separated segment, or whose second segment is not a
/// version numeral, is an `InvalidVersion` failure.
pub fn get_http_version(full_version_string: &str) -> (r: Result<HttpVersion, HttpParseError>)
    ensures
        match r {
            Ok(v) => spec_version(full_version_string@) == Some(v),
            Err(e) => spec_version(full_version_string@) is None && e
                == HttpParseError::InvalidVersion,
        },
{
    proof {
        reveal_strlit("/");
        assert("/"@ =~= seq!['/']);
    }
    let segs = split_str(full_version_string, "/");
    if segs.len() < 2 {
        return Err(HttpParseError::InvalidVersion);
    }
    assert(segs.deep_view()[1] == segs@[1]@);
    match parse_numeral(segs[1].as_str()) {
        Some(v) => Ok(v),
        None => Err(HttpParseError::InvalidVersion),
    }
}

// ---------------------------------------------------------------------------
// Header and body extraction
// ---------------------------------------------------------------------------
/// The header fields read from `lines[i..]`, added to `acc`, stopping at the
/// first empty line or at the end. A non-empty line splits at its first
/// `": "` into a key and a value; one without that separator is a
/// `MalformedHeader` failure.
pub open spec fn spec_headers_from(
    lines: Seq<Seq<char>>,
    i: int,
    acc: Map<Seq<char>, Seq<char>>,
) -> Result<Map<Seq<char>, Seq<char>>, HttpParseError>
    decreases lines.len() - i,
{
    if i < 0 || i >= lines.len() {
        Ok(acc)
    } else if lines[i].len() == 0 {
        Ok(acc)
    } else {
        match find_sub(lines[i], colon_space()) {
            Some(j) => spec_headers_from(
                lines,
                i + 1,
                acc.insert(lines[i].subrange(0, j), lines[i].subrange(j + 2, lines[i].len() as int)),
            ),
            None => Err(HttpParseError::MalformedHeader),
        }
    }
}

/// The header fields of a request whose lines are `lines`: those of the
/// lines after the status line, absent when there are none.
pub open spec fn spec_headers(lines: Seq<Seq<char>>) -> Result<
    Option<Map<Seq<char>, Seq<char>>>,
    HttpParseError,
> {
    match spec_headers_from(lines, 1, Map::empty()) {
        Ok(hm) => Ok(
            if hm == Map::<Seq<char>, Seq<char>>::empty() {
                None
            } else {
                Some(hm)
            },
        ),
        Err(e) => Err(e),
    }
}

/// The index of the line on which the body begins: the line after the first
/// empty line that is immediately followed by a non-empty line, looking from
/// `i` on. A trailing empty line followed by nothing begins no body.
pub open spec fn spec_body_begin(lines: Seq<Seq<char>>, i: int) -> Option<int>
    decreases lines.len() - i,
{
    if i < 0 || i + 1 >= lines.len() {
        None
    } else if lines[i].len() == 0 && lines[i + 1].len() != 0 {
        Some(i + 1)
    } else {
        spec_body_begin(lines, i + 1)
    }
}

/// The body of a request whose lines are `lines`: the lines from the body's
/// beginning, rejoined with the line terminator; absent when no line begins
/// a body.
pub open spec fn spec_body(lines: Seq<Seq<char>>) -> Option<Seq<char>> {
    match spec_body_begin(lines, 0) {
        Some(b) => Some(join_with(lines.skip(b), crlf())),
        None => None,
    }
}

/// The header fields among `lines`, per [`spec_headers`]: `lines` here are
/// all the lines of a request, the status line first.
pub fn get_headers_from_lines(lines: &Vec<String>) -> (r: Result<
    Option<StringMap>,
    HttpParseError,
>)
    ensures
        match r {
            Ok(h) => match h {
                Some(m) => m.wf() && spec_headers(lines.deep_view()) == Ok::<
                    Option<Map<Seq<char>, Seq<char>>>,
                    HttpParseError,
                >(Some(m@)),
                None => spec_headers(lines.deep_view()) == Ok::<
                    Option<Map<Seq<char>, Seq<char>>>,
                    HttpParseError,
                >(None),
            },
            Err(e) => spec_headers(lines.deep_view()) == Err::<
                Option<Map<Seq<char>, Seq<char>>>,
                HttpParseError,
            >(e),
        },
{
    let ghost lv = lines.deep_view();
    let mut headers = StringMap::new();
    let mut i: usize = 1;
    while i < lines.len() && !lines[i].as_str().is_empty()
        invariant
            lv == lines.deep_view(),
            headers.wf(),
            1 <= i,
            i <= lv.len() || i == 1,
            spec_headers_from(lv, 1, Map::empty()) == spec_headers_from(lv, i as int, headers@),
        decreases lv.len() - i,
    {
        proof {
            reveal_strlit(": ");
            assert(": "@ =~= colon_space());
        }
        let line = lines[i].as_str();
        let n = line.unicode_len();
        assert(line@ == lv[i as int]);
        match find_first(line, ": ") {
            Some(j) => {
                proof {
                    crate::text::lemma_find_sub(line@, colon_space());
                }
                let key = substring(line, 0, j);
                let value = substring(line, j + 2, n);
                headers.insert(key, value);
            },
            None => {
                return Err(HttpParseError::MalformedHeader);
            },
        }
        i = i + 1;
    }
    if headers.is_empty() {
        Ok(None)
    } else {
        Ok(Some(headers))
    }
}

/// The index of the line on which the body of a request with lines `lines`
/// begins, if one does, per [`spec_body_begin`].
pub fn get_body_begin_index(lines: &Vec<String>) -> (r: Option<usize>)
    ensures
        match r {
            Some(b) => spec_body_begin(lines.deep_view(), 0) == Some(b as int) && 0 < b
                < lines.deep_view().len(),
            None => spec_body_begin(lines.deep_view(), 0) is None,
        },
{
    let ghost lv = lines.deep_view();
    let mut i: usize = 0;
    while lines.len() > 0 && i < lines.len() - 1
        invariant
            lv == lines.deep_view(),
            0 <= i,
            i <= lv.len() || i == 0,
            spec_body_begin(lv, 0) == spec_body_begin(lv, i as int),
        decreases lv.len() - i,
    {
        if lines[i].as_str().is_empty() && !lines[i + 1].as_str().is_empty() {
            return Some(i + 1);
        }
        i = i + 1;
    }
    None
}

// ---------------------------------------------------------------------------
// The structured request
// ---------------------------------------------------------------------------
/// A structured request, at the specification level: strings as character
/// sequences, headers as a mathematical map.
pub struct SpecRequest {
    pub method: HttpMethod,
    pub uri: Seq<char>,
    pub version: HttpVersion,
    pub headers: Option<Map<Seq<char>, Seq<char>>>,
    pub body: Option<Seq<char>>,
}

/// The structured request that a raw request denotes, or the first failure
/// in reading it: lines split on the line terminator; the first line must
/// hold at least three space-separated tokens (method, URI, version, in that
/// order); headers and body follow per [`spec_headers`] and [`spec_body`].
pub open spec fn spec_parse(raw: Seq<char>) -> Result<SpecRequest, HttpParseError> {
    let lines = split_on(raw, crlf());
    let toks = split_on(lines[0], seq![' ']);
    if toks.len() < 3 {
        Err(HttpParseError::MalformedRequest)
    } else {
        match spec_method(toks[0]) {
            None => Err(HttpParseError::UnknownMethod),
            Some(m) => match spec_version(toks[2]) {
                None => Err(HttpParseError::InvalidVersion),
                Some(v) => match spec_headers(lines) {
                    Err(e) => Err(e),
                    Ok(h) => Ok(
                        SpecRequest {
                            method: m,
                            uri: toks[1],
                            version: v,
                            headers: h,
                            body: spec_body(lines),
                        },
                    ),
                },
            },
        }
    }
}

/// A structured request: the parts of the status line, the header fields if
/// any line held one, and the body if one began.
#[derive(Debug, PartialEq)]
pub struct HttpRequest {
    pub http_method: HttpMethod,
    pub uri: String,
    pub http_version: HttpVersion,
    pub headers: Option<StringMap>,
    pub body: Option<String>,
}

impl View for HttpRequest {
    type V = SpecRequest;

    open spec fn view(&self) -> SpecRequest {
        SpecRequest {
            method: self.http_method,
            uri: self.uri@,
            version: self.http_version,
            headers: match self.headers {
                Some(ref m) => Some(m@),
                None => None,
            },
            body: match self.body {
                Some(ref b) => Some(b@),
                None => None,
            },
        }
    }
}

impl HttpRequest {
    /// The header map, when present, holds one entry per key.
    pub open spec fn wf(&self) -> bool {
        match self.headers {
            Some(ref m) => m.wf(),
            None => true,
        }
    }

    /// The structured request that `raw_request` denotes, per
    /// [`spec_parse`]; a raw request that `spec_parse` refuses is refused
    /// here with the same failure.
    pub fn from(raw_request: &str) -> (r: Result<HttpRequest, HttpParseError>)
        ensures
            match r {
                Ok(req) => spec_parse(raw_request@) == Ok::<SpecRequest, HttpParseError>(req@)
                    && req.wf(),
                Err(e) => spec_parse(raw_request@) == Err::<SpecRequest, HttpParseError>(e),
            },
    {
        proof {
            reveal_strlit("\r\n");
            reveal_strlit(" ");
            assert("\r\n"@ =~= crlf());
            assert(" "@ =~= seq![' ']);
        }
        let lines = split_str(raw_request, "\r\n");
        assert(lines@[0]@ == lines.deep_view()[0]);
        let toks = split_str(lines[0].as_str(), " ");
        if toks.len() < 3 {
            return Err(HttpParseError::MalformedRequest);
        }
        assert(toks@[0]@ == toks.deep_view()[0] && toks@[1]@ == toks.deep_view()[1] && toks@[2]@
            == toks.deep_view()[2]);
        let http_method = match HttpMethod::from(toks[0].as_str()) {
            Ok(m) => m,
            Err(e) => {
                return Err(e);
            },
        };
        let http_version = match get_http_version(toks[2].as_str()) {
            Ok(v) => v,
            Err(e) => {
                return Err(e);
            },
        };
        let headers = match get_headers_from_lines(&lines) {
            Ok(h) => h,
            Err(e) => {
                return Err(e);
            },
        };
        let body = match get_body_begin_index(&lines) {
            Some(b) => Some(join_from(&lines, b, "\r\n")),
            None => None,
        };
        let uri = toks[1].clone();
        Ok(HttpRequest { http_method, uri, http_version, headers, body })
    }
}

// ---------------------------------------------------------------------------
// Query parameters
// ---------------------------------------------------------------------------
/// The parameter pairs of the `&`-separated pieces `pieces[i..]`, added to
/// `acc`. A piece with an `=` contributes the key before and the value after
/// its first `=`; later pairs with the same key override earlier ones; a
/// piece without `=` contributes nothing.
pub open spec fn spec_params_from(
    pieces: Seq<Seq<char>>,
    i: int,
    acc: Map<Seq<char>, Seq<char>>,
) -> Map<Seq<char>, Seq<char>>
    decreases pieces.len() - i,
{
    if i < 0 || i >= pieces.len() {
        acc
    } else {
        match find_sub(pieces[i], seq!['=']) {
            Some(j) => spec_params_from(
                pieces,
                i + 1,
                acc.insert(
                    pieces[i].subrange(0, j),
                    pieces[i].subrange(j + 1, pieces[i].len() as int),
                ),
            ),
            None => spec_params_from(pieces, i + 1, acc),
        }
    }
}

/// The query parameters of a URI: the part after the first `?` splits on
/// `&` into pieces whose pairs are read per [`spec_params_from`]. A URI
/// without `?`, or one whose pieces contribute no pair, has no parameters.
pub open spec fn spec_params(uri: Seq<char>) -> Option<Map<Seq<char>, Seq<char>>> {
    let qsplit = split_on(uri, seq!['?']);
    if qsplit.len() < 2 {
        None
    } else {
        let m = spec_params_from(split_on(qsplit[1], seq!['&']), 0, Map::empty());
        if m == Map::<Seq<char>, Seq<char>>::empty() {
            None
        } else {
            Some(m)
        }
    }
}

impl HttpRequest {
    /// The query parameters carried by this request's URI, per
    /// [`spec_params`]; recomputed on each call, absent when the URI carries
    /// none.
    pub fn params(&self) -> (r: Option<StringMap>)
        ensures
            match r {
                Some(m) => m.wf() && spec_params(self.uri@) == Some(m@),
                None => spec_params(self.uri@) is None,
            },
    {
        proof {
            reveal_strlit("?");
            reveal_strlit("&");
            assert("?"@ =~= seq!['?']);
            assert("&"@ =~= seq!['&']);
        }
        let qsplit = split_str(self.uri.as_str(), "?");
        if qsplit.len() < 2 {
            return None;
        }
        assert(qsplit@[1]@ == qsplit.deep_view()[1]);
        let pieces = split_str(qsplit[1].as_str(), "&");
        let ghost pv = pieces.deep_view();
        let mut params = StringMap::new();
        let mut i: usize = 0;
        while i < pieces.len()
            invariant
                pv == pieces.deep_view(),
                params.wf(),
                0 <= i <= pv.len(),
                spec_params_from(pv, 0, Map::empty()) == spec_params_from(pv, i as int, params@),
            decreases pv.len() - i,
        {
            proof {
                reveal_strlit("=");
                assert("="@ =~= seq!['=']);
            }
            let piece = pieces[i].as_str();
            let n = piece.unicode_len();
            assert(piece@ == pv[i as int]);
            match find_first(piece, "=") {
                Some(j) => {
                    proof {
                        crate::text::lemma_find_sub(piece@, seq!['=']);
                    }
                    let key = substring(piece, 0, j);
                    let value = substring(piece, j + 1, n);
                    params.insert(key, value);
                },
                None => {},
            }
            i = i + 1;
        }
        if params.is_empty() {
            None
        } else {
            Some(params)
        }
    }
}

// ---------------------------------------------------------------------------
// Round-trip of well-formed status lines
// ---------------------------------------------------------------------------
/// No character of `s` is `c`.
pub open spec fn no_char(s: Seq<char>, c: char) -> bool {
    forall|i: int| 0 <= i < s.len() ==> s[i] != c
}

/// The canonical upper-case token that names a method on a status line.
pub open spec fn method_upper(m: HttpMethod) -> Seq<char> {
    match m {
        HttpMethod::Get => seq!['G', 'E', 'T'],
        HttpMethod::Post => seq!['P', 'O', 'S', 'T'],
        HttpMethod::Delete => seq!['D', 'E', 'L', 'E', 'T', 'E'],
        HttpMethod::Options => seq!['O', 'P', 'T', 'I', 'O', 'N', 'S'],
    }
}

/// The character of one digit value.
pub open spec fn digit_char(d: nat) -> char {
    ((48 + d) as u8) as char
}

/// The canonical decimal numeral of `n`, without leading zeros.
pub open spec fn decimal(n: nat) -> Seq<char>
    decreases n,
{
    if n < 10 {
        seq![digit_char(n)]
    } else {
        decimal(n / 10).push(digit_char(n % 10))
    }
}

/// The status line rendering `m`, `uri` and `version`, terminated by the
/// line terminator.
pub open spec fn render_status_line(m: HttpMethod, uri: Seq<char>, version: HttpVersion) -> Seq<
    char,
> {
    method_upper(m) + seq![' '] + uri + seq![' '] + seq!['H', 'T', 'T', 'P', '/'] + decimal(
        version.major as nat,
    ) + seq!['.'] + decimal(version.minor as nat) + crlf()
}

proof fn lemma_no_char_concat(a: Seq<char>, b: Seq<char>, c: char)
    requires
        no_char(a, c),
        no_char(b, c),
    ensures
        no_char(a + b, c),
{
    assert forall|i: int| 0 <= i < (a + b).len() implies (a + b)[i] != c by {
        if i < a.len() {
            assert((a + b)[i] == a[i]);
        } else {
            assert((a + b)[i] == b[i - a.len()]);
        }
    }
}

proof fn lemma_split_single_prefix(a: Seq<char>, c: char, b: Seq<char>)
    requires
        no_char(a, c),
    ensures
        split_on(a + seq![c] + b, seq![c]) == seq![a] + split_on(b, seq![c]),
{
    let s = a + seq![c] + b;
    assert forall|i: int| 0 <= i < a.len() implies !occurs_at(s, seq![c], i) by {
        crate::text::lemma_occurs_single(s, c, i);
        assert(s[i] == a[i]);
    }
    crate::text::lemma_split_prefix(a, seq![c], b);
}

proof fn lemma_split_single_none(s: Seq<char>, c: char)
    requires
        no_char(s, c),
    ensures
        split_on(s, seq![c]) == seq![s],
{
    assert forall|i: int| !occurs_at(s, seq![c], i) by {
        crate::text::lemma_occurs_single(s, c, i);
    }
    crate::text::lemma_split_none(s, seq![c]);
}

proof fn lemma_split_crlf_line(a: Seq<char>)
    requires
        no_char(a, '\r'),
    ensures
        split_on(a + crlf(), crlf()) == seq![a, Seq::<char>::empty()],
{
    let e = Seq::<char>::empty();
    let s = a + crlf() + e;
    assert(a + crlf() =~= s);
    assert forall|i: int| 0 <= i < a.len() implies !occurs_at(s, crlf(), i) by {
        if occurs_at(s, crlf(), i) {
            assert(s.subrange(i, i + 2)[0] == s[i]);
            assert(s[i] == a[i]);
        }
    }
    crate::text::lemma_split_prefix(a, crlf(), e);
    assert(split_on(e, crlf()) == seq![e + e]);
    assert(e + e =~= e);
    assert(seq![a] + seq![e] =~= seq![a, e]);
}

proof fn lemma_method_upper(m: HttpMethod)
    ensures
        lower(method_upper(m)) == method_token(m),
        3 <= method_upper(m).len() <= 7,
        no_char(method_upper(m), ' '),
        no_char(method_upper(m), '\r'),
        spec_method(method_upper(m)) == Some(m),
{
    let u = method_upper(m);
    assert forall|i: int| 0 <= i < u.len() implies lower(u)[i] == method_token(m)[i] by {
        assert(lower(u)[i] == lower_char(u[i]));
    }
    assert(lower(u) =~= method_token(m));
}

proof fn lemma_decimal(n: nat)
    ensures
        all_digits(decimal(n)),
        digits_val(decimal(n)) == n,
    decreases n,
{
    if n < 10 {
        let s = seq![digit_char(n)];
        assert(is_digit(digit_char(n)));
        assert(digits_val(Seq::<char>::empty()) == 0);
        assert(s.drop_last() =~= Seq::<char>::empty());
        assert(digits_val(s.drop_last()) == 0);
        assert(digits_val(s) == digit_val(digit_char(n)));
        assert(digit_val(digit_char(n)) == n);
    } else {
        lemma_decimal(n / 10);
        let s = decimal(n);
        assert(s =~= decimal(n / 10).push(digit_char((n % 10) as nat)));
        assert(s.drop_last() =~= decimal(n / 10));
        assert(s.last() == digit_char((n % 10) as nat));
        assert(is_digit(s.last()));
        assert(digit_val(s.last()) == n % 10);
        assert(digits_val(s) == digits_val(decimal(n / 10)) * 10 + digit_val(s.last()));
        assert(n / 10 * 10 + n % 10 == n);
        assert forall|i: int| 0 <= i < s.len() implies is_digit(#[trigger] s[i]) by {
            if i < s.len() - 1 {
                assert(s[i] == decimal(n / 10)[i]);
            }
        }
    }
}

proof fn lemma_digits_no_char(s: Seq<char>, c: char)
    requires
        all_digits(s),
        c < '0' || c > '9',
    ensures
        no_char(s, c),
{
    assert forall|i: int| 0 <= i < s.len() implies s[i] != c by {
        assert(is_digit(s[i]));
    }
}

/// Round-trip: a well-formed status line
/// `"<METHOD> <URI> HTTP/<MAJOR>.<MINOR>\r\n"` parses to exactly the method,
/// URI and version it renders, with no headers and no body. Well-formed
/// means the URI holds no space and no carriage return.
pub proof fn lemma_status_line_round_trip(m: HttpMethod, uri: Seq<char>, version: HttpVersion)
    requires
        no_char(uri, ' '),
        no_char(uri, '\r'),
    ensures
        spec_parse(render_status_line(m, uri, version)) == Ok::<SpecRequest, HttpParseError>(
            (SpecRequest { method: m, uri: uri, version: version, headers: None, body: None }),
        ),
{
    let e = Seq::<char>::empty();
    let mu = method_upper(m);
    let maj = decimal(version.major as nat);
    let min = decimal(version.minor as nat);
    let http = seq!['H', 'T', 'T', 'P'];
    let numeral = maj + seq!['.'] + min;
    let vtok = http + seq!['/'] + numeral;
    let status = mu + seq![' '] + uri + seq![' '] + vtok;
    let s = render_status_line(m, uri, version);
    lemma_method_upper(m);
    lemma_decimal(version.major as nat);
    lemma_decimal(version.minor as nat);
    assert(no_char(http, ' ') && no_char(http, '\r') && no_char(http, '/'));
    assert(no_char(seq!['/'], ' ') && no_char(seq!['/'], '\r'));
    assert(no_char(seq!['.'], ' ') && no_char(seq!['.'], '\r') && no_char(seq!['.'], '/'));
    lemma_digits_no_char(maj, ' ');
    lemma_digits_no_char(maj, '\r');
    lemma_digits_no_char(maj, '/');
    lemma_digits_no_char(maj, '.');
    lemma_digits_no_char(min, ' ');
    lemma_digits_no_char(min, '\r');
    lemma_digits_no_char(min, '/');
    lemma_digits_no_char(min, '.');
    lemma_no_char_concat(maj, seq!['.'], '/');
    lemma_no_char_concat(maj + seq!['.'], min, '/');
    assert(no_char(numeral, '/'));
    lemma_no_char_concat(http, seq!['/'], ' ');
    lemma_no_char_concat(maj, seq!['.'], ' ');
    lemma_no_char_concat(maj + seq!['.'], min, ' ');
    lemma_no_char_concat(http + seq!['/'], numeral, ' ');
    assert(no_char(vtok, ' '));
    lemma_no_char_concat(http, seq!['/'], '\r');
    lemma_no_char_concat(maj, seq!['.'], '\r');
    lemma_no_char_concat(maj + seq!['.'], min, '\r');
    lemma_no_char_concat(http + seq!['/'], numeral, '\r');
    assert(no_char(vtok, '\r'));
    lemma_no_char_concat(mu, seq![' '], '\r');
    lemma_no_char_concat(mu + seq![' '], uri, '\r');
    lemma_no_char_concat(mu + seq![' '] + uri, seq![' '], '\r');
    lemma_no_char_concat(mu + seq![' '] + uri + seq![' '], vtok, '\r');
    assert(no_char(status, '\r'));
    // The lines: the status line, then one empty line.
    assert(s =~= status + crlf());
    lemma_split_crlf_line(status);
    let lines = split_on(s, crlf());
    assert(lines == seq![status, e]);
    assert(lines[0] == status && lines[1] == e && lines.len() == 2);
    // The tokens of the status line.
    assert(status =~= mu + seq![' '] + (uri + seq![' '] + vtok));
    lemma_split_single_prefix(mu, ' ', uri + seq![' '] + vtok);
    lemma_split_single_prefix(uri, ' ', vtok);
    lemma_split_single_none(vtok, ' ');
    let toks = split_on(status, seq![' ']);
    assert(toks == seq![mu] + (seq![uri] + seq![vtok]));
    assert(toks =~= seq![mu, uri, vtok]);
    assert(toks.len() == 3 && toks[0] == mu && toks[1] == uri && toks[2] == vtok);
    // The method token denotes m.
    assert(spec_method(toks[0]) == Some(m));
    // The version token denotes the version.
    assert(vtok =~= http + seq!['/'] + numeral);
    lemma_split_single_prefix(http, '/', numeral);
    lemma_split_single_none(numeral, '/');
    let segs = split_on(vtok, seq!['/']);
    assert(segs == seq![http] + seq![numeral]);
    assert(segs =~= seq![http, numeral]);
    assert(segs.len() == 2 && segs[1] == numeral);
    lemma_split_single_prefix(maj, '.', min);
    lemma_split_single_none(min, '.');
    let parts = split_on(numeral, seq!['.']);
    assert(parts == seq![maj] + seq![min]);
    assert(parts =~= seq![maj, min]);
    assert(parts.len() == 2 && parts[0] == maj && parts[1] == min);
    assert(digits_val(parts[0]) == version.major as nat <= u32::MAX);
    assert(digits_val(parts[1]) == version.minor as nat <= u32::MAX);
    assert(spec_numeral(numeral) == Some(version));
    assert(spec_version(toks[2]) == Some(version));
    // No header line, so headers are absent.
    assert(spec_headers_from(lines, 1, Map::empty()) == Ok::<
        Map<Seq<char>, Seq<char>>,
        HttpParseError,
    >(Map::empty()));
    assert(spec_headers(lines) == Ok::<Option<Map<Seq<char>, Seq<char>>>, HttpParseError>(None));
    // No blank-then-nonblank transition, so the body is absent.
    assert(status.len() > 0);
    assert(spec_body_begin(lines, 1) is None);
    assert(spec_body_begin(lines, 0) is None);
    assert(spec_body(lines) is None);
}

/// Case-insensitivity: a method token and its ASCII-lowercased form denote
/// the same method, so tokens that differ only in case parse alike.
pub proof fn lemma_method_case_insensitive(tok: Seq<char>)
    ensures
        spec_method(lower(tok)) == spec_method(tok),
{
    assert forall|i: int| 0 <= i < tok.len() implies lower(lower(tok))[i] == lower(tok)[i] by {
        assert(lower(tok)[i] == lower_char(tok[i]));
        assert(lower(lower(tok))[i] == lower_char(lower_char(tok[i])));
    }
    assert(lower(lower(tok)) =~= lower(tok));
}

} // verus!

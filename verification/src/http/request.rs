//! The request: its method, target, version, headers and body, each read
//! from the raw text on its own.

use crate::http::response::{served, Entry, HttpResponse};
use crate::text::{
    ascii_blank, find, find_between, find_first, is_ascii_blank, is_literal, is_token,
    lemma_find_sound, lemma_split_once_at, lemma_split_once_at_char, lemma_subrange_of_subrange,
    lemma_token_end_unique, lemma_token_start_outside, occurs_at, split_once, to_chars, trim,
    trim_between,
};
use vstd::hash_map::StringHashMap;
use vstd::prelude::*;
use vstd::slice::slice_subrange;

verus! {

/// The line that a request starts with: what stands before the first
/// `"\r\n"`.
pub open spec fn request_line(s: Seq<char>) -> Option<Seq<char>> {
    match split_once(s, "\r\n"@) {
        Some((line, _)) => Some(line),
        None => None,
    }
}

/// The protocol version that a request declares.
#[derive(Debug, Clone, Copy, PartialEq, Eq, Structural)]
pub enum Version {
    V1_1,
    V2_0,
}

/// `a..b` bounds a token of `line` that names a version.
pub open spec fn version_token(line: Seq<char>, a: int, b: int) -> bool {
    is_token(line, a, b) && Version::of_token(line.subrange(a, b)) is Some
}

/// `a..b` bounds the first token of `line` that names a version.
pub open spec fn first_version_token(line: Seq<char>, a: int, b: int) -> bool {
    &&& version_token(line, a, b)
    &&& forall|c: int, d: int| version_token(line, c, d) ==> a <= c
}

/// The version that the first version token of `line` names.
pub open spec fn detect_version(line: Seq<char>) -> Option<Version> {
    if exists|a: int, b: int| first_version_token(line, a, b) {
        let (a, b) = choose|a: int, b: int| first_version_token(line, a, b);
        Version::of_token(line.subrange(a, b))
    } else {
        None
    }
}

/// The version that the request line of `s` declares.
pub open spec fn parse_version(s: Seq<char>) -> Option<Version> {
    match request_line(s) {
        Some(line) => detect_version(line),
        None => None,
    }
}

/// The first version token of a line decides what `detect_version` gives.
pub proof fn lemma_detect_first(line: Seq<char>, a: int, b: int)
    requires
        first_version_token(line, a, b),
    ensures
        detect_version(line) == Version::of_token(line.subrange(a, b)),
{
    let (c, d) = choose|c: int, d: int| first_version_token(line, c, d);
    assert(first_version_token(line, c, d));
    assert(a <= c && c <= a);
    lemma_token_end_unique(line, a, b, d);
}

impl Version {
    /// The version that a token names, if it names one.
    pub open spec fn of_token(t: Seq<char>) -> Option<Version> {
        if t == "HTTP/1.1"@ {
            Some(Version::V1_1)
        } else if t == "HTTP/2"@ || t == "HTTP/2.0"@ {
            Some(Version::V2_0)
        } else {
            None
        }
    }

    /// The token that stands for the version in a status line.
    pub open spec fn text(self) -> Seq<char> {
        match self {
            Version::V1_1 => "HTTP/1.1"@,
            Version::V2_0 => "HTTP/2"@,
        }
    }

    /// The version that `token` names, if it names one.
    pub fn from_token(token: &[char]) -> (r: Option<Version>)
        ensures
            r == Version::of_token(token@),
    {
        if is_literal(token, "HTTP/1.1") {
            Some(Version::V1_1)
        } else if is_literal(token, "HTTP/2") || is_literal(token, "HTTP/2.0") {
            Some(Version::V2_0)
        } else {
            None
        }
    }

    /// The version that the first version token of `line` names.
    pub fn detect(line: &[char]) -> (r: Option<Version>)
        ensures
            r == detect_version(line@),
    {
        let n: usize = line.len();
        let mut i: usize = 0;
        while i < n
            invariant
                i <= n,
                n == line@.len(),
                i == 0 || i == n || is_ascii_blank(line@[i - 1]) || is_ascii_blank(line@[i as int]),
                forall|c: int, d: int| version_token(line@, c, d) ==> i <= c,
            decreases n - i,
        {
            if ascii_blank(line[i]) {
                assert forall|c: int, d: int| version_token(line@, c, d) implies i + 1 <= c by {
                    if c == i {
                        assert(!is_ascii_blank(line@[c]));
                    }
                }
                i = i + 1;
            } else {
                let a: usize = i;
                let mut b: usize = i + 1;
                while b < n && !ascii_blank(line[b])
                    invariant
                        a < b <= n,
                        n == line@.len(),
                        forall|k: int| a <= k < b ==> !is_ascii_blank(#[trigger] line@[k]),
                    decreases n - b,
                {
                    b = b + 1;
                }
                assert(is_token(line@, a as int, b as int));
                let found = Version::from_token(slice_subrange(line, a, b));
                if found.is_some() {
                    proof {
                        lemma_detect_first(line@, a as int, b as int);
                    }
                    return found;
                }
                assert forall|c: int, d: int| version_token(line@, c, d) implies b <= c by {
                    if c == a {
                        lemma_token_end_unique(line@, a as int, b as int, d);
                    } else {
                        lemma_token_start_outside(line@, a as int, b as int, c, d);
                        assert(!is_ascii_blank(line@[c]));
                    }
                }
                i = b;
            }
        }
        assert forall|a: int, b: int| !first_version_token(line@, a, b) by {
            if version_token(line@, a, b) {
                assert(n <= a);
            }
        }
        None
    }

    /// The version that the request line of `chars` declares.
    pub fn parse(chars: &[char]) -> (r: Option<Version>)
        ensures
            r == parse_version(chars@),
    {
        let crlf = to_chars("\r\n");
        match find_first(chars, crlf.as_slice()) {
            Some(end) => Version::detect(slice_subrange(chars, 0, end)),
            None => None,
        }
    }

    /// Reads the version that a request declares: the first token of its
    /// request line that is `HTTP/1.1`, `HTTP/2` or `HTTP/2.0`. Fails where
    /// the text has no `"\r\n"` or its first line has no such token.
    pub fn new(request: &str) -> (r: Result<Version, VersionError>)
        ensures
            match r {
                Ok(v) => parse_version(request@) == Some(v),
                Err(e) => parse_version(request@) is None && e@ == VersionError::message_for(
                    request@,
                ),
            },
    {
        let chars = to_chars(request);
        match Version::parse(chars.as_slice()) {
            Some(v) => Ok(v),
            None => Err(VersionError::unknown(request)),
        }
    }

    /// The token that stands for the version in a status line.
    pub fn as_str(&self) -> (s: &'static str)
        ensures
            s@ == self.text(),
    {
        match self {
            Version::V1_1 => "HTTP/1.1",
            Version::V2_0 => "HTTP/2",
        }
    }

    /// The token that stands for the version in a status line.
    pub fn to_string(&self) -> (s: String)
        ensures
            s@ == self.text(),
    {
        String::from_str(self.as_str())
    }
}

impl core::str::FromStr for Version {
    type Err = VersionError;

    fn from_str(request: &str) -> (r: Result<Version, VersionError>)
        ensures
            match r {
                Ok(v) => parse_version(request@) == Some(v),
                Err(e) => parse_version(request@) is None && e@ == VersionError::message_for(
                    request@,
                ),
            },
    {
        Version::new(request)
    }
}

/// Why no version could be read from a request.
#[derive(Debug)]
pub struct VersionError {
    msg: String,
}

impl View for VersionError {
    type V = Seq<char>;

    closed spec fn view(&self) -> Seq<char> {
        self.msg@
    }
}

impl VersionError {
    /// The message for a request that declares no known version: it ends
    /// with the request itself.
    pub open spec fn message_for(request: Seq<char>) -> Seq<char> {
        "Unknown Protocol version in "@ + request
    }

    /// The error for a request that declares no known version.
    pub fn unknown(request: &str) -> (e: VersionError)
        ensures
            e@ == VersionError::message_for(request@),
    {
        let mut msg = String::from_str("Unknown Protocol version in ");
        msg.append(request);
        VersionError { msg }
    }

    /// The message.
    pub fn to_string(&self) -> (s: String)
        ensures
            s@ == self@,
    {
        self.msg.clone()
    }
}

/// The verb of a request.
#[derive(Debug, Clone, Copy, PartialEq, Eq, Structural)]
pub enum Method {
    Get,
    Post,
    Uninitialized,
}

/// The method that the request line of `s` starts with: the token before
/// its first space.
pub open spec fn parse_method(s: Seq<char>) -> Method {
    match request_line(s) {
        Some(line) => match split_once(line, " "@) {
            Some((verb, _)) => Method::of_token(verb),
            None => Method::Uninitialized,
        },
        None => Method::Uninitialized,
    }
}

impl Method {
    /// The method that a token names.
    pub open spec fn of_token(t: Seq<char>) -> Method {
        if t == "GET"@ {
            Method::Get
        } else if t == "POST"@ {
            Method::Post
        } else {
            Method::Uninitialized
        }
    }

    /// The method that `token` names.
    pub fn from_token(token: &[char]) -> (m: Method)
        ensures
            m == Method::of_token(token@),
    {
        if is_literal(token, "GET") {
            Method::Get
        } else if is_literal(token, "POST") {
            Method::Post
        } else {
            Method::Uninitialized
        }
    }

    /// The method that the request line of `chars` starts with.
    pub fn parse(chars: &[char]) -> (m: Method)
        ensures
            m == parse_method(chars@),
    {
        let crlf = to_chars("\r\n");
        let space = to_chars(" ");
        match find_first(chars, crlf.as_slice()) {
            Some(end) => match find_first(slice_subrange(chars, 0, end), space.as_slice()) {
                Some(verb_end) => {
                    proof {
                        lemma_subrange_of_subrange(chars@, 0, end as int, 0, verb_end as int);
                    }
                    Method::from_token(slice_subrange(chars, 0, verb_end))
                },
                None => Method::Uninitialized,
            },
            None => Method::Uninitialized,
        }
    }

    /// Reads the method of a request: `GET`, `POST`, or neither. A text
    /// without a request line, or a line without a space, has neither.
    pub fn new(request: &str) -> (m: Method)
        ensures
            m == parse_method(request@),
    {
        let chars = to_chars(request);
        Method::parse(chars.as_slice())
    }

    /// The method that `s` names: `GET`, `POST`, or neither.
    pub fn identify(s: &str) -> (m: Method)
        ensures
            m == Method::of_token(s@),
    {
        let chars = to_chars(s);
        Method::from_token(chars.as_slice())
    }
}

/// `t` without the one `/` that it may start with.
pub open spec fn strip_slash(t: Seq<char>) -> Seq<char> {
    if t.len() > 0 && t[0] == '/' {
        t.drop_first()
    } else {
        t
    }
}

/// The path that a request asks for: where the method is `GET` or `POST`,
/// what stands between the first and the second space of the request line,
/// without the one `/` that it may start with.
pub open spec fn parse_resource(s: Seq<char>) -> Option<Seq<char>> {
    match request_line(s) {
        Some(line) => match split_once(line, " "@) {
            Some((verb, rest)) => if Method::of_token(verb) == Method::Uninitialized {
                None
            } else {
                match split_once(rest, " "@) {
                    Some((target, _)) => Some(strip_slash(target)),
                    None => None,
                }
            },
            None => None,
        },
        None => None,
    }
}

/// The path that a request asks for, relative to the server's root.
#[derive(Debug)]
pub struct Resource {
    pub path: String,
}

impl Resource {
    /// The bounds in `chars` of the path that the request asks for.
    pub fn locate(chars: &[char]) -> (r: Option<(usize, usize)>)
        ensures
            match r {
                Some((a, b)) => a <= b <= chars@.len() && parse_resource(chars@) == Some(
                    chars@.subrange(a as int, b as int),
                ),
                None => parse_resource(chars@) is None,
            },
    {
        let crlf = to_chars("\r\n");
        let space = to_chars(" ");
        let end = match find_first(chars, crlf.as_slice()) {
            Some(end) => end,
            None => {
                return None;
            },
        };
        let ghost line = chars@.subrange(0, end as int);
        let verb_end = match find_between(chars, 0, end, space.as_slice()) {
            Some(verb_end) => verb_end,
            None => {
                return None;
            },
        };
        proof {
            lemma_subrange_of_subrange(chars@, 0, end as int, 0, verb_end as int);
        }
        if Method::from_token(slice_subrange(chars, 0, verb_end)) == Method::Uninitialized {
            return None;
        }
        let rest_start: usize = verb_end + space.len();
        let ghost rest = line.subrange(rest_start as int, end as int);
        proof {
            lemma_subrange_of_subrange(chars@, 0, end as int, rest_start as int, end as int);
        }
        let target_end = match find_between(chars, rest_start, end, space.as_slice()) {
            Some(target_end) => target_end,
            None => {
                return None;
            },
        };
        proof {
            lemma_subrange_of_subrange(
                chars@,
                rest_start as int,
                end as int,
                0,
                target_end - rest_start,
            );
        }
        let ghost target = chars@.subrange(rest_start as int, target_end as int);
        if rest_start < target_end && chars[rest_start] == '/' {
            assert(target.drop_first() =~= chars@.subrange(rest_start + 1, target_end as int));
            Some((rest_start + 1, target_end))
        } else {
            Some((rest_start, target_end))
        }
    }

    /// Reads the path that a request asks for. There is none where the
    /// method is neither `GET` nor `POST`, or the request line does not
    /// hold a method, a target and a version with a space between them.
    pub fn new(request: &str) -> (r: Option<Resource>)
        ensures
            match r {
                Some(resource) => parse_resource(request@) == Some(resource.path@),
                None => parse_resource(request@) is None,
            },
    {
        let chars = to_chars(request);
        match Resource::locate(chars.as_slice()) {
            Some((a, b)) => Some(Resource { path: String::from_str(request.substring_char(a, b)) }),
            None => None,
        }
    }
}

/// The header lines of a block: its lines, each ended by `"\r\n"` or by the
/// end of the block, as far as the first empty one.
pub open spec fn header_lines(block: Seq<char>) -> Seq<Seq<char>>
    decreases block.len(),
    via header_lines_decreases
{
    if block.len() == 0 {
        Seq::empty()
    } else {
        match split_once(block, "\r\n"@) {
            Some((line, rest)) => if line.len() == 0 {
                Seq::empty()
            } else {
                seq![line] + header_lines(rest)
            },
            None => seq![block],
        }
    }
}

#[via_fn]
proof fn header_lines_decreases(block: Seq<char>) {
    lemma_find_sound(block, "\r\n"@);
}

/// The name and the value of a header line: what stands before and after
/// its first colon, each without the white space around it.
pub open spec fn header_field(line: Seq<char>) -> Option<(Seq<char>, Seq<char>)> {
    match split_once(line, ":"@) {
        Some((name, value)) => Some((trim(name), trim(value))),
        None => None,
    }
}

/// The mapping that header lines give, a later line replacing an earlier
/// one of the same name; none where a line has no colon.
pub open spec fn header_map(lines: Seq<Seq<char>>) -> Option<Map<Seq<char>, Seq<char>>>
    decreases lines.len(),
{
    if lines.len() == 0 {
        Some(Map::empty())
    } else {
        match (header_map(lines.drop_last()), header_field(lines.last())) {
            (Some(m), Some((name, value))) => Some(m.insert(name, value)),
            _ => None,
        }
    }
}

/// The headers of a request: the mapping that the header lines after the
/// request line give.
pub open spec fn parse_headers(s: Seq<char>) -> Option<Map<Seq<char>, Seq<char>>> {
    match split_once(s, "\r\n"@) {
        Some((_, block)) => header_map(header_lines(block)),
        None => None,
    }
}

/// A line without a colon leaves no mapping, whatever stands around it.
pub proof fn lemma_header_map_bad_line(
    before: Seq<Seq<char>>,
    line: Seq<char>,
    after: Seq<Seq<char>>,
)
    requires
        header_field(line) is None,
    ensures
        header_map(before + seq![line] + after) is None,
    decreases after.len(),
{
    let all = before + seq![line] + after;
    if after.len() == 0 {
        assert(all.last() == line);
    } else {
        assert(all.drop_last() =~= before + seq![line] + after.drop_last());
        lemma_header_map_bad_line(before, line, after.drop_last());
    }
}

/// The name of a header line that has a colon.
pub open spec fn header_name(line: Seq<char>) -> Seq<char> {
    match header_field(line) {
        Some((name, _)) => name,
        None => Seq::empty(),
    }
}

/// The value of a header line that has a colon.
pub open spec fn header_value(line: Seq<char>) -> Seq<char> {
    match header_field(line) {
        Some((_, value)) => value,
        None => Seq::empty(),
    }
}

/// Header lines give a mapping just where each of them has a colon.
pub proof fn lemma_header_map_some(lines: Seq<Seq<char>>)
    ensures
        header_map(lines) is Some <==> forall|k: int|
            0 <= k < lines.len() ==> header_field(#[trigger] lines[k]) is Some,
    decreases lines.len(),
{
    if lines.len() > 0 {
        let front = lines.drop_last();
        lemma_header_map_some(front);
        if header_map(lines) is Some {
            assert forall|k: int| 0 <= k < lines.len() implies header_field(
                #[trigger] lines[k],
            ) is Some by {
                if k < lines.len() - 1 {
                    assert(lines[k] == front[k]);
                }
            }
        } else if header_map(front) is None {
            let k = choose|k: int| 0 <= k < front.len() && header_field(#[trigger] front[k]) is None;
            assert(lines[k] == front[k]);
        } else {
            assert(header_field(lines[lines.len() - 1]) is None);
        }
    }
}

/// The mapping holds, under the name of each header line, the value of the
/// last line of that name.
pub proof fn lemma_last_header_wins(lines: Seq<Seq<char>>, i: int)
    requires
        0 <= i < lines.len(),
        header_map(lines) is Some,
        forall|k: int| i < k < lines.len() ==> header_name(#[trigger] lines[k]) != header_name(
            lines[i],
        ),
    ensures
        header_field(lines[i]) is Some,
        header_map(lines)->0.contains_key(header_name(lines[i])),
        header_map(lines)->0[header_name(lines[i])] == header_value(lines[i]),
    decreases lines.len(),
{
    let front = lines.drop_last();
    if i < lines.len() - 1 {
        assert(lines[i] == front[i]);
        assert forall|k: int| i < k < front.len() implies header_name(#[trigger] front[k])
            != header_name(front[i]) by {
            assert(front[k] == lines[k]);
        }
        lemma_last_header_wins(front, i);
        assert(header_name(lines[lines.len() - 1]) != header_name(lines[i]));
    }
}

/// The mapping holds no name but those of the header lines.
pub proof fn lemma_header_names(lines: Seq<Seq<char>>, name: Seq<char>)
    requires
        header_map(lines) is Some,
        header_map(lines)->0.contains_key(name),
    ensures
        exists|k: int|
            0 <= k < lines.len() && header_field(#[trigger] lines[k]) is Some && header_name(
                lines[k],
            ) == name,
    decreases lines.len(),
{
    if lines.len() > 0 {
        let front = lines.drop_last();
        let last = lines.len() - 1;
        if header_name(lines[last]) == name {
        } else {
            lemma_header_names(front, name);
            let k = choose|k: int|
                0 <= k < front.len() && header_field(#[trigger] front[k]) is Some && header_name(
                    front[k],
                ) == name;
            assert(lines[k] == front[k]);
        }
    }
}

/// The headers of a request, by name.
pub struct HttpHeader {
    headers: StringHashMap<String>,
}

impl View for HttpHeader {
    type V = Map<Seq<char>, Seq<char>>;

    closed spec fn view(&self) -> Map<Seq<char>, Seq<char>> {
        self.headers@.map_values(|v: String| v@)
    }
}

impl HttpHeader {
    /// No headers.
    pub fn empty() -> (h: HttpHeader)
        ensures
            h@ == Map::<Seq<char>, Seq<char>>::empty(),
    {
        let h = HttpHeader { headers: StringHashMap::new() };
        assert(h@ =~= Map::<Seq<char>, Seq<char>>::empty());
        h
    }

    /// Reads the headers of a request: one for each line between the
    /// request line and the first empty line, its name and value parted at
    /// the first colon and trimmed. A later header replaces an earlier one
    /// of the same name. One line without a colon leaves no headers at all.
    pub fn new(request: &str) -> (r: Option<HttpHeader>)
        ensures
            match r {
                Some(h) => parse_headers(request@) == Some(h@),
                None => parse_headers(request@) is None,
            },
    {
        let chars = to_chars(request);
        HttpHeader::parse(request, chars.as_slice())
    }

    /// The bounds of the first line of `chars[pos..]`: where it ends, and
    /// where what follows it starts.
    fn first_line(chars: &[char], pos: usize) -> (r: (usize, usize))
        requires
            pos < chars@.len(),
        ensures
            pos <= r.0 <= r.1 <= chars@.len(),
            pos < r.1,
            header_lines(chars@.subrange(pos as int, chars@.len() as int)) == if r.0 == pos {
                Seq::<Seq<char>>::empty()
            } else {
                seq![chars@.subrange(pos as int, r.0 as int)] + header_lines(
                    chars@.subrange(r.1 as int, chars@.len() as int),
                )
            },
    {
        let crlf = to_chars("\r\n");
        let n: usize = chars.len();
        let ghost rest = chars@.subrange(pos as int, n as int);
        match find_between(chars, pos, n, crlf.as_slice()) {
            Some(i) => {
                proof {
                    reveal_strlit("\r\n");
                    lemma_subrange_of_subrange(chars@, pos as int, n as int, 0, i - pos);
                    lemma_subrange_of_subrange(
                        chars@,
                        pos as int,
                        n as int,
                        i + 2 - pos,
                        n - pos,
                    );
                }
                (i, i + crlf.len())
            },
            None => {
                proof {
                    assert(rest.subrange(0, rest.len() as int) =~= rest);
                    assert(header_lines(chars@.subrange(n as int, n as int)) =~= Seq::<
                        Seq<char>,
                    >::empty());
                    assert(seq![rest] + Seq::<Seq<char>>::empty() =~= seq![rest]);
                }
                (n, n)
            },
        }
    }

    /// The name and the value of the header line `chars[start..end]`.
    fn field(request: &str, chars: &[char], start: usize, end: usize) -> (r: Option<
        (String, String),
    >)
        requires
            chars@ == request@,
            start <= end <= chars@.len(),
        ensures
            match r {
                Some((name, value)) => header_field(chars@.subrange(start as int, end as int))
                    == Some((name@, value@)),
                None => header_field(chars@.subrange(start as int, end as int)) is None,
            },
    {
        let colon = to_chars(":");
        let at = match find_between(chars, start, end, colon.as_slice()) {
            Some(at) => at,
            None => {
                return None;
            },
        };
        let value_start: usize = at + colon.len();
        proof {
            lemma_subrange_of_subrange(chars@, start as int, end as int, 0, at - start);
            lemma_subrange_of_subrange(
                chars@,
                start as int,
                end as int,
                value_start - start,
                end - start,
            );
        }
        let (name_start, name_end) = trim_between(chars, start, at);
        let (value_from, value_end) = trim_between(chars, value_start, end);
        let name = String::from_str(request.substring_char(name_start, name_end));
        let value = String::from_str(request.substring_char(value_from, value_end));
        Some((name, value))
    }

    /// Reads the headers of `request`, whose characters are `chars`.
    fn parse(request: &str, chars: &[char]) -> (r: Option<HttpHeader>)
        requires
            chars@ == request@,
        ensures
            match r {
                Some(h) => parse_headers(request@) == Some(h@),
                None => parse_headers(request@) is None,
            },
    {
        let crlf = to_chars("\r\n");
        let n: usize = chars.len();
        let block_start: usize = match find_first(chars, crlf.as_slice()) {
            Some(end) => end + crlf.len(),
            None => {
                return None;
            },
        };
        let ghost block = chars@.subrange(block_start as int, n as int);
        let mut headers: StringHashMap<String> = StringHashMap::new();
        let ghost mut done: Seq<Seq<char>> = Seq::empty();
        let mut pos: usize = block_start;
        assert(headers@.map_values(|v: String| v@) =~= Map::<Seq<char>, Seq<char>>::empty());
        assert(done + header_lines(block) =~= header_lines(block));
        loop
            invariant
                chars@ == request@,
                n == chars@.len(),
                block_start <= pos <= n,
                parse_headers(request@) == header_map(header_lines(block)),
                header_lines(block) == done + header_lines(chars@.subrange(pos as int, n as int)),
                header_map(done) == Some(headers@.map_values(|v: String| v@)),
            ensures
                parse_headers(request@) == Some(headers@.map_values(|v: String| v@)),
            decreases n - pos,
        {
            if pos == n {
                assert(done + Seq::<Seq<char>>::empty() =~= done);
                break;
            }
            let (line_end, next) = HttpHeader::first_line(chars, pos);
            if line_end == pos {
                assert(done + Seq::<Seq<char>>::empty() =~= done);
                break;
            }
            let ghost line = chars@.subrange(pos as int, line_end as int);
            let ghost tail = header_lines(chars@.subrange(next as int, n as int));
            match HttpHeader::field(request, chars, pos, line_end) {
                Some((name, value)) => {
                    let ghost before = headers@.map_values(|v: String| v@);
                    headers.insert(name, value);
                    proof {
                        assert(headers@.map_values(|v: String| v@) =~= before.insert(
                            name@,
                            value@,
                        ));
                        assert(done.push(line).drop_last() =~= done);
                        assert(done + (seq![line] + tail) =~= done.push(line) + tail);
                        done = done.push(line);
                    }
                },
                None => {
                    proof {
                        assert(done + (seq![line] + tail) =~= done + seq![line] + tail);
                        lemma_header_map_bad_line(done, line, tail);
                    }
                    return None;
                },
            }
            pos = next;
        }
        Some(HttpHeader { headers })
    }

    /// The value of the header `name`, if there is one.
    pub fn get(&self, name: &str) -> (r: Option<&String>)
        ensures
            match r {
                Some(value) => self@.contains_key(name@) && value@ == self@[name@],
                None => !self@.contains_key(name@),
            },
    {
        self.headers.get(name)
    }

    /// The number of headers.
    pub fn len(&self) -> (n: usize)
        ensures
            n == self@.len(),
    {
        assert(self@.dom() =~= self.headers@.dom());
        self.headers.len()
    }
}

/// The body of a request: what stands after the first `"\r\n\r\n"`; nothing
/// where there is none.
pub open spec fn body_of(s: Seq<char>) -> Seq<char> {
    match split_once(s, "\r\n\r\n"@) {
        Some((_, body)) => body,
        None => Seq::empty(),
    }
}

/// What a request holds.
pub struct RequestView {
    pub method: Method,
    pub target: Seq<char>,
    pub version: Version,
    pub headers: Map<Seq<char>, Seq<char>>,
    pub body: Seq<char>,
}

/// The request that a text holds, where it declares a version: a method
/// that may be neither `GET` nor `POST`, the empty path where no path can
/// be read, no headers where one header line has no colon.
pub open spec fn parse_request(s: Seq<char>) -> Option<RequestView> {
    match parse_version(s) {
        Some(version) => Some(
            RequestView {
                method: parse_method(s),
                target: match parse_resource(s) {
                    Some(path) => path,
                    None => Seq::empty(),
                },
                version,
                headers: match parse_headers(s) {
                    Some(headers) => headers,
                    None => Map::empty(),
                },
                body: body_of(s),
            },
        ),
        None => None,
    }
}

/// A request, as read from the text that a client sent.
pub struct HttpRequest {
    method: Method,
    pub resource: Resource,
    version: Version,
    headers: HttpHeader,
    pub request_body: String,
}

impl View for HttpRequest {
    type V = RequestView;

    closed spec fn view(&self) -> RequestView {
        RequestView {
            method: self.method,
            target: self.resource.path@,
            version: self.version,
            headers: self.headers@,
            body: self.request_body@,
        }
    }
}

impl HttpRequest {
    /// Reads a request. Fails only where no version can be read; a method,
    /// a path or headers that cannot be read are replaced: by no method,
    /// by the empty path, by no headers.
    pub fn new(request: &str) -> (r: Result<HttpRequest, VersionError>)
        ensures
            match r {
                Ok(req) => parse_request(request@) == Some(req@),
                Err(e) => parse_request(request@) is None && e@ == VersionError::message_for(
                    request@,
                ),
            },
    {
        let chars = to_chars(request);
        let method = Method::parse(chars.as_slice());
        let resource = match Resource::locate(chars.as_slice()) {
            Some((a, b)) => Resource { path: String::from_str(request.substring_char(a, b)) },
            None => Resource { path: String::new() },
        };
        let version = match Version::parse(chars.as_slice()) {
            Some(version) => version,
            None => {
                return Err(VersionError::unknown(request));
            },
        };
        let headers = match HttpHeader::parse(request, chars.as_slice()) {
            Some(headers) => headers,
            None => HttpHeader::empty(),
        };
        let blank_line = to_chars("\r\n\r\n");
        let request_body = match find_first(chars.as_slice(), blank_line.as_slice()) {
            Some(at) => String::from_str(
                request.substring_char(at + blank_line.len(), chars.len()),
            ),
            None => String::new(),
        };
        Ok(HttpRequest { method, resource, version, headers, request_body })
    }

    /// The response to this request, given what the file system holds at
    /// the requested path.
    pub fn response(self, entry: Entry) -> (r: HttpResponse)
        ensures
            r.intact(),
            r@ == served(self@, entry@),
    {
        HttpResponse::new(self, entry)
    }

    /// The method.
    pub fn method(&self) -> (m: Method)
        ensures
            m == self@.method,
    {
        self.method
    }

    /// The version.
    pub fn version(&self) -> (v: Version)
        ensures
            v == self@.version,
    {
        self.version
    }

    /// The path that the request asks for, relative to the server's root.
    pub fn target(&self) -> (path: &str)
        ensures
            path@ == self@.target,
    {
        self.resource.path.as_str()
    }

    /// The headers.
    pub fn headers(&self) -> (h: &HttpHeader)
        ensures
            h@ == self@.headers,
    {
        &self.headers
    }

    /// The body.
    pub fn body(&self) -> (body: &str)
        ensures
            body@ == self@.body,
    {
        self.request_body.as_str()
    }
}

/// A request whose first line starts with `GET ` or `POST ` asks for what
/// stands between that and the next space of the line, without the one `/`
/// that it may start with; for nothing where the line has no other space.
pub proof fn lemma_resource_of_request_line(verb: Seq<char>, after: Seq<char>, rest: Seq<char>)
    requires
        verb == "GET"@ || verb == "POST"@,
        find(after, "\r\n"@) is None,
    ensures
        parse_resource(verb + " "@ + after + "\r\n"@ + rest) == match split_once(after, " "@) {
            Some((target, _)) => Some(strip_slash(target)),
            None => None,
        },
{
    reveal_strlit("GET");
    reveal_strlit("POST");
    reveal_strlit(" ");
    reveal_strlit("\r\n");
    let space = " "@;
    let crlf = "\r\n"@;
    let line = verb + space + after;
    let s = line + crlf + rest;
    let skip = verb.len() as int + 1;
    assert(s =~= verb + " "@ + after + "\r\n"@ + rest);
    assert(space =~= seq![' ']);
    assert forall|j: int| 0 <= j < line.len() implies !occurs_at(s, crlf, j) by {
        if occurs_at(s, crlf, j) {
            assert(s.subrange(j, j + 2)[0] == '\r');
            assert(s.subrange(j, j + 2)[1] == '\n');
            if j < skip {
            } else if j + 2 <= line.len() {
                assert(after.subrange(j - skip, j - skip + 2) =~= s.subrange(j, j + 2));
                assert(occurs_at(after, crlf, j - skip));
                lemma_find_sound(after, crlf);
            } else {
                assert(s[j + 1] == '\r');
            }
        }
    }
    lemma_split_once_at(line, crlf, rest);
    assert(!verb.contains(' '));
    lemma_split_once_at_char(verb, ' ', after);
}

/// A request whose first line is `GET` or `POST`, a target and a version,
/// with one space between them, asks for the target without the one `/`
/// that it may start with.
pub proof fn lemma_resource_of_request(
    verb: Seq<char>,
    target: Seq<char>,
    version: Seq<char>,
    rest: Seq<char>,
)
    requires
        verb == "GET"@ || verb == "POST"@,
        !target.contains(' '),
        find(target + " "@ + version, "\r\n"@) is None,
    ensures
        parse_resource(verb + " "@ + target + " "@ + version + "\r\n"@ + rest) == Some(
            strip_slash(target),
        ),
{
    reveal_strlit(" ");
    let after = target + " "@ + version;
    assert(verb + " "@ + after + "\r\n"@ + rest =~= verb + " "@ + target + " "@ + version
        + "\r\n"@ + rest);
    assert(" "@ =~= seq![' ']);
    lemma_resource_of_request_line(verb, after, rest);
    lemma_split_once_at_char(target, ' ', version);
}

/// The version that the first of three parts of a request line names, of
/// those that name one.
pub open spec fn first_named_version(
    verb: Seq<char>,
    target: Seq<char>,
    token: Seq<char>,
) -> Option<Version> {
    if Version::of_token(verb) is Some {
        Version::of_token(verb)
    } else if Version::of_token(target) is Some {
        Version::of_token(target)
    } else {
        Version::of_token(token)
    }
}

/// A request whose first line is made of three parts without white space,
/// with one space between them, declares the version that the first of
/// these parts to name one names, and none where none of them names one.
/// So where only the third part names a version, that is the version.
pub proof fn lemma_version_of_request(
    verb: Seq<char>,
    target: Seq<char>,
    token: Seq<char>,
    rest: Seq<char>,
)
    requires
        forall|k: int| 0 <= k < verb.len() ==> !is_ascii_blank(#[trigger] verb[k]),
        forall|k: int| 0 <= k < target.len() ==> !is_ascii_blank(#[trigger] target[k]),
        forall|k: int| 0 <= k < token.len() ==> !is_ascii_blank(#[trigger] token[k]),
    ensures
        parse_version(verb + " "@ + target + " "@ + token + "\r\n"@ + rest)
            == first_named_version(verb, target, token),
{
    reveal_strlit("HTTP/1.1");
    reveal_strlit("HTTP/2");
    reveal_strlit("HTTP/2.0");
    reveal_strlit(" ");
    reveal_strlit("\r\n");
    let crlf = "\r\n"@;
    let line = verb + " "@ + target + " "@ + token;
    let s = line + crlf + rest;
    let verb_end = verb.len() as int;
    let target_start = verb_end + 1;
    let target_end = target_start + target.len();
    let token_start = target_end + 1;
    let end = line.len() as int;
    assert(s =~= verb + " "@ + target + " "@ + token + "\r\n"@ + rest);
    assert forall|j: int| 0 <= j < line.len() implies !occurs_at(s, crlf, j) by {
        if occurs_at(s, crlf, j) {
            assert(s.subrange(j, j + 2)[0] == '\r');
            assert(line[j] == '\r');
            if j < verb_end {
                assert(is_ascii_blank(verb[j]));
            } else if target_start <= j < target_end {
                assert(is_ascii_blank(target[j - target_start]));
            } else if token_start <= j {
                assert(is_ascii_blank(token[j - token_start]));
            }
        }
    }
    lemma_split_once_at(line, crlf, rest);
    assert(line.subrange(0, verb_end) =~= verb);
    assert(line.subrange(target_start, target_end) =~= target);
    assert(line.subrange(token_start, end) =~= token);
    assert forall|k: int| 0 <= k < end && k != verb_end && k != target_end implies !is_ascii_blank(
        #[trigger] line[k],
    ) by {
        if k < verb_end {
            assert(line[k] == verb[k]);
        } else if k < target_end {
            assert(line[k] == target[k - target_start]);
        } else {
            assert(line[k] == token[k - token_start]);
        }
    }
    assert forall|c: int, d: int| is_token(line, c, d) implies (c == 0 && d == verb_end) || (c
        == target_start && d == target_end) || (c == token_start && d == end) by {
        assert(!is_ascii_blank(line[c]));
        assert(!is_ascii_blank(line[d - 1]));
        if c > 0 {
            assert(is_ascii_blank(line[c - 1]));
        }
        if d < end {
            assert(is_ascii_blank(line[d]));
        }
        if c < verb_end && verb_end < d {
            assert(is_ascii_blank(line[verb_end]));
        }
        if c < target_end && target_end < d {
            assert(is_ascii_blank(line[target_end]));
        }
    }
    if Version::of_token(verb) is Some {
        assert(is_token(line, 0, verb_end));
        lemma_detect_first(line, 0, verb_end);
    } else if Version::of_token(target) is Some {
        assert(is_token(line, target_start, target_end));
        lemma_detect_first(line, target_start, target_end);
    } else if Version::of_token(token) is Some {
        assert(is_token(line, token_start, end));
        lemma_detect_first(line, token_start, end);
    } else {
        assert forall|c: int, d: int| !version_token(line, c, d) by {}
    }
}

/// A request without a first line, or with no version token in it,
/// declares no version.
pub proof fn lemma_no_version_token(s: Seq<char>)
    requires
        match request_line(s) {
            Some(line) => forall|a: int, b: int| !version_token(line, a, b),
            None => true,
        },
    ensures
        parse_version(s) is None,
{
}

} // verus!

use vstd::prelude::*;

use crate::decode::{url_decode, url_decoded};
use crate::strmap::{map_of, pairs_view, StrMap};
use crate::text::{
    eq_ignore_case, find_char, find_from, lemma_find_from, lossy_text, parse_usize, parsed_usize,
    same_text_ignoring_case, split_on, split_on_char, text_of_bytes, trim_text, trimmed, views,
};

verus! {

/// What can go wrong while a request is read.
#[derive(Debug, Clone, Copy, PartialEq, Eq, Structural)]
pub enum RequestError {
    /// The request line lacks a method, a path or a version.
    MalformedRequestLine,
    /// The `Content-Length` header does not hold a number.
    MalformedContentLength,
    /// Fewer body bytes arrived than `Content-Length` declares.
    TruncatedBody,
}

/// The characters that `str::split_ascii_whitespace` splits on.
pub open spec fn is_ascii_ws(c: char) -> bool {
    c == ' ' || c == '\t' || c == '\n' || c == '\x0C' || c == '\r'
}

/// The first index at or after `i` that holds no white space.
pub open spec fn skip_ws(s: Seq<char>, i: int) -> int
    decreases s.len() - i,
{
    if 0 <= i < s.len() && is_ascii_ws(s[i]) {
        skip_ws(s, i + 1)
    } else {
        i
    }
}

/// The first index at or after `i` that holds white space, or the end.
pub open spec fn token_end(s: Seq<char>, i: int) -> int
    decreases s.len() - i,
{
    if 0 <= i < s.len() && !is_ascii_ws(s[i]) {
        token_end(s, i + 1)
    } else {
        i
    }
}

/// Where the next token at or after `i` starts and ends.
pub open spec fn next_token(s: Seq<char>, i: int) -> (int, int) {
    (skip_ws(s, i), token_end(s, skip_ws(s, i)))
}

/// The first three white-space separated tokens of a request line:
/// method, full path and version; `None` when there are fewer.
pub open spec fn request_line_parts(s: Seq<char>) -> Option<(Seq<char>, Seq<char>, Seq<char>)> {
    let t1 = next_token(s, 0);
    let t2 = next_token(s, t1.1);
    let t3 = next_token(s, t2.1);
    if t1.0 < t1.1 && t2.0 < t2.1 && t3.0 < t3.1 {
        Some((s.subrange(t1.0, t1.1), s.subrange(t2.0, t2.1), s.subrange(t3.0, t3.1)))
    } else {
        None
    }
}

/// The path of a full path: what stands before the first `?`.
pub open spec fn path_of(full: Seq<char>) -> Seq<char> {
    full.take(find_from(full, '?', 0))
}

/// The key and value of one `key=value` piece of a query string, decoded;
/// `None` for a piece without `=`.
pub open spec fn query_pair(piece: Seq<char>) -> Option<(Seq<char>, Seq<char>)> {
    let k = find_from(piece, '=', 0);
    if k < piece.len() {
        Some((url_decoded(piece.take(k)), url_decoded(piece.skip(k + 1))))
    } else {
        None
    }
}

/// The pairs of a sequence of query pieces, in order.
pub open spec fn query_pairs(pieces: Seq<Seq<char>>) -> Seq<(Seq<char>, Seq<char>)>
    decreases pieces.len(),
{
    if pieces.len() == 0 {
        Seq::empty()
    } else {
        let prev = query_pairs(pieces.drop_last());
        match query_pair(pieces.last()) {
            Some(p) => prev.push(p),
            None => prev,
        }
    }
}

/// The parameters of a query string: pieces split on `&`, a later key
/// winning over an earlier one.
pub open spec fn parsed_query(q: Seq<char>) -> Map<Seq<char>, Seq<char>> {
    map_of(query_pairs(split_on(q, '&')))
}

/// The query parameters of a full path: those of what follows the first
/// `?`, none when there is no `?`.
pub open spec fn query_params_of(full: Seq<char>) -> Map<Seq<char>, Seq<char>> {
    let k = find_from(full, '?', 0);
    if k < full.len() {
        parsed_query(full.skip(k + 1))
    } else {
        Map::empty()
    }
}

/// The header that one line gives: split on the first `:`, both sides
/// trimmed; `None` for a line without `:`.
pub open spec fn header_of(line: Seq<char>) -> Option<(Seq<char>, Seq<char>)> {
    let k = find_from(line, ':', 0);
    if k < line.len() {
        Some((trimmed(line.take(k)), trimmed(line.skip(k + 1))))
    } else {
        None
    }
}

/// The headers that a sequence of lines gives, in order.
pub open spec fn header_pairs(lines: Seq<Seq<char>>) -> Seq<(Seq<char>, Seq<char>)>
    decreases lines.len(),
{
    if lines.len() == 0 {
        Seq::empty()
    } else {
        let prev = header_pairs(lines.drop_last());
        match header_of(lines.last()) {
            Some(h) => prev.push(h),
            None => prev,
        }
    }
}

/// The index of the first empty line at or after `i`, or the number of lines.
pub open spec fn first_empty(lines: Seq<Seq<char>>, i: int) -> int
    decreases lines.len() - i,
{
    if i < 0 || i >= lines.len() {
        lines.len() as int
    } else if lines[i].len() == 0 {
        i
    } else {
        first_empty(lines, i + 1)
    }
}

pub open spec fn content_length_name() -> Seq<char> {
    seq!['C', 'o', 'n', 't', 'e', 'n', 't', '-', 'L', 'e', 'n', 'g', 't', 'h']
}

/// The index of the first header at or after `i` named `Content-Length`
/// in any case, or the number of headers.
pub open spec fn length_header_from(h: Seq<(Seq<char>, Seq<char>)>, i: int) -> int
    decreases h.len() - i,
{
    if i < 0 || i >= h.len() {
        h.len() as int
    } else if eq_ignore_case(h[i].0, content_length_name()) {
        i
    } else {
        length_header_from(h, i + 1)
    }
}

/// The body length that headers declare: zero without a `Content-Length`
/// header, an error when its value is not a number.
pub open spec fn declared_length(h: Seq<(Seq<char>, Seq<char>)>) -> Result<usize, RequestError> {
    let j = length_header_from(h, 0);
    if j >= h.len() {
        Ok(0)
    } else {
        match parsed_usize(h[j].1) {
            Some(n) => Ok(n),
            None => Err(RequestError::MalformedContentLength),
        }
    }
}

fn skip_ws_exec(s: &str, n: usize, i: usize) -> (r: usize)
    requires
        n == s@.len(),
        i <= n,
    ensures
        r == skip_ws(s@, i as int),
        i <= r <= n,
{
    let mut j = i;
    while j < n && is_ws_char(s.get_char(j))
        invariant
            n == s@.len(),
            i <= j <= n,
            skip_ws(s@, j as int) == skip_ws(s@, i as int),
        decreases n - j,
    {
        j = j + 1;
    }
    j
}

fn token_end_exec(s: &str, n: usize, i: usize) -> (r: usize)
    requires
        n == s@.len(),
        i <= n,
    ensures
        r == token_end(s@, i as int),
        i <= r <= n,
{
    let mut j = i;
    while j < n && !is_ws_char(s.get_char(j))
        invariant
            n == s@.len(),
            i <= j <= n,
            token_end(s@, j as int) == token_end(s@, i as int),
        decreases n - j,
    {
        j = j + 1;
    }
    j
}

fn is_ws_char(c: char) -> (r: bool)
    ensures
        r == is_ascii_ws(c),
{
    c == ' ' || c == '\t' || c == '\n' || c == '\x0C' || c == '\r'
}

/// A request as it was read from a connection.
#[derive(Debug)]
pub struct HttpRequest {
    pub method: String,
    pub path: String,
    pub version: String,
    pub headers: Vec<(String, String)>,
    pub body: String,
    pub query_params: StrMap,
}

impl HttpRequest {
    /// The headers, as character sequences.
    pub open spec fn header_view(&self) -> Seq<(Seq<char>, Seq<char>)> {
        pairs_view(self.headers@)
    }

    /// A request from its request line: the method, the full path and the
    /// version are its first three white-space separated tokens; the path
    /// keeps what precedes the first `?` and the query parameters come from
    /// what follows it. No headers and an empty body yet.
    pub fn new(request_line: String) -> (r: Result<Self, RequestError>)
        ensures
            match r {
                Ok(req) => {
                    &&& request_line_parts(request_line@) is Some
                    &&& req.method@ == request_line_parts(request_line@).unwrap().0
                    &&& req.path@ == path_of(request_line_parts(request_line@).unwrap().1)
                    &&& req.version@ == request_line_parts(request_line@).unwrap().2
                    &&& req.query_params@ == query_params_of(request_line_parts(request_line@).unwrap().1)
                    &&& req.headers@.len() == 0
                    &&& req.body@.len() == 0
                },
                Err(e) => request_line_parts(request_line@) is None && e
                    == RequestError::MalformedRequestLine,
            },
    {
        let s = request_line.as_str();
        let n = s.unicode_len();
        let a1 = skip_ws_exec(s, n, 0);
        let e1 = token_end_exec(s, n, a1);
        let a2 = skip_ws_exec(s, n, e1);
        let e2 = token_end_exec(s, n, a2);
        let a3 = skip_ws_exec(s, n, e2);
        let e3 = token_end_exec(s, n, a3);
        if !(a1 < e1 && a2 < e2 && a3 < e3) {
            return Err(RequestError::MalformedRequestLine);
        }
        let method = s.substring_char(a1, e1).to_string();
        let full_path = s.substring_char(a2, e2);
        let version = s.substring_char(a3, e3).to_string();
        let parsed = Self::parse_path_and_query(full_path);
        match parsed {
            Some((path, query_params)) => Ok(
                HttpRequest {
                    method,
                    path,
                    version,
                    headers: Vec::new(),
                    body: String::new(),
                    query_params,
                },
            ),
            None => Err(RequestError::MalformedRequestLine),
        }
    }

    /// Appends a header, after those already there.
    pub fn add_header(&mut self, key: String, value: String)
        ensures
            final(self).headers@ == old(self).headers@.push((key, value)),
            final(self).method == old(self).method,
            final(self).path == old(self).path,
            final(self).version == old(self).version,
            final(self).body == old(self).body,
            final(self).query_params == old(self).query_params,
    {
        self.headers.push((key, value));
    }

    /// Reads header lines up to the first empty one: each line with a `:`
    /// gives one header, its two sides trimmed; other lines are dropped.
    pub fn parse_headers(&mut self, lines: &Vec<String>)
        ensures
            final(self).header_view() == old(self).header_view() + header_pairs(
                views(lines@).take(first_empty(views(lines@), 0)),
            ),
            final(self).method == old(self).method,
            final(self).path == old(self).path,
            final(self).version == old(self).version,
            final(self).body == old(self).body,
            final(self).query_params == old(self).query_params,
    {
        let ghost ls = views(lines@);
        let mut i: usize = 0;
        while i < lines.len() && lines[i].as_str().unicode_len() > 0
            invariant
                ls == views(lines@),
                i <= lines@.len(),
                first_empty(ls, i as int) == first_empty(ls, 0),
                self.header_view() == old(self).header_view() + header_pairs(ls.take(i as int)),
                self.method == old(self).method,
                self.path == old(self).path,
                self.version == old(self).version,
                self.body == old(self).body,
                self.query_params == old(self).query_params,
            decreases lines@.len() - i,
        {
            let line = lines[i].as_str();
            let k = find_char(line, ':');
            let ghost before = self.header_view();
            proof {
                assert(ls.take(i + 1).drop_last() =~= ls.take(i as int));
                assert(ls.take(i + 1).last() == line@);
            }
            let n = line.unicode_len();
            if k < n {
                let key = trim_text(line.substring_char(0, k));
                let value = trim_text(line.substring_char(k + 1, n));
                proof {
                    assert(line@.skip(k + 1) =~= line@.subrange(k + 1, n as int));
                    assert(line@.take(k as int) =~= line@.subrange(0, k as int));
                }
                self.add_header(key, value);
                proof {
                    assert(self.header_view() =~= before.push(header_of(line@)->0));
                    assert(self.header_view() =~= old(self).header_view() + header_pairs(
                        ls.take(i + 1),
                    ));
                }
            }
            i = i + 1;
        }
        proof {
            assert(first_empty(ls, i as int) == i);
        }
    }

    /// The body length that the headers declare: zero when no header is
    /// named `Content-Length` (in any case); otherwise the value of the
    /// first such header, or an error when it is not a number.
    pub fn content_length(&self) -> (r: Result<usize, RequestError>)
        ensures
            r == declared_length(self.header_view()),
    {
        let name = "Content-Length";
        proof {
            reveal_strlit("Content-Length");
            assert(name@ =~= content_length_name());
        }
        let ghost h = self.header_view();
        let mut i: usize = 0;
        while i < self.headers.len()
            invariant
                h == self.header_view(),
                h.len() == self.headers@.len(),
                i <= h.len(),
                name@ == content_length_name(),
                length_header_from(h, i as int) == length_header_from(h, 0),
            decreases h.len() - i,
        {
            if same_text_ignoring_case(self.headers[i].0.as_str(), name) {
                return match parse_usize(self.headers[i].1.as_str()) {
                    Some(n) => Ok(n),
                    None => Err(RequestError::MalformedContentLength),
                };
            }
            i = i + 1;
        }
        Ok(0)
    }

    /// Sets the body from the bytes that followed the headers, as many as
    /// `Content-Length` declares, decoded as UTF-8 with invalid sequences
    /// replaced. A malformed length or too few bytes leave the request as
    /// it was and give an error.
    pub fn parse_body(&mut self, data: &Vec<u8>) -> (r: Result<(), RequestError>)
        ensures
            match declared_length(old(self).header_view()) {
                Err(e) => r == Err::<(), RequestError>(e) && *final(self) == *old(self),
                Ok(n) => if n == 0 {
                    r is Ok && *final(self) == *old(self)
                } else if data@.len() < n {
                    r == Err::<(), RequestError>(RequestError::TruncatedBody) && *final(self)
                        == *old(self)
                } else {
                    &&& r is Ok
                    &&& final(self).body@ == lossy_text(data@.take(n as int))
                    &&& final(self).method == old(self).method
                    &&& final(self).path == old(self).path
                    &&& final(self).version == old(self).version
                    &&& final(self).headers == old(self).headers
                    &&& final(self).query_params == old(self).query_params
                },
            },
    {
        let len = match self.content_length() {
            Ok(n) => n,
            Err(e) => return Err(e),
        };
        if len == 0 {
            return Ok(());
        }
        if data.len() < len {
            return Err(RequestError::TruncatedBody);
        }
        let mut bytes: Vec<u8> = Vec::new();
        let mut i: usize = 0;
        while i < len
            invariant
                len <= data@.len(),
                i <= len,
                bytes@ == data@.take(i as int),
            decreases len - i,
        {
            bytes.push(data[i]);
            i = i + 1;
            assert(bytes@ =~= data@.take(i as int));
        }
        self.body = text_of_bytes(bytes.as_slice());
        Ok(())
    }

    /// Decodes a query string into parameters: pieces split on `&`, each
    /// split on its first `=`, key and value passed through `url_decode`;
    /// a piece without `=` is dropped and a later key wins.
    pub fn parse_query_string(query_string: &str) -> (r: StrMap)
        ensures
            r@ == parsed_query(query_string@),
    {
        let pieces = split_on_char(query_string, '&');
        let ghost ps = views(pieces@);
        let mut params = StrMap::new();
        let mut i: usize = 0;
        while i < pieces.len()
            invariant
                ps == views(pieces@),
                ps == split_on(query_string@, '&'),
                i <= pieces@.len(),
                params@ == map_of(query_pairs(ps.take(i as int))),
            decreases pieces@.len() - i,
        {
            let piece = pieces[i].as_str();
            let n = piece.unicode_len();
            let k = find_char(piece, '=');
            proof {
                assert(ps.take(i + 1).drop_last() =~= ps.take(i as int));
                assert(ps.take(i + 1).last() == piece@);
            }
            if k < n {
                let key = url_decode(piece.substring_char(0, k));
                let value = url_decode(piece.substring_char(k + 1, n));
                proof {
                    assert(piece@.skip(k + 1) =~= piece@.subrange(k + 1, n as int));
                    assert(piece@.take(k as int) =~= piece@.subrange(0, k as int));
                    let prev = query_pairs(ps.take(i as int));
                    assert(prev.push((key@, value@)).drop_last() =~= prev);
                }
                params.insert(key, value);
            }
            i = i + 1;
        }
        assert(ps.take(pieces@.len() as int) =~= ps);
        params
    }

    /// Splits a full path on its first `?`: the path before it, and the
    /// parameters of the query after it (none without a `?`).
    pub fn parse_path_and_query(full_path: &str) -> (r: Option<(String, StrMap)>)
        ensures
            r is Some,
            r.unwrap().0@ == path_of(full_path@),
            r.unwrap().1@ == query_params_of(full_path@),
    {
        let n = full_path.unicode_len();
        let k = find_char(full_path, '?');
        proof {
            lemma_find_from(full_path@, '?', 0);
        }
        let path = full_path.substring_char(0, k).to_string();
        proof {
            assert(full_path@.take(k as int) =~= full_path@.subrange(0, k as int));
        }
        if k < n {
            let params = Self::parse_query_string(full_path.substring_char(k + 1, n));
            proof {
                assert(full_path@.skip(k + 1) =~= full_path@.subrange(k + 1, n as int));
            }
            Some((path, params))
        } else {
            Some((path, StrMap::new()))
        }
    }
}


proof fn lemma_token_end_at(s: Seq<char>, i: int, k: int)
    requires
        0 <= i <= k <= s.len(),
        forall|j: int| i <= j < k ==> !is_ascii_ws(#[trigger] s[j]),
        k == s.len() || is_ascii_ws(s[k]),
    ensures
        token_end(s, i) == k,
    decreases k - i,
{
    if i < k {
        lemma_token_end_at(s, i + 1, k);
    }
}

proof fn lemma_skip_ws_at(s: Seq<char>, i: int, k: int)
    requires
        0 <= i <= k < s.len(),
        forall|j: int| i <= j < k ==> is_ascii_ws(#[trigger] s[j]),
        !is_ascii_ws(s[k]),
    ensures
        skip_ws(s, i) == k,
    decreases k - i,
{
    if i < k {
        lemma_skip_ws_at(s, i + 1, k);
    }
}

/// No white space in `t`.
pub open spec fn no_ws(t: Seq<char>) -> bool {
    forall|i: int| 0 <= i < t.len() ==> !is_ascii_ws(#[trigger] t[i])
}

/// A request line `<method> <path> <version>` whose three parts are
/// non-empty and free of white space gives back exactly those parts; the
/// request's path is then what precedes the first `?` of the path part,
/// and holds no `?`.
pub proof fn lemma_request_line_round_trip(m: Seq<char>, p: Seq<char>, v: Seq<char>)
    requires
        m.len() > 0 && no_ws(m),
        p.len() > 0 && no_ws(p),
        v.len() > 0 && no_ws(v),
    ensures
        request_line_parts(m + seq![' '] + p + seq![' '] + v) == Some((m, p, v)),
        p.take(path_of(p).len() as int) == path_of(p),
        path_of(p).len() == p.len() || p[path_of(p).len() as int] == '?',
        !path_of(p).contains('?'),
{
    let s = m + seq![' '] + p + seq![' '] + v;
    let l1 = m.len() as int;
    let l2 = l1 + 1 + p.len();
    let l3 = l2 + 1 + v.len();
    assert(s.len() == l3);
    assert forall|j: int| 0 <= j < l1 implies !is_ascii_ws(#[trigger] s[j]) by {
        assert(s[j] == m[j]);
    }
    assert forall|j: int| l1 + 1 <= j < l2 implies !is_ascii_ws(#[trigger] s[j]) by {
        assert(s[j] == p[j - l1 - 1]);
    }
    assert forall|j: int| l2 + 1 <= j < l3 implies !is_ascii_ws(#[trigger] s[j]) by {
        assert(s[j] == v[j - l2 - 1]);
    }
    assert(s[l1] == ' ');
    assert(s[l2] == ' ');
    lemma_skip_ws_at(s, 0, 0);
    lemma_token_end_at(s, 0, l1);
    lemma_skip_ws_at(s, l1, l1 + 1);
    lemma_token_end_at(s, l1 + 1, l2);
    lemma_skip_ws_at(s, l2, l2 + 1);
    lemma_token_end_at(s, l2 + 1, l3);
    assert(s.subrange(0, l1) =~= m);
    assert(s.subrange(l1 + 1, l2) =~= p);
    assert(s.subrange(l2 + 1, l3) =~= v);
    lemma_find_from(p, '?', 0);
    let k = find_from(p, '?', 0);
    assert(path_of(p).len() == k);
    assert forall|j: int| 0 <= j < path_of(p).len() implies path_of(p)[j] != '?' by {
        assert(path_of(p)[j] == p[j]);
    }
}

proof fn lemma_split_without_sep(s: Seq<char>, sep: char)
    requires
        !s.contains(sep),
    ensures
        split_on(s, sep) == seq![s],
    decreases s.len(),
{
    if s.len() > 0 {
        let d = s.drop_last();
        assert(!d.contains(sep)) by {
            if d.contains(sep) {
                let j = choose|j: int| 0 <= j < d.len() && d[j] == sep;
                assert(s[j] == sep);
            }
        }
        lemma_split_without_sep(d, sep);
        assert(s.last() != sep) by {
            assert(s[s.len() - 1] == s.last());
        }
        assert(d.push(s.last()) =~= s);
        assert(split_on(s, sep) =~= seq![s]);
    } else {
        assert(s =~= Seq::<char>::empty());
        assert(split_on(s, sep) =~= seq![s]);
    }
}

proof fn lemma_split_join(a: Seq<char>, b: Seq<char>, sep: char)
    ensures
        split_on(a + seq![sep] + b, sep) == split_on(a, sep) + split_on(b, sep),
    decreases b.len(),
{
    let s = a + seq![sep] + b;
    crate::text::lemma_split_nonempty(a, sep);
    if b.len() == 0 {
        assert(s.drop_last() =~= a);
        assert(s.last() == sep);
        assert(split_on(s, sep) =~= split_on(a, sep) + split_on(b, sep));
    } else {
        let d = b.drop_last();
        lemma_split_join(a, d, sep);
        crate::text::lemma_split_nonempty(d, sep);
        assert(s.drop_last() =~= a + seq![sep] + d);
        assert(s.last() == b.last());
        let x = split_on(a, sep);
        let y = split_on(d, sep);
        if b.last() == sep {
            assert(split_on(s, sep) =~= x + y.push(Seq::empty()));
        } else {
            assert((x + y).update((x + y).len() - 1, (x + y).last().push(b.last())) =~= x + y.update(
                y.len() - 1,
                y.last().push(b.last()),
            ));
        }
    }
}

proof fn lemma_query_pair_of(k: Seq<char>, v: Seq<char>)
    requires
        !k.contains('='),
        !k.contains('%'),
        !v.contains('%'),
    ensures
        query_pair(k + seq!['='] + v) == Some((k, v)),
{
    let piece = k + seq!['='] + v;
    assert forall|j: int| 0 <= j < k.len() implies piece[j] != '=' by {
        assert(piece[j] == k[j]);
    }
    lemma_find_at(piece, '=', 0, k.len() as int);
    assert(piece.take(k.len() as int) =~= k);
    assert(piece.skip(k.len() as int + 1) =~= v);
    crate::decode::lemma_decode_without_percent(k);
    crate::decode::lemma_decode_without_percent(v);
}

proof fn lemma_find_at(s: Seq<char>, c: char, i: int, k: int)
    requires
        0 <= i <= k < s.len(),
        forall|j: int| i <= j < k ==> s[j] != c,
        s[k] == c,
    ensures
        find_from(s, c, i) == k,
    decreases k - i,
{
    if i < k {
        lemma_find_at(s, c, i + 1, k);
    }
}

/// A query string of two `key=value` pairs gives both bindings, the second
/// winning when the keys are equal; keys and values here hold no `&`, keys
/// no `=`, and neither a `%`, so decoding leaves them as they are.
pub proof fn lemma_query_two_pairs(k1: Seq<char>, v1: Seq<char>, k2: Seq<char>, v2: Seq<char>)
    requires
        !k1.contains('&') && !k1.contains('=') && !k1.contains('%'),
        !v1.contains('&') && !v1.contains('%'),
        !k2.contains('&') && !k2.contains('=') && !k2.contains('%'),
        !v2.contains('&') && !v2.contains('%'),
    ensures
        parsed_query(k1 + seq!['='] + v1 + seq!['&'] + k2 + seq!['='] + v2) == Map::<
            Seq<char>,
            Seq<char>,
        >::empty().insert(k1, v1).insert(k2, v2),
{
    let x = k1 + seq!['='] + v1;
    let y = k2 + seq!['='] + v2;
    assert(k1 + seq!['='] + v1 + seq!['&'] + k2 + seq!['='] + v2 =~= x + seq!['&'] + y);
    assert(!x.contains('&')) by {
        if x.contains('&') {
            let j = choose|j: int| 0 <= j < x.len() && x[j] == '&';
            if j < k1.len() {
                assert(k1[j] == '&');
            } else if j > k1.len() {
                assert(v1[j - k1.len() - 1] == '&');
            }
        }
    }
    assert(!y.contains('&')) by {
        if y.contains('&') {
            let j = choose|j: int| 0 <= j < y.len() && y[j] == '&';
            if j < k2.len() {
                assert(k2[j] == '&');
            } else if j > k2.len() {
                assert(v2[j - k2.len() - 1] == '&');
            }
        }
    }
    lemma_split_join(x, y, '&');
    lemma_split_without_sep(x, '&');
    lemma_split_without_sep(y, '&');
    let pieces = seq![x] + seq![y];
    assert(pieces =~= seq![x, y]);
    lemma_query_pair_of(k1, v1);
    lemma_query_pair_of(k2, v2);
    assert(pieces.drop_last() =~= seq![x]);
    assert(pieces.drop_last().drop_last() =~= Seq::<Seq<char>>::empty());
    assert(seq![x].drop_last() =~= Seq::<Seq<char>>::empty());
    assert(seq![x].last() == x);
    assert(pieces.last() == y);
    let qp = query_pairs(pieces);
    assert(query_pairs(Seq::<Seq<char>>::empty()) =~= Seq::<(Seq<char>, Seq<char>)>::empty());
    assert(query_pairs(seq![x]) =~= seq![(k1, v1)]);
    assert(qp =~= seq![(k1, v1), (k2, v2)]);
    assert(qp.drop_last() =~= seq![(k1, v1)]);
    assert(qp.drop_last().drop_last() =~= Seq::<(Seq<char>, Seq<char>)>::empty());
    assert(qp.last() == (k2, v2));
    assert(qp.drop_last().last() == (k1, v1));
    assert(map_of(Seq::<(Seq<char>, Seq<char>)>::empty()) =~= Map::<Seq<char>, Seq<char>>::empty());
    assert(map_of(qp.drop_last()) =~= Map::<Seq<char>, Seq<char>>::empty().insert(k1, v1));
    assert(map_of(qp) =~= Map::<Seq<char>, Seq<char>>::empty().insert(k1, v1).insert(k2, v2));
    assert(split_on(k1 + seq!['='] + v1 + seq!['&'] + k2 + seq!['='] + v2, '&') == pieces);
}

} // verus!

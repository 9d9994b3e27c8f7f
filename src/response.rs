use vstd::prelude::*;
use vstd::string::StringExecFns;
use vstd::utf8::encode_utf8;

use crate::strmap::{last_with_key, pairs_view, StrMap};
use crate::text::push_char;

verus! {

/// The reason phrase for a status code, by range.
pub open spec fn reason_phrase(code: u16) -> Seq<char> {
    if 200 <= code <= 299 {
        "OK"@
    } else if 300 <= code <= 399 {
        "Redirect"@
    } else if code == 404 {
        "Not Found"@
    } else if 400 <= code <= 499 {
        "Client Error"@
    } else if 500 <= code <= 599 {
        "Internal Server Error"@
    } else {
        "Unknown Status"@
    }
}

pub open spec fn digit_chars() -> Seq<char> {
    seq!['0', '1', '2', '3', '4', '5', '6', '7', '8', '9']
}

/// The decimal digits of `n`, without leading zeros.
pub open spec fn decimal(n: nat) -> Seq<char>
    decreases n,
{
    if n < 10 {
        seq![digit_chars()[n as int]]
    } else {
        decimal(n / 10).push(digit_chars()[(n % 10) as int])
    }
}

/// `<version> <code> <reason>` and a line break.
pub open spec fn status_line(version: Seq<char>, code: u16) -> Seq<char> {
    version + " "@ + decimal(code as nat) + " "@ + reason_phrase(code) + "\r\n"@
}

/// One `key: value` line for each header, in order, each ending in a line break.
pub open spec fn header_lines(h: Seq<(Seq<char>, Seq<char>)>) -> Seq<char>
    decreases h.len(),
{
    if h.len() == 0 {
        Seq::empty()
    } else {
        header_lines(h.drop_last()) + (h.last().0 + ": "@ + h.last().1 + "\r\n"@)
    }
}

/// The length of a text in UTF-8 bytes, as `str::len` gives it.
pub open spec fn byte_len(text: Seq<char>) -> usize {
    encode_utf8(text).len() as usize
}

/// The `Content-Length` line for a body: none for an empty body.
pub open spec fn length_line(body: Seq<char>) -> Seq<char> {
    if body.len() == 0 {
        Seq::empty()
    } else {
        "Content-Length: "@ + decimal(byte_len(body) as nat) + "\r\n"@
    }
}

/// The wire form of a response: status line, header lines, the
/// `Content-Length` line when there is a body, one empty line, the body.
pub open spec fn wire_form(
    version: Seq<char>,
    code: u16,
    headers: Seq<(Seq<char>, Seq<char>)>,
    body: Seq<char>,
) -> Seq<char> {
    status_line(version, code) + header_lines(headers) + length_line(body) + "\r\n"@ + body
}

fn digits() -> (r: Vec<char>)
    ensures
        r@ == digit_chars(),
{
    let r = vec!['0', '1', '2', '3', '4', '5', '6', '7', '8', '9'];
    assert(r@ =~= digit_chars());
    r
}

/// Appends the decimal digits of `n`.
fn push_decimal(out: &mut String, n: usize)
    ensures
        final(out)@ == old(out)@ + decimal(n as nat),
    decreases n,
{
    let table = digits();
    if n >= 10 {
        push_decimal(out, n / 10);
    }
    push_char(out, table[n % 10]);
    assert(final(out)@ =~= old(out)@ + decimal(n as nat));
}

/// A response being built: status, version, headers and body.
#[derive(Debug)]
pub struct HttpResponse {
    pub status_code: u16,
    pub version: String,
    pub headers: StrMap,
    pub body: String,
}

impl HttpResponse {
    /// What `to_string` gives for this response.
    pub open spec fn wire(&self) -> Seq<char> {
        wire_form(self.version@, self.status_code, self.headers.pairs(), self.body@)
    }

    /// A `HTTP/1.1` response with the given status, no headers and no body.
    pub fn new(status: u16) -> (r: Self)
        ensures
            r.status_code == status,
            r.version@ == "HTTP/1.1"@,
            r.headers.pairs().len() == 0,
            r.headers@ == Map::<Seq<char>, Seq<char>>::empty(),
            r.body@.len() == 0,
    {
        HttpResponse {
            status_code: status,
            version: String::from_str("HTTP/1.1"),
            headers: StrMap::new(),
            body: String::new(),
        }
    }

    /// Sets a header, replacing the value of one with the same key.
    pub fn add_header(&mut self, key: String, value: String) -> (r: &mut Self)
        ensures
            r.headers@ == old(self).headers@.insert(key@, value@),
            !old(self).headers@.contains_key(key@) ==> r.headers.pairs() == old(
                self,
            ).headers.pairs().push((key@, value@)),
            old(self).headers@.contains_key(key@) ==> exists|j: int|
                last_with_key(old(self).headers.pairs(), key@, j) && r.headers.pairs() == old(
                    self,
                ).headers.pairs().update(j, (key@, value@)),
            r.status_code == old(self).status_code,
            r.version == old(self).version,
            r.body == old(self).body,
            *final(self) == *final(r),
    {
        self.headers.insert(key, value);
        self
    }

    /// Sets the body.
    pub fn set_body(&mut self, body: String) -> (r: &mut Self)
        ensures
            r.body == body,
            r.status_code == old(self).status_code,
            r.version == old(self).version,
            r.headers == old(self).headers,
            *final(self) == *final(r),
    {
        self.body = body;
        self
    }

    /// The response in wire form.
    pub fn to_string(&self) -> (r: String)
        ensures
            r@ == self.wire(),
    {
        let mut out = self.get_response_line();
        let headers = self.get_headers_string();
        out.append(headers.as_str());
        let ghost head = out@;
        assert(head == status_line(self.version@, self.status_code) + header_lines(
            self.headers.pairs(),
        ));
        match self.get_body_string() {
            Some(body) => {
                out.append("Content-Length: ");
                let n = body.as_str().len();
                assert(n == byte_len(self.body@));
                push_decimal(&mut out, n);
                out.append("\r\n");
                assert(out@ =~= head + length_line(self.body@));
                out.append("\r\n");
                out.append(body.as_str());
                assert(out@ =~= head + length_line(self.body@) + "\r\n"@ + self.body@);
            },
            None => {
                out.append("\r\n");
                assert(length_line(self.body@) =~= Seq::<char>::empty());
                assert(out@ =~= head + length_line(self.body@) + "\r\n"@ + self.body@);
            },
        }
        out
    }

    /// The header lines.
    fn get_headers_string(&self) -> (r: String)
        ensures
            r@ == header_lines(self.headers.pairs()),
    {
        let entries = self.headers.entries();
        let ghost h = pairs_view(entries@);
        let mut out = String::new();
        let mut i: usize = 0;
        while i < entries.len()
            invariant
                h == pairs_view(entries@),
                h == self.headers.pairs(),
                i <= entries@.len(),
                out@ == header_lines(h.take(i as int)),
            decreases entries@.len() - i,
        {
            out.append(entries[i].0.as_str());
            out.append(": ");
            out.append(entries[i].1.as_str());
            out.append("\r\n");
            proof {
                assert(h.take(i + 1).drop_last() =~= h.take(i as int));
                assert(out@ =~= header_lines(h.take(i + 1)));
            }
            i = i + 1;
        }
        assert(h.take(entries@.len() as int) =~= h);
        out
    }

    /// The body, when there is one.
    fn get_body_string(&self) -> (r: Option<&String>)
        ensures
            match r {
                Some(b) => self.body@.len() > 0 && b == &self.body,
                None => self.body@.len() == 0,
            },
    {
        if self.body.as_str().is_empty() {
            None
        } else {
            Some(&self.body)
        }
    }

    /// The status line.
    fn get_response_line(&self) -> (r: String)
        ensures
            r@ == status_line(self.version@, self.status_code),
    {
        let code = self.status_code;
        let mut out = self.version.clone();
        out.append(" ");
        push_decimal(&mut out, code as usize);
        out.append(" ");
        if 200 <= code && code <= 299 {
            out.append("OK");
        } else if 300 <= code && code <= 399 {
            out.append("Redirect");
        } else if code == 404 {
            out.append("Not Found");
        } else if 400 <= code && code <= 499 {
            out.append("Client Error");
        } else if 500 <= code && code <= 599 {
            out.append("Internal Server Error");
        } else {
            out.append("Unknown Status");
        }
        out.append("\r\n");
        out
    }
}

} // verus!

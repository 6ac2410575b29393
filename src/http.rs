//! HTTP/1.1 request framing: the request line and header block a client
//! sends before the opaque byte stream, parsed, and written back.

use vstd::prelude::*;
use vstd::string::{StrSliceExecFns, StringExecFns};
use crate::text::{
    chars_of, find_char, find_crlf, index_of, index_of_crlf, lemma_index_of_bounds,
    lemma_index_of_crlf_bounds, trim, trim_str,
};

verus! {

broadcast use vstd::string::group_string_axioms;

#[derive(Debug)]
pub enum Error {
    ParseError(&'static str),
    IoError(&'static str),
}

#[derive(Debug)]
pub struct Request {
    pub method: String,
    pub path: String,
    pub version: String,
    pub headers: Vec<(String, String)>,
}

/// The mathematical value of a `Request`.
pub ghost struct RequestView {
    pub method: Seq<char>,
    pub path: Seq<char>,
    pub version: Seq<char>,
    pub headers: Seq<(Seq<char>, Seq<char>)>,
}

pub open spec fn headers_view(h: Seq<(String, String)>) -> Seq<(Seq<char>, Seq<char>)> {
    h.map_values(|p: (String, String)| (p.0@, p.1@))
}

impl View for Request {
    type V = RequestView;

    open spec fn view(&self) -> RequestView {
        RequestView {
            method: self.method@,
            path: self.path@,
            version: self.version@,
            headers: headers_view(self.headers@),
        }
    }
}

pub open spec fn crlf() -> Seq<char> {
    seq!['\r', '\n']
}

/// A request line split on its first two spaces.
pub open spec fn request_line_parts(line: Seq<char>) -> Option<(Seq<char>, Seq<char>, Seq<char>)> {
    let a = index_of(line, ' ', 0);
    let b = index_of(line, ' ', a + 1);
    if a < 0 || b < 0 {
        None
    } else {
        Some((line.subrange(0, a), line.subrange(a + 1, b), line.subrange(b + 1, line.len() as int)))
    }
}

/// A header line split on its first colon, both sides trimmed.
pub open spec fn header_parts(line: Seq<char>) -> Option<(Seq<char>, Seq<char>)> {
    let c = index_of(line, ':', 0);
    if c < 0 {
        None
    } else {
        Some((trim(line.subrange(0, c)), trim(line.subrange(c + 1, line.len() as int))))
    }
}

/// The line of `s` starting at `p`: up to the next "\r\n", or to the end.
pub open spec fn line_at(s: Seq<char>, p: int) -> Seq<char> {
    let e = index_of_crlf(s, p);
    if e < 0 {
        s.subrange(p, s.len() as int)
    } else {
        s.subrange(p, e)
    }
}

/// The header lines of `s` from position `p` up to the first empty line.
/// `None` when a line is malformed or no empty line comes.
pub open spec fn parse_headers(s: Seq<char>, p: int) -> Option<Seq<(Seq<char>, Seq<char>)>>
    decreases s.len() - p,
{
    if p < 0 || p > s.len() {
        None
    } else {
        let e = index_of_crlf(s, p);
        let line = line_at(s, p);
        if line.len() == 0 {
            Some(Seq::empty())
        } else {
            match header_parts(line) {
                None => None,
                Some(h) => if e < p || e + 2 > s.len() {
                    None
                } else {
                    match parse_headers(s, e + 2) {
                        Some(rest) => Some(seq![h] + rest),
                        None => None,
                    }
                },
            }
        }
    }
}

/// The request a header block `s` holds, if it is well formed: a request
/// line of method, path and version, header lines, then an empty line.
pub open spec fn parse_request(s: Seq<char>) -> Option<RequestView> {
    let e = index_of_crlf(s, 0);
    match request_line_parts(line_at(s, 0)) {
        None => None,
        Some(parts) => if e < 0 {
            None
        } else {
            match parse_headers(s, e + 2) {
                None => None,
                Some(hs) => Some(RequestView { method: parts.0, path: parts.1, version: parts.2, headers: hs }),
            }
        },
    }
}

pub open spec fn header_wire(h: (Seq<char>, Seq<char>)) -> Seq<char> {
    h.0 + seq![':', ' '] + h.1 + crlf()
}

pub open spec fn headers_wire(hs: Seq<(Seq<char>, Seq<char>)>) -> Seq<char>
    decreases hs.len(),
{
    if hs.len() == 0 {
        Seq::empty()
    } else {
        header_wire(hs[0]) + headers_wire(hs.drop_first())
    }
}

/// The bytes a request is written as: request line, each header in order,
/// then the empty line.
pub open spec fn request_wire(r: RequestView) -> Seq<char> {
    r.method + seq![' '] + r.path + seq![' '] + r.version + crlf() + headers_wire(r.headers) + crlf()
}

impl Request {
    /// Parses a header block.
    pub fn new(data: &str) -> (r: Result<Request, Error>)
        ensures
            match r {
                Ok(req) => parse_request(data@) == Some(req@),
                Err(e) => parse_request(data@) is None && e is ParseError,
            },
    {
        let cs = chars_of(data);
        let n = cs.len();
        let first = find_crlf(&cs, 0);
        proof {
            lemma_index_of_crlf_bounds(cs@, 0);
        }
        let line_end = match first {
            Some(e) => e,
            None => n,
        };
        let header_line = data.substring_char(0, line_end);
        assert(header_line@ == line_at(data@, 0));
        let (method, path, version) = match Self::parse_request_line(header_line) {
            Ok(parts) => parts,
            Err(e) => {
                return Err(e);
            },
        };
        let mut result = Request {
            method: method.to_owned(),
            path: path.to_owned(),
            version: version.to_owned(),
            headers: Vec::new(),
        };
        let mut p: usize = match first {
            Some(e) => e + 2,
            None => {
                return Err(Error::ParseError("Missing empty line"));
            },
        };
        let ghost whole = parse_headers(data@, p as int);
        loop
            invariant
                cs@ == data@,
                n == cs@.len(),
                0 <= p <= n,
                parse_request(data@) == match whole {
                    Some(hs) => Some(RequestView { method: result.method@, path: result.path@, version: result.version@, headers: hs }),
                    None => None,
                },
                whole == match parse_headers(data@, p as int) {
                    Some(rest) => Some(headers_view(result.headers@) + rest),
                    None => None,
                },
            decreases n - p,
        {
            let next = find_crlf(&cs, p);
            proof {
                lemma_index_of_crlf_bounds(cs@, p as int);
            }
            let end = match next {
                Some(e) => e,
                None => n,
            };
            let line = data.substring_char(p, end);
            assert(line@ == line_at(data@, p as int));
            if end == p {
                assert(parse_headers(data@, p as int) == Some(Seq::<(Seq<char>, Seq<char>)>::empty()));
                assert(headers_view(result.headers@) + Seq::<(Seq<char>, Seq<char>)>::empty() =~= headers_view(result.headers@));
                return Ok(result);
            }
            let (key, value) = match Self::parse_header_line(line) {
                Ok(kv) => kv,
                Err(e) => {
                    return Err(e);
                },
            };
            let ghost before = result.headers@;
            result.headers.push((key.to_owned(), value.to_owned()));
            assert(headers_view(result.headers@) =~= headers_view(before).push((key@, value@)));
            match next {
                Some(e) => {
                    proof {
                        let h = (key@, value@);
                        match parse_headers(data@, e + 2) {
                            Some(rest) => {
                                assert(headers_view(before) + (seq![h] + rest) =~= headers_view(result.headers@) + rest);
                            },
                            None => {},
                        }
                    }
                    p = e + 2;
                },
                None => {
                    return Err(Error::ParseError("Missing empty line"));
                },
            }
        }
    }

    /// Splits a request line on its first two spaces into method, path and
    /// version.
    pub fn parse_request_line(line: &str) -> (r: Result<(&str, &str, &str), Error>)
        ensures
            match r {
                Ok(parts) => request_line_parts(line@) == Some((parts.0@, parts.1@, parts.2@)),
                Err(e) => request_line_parts(line@) is None && e is ParseError,
            },
    {
        let cs = chars_of(line);
        let a = match find_char(&cs, ' ', 0) {
            Some(a) => a,
            None => {
                return Err(Error::ParseError("Missing path"));
            },
        };
        proof {
            lemma_index_of_bounds(cs@, ' ', 0);
        }
        let b = match find_char(&cs, ' ', a + 1) {
            Some(b) => b,
            None => {
                return Err(Error::ParseError("Missing version"));
            },
        };
        proof {
            lemma_index_of_bounds(cs@, ' ', (a + 1) as int);
            assert(b < cs@.len());
        }
        let method = line.substring_char(0, a);
        let path = line.substring_char(a + 1, b);
        let version = line.substring_char(b + 1, cs.len());
        Ok((method, path, version))
    }

    /// Splits a header line on its first colon into trimmed key and value.
    pub fn parse_header_line(line: &str) -> (r: Result<(&str, &str), Error>)
        ensures
            match r {
                Ok(kv) => header_parts(line@) == Some((kv.0@, kv.1@)),
                Err(e) => header_parts(line@) is None && e is ParseError,
            },
    {
        let cs = chars_of(line);
        let c = match find_char(&cs, ':', 0) {
            Some(c) => c,
            None => {
                return Err(Error::ParseError("Malformed header line"));
            },
        };
        proof {
            lemma_index_of_bounds(cs@, ':', 0);
        }
        let key = trim_str(line.substring_char(0, c));
        let value = trim_str(line.substring_char(c + 1, cs.len()));
        Ok((key, value))
    }
}

impl Request {
    /// The bytes this request is written as: request line, each header in
    /// order, then the empty line.
    pub fn to_wire(&self) -> (r: String)
        ensures
            r@ == request_wire(self@),
    {
        proof {
            reveal_strlit(" ");
            reveal_strlit(": ");
            reveal_strlit("\r\n");
        }
        let mut out = self.method.clone();
        out.append(" ");
        out.append(self.path.as_str());
        out.append(" ");
        out.append(self.version.as_str());
        out.append("\r\n");
        let ghost line = out@;
        let mut i: usize = 0;
        while i < self.headers.len()
            invariant
                i <= self.headers@.len(),
                out@ == line + headers_wire(headers_view(self.headers@).subrange(0, i as int)),
            decreases self.headers@.len() - i,
        {
            let ghost before = out@;
            proof {
                reveal_strlit(": ");
                reveal_strlit("\r\n");
            }
            out.append(self.headers[i].0.as_str());
            out.append(": ");
            out.append(self.headers[i].1.as_str());
            out.append("\r\n");
            proof {
                let hv = headers_view(self.headers@);
                assert(hv[i as int] == (self.headers@[i as int].0@, self.headers@[i as int].1@));
                lemma_headers_wire_push(hv.subrange(0, i as int), hv[i as int]);
                assert(hv.subrange(0, i + 1) =~= hv.subrange(0, i as int).push(hv[i as int]));
                assert(out@ =~= before + header_wire(hv[i as int]));
                assert(out@ =~= line + headers_wire(hv.subrange(0, i + 1)));
            }
            i = i + 1;
        }
        proof {
            reveal_strlit("\r\n");
        }
        out.append("\r\n");
        assert(headers_view(self.headers@).subrange(0, i as int) =~= headers_view(self.headers@));
        out
    }
}

proof fn lemma_headers_wire_push(hs: Seq<(Seq<char>, Seq<char>)>, h: (Seq<char>, Seq<char>))
    ensures
        headers_wire(hs.push(h)) == headers_wire(hs) + header_wire(h),
    decreases hs.len(),
{
    if hs.len() == 0 {
        assert(hs.push(h).drop_first() =~= Seq::<(Seq<char>, Seq<char>)>::empty());
        assert(hs.push(h)[0] == h);
        assert(headers_wire(Seq::<(Seq<char>, Seq<char>)>::empty()) == Seq::<char>::empty());
        assert(headers_wire(hs.push(h)) =~= header_wire(h));
    } else {
        assert(hs.push(h).drop_first() =~= hs.drop_first().push(h));
        lemma_headers_wire_push(hs.drop_first(), h);
        assert(headers_wire(hs.push(h)) =~= headers_wire(hs) + header_wire(h));
    }
}

/// "\r\n\r\n", the end of a header block.
pub open spec fn blank_line_end() -> Seq<char> {
    seq!['\r', '\n', '\r', '\n']
}

pub open spec fn ends_with(s: Seq<char>, q: Seq<char>) -> bool {
    s.len() >= q.len() && s.subrange(s.len() - q.len(), s.len() as int) == q
}

/// How much of "\r\n\r\n" the end of `s` holds.
pub open spec fn progress(s: Seq<char>) -> usize {
    if ends_with(s, blank_line_end()) {
        4
    } else if ends_with(s, blank_line_end().subrange(0, 3)) {
        3
    } else if ends_with(s, blank_line_end().subrange(0, 2)) {
        2
    } else if ends_with(s, blank_line_end().subrange(0, 1)) {
        1
    } else {
        0
    }
}

proof fn lemma_ends_with_push(s: Seq<char>, c: char, q: Seq<char>)
    requires
        q.len() > 0,
    ensures
        ends_with(s.push(c), q) == (c == q.last() && ends_with(s, q.drop_last())),
{
    let t = s.push(c);
    let n = q.len();
    if ends_with(t, q) {
        let w = t.subrange(t.len() - n, t.len() as int);
        assert(w[n - 1] == c);
        assert(q.last() == c);
        assert forall|i: int| 0 <= i < n - 1 implies #[trigger] s.subrange(s.len() - (n - 1), s.len() as int)[i] == q.drop_last()[i] by {
            assert(w[i] == q[i]);
            assert(w[i] == t[t.len() - n + i]);
        }
        assert(s.subrange(s.len() - (n - 1), s.len() as int) =~= q.drop_last());
    }
    if c == q.last() && ends_with(s, q.drop_last()) {
        let u = s.subrange(s.len() - (n - 1), s.len() as int);
        assert forall|i: int| 0 <= i < n implies #[trigger] t.subrange(t.len() - n, t.len() as int)[i] == q[i] by {
            if i < n - 1 {
                assert(u[i] == q.drop_last()[i]);
            }
        }
        assert(t.subrange(t.len() - n, t.len() as int) =~= q);
    }
}

/// Watches the characters of a header block as they arrive, one at a time,
/// and tells when the block's terminating "\r\n\r\n" has arrived.
pub struct HeaderTerminator {
    matched: usize,
    seen: Ghost<Seq<char>>,
}

impl HeaderTerminator {
    /// The characters pushed so far.
    pub closed spec fn seen(&self) -> Seq<char> {
        self.seen@
    }

    pub closed spec fn wf(&self) -> bool {
        self.matched == progress(self.seen@)
    }

    pub fn new() -> (r: Self)
        ensures
            r.wf(),
            r.seen() == Seq::<char>::empty(),
    {
        HeaderTerminator { matched: 0, seen: Ghost(Seq::empty()) }
    }

    /// Takes the next character; `true` once the characters pushed so far
    /// end with "\r\n\r\n".
    pub fn push(&mut self, c: char) -> (done: bool)
        requires
            old(self).wf(),
        ensures
            final(self).wf(),
            final(self).seen() == old(self).seen().push(c),
            done == ends_with(final(self).seen(), blank_line_end()),
    {
        let ghost s = self.seen@;
        let next: usize = if c == '\r' {
            if self.matched == 2 || self.matched == 4 {
                3
            } else {
                1
            }
        } else if c == '\n' {
            if self.matched == 3 {
                4
            } else if self.matched == 1 {
                2
            } else {
                0
            }
        } else {
            0
        };
        proof {
            let p = blank_line_end();
            let t = s.push(c);
            assert(p.subrange(0, 4) =~= p);
            assert(p.subrange(0, 1) =~= seq!['\r']);
            assert(p.subrange(0, 2) =~= seq!['\r', '\n']);
            assert(p.subrange(0, 3) =~= seq!['\r', '\n', '\r']);
            assert(p.drop_last() =~= p.subrange(0, 3));
            assert(p.subrange(0, 3).drop_last() =~= p.subrange(0, 2));
            assert(p.subrange(0, 2).drop_last() =~= p.subrange(0, 1));
            assert(p.subrange(0, 1).drop_last() =~= Seq::<char>::empty());
            lemma_ends_with_push(s, c, p);
            lemma_ends_with_push(s, c, p.subrange(0, 3));
            lemma_ends_with_push(s, c, p.subrange(0, 2));
            lemma_ends_with_push(s, c, p.subrange(0, 1));
            assert(ends_with(s, Seq::<char>::empty())) by {
                assert(s.subrange(s.len() as int, s.len() as int) =~= Seq::<char>::empty());
            }
            // what the end of `s` holds, read off the counter
            if ends_with(s, p) {
                assert(s.last() == '\n');
                assert(s[s.len() - 2] == '\r');
                assert(ends_with(s, p.subrange(0, 2))) by {
                    assert(s.subrange(s.len() - 2, s.len() as int) =~= p.subrange(0, 2));
                }
            }
            if ends_with(s, p.subrange(0, 3)) {
                assert(s.last() == '\r');
                assert(ends_with(s, p.subrange(0, 1))) by {
                    assert(s.subrange(s.len() - 1, s.len() as int) =~= p.subrange(0, 1));
                }
            }
            if ends_with(s, p.subrange(0, 2)) {
                assert(s.last() == '\n');
            }
            if ends_with(s, p.subrange(0, 1)) {
                assert(s.last() == '\r');
            }
        }
        self.matched = next;
        self.seen = Ghost(s.push(c));
        next == 4
    }
}

} // verus!

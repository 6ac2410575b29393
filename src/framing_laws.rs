//! The header block written for a parsed request parses back to it.

use vstd::prelude::*;
use crate::http::{
    crlf, header_parts, headers_wire, line_at, parse_headers, parse_request,
    request_wire, RequestView,
};
use crate::text::{index_of, index_of_crlf, is_ws, lemma_index_of_bounds, trim};

verus! {

/// `x` holds no "\r\n".
pub open spec fn no_crlf(x: Seq<char>) -> bool {
    forall|i: int| 0 <= i < x.len() - 1 ==> !(#[trigger] x[i] == '\r' && x[i + 1] == '\n')
}

pub open spec fn lacks(x: Seq<char>, c: char) -> bool {
    forall|i: int| 0 <= i < x.len() ==> #[trigger] x[i] != c
}

/// A header that writes and parses back unchanged.
pub open spec fn header_ok(h: (Seq<char>, Seq<char>)) -> bool {
    &&& no_crlf(h.0) && lacks(h.0, ':') && trim(h.0) == h.0
    &&& no_crlf(h.1) && trim(h.1) == h.1
}

/// A request that writes and parses back unchanged.
pub open spec fn request_ok(r: RequestView) -> bool {
    &&& lacks(r.method, ' ') && lacks(r.path, ' ')
    &&& no_crlf(r.method + seq![' '] + r.path + seq![' '] + r.version)
    &&& forall|i: int| 0 <= i < r.headers.len() ==> header_ok(#[trigger] r.headers[i])
}

proof fn lemma_first_crlf(s: Seq<char>, from: int, e: int)
    requires
        0 <= from <= e,
        e + 1 < s.len(),
        s[e] == '\r' && s[e + 1] == '\n',
        forall|i: int| from <= i < e ==> !(#[trigger] s[i] == '\r' && s[i + 1] == '\n'),
    ensures
        index_of_crlf(s, from) == e,
    decreases e - from,
{
    if from < e {
        lemma_first_crlf(s, from + 1, e);
    }
}

proof fn lemma_first_index(s: Seq<char>, c: char, from: int, e: int)
    requires
        0 <= from <= e < s.len(),
        s[e] == c,
        forall|i: int| from <= i < e ==> #[trigger] s[i] != c,
    ensures
        index_of(s, c, from) == e,
    decreases e - from,
{
    if from < e {
        lemma_first_index(s, c, from + 1, e);
    }
}

/// No "\r\n" starts between `from` and the first one.
proof fn lemma_crlf_first(s: Seq<char>, from: int)
    requires
        0 <= from,
    ensures
        forall|i: int| from <= i < s.len() - 1 && (index_of_crlf(s, from) < 0 || i < index_of_crlf(s, from)) ==> !(
        #[trigger] s[i] == '\r' && s[i + 1] == '\n'),
        index_of_crlf(s, from) < 0 || (from <= index_of_crlf(s, from) && index_of_crlf(s, from) + 1 < s.len()),
    decreases s.len() - from,
{
    if from + 1 < s.len() && !(s[from] == '\r' && s[from + 1] == '\n') {
        lemma_crlf_first(s, from + 1);
    }
}

proof fn lemma_crlf_shift(s: Seq<char>, p: int, i: int)
    requires
        0 <= p <= s.len(),
        0 <= i,
    ensures
        index_of_crlf(s, p + i) == if index_of_crlf(s.subrange(p, s.len() as int), i) < 0 {
            -1
        } else {
            index_of_crlf(s.subrange(p, s.len() as int), i) + p
        },
    decreases s.len() - (p + i),
{
    let t = s.subrange(p, s.len() as int);
    if p + i + 1 >= s.len() {
    } else {
        assert(t[i] == s[p + i] && t[i + 1] == s[p + i + 1]);
        if !(s[p + i] == '\r' && s[p + i + 1] == '\n') {
            lemma_crlf_shift(s, p, i + 1);
        }
    }
}

/// Parsing header lines from `p` reads only what lies from `p` on.
proof fn lemma_headers_shift(s: Seq<char>, p: int)
    requires
        0 <= p <= s.len(),
    ensures
        parse_headers(s, p) == parse_headers(s.subrange(p, s.len() as int), 0),
    decreases s.len() - p,
{
    let t = s.subrange(p, s.len() as int);
    lemma_crlf_shift(s, p, 0);
    lemma_crlf_first(s, p);
    let e = index_of_crlf(s, p);
    let e2 = index_of_crlf(t, 0);
    if e < 0 {
        assert(line_at(s, p) =~= line_at(t, 0));
    } else {
        assert(line_at(s, p) =~= line_at(t, 0));
        if e + 2 <= s.len() {
            lemma_headers_shift(s, e + 2);
            lemma_headers_shift(t, e2 + 2);
            assert(t.subrange(e2 + 2, t.len() as int) =~= s.subrange(e + 2, s.len() as int));
        }
    }
}

proof fn lemma_trim_sub(x: Seq<char>) -> (ij: (int, int))
    ensures
        0 <= ij.0 <= ij.1 <= x.len(),
        trim(x) == x.subrange(ij.0, ij.1),
    decreases x.len(),
{
    if x.len() > 0 && is_ws(x[0]) {
        let (i, j) = lemma_trim_sub(x.drop_first());
        assert(x.drop_first().subrange(i, j) =~= x.subrange(i + 1, j + 1));
        (i + 1, j + 1)
    } else if x.len() > 0 && is_ws(x.last()) {
        let (i, j) = lemma_trim_sub(x.drop_last());
        assert(x.drop_last().subrange(i, j) =~= x.subrange(i, j));
        (i, j)
    } else {
        assert(x.subrange(0, x.len() as int) =~= x);
        (0, x.len() as int)
    }
}

proof fn lemma_trim_ends(x: Seq<char>)
    ensures
        trim(x).len() == 0 || (!is_ws(trim(x)[0]) && !is_ws(trim(x).last())),
    decreases x.len(),
{
    if x.len() > 0 && is_ws(x[0]) {
        lemma_trim_ends(x.drop_first());
    } else if x.len() > 0 && is_ws(x.last()) {
        lemma_trim_ends(x.drop_last());
    }
}

proof fn lemma_trim_idem(x: Seq<char>)
    ensures
        trim(trim(x)) == trim(x),
{
    lemma_trim_ends(x);
}

proof fn lemma_sub_keeps(x: Seq<char>, i: int, j: int, c: char)
    requires
        0 <= i <= j <= x.len(),
    ensures
        no_crlf(x) ==> no_crlf(x.subrange(i, j)),
        lacks(x, c) ==> lacks(x.subrange(i, j), c),
{
    let y = x.subrange(i, j);
    if no_crlf(x) {
        assert forall|k: int| 0 <= k < y.len() - 1 implies !(#[trigger] y[k] == '\r' && y[k + 1] == '\n') by {
            assert(y[k] == x[i + k] && y[k + 1] == x[i + k + 1]);
        }
    }
    if lacks(x, c) {
        assert forall|k: int| 0 <= k < y.len() implies #[trigger] y[k] != c by {
            assert(y[k] == x[i + k]);
        }
    }
}

proof fn lemma_line_no_crlf(s: Seq<char>, p: int)
    requires
        0 <= p <= s.len(),
    ensures
        no_crlf(line_at(s, p)),
{
    lemma_crlf_first(s, p);
    let l = line_at(s, p);
    let e = index_of_crlf(s, p);
    assert forall|k: int| 0 <= k < l.len() - 1 implies !(#[trigger] l[k] == '\r' && l[k + 1] == '\n') by {
        assert(l[k] == s[p + k] && l[k + 1] == s[p + k + 1]);
    }
}

proof fn lemma_parsed_header_ok(line: Seq<char>)
    requires
        no_crlf(line),
        header_parts(line) is Some,
    ensures
        header_ok(header_parts(line)->Some_0),
{
    let c = index_of(line, ':', 0);
    lemma_index_of_bounds(line, ':', 0);
    let x = line.subrange(0, c);
    let y = line.subrange(c + 1, line.len() as int);
    lemma_sub_keeps(line, 0, c, ':');
    lemma_sub_keeps(line, c + 1, line.len() as int, ':');
    assert(lacks(x, ':')) by {
        assert forall|k: int| 0 <= k < x.len() implies #[trigger] x[k] != ':' by {
            assert(x[k] == line[k]);
        }
    }
    let (i, j) = lemma_trim_sub(x);
    lemma_sub_keeps(x, i, j, ':');
    let (i2, j2) = lemma_trim_sub(y);
    lemma_sub_keeps(y, i2, j2, ':');
    lemma_trim_idem(x);
    lemma_trim_idem(y);
}

proof fn lemma_parsed_headers_ok(s: Seq<char>, p: int)
    requires
        parse_headers(s, p) is Some,
    ensures
        forall|i: int| 0 <= i < parse_headers(s, p)->Some_0.len() ==> header_ok(#[trigger] parse_headers(s, p)->Some_0[i]),
    decreases s.len() - p,
{
    let e = index_of_crlf(s, p);
    let line = line_at(s, p);
    if line.len() > 0 {
        lemma_line_no_crlf(s, p);
        lemma_parsed_header_ok(line);
        lemma_parsed_headers_ok(s, e + 2);
        let hs = parse_headers(s, p)->Some_0;
        let rest = parse_headers(s, e + 2)->Some_0;
        assert forall|i: int| 0 <= i < hs.len() implies header_ok(#[trigger] hs[i]) by {
            if i > 0 {
                assert(hs[i] == rest[i - 1]);
            }
        }
    }
}

/// A parsed request satisfies `request_ok`.
proof fn lemma_parsed_request_ok(s: Seq<char>)
    requires
        parse_request(s) is Some,
    ensures
        request_ok(parse_request(s)->Some_0),
{
    let r = parse_request(s)->Some_0;
    let l = line_at(s, 0);
    lemma_line_no_crlf(s, 0);
    let a = index_of(l, ' ', 0);
    lemma_index_of_bounds(l, ' ', 0);
    lemma_index_of_bounds(l, ' ', a + 1);
    let b = index_of(l, ' ', a + 1);
    assert(r.method + seq![' '] + r.path + seq![' '] + r.version =~= l);
    assert forall|k: int| 0 <= k < r.method.len() implies #[trigger] r.method[k] != ' ' by {
        assert(r.method[k] == l[k]);
    }
    assert forall|k: int| 0 <= k < r.path.len() implies #[trigger] r.path[k] != ' ' by {
        assert(r.path[k] == l[a + 1 + k]);
    }
    lemma_parsed_headers_ok(s, index_of_crlf(s, 0) + 2);
}

proof fn lemma_header_line(h: (Seq<char>, Seq<char>))
    requires
        header_ok(h),
    ensures
        no_crlf(h.0 + seq![':', ' '] + h.1),
        h.0 + seq![':', ' '] + h.1 != Seq::<char>::empty(),
        header_parts(h.0 + seq![':', ' '] + h.1) == Some(h),
{
    let (k, v) = h;
    let l = k + seq![':', ' '] + v;
    let n = k.len() as int;
    assert(l[n] == ':');
    assert forall|i: int| 0 <= i < l.len() - 1 implies !(#[trigger] l[i] == '\r' && l[i + 1] == '\n') by {
        if i < n - 1 {
            assert(l[i] == k[i] && l[i + 1] == k[i + 1]);
        } else if i == n - 1 {
            assert(l[i + 1] == ':');
        } else if i == n {
        } else if i == n + 1 {
            assert(l[i] == ' ');
        } else {
            assert(l[i] == v[i - n - 2] && l[i + 1] == v[i - n - 1]);
        }
    }
    assert forall|i: int| 0 <= i < n implies #[trigger] l[i] != ':' by {
        assert(l[i] == k[i]);
    }
    lemma_first_index(l, ':', 0, n);
    assert(l.subrange(0, n) =~= k);
    let y = l.subrange(n + 1, l.len() as int);
    assert(y =~= seq![' '] + v);
    assert(is_ws(y[0]));
    assert(y.drop_first() =~= v);
}

/// The wire form of headers `hs`, then the empty line, parses back to `hs`.
proof fn lemma_headers_round_trip(hs: Seq<(Seq<char>, Seq<char>)>)
    requires
        forall|i: int| 0 <= i < hs.len() ==> header_ok(#[trigger] hs[i]),
    ensures
        parse_headers(headers_wire(hs) + crlf(), 0) == Some(hs),
    decreases hs.len(),
{
    let t = headers_wire(hs) + crlf();
    if hs.len() == 0 {
        assert(t =~= crlf());
        lemma_first_crlf(t, 0, 0);
        assert(line_at(t, 0) =~= Seq::<char>::empty());
    } else {
        let h = hs[0];
        let rest = hs.drop_first();
        assert forall|i: int| 0 <= i < rest.len() implies header_ok(#[trigger] rest[i]) by {
            assert(rest[i] == hs[i + 1]);
        }
        lemma_headers_round_trip(rest);
        lemma_header_line(h);
        let l = h.0 + seq![':', ' '] + h.1;
        let tail = headers_wire(rest) + crlf();
        assert(t =~= l + crlf() + tail);
        let e = l.len() as int;
        assert forall|i: int| 0 <= i < e implies !(#[trigger] t[i] == '\r' && t[i + 1] == '\n') by {
            if i < e - 1 {
                assert(t[i] == l[i] && t[i + 1] == l[i + 1]);
            } else {
                assert(t[i + 1] == '\r');
            }
        }
        lemma_first_crlf(t, 0, e);
        assert(line_at(t, 0) =~= l);
        lemma_headers_shift(t, e + 2);
        assert(t.subrange(e + 2, t.len() as int) =~= tail);
        assert(seq![h] + rest =~= hs);
    }
}

/// Writing a request that satisfies `request_ok` and parsing what was
/// written gives the request back.
proof fn lemma_request_round_trip(r: RequestView)
    requires
        request_ok(r),
    ensures
        parse_request(request_wire(r)) == Some(r),
{
    let l = r.method + seq![' '] + r.path + seq![' '] + r.version;
    let hw = headers_wire(r.headers) + crlf();
    let w = request_wire(r);
    assert(w =~= l + crlf() + hw);
    let e = l.len() as int;
    assert forall|i: int| 0 <= i < e implies !(#[trigger] w[i] == '\r' && w[i + 1] == '\n') by {
        if i < e - 1 {
            assert(w[i] == l[i] && w[i + 1] == l[i + 1]);
        } else {
            assert(w[i + 1] == '\r');
        }
    }
    lemma_first_crlf(w, 0, e);
    assert(line_at(w, 0) =~= l);
    let m = r.method.len() as int;
    let p = r.path.len() as int;
    assert forall|i: int| 0 <= i < m implies #[trigger] l[i] != ' ' by {
        assert(l[i] == r.method[i]);
    }
    lemma_first_index(l, ' ', 0, m);
    assert forall|i: int| m + 1 <= i < m + 1 + p implies #[trigger] l[i] != ' ' by {
        assert(l[i] == r.path[i - m - 1]);
    }
    lemma_first_index(l, ' ', m + 1, m + 1 + p);
    assert(l.subrange(0, m) =~= r.method);
    assert(l.subrange(m + 1, m + 1 + p) =~= r.path);
    assert(l.subrange(m + 2 + p, l.len() as int) =~= r.version);
    lemma_headers_shift(w, e + 2);
    assert(w.subrange(e + 2, w.len() as int) =~= hw);
    lemma_headers_round_trip(r.headers);
}

/// Parse, write, parse again: the second parse gives the same request line
/// and the same header list as the first.
pub proof fn law_parse_write_round_trip(s: Seq<char>)
    requires
        parse_request(s) is Some,
    ensures
        parse_request(request_wire(parse_request(s)->Some_0)) == parse_request(s),
{
    lemma_parsed_request_ok(s);
    lemma_request_round_trip(parse_request(s)->Some_0);
}

} // verus!

//! The rewrite applied to a request before it is forwarded: its path is
//! replaced or extended, and chosen headers are overridden.

use vstd::prelude::*;
use vstd::string::StringExecFns;
use crate::http::{headers_view, Error, Request, RequestView};

verus! {

broadcast use vstd::string::group_string_axioms;

#[derive(Debug, Clone)]
pub enum PathOverride {
    /// Emit the given path, then the client's path unless that is "/".
    Prefix(String),
    /// Emit the given path in place of the client's.
    Replace(String),
    /// Emit the client's path, then the given one; only the given one when
    /// the client's path is "/".
    Append(String),
}

pub ghost enum PathOverrideView {
    Prefix(Seq<char>),
    Replace(Seq<char>),
    Append(Seq<char>),
}

impl View for PathOverride {
    type V = PathOverrideView;

    open spec fn view(&self) -> PathOverrideView {
        match self {
            PathOverride::Prefix(p) => PathOverrideView::Prefix(p@),
            PathOverride::Replace(p) => PathOverrideView::Replace(p@),
            PathOverride::Append(p) => PathOverrideView::Append(p@),
        }
    }
}

/// The path a request with path `path` is forwarded with.
pub open spec fn rewritten_path(o: PathOverrideView, path: Seq<char>) -> Seq<char> {
    match o {
        PathOverrideView::Replace(p) => p,
        PathOverrideView::Prefix(p) => if path == seq!['/'] {
            p
        } else {
            p + path
        },
        PathOverrideView::Append(p) => if path == seq!['/'] {
            p
        } else {
            path + p
        },
    }
}

pub open spec fn overrides_key(ov: Seq<(Seq<char>, Seq<char>)>, k: Seq<char>) -> bool {
    exists|i: int| 0 <= i < ov.len() && (#[trigger] ov[i]).0 == k
}

/// The headers of a forwarded request: the client's headers whose key is not
/// overridden, in their order, then the overrides in theirs.
pub open spec fn rewritten_headers(hs: Seq<(Seq<char>, Seq<char>)>, ov: Seq<(Seq<char>, Seq<char>)>) -> Seq<(Seq<char>, Seq<char>)> {
    hs.filter(|h: (Seq<char>, Seq<char>)| !overrides_key(ov, h.0)) + ov
}

/// Where a rewriting proxy forwards to, and how it rewrites.
#[derive(Debug)]
pub struct HttpProxyConfig {
    /// Header overrides, keys unique, in the order they were first set.
    pub overide_headers: Vec<(String, String)>,
    pub path_override: PathOverride,
    pub server_addr: String,
    pub connection_count: usize,
}

impl HttpProxyConfig {
    /// Override keys are unique.
    pub open spec fn wf(&self) -> bool {
        let ov = headers_view(self.overide_headers@);
        forall|i: int, j: int| 0 <= i < ov.len() && 0 <= j < ov.len() && i != j ==> (#[trigger] ov[i]).0 != (#[trigger] ov[j]).0
    }

    /// Forwards to `server_addr` with the path unchanged and no overrides.
    pub fn new(server_addr: &str) -> (r: Self)
        ensures
            r.wf(),
            r.overide_headers@.len() == 0,
            r.path_override@ == PathOverrideView::Prefix(seq!['/']),
            r.server_addr@ == server_addr@,
            r.connection_count == 0,
    {
        let slash = "/";
        proof {
            reveal_strlit("/");
        }
        assert(slash@ =~= seq!['/']);
        Self {
            overide_headers: Vec::new(),
            path_override: PathOverride::Prefix(String::from_str(slash)),
            server_addr: server_addr.to_owned(),
            connection_count: 0,
        }
    }

    pub fn with_path_override(self, path_override: PathOverride) -> (r: Self)
        requires
            self.wf(),
        ensures
            r.wf(),
            r.path_override@ == path_override@,
            headers_view(r.overide_headers@) == headers_view(self.overide_headers@),
            r.server_addr@ == self.server_addr@,
            r.connection_count == self.connection_count,
    {
        let mut c = self;
        c.path_override = path_override;
        c
    }

    /// Sets the override of header `key` to `value`: in place when `key` is
    /// already overridden, else after the existing overrides.
    pub fn with_header_override(self, key: &str, value: &str) -> (r: Self)
        requires
            self.wf(),
        ensures
            r.wf(),
            ({
                let ov = headers_view(self.overide_headers@);
                headers_view(r.overide_headers@) == if overrides_key(ov, key@) {
                    ov.update(choose|i: int| 0 <= i < ov.len() && (#[trigger] ov[i]).0 == key@, (key@, value@))
                } else {
                    ov.push((key@, value@))
                }
            }),
            r.path_override@ == self.path_override@,
            r.server_addr@ == self.server_addr@,
            r.connection_count == self.connection_count,
    {
        let mut c = self;
        let ghost ov = headers_view(c.overide_headers@);
        let key_s = key.to_owned();
        let mut i: usize = 0;
        while i < c.overide_headers.len()
            invariant
                c.wf(),
                key_s@ == key@,
                c.path_override@ == self.path_override@,
                c.server_addr@ == self.server_addr@,
                c.connection_count == self.connection_count,
                ov == headers_view(self.overide_headers@),
                i <= c.overide_headers@.len(),
                ov == headers_view(c.overide_headers@),
                forall|j: int| 0 <= j < i ==> (#[trigger] ov[j]).0 != key@,
            decreases c.overide_headers@.len() - i,
        {
            assert(ov[i as int] == (c.overide_headers@[i as int].0@, c.overide_headers@[i as int].1@));
            if c.overide_headers[i].0 == key_s {
                assert(overrides_key(ov, key@));
                let ghost j = choose|j: int| 0 <= j < ov.len() && (#[trigger] ov[j]).0 == key@;
                assert(j == i) by {
                    if j != i {
                        assert(ov[j].0 != ov[i as int].0);
                    }
                };
                c.overide_headers.set(i, (key_s, value.to_owned()));
                assert(headers_view(c.overide_headers@) =~= ov.update(i as int, (key@, value@)));
                assert forall|a: int, b: int| 0 <= a < ov.len() && 0 <= b < ov.len() && a != b implies
                    (#[trigger] headers_view(c.overide_headers@)[a]).0 != (#[trigger] headers_view(c.overide_headers@)[b]).0 by {
                    if a != i && b != i {
                        assert(ov[a].0 != ov[b].0);
                    } else if a == i {
                        assert(ov[b].0 != ov[i as int].0);
                    } else {
                        assert(ov[a].0 != ov[i as int].0);
                    }
                }
                return c;
            }
            i = i + 1;
        }
        c.overide_headers.push((key_s, value.to_owned()));
        assert(headers_view(c.overide_headers@) =~= ov.push((key@, value@)));
        assert forall|a: int, b: int| 0 <= a < ov.len() + 1 && 0 <= b < ov.len() + 1 && a != b implies
            (#[trigger] headers_view(c.overide_headers@)[a]).0 != (#[trigger] headers_view(c.overide_headers@)[b]).0 by {
            if a < ov.len() && b < ov.len() {
                assert(ov[a].0 != ov[b].0);
            } else if a < ov.len() {
                assert(ov[a].0 != key@);
            } else {
                assert(ov[b].0 != key@);
            }
        }
        assert(!overrides_key(ov, key@));
        c
    }
}

/// Whether `key` is among the override keys.
fn is_overridden(ov: &Vec<(String, String)>, key: &String) -> (r: bool)
    ensures
        r == overrides_key(headers_view(ov@), key@),
{
    let ghost hv = headers_view(ov@);
    let mut i: usize = 0;
    while i < ov.len()
        invariant
            i <= ov@.len(),
            hv == headers_view(ov@),
            forall|j: int| 0 <= j < i ==> (#[trigger] hv[j]).0 != key@,
        decreases ov@.len() - i,
    {
        assert(hv[i as int] == (ov@[i as int].0@, ov@[i as int].1@));
        if ov[i].0 == *key {
            return true;
        }
        i = i + 1;
    }
    false
}

impl HttpProxyConfig {
    /// The request as forwarded: path rewritten by the path override; every
    /// header whose key is overridden removed, the overrides appended.
    pub fn modify_request(&self, request: Request) -> (r: Result<Request, Error>)
        ensures
            r matches Ok(req) && req@ == (RequestView {
                path: rewritten_path(self.path_override@, request@.path),
                headers: rewritten_headers(request@.headers, headers_view(self.overide_headers@)),
                ..request@
            }),
    {
        let slash = String::from_str("/");
        proof {
            reveal_strlit("/");
        }
        assert(slash@ =~= seq!['/']);
        let path = match &self.path_override {
            PathOverride::Replace(p) => p.clone(),
            PathOverride::Prefix(p) => if request.path == slash {
                p.clone()
            } else {
                p.clone().concat(request.path.as_str())
            },
            PathOverride::Append(p) => if request.path == slash {
                p.clone()
            } else {
                request.path.clone().concat(p.as_str())
            },
        };
        let ghost ov = headers_view(self.overide_headers@);
        let ghost hv = headers_view(request.headers@);
        let ghost keep = |h: (Seq<char>, Seq<char>)| !overrides_key(ov, h.0);
        let mut headers: Vec<(String, String)> = Vec::new();
        let mut i: usize = 0;
        while i < request.headers.len()
            invariant
                i <= request.headers@.len(),
                hv == headers_view(request.headers@),
                ov == headers_view(self.overide_headers@),
                keep == |h: (Seq<char>, Seq<char>)| !overrides_key(ov, h.0),
                headers_view(headers@) == hv.subrange(0, i as int).filter(keep),
            decreases request.headers@.len() - i,
        {
            assert(hv[i as int] == (request.headers@[i as int].0@, request.headers@[i as int].1@));
            assert(hv.subrange(0, i + 1).drop_last() =~= hv.subrange(0, i as int));
            proof {
                reveal(Seq::filter);
                assert(hv.subrange(0, i + 1).last() == hv[i as int]);
            }
            let ghost before = headers@;
            if !is_overridden(&self.overide_headers, &request.headers[i].0) {
                headers.push((request.headers[i].0.clone(), request.headers[i].1.clone()));
                assert(headers_view(headers@) =~= headers_view(before).push(hv[i as int]));
            }
            i = i + 1;
        }
        assert(hv.subrange(0, i as int) =~= hv);
        let ghost kept = headers@;
        let mut j: usize = 0;
        while j < self.overide_headers.len()
            invariant
                j <= self.overide_headers@.len(),
                ov == headers_view(self.overide_headers@),
                headers_view(headers@) == headers_view(kept) + ov.subrange(0, j as int),
            decreases self.overide_headers@.len() - j,
        {
            assert(ov[j as int] == (self.overide_headers@[j as int].0@, self.overide_headers@[j as int].1@));
            let ghost before = headers@;
            headers.push((self.overide_headers[j].0.clone(), self.overide_headers[j].1.clone()));
            assert(headers_view(headers@) =~= headers_view(before).push(ov[j as int]));
            assert(ov.subrange(0, j + 1) =~= ov.subrange(0, j as int).push(ov[j as int]));
            j = j + 1;
        }
        assert(ov.subrange(0, j as int) =~= ov);
        Ok(Request { method: request.method, path, version: request.version, headers })
    }
}

} // verus!

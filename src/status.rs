//! What the status page shows: the browsers among the registry's records,
//! their counts and states, the most recent connections and registrations,
//! and the detail of one instance. Turning these into HTML is left to the
//! page's template.

use vstd::prelude::*;
use vstd::string::{StrSliceExecFns, StringExecFns};
use crate::model::{
    copy_id_option, id_option_view, string_option_view, DescriptionView, InstanceDescription,
    InstanceId, InstanceType, KillReason, TimestampMs,
};
use crate::text::{pad2, pad2_string};

verus! {

broadcast use vstd::string::group_string_axioms;

/// How many connections and registrations the page lists.
pub const MAX_ITEMS: usize = 30;

/// An instance id as shown: a label, and a link to its detail page.
#[derive(Debug, Clone)]
pub struct InstanceIdWithUrl {
    pub label: String,
    pub url: Option<String>,
}

pub ghost struct LinkView {
    pub label: Seq<char>,
    pub url: Option<Seq<char>>,
}

impl View for InstanceIdWithUrl {
    type V = LinkView;

    open spec fn view(&self) -> LinkView {
        LinkView { label: self.label@, url: string_option_view(self.url) }
    }
}

/// `s` cut to 29 characters and "..." when it is longer than 32.
pub open spec fn truncated(s: Seq<char>) -> Seq<char> {
    if s.len() > 32 {
        s.subrange(0, 29) + seq!['.', '.', '.']
    } else {
        s
    }
}

pub fn truncated_string(s: &str) -> (r: String)
    ensures
        r@ == truncated(s@),
{
    let n = s.unicode_len();
    if n > 32 {
        let dots = "...";
        proof {
            reveal_strlit("...");
        }
        let mut r = s.substring_char(0, 29).to_owned();
        r.append(dots);
        assert(r@ =~= truncated(s@));
        r
    } else {
        s.to_owned()
    }
}

pub open spec fn link_of(id: Option<Seq<char>>) -> LinkView {
    match id {
        None => LinkView { label: "No ID"@, url: None },
        Some(k) => LinkView { label: truncated(k), url: Some("browsers?instance_id="@ + k) },
    }
}

pub fn format_instance_id(instance_id: &Option<InstanceId>) -> (r: InstanceIdWithUrl)
    ensures
        r@ == link_of(id_option_view(*instance_id)),
{
    match instance_id {
        None => InstanceIdWithUrl { label: String::from_str("No ID"), url: None },
        Some(id) => {
            let mut url = String::from_str("browsers?instance_id=");
            url.append(id.instance_id.as_str());
            InstanceIdWithUrl { label: truncated_string(id.instance_id.as_str()), url: Some(url) }
        },
    }
}

/// A browser as the status page sees it.
pub struct Browser {
    pub browser_id: Option<InstanceId>,
    pub registered_at_ms: u64,
    /// The claiming parent and when it claimed.
    pub connected: Option<(Option<InstanceId>, u64)>,
    pub dead_at_ms: Option<u64>,
}

pub ghost struct BrowserView {
    pub browser_id: Option<Seq<char>>,
    pub registered_at_ms: u64,
    pub connected: Option<(Option<Seq<char>>, u64)>,
    pub dead_at_ms: Option<u64>,
}

impl View for Browser {
    type V = BrowserView;

    open spec fn view(&self) -> BrowserView {
        BrowserView {
            browser_id: id_option_view(self.browser_id),
            registered_at_ms: self.registered_at_ms,
            connected: match self.connected {
                Some(c) => Some((id_option_view(c.0), c.1)),
                None => None,
            },
            dead_at_ms: self.dead_at_ms,
        }
    }
}

pub open spec fn browsers_view(bs: Seq<Browser>) -> Seq<BrowserView> {
    bs.map_values(|b: Browser| b@)
}

pub open spec fn browser_state(b: BrowserView) -> Seq<char> {
    if b.dead_at_ms is Some {
        "dead"@
    } else if b.connected is Some {
        "connected"@
    } else {
        "idle"@
    }
}

impl Browser {
    pub fn state(&self) -> (r: String)
        ensures
            r@ == browser_state(self@),
    {
        if self.dead_at_ms.is_some() {
            String::from_str("dead")
        } else if self.connected.is_some() {
            String::from_str("connected")
        } else {
            String::from_str("idle")
        }
    }
}

pub open spec fn is_healthy(b: BrowserView) -> bool {
    b.dead_at_ms is None
}

pub open spec fn is_available(b: BrowserView) -> bool {
    b.connected is None && b.dead_at_ms is None
}

pub fn all_browsers(browsers: &[Browser]) -> (r: i32)
    ensures
        r == browsers@.len() as i32,
{
    browsers.len() as i32
}

pub fn healthy_browsers(browsers: &[Browser]) -> (r: i32)
    ensures
        r == browsers_view(browsers@).filter(|b: BrowserView| is_healthy(b)).len() as i32,
{
    let ghost bv = browsers_view(browsers@);
    let ghost f = |b: BrowserView| is_healthy(b);
    let mut n: usize = 0;
    let mut i: usize = 0;
    while i < browsers.len()
        invariant
            i <= browsers@.len(),
            bv == browsers_view(browsers@),
            f == |b: BrowserView| is_healthy(b),
            n == bv.subrange(0, i as int).filter(f).len(),
            n <= i,
        decreases browsers@.len() - i,
    {
        proof {
            reveal(Seq::filter);
            assert(bv.subrange(0, i + 1).drop_last() =~= bv.subrange(0, i as int));
            assert(bv[i as int] == browsers@[i as int]@);
        }
        if browsers[i].dead_at_ms.is_none() {
            n = n + 1;
        }
        i = i + 1;
    }
    assert(bv.subrange(0, i as int) =~= bv);
    n as i32
}

pub fn available_browsers(browsers: &[Browser]) -> (r: i32)
    ensures
        r == browsers_view(browsers@).filter(|b: BrowserView| is_available(b)).len() as i32,
{
    let ghost bv = browsers_view(browsers@);
    let ghost f = |b: BrowserView| is_available(b);
    let mut n: usize = 0;
    let mut i: usize = 0;
    while i < browsers.len()
        invariant
            i <= browsers@.len(),
            bv == browsers_view(browsers@),
            f == |b: BrowserView| is_available(b),
            n == bv.subrange(0, i as int).filter(f).len(),
            n <= i,
        decreases browsers@.len() - i,
    {
        proof {
            reveal(Seq::filter);
            assert(bv.subrange(0, i + 1).drop_last() =~= bv.subrange(0, i as int));
            assert(bv[i as int] == browsers@[i as int]@);
        }
        if browsers[i].connected.is_none() && browsers[i].dead_at_ms.is_none() {
            n = n + 1;
        }
        i = i + 1;
    }
    assert(bv.subrange(0, i as int) =~= bv);
    n as i32
}

/// Why a record could not be shown as a browser.
#[derive(Debug, Clone, Copy, PartialEq, Eq, Structural)]
pub enum StatusError {
    CreatedTimestampNotFound,
    RelationshipTimestampNotFound,
    KillTimestampNotFound,
}

/// The browser record `d` shows as, or why it cannot be shown.
pub open spec fn browser_of(d: DescriptionView) -> Result<BrowserView, StatusError> {
    if d.created_timestamp_ms is None {
        Err(StatusError::CreatedTimestampNotFound)
    } else if d.parent is Some && d.parent->Some_0.timestamp_ms is None {
        Err(StatusError::RelationshipTimestampNotFound)
    } else if d.kill_instance_request is Some && d.kill_instance_request->Some_0.timestamp_ms is None {
        Err(StatusError::KillTimestampNotFound)
    } else {
        Ok(BrowserView {
            browser_id: d.instance_id,
            registered_at_ms: d.created_timestamp_ms->Some_0.timestamp_ms,
            connected: match d.parent {
                Some(p) => Some((p.instance_id, p.timestamp_ms->Some_0.timestamp_ms)),
                None => None,
            },
            dead_at_ms: match d.kill_instance_request {
                Some(k) => Some(k.timestamp_ms->Some_0.timestamp_ms),
                None => None,
            },
        })
    }
}

pub open spec fn is_browser(d: DescriptionView) -> bool {
    d.instance_type == Some(InstanceType::ChromeBrowser)
}

/// The browsers among `ds`, in order; the first record that cannot be shown
/// makes the whole list fail.
pub open spec fn browsers_of(ds: Seq<DescriptionView>) -> Result<Seq<BrowserView>, StatusError>
    decreases ds.len(),
{
    if ds.len() == 0 {
        Ok(Seq::empty())
    } else {
        match browsers_of(ds.drop_last()) {
            Err(e) => Err(e),
            Ok(bs) => if !is_browser(ds.last()) {
                Ok(bs)
            } else {
                match browser_of(ds.last()) {
                    Err(e) => Err(e),
                    Ok(b) => Ok(bs.push(b)),
                }
            },
        }
    }
}

fn browser_from(d: &InstanceDescription) -> (r: Result<Browser, StatusError>)
    ensures
        match r {
            Ok(b) => browser_of(d@) == Ok::<BrowserView, StatusError>(b@),
            Err(e) => browser_of(d@) == Err::<BrowserView, StatusError>(e),
        },
{
    let registered_at_ms = match d.created_timestamp_ms {
        Some(t) => t.timestamp_ms,
        None => {
            return Err(StatusError::CreatedTimestampNotFound);
        },
    };
    let connected = match &d.parent {
        Some(p) => match p.timestamp_ms {
            Some(t) => Some((copy_id_option(&p.instance_id), t.timestamp_ms)),
            None => {
                return Err(StatusError::RelationshipTimestampNotFound);
            },
        },
        None => None,
    };
    let dead_at_ms = match d.kill_instance_request {
        Some(k) => match k.timestamp_ms {
            Some(t) => Some(t.timestamp_ms),
            None => {
                return Err(StatusError::KillTimestampNotFound);
            },
        },
        None => None,
    };
    let b = Browser { browser_id: copy_id_option(&d.instance_id), registered_at_ms, connected, dead_at_ms };
    assert(browser_of(d@) == Ok::<BrowserView, StatusError>(b@));
    Ok(b)
}

/// The browsers the status page lists, from a snapshot of the registry.
pub fn browsers_from_descriptions(descriptions: &Vec<InstanceDescription>) -> (r: Result<Vec<Browser>, StatusError>)
    ensures
        match r {
            Ok(bs) => browsers_of(descriptions@.map_values(|d: InstanceDescription| d@)) == Ok::<Seq<BrowserView>, StatusError>(browsers_view(bs@)),
            Err(e) => browsers_of(descriptions@.map_values(|d: InstanceDescription| d@)) == Err::<Seq<BrowserView>, StatusError>(e),
        },
{
    let ghost dv = descriptions@.map_values(|d: InstanceDescription| d@);
    let mut out: Vec<Browser> = Vec::new();
    let mut i: usize = 0;
    assert(browsers_view(out@) =~= Seq::<BrowserView>::empty());
    assert(dv.subrange(0, 0) =~= Seq::<DescriptionView>::empty());
    while i < descriptions.len()
        invariant
            i <= descriptions@.len(),
            dv == descriptions@.map_values(|d: InstanceDescription| d@),
            browsers_of(dv.subrange(0, i as int)) == Ok::<Seq<BrowserView>, StatusError>(browsers_view(out@)),
        decreases descriptions@.len() - i,
    {
        let d = &descriptions[i];
        assert(dv.subrange(0, i + 1).drop_last() =~= dv.subrange(0, i as int));
        assert(dv.subrange(0, i + 1).last() == d@);
        if d.instance_type == Some(InstanceType::ChromeBrowser) {
            match browser_from(d) {
                Ok(b) => {
                    let ghost before = out@;
                    out.push(b);
                    assert(browsers_view(out@) =~= browsers_view(before).push(b@));
                },
                Err(e) => {
                    assert(browsers_of(dv.subrange(0, i + 1)) == Err::<Seq<BrowserView>, StatusError>(e));
                    proof {
                        lemma_browsers_of_err_sticks(dv, i as int + 1, e);
                    }
                    return Err(e);
                },
            }
        }
        i = i + 1;
    }
    assert(dv.subrange(0, i as int) =~= dv);
    Ok(out)
}

proof fn lemma_browsers_of_err_sticks(ds: Seq<DescriptionView>, n: int, e: StatusError)
    requires
        0 <= n <= ds.len(),
        browsers_of(ds.subrange(0, n)) == Err::<Seq<BrowserView>, StatusError>(e),
    ensures
        browsers_of(ds) == Err::<Seq<BrowserView>, StatusError>(e),
    decreases ds.len() - n,
{
    if n == ds.len() {
        assert(ds.subrange(0, n) =~= ds);
    } else {
        assert(ds.subrange(0, n + 1).drop_last() =~= ds.subrange(0, n));
        lemma_browsers_of_err_sticks(ds, n + 1, e);
    }
}

/// The position `x` takes among the already ordered positions `s`: after
/// every one whose key is not larger, so equal keys keep their order.
pub open spec fn insert_by_key(keys: Seq<u64>, s: Seq<int>, x: int) -> Seq<int>
    decreases s.len(),
{
    if s.len() == 0 || keys[s.last()] <= keys[x] {
        s.push(x)
    } else {
        insert_by_key(keys, s.drop_last(), x).push(s.last())
    }
}

/// The positions `0..n` ordered by `keys`, ties kept in position order.
pub open spec fn stable_order(keys: Seq<u64>, n: int) -> Seq<int>
    decreases n,
{
    if n <= 0 {
        Seq::empty()
    } else {
        insert_by_key(keys, stable_order(keys, n - 1), n - 1)
    }
}

proof fn lemma_insert_at(keys: Seq<u64>, s: Seq<int>, x: int, j: int)
    requires
        0 <= j <= s.len(),
        forall|l: int| j <= l < s.len() ==> keys[#[trigger] s[l]] > keys[x],
        j == 0 || keys[s[j - 1]] <= keys[x],
    ensures
        insert_by_key(keys, s, x) == s.subrange(0, j).push(x) + s.subrange(j, s.len() as int),
    decreases s.len(),
{
    if j == s.len() {
        assert(s.subrange(0, j) =~= s);
        assert(s.subrange(j, s.len() as int) =~= Seq::<int>::empty());
        assert(s.subrange(0, j).push(x) + s.subrange(j, s.len() as int) =~= s.push(x));
    } else {
        assert(keys[s.last()] > keys[x]);
        let t = s.drop_last();
        assert forall|l: int| j <= l < t.len() implies keys[#[trigger] t[l]] > keys[x] by {
            assert(t[l] == s[l]);
        }
        if j > 0 {
            assert(t[j - 1] == s[j - 1]);
        }
        lemma_insert_at(keys, t, x, j);
        assert(t.subrange(0, j) =~= s.subrange(0, j));
        assert(s.subrange(0, j).push(x) + s.subrange(j, s.len() as int) =~= (t.subrange(0, j).push(x) + t.subrange(j, t.len() as int)).push(s.last()));
    }
}

/// The positions `0..keys.len()` ordered by key, ties in position order.
pub fn order_by_key(keys: &Vec<u64>) -> (r: Vec<usize>)
    ensures
        r@.map_values(|i: usize| i as int) == stable_order(keys@, keys@.len() as int),
{
    let mut order: Vec<usize> = Vec::new();
    let mut i: usize = 0;
    while i < keys.len()
        invariant
            i <= keys@.len(),
            order@.len() == i,
            order@.map_values(|p: usize| p as int) == stable_order(keys@, i as int),
            forall|a: int| 0 <= a < order@.len() ==> (#[trigger] order@[a]) < i,
        decreases keys@.len() - i,
    {
        let ghost s = order@.map_values(|p: usize| p as int);
        let mut j: usize = order.len();
        while j > 0 && keys[order[j - 1]] > keys[i]
            invariant
                j <= order@.len(),
                i < keys@.len(),
                s == order@.map_values(|p: usize| p as int),
                forall|a: int| 0 <= a < order@.len() ==> (#[trigger] order@[a]) < i,
                forall|l: int| j <= l < s.len() ==> keys@[#[trigger] s[l]] > keys@[i as int],
            decreases j,
        {
            j = j - 1;
        }
        proof {
            if j > 0 {
                assert(s[j - 1] == order@[j - 1] as int);
            }
            lemma_insert_at(keys@, s, i as int, j as int);
        }
        order.insert(j, i);
        proof {
            assert(order@.map_values(|p: usize| p as int) =~= s.subrange(0, j as int).push(i as int) + s.subrange(j as int, s.len() as int));
        }
        i = i + 1;
    }
    order
}

/// `now - ts`, or 0 when `ts` lies ahead of `now`.
pub open spec fn since(now: u64, ts: u64) -> u64 {
    if now >= ts {
        (now - ts) as u64
    } else {
        0
    }
}

/// One row of the page's connection list.
pub struct Connection {
    pub parent_id: InstanceIdWithUrl,
    pub instance_id: InstanceIdWithUrl,
    pub time_since_connected_ms: u64,
    pub state: String,
}

/// One row of the page's registration list.
pub struct Registrations {
    pub browser_id: InstanceIdWithUrl,
    pub time_since_registered_ms: u64,
    pub state: String,
}

pub ghost struct ConnectionView {
    pub parent_id: LinkView,
    pub instance_id: LinkView,
    pub time_since_connected_ms: u64,
    pub state: Seq<char>,
}

pub ghost struct RegistrationView {
    pub browser_id: LinkView,
    pub time_since_registered_ms: u64,
    pub state: Seq<char>,
}

impl View for Connection {
    type V = ConnectionView;

    open spec fn view(&self) -> ConnectionView {
        ConnectionView {
            parent_id: self.parent_id@,
            instance_id: self.instance_id@,
            time_since_connected_ms: self.time_since_connected_ms,
            state: self.state@,
        }
    }
}

impl View for Registrations {
    type V = RegistrationView;

    open spec fn view(&self) -> RegistrationView {
        RegistrationView {
            browser_id: self.browser_id@,
            time_since_registered_ms: self.time_since_registered_ms,
            state: self.state@,
        }
    }
}

pub open spec fn connection_row(b: BrowserView, now: u64) -> ConnectionView {
    ConnectionView {
        parent_id: link_of(b.connected->Some_0.0),
        instance_id: link_of(b.browser_id),
        time_since_connected_ms: since(now, b.connected->Some_0.1),
        state: browser_state(b),
    }
}

pub open spec fn registration_row(b: BrowserView, now: u64) -> RegistrationView {
    RegistrationView {
        browser_id: link_of(b.browser_id),
        time_since_registered_ms: since(now, b.registered_at_ms),
        state: browser_state(b),
    }
}

/// The connected browsers, in order.
pub open spec fn connected_browsers(bs: Seq<BrowserView>) -> Seq<BrowserView> {
    bs.filter(|b: BrowserView| b.connected is Some)
}

/// What the dashboard shows.
pub struct WarmPoolTemplate {
    pub all_browsers: i32,
    pub healthy_browsers: i32,
    pub available_browsers: i32,
    pub connections: Vec<Connection>,
    pub registrations: Vec<Registrations>,
}

impl WarmPoolTemplate {
    /// `ms` as hours, minutes and seconds, two columns each.
    pub fn ms_to_time_string(&self, ms: &u64) -> (r: String)
        ensures
            r@ == time_text(*ms),
    {
        let seconds = *ms / 1000;
        let minutes = seconds / 60;
        let hours = minutes / 60;
        if hours > 99 {
            String::from_str(">99h old...")
        } else {
            proof {
                reveal_strlit("h ");
                reveal_strlit("m ");
                reveal_strlit("s");
            }
            let mut r = pad2_string(hours);
            r.append("h ");
            r.append(pad2_string(minutes % 60).as_str());
            r.append("m ");
            r.append(pad2_string(seconds % 60).as_str());
            r.append("s");
            assert(r@ =~= time_text(*ms));
            r
        }
    }
}

pub open spec fn time_text(ms: u64) -> Seq<char> {
    let seconds = ms / 1000;
    let minutes = seconds / 60;
    let hours = minutes / 60;
    if hours > 99 {
        ">99h old..."@
    } else {
        pad2(hours as nat) + seq!['h', ' '] + pad2((minutes % 60) as nat) + seq!['m', ' '] + pad2((seconds % 60) as nat) + seq!['s']
    }
}

/// The positions among the first `n` browsers of those that are connected.
pub open spec fn connected_positions(bs: Seq<BrowserView>, n: int) -> Seq<int>
    decreases n,
{
    if n <= 0 || n > bs.len() {
        Seq::empty()
    } else if bs[n - 1].connected is Some {
        connected_positions(bs, n - 1).push(n - 1)
    } else {
        connected_positions(bs, n - 1)
    }
}

pub open spec fn min_items(n: int) -> int {
    if n < MAX_ITEMS {
        n
    } else {
        MAX_ITEMS as int
    }
}

/// The connection rows: connected browsers by time since they were claimed,
/// most recent first, at most `MAX_ITEMS` of them.
pub open spec fn connection_rows_ok(bs: Seq<BrowserView>, now: u64, rows: Seq<ConnectionView>) -> bool {
    let pos = connected_positions(bs, bs.len() as int);
    let keys = pos.map_values(|p: int| since(now, bs[p].connected->Some_0.1));
    let order = stable_order(keys, pos.len() as int);
    &&& rows.len() == min_items(pos.len() as int)
    &&& forall|a: int| 0 <= a < rows.len() ==> #[trigger] rows[a] == connection_row(bs[pos[order[a]]], now)
}

/// The registration rows: browsers by time since they registered, most
/// recent first, at most `MAX_ITEMS` of them.
pub open spec fn registration_rows_ok(bs: Seq<BrowserView>, now: u64, rows: Seq<RegistrationView>) -> bool {
    let keys = bs.map_values(|b: BrowserView| since(now, b.registered_at_ms));
    let order = stable_order(keys, bs.len() as int);
    &&& rows.len() == min_items(bs.len() as int)
    &&& forall|a: int| 0 <= a < rows.len() ==> #[trigger] rows[a] == registration_row(bs[order[a]], now)
}

proof fn lemma_connected_positions(bs: Seq<BrowserView>, n: int)
    requires
        0 <= n <= bs.len(),
    ensures
        forall|a: int| 0 <= a < connected_positions(bs, n).len() ==> 0 <= #[trigger] connected_positions(bs, n)[a] < n
            && bs[connected_positions(bs, n)[a]].connected is Some,
        connected_positions(bs, n).len() <= n,
    decreases n,
{
    if n > 0 {
        lemma_connected_positions(bs, n - 1);
    }
}

proof fn lemma_stable_order_bounds(keys: Seq<u64>, n: int)
    requires
        0 <= n,
    ensures
        stable_order(keys, n).len() == n,
        forall|a: int| 0 <= a < n ==> 0 <= #[trigger] stable_order(keys, n)[a] < n,
    decreases n,
{
    if n > 0 {
        lemma_stable_order_bounds(keys, n - 1);
        lemma_insert_bounds(keys, stable_order(keys, n - 1), n - 1);
    }
}

proof fn lemma_insert_bounds(keys: Seq<u64>, s: Seq<int>, x: int)
    ensures
        insert_by_key(keys, s, x).len() == s.len() + 1,
        forall|a: int| 0 <= a < s.len() + 1 ==> (#[trigger] insert_by_key(keys, s, x)[a] == x || s.contains(insert_by_key(keys, s, x)[a])),
    decreases s.len(),
{
    if s.len() == 0 || keys[s.last()] <= keys[x] {
        assert forall|a: int| 0 <= a < s.len() + 1 implies (#[trigger] insert_by_key(keys, s, x)[a] == x || s.contains(insert_by_key(keys, s, x)[a])) by {
            if a < s.len() {
                assert(s.push(x)[a] == s[a]);
            }
        }
    } else {
        let t = s.drop_last();
        lemma_insert_bounds(keys, t, x);
        assert forall|a: int| 0 <= a < s.len() + 1 implies (#[trigger] insert_by_key(keys, s, x)[a] == x || s.contains(insert_by_key(keys, s, x)[a])) by {
            if a < s.len() {
                let v = insert_by_key(keys, t, x)[a];
                if v != x {
                    let w = choose|w: int| 0 <= w < t.len() && t[w] == v;
                    assert(s[w] == v);
                }
            } else {
                assert(s[s.len() - 1] == s.last());
            }
        }
    }
}

fn since_exec(now: u64, ts: u64) -> (r: u64)
    ensures
        r == since(now, ts),
{
    if now >= ts {
        now - ts
    } else {
        0
    }
}

/// The dashboard of `browsers` at time `current_time_ms`.
pub fn render(browsers: &[Browser], current_time_ms: u64) -> (r: WarmPoolTemplate)
    ensures
        r.all_browsers == browsers@.len() as i32,
        r.healthy_browsers == browsers_view(browsers@).filter(|b: BrowserView| is_healthy(b)).len() as i32,
        r.available_browsers == browsers_view(browsers@).filter(|b: BrowserView| is_available(b)).len() as i32,
        connection_rows_ok(browsers_view(browsers@), current_time_ms, r.connections@.map_values(|c: Connection| c@)),
        registration_rows_ok(browsers_view(browsers@), current_time_ms, r.registrations@.map_values(|c: Registrations| c@)),
{
    let now = current_time_ms;
    let ghost bv = browsers_view(browsers@);
    // connected browsers and their keys
    let mut pos: Vec<usize> = Vec::new();
    let mut ckeys: Vec<u64> = Vec::new();
    let mut i: usize = 0;
    while i < browsers.len()
        invariant
            i <= browsers@.len(),
            bv == browsers_view(browsers@),
            pos@.map_values(|p: usize| p as int) == connected_positions(bv, i as int),
            ckeys@ == connected_positions(bv, i as int).map_values(|p: int| since(now, bv[p].connected->Some_0.1)),
        decreases browsers@.len() - i,
    {
        assert(bv[i as int] == browsers@[i as int]@);
        match &browsers[i].connected {
            Some(c) => {
                pos.push(i);
                ckeys.push(since_exec(now, c.1));
                proof {
                    assert(pos@.map_values(|p: usize| p as int) =~= connected_positions(bv, i + 1));
                    assert(ckeys@ =~= connected_positions(bv, i + 1).map_values(|p: int| since(now, bv[p].connected->Some_0.1)));
                }
            },
            None => {},
        }
        i = i + 1;
    }
    proof {
        lemma_connected_positions(bv, bv.len() as int);
    }
    let corder = order_by_key(&ckeys);
    proof {
        lemma_stable_order_bounds(ckeys@, ckeys@.len() as int);
    }
    let ghost cpos = connected_positions(bv, bv.len() as int);
    let ghost co = stable_order(ckeys@, ckeys@.len() as int);
    let mut connections: Vec<Connection> = Vec::new();
    let mut a: usize = 0;
    while a < corder.len() && a < MAX_ITEMS
        invariant
            a <= corder@.len(),
            a <= MAX_ITEMS,
            corder@.len() == ckeys@.len(),
            cpos.len() == ckeys@.len(),
            bv == browsers_view(browsers@),
            cpos == connected_positions(bv, bv.len() as int),
            cpos == pos@.map_values(|p: usize| p as int),
            co == corder@.map_values(|p: usize| p as int),
            forall|l: int| 0 <= l < co.len() ==> 0 <= #[trigger] co[l] < co.len(),
            forall|l: int| 0 <= l < cpos.len() ==> 0 <= #[trigger] cpos[l] < bv.len() && bv[cpos[l]].connected is Some,
            connections@.len() == a,
            forall|l: int| 0 <= l < a ==> (#[trigger] connections@[l])@ == connection_row(bv[cpos[co[l]]], now),
        decreases corder@.len() - a,
    {
        let ghost l = a as int;
        assert(co[l] == corder@[l] as int);
        let p = pos[corder[a]];
        assert(cpos[co[l]] == p as int);
        assert(bv[p as int] == browsers@[p as int]@);
        let b = &browsers[p];
        let (parent, ts) = match &b.connected {
            Some(c) => (&c.0, c.1),
            None => (&b.browser_id, 0),
        };
        let row = Connection {
            parent_id: format_instance_id(parent),
            instance_id: format_instance_id(&b.browser_id),
            time_since_connected_ms: since_exec(now, ts),
            state: b.state(),
        };
        assert(row@ == connection_row(bv[cpos[co[l]]], now));
        connections.push(row);
        a = a + 1;
    }
    proof {
        assert(connections@.map_values(|c: Connection| c@).len() == min_items(cpos.len() as int));
    }
    // registrations
    let mut rkeys: Vec<u64> = Vec::new();
    let mut k: usize = 0;
    while k < browsers.len()
        invariant
            k <= browsers@.len(),
            bv == browsers_view(browsers@),
            rkeys@ == bv.subrange(0, k as int).map_values(|b: BrowserView| since(now, b.registered_at_ms)),
        decreases browsers@.len() - k,
    {
        assert(bv[k as int] == browsers@[k as int]@);
        rkeys.push(since_exec(now, browsers[k].registered_at_ms));
        assert(rkeys@ =~= bv.subrange(0, k + 1).map_values(|b: BrowserView| since(now, b.registered_at_ms)));
        k = k + 1;
    }
    assert(bv.subrange(0, k as int) =~= bv);
    let rorder = order_by_key(&rkeys);
    proof {
        lemma_stable_order_bounds(rkeys@, rkeys@.len() as int);
    }
    let ghost ro = stable_order(rkeys@, rkeys@.len() as int);
    let mut registrations: Vec<Registrations> = Vec::new();
    let mut c: usize = 0;
    while c < rorder.len() && c < MAX_ITEMS
        invariant
            c <= rorder@.len(),
            c <= MAX_ITEMS,
            rorder@.len() == bv.len(),
            bv == browsers_view(browsers@),
            ro == rorder@.map_values(|p: usize| p as int),
            forall|l: int| 0 <= l < ro.len() ==> 0 <= #[trigger] ro[l] < ro.len(),
            registrations@.len() == c,
            forall|l: int| 0 <= l < c ==> (#[trigger] registrations@[l])@ == registration_row(bv[ro[l]], now),
        decreases rorder@.len() - c,
    {
        let ghost l = c as int;
        assert(ro[l] == rorder@[l] as int);
        let p = rorder[c];
        assert(bv[p as int] == browsers@[p as int]@);
        let b = &browsers[p];
        let row = Registrations {
            browser_id: format_instance_id(&b.browser_id),
            time_since_registered_ms: since_exec(now, b.registered_at_ms),
            state: b.state(),
        };
        registrations.push(row);
        c = c + 1;
    }
    proof {
        assert(registrations@.map_values(|c: Registrations| c@).len() == min_items(bv.len() as int));
    }
    WarmPoolTemplate {
        all_browsers: all_browsers(browsers),
        healthy_browsers: healthy_browsers(browsers),
        available_browsers: available_browsers(browsers),
        connections,
        registrations,
    }
}

/// The UTC date and time `ms` milliseconds after the Unix epoch stands for,
/// written "%Y-%m-%d %H:%M:%S".
pub uninterp spec fn utc_datetime_text(ms: i64) -> Seq<char>;

/// The last millisecond of the year 9999.
pub const LAST_MS_OF_YEAR_9999: i64 = 253402300799999;

/// Relies on chrono's `DateTime::<Utc>::from_timestamp_millis`, which gives
/// `None` only outside chrono's date range (years beyond about ±262,000,
/// `MAX_YEAR` in `naive/date`), and on its `format` with the pattern
/// "%Y-%m-%d %H:%M:%S".
#[verifier::external_body]
fn utc_datetime_of(ms: i64) -> (r: Option<String>)
    ensures
        0 <= ms <= LAST_MS_OF_YEAR_9999 ==> r is Some,
        r matches Some(s) ==> s@ == utc_datetime_text(ms),
{
    match chrono::DateTime::<chrono::Utc>::from_timestamp_millis(ms) {
        Some(d) => Some(d.format("%Y-%m-%d %H:%M:%S").to_string()),
        None => None,
    }
}

/// What a timestamp shows as: its UTC date and time, "No timestamp" when
/// there is none, "Invalid timestamp" when it lies outside the calendar
/// (never before the end of the year 9999).
pub open spec fn timestamp_text_ok(ts: Option<TimestampMs>, r: Seq<char>) -> bool {
    match ts {
        None => r == "No timestamp"@,
        Some(t) => if t.timestamp_ms <= LAST_MS_OF_YEAR_9999 {
            r == utc_datetime_text(t.timestamp_ms as i64)
        } else {
            r == "Invalid timestamp"@ || (t.timestamp_ms <= i64::MAX && r == utc_datetime_text(t.timestamp_ms as i64))
        },
    }
}

pub fn format_timestamp_ms(timestamp_ms: &Option<TimestampMs>) -> (r: String)
    ensures
        timestamp_text_ok(*timestamp_ms, r@),
{
    match timestamp_ms {
        None => String::from_str("No timestamp"),
        Some(t) => {
            if t.timestamp_ms <= i64::MAX as u64 {
                match utc_datetime_of(t.timestamp_ms as i64) {
                    Some(s) => s,
                    None => String::from_str("Invalid timestamp"),
                }
            } else {
                String::from_str("Invalid timestamp")
            }
        },
    }
}

pub open spec fn kill_reason_name(k: KillReason) -> Seq<char> {
    match k {
        KillReason::DefaultKillReason => "DefaultKillReason"@,
        KillReason::Timeout => "Timeout"@,
        KillReason::HealthCheckFailed => "HealthCheckFailed"@,
        KillReason::Killed => "Killed"@,
        KillReason::ParentDead => "ParentDead"@,
    }
}

impl KillReason {
    /// The reason's name.
    pub fn name(&self) -> (r: String)
        ensures
            r@ == kill_reason_name(*self),
    {
        match self {
            KillReason::DefaultKillReason => String::from_str("DefaultKillReason"),
            KillReason::Timeout => String::from_str("Timeout"),
            KillReason::HealthCheckFailed => String::from_str("HealthCheckFailed"),
            KillReason::Killed => String::from_str("Killed"),
            KillReason::ParentDead => String::from_str("ParentDead"),
        }
    }
}

/// The detail page of one instance.
pub struct SingleInstancePageTemplate {
    pub instance_id: InstanceIdWithUrl,
    pub created_timestamp_ms: String,
    pub state_info: String,
    pub parent: InstanceIdWithUrl,
    pub debug_info: String,
    pub services: Vec<String>,
    pub system_metrics: String,
    pub children: Vec<InstanceIdWithUrl>,
}

/// The service lines of the detail page: each address the instance exposes,
/// with the service's name.
pub open spec fn service_lines(d: DescriptionView) -> Seq<Seq<char>> {
    match d.services {
        None => Seq::empty(),
        Some(s) => {
            let a = match s.chrome_debug_port_service {
                Some(x) => seq!["Chrome debug: "@ + x],
                None => Seq::empty(),
            };
            let b = match s.tzafonwright_service {
                Some(x) => seq!["Tzafonwright: "@ + x],
                None => Seq::empty(),
            };
            a + b
        },
    }
}

impl SingleInstancePageTemplate {
    /// The detail page of `d`. `debug_info` is the record's debug dump and
    /// `system_metrics_text` that of its system metrics, if it has any.
    pub fn from_description(d: &InstanceDescription, debug_info: String, system_metrics_text: String) -> (r: Self)
        ensures
            r.instance_id@ == link_of(d@.instance_id),
            timestamp_text_ok(d@.created_timestamp_ms, r.created_timestamp_ms@),
            r.parent@ == match d@.parent {
                Some(p) => link_of(p.instance_id),
                None => LinkView { label: "No parent"@, url: None },
            },
            r.services@.map_values(|x: String| x@) == service_lines(d@),
            r.children@.map_values(|c: InstanceIdWithUrl| c@) == crate::rules::children_of(d@).map_values(
                |c: crate::model::RelationshipView| link_of(c.instance_id),
            ),
            d@.kill_instance_request is None ==> r.state_info@ == "Is alive"@,
            d@.kill_instance_request matches Some(k) ==> exists|t: Seq<char>| timestamp_text_ok(k.timestamp_ms, t)
                && r.state_info@ == "Was killed for "@ + kill_reason_name(k.kill_reason) + " at "@ + t,
            r.system_metrics@ == if d@.system_metrics is Some { system_metrics_text@ } else { "No system metrics"@ },
            r.debug_info@ == debug_info@,
    {
        let instance_id = format_instance_id(&d.instance_id);
        let created_timestamp_ms = format_timestamp_ms(&d.created_timestamp_ms);
        let parent = match &d.parent {
            Some(p) => format_instance_id(&p.instance_id),
            None => InstanceIdWithUrl { label: String::from_str("No parent"), url: None },
        };
        let mut services: Vec<String> = Vec::new();
        match &d.services {
            Some(sv) => {
                match &sv.chrome_debug_port_service {
                    Some(x) => {
                        let mut line = String::from_str("Chrome debug: ");
                        line.append(x.as_str());
                        services.push(line);
                    },
                    None => {},
                }
                match &sv.tzafonwright_service {
                    Some(x) => {
                        let mut line = String::from_str("Tzafonwright: ");
                        line.append(x.as_str());
                        services.push(line);
                    },
                    None => {},
                }
            },
            None => {},
        }
        assert(services@.map_values(|x: String| x@) =~= service_lines(d@));
        let mut children: Vec<InstanceIdWithUrl> = Vec::new();
        match &d.children {
            Some(cs) => {
                let ghost cv = crate::rules::children_of(d@);
                let mut i: usize = 0;
                while i < cs.children.len()
                    invariant
                        i <= cs.children@.len(),
                        cv == crate::model::relationships_view(cs.children@),
                        children@.map_values(|c: InstanceIdWithUrl| c@) == cv.subrange(0, i as int).map_values(
                            |c: crate::model::RelationshipView| link_of(c.instance_id),
                        ),
                    decreases cs.children@.len() - i,
                {
                    assert(cv[i as int] == cs.children@[i as int]@);
                    let link = format_instance_id(&cs.children[i].instance_id);
                    assert(link@ == link_of(cv[i as int].instance_id));
                    let ghost before = children@;
                    children.push(link);
                    assert(children@.map_values(|c: InstanceIdWithUrl| c@) =~= before.map_values(|c: InstanceIdWithUrl| c@).push(link@));
                    assert(cv.subrange(0, i + 1).map_values(|c: crate::model::RelationshipView| link_of(c.instance_id))
                        =~= cv.subrange(0, i as int).map_values(|c: crate::model::RelationshipView| link_of(c.instance_id)).push(link_of(cv[i as int].instance_id)));
                    assert(children@.map_values(|c: InstanceIdWithUrl| c@) =~= cv.subrange(0, i + 1).map_values(
                        |c: crate::model::RelationshipView| link_of(c.instance_id),
                    ));
                    i = i + 1;
                }
                assert(cv.subrange(0, i as int) =~= cv);
            },
            None => {
                assert(children@.map_values(|c: InstanceIdWithUrl| c@) =~= crate::rules::children_of(d@).map_values(
                    |c: crate::model::RelationshipView| link_of(c.instance_id),
                ));
            },
        }
        let state_info = match &d.kill_instance_request {
            Some(k) => {
                let mut t = String::from_str("Was killed for ");
                t.append(k.kill_reason.name().as_str());
                t.append(" at ");
                let when = format_timestamp_ms(&k.timestamp_ms);
                t.append(when.as_str());
                t
            },
            None => String::from_str("Is alive"),
        };
        let system_metrics = if d.system_metrics.is_some() {
            system_metrics_text
        } else {
            String::from_str("No system metrics")
        };
        SingleInstancePageTemplate {
            instance_id,
            created_timestamp_ms,
            state_info,
            parent,
            debug_info,
            services,
            system_metrics,
            children,
        }
    }
}

} // verus!

//! Properties of the registry that hold across operations, proved from the
//! rules that the registry's operations follow exactly.

use vstd::prelude::*;
use crate::model::{DescriptionView, InstanceType, KillInstanceRequest, KillReason, RelationshipView};
use crate::registry::lemma_chain_extend;
use crate::rules::{
    add_outcome, add_shape, applied, descendant, is_chain, apply_outcome, cascade, children_check, children_of,
    fresh_record, has_child, is_alive, is_live_chain, killed_with_parent, link_check,
    link_children, link_parent, live_descendant, post_outcome, post_shape, stamp,
    stamp_relationships, update_outcome, update_shape, with_child, with_fields, with_parent,
    requested_parent, reaches, RegistryError, Table,
};

verus! {

/// A request that only names the instance.
pub open spec fn bare_request(k: Seq<char>) -> DescriptionView {
    DescriptionView {
        instance_id: Some(k),
        instance_type: None,
        created_timestamp_ms: None,
        services: None,
        health_check: None,
        parent: None,
        children: None,
        kill_instance_request: None,
        proxy_metrics: None,
        system_metrics: None,
        gpu_metrics: None,
        llm_metrics: None,
    }
}

/// The `TryAdd` request for instance `k` of type `t`, with nothing else.
pub open spec fn add_request(k: Seq<char>, t: InstanceType) -> DescriptionView {
    DescriptionView { instance_type: Some(t), ..bare_request(k) }
}

/// The `TryUpdate` request that kills instance `k` for `reason`.
pub open spec fn kill_request(k: Seq<char>, reason: KillReason) -> DescriptionView {
    DescriptionView {
        kill_instance_request: Some(KillInstanceRequest { kill_reason: reason, timestamp_ms: None }),
        ..bare_request(k)
    }
}

/// An instance id is registered at most once: adding an id that is already
/// in the table is answered `false` and changes nothing.
pub proof fn law_add_is_once(m: Table, r: DescriptionView, now: u64)
    requires
        add_shape(r),
        m.contains_key(r.instance_id->Some_0),
    ensures
        add_outcome(m, r, now) == (Ok::<bool, RegistryError>(false), m),
{
}

/// A killed instance is frozen: every well-formed `TryUpdate` or `Post` on it
/// is answered `false` and leaves the table unchanged.
pub proof fn law_dead_is_terminal(m: Table, r: DescriptionView, now: u64)
    requires
        r.instance_id is Some,
        m.contains_key(r.instance_id->Some_0),
        !is_alive(m[r.instance_id->Some_0]),
    ensures
        update_shape(r) ==> update_outcome(m, r, now) == (Ok::<bool, RegistryError>(false), m),
        post_shape(r) ==> post_outcome(m, r, now) == (Ok::<bool, RegistryError>(false), m),
{
}

proof fn lemma_link_children_skips(m: Table, k: Seq<char>, cs: Seq<RelationshipView>, n: int, now: u64, j: Seq<char>)
    requires
        forall|i: int| 0 <= i < n && i < cs.len() ==> (#[trigger] cs[i]).instance_id->Some_0 != j,
    ensures
        link_children(m, k, cs, n, now).contains_key(j) == m.contains_key(j),
        m.contains_key(j) ==> link_children(m, k, cs, n, now)[j] == m[j],
    decreases n,
{
    if n <= 0 || n > cs.len() {
    } else {
        lemma_link_children_skips(m, k, cs, n - 1, now, j);
    }
}

proof fn lemma_children_ok_not_self(m: Table, k: Seq<char>, up: Option<Seq<char>>, cs: Seq<RelationshipView>, i: int)
    requires
        0 <= i,
        children_check(m, k, up, cs, i) == Ok::<bool, RegistryError>(true),
    ensures
        forall|j: int| i <= j < cs.len() ==> (#[trigger] cs[j]).instance_id->Some_0 != k,
    decreases cs.len() - i,
{
    if i < cs.len() {
        lemma_children_ok_not_self(m, k, up, cs, i + 1);
    }
}

/// The record of the written instance right after the links of an accepted
/// write are made: the links touch other instances only.
proof fn lemma_own_record_after_links(m: Table, r: DescriptionView, now: u64)
    requires
        r.instance_id is Some,
        m.contains_key(r.instance_id->Some_0),
        link_check(m, r.instance_id->Some_0, r) == Ok::<bool, RegistryError>(true),
    ensures
        ({
            let k = r.instance_id->Some_0;
            let m1 = m.insert(k, with_fields(m[k], r, now));
            let m2 = match r.children {
                Some(cs) => link_children(m1, k, cs, cs.len() as int, now),
                None => m1,
            };
            let m3 = link_parent(m2, k, r, now);
            m3.contains_key(k) && m3[k] == with_fields(m[k], r, now)
        }),
{
    let k = r.instance_id->Some_0;
    let m1 = m.insert(k, with_fields(m[k], r, now));
    match r.children {
        Some(cs) => {
            lemma_children_ok_not_self(m, k, requested_parent(r), cs, 0);
            lemma_link_children_skips(m1, k, cs, cs.len() as int, now, k);
        },
        None => {},
    }
}

/// Every sub-record an accepted `TryUpdate` writes carries the registry's
/// clock, whatever timestamp the caller put in it; appended children too.
pub proof fn law_registry_stamps(m: Table, r: DescriptionView, now: u64)
    requires
        update_outcome(m, r, now).0 == Ok::<bool, RegistryError>(true),
    ensures
        ({
            let k = r.instance_id->Some_0;
            let d = update_outcome(m, r, now).1[k];
            &&& update_outcome(m, r, now).1.contains_key(k)
            &&& r.services is Some ==> d.services->Some_0.timestamp_ms == stamp(now)
            &&& r.health_check is Some ==> d.health_check->Some_0.timestamp_ms == stamp(now)
            &&& r.parent is Some ==> d.parent->Some_0.timestamp_ms == stamp(now)
            &&& r.kill_instance_request is Some ==> d.kill_instance_request->Some_0.timestamp_ms == stamp(now)
            &&& r.children is Some ==> forall|i: int|
                m[k].children->Some_0.len() <= i < d.children->Some_0.len() ==> (#[trigger] d.children->Some_0[i]).timestamp_ms == stamp(now)
        }),
{
    let k = r.instance_id->Some_0;
    lemma_own_record_after_links(m, r, now);
}

/// Every metric record an accepted `Post` writes carries the registry's clock.
pub proof fn law_registry_stamps_metrics(m: Table, r: DescriptionView, now: u64)
    requires
        post_outcome(m, r, now).0 == Ok::<bool, RegistryError>(true),
    ensures
        ({
            let k = r.instance_id->Some_0;
            let d = post_outcome(m, r, now).1[k];
            &&& post_outcome(m, r, now).1.contains_key(k)
            &&& r.proxy_metrics is Some ==> d.proxy_metrics->Some_0.timestamp_ms == stamp(now)
            &&& r.system_metrics is Some ==> d.system_metrics->Some_0.timestamp_ms == stamp(now)
            &&& r.gpu_metrics is Some ==> d.gpu_metrics->Some_0.timestamp_ms == stamp(now)
            &&& r.llm_metrics is Some ==> d.llm_metrics->Some_0.timestamp_ms == stamp(now)
        }),
{
    lemma_own_record_after_links(m, r, now);
}

/// Of two parent writes on the same instance, run one after the other (as the
/// registry's lock orders any two concurrent ones), at most one is accepted.
pub proof fn law_single_claim(m: Table, r1: DescriptionView, r2: DescriptionView, now1: u64, now2: u64)
    requires
        r1.parent is Some,
        r2.parent is Some,
        r1.instance_id is Some,
        r2.instance_id == r1.instance_id,
        update_outcome(m, r1, now1).0 == Ok::<bool, RegistryError>(true),
    ensures
        update_outcome(update_outcome(m, r1, now1).1, r2, now2).0 != Ok::<bool, RegistryError>(true),
{
    let k = r1.instance_id->Some_0;
    lemma_own_record_after_links(m, r1, now1);
    let m1 = update_outcome(m, r1, now1).1;
    let d = with_fields(m[k], r1, now1);
    if r1.kill_instance_request is Some {
    } else {
        assert(m1[k] == d);
        assert(m1[k].parent is Some);
    }
}

/// Adding a fresh instance with only its id and type, then reading it back,
/// gives a record with that id and type, the creation time and nothing else.
pub proof fn law_add_then_get(m: Table, k: Seq<char>, t: InstanceType, now: u64)
    requires
        !m.contains_key(k),
    ensures
        add_outcome(m, add_request(k, t), now) == (
            Ok::<bool, RegistryError>(true),
            m.insert(k, fresh_record(k, t, now)),
        ),
        add_outcome(m, add_request(k, t), now).1[k] == fresh_record(k, t, now),
{
    let r = add_request(k, t);
    let m1 = m.insert(k, fresh_record(k, t, now));
    let rest = DescriptionView { instance_type: None, ..r };
    assert(rest == bare_request(k));
    assert(with_fields(m1[k], rest, now) == m1[k]);
    assert(m1.insert(k, m1[k]) =~= m1);
    assert(apply_outcome(m1, rest, now) == (Ok::<bool, RegistryError>(true), m1));
}

/// A chain from `x` that comes back to `x` can be cut at its last visit.
proof fn lemma_chain_from_last_visit(m: Table, p: Seq<Seq<char>>, x: Seq<char>)
    requires
        is_live_chain(m, p),
        p[0] == x,
        p.last() != x,
    ensures
        exists|q: Seq<Seq<char>>| #[trigger] is_live_chain(m, q) && q[0] == x && q.last() == p.last()
            && forall|i: int| 1 <= i < q.len() ==> q[i] != x,
    decreases p.len(),
{
    if exists|l: int| 1 <= l < p.len() && p[l] == x {
        let l = choose|l: int| 1 <= l < p.len() && p[l] == x;
        let q = p.subrange(l, p.len() as int);
        assert(q.last() == p.last());
        assert(q.len() >= 2) by {
            if q.len() < 2 {
                assert(q.last() == q[0]);
            }
        }
        assert forall|i: int| 0 <= i < q.len() - 1 implies m.contains_key(#[trigger] q[i]) && has_child(m[q[i]], q[i + 1]) by {
            assert(q[i] == p[i + l] && q[i + 1] == p[i + 1 + l]);
        }
        assert forall|i: int| 1 <= i < q.len() implies m.contains_key(#[trigger] q[i]) && is_alive(m[q[i]]) by {
            assert(q[i] == p[i + l]);
        }
        lemma_chain_from_last_visit(m, q, x);
    } else {
        assert(is_live_chain(m, p));
    }
}

/// A kill on a live instance `x` reaches, before the operation returns, every
/// instance that descends from `x` through live instances: each is killed
/// with reason `ParentDead`, stamped with the registry's clock.
pub proof fn law_kill_cascades(m: Table, x: Seq<char>, reason: KillReason, now: u64, j: Seq<char>)
    requires
        m.contains_key(x),
        is_alive(m[x]),
        m.contains_key(j),
        is_alive(m[j]),
        j != x,
        live_descendant(m, x, j),
    ensures
        update_outcome(m, kill_request(x, reason), now).0 == Ok::<bool, RegistryError>(true),
        update_outcome(m, kill_request(x, reason), now).1[j] == killed_with_parent(m[j], now),
{
    let r = kill_request(x, reason);
    let m1 = m.insert(x, with_fields(m[x], r, now));
    assert(link_check(m, x, r) == Ok::<bool, RegistryError>(true));
    assert(applied(m, r, now) == cascade(m1, x, now));
    let p = choose|p: Seq<Seq<char>>| #[trigger] is_live_chain(m, p) && p[0] == x && p.last() == j;
    lemma_chain_from_last_visit(m, p, x);
    let q = choose|q: Seq<Seq<char>>| #[trigger] is_live_chain(m, q) && q[0] == x && q.last() == j
        && forall|i: int| 1 <= i < q.len() ==> q[i] != x;
    assert forall|i: int| 0 <= i < q.len() - 1 implies m1.contains_key(#[trigger] q[i]) && has_child(m1[q[i]], q[i + 1]) by {
        assert(m.contains_key(q[i]) && has_child(m[q[i]], q[i + 1]));
        if q[i] == x {
            assert(with_fields(m[x], r, now).children == m[x].children);
        }
    }
    assert forall|i: int| 1 <= i < q.len() implies m1.contains_key(#[trigger] q[i]) && is_alive(m1[q[i]]) by {
        assert(m.contains_key(q[i]) && is_alive(m[q[i]]));
    }
    assert(is_live_chain(m1, q));
    assert(live_descendant(m1, x, j));
    assert(m1[j] == m[j]);
}

/// Every child of a dead instance is dead.
pub open spec fn kill_closed(m: Table) -> bool {
    forall|y: Seq<char>, c: Seq<char>|
        m.contains_key(y) && !is_alive(m[y]) && #[trigger] has_child(m[y], c) && m.contains_key(c) ==> !is_alive(m[c])
}

/// Every child link names a registered instance.
pub open spec fn children_known(m: Table) -> bool {
    forall|y: Seq<char>, c: Seq<char>| m.contains_key(y) && #[trigger] has_child(m[y], c) ==> m.contains_key(c)
}

/// The invariant of every table the registry reaches from an empty one.
pub open spec fn table_ok(m: Table) -> bool {
    kill_closed(m) && children_known(m)
}

pub proof fn lemma_link_children_frame(m: Table, k: Seq<char>, cs: Seq<RelationshipView>, n: int, now: u64)
    ensures
        link_children(m, k, cs, n, now).dom() == m.dom(),
        forall|j: Seq<char>| #[trigger] m.contains_key(j) ==> link_children(m, k, cs, n, now)[j].kill_instance_request
            == m[j].kill_instance_request && children_of(link_children(m, k, cs, n, now)[j]) == children_of(m[j]),
    decreases n,
{
    if n <= 0 || n > cs.len() {
    } else {
        lemma_link_children_frame(m, k, cs, n - 1, now);
        let prev = link_children(m, k, cs, n - 1, now);
        let c = cs[n - 1].instance_id->Some_0;
        if prev.contains_key(c) {
            assert(prev.insert(c, with_parent(prev[c], k, now)).dom() =~= prev.dom());
        }
    }
}

proof fn lemma_children_ok_known(m: Table, k: Seq<char>, up: Option<Seq<char>>, cs: Seq<RelationshipView>, i: int)
    requires
        0 <= i,
        children_check(m, k, up, cs, i) == Ok::<bool, RegistryError>(true),
    ensures
        forall|j: int| i <= j < cs.len() ==> (#[trigger] cs[j]).instance_id is Some && m.contains_key(cs[j].instance_id->Some_0),
    decreases cs.len() - i,
{
    if i < cs.len() {
        lemma_children_ok_known(m, k, up, cs, i + 1);
    }
}

/// An accepted write keeps the table invariant.
proof fn lemma_applied_ok(m: Table, r: DescriptionView, now: u64)
    requires
        table_ok(m),
        r.instance_id is Some,
        m.contains_key(r.instance_id->Some_0),
        is_alive(m[r.instance_id->Some_0]),
        link_check(m, r.instance_id->Some_0, r) == Ok::<bool, RegistryError>(true),
    ensures
        table_ok(applied(m, r, now)),
{
    let k = r.instance_id->Some_0;
    let d1 = with_fields(m[k], r, now);
    let m1 = m.insert(k, d1);
    let m2 = match r.children {
        Some(cs) => link_children(m1, k, cs, cs.len() as int, now),
        None => m1,
    };
    let m3 = link_parent(m2, k, r, now);
    assert(m1.dom() =~= m.dom());
    match r.children {
        Some(cs) => {
            lemma_link_children_frame(m1, k, cs, cs.len() as int, now);
            lemma_children_ok_known(m, k, requested_parent(r), cs, 0);
        },
        None => {},
    }
    assert(m2.dom() == m.dom());
    assert(forall|j: Seq<char>| #[trigger] m2.contains_key(j) ==> m2[j].kill_instance_request == m1[j].kill_instance_request
        && children_of(m2[j]) == children_of(m1[j]));
    let pid = r.parent->Some_0.instance_id->Some_0;
    if r.parent is Some {
        assert(m.contains_key(pid) && pid != k && is_alive(m[pid]));
        assert(m3 == m2.insert(pid, with_child(m2[pid], k, now)));
        assert(m3.dom() =~= m2.dom());
    }
    assert(m3.dom() == m.dom());
    // kill fields: only `k` may change
    assert forall|j: Seq<char>| #[trigger] m3.contains_key(j) && j != k implies m3[j].kill_instance_request == m[j].kill_instance_request by {
        if r.parent is Some && j == pid {
        }
    }
    // children links of the others: only the parent gains `k`
    assert forall|y: Seq<char>, c: Seq<char>| m3.contains_key(y) && #[trigger] has_child(m3[y], c) implies m3.contains_key(c)
        && (y == k || (r.parent is Some && y == pid && c == k) || has_child(m[y], c)) by {
        if y == k {
            let i = choose|i: int| 0 <= i < children_of(m3[k]).len() && (#[trigger] children_of(m3[k])[i]).instance_id == Some(c);
            assert(children_of(m3[k]) == children_of(d1));
            if r.children is Some {
                let cs = r.children->Some_0;
                let base = children_of(m[k]);
                if i < base.len() {
                    assert(children_of(d1)[i] == base[i]);
                    assert(has_child(m[k], c));
                } else {
                    assert(children_of(d1)[i] == stamp_relationships(cs, now)[i - base.len()]);
                    assert(cs[i - base.len()].instance_id == Some(c));
                }
            } else {
                assert(has_child(m[k], c));
            }
        } else if r.parent is Some && y == pid {
            let i = choose|i: int| 0 <= i < children_of(m3[pid]).len() && (#[trigger] children_of(m3[pid])[i]).instance_id == Some(c);
            let base = children_of(m2[pid]);
            assert(base == children_of(m[pid]));
            if i < base.len() {
                assert(children_of(m3[pid])[i] == base[i]);
                assert(has_child(m[pid], c));
            } else {
                assert(children_of(m3[pid])[i].instance_id == Some(k));
            }
        } else {
            assert(m3[y] == m2[y]);
            assert(children_of(m2[y]) == children_of(m1[y]));
            assert(children_of(m3[y]) == children_of(m[y]));
            assert(has_child(m[y], c));
        }
    }
    assert(children_known(m3));
    // dead instances other than `k` keep dead children
    assert forall|y: Seq<char>, c: Seq<char>| m3.contains_key(y) && y != k && !is_alive(m3[y]) && #[trigger] has_child(m3[y], c)
        && m3.contains_key(c) implies !is_alive(m3[c]) by {
        assert(!is_alive(m[y]));
        assert(has_child(m[y], c));
        assert(!is_alive(m[c]));
    }
    if r.kill_instance_request is None {
        assert(is_alive(m3[k]));
        assert(kill_closed(m3));
    } else {
        let c3 = cascade(m3, k, now);
        assert(c3.dom() =~= m3.dom());
        assert forall|j: Seq<char>| #[trigger] c3.contains_key(j) implies children_of(c3[j]) == children_of(m3[j]) by {}
        assert forall|y: Seq<char>, c: Seq<char>| c3.contains_key(y) && #[trigger] has_child(c3[y], c) implies c3.contains_key(c) by {
            assert(has_child(m3[y], c));
        }
        assert forall|y: Seq<char>, c: Seq<char>| c3.contains_key(y) && !is_alive(c3[y]) && #[trigger] has_child(c3[y], c)
            && c3.contains_key(c) implies !is_alive(c3[c]) by {
            assert(has_child(m3[y], c));
            if is_alive(m3[c]) {
                if !is_alive(m3[y]) {
                    assert(y == k);
                    let p = seq![k, c];
                    assert(is_live_chain(m3, p));
                    assert(p.last() == c);
                } else {
                    assert(live_descendant(m3, k, y));
                    let p = choose|p: Seq<Seq<char>>| #[trigger] is_live_chain(m3, p) && p[0] == k && p.last() == y;
                    lemma_chain_extend(m3, p, c);
                }
                assert(live_descendant(m3, k, c));
            }
        }
    }
}

/// The table invariant holds of the empty table and is kept by every
/// `TryUpdate`, `Post` and `TryAdd`.
pub proof fn law_table_ok_kept(m: Table, r: DescriptionView, now: u64)
    requires
        table_ok(m),
    ensures
        table_ok(Map::<Seq<char>, DescriptionView>::empty()),
        table_ok(update_outcome(m, r, now).1),
        table_ok(post_outcome(m, r, now).1),
        table_ok(add_outcome(m, r, now).1),
{
    let k = r.instance_id->Some_0;
    if r.instance_id is Some && m.contains_key(k) && is_alive(m[k]) && link_check(m, k, r) == Ok::<bool, RegistryError>(true) {
        lemma_applied_ok(m, r, now);
    }
    if add_shape(r) && !m.contains_key(k) {
        let m1 = m.insert(k, fresh_record(k, r.instance_type->Some_0, now));
        let rest = DescriptionView { instance_type: None, ..r };
        assert(children_of(m1[k]) =~= Seq::<RelationshipView>::empty());
        assert forall|y: Seq<char>, c: Seq<char>| m1.contains_key(y) && #[trigger] has_child(m1[y], c) implies m1.contains_key(c) by {
            if y != k {
                assert(has_child(m[y], c));
            }
        }
        assert forall|y: Seq<char>, c: Seq<char>| m1.contains_key(y) && !is_alive(m1[y]) && #[trigger] has_child(m1[y], c)
            && m1.contains_key(c) implies !is_alive(m1[c]) by {
            assert(y != k);
            assert(has_child(m[y], c));
            assert(m.contains_key(c));
            assert(c != k);
        }
        if link_check(m1, k, rest) == Ok::<bool, RegistryError>(true) {
            lemma_applied_ok(m1, rest, now);
        }
    }
}

proof fn lemma_dead_spreads(m: Table, p: Seq<Seq<char>>, i: int)
    requires
        kill_closed(m),
        is_chain(m, p),
        0 <= i < p.len(),
        !is_alive(m[p[i]]),
    ensures
        !is_alive(m[p.last()]),
    decreases p.len() - i,
{
    if i < p.len() - 1 {
        assert(has_child(m[p[i]], p[i + 1]));
        assert(m.contains_key(p[i]) && m.contains_key(p[i + 1]));
        lemma_dead_spreads(m, p, i + 1);
    }
}

/// In a table that satisfies the invariant, a kill on a live instance `x`
/// leaves every instance reachable from `x` through children links dead
/// before it returns; each one alive until then is killed with reason
/// `ParentDead`, stamped with the registry's clock.
pub proof fn law_kill_reaches_every_descendant(m: Table, x: Seq<char>, reason: KillReason, now: u64, j: Seq<char>)
    requires
        table_ok(m),
        m.contains_key(x),
        is_alive(m[x]),
        j != x,
        descendant(m, x, j),
    ensures
        update_outcome(m, kill_request(x, reason), now).0 == Ok::<bool, RegistryError>(true),
        !is_alive(update_outcome(m, kill_request(x, reason), now).1[j]),
        is_alive(m[j]) ==> update_outcome(m, kill_request(x, reason), now).1[j] == killed_with_parent(m[j], now),
{
    let r = kill_request(x, reason);
    let p = choose|p: Seq<Seq<char>>| #[trigger] is_chain(m, p) && p[0] == x && p.last() == j;
    assert(m.contains_key(p[p.len() - 1]));
    let m1 = m.insert(x, with_fields(m[x], r, now));
    assert(link_check(m, x, r) == Ok::<bool, RegistryError>(true));
    assert(applied(m, r, now) == cascade(m1, x, now));
    if is_alive(m[j]) {
        assert forall|i: int| 1 <= i < p.len() implies m.contains_key(#[trigger] p[i]) && is_alive(m[p[i]]) by {
            if !is_alive(m[p[i]]) {
                lemma_dead_spreads(m, p, i);
            }
        }
        assert(is_live_chain(m, p));
        assert(live_descendant(m, x, j));
        law_kill_cascades(m, x, reason, now, j);
    } else {
        assert(m1[j] == m[j]);
    }
}

} // verus!

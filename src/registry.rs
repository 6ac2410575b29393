//! The registry of live instances: one table of records, each mutation
//! checked against the lifecycle invariants and stamped with the registry's
//! clock. Callers serialise access (one lock around the whole registry), so
//! every operation here runs as one critical section, cascade included.

use vstd::prelude::*;
use crate::model::{
    copy_id_option, relationships_view, Children, DescriptionView, GpuMetrics, HealthCheck,
    InstanceDescription, InstanceId, InstanceType, KillInstanceRequest, LlmMetrics, ProxyMetrics,
    KillReason, Relationship, SystemMetrics, TimestampMs,
};
use crate::rules::{
    add_outcome, apply_outcome, cascade, children_check, children_of, fresh_record, has_child,
    is_alive, is_listed, is_live_chain, killed_with_parent, link_check, link_children, link_parent,
    live_descendant, parent_check, post_outcome, stamp, stamp_relationships, update_outcome,
    with_child, with_fields, with_parent, write_shape, descendant, is_chain, reaches,
    requested_parent, RegistryError, Table,
};
use crate::laws::{law_table_ok_kept, lemma_link_children_frame, table_ok};
use crate::table::{
    index_of_key, key_of, keys_unique, lemma_table_at, lemma_table_push, lemma_table_update, table,
    views,
};

verus! {

pub struct Registry {
    instances: Vec<InstanceDescription>,
}

/// Every listed child names an instance.
pub open spec fn children_named(d: DescriptionView) -> bool {
    forall|j: int| 0 <= j < children_of(d).len() ==> (#[trigger] children_of(d)[j]).instance_id is Some
}

/// What each stored record satisfies: it was created by `TryAdd`, and every
/// child link it holds names an instance.
pub open spec fn record_wf(d: DescriptionView) -> bool {
    &&& d.instance_id is Some
    &&& d.instance_type is Some
    &&& d.created_timestamp_ms is Some
    &&& children_named(d)
}

impl View for Registry {
    type V = Table;

    closed spec fn view(&self) -> Table {
        table(views(self.instances@))
    }
}

impl Registry {
    /// The registry's invariant: the stored records are well formed, and the
    /// table keeps dead instances' descendants dead and child links known.
    pub open spec fn wf(&self) -> bool {
        self.wf_store() && table_ok(self@)
    }

    /// The stored records are well formed and keyed uniquely.
    pub closed spec fn wf_store(&self) -> bool {
        &&& keys_unique(views(self.instances@))
        &&& forall|i: int| 0 <= i < self.instances@.len() ==> record_wf(#[trigger] self.instances@[i]@)
    }

    /// Every record in the table satisfies the record invariants.
    pub proof fn lemma_records_wf(&self)
        requires
            self.wf_store(),
        ensures
            forall|k: Seq<char>| #[trigger] self@.contains_key(k) ==> record_wf(self@[k]) && self@[k].instance_id == Some(k),
    {
        let s = views(self.instances@);
        assert forall|k: Seq<char>| #[trigger] self@.contains_key(k) implies record_wf(self@[k]) && self@[k].instance_id == Some(k) by {
            let i = index_of_key(s, k);
            assert(s[i] == self.instances@[i]@);
        }
    }

    spec fn seq(&self) -> Seq<DescriptionView> {
        views(self.instances@)
    }

    proof fn lemma_at(&self, i: int)
        requires
            self.wf_store(),
            0 <= i < self.instances@.len(),
        ensures
            self@.contains_key(key_of(self.instances@[i]@)),
            self@[key_of(self.instances@[i]@)] == self.instances@[i]@,
            self.instances@[i]@.instance_id == Some(key_of(self.instances@[i]@)),
            record_wf(self.instances@[i]@),
    {
        assert(self.seq()[i] == self.instances@[i]@);
        lemma_table_at(self.seq(), i);
    }

    /// The number of registered instances.
    pub closed spec fn len_spec(&self) -> nat {
        self.instances@.len()
    }

    /// The record at position `i` in storage order.
    pub closed spec fn record_spec(&self, i: int) -> Option<DescriptionView> {
        if 0 <= i < self.instances@.len() {
            Some(self.instances@[i]@)
        } else {
            None
        }
    }

    pub fn len(&self) -> (r: usize)
        ensures
            r == self.len_spec(),
    {
        self.instances.len()
    }

    pub(crate) fn record(&self, i: usize) -> (r: &InstanceDescription)
        requires
            i < self.len_spec(),
        ensures
            self.record_spec(i as int) == Some(r@),
    {
        &self.instances[i]
    }

    pub proof fn lemma_record(&self, i: int)
        requires
            self.wf_store(),
            0 <= i < self.len_spec(),
        ensures
            self.record_spec(i) is Some,
            self@.contains_key(key_of(self.record_spec(i)->Some_0)),
            self@[key_of(self.record_spec(i)->Some_0)] == self.record_spec(i)->Some_0,
            self.record_spec(i)->Some_0.instance_id == Some(key_of(self.record_spec(i)->Some_0)),
            record_wf(self.record_spec(i)->Some_0),
    {
        self.lemma_at(i);
    }

    pub proof fn lemma_keys_distinct(&self, i: int, j: int)
        requires
            self.wf_store(),
            0 <= i < self.len_spec(),
            0 <= j < self.len_spec(),
            i != j,
        ensures
            key_of(self.record_spec(i)->Some_0) != key_of(self.record_spec(j)->Some_0),
    {
        assert(self.seq()[i] == self.instances@[i]@);
        assert(self.seq()[j] == self.instances@[j]@);
    }

    pub proof fn lemma_index_of(&self, k: Seq<char>) -> (j: int)
        requires
            self.wf_store(),
            self@.contains_key(k),
        ensures
            0 <= j < self.len_spec(),
            self.record_spec(j) == Some(self@[k]),
            key_of(self@[k]) == k,
    {
        let j = index_of_key(self.seq(), k);
        assert(self.seq()[j] == self.instances@[j]@);
        j
    }

    pub fn new() -> (r: Registry)
        ensures
            r.wf(),
            r@ == Map::<Seq<char>, DescriptionView>::empty(),
    {
        let r = Registry { instances: Vec::new() };
        assert(r@ =~= Map::<Seq<char>, DescriptionView>::empty());
        proof {
            law_table_ok_kept(r@, crate::model::DescriptionView { instance_id: None, ..r@[Seq::empty()] }, 0);
        }
        r
    }

    fn find(&self, key: &String) -> (r: Option<usize>)
        requires
            self.wf_store(),
        ensures
            match r {
                Some(i) => i < self.instances@.len() && key_of(self.instances@[i as int]@) == key@
                    && self@.contains_key(key@) && self@[key@] == self.instances@[i as int]@,
                None => !self@.contains_key(key@),
            },
    {
        let mut i: usize = 0;
        while i < self.instances.len()
            invariant
                self.wf_store(),
                i <= self.instances@.len(),
                forall|j: int| 0 <= j < i ==> key_of(#[trigger] self.instances@[j]@) != key@,
            decreases self.instances@.len() - i,
        {
            proof {
                self.lemma_at(i as int);
            }
            let found = match &self.instances[i].instance_id {
                Some(iid) => iid.instance_id == *key,
                None => false,
            };
            if found {
                return Some(i);
            }
            i = i + 1;
        }
        proof {
            if self@.contains_key(key@) {
                let j = index_of_key(self.seq(), key@);
                assert(self.seq()[j] == self.instances@[j]@);
            }
        }
        None
    }

    /// A copy of every record, in storage order.
    pub fn snapshot(&self) -> (r: Vec<InstanceDescription>)
        requires
            self.wf(),
        ensures
            r@.len() == self.len_spec(),
            forall|i: int| 0 <= i < r@.len() ==> self.record_spec(i) == Some((#[trigger] r@[i])@),
            forall|k: Seq<char>| self@.contains_key(k) <==> exists|i: int| 0 <= i < r@.len() && (#[trigger] r@[i])@ == self@[k]
                && key_of(r@[i]@) == k,
    {
        let mut r: Vec<InstanceDescription> = Vec::new();
        let mut i: usize = 0;
        while i < self.instances.len()
            invariant
                i <= self.instances@.len(),
                r@.len() == i,
                forall|j: int| 0 <= j < i ==> (#[trigger] r@[j])@ == self.instances@[j]@,
            decreases self.instances@.len() - i,
        {
            r.push(self.instances[i].deep_copy());
            i = i + 1;
        }
        proof {
            assert forall|k: Seq<char>| self@.contains_key(k) <==> exists|i: int| 0 <= i < r@.len() && (#[trigger] r@[i])@ == self@[k]
                && key_of(r@[i]@) == k by {
                if self@.contains_key(k) {
                    let j = self.lemma_index_of(k);
                    assert(r@[j]@ == self@[k]);
                }
                if exists|i: int| 0 <= i < r@.len() && (#[trigger] r@[i])@ == self@[k] && key_of(r@[i]@) == k {
                    let i = choose|i: int| 0 <= i < r@.len() && (#[trigger] r@[i])@ == self@[k] && key_of(r@[i]@) == k;
                    self.lemma_at(i);
                }
            }
        }
        r
    }

    /// `GetInstance`: a copy of the record, or `InstanceNotFound`.
    pub fn get_instance(&self, id: &InstanceId) -> (r: Result<InstanceDescription, RegistryError>)
        requires
            self.wf(),
        ensures
            match r {
                Ok(d) => self@.contains_key(id@) && d@ == self@[id@],
                Err(e) => !self@.contains_key(id@) && e == RegistryError::InstanceNotFound,
            },
    {
        match self.find(&id.instance_id) {
            Some(i) => Ok(self.instances[i].deep_copy()),
            None => Err(RegistryError::InstanceNotFound),
        }
    }

    /// `GetAllInstances`: the ids of the instances of type `t` that have sent
    /// a heartbeat and are alive, each once.
    pub fn get_all_instances(&self, t: InstanceType) -> (r: Vec<InstanceId>)
        requires
            self.wf(),
        ensures
            forall|k: Seq<char>| (exists|a: int| 0 <= a < r@.len() && (#[trigger] r@[a])@ == k) <==> (
            self@.contains_key(k) && is_listed(self@[k], t)),
            forall|a: int, b: int| 0 <= a < r@.len() && 0 <= b < r@.len() && a != b ==> (#[trigger] r@[a])@ != (#[trigger] r@[b])@,
    {
        let mut r: Vec<InstanceId> = Vec::new();
        let ghost mut picked: Seq<int> = Seq::empty();
        let mut i: usize = 0;
        while i < self.instances.len()
            invariant
                self.wf_store(),
                i <= self.instances@.len(),
                picked.len() == r@.len(),
                forall|a: int| 0 <= a < picked.len() ==> 0 <= #[trigger] picked[a] < i && r@[a]@ == key_of(self.instances@[picked[a]]@)
                    && is_listed(self.instances@[picked[a]]@, t),
                forall|a: int, b: int| 0 <= a < b < picked.len() ==> #[trigger] picked[a] < #[trigger] picked[b],
                forall|j: int| 0 <= j < i && is_listed(#[trigger] self.instances@[j]@, t) ==> exists|a: int| 0 <= a < picked.len() && picked[a] == j,
            decreases self.instances@.len() - i,
        {
            proof {
                self.lemma_at(i as int);
            }
            let d = &self.instances[i];
            let listed = d.instance_type == Some(t) && d.health_check.is_some() && d.kill_instance_request.is_none();
            let ghost old_picked = picked;
            if listed {
                match &d.instance_id {
                    Some(iid) => {
                        r.push(iid.deep_copy());
                        proof {
                            picked = picked.push(i as int);
                            assert(picked[picked.len() - 1] == i);
                        }
                    },
                    None => {},
                }
            }
            proof {
                assert forall|j: int| 0 <= j < i + 1 && is_listed(#[trigger] self.instances@[j]@, t) implies exists|a: int| 0 <= a < picked.len() && picked[a] == j by {
                    if j < i {
                        let a = choose|a: int| 0 <= a < old_picked.len() && old_picked[a] == j;
                        assert(picked[a] == j);
                    } else {
                        assert(picked[picked.len() - 1] == j);
                    }
                }
            }
            i = i + 1;
        }
        proof {
            let s = self.seq();
            assert forall|k: Seq<char>| (exists|a: int| 0 <= a < r@.len() && (#[trigger] r@[a])@ == k) <==> (
            self@.contains_key(k) && is_listed(self@[k], t)) by {
                if exists|a: int| 0 <= a < r@.len() && (#[trigger] r@[a])@ == k {
                    let a = choose|a: int| 0 <= a < r@.len() && (#[trigger] r@[a])@ == k;
                    self.lemma_at(picked[a]);
                }
                if self@.contains_key(k) && is_listed(self@[k], t) {
                    let j = index_of_key(s, k);
                    assert(s[j] == self.instances@[j]@);
                    assert(is_listed(self.instances@[j]@, t));
                    let a = choose|a: int| 0 <= a < picked.len() && picked[a] == j;
                    assert(r@[a]@ == k);
                }
            }
            assert forall|a: int, b: int| 0 <= a < r@.len() && 0 <= b < r@.len() && a != b implies (#[trigger] r@[a])@ != (#[trigger] r@[b])@ by {
                if a < b {
                    assert(picked[a] < picked[b]);
                } else {
                    assert(picked[b] < picked[a]);
                }
                assert(s[picked[a]] == self.instances@[picked[a]]@);
                assert(s[picked[b]] == self.instances@[picked[b]]@);
            }
        }
        r
    }
}

/// All children listed from `i` on passed the check.
proof fn lemma_children_check_ok(m: Table, k: Seq<char>, up: Option<Seq<char>>, cs: Seq<crate::model::RelationshipView>, i: int)
    requires
        0 <= i,
        children_check(m, k, up, cs, i) == Ok::<bool, RegistryError>(true),
    ensures
        forall|j: int| i <= j < cs.len() ==> (#[trigger] cs[j]).instance_id is Some && m.contains_key(cs[j].instance_id->Some_0)
            && cs[j].instance_id->Some_0 != k,
    decreases cs.len() - i,
{
    if i < cs.len() {
        lemma_children_check_ok(m, k, up, cs, i + 1);
    }
}

/// Record `d` with the sub-records of `req` written at time `now`.
fn with_fields_exec(d: &InstanceDescription, req: &InstanceDescription, now: u64) -> (r: InstanceDescription)
    ensures
        r@ == with_fields(d@, req@, now),
{
    let ts = Some(TimestampMs { timestamp_ms: now });
    let mut r = d.deep_copy();
    match &req.services {
        Some(sv) => {
            let mut c = sv.deep_copy();
            c.timestamp_ms = ts;
            r.services = Some(c);
        },
        None => {},
    }
    if req.health_check.is_some() {
        r.health_check = Some(HealthCheck { timestamp_ms: ts });
    }
    match &req.parent {
        Some(p) => {
            r.parent = Some(Relationship { instance_id: copy_id_option(&p.instance_id), timestamp_ms: ts });
        },
        None => {},
    }
    match &req.children {
        Some(cs) => {
            let mut list: Vec<Relationship> = match &d.children {
                Some(c) => c.deep_copy().children,
                None => Vec::new(),
            };
            let ghost base = relationships_view(list@);
            let mut i: usize = 0;
            while i < cs.children.len()
                invariant
                    i <= cs.children@.len(),
                    ts == stamp(now),
                    relationships_view(list@) == base + stamp_relationships(relationships_view(cs.children@), now).subrange(0, i as int),
                decreases cs.children@.len() - i,
            {
                let c = Relationship { instance_id: copy_id_option(&cs.children[i].instance_id), timestamp_ms: ts };
                let ghost before = list@;
                let ghost cvs = relationships_view(cs.children@);
                assert(cvs[i as int] == cs.children@[i as int]@);
                assert(stamp_relationships(cvs, now)[i as int] == c@);
                assert(stamp_relationships(cvs, now).subrange(0, i + 1) =~= stamp_relationships(cvs, now).subrange(0, i as int).push(c@));
                list.push(c);
                i = i + 1;
                assert(relationships_view(list@) =~= relationships_view(before).push(c@));
                assert(relationships_view(list@) =~= base + stamp_relationships(relationships_view(cs.children@), now).subrange(0, i as int));
            }
            assert(stamp_relationships(relationships_view(cs.children@), now).subrange(0, i as int)
                =~= stamp_relationships(relationships_view(cs.children@), now));
            r.children = Some(Children { children: list });
        },
        None => {},
    }
    match &req.kill_instance_request {
        Some(q) => {
            r.kill_instance_request = Some(KillInstanceRequest { kill_reason: q.kill_reason, timestamp_ms: ts });
        },
        None => {},
    }
    match &req.proxy_metrics {
        Some(x) => {
            r.proxy_metrics = Some(ProxyMetrics { timestamp_ms: ts, ..*x });
        },
        None => {},
    }
    match &req.system_metrics {
        Some(x) => {
            r.system_metrics = Some(SystemMetrics { timestamp_ms: ts, ..*x });
        },
        None => {},
    }
    match &req.gpu_metrics {
        Some(x) => {
            r.gpu_metrics = Some(GpuMetrics { timestamp_ms: ts, ..*x });
        },
        None => {},
    }
    match &req.llm_metrics {
        Some(x) => {
            r.llm_metrics = Some(LlmMetrics { timestamp_ms: ts, ..*x });
        },
        None => {},
    }
    assert(r@ =~= with_fields(d@, req@, now));
    r
}

impl Registry {
    /// Replaces the record at `idx` by one with the same key.
    fn replace(&mut self, idx: usize, d: InstanceDescription)
        requires
            old(self).wf_store(),
            idx < old(self).instances@.len(),
            d@.instance_id == old(self).instances@[idx as int]@.instance_id,
            record_wf(d@),
        ensures
            final(self).wf_store(),
            final(self).instances@ == old(self).instances@.update(idx as int, d),
            final(self)@ == old(self)@.insert(key_of(old(self).instances@[idx as int]@), d@),
    {
        let ghost s0 = views(self.instances@);
        self.instances[idx] = d;
        proof {
            assert(s0[idx as int] == old(self).instances@[idx as int]@);
            lemma_table_update(s0, idx as int, d@);
            assert(views(self.instances@) =~= s0.update(idx as int, d@));
        }
    }

    /// Whether the relationships requested by `req` on the record at `idx`
    /// may be written.
    fn check_links(&self, idx: usize, k_id: &InstanceId, req: &InstanceDescription) -> (r: Result<bool, RegistryError>)
        requires
            self.wf_store(),
            idx < self.instances@.len(),
            k_id@ == key_of(self.instances@[idx as int]@),
        ensures
            r == link_check(self@, key_of(self.instances@[idx as int]@), req@),
    {
        let ghost k = key_of(self.instances@[idx as int]@);
        proof {
            self.lemma_at(idx as int);
        }
        match &req.parent {
            None => {},
            Some(p) => match &p.instance_id {
                None => {
                    return Err(RegistryError::MissingInstanceId);
                },
                Some(pid) => match self.find(&pid.instance_id) {
                    None => {
                        return Err(RegistryError::ParentNotFound);
                    },
                    Some(pi) => {
                        proof {
                            self.lemma_at(pi as int);
                            assert(views(self.instances@)[pi as int] == self.instances@[pi as int]@);
                            assert(views(self.instances@)[idx as int] == self.instances@[idx as int]@);
                        }
                        if pi == idx || self.instances[pi].kill_instance_request.is_some()
                            || self.instances[idx].parent.is_some()
                            || self.reaches_exec(&k_id.instance_id, &pid.instance_id) {
                            return Ok(false);
                        }
                    },
                },
            },
        }
        assert(parent_check(self@, k, req@) == Ok::<bool, RegistryError>(true));
        match &req.children {
            None => Ok(true),
            Some(cs) => {
                let ghost cv = relationships_view(cs.children@);
                let mut i: usize = 0;
                while i < cs.children.len()
                    invariant
                        self.wf_store(),
                        idx < self.instances@.len(),
                        k == key_of(self.instances@[idx as int]@),
                        k_id@ == k,
                        cv == relationships_view(cs.children@),
                        i <= cs.children@.len(),
                        children_check(self@, k, requested_parent(req@), cv, 0) == children_check(self@, k, requested_parent(req@), cv, i as int),
                        req@.children == Some(cv),
                        parent_check(self@, k, req@) == Ok::<bool, RegistryError>(true),
                    decreases cs.children@.len() - i,
                {
                    assert(cv[i as int] == cs.children@[i as int]@);
                    match &cs.children[i].instance_id {
                        None => {
                            return Err(RegistryError::MissingInstanceId);
                        },
                        Some(cid) => match self.find(&cid.instance_id) {
                            None => {
                                return Err(RegistryError::ChildNotFound);
                            },
                            Some(ci) => {
                                proof {
                                    self.lemma_at(ci as int);
                                    self.lemma_at(idx as int);
                                    assert(views(self.instances@)[ci as int] == self.instances@[ci as int]@);
                                    assert(views(self.instances@)[idx as int] == self.instances@[idx as int]@);
                                }
                                let loops_back = self.reaches_exec(&cid.instance_id, &k_id.instance_id) || match &req.parent {
                                    Some(p) => match &p.instance_id {
                                        Some(pid) => self.reaches_exec(&cid.instance_id, &pid.instance_id),
                                        None => false,
                                    },
                                    None => false,
                                };
                                if ci == idx || self.instances[ci].parent.is_some()
                                    || self.instances[ci].kill_instance_request.is_some() || loops_back {
                                    return Ok(false);
                                }
                            },
                        },
                    }
                    i = i + 1;
                }
                Ok(true)
            },
        }
    }
}

fn with_parent_exec(d: &InstanceDescription, k: &InstanceId, now: u64) -> (r: InstanceDescription)
    ensures
        r@ == with_parent(d@, k@, now),
{
    let mut r = d.deep_copy();
    r.parent = Some(Relationship { instance_id: Some(k.deep_copy()), timestamp_ms: Some(TimestampMs { timestamp_ms: now }) });
    assert(r@ =~= with_parent(d@, k@, now));
    r
}

fn with_child_exec(d: &InstanceDescription, k: &InstanceId, now: u64) -> (r: InstanceDescription)
    ensures
        r@ == with_child(d@, k@, now),
{
    let mut r = d.deep_copy();
    let mut list: Vec<Relationship> = match &d.children {
        Some(c) => c.deep_copy().children,
        None => Vec::new(),
    };
    let c = Relationship { instance_id: Some(k.deep_copy()), timestamp_ms: Some(TimestampMs { timestamp_ms: now }) };
    let ghost before = list@;
    assert(relationships_view(before) =~= children_of(d@));
    list.push(c);
    assert(relationships_view(list@) =~= relationships_view(before).push(c@));
    r.children = Some(Children { children: list });
    assert(r@ =~= with_child(d@, k@, now));
    r
}

impl Registry {
    /// Each child named in `req` gets `k` as its parent.
    fn link_children_exec(&mut self, k: &InstanceId, req: &InstanceDescription, now: u64)
        requires
            old(self).wf_store(),
            children_named(req@),
        ensures
            final(self).wf_store(),
            final(self).instances@.len() == old(self).instances@.len(),
            final(self)@ == match req@.children {
                Some(cs) => link_children(old(self)@, k@, cs, cs.len() as int, now),
                None => old(self)@,
            },
    {
        match &req.children {
            None => {},
            Some(cs) => {
                let ghost cv = relationships_view(cs.children@);
                let mut i: usize = 0;
                while i < cs.children.len()
                    invariant
                        self.wf_store(),
                        self.instances@.len() == old(self).instances@.len(),
                        i <= cs.children@.len(),
                        cv == relationships_view(cs.children@),
                        req@.children == Some(cv),
                        children_named(req@),
                        self@ == link_children(old(self)@, k@, cv, i as int, now),
                    decreases cs.children@.len() - i,
                {
                    assert(cv[i as int] == cs.children@[i as int]@);
                    assert(children_of(req@)[i as int] == cv[i as int]);
                    match &cs.children[i].instance_id {
                        None => {},
                        Some(cid) => match self.find(&cid.instance_id) {
                            None => {},
                            Some(ci) => {
                                proof {
                                    self.lemma_at(ci as int);
                                }
                                let d = with_parent_exec(&self.instances[ci], k, now);
                                self.replace(ci, d);
                            },
                        },
                    }
                    i = i + 1;
                }
            },
        }
    }

    /// The parent named in `req` lists `k` as its newest child.
    fn link_parent_exec(&mut self, k: &InstanceId, req: &InstanceDescription, now: u64)
        requires
            old(self).wf_store(),
            req@.parent is Some ==> req@.parent->Some_0.instance_id is Some,
        ensures
            final(self).wf_store(),
            final(self).instances@.len() == old(self).instances@.len(),
            final(self)@ == link_parent(old(self)@, k@, req@, now),
    {
        match &req.parent {
            None => {},
            Some(p) => match &p.instance_id {
                None => {},
                Some(pid) => match self.find(&pid.instance_id) {
                    None => {},
                    Some(pi) => {
                        proof {
                            self.lemma_at(pi as int);
                        }
                        let d = with_child_exec(&self.instances[pi], k, now);
                        self.replace(pi, d);
                    },
                },
            },
        }
    }
}

/// The number of live records in `s`.
spec fn alive_count(s: Seq<DescriptionView>) -> nat
    decreases s.len(),
{
    if s.len() == 0 {
        0
    } else {
        alive_count(s.drop_last()) + if is_alive(s.last()) {
            1nat
        } else {
            0nat
        }
    }
}

proof fn lemma_alive_count_kill(s: Seq<DescriptionView>, i: int, d: DescriptionView)
    requires
        0 <= i < s.len(),
        is_alive(s[i]),
        !is_alive(d),
    ensures
        alive_count(s.update(i, d)) < alive_count(s),
    decreases s.len(),
{
    let t = s.update(i, d);
    if i == s.len() - 1 {
        assert(t.drop_last() =~= s.drop_last());
    } else {
        assert(t.drop_last() =~= s.drop_last().update(i, d));
        lemma_alive_count_kill(s.drop_last(), i, d);
    }
}

/// Appends the ids of the children of `d` to `work`.
fn push_child_ids(d: &InstanceDescription, work: &mut Vec<InstanceId>)
    requires
        children_named(d@),
    ensures
        final(work)@.len() >= old(work)@.len(),
        final(work)@.subrange(0, old(work)@.len() as int) == old(work)@,
        forall|i: int| old(work)@.len() <= i < final(work)@.len() ==> has_child(d@, (#[trigger] final(work)@[i])@),
        forall|c: Seq<char>| #[trigger] has_child(d@, c) ==> exists|i: int| old(work)@.len() <= i < final(work)@.len() && final(work)@[i]@ == c,
{
    match &d.children {
        None => {
            assert(final(work)@.subrange(0, old(work)@.len() as int) =~= old(work)@);
        },
        Some(cs) => {
            let ghost cv = children_of(d@);
            assert(cv == relationships_view(cs.children@));
            let mut i: usize = 0;
            while i < cs.children.len()
                invariant
                    i <= cs.children@.len(),
                    cv == relationships_view(cs.children@),
                    cv == children_of(d@),
                    children_named(d@),
                    work@.len() >= old(work)@.len(),
                    work@.subrange(0, old(work)@.len() as int) == old(work)@,
                    forall|a: int| old(work)@.len() <= a < work@.len() ==> has_child(d@, (#[trigger] work@[a])@),
                    forall|j: int| 0 <= j < i ==> exists|a: int| old(work)@.len() <= a < work@.len() && work@[a]@ == (#[trigger] cv[j]).instance_id->Some_0,
                decreases cs.children@.len() - i,
            {
                assert(cv[i as int] == cs.children@[i as int]@);
                let ghost before = work@;
                match &cs.children[i].instance_id {
                    Some(cid) => {
                        work.push(cid.deep_copy());
                        proof {
                            assert(work@.subrange(0, old(work)@.len() as int) =~= before.subrange(0, old(work)@.len() as int));
                            assert(has_child(d@, cv[i as int].instance_id->Some_0));
                            assert forall|a: int| old(work)@.len() <= a < work@.len() implies has_child(d@, (#[trigger] work@[a])@) by {
                                if a < before.len() {
                                    assert(work@[a] == before[a]);
                                }
                            }
                            assert forall|j: int| 0 <= j < i + 1 implies exists|a: int| old(work)@.len() <= a < work@.len() && work@[a]@ == (#[trigger] cv[j]).instance_id->Some_0 by {
                                if j < i {
                                    let a = choose|a: int| old(work)@.len() <= a < before.len() && before[a]@ == cv[j].instance_id->Some_0;
                                    assert(work@[a] == before[a]);
                                } else {
                                    assert(work@[work@.len() - 1]@ == cv[j].instance_id->Some_0);
                                }
                            }
                        }
                    },
                    None => {},
                }
                i = i + 1;
            }
            assert forall|c: Seq<char>| #[trigger] has_child(d@, c) implies exists|a: int| old(work)@.len() <= a < work@.len() && work@[a]@ == c by {
                let j = choose|j: int| 0 <= j < children_of(d@).len() && (#[trigger] children_of(d@)[j]).instance_id == Some(c);
                assert(cv[j].instance_id->Some_0 == c);
            }
        },
    }
}

/// `y` was alive before the cascade and has been killed by it.
spec fn newly_killed(mid: Table, cur: Table, y: Seq<char>) -> bool {
    mid.contains_key(y) && is_alive(mid[y]) && !is_alive(cur[y])
}

spec fn in_work(work: Seq<InstanceId>, c: Seq<char>) -> bool {
    exists|i: int| 0 <= i < work.len() && (#[trigger] work[i])@ == c
}

/// Every record is unchanged, or is a live descendant of `x` killed for it.
spec fn cascade_partial(mid: Table, cur: Table, x: Seq<char>, now: u64) -> bool {
    &&& cur.dom() == mid.dom()
    &&& forall|j: Seq<char>| #[trigger] cur.contains_key(j) ==> cur[j] == mid[j] || (is_alive(mid[j]) && live_descendant(mid, x, j)
        && cur[j] == killed_with_parent(mid[j], now))
}

/// Every pending id is a child of `x` or of an instance the cascade killed.
spec fn work_sound(mid: Table, cur: Table, x: Seq<char>, work: Seq<InstanceId>) -> bool {
    forall|i: int| 0 <= i < work.len() ==> has_child(mid[x], (#[trigger] work[i])@) || exists|y: Seq<char>|
        newly_killed(mid, cur, y) && #[trigger] has_child(mid[y], work[i]@)
}

/// Every child of `x` or of an instance the cascade killed is dead or pending.
spec fn frontier(mid: Table, cur: Table, x: Seq<char>, work: Seq<InstanceId>) -> bool {
    forall|y: Seq<char>, c: Seq<char>| (y == x || newly_killed(mid, cur, y)) && mid.contains_key(c) && #[trigger] has_child(mid[y], c)
        ==> !is_alive(cur[c]) || in_work(work, c)
}

pub proof fn lemma_chain_extend(m: Table, p: Seq<Seq<char>>, c: Seq<char>)
    requires
        is_live_chain(m, p),
        m.contains_key(p.last()),
        has_child(m[p.last()], c),
        m.contains_key(c),
        is_alive(m[c]),
    ensures
        is_live_chain(m, p.push(c)),
        p.push(c)[0] == p[0],
        p.push(c).last() == c,
{
    let q = p.push(c);
    assert forall|i: int| 0 <= i < q.len() - 1 implies m.contains_key(#[trigger] q[i]) && has_child(m[q[i]], q[i + 1]) by {
        if i < p.len() - 1 {
            assert(q[i] == p[i] && q[i + 1] == p[i + 1]);
        } else {
            assert(q[i] == p.last());
        }
    }
    assert forall|i: int| 1 <= i < q.len() implies m.contains_key(#[trigger] q[i]) && is_alive(m[q[i]]) by {
        if i < p.len() {
            assert(q[i] == p[i]);
        }
    }
}

/// Along a live chain from `x`, once no pending ids remain, every instance
/// after `x` has been killed.
proof fn lemma_chain_killed(mid: Table, cur: Table, x: Seq<char>, p: Seq<Seq<char>>, i: int)
    requires
        is_live_chain(mid, p),
        p[0] == x,
        1 <= i < p.len(),
        frontier(mid, cur, x, Seq::empty()),
        cur.dom() == mid.dom(),
    ensures
        newly_killed(mid, cur, p[i]),
    decreases i,
{
    assert(mid.contains_key(p[i - 1]) && has_child(mid[p[i - 1]], p[i]));
    assert(mid.contains_key(p[i]) && is_alive(mid[p[i]]));
    if i > 1 {
        lemma_chain_killed(mid, cur, x, p, i - 1);
    }
    assert(!in_work(Seq::<InstanceId>::empty(), p[i]));
}

impl Registry {
    /// Kills every live descendant of `x`, which has just been killed,
    /// working through the children lists from a worklist.
    fn cascade_exec(&mut self, x: &InstanceId, now: u64)
        requires
            old(self).wf_store(),
            old(self)@.contains_key(x@),
            !is_alive(old(self)@[x@]),
        ensures
            final(self).wf_store(),
            final(self).instances@.len() == old(self).instances@.len(),
            final(self)@ == cascade(old(self)@, x@, now),
    {
        let ghost mid = self@;
        let ghost xk = x@;
        proof {
            self.lemma_records_wf();
        }
        let mut work: Vec<InstanceId> = Vec::new();
        match self.find(&x.instance_id) {
            None => {},
            Some(xi) => {
                proof {
                    self.lemma_at(xi as int);
                }
                push_child_ids(&self.instances[xi], &mut work);
            },
        }
        proof {
            assert(cascade_partial(mid, self@, xk, now));
            assert forall|y: Seq<char>, c: Seq<char>| (y == xk || newly_killed(mid, self@, y)) && mid.contains_key(c) && #[trigger] has_child(mid[y], c)
                implies !is_alive(self@[c]) || in_work(work@, c) by {
                if y == xk {
                    let a = choose|a: int| 0 <= a < work@.len() && work@[a]@ == c;
                }
            }
        }
        while work.len() > 0
            invariant
                self.wf_store(),
                self.instances@.len() == old(self).instances@.len(),
                mid == old(self)@,
                xk == x@,
                mid.contains_key(xk),
                !is_alive(mid[xk]),
                forall|k: Seq<char>| #[trigger] mid.contains_key(k) ==> record_wf(mid[k]),
                cascade_partial(mid, self@, xk, now),
                work_sound(mid, self@, xk, work@),
                frontier(mid, self@, xk, work@),
            decreases alive_count(views(self.instances@)), work@.len(),
        {
            let ghost cur = self@;
            let ghost before = work@;
            let c = work.pop().unwrap();
            proof {
                assert(before == work@.push(c));
                assert(before[before.len() - 1] == c);
            }
            match self.find(&c.instance_id) {
                None => {
                    proof {
                        assert(work_sound(mid, cur, xk, work@)) by {
                            assert forall|i: int| 0 <= i < work@.len() implies has_child(mid[xk], (#[trigger] work@[i])@) || exists|y: Seq<char>|
                                newly_killed(mid, cur, y) && #[trigger] has_child(mid[y], work@[i]@) by {
                                assert(work@[i] == before[i]);
                            }
                        }
                        assert forall|y: Seq<char>, d: Seq<char>| (y == xk || newly_killed(mid, cur, y)) && mid.contains_key(d) && #[trigger] has_child(mid[y], d)
                            implies !is_alive(cur[d]) || in_work(work@, d) by {
                            if is_alive(cur[d]) {
                                let a = choose|a: int| 0 <= a < before.len() && (#[trigger] before[a])@ == d;
                                assert(a < work@.len());
                                assert(work@[a] == before[a]);
                            }
                        }
                    }
                },
                Some(ci) => {
                    proof {
                        self.lemma_at(ci as int);
                    }
                    if self.instances[ci].kill_instance_request.is_some() {
                        proof {
                            assert(work_sound(mid, cur, xk, work@)) by {
                                assert forall|i: int| 0 <= i < work@.len() implies has_child(mid[xk], (#[trigger] work@[i])@) || exists|y: Seq<char>|
                                    newly_killed(mid, cur, y) && #[trigger] has_child(mid[y], work@[i]@) by {
                                    assert(work@[i] == before[i]);
                                }
                            }
                            assert forall|y: Seq<char>, d: Seq<char>| (y == xk || newly_killed(mid, cur, y)) && mid.contains_key(d) && #[trigger] has_child(mid[y], d)
                                implies !is_alive(cur[d]) || in_work(work@, d) by {
                                if is_alive(cur[d]) {
                                    let a = choose|a: int| 0 <= a < before.len() && (#[trigger] before[a])@ == d;
                                    assert(a < work@.len());
                                    assert(work@[a] == before[a]);
                                }
                            }
                        }
                    } else {
                        let ghost ck = c@;
                        proof {
                            assert(cur[ck] == mid[ck]);
                            // the popped id descends from x through live instances
                            if has_child(mid[xk], ck) {
                                let p = seq![xk, ck];
                                assert(p.last() == ck);
                                assert(is_live_chain(mid, p));
                            } else {
                                let y = choose|y: Seq<char>| newly_killed(mid, cur, y) && #[trigger] has_child(mid[y], before[before.len() - 1]@);
                                assert(live_descendant(mid, xk, y));
                                let p = choose|p: Seq<Seq<char>>| #[trigger] is_live_chain(mid, p) && p[0] == xk && p.last() == y;
                                lemma_chain_extend(mid, p, ck);
                            }
                            assert(live_descendant(mid, xk, ck));
                        }
                        let mut d = self.instances[ci].deep_copy();
                        d.kill_instance_request = Some(KillInstanceRequest {
                            kill_reason: KillReason::ParentDead,
                            timestamp_ms: Some(TimestampMs { timestamp_ms: now }),
                        });
                        assert(d@ =~= killed_with_parent(mid[ck], now));
                        proof {
                            assert(views(self.instances@)[ci as int] == self.instances@[ci as int]@);
                            lemma_alive_count_kill(views(self.instances@), ci as int, d@);
                            assert(views(self.instances@).update(ci as int, d@) =~= views(self.instances@.update(ci as int, d)));
                        }
                        self.replace(ci, d);
                        let ghost popped = work@;
                        push_child_ids(&self.instances[ci], &mut work);
                        proof {
                            let nw = self@;
                            assert(nw == cur.insert(ck, killed_with_parent(mid[ck], now)));
                            assert(newly_killed(mid, nw, ck));
                            assert(nw.dom() =~= mid.dom());
                            assert forall|j: Seq<char>| #[trigger] nw.contains_key(j) implies nw[j] == mid[j] || (is_alive(mid[j]) && live_descendant(mid, xk, j)
                                && nw[j] == killed_with_parent(mid[j], now)) by {
                                if j != ck {
                                    assert(cur.contains_key(j));
                                }
                            }
                            assert(cascade_partial(mid, nw, xk, now));
                            assert forall|y: Seq<char>| newly_killed(mid, cur, y) implies newly_killed(mid, nw, y) by {}
                            assert(self.instances@[ci as int]@ == nw[ck]);
                            assert(forall|e: Seq<char>| has_child(nw[ck], e) == has_child(mid[ck], e));
                            assert forall|i: int| 0 <= i < work@.len() implies has_child(mid[xk], (#[trigger] work@[i])@) || exists|y: Seq<char>|
                                newly_killed(mid, nw, y) && #[trigger] has_child(mid[y], work@[i]@) by {
                                if i < popped.len() {
                                    assert(work@[i] == popped[i]) by {
                                        assert(work@.subrange(0, popped.len() as int)[i] == popped[i]);
                                    }
                                    assert(popped[i] == before[i]);
                                    if !has_child(mid[xk], work@[i]@) {
                                        let y = choose|y: Seq<char>| newly_killed(mid, cur, y) && #[trigger] has_child(mid[y], before[i]@);
                                        assert(newly_killed(mid, nw, y));
                                    }
                                } else {
                                    assert(has_child(mid[ck], work@[i]@));
                                }
                            }
                            assert forall|y: Seq<char>, e: Seq<char>| (y == xk || newly_killed(mid, nw, y)) && mid.contains_key(e) && #[trigger] has_child(mid[y], e)
                                implies !is_alive(nw[e]) || in_work(work@, e) by {
                                if y == ck {
                                    assert(has_child(nw[ck], e));
                                    let a = choose|a: int| popped.len() <= a < work@.len() && work@[a]@ == e;
                                } else if e != ck && is_alive(nw[e]) {
                                    assert(y == xk || newly_killed(mid, cur, y));
                                    assert(is_alive(cur[e]));
                                    let a = choose|a: int| 0 <= a < before.len() && (#[trigger] before[a])@ == e;
                                    assert(a < popped.len());
                                    assert(work@[a] == popped[a]) by {
                                        assert(work@.subrange(0, popped.len() as int)[a] == popped[a]);
                                    }
                                }
                            }
                        }
                    }
                },
            }
        }
        proof {
            let cur = self@;
            assert(work@.len() == 0);
            assert(work@ =~= Seq::<InstanceId>::empty());
            assert forall|j: Seq<char>| #[trigger] cur.contains_key(j) implies cur[j] == cascade(mid, xk, now)[j] by {
                if is_alive(mid[j]) && live_descendant(mid, xk, j) {
                    let p = choose|p: Seq<Seq<char>>| #[trigger] is_live_chain(mid, p) && p[0] == xk && p.last() == j;
                    lemma_chain_killed(mid, cur, xk, p, p.len() - 1);
                }
            }
            assert(cur =~= cascade(mid, xk, now));
        }
    }
}

impl Registry {
    fn insert_new(&mut self, d: InstanceDescription)
        requires
            old(self).wf_store(),
            record_wf(d@),
            !old(self)@.contains_key(key_of(d@)),
        ensures
            final(self).wf_store(),
            final(self).instances@ == old(self).instances@.push(d),
            final(self)@ == old(self)@.insert(key_of(d@), d@),
    {
        let ghost s0 = views(self.instances@);
        self.instances.push(d);
        proof {
            lemma_table_push(s0, d@);
            assert(views(self.instances@) =~= s0.push(d@));
        }
    }

    /// Applies a write request: checks that the instance exists and is alive
    /// and that the requested links are allowed, then writes every present
    /// sub-record stamped with `now`, links children and parent, and runs the
    /// kill cascade when the request kills the instance.
    fn apply(&mut self, req: &InstanceDescription, now: u64) -> (r: Result<bool, RegistryError>)
        requires
            old(self).wf_store(),
            write_shape(req@),
        ensures
            final(self).wf_store(),
            (r, final(self)@) == apply_outcome(old(self)@, req@, now),
            r != Ok::<bool, RegistryError>(true) ==> final(self).instances@ == old(self).instances@,
    {
        let iid = match &req.instance_id {
            Some(i) => i,
            None => {
                return Err(RegistryError::InvalidRequest);
            },
        };
        let ghost k = iid@;
        let idx = match self.find(&iid.instance_id) {
            None => {
                return Err(RegistryError::InstanceNotFound);
            },
            Some(i) => i,
        };
        proof {
            self.lemma_at(idx as int);
        }
        if self.instances[idx].kill_instance_request.is_some() {
            return Ok(false);
        }
        match self.check_links(idx, iid, req) {
            Ok(true) => {},
            other => {
                return other;
            },
        }
        proof {
            match req@.children {
                Some(cs) => {
                    lemma_children_check_ok(old(self)@, k, requested_parent(req@), cs, 0);
                    assert(children_named(req@));
                },
                None => {},
            }
        }
        let d = with_fields_exec(&self.instances[idx], req, now);
        proof {
            let old_d = self.instances@[idx as int]@;
            assert forall|j: int| 0 <= j < children_of(d@).len() implies (#[trigger] children_of(d@)[j]).instance_id is Some by {
                if req@.children is Some {
                    let cs = req@.children->Some_0;
                    if j >= children_of(old_d).len() {
                        let jj = j - children_of(old_d).len();
                        assert(children_of(d@)[j] == stamp_relationships(cs, now)[jj]);
                        assert(cs[jj].instance_id is Some);
                    } else {
                        assert(children_of(d@)[j] == children_of(old_d)[j]);
                    }
                }
            }
        }
        self.replace(idx, d);
        let ghost m1 = self@;
        self.link_children_exec(iid, req, now);
        let ghost m2 = self@;
        self.link_parent_exec(iid, req, now);
        proof {
            match req@.children {
                Some(cs) => lemma_link_children_frame(m1, k, cs, cs.len() as int, now),
                None => {},
            }
            assert(m2.contains_key(k));
            if req@.kill_instance_request is Some {
                assert(!is_alive(m2[k]));
                assert(!is_alive(self@[k]));
            }
        }
        if req.kill_instance_request.is_some() {
            self.cascade_exec(iid, now);
        }
        Ok(true)
    }

    /// `TryUpdate`: writes services, health, parent, children or kill on a
    /// live instance. `Ok(false)` when the instance is dead or a link is not
    /// allowed; the table is then unchanged.
    pub fn try_update_instance_description(&mut self, req: &InstanceDescription, now: u64) -> (r: Result<bool, RegistryError>)
        requires
            old(self).wf(),
        ensures
            final(self).wf(),
            (r, final(self)@) == update_outcome(old(self)@, req@, now),
    {
        if !(req.instance_id.is_some() && req.instance_type.is_none() && req.created_timestamp_ms.is_none()
            && req.proxy_metrics.is_none() && req.system_metrics.is_none() && req.gpu_metrics.is_none()
            && req.llm_metrics.is_none()) {
            return Err(RegistryError::InvalidRequest);
        }
        let r = self.apply(req, now);
        proof {
            law_table_ok_kept(old(self)@, req@, now);
        }
        r
    }

    /// `Post`: writes metric records on a live instance, last writer wins.
    pub fn post_instance_description(&mut self, req: &InstanceDescription, now: u64) -> (r: Result<bool, RegistryError>)
        requires
            old(self).wf(),
        ensures
            final(self).wf(),
            (r, final(self)@) == post_outcome(old(self)@, req@, now),
    {
        if !(req.instance_id.is_some() && req.instance_type.is_none() && req.created_timestamp_ms.is_none()
            && req.services.is_none() && req.health_check.is_none() && req.parent.is_none()
            && req.children.is_none() && req.kill_instance_request.is_none()) {
            return Err(RegistryError::InvalidRequest);
        }
        let r = self.apply(req, now);
        proof {
            law_table_ok_kept(old(self)@, req@, now);
        }
        r
    }

    /// `TryAdd`: registers a new instance of the given type, created at
    /// `now`, with the services and links the request carries. `Ok(false)`
    /// when the id is taken; nothing is added unless the answer is `Ok(true)`.
    pub fn try_add_instance(&mut self, req: InstanceDescription, now: u64) -> (r: Result<bool, RegistryError>)
        requires
            old(self).wf(),
        ensures
            final(self).wf(),
            (r, final(self)@) == add_outcome(old(self)@, req@, now),
    {
        let ghost r0 = req@;
        if !(req.instance_id.is_some() && req.instance_type.is_some() && req.created_timestamp_ms.is_none()
            && req.health_check.is_none() && req.kill_instance_request.is_none() && req.proxy_metrics.is_none()
            && req.system_metrics.is_none() && req.gpu_metrics.is_none() && req.llm_metrics.is_none()) {
            return Err(RegistryError::InvalidRequest);
        }
        proof {
            law_table_ok_kept(old(self)@, r0, now);
        }
        let (iid, t) = match (&req.instance_id, req.instance_type) {
            (Some(i), Some(t)) => (i.deep_copy(), t),
            _ => {
                return Err(RegistryError::InvalidRequest);
            },
        };
        if self.find(&iid.instance_id).is_some() {
            return Ok(false);
        }
        let record = InstanceDescription {
            instance_id: Some(iid),
            instance_type: Some(t),
            created_timestamp_ms: Some(TimestampMs { timestamp_ms: now }),
            services: None,
            health_check: None,
            parent: None,
            children: None,
            kill_instance_request: None,
            proxy_metrics: None,
            system_metrics: None,
            gpu_metrics: None,
            llm_metrics: None,
        };
        assert(record@ =~= fresh_record(r0.instance_id->Some_0, t, now));
        self.insert_new(record);
        let ghost pushed = self.instances@;
        let mut rest = req;
        rest.instance_type = None;
        assert(rest@ =~= crate::model::DescriptionView { instance_type: None, ..r0 });
        let res = self.apply(&rest, now);
        match res {
            Ok(true) => {},
            _ => {
                let _ = self.instances.pop();
                assert(self.instances@ =~= old(self).instances@);
            },
        }
        res
    }
}

/// How many entries of `v` are `false`.
spec fn count_false(v: Seq<bool>) -> nat
    decreases v.len(),
{
    if v.len() == 0 {
        0
    } else {
        count_false(v.drop_last()) + if v.last() {
            0nat
        } else {
            1nat
        }
    }
}

proof fn lemma_count_false_mark(v: Seq<bool>, i: int)
    requires
        0 <= i < v.len(),
        !v[i],
    ensures
        count_false(v.update(i, true)) < count_false(v),
    decreases v.len(),
{
    let t = v.update(i, true);
    if i == v.len() - 1 {
        assert(t.drop_last() =~= v.drop_last());
    } else {
        assert(t.drop_last() =~= v.drop_last().update(i, true));
        lemma_count_false_mark(v.drop_last(), i);
    }
}

pub proof fn lemma_chain_push(m: Table, p: Seq<Seq<char>>, c: Seq<char>)
    requires
        is_chain(m, p),
        has_child(m[p.last()], c),
        m.contains_key(c),
    ensures
        is_chain(m, p.push(c)),
        p.push(c)[0] == p[0],
        p.push(c).last() == c,
{
    let q = p.push(c);
    assert forall|i: int| 0 <= i < q.len() implies m.contains_key(#[trigger] q[i]) by {
        if i < p.len() {
            assert(q[i] == p[i]);
        }
    }
    assert forall|i: int| 0 <= i < q.len() - 1 implies has_child(m[#[trigger] q[i]], q[i + 1]) by {
        if i < p.len() - 1 {
            assert(q[i] == p[i] && q[i + 1] == p[i + 1]);
        } else {
            assert(q[i] == p.last());
        }
    }
}

/// Every child of a visited record that is done with is visited.
spec fn visit_closed(s: Seq<DescriptionView>, vis: Seq<bool>, work: Seq<usize>) -> bool {
    forall|j: int, c: Seq<char>|
        0 <= j < s.len() && vis[j] && !work.contains(j as usize) && #[trigger] has_child(s[j], c) && table(s).contains_key(c)
            ==> vis[index_of_key(s, c)]
}

proof fn lemma_index_of_key_is(s: Seq<DescriptionView>, i: int)
    requires
        keys_unique(s),
        0 <= i < s.len(),
    ensures
        index_of_key(s, key_of(s[i])) == i,
{
    lemma_table_at(s, i);
}

proof fn lemma_closed_reach(s: Seq<DescriptionView>, vis: Seq<bool>, p: Seq<Seq<char>>, i: int)
    requires
        keys_unique(s),
        vis.len() == s.len(),
        is_chain(table(s), p),
        vis[index_of_key(s, p[0])],
        visit_closed(s, vis, Seq::empty()),
        0 <= i < p.len(),
    ensures
        vis[index_of_key(s, p[i])],
    decreases i,
{
    if i > 0 {
        lemma_closed_reach(s, vis, p, i - 1);
        let j = index_of_key(s, p[i - 1]);
        assert(table(s).contains_key(p[i - 1]));
        assert(0 <= j < s.len() && key_of(s[j]) == p[i - 1]);
        assert(has_child(table(s)[p[i - 1]], p[i]));
        assert(table(s)[p[i - 1]] == s[j]);
        assert(table(s).contains_key(p[i]));
    }
}

impl Registry {
    /// Whether `to` is `from` or one of its descendants.
    fn reaches_exec(&self, from: &String, to: &String) -> (r: bool)
        requires
            self.wf_store(),
            self@.contains_key(from@),
        ensures
            r == reaches(self@, from@, to@),
    {
        if *from == *to {
            return true;
        }
        let ghost s = views(self.instances@);
        let ghost m = self@;
        let n = self.instances.len();
        let fi = match self.find(from) {
            Some(i) => i,
            None => {
                return false;
            },
        };
        proof {
            lemma_index_of_key_is(s, fi as int);
        }
        let mut vis: Vec<bool> = vec![false; n];
        vis.set(fi, true);
        let mut work: Vec<usize> = Vec::new();
        work.push(fi);
        proof {
            assert(work@[0] == fi);
            assert forall|j: int| 0 <= j < n && #[trigger] vis@[j] implies j == fi as int by {}
            assert forall|j: int, c: Seq<char>|
                0 <= j < s.len() && vis@[j] && !work@.contains(j as usize) && #[trigger] has_child(s[j], c) && table(s).contains_key(c)
                    implies vis@[index_of_key(s, c)] by {
                assert(j == fi as int);
            }
        }
        while work.len() > 0
            invariant
                self.wf_store(),
                s == views(self.instances@),
                m == self@,
                m == table(s),
                n == s.len(),
                vis@.len() == n,
                from@ != to@,
                0 <= fi < n,
                key_of(s[fi as int]) == from@,
                index_of_key(s, from@) == fi,
                vis@[fi as int],
                forall|a: int| 0 <= a < work@.len() ==> (#[trigger] work@[a]) < n && vis@[work@[a] as int],
                forall|a: int, b: int| 0 <= a < b < work@.len() ==> work@[a] != work@[b],
                forall|j: int| 0 <= j < n && #[trigger] vis@[j] ==> reaches(m, from@, key_of(s[j])) && key_of(s[j]) != to@,
                visit_closed(s, vis@, work@),
            decreases count_false(vis@), work@.len(),
        {
            let ghost before = work@;
            let y = work.pop().unwrap();
            proof {
                assert(before == work@.push(y));
                assert(!work@.contains(y)) by {
                    if work@.contains(y) {
                        let a = choose|a: int| 0 <= a < work@.len() && work@[a] == y;
                        assert(before[a] == before[before.len() - 1]);
                    }
                }
                self.lemma_at(y as int);
                assert(s[y as int] == self.instances@[y as int]@);
            }
            let ghost vis_popped = vis@;
            let ghost work_popped = work@;
            match &self.instances[y].children {
                None => {
                    proof {
                        assert forall|j: int, c: Seq<char>|
                            0 <= j < s.len() && vis@[j] && !work@.contains(j as usize) && #[trigger] has_child(s[j], c) && table(s).contains_key(c)
                                implies vis@[index_of_key(s, c)] by {
                            if j != y {
                                assert(!before.contains(j as usize)) by {
                                    if before.contains(j as usize) {
                                        let a = choose|a: int| 0 <= a < before.len() && before[a] == j as usize;
                                        if a < work@.len() {
                                            assert(work@[a] == before[a]);
                                        }
                                    }
                                }
                            }
                        }
                    }
                },
                Some(cs) => {
                    let ghost cv = crate::model::relationships_view(cs.children@);
                    assert(cv == children_of(s[y as int]));
                    let mut e: usize = 0;
                    while e < cs.children.len()
                        invariant
                            self.wf_store(),
                            s == views(self.instances@),
                            m == self@,
                            m == table(s),
                            n == s.len(),
                            vis@.len() == n,
                            from@ != to@,
                            0 <= fi < n,
                            index_of_key(s, from@) == fi,
                            vis@[fi as int],
                            y < n,
                            vis@[y as int],
                            reaches(m, from@, key_of(s[y as int])),
                            cv == crate::model::relationships_view(cs.children@),
                            cv == children_of(s[y as int]),
                            e <= cs.children@.len(),
                            count_false(vis@) < count_false(vis_popped) || (vis@ == vis_popped && work@ == work_popped),
                            work_popped.len() <= work@.len(),
                            forall|a: int| 0 <= a < work_popped.len() ==> work@[a] == work_popped[a],
                            !work_popped.contains(y),
                            forall|a: int| work_popped.len() <= a < work@.len() ==> work@[a] != y,
                            forall|a: int| 0 <= a < work@.len() ==> (#[trigger] work@[a]) < n && vis@[work@[a] as int],
                            forall|a: int, b: int| 0 <= a < b < work@.len() ==> work@[a] != work@[b],
                            forall|j: int| 0 <= j < n && #[trigger] vis@[j] ==> reaches(m, from@, key_of(s[j])) && key_of(s[j]) != to@,
                            forall|j: int| 0 <= j < n && vis_popped[j] ==> #[trigger] vis@[j],
                            forall|j: int| 0 <= j < n && vis@[j] && !vis_popped[j] ==> work@.contains(j as usize),
                            forall|j: int, c: Seq<char>|
                                0 <= j < s.len() && vis_popped[j] && j != y && !before.contains(j as usize) && #[trigger] has_child(s[j], c)
                                    && table(s).contains_key(c) ==> vis_popped[index_of_key(s, c)],
                            before == work_popped.push(y),
                            forall|f: int| 0 <= f < e && (#[trigger] cv[f]).instance_id is Some && m.contains_key(cv[f].instance_id->Some_0)
                                ==> vis@[index_of_key(s, cv[f].instance_id->Some_0)],
                        decreases cs.children@.len() - e,
                    {
                        assert(cv[e as int] == cs.children@[e as int]@);
                        match &cs.children[e].instance_id {
                            None => {},
                            Some(cid) => {
                                match self.find(&cid.instance_id) {
                                    None => {},
                                    Some(ci) => {
                                        proof {
                                            lemma_index_of_key_is(s, ci as int);
                                            assert(s[ci as int] == self.instances@[ci as int]@);
                                        }
                                        if !vis[ci] {
                                            proof {
                                                // the child descends from `from`
                                                assert(has_child(s[y as int], cid@));
                                                assert(m[key_of(s[y as int])] == s[y as int]) by {
                                                    lemma_table_at(s, y as int);
                                                }
                                                if from@ == key_of(s[y as int]) {
                                                    let p = seq![from@, cid@];
                                                    assert(is_chain(m, p));
                                                    assert(p.last() == cid@);
                                                } else {
                                                    let p = choose|p: Seq<Seq<char>>| #[trigger] is_chain(m, p) && p[0] == from@ && p.last() == key_of(s[y as int]);
                                                    lemma_chain_push(m, p, cid@);
                                                }
                                                assert(reaches(m, from@, cid@));
                                            }
                                            if cid.instance_id == *to {
                                                return true;
                                            }
                                            let ghost vb = vis@;
                                            let ghost wb = work@;
                                            proof {
                                                lemma_count_false_mark(vis@, ci as int);
                                            }
                                            proof {
                                                if !(count_false(vb) < count_false(vis_popped)) {
                                                    assert(vb == vis_popped);
                                                }
                                            }
                                            vis.set(ci, true);
                                            work.push(ci);
                                            proof {
                                                assert forall|j: int| 0 <= j < n && vis@[j] && !vis_popped[j] implies work@.contains(j as usize) by {
                                                    if j == ci {
                                                        assert(work@[work@.len() - 1] == ci);
                                                    } else {
                                                        let a = choose|a: int| 0 <= a < wb.len() && wb[a] == j as usize;
                                                        assert(work@[a] == wb[a]);
                                                    }
                                                }
                                                assert forall|a: int, b: int| 0 <= a < b < work@.len() implies work@[a] != work@[b] by {
                                                    if b == work@.len() - 1 {
                                                        assert(vb[wb[a] as int]);
                                                    }
                                                }
                                            }
                                        }
                                    },
                                }
                            },
                        }
                        e = e + 1;
                    }
                    proof {
                        assert forall|j: int, c: Seq<char>|
                            0 <= j < s.len() && vis@[j] && !work@.contains(j as usize) && #[trigger] has_child(s[j], c) && table(s).contains_key(c)
                                implies vis@[index_of_key(s, c)] by {
                            if j == y {
                                let f = choose|f: int| 0 <= f < children_of(s[j]).len() && (#[trigger] children_of(s[j])[f]).instance_id == Some(c);
                                assert(cv[f].instance_id == Some(c));
                            } else if !vis_popped[j] {
                                assert(work@.contains(j as usize));
                            } else {
                                assert(!before.contains(j as usize)) by {
                                    if before.contains(j as usize) {
                                        let a = choose|a: int| 0 <= a < before.len() && before[a] == j as usize;
                                        if a < work_popped.len() {
                                            assert(work@[a] == work_popped[a]);
                                        }
                                    }
                                }
                                assert(vis_popped[index_of_key(s, c)]);
                            }
                        }
                    }
                },
            }
        }
        proof {
            assert(work@ =~= Seq::<usize>::empty());
            if descendant(m, from@, to@) {
                let p = choose|p: Seq<Seq<char>>| #[trigger] is_chain(m, p) && p[0] == from@ && p.last() == to@;
                lemma_closed_reach(s, vis@, p, p.len() - 1);
                let j = index_of_key(s, to@);
                assert(m.contains_key(to@));
                assert(key_of(s[j]) == to@);
            }
        }
        false
    }
}

} // verus!

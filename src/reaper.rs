//! The reaper: per-type liveness rules, and the pass that kills every
//! instance they flag.

use vstd::prelude::*;
use crate::laws::bare_request;
use crate::model::{
    DescriptionView, InstanceDescription, InstanceType, KillInstanceRequest, KillReason, TimestampMs,
};
use crate::registry::Registry;
use crate::rules::{
    killed_with_parent, stamp, cascade, children_of, has_child, is_alive, is_live_chain, link_check, live_descendant,
    update_outcome, with_fields, RegistryError, Table,
};
use crate::table::key_of;

verus! {

/// How long a browser may go without a heartbeat.
pub const CHROME_BROWSER_TIMEOUT_MS: u64 = 5000;
/// How long a browser may stay claimed.
pub const CHROME_BROWSER_SESSION_LIFETIME_MS: u64 = 3600000;
/// How long a browser may live at all.
pub const CHROME_BROWSER_MAX_LIFETIME_MS: u64 = 86400000;
/// How long an agent is left alone after it was registered.
pub const AGENT_GRACE_MS: u64 = 60000;
/// How long an agent may go without a heartbeat.
pub const AGENT_TIMEOUT_MS: u64 = 5000;
/// How long an agent may go without activity before it times out.
pub const AGENT_MAX_IDLE_MS: u64 = 86400000;

/// Milliseconds from `ts` to `now`; negative when `ts` lies ahead of `now`.
pub open spec fn elapsed(now: u64, ts: TimestampMs) -> int {
    now - ts.timestamp_ms
}

/// The last sign of life: the last heartbeat, else the creation time.
pub open spec fn last_activity(d: DescriptionView) -> TimestampMs {
    match d.health_check {
        Some(h) => match h.timestamp_ms {
            Some(ts) => ts,
            None => d.created_timestamp_ms->Some_0,
        },
        None => d.created_timestamp_ms->Some_0,
    }
}

/// Why the reaper kills instance `d` at time `now`, if it does. The first
/// rule of the instance's type that applies wins.
pub open spec fn kill_reason_for(d: DescriptionView, now: u64) -> Option<KillReason> {
    match (d.instance_type, d.created_timestamp_ms) {
        (Some(t), Some(created)) => match t {
            InstanceType::ChromeBrowser | InstanceType::FakeInstance => {
                if d.parent is Some && d.parent->Some_0.timestamp_ms is Some && elapsed(
                    now,
                    d.parent->Some_0.timestamp_ms->Some_0,
                ) > CHROME_BROWSER_SESSION_LIFETIME_MS {
                    Some(KillReason::Timeout)
                } else if elapsed(now, last_activity(d)) > CHROME_BROWSER_TIMEOUT_MS {
                    Some(KillReason::HealthCheckFailed)
                } else if elapsed(now, created) > CHROME_BROWSER_MAX_LIFETIME_MS {
                    Some(KillReason::Killed)
                } else {
                    None
                }
            },
            InstanceType::Agent => {
                if elapsed(now, created) < AGENT_GRACE_MS {
                    None
                } else if elapsed(now, last_activity(d)) > AGENT_TIMEOUT_MS {
                    Some(KillReason::HealthCheckFailed)
                } else if elapsed(now, last_activity(d)) > AGENT_MAX_IDLE_MS {
                    Some(KillReason::Timeout)
                } else {
                    None
                }
            },
            _ => None,
        },
        _ => None,
    }
}

fn elapsed_exceeds(now: u64, ts: TimestampMs, limit: u64) -> (r: bool)
    ensures
        r == (elapsed(now, ts) > limit),
{
    now > ts.timestamp_ms && now - ts.timestamp_ms > limit
}

/// The reaper's verdict on one instance at time `now`.
pub fn unhealth_instance(instance_description: &InstanceDescription, current_timestamp_ms: &TimestampMs) -> (r: Option<KillReason>)
    ensures
        r == kill_reason_for(instance_description@, current_timestamp_ms.timestamp_ms),
{
    let now = current_timestamp_ms.timestamp_ms;
    let d = instance_description;
    match (d.instance_type, d.created_timestamp_ms) {
        (Some(t), Some(created)) => {
            let last = match d.health_check {
                Some(h) => match h.timestamp_ms {
                    Some(ts) => ts,
                    None => created,
                },
                None => created,
            };
            match t {
                InstanceType::ChromeBrowser | InstanceType::FakeInstance => {
                    let session_over = match &d.parent {
                        Some(p) => match p.timestamp_ms {
                            Some(ts) => elapsed_exceeds(now, ts, CHROME_BROWSER_SESSION_LIFETIME_MS),
                            None => false,
                        },
                        None => false,
                    };
                    if session_over {
                        Some(KillReason::Timeout)
                    } else if elapsed_exceeds(now, last, CHROME_BROWSER_TIMEOUT_MS) {
                        Some(KillReason::HealthCheckFailed)
                    } else if elapsed_exceeds(now, created, CHROME_BROWSER_MAX_LIFETIME_MS) {
                        Some(KillReason::Killed)
                    } else {
                        None
                    }
                },
                InstanceType::Agent => {
                    if now < created.timestamp_ms || now - created.timestamp_ms < AGENT_GRACE_MS {
                        None
                    } else if elapsed_exceeds(now, last, AGENT_TIMEOUT_MS) {
                        Some(KillReason::HealthCheckFailed)
                    } else if elapsed_exceeds(now, last, AGENT_MAX_IDLE_MS) {
                        Some(KillReason::Timeout)
                    } else {
                        None
                    }
                },
                _ => None,
            }
        },
        _ => None,
    }
}

/// An agent within its grace period is never killed, whatever its heartbeats.
pub proof fn law_agent_grace(d: DescriptionView, now: u64)
    requires
        d.instance_type == Some(InstanceType::Agent),
        d.created_timestamp_ms is Some,
        elapsed(now, d.created_timestamp_ms->Some_0) < AGENT_GRACE_MS,
    ensures
        kill_reason_for(d, now) is None,
{
}

/// The request the reaper sends to kill instance `k` for `reason` at `now`.
pub open spec fn reaper_request(k: Seq<char>, reason: KillReason, now: u64) -> DescriptionView {
    DescriptionView {
        kill_instance_request: Some(KillInstanceRequest { kill_reason: reason, timestamp_ms: Some(TimestampMs { timestamp_ms: now }) }),
        ..bare_request(k)
    }
}

/// Instance `k` is alive and the reaper's rules flag it at `now`.
pub open spec fn flagged(m: Table, k: Seq<char>, now: u64) -> bool {
    m.contains_key(k) && is_alive(m[k]) && kill_reason_for(m[k], now) is Some
}

/// A kill request keeps the set of instances, keeps the dead dead, and
/// leaves its target dead.
proof fn lemma_kill_request_effect(m: Table, k: Seq<char>, reason: KillReason, now: u64)
    requires
        m.contains_key(k),
    ensures
        update_outcome(m, reaper_request(k, reason, now), now).1.dom() == m.dom(),
        forall|j: Seq<char>| #[trigger] m.contains_key(j) && !is_alive(m[j]) ==> !is_alive(
            update_outcome(m, reaper_request(k, reason, now), now).1[j],
        ),
        !is_alive(update_outcome(m, reaper_request(k, reason, now), now).1[k]),
{
    let r = reaper_request(k, reason, now);
    if is_alive(m[k]) {
        assert(link_check(m, k, r) == Ok::<bool, RegistryError>(true));
        let m1 = m.insert(k, with_fields(m[k], r, now));
        assert(m1.dom() =~= m.dom());
        assert(cascade(m1, k, now).dom() =~= m1.dom());
    }
}

/// The kill record the reaper writes on `d` for its own reason at `now`.
pub open spec fn own_kill_record(d: DescriptionView, now: u64) -> Option<KillInstanceRequest> {
    Some(KillInstanceRequest { kill_reason: kill_reason_for(d, now)->Some_0, timestamp_ms: stamp(now) })
}

/// The kill record of an instance reached by the cascade at `now`.
pub open spec fn parent_dead_record(now: u64) -> Option<KillInstanceRequest> {
    Some(KillInstanceRequest { kill_reason: KillReason::ParentDead, timestamp_ms: stamp(now) })
}

/// `k` is a live descendant of another instance the rules flag.
pub open spec fn below_flagged(old: Table, k: Seq<char>, now: u64) -> bool {
    exists|f: Seq<char>| f != k && flagged(old, f, now) && #[trigger] live_descendant(old, f, k)
}

/// How an instance the pass has killed was killed: for its own reason, or
/// by the cascade from another flagged instance.
pub open spec fn killed_as(old: Table, cur: Table, k: Seq<char>, now: u64) -> bool {
    (flagged(old, k, now) && cur[k].kill_instance_request == own_kill_record(old[k], now)) || (below_flagged(old, k, now)
        && cur[k].kill_instance_request == parent_dead_record(now))
}

/// The table after the reaper's request on `k`.
pub open spec fn reap_step(cur: Table, k: Seq<char>, reason: KillReason, now: u64) -> Table {
    update_outcome(cur, reaper_request(k, reason, now), now).1
}

/// What a reaper pass may have done so far to the table `old`, giving `cur`:
/// same instances, same children links, survivors untouched, and every
/// instance it killed flagged or a live descendant of a flagged one.
pub open spec fn pass_so_far(old: Table, cur: Table, now: u64) -> bool {
    &&& cur.dom() == old.dom()
    &&& forall|k: Seq<char>| #[trigger] cur.contains_key(k) ==> children_of(cur[k]) == children_of(old[k])
    &&& forall|k: Seq<char>| #[trigger] cur.contains_key(k) && is_alive(cur[k]) ==> cur[k] == old[k]
    &&& forall|k: Seq<char>| #[trigger] cur.contains_key(k) && !is_alive(old[k]) ==> !is_alive(cur[k])
    &&& forall|k: Seq<char>| #[trigger] cur.contains_key(k) && is_alive(old[k]) && !is_alive(cur[k]) ==> killed_as(old, cur, k, now)
}

proof fn lemma_pass_step(old: Table, cur: Table, k: Seq<char>, reason: KillReason, now: u64)
    requires
        pass_so_far(old, cur, now),
        flagged(old, k, now),
        reason == kill_reason_for(old[k], now)->Some_0,
    ensures
        pass_so_far(old, reap_step(cur, k, reason, now), now),
        forall|j: Seq<char>| #[trigger] cur.contains_key(j) && !is_alive(cur[j]) ==> reap_step(cur, k, reason, now)[j] == cur[j],
        is_alive(cur[k]) ==> reap_step(cur, k, reason, now)[k].kill_instance_request == own_kill_record(old[k], now),
{
    let r = reaper_request(k, reason, now);
    if is_alive(cur[k]) {
        assert(link_check(cur, k, r) == Ok::<bool, RegistryError>(true));
        let m1 = cur.insert(k, with_fields(cur[k], r, now));
        assert(m1.dom() =~= cur.dom());
        let nw = cascade(m1, k, now);
        assert(nw == update_outcome(cur, r, now).1);
        assert(nw.dom() =~= m1.dom());
        assert forall|j: Seq<char>| #[trigger] m1.contains_key(j) implies children_of(m1[j]) == children_of(old[j]) by {}
        assert forall|j: Seq<char>| #[trigger] nw.contains_key(j) && is_alive(old[j]) && !is_alive(nw[j]) implies killed_as(old, nw, j, now) by {
            if !is_alive(cur[j]) {
            } else if j == k {
            } else {
                assert(live_descendant(m1, k, j));
                let p = choose|p: Seq<Seq<char>>| #[trigger] is_live_chain(m1, p) && p[0] == k && p.last() == j;
                assert forall|i: int| 0 <= i < p.len() - 1 implies old.contains_key(#[trigger] p[i]) && has_child(old[p[i]], p[i + 1]) by {
                    assert(m1.contains_key(p[i]) && has_child(m1[p[i]], p[i + 1]));
                    assert(children_of(m1[p[i]]) == children_of(old[p[i]]));
                }
                assert forall|i: int| 1 <= i < p.len() implies old.contains_key(#[trigger] p[i]) && is_alive(old[p[i]]) by {
                    assert(m1.contains_key(p[i]) && is_alive(m1[p[i]]));
                    assert(p[i] != k);
                    assert(cur[p[i]] == old[p[i]]);
                }
                assert(is_live_chain(old, p));
                assert(live_descendant(old, k, j));
                assert(below_flagged(old, j, now));
            }
        }
    }
}

impl Registry {
    /// The kill requests of one reaper pass at time `now`: one for each live
    /// instance the rules flag, with the rule's reason.
    pub fn get_unhealth_instances(&self, now: &TimestampMs) -> (r: Vec<InstanceDescription>)
        requires
            self.wf(),
        ensures
            forall|k: Seq<char>| (exists|a: int| 0 <= a < r@.len() && key_of((#[trigger] r@[a])@) == k) <==> flagged(
                self@,
                k,
                now.timestamp_ms,
            ),
            forall|a: int| 0 <= a < r@.len() ==> (#[trigger] r@[a])@ == reaper_request(
                key_of(r@[a]@),
                kill_reason_for(self@[key_of(r@[a]@)], now.timestamp_ms)->Some_0,
                now.timestamp_ms,
            ),
            forall|a: int, b: int| 0 <= a < r@.len() && 0 <= b < r@.len() && a != b ==> key_of((#[trigger] r@[a])@) != key_of(
                (#[trigger] r@[b])@,
            ),
    {
        let mut r: Vec<InstanceDescription> = Vec::new();
        let ghost mut picked: Seq<int> = Seq::empty();
        let n = self.len();
        let mut i: usize = 0;
        while i < n
            invariant
                self.wf(),
                n == self.len_spec(),
                i <= n,
                forall|a: int| 0 <= a < r@.len() ==> (#[trigger] r@[a])@ == reaper_request(
                    key_of(r@[a]@),
                    kill_reason_for(self@[key_of(r@[a]@)], now.timestamp_ms)->Some_0,
                    now.timestamp_ms,
                ) && flagged(self@, key_of(r@[a]@), now.timestamp_ms),
                picked.len() == r@.len(),
                forall|a: int| 0 <= a < picked.len() ==> 0 <= #[trigger] picked[a] < i && key_of(r@[a]@) == key_of(
                    self.record_spec(picked[a])->Some_0,
                ),
                forall|a: int, b: int| 0 <= a < b < picked.len() ==> #[trigger] picked[a] < #[trigger] picked[b],
                forall|j: int| 0 <= j < i && is_alive(#[trigger] self.record_spec(j)->Some_0) && kill_reason_for(self.record_spec(j)->Some_0, now.timestamp_ms) is Some
                    ==> exists|a: int| 0 <= a < r@.len() && key_of((#[trigger] r@[a])@) == key_of(self.record_spec(j)->Some_0),
            decreases n - i,
        {
            let d = self.record(i);
            proof {
                self.lemma_record(i as int);
            }
            if d.kill_instance_request.is_none() {
                match unhealth_instance(d, now) {
                    Some(reason) => {
                        let mut q = crate::model::new_description();
                        q.instance_id = crate::model::copy_id_option(&d.instance_id);
                        q.kill_instance_request = Some(KillInstanceRequest { kill_reason: reason, timestamp_ms: Some(*now) });
                        assert(q@ =~= reaper_request(key_of(d@), reason, now.timestamp_ms));
                        let ghost before = r@;
                        r.push(q);
                        proof {
                            picked = picked.push(i as int);
                            assert(picked[picked.len() - 1] == i);
                        }
                        proof {
                            assert forall|j: int| 0 <= j < i + 1 && is_alive(#[trigger] self.record_spec(j)->Some_0) && kill_reason_for(self.record_spec(j)->Some_0, now.timestamp_ms) is Some
                                implies exists|a: int| 0 <= a < r@.len() && key_of((#[trigger] r@[a])@) == key_of(self.record_spec(j)->Some_0) by {
                                if j < i {
                                    let a = choose|a: int| 0 <= a < before.len() && key_of((#[trigger] before[a])@) == key_of(self.record_spec(j)->Some_0);
                                    assert(r@[a] == before[a]);
                                } else {
                                    assert(key_of(r@[r@.len() - 1]@) == key_of(d@));
                                }
                            }
                        }
                    },
                    None => {},
                }
            }
            i = i + 1;
        }
        proof {
            assert forall|k: Seq<char>| flagged(self@, k, now.timestamp_ms) implies (exists|a: int| 0 <= a < r@.len() && key_of((#[trigger] r@[a])@) == k) by {
                let j = self.lemma_index_of(k);
            }
            assert forall|a: int, b: int| 0 <= a < r@.len() && 0 <= b < r@.len() && a != b implies key_of((#[trigger] r@[a])@) != key_of(
                (#[trigger] r@[b])@,
            ) by {
                if a < b {
                    assert(picked[a] < picked[b]);
                } else {
                    assert(picked[b] < picked[a]);
                }
                self.lemma_keys_distinct(picked[a], picked[b]);
            }
        }
        r
    }

    /// One reaper pass at time `now`: every instance the rules flag is dead
    /// afterwards (killed for its reason, or earlier in the pass by the
    /// cascade from a flagged ancestor); every other instance it kills is a
    /// live descendant of a flagged one; the others are untouched.
    pub fn kill_unhealth_instances(&mut self, now: &TimestampMs)
        requires
            old(self).wf(),
        ensures
            final(self).wf(),
            pass_so_far(old(self)@, final(self)@, now.timestamp_ms),
            forall|k: Seq<char>| flagged(old(self)@, k, now.timestamp_ms) ==> !is_alive(#[trigger] final(self)@[k]),
            forall|k: Seq<char>| flagged(old(self)@, k, now.timestamp_ms) && !below_flagged(old(self)@, k, now.timestamp_ms)
                ==> (#[trigger] final(self)@[k]).kill_instance_request == own_kill_record(old(self)@[k], now.timestamp_ms),
            forall|k: Seq<char>| old(self)@.contains_key(k) && is_alive(old(self)@[k]) && !flagged(old(self)@, k, now.timestamp_ms)
                && !is_alive(#[trigger] final(self)@[k]) ==> final(self)@[k].kill_instance_request == parent_dead_record(now.timestamp_ms),
    {
        let requests = self.get_unhealth_instances(now);
        assert(pass_so_far(old(self)@, self@, now.timestamp_ms));
        assert forall|a: int| 0 <= a < requests@.len() && !below_flagged(old(self)@, key_of((#[trigger] requests@[a])@), now.timestamp_ms)
            implies is_alive(self@[key_of(requests@[a]@)]) by {
            assert(flagged(old(self)@, key_of(requests@[a]@), now.timestamp_ms));
        }
        let mut i: usize = 0;
        while i < requests.len()
            invariant
                self.wf(),
                i <= requests@.len(),
                pass_so_far(old(self)@, self@, now.timestamp_ms),
                forall|a: int| 0 <= a < requests@.len() ==> (#[trigger] requests@[a])@ == reaper_request(
                    key_of(requests@[a]@),
                    kill_reason_for(old(self)@[key_of(requests@[a]@)], now.timestamp_ms)->Some_0,
                    now.timestamp_ms,
                ),
                forall|k: Seq<char>| (exists|a: int| 0 <= a < requests@.len() && key_of((#[trigger] requests@[a])@) == k) <==> flagged(
                    old(self)@,
                    k,
                    now.timestamp_ms,
                ),
                forall|a: int| 0 <= a < i ==> !is_alive(self@[key_of((#[trigger] requests@[a])@)]),
                forall|a: int, b: int| 0 <= a < requests@.len() && 0 <= b < requests@.len() && a != b ==> key_of((#[trigger] requests@[a])@) != key_of(
                    (#[trigger] requests@[b])@,
                ),
                forall|a: int| i <= a < requests@.len() && !below_flagged(old(self)@, key_of((#[trigger] requests@[a])@), now.timestamp_ms)
                    ==> is_alive(self@[key_of(requests@[a]@)]),
                forall|a: int| 0 <= a < i && !below_flagged(old(self)@, key_of((#[trigger] requests@[a])@), now.timestamp_ms)
                    ==> self@[key_of(requests@[a]@)].kill_instance_request == own_kill_record(old(self)@[key_of(requests@[a]@)], now.timestamp_ms),
            decreases requests@.len() - i,
        {
            let ghost cur = self@;
            let ghost k = key_of(requests@[i as int]@);
            proof {
                assert(flagged(old(self)@, k, now.timestamp_ms));
                lemma_kill_request_effect(cur, k, kill_reason_for(old(self)@[k], now.timestamp_ms)->Some_0, now.timestamp_ms);
                lemma_pass_step(old(self)@, cur, k, kill_reason_for(old(self)@[k], now.timestamp_ms)->Some_0, now.timestamp_ms);
            }
            let _ = self.try_update_instance_description(&requests[i], now.timestamp_ms);
            proof {
                let o = old(self)@;
                let t = now.timestamp_ms;
                assert(self@ == reap_step(cur, k, kill_reason_for(o[k], t)->Some_0, t));
                assert forall|a: int| 0 <= a < i + 1 implies !is_alive(self@[key_of((#[trigger] requests@[a])@)]) by {
                    if a < i {
                        let ka = key_of(requests@[a]@);
                        assert(flagged(o, ka, t));
                        assert(cur.contains_key(ka) && !is_alive(cur[ka]));
                    }
                }
                assert forall|a: int| 0 <= a < i + 1 && !below_flagged(o, key_of((#[trigger] requests@[a])@), t)
                    implies self@[key_of(requests@[a]@)].kill_instance_request == own_kill_record(o[key_of(requests@[a]@)], t) by {
                    if a < i {
                        let ka = key_of(requests@[a]@);
                        assert(flagged(o, ka, t));
                        assert(cur.contains_key(ka) && !is_alive(cur[ka]));
                    }
                }
                assert forall|a: int| i + 1 <= a < requests@.len() && !below_flagged(o, key_of((#[trigger] requests@[a])@), t)
                    implies is_alive(self@[key_of(requests@[a]@)]) by {
                    let ka = key_of(requests@[a]@);
                    assert(ka != k);
                    assert(flagged(o, ka, t));
                    assert(cur.contains_key(ka) && is_alive(cur[ka]));
                    if !is_alive(self@[ka]) {
                        assert(killed_as(o, self@, ka, t));
                        assert(self@[ka].kill_instance_request != own_kill_record(o[ka], t));
                    }
                }
            }
            i = i + 1;
        }
        proof {
            assert forall|k: Seq<char>| flagged(old(self)@, k, now.timestamp_ms) implies !is_alive(#[trigger] self@[k]) by {
                let a = choose|a: int| 0 <= a < requests@.len() && key_of((#[trigger] requests@[a])@) == k;
            }
            assert forall|k: Seq<char>| flagged(old(self)@, k, now.timestamp_ms) && !below_flagged(old(self)@, k, now.timestamp_ms)
                implies (#[trigger] self@[k]).kill_instance_request == own_kill_record(old(self)@[k], now.timestamp_ms) by {
                let a = choose|a: int| 0 <= a < requests@.len() && key_of((#[trigger] requests@[a])@) == k;
            }
            assert forall|k: Seq<char>| old(self)@.contains_key(k) && is_alive(old(self)@[k]) && !flagged(old(self)@, k, now.timestamp_ms)
                && !is_alive(#[trigger] self@[k]) implies self@[k].kill_instance_request == parent_dead_record(now.timestamp_ms) by {
                assert(self@.contains_key(k));
                assert(killed_as(old(self)@, self@, k, now.timestamp_ms));
            }
        }
    }
}

} // verus!

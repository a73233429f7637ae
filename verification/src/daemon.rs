//! The monitor registry and its reconciler, and the debounced switch
//! controller.
//!
//! `DaemonState` is the process-lifetime aggregate: the bindings loaded at
//! startup (read-only afterwards) and the registry of running per-device
//! monitors. `reconcile` aligns the registry with one enumeration pass and
//! returns a plan of monitors to start and to stop; the surrounding runtime
//! opens the devices, spawns and cancels the tasks, and reports a failed
//! start back through `monitor_start_failed` so the device is retried on the
//! next pass.

use vstd::prelude::*;

use crate::KeyboardIdentity;
use crate::config::LayoutBinding;
use crate::input::Keyboard;

verus! {

/// One running per-device monitor, owned exclusively by the registry:
/// enough identity to log and to be cancelled by the surrounding runtime.
pub struct MonitorHandle {
    pub identity: KeyboardIdentity,
    pub display_name: String,
    pub layout_index: u32,
}

/// An instruction to start monitoring one newly visible configured device.
pub struct StartMonitor {
    pub identity: KeyboardIdentity,
    pub display_name: String,
    pub layout_index: u32,
    pub device_path: String,
}

/// What one reconciliation pass asks the surrounding runtime to do.
pub struct ReconcilePlan {
    pub to_start: Vec<StartMonitor>,
    pub to_stop: Vec<MonitorHandle>,
}

/// The process-lifetime aggregate, mutated only by the reconciler.
pub struct DaemonState {
    pub layout_map: Vec<LayoutBinding>,
    pub monitors: Vec<MonitorHandle>,
}

/// Some enumerated keyboard has this identity.
pub open spec fn present_has(present: Seq<Keyboard>, id: KeyboardIdentity) -> bool {
    exists|k: int| 0 <= k < present.len() && present[k].spec_identity() == id
}

/// The started monitor `h` carries exactly what the instruction `s` said.
pub open spec fn handle_for_start(s: StartMonitor, h: MonitorHandle) -> bool {
    &&& h.identity == s.identity
    &&& h.display_name@ == s.display_name@
    &&& h.layout_index == s.layout_index
}

impl DaemonState {
    /// A binding exists for this identity.
    pub open spec fn is_bound(&self, id: KeyboardIdentity) -> bool {
        exists|k: int| 0 <= k < self.layout_map@.len() && self.layout_map@[k].identity == id
    }

    /// A monitor is running for this identity.
    pub open spec fn has_monitor(&self, id: KeyboardIdentity) -> bool {
        exists|k: int| 0 <= k < self.monitors@.len() && self.monitors@[k].identity == id
    }

    /// Well-formedness: one binding per identity, one monitor per identity,
    /// and monitors only for bound identities.
    pub open spec fn wf(&self) -> bool {
        &&& forall|a: int, b: int|
            0 <= a < b < self.layout_map@.len() ==> self.layout_map@[a].identity
                != self.layout_map@[b].identity
        &&& forall|a: int, b: int|
            0 <= a < b < self.monitors@.len() ==> self.monitors@[a].identity
                != self.monitors@[b].identity
        &&& forall|k: int|
            0 <= k < self.monitors@.len() ==> self.is_bound(#[trigger] self.monitors@[k].identity)
    }

    /// A fresh state: the given bindings, no monitors. The bindings must
    /// already be one-per-identity, as `dedup_bindings` leaves them.
    pub fn from_bindings(layout_map: Vec<LayoutBinding>) -> (r: DaemonState)
        requires
            forall|a: int, b: int|
                0 <= a < b < layout_map@.len() ==> layout_map@[a].identity
                    != layout_map@[b].identity,
        ensures
            r.wf(),
            r.layout_map == layout_map,
            r.monitors@.len() == 0,
    {
        DaemonState { layout_map, monitors: Vec::new() }
    }

    /// Whether a monitor is running for `id`.
    pub fn has_monitor_exec(&self, id: KeyboardIdentity) -> (r: bool)
        ensures
            r == self.has_monitor(id),
    {
        let mut k: usize = 0;
        while k < self.monitors.len()
            invariant
                k <= self.monitors@.len(),
                forall|t: int| 0 <= t < k ==> self.monitors@[t].identity != id,
            decreases self.monitors@.len() - k,
        {
            if self.monitors[k].identity == id {
                proof {
                    assert(self.monitors@[k as int].identity == id);
                }
                return true;
            }
            k += 1;
        }
        false
    }

    /// The position of the binding for `id`, if one exists.
    fn find_binding(&self, id: KeyboardIdentity) -> (r: Option<usize>)
        ensures
            match r {
                Some(bi) => bi < self.layout_map@.len() && self.layout_map@[bi as int].identity
                    == id,
                None => !self.is_bound(id),
            },
    {
        let mut k: usize = 0;
        while k < self.layout_map.len()
            invariant
                k <= self.layout_map@.len(),
                forall|t: int| 0 <= t < k ==> self.layout_map@[t].identity != id,
            decreases self.layout_map@.len() - k,
        {
            if self.layout_map[k].identity == id {
                return Some(k);
            }
            k += 1;
        }
        None
    }
}

/// Whether the enumeration `present` contains a keyboard with this identity.
pub fn present_has_exec(present: &Vec<Keyboard>, id: KeyboardIdentity) -> (r: bool)
    ensures
        r == present_has(present@, id),
{
    let mut k: usize = 0;
    while k < present.len()
        invariant
            k <= present@.len(),
            forall|t: int| 0 <= t < k ==> present@[t].spec_identity() != id,
        decreases present@.len() - k,
    {
        if present[k].identity() == id {
            proof {
                assert(present@[k as int].spec_identity() == id);
            }
            return true;
        }
        k += 1;
    }
    false
}

/// The start instruction `s` is sound against the state before the pass: it
/// names a bound identity with its binding's name and layout, a device of
/// that identity was enumerated at the given path, and no monitor was
/// running for it.
pub open spec fn start_ok(pre: DaemonState, present: Seq<Keyboard>, s: StartMonitor) -> bool {
    &&& exists|k: int|
        0 <= k < pre.layout_map@.len() && (#[trigger] pre.layout_map@[k]).identity == s.identity
            && pre.layout_map@[k].display_name@ == s.display_name@ && pre.layout_map@[k].layout_index
            == s.layout_index
    &&& exists|k: int|
        0 <= k < present.len() && (#[trigger] present[k]).spec_identity() == s.identity
            && present[k].device_path@ == s.device_path@
    &&& !pre.has_monitor(s.identity)
}

/// Everything one reconciliation pass guarantees: the bindings are
/// untouched; afterwards a monitor runs for exactly the enumerated
/// identities that are bound or were already monitored; surviving monitors
/// are the very handles that were running before; the plan stops exactly
/// the monitors whose device vanished and starts exactly the bound, newly
/// visible identities, once each.
pub open spec fn reconcile_post(
    pre: DaemonState,
    post: DaemonState,
    present: Seq<Keyboard>,
    plan: ReconcilePlan,
) -> bool {
    &&& post.layout_map == pre.layout_map
    &&& forall|id: KeyboardIdentity|
        #[trigger] post.has_monitor(id) <==> (present_has(present, id) && (pre.is_bound(id)
            || pre.has_monitor(id)))
    &&& forall|h: MonitorHandle|
        #[trigger] pre.monitors@.contains(h) && present_has(present, h.identity)
            ==> post.monitors@.contains(h)
    &&& forall|h: MonitorHandle|
        #[trigger] post.monitors@.contains(h) ==> pre.monitors@.contains(h) || (exists|t: int|
            0 <= t < plan.to_start@.len() && handle_for_start(plan.to_start@[t], h))
    &&& forall|h: MonitorHandle|
        #[trigger] plan.to_stop@.contains(h) <==> (pre.monitors@.contains(h) && !present_has(
            present,
            h.identity,
        ))
    &&& forall|s: StartMonitor| #[trigger] plan.to_start@.contains(s) ==> start_ok(pre, present, s)
    &&& forall|id: KeyboardIdentity|
        (exists|t: int|
            0 <= t < plan.to_start@.len() && (#[trigger] plan.to_start@[t]).identity == id) <==> (
        present_has(present, id) && pre.is_bound(id) && !pre.has_monitor(id))
    &&& forall|t1: int, t2: int|
        0 <= t1 < t2 < plan.to_start@.len() ==> plan.to_start@[t1].identity
            != plan.to_start@[t2].identity
    &&& post.monitors@.len() + plan.to_stop@.len() == pre.monitors@.len() + plan.to_start@.len()
}

impl DaemonState {
    /// One reconciliation pass against the enumeration `present`: starts a
    /// monitor for each bound, newly visible identity and removes the
    /// monitors of identities no longer enumerated, leaving running
    /// monitors untouched. Re-running with an unchanged topology is a
    /// no-op.
    #[verifier::loop_isolation(false)]
    pub fn reconcile(&mut self, present: &Vec<Keyboard>) -> (plan: ReconcilePlan)
        requires
            old(self).wf(),
        ensures
            final(self).wf(),
            reconcile_post(*old(self), *final(self), present@, plan),
    {
        let ghost pre = *old(self);
        let mut to_start: Vec<StartMonitor> = Vec::new();
        let mut i: usize = 0;
        while i < present.len()
            invariant
                pre.wf(),
                self.wf(),
                self.layout_map == pre.layout_map,
                i <= present@.len(),
                self.monitors@.len() == pre.monitors@.len() + to_start@.len(),
                self.monitors@.subrange(0, pre.monitors@.len() as int) == pre.monitors@,
                forall|t: int|
                    0 <= t < to_start@.len() ==> handle_for_start(
                        #[trigger] to_start@[t],
                        self.monitors@[pre.monitors@.len() + t],
                    ),
                forall|s: StartMonitor|
                    #[trigger] to_start@.contains(s) ==> start_ok(pre, present@, s),
                forall|id: KeyboardIdentity|
                    #[trigger] self.has_monitor(id) <==> (pre.has_monitor(id) || (pre.is_bound(id)
                        && exists|j: int|
                        0 <= j < i && present@[j].spec_identity() == id)),
                forall|t: int|
                    0 <= t < to_start@.len() ==> pre.is_bound(
                        (#[trigger] to_start@[t]).identity,
                    ) && !pre.has_monitor(to_start@[t].identity) && exists|j: int|
                        0 <= j < i && present@[j].spec_identity() == to_start@[t].identity,
                forall|id: KeyboardIdentity|
                    #![trigger pre.has_monitor(id)]
                    (pre.is_bound(id) && !pre.has_monitor(id) && exists|j: int|
                        0 <= j < i && present@[j].spec_identity() == id) ==> exists|t: int|
                        0 <= t < to_start@.len() && to_start@[t].identity == id,
                forall|t1: int, t2: int|
                    0 <= t1 < t2 < to_start@.len() ==> to_start@[t1].identity
                        != to_start@[t2].identity,
            decreases present@.len() - i,
        {
            let ghost st1 = *self;
            let ghost mon1 = self.monitors@;
            let ghost ts1 = to_start@;
            let id = present[i].identity();
            if !self.has_monitor_exec(id) {
                match self.find_binding(id) {
                    Some(bi) => {
                        proof {
                            assert(self.layout_map@ == pre.layout_map@);
                            assert(pre.layout_map@[bi as int].identity == id);
                            assert(present@[i as int].spec_identity() == id);
                            assert(!pre.has_monitor(id));
                        }
                        let name = self.layout_map[bi].display_name.clone();
                        let layout = self.layout_map[bi].layout_index;
                        let path = present[i].device_path.clone();
                        self.monitors.push(
                            MonitorHandle {
                                identity: id,
                                display_name: name.clone(),
                                layout_index: layout,
                            },
                        );
                        to_start.push(
                            StartMonitor {
                                identity: id,
                                display_name: name,
                                layout_index: layout,
                                device_path: path,
                            },
                        );
                        proof {
                            assert(self.monitors@.subrange(0, pre.monitors@.len() as int)
                                =~= pre.monitors@);
                            assert(forall|t: int| 0 <= t < ts1.len() ==> to_start@[t] == ts1[t]);
                            assert(forall|k: int|
                                0 <= k < mon1.len() ==> self.monitors@[k] == mon1[k]);
                            assert(to_start@[ts1.len() as int].identity == id);
                            assert(self.monitors@[mon1.len() as int].identity == id);
                            // started monitors carry what the instruction said
                            assert forall|t: int| 0 <= t < to_start@.len() implies handle_for_start(
                                #[trigger] to_start@[t],
                                self.monitors@[pre.monitors@.len() + t],
                            ) by {
                                if t < ts1.len() {
                                    assert(handle_for_start(
                                        ts1[t],
                                        mon1[pre.monitors@.len() + t],
                                    ));
                                }
                            }
                            // the new monitor is the only membership change
                            assert forall|x: KeyboardIdentity| #[trigger]
                                self.has_monitor(x) implies (pre.has_monitor(x) || (pre.is_bound(x)
                                && exists|j: int|
                                0 <= j < i + 1 && present@[j].spec_identity() == x)) by {
                                let k = choose|k: int|
                                    0 <= k < self.monitors@.len() && self.monitors@[k].identity
                                        == x;
                                if k < mon1.len() {
                                    assert(mon1[k].identity == x);
                                    assert(st1.has_monitor(x));
                                } else {
                                    assert(x == id);
                                }
                            }
                            assert forall|x: KeyboardIdentity|
                                (pre.has_monitor(x) || (pre.is_bound(x) && exists|j: int|
                                    0 <= j < i + 1 && present@[j].spec_identity()
                                        == x)) implies #[trigger] self.has_monitor(x) by {
                                if pre.has_monitor(x) || (pre.is_bound(x) && exists|j: int|
                                    0 <= j < i && present@[j].spec_identity() == x) {
                                    assert(st1.has_monitor(x));
                                    let k = choose|k: int|
                                        0 <= k < mon1.len() && mon1[k].identity == x;
                                    assert(self.monitors@[k].identity == x);
                                } else {
                                    assert(x == id);
                                    assert(self.monitors@[mon1.len() as int].identity == x);
                                }
                            }
                            // start instruction soundness
                            assert forall|s: StartMonitor| #[trigger]
                                to_start@.contains(s) implies start_ok(pre, present@, s) by {
                                if !ts1.contains(s) {
                                    let t = choose|t: int|
                                        0 <= t < to_start@.len() && to_start@[t] == s;
                                    assert(t == ts1.len());
                                }
                            }
                            // bookkeeping for the started list
                            assert forall|t: int| 0 <= t < to_start@.len() implies pre.is_bound(
                                (#[trigger] to_start@[t]).identity,
                            ) && !pre.has_monitor(to_start@[t].identity) && exists|j: int|
                                0 <= j < i + 1 && present@[j].spec_identity()
                                    == to_start@[t].identity by {
                                if t < ts1.len() {
                                    assert(ts1[t].identity == to_start@[t].identity);
                                } else {
                                    assert(to_start@[t].identity == id);
                                }
                            }
                            assert forall|x: KeyboardIdentity|
                                (pre.is_bound(x) && !pre.has_monitor(x) && exists|j: int|
                                    0 <= j < i + 1 && present@[j].spec_identity()
                                        == x) implies exists|t: int|
                                0 <= t < to_start@.len() && to_start@[t].identity == x by {
                                if exists|j: int| 0 <= j < i && present@[j].spec_identity() == x {
                                    let t = choose|t: int|
                                        0 <= t < ts1.len() && ts1[t].identity == x;
                                    assert(to_start@[t].identity == x);
                                } else {
                                    assert(x == id);
                                    assert(to_start@[ts1.len() as int].identity == x);
                                }
                            }
                            // the new identity was not started before
                            assert forall|t1: int, t2: int|
                                0 <= t1 < t2 < to_start@.len() implies to_start@[t1].identity
                                != to_start@[t2].identity by {
                                if t2 == ts1.len() {
                                    if ts1[t1].identity == id {
                                        assert(handle_for_start(
                                            ts1[t1],
                                            mon1[pre.monitors@.len() + t1],
                                        ));
                                        assert(st1.monitors@[pre.monitors@.len() + t1].identity
                                            == id);
                                        assert(st1.has_monitor(id));
                                    }
                                } else {
                                    assert(ts1[t1].identity != ts1[t2].identity);
                                }
                            }
                        }
                    },
                    None => {
                        proof {
                            assert(self.layout_map@ == pre.layout_map@);
                            assert(!pre.is_bound(id));
                            assert(present@[i as int].spec_identity() == id);
                            assert forall|x: KeyboardIdentity| #[trigger]
                                self.has_monitor(x) implies (pre.has_monitor(x) || (pre.is_bound(x)
                                && exists|j: int|
                                0 <= j < i + 1 && present@[j].spec_identity() == x)) by {
                                assert(pre.has_monitor(x) || (pre.is_bound(x) && exists|j: int|
                                    0 <= j < i && present@[j].spec_identity() == x));
                            }
                            assert forall|x: KeyboardIdentity|
                                (pre.has_monitor(x) || (pre.is_bound(x) && exists|j: int|
                                    0 <= j < i + 1 && present@[j].spec_identity()
                                        == x)) implies #[trigger] self.has_monitor(x) by {
                                if !(pre.has_monitor(x) || (pre.is_bound(x) && exists|j: int|
                                    0 <= j < i && present@[j].spec_identity() == x)) {
                                    let j = choose|j: int|
                                        0 <= j < i + 1 && present@[j].spec_identity() == x;
                                    assert(j == i);
                                    assert(x == id);
                                    assert(false);
                                }
                            }
                            assert forall|x: KeyboardIdentity|
                                (pre.is_bound(x) && !pre.has_monitor(x) && exists|j: int|
                                    0 <= j < i + 1 && present@[j].spec_identity()
                                        == x) implies exists|t: int|
                                0 <= t < to_start@.len() && to_start@[t].identity == x by {
                                if !(exists|j: int|
                                    0 <= j < i && present@[j].spec_identity() == x) {
                                    let j = choose|j: int|
                                        0 <= j < i + 1 && present@[j].spec_identity() == x;
                                    assert(x == id);
                                    assert(false);
                                }
                            }
                        }
                    },
                }
            } else {
                proof {
                    assert(self.has_monitor(id));
                    assert(present@[i as int].spec_identity() == id);
                    assert forall|x: KeyboardIdentity| #[trigger] self.has_monitor(x) implies (
                    pre.has_monitor(x) || (pre.is_bound(x) && exists|j: int|
                        0 <= j < i + 1 && present@[j].spec_identity() == x)) by {
                        assert(pre.has_monitor(x) || (pre.is_bound(x) && exists|j: int|
                            0 <= j < i && present@[j].spec_identity() == x));
                    }
                    assert forall|x: KeyboardIdentity|
                        (pre.has_monitor(x) || (pre.is_bound(x) && exists|j: int|
                            0 <= j < i + 1 && present@[j].spec_identity()
                                == x)) implies #[trigger] self.has_monitor(x) by {
                        if !(pre.has_monitor(x) || (pre.is_bound(x) && exists|j: int|
                            0 <= j < i && present@[j].spec_identity() == x)) {
                            let j = choose|j: int|
                                0 <= j < i + 1 && present@[j].spec_identity() == x;
                            assert(x == id);
                        }
                    }
                    assert forall|x: KeyboardIdentity|
                        (pre.is_bound(x) && !pre.has_monitor(x) && exists|j: int|
                            0 <= j < i + 1 && present@[j].spec_identity()
                                == x) implies exists|t: int|
                        0 <= t < to_start@.len() && to_start@[t].identity == x by {
                        if !(exists|j: int| 0 <= j < i && present@[j].spec_identity() == x) {
                            let j = choose|j: int|
                                0 <= j < i + 1 && present@[j].spec_identity() == x;
                            assert(x == id);
                            assert(!pre.has_monitor(x) && pre.is_bound(x));
                            assert(exists|j2: int|
                                0 <= j2 < i && present@[j2].spec_identity() == x);
                        }
                    }
                }
            }
            i += 1;
        }
        // Remove the monitors of identities that are no longer enumerated.
        let ghost midst = *self;
        let ghost mid = self.monitors@;
        let mut kept: Vec<MonitorHandle> = Vec::new();
        let mut stopped: Vec<MonitorHandle> = Vec::new();
        while self.monitors.len() > 0
            invariant
                pre.wf(),
                self.layout_map == pre.layout_map,
                forall|a: int, b: int|
                    0 <= a < b < mid.len() ==> mid[a].identity != mid[b].identity,
                forall|k: int| 0 <= k < mid.len() ==> pre.is_bound(#[trigger] mid[k].identity),
                self.monitors@ == mid.subrange(0, self.monitors@.len() as int),
                self.monitors@.len() <= mid.len(),
                kept@.len() + stopped@.len() + self.monitors@.len() == mid.len(),
                forall|t: int|
                    0 <= t < kept@.len() ==> mid.contains(#[trigger] kept@[t]) && present_has(
                        present@,
                        kept@[t].identity,
                    ),
                forall|t: int|
                    0 <= t < stopped@.len() ==> mid.contains(#[trigger] stopped@[t])
                        && !present_has(present@, stopped@[t].identity),
                forall|k: int|
                    self.monitors@.len() <= k < mid.len() && present_has(
                        present@,
                        (#[trigger] mid[k]).identity,
                    ) ==> kept@.contains(mid[k]),
                forall|k: int|
                    self.monitors@.len() <= k < mid.len() && !present_has(
                        present@,
                        (#[trigger] mid[k]).identity,
                    ) ==> stopped@.contains(mid[k]),
                forall|t: int, k: int|
                    0 <= t < kept@.len() && 0 <= k < self.monitors@.len() ==> (
                    #[trigger] kept@[t]).identity != (#[trigger] self.monitors@[k]).identity,
                forall|t1: int, t2: int|
                    0 <= t1 < t2 < kept@.len() ==> kept@[t1].identity != kept@[t2].identity,
            decreases self.monitors@.len(),
        {
            let ghost cur1 = self.monitors@;
            let h = self.monitors.pop().unwrap();
            proof {
                assert(self.monitors@ =~= mid.subrange(0, self.monitors@.len() as int));
                assert(h == mid[self.monitors@.len() as int]);
                assert(h == cur1[cur1.len() - 1]);
            }
            if present_has_exec(present, h.identity) {
                let ghost kept1 = kept@;
                kept.push(h);
                proof {
                    let l1 = self.monitors@.len() as int;
                    assert(forall|t: int| 0 <= t < kept1.len() ==> kept@[t] == kept1[t]);
                    assert(kept@[kept1.len() as int] == h);
                    assert(mid[l1] == h);
                    assert(mid.contains(h));
                    assert forall|k: int|
                        l1 <= k < mid.len() && present_has(
                            present@,
                            (#[trigger] mid[k]).identity,
                        ) implies kept@.contains(mid[k]) by {
                        if k == l1 {
                            assert(kept@[kept1.len() as int] == mid[k]);
                        } else {
                            assert(kept1.contains(mid[k]));
                            let t = choose|t: int| 0 <= t < kept1.len() && kept1[t] == mid[k];
                            assert(kept@[t] == mid[k]);
                        }
                    }
                    assert forall|k: int|
                        l1 <= k < mid.len() && !present_has(
                            present@,
                            (#[trigger] mid[k]).identity,
                        ) implies stopped@.contains(mid[k]) by {
                        assert(k != l1);
                    }
                    // the popped handle's identity is new to `kept`
                    assert forall|t1: int, t2: int|
                        0 <= t1 < t2 < kept@.len() implies kept@[t1].identity
                        != kept@[t2].identity by {
                        if t2 == kept1.len() {
                            assert(kept1[t1].identity != cur1[cur1.len() - 1].identity);
                        }
                    }
                }
            } else {
                let ghost stopped1 = stopped@;
                stopped.push(h);
                proof {
                    let l1 = self.monitors@.len() as int;
                    assert(forall|t: int| 0 <= t < stopped1.len() ==> stopped@[t] == stopped1[t]);
                    assert(stopped@[stopped1.len() as int] == h);
                    assert(mid[l1] == h);
                    assert(mid.contains(h));
                    assert forall|k: int|
                        l1 <= k < mid.len() && !present_has(
                            present@,
                            (#[trigger] mid[k]).identity,
                        ) implies stopped@.contains(mid[k]) by {
                        if k == l1 {
                            assert(stopped@[stopped1.len() as int] == mid[k]);
                        } else {
                            assert(stopped1.contains(mid[k]));
                            let t = choose|t: int|
                                0 <= t < stopped1.len() && stopped1[t] == mid[k];
                            assert(stopped@[t] == mid[k]);
                        }
                    }
                    assert forall|k: int|
                        l1 <= k < mid.len() && present_has(
                            present@,
                            (#[trigger] mid[k]).identity,
                        ) implies kept@.contains(mid[k]) by {
                        assert(k != l1);
                    }
                }
            }
        }
        let ghost keptv = kept@;
        let ghost stoppedv = stopped@;
        let ghost startv = to_start@;
        self.monitors = kept;
        let plan = ReconcilePlan { to_start, to_stop: stopped };
        proof {
            let post = *self;
            let pn = present@;
            assert(post.monitors@ == keptv);
            assert(plan.to_stop@ == stoppedv);
            assert(plan.to_start@ == startv);
            assert(post.layout_map@ == pre.layout_map@);
            assert(midst.monitors@ == mid);
            assert(mid.len() == pre.monitors@.len() + startv.len());
            assert(mid.subrange(0, pre.monitors@.len() as int) == pre.monitors@);
            // Monitors now run for exactly the enumerated identities that
            // are bound or were already monitored.
            assert forall|id: KeyboardIdentity| #[trigger] post.has_monitor(id) implies (
            present_has(pn, id) && (pre.is_bound(id) || pre.has_monitor(id))) by {
                let t = choose|t: int| 0 <= t < keptv.len() && keptv[t].identity == id;
                assert(mid.contains(keptv[t]) && present_has(pn, keptv[t].identity));
                let k = choose|k: int| 0 <= k < mid.len() && mid[k] == keptv[t];
                assert(mid[k].identity == id);
                assert(midst.has_monitor(id));
            }
            assert forall|id: KeyboardIdentity|
                present_has(pn, id) && (pre.is_bound(id)
                    || pre.has_monitor(id)) implies #[trigger] post.has_monitor(id) by {
                assert(midst.has_monitor(id));
                let k = choose|k: int| 0 <= k < mid.len() && mid[k].identity == id;
                assert(present_has(pn, mid[k].identity));
                assert(keptv.contains(mid[k]));
                let t = choose|t: int| 0 <= t < keptv.len() && keptv[t] == mid[k];
                assert(post.monitors@[t].identity == id);
            }
            // Surviving monitors are the very handles that were running.
            assert forall|h: MonitorHandle| #[trigger]
                pre.monitors@.contains(h) && present_has(pn, h.identity) implies post
                .monitors@.contains(h) by {
                let k = choose|k: int|
                    0 <= k < pre.monitors@.len() && pre.monitors@[k] == h;
                assert(mid[k] == h);
                assert(present_has(pn, mid[k].identity));
                assert(keptv.contains(mid[k]));
            }
            // Every running monitor is an old one or a started one.
            assert forall|h: MonitorHandle| #[trigger] post.monitors@.contains(h) implies (
            pre.monitors@.contains(h) || (exists|t: int|
                0 <= t < plan.to_start@.len() && handle_for_start(plan.to_start@[t], h))) by {
                let t = choose|t: int| 0 <= t < keptv.len() && keptv[t] == h;
                assert(mid.contains(h));
                let k = choose|k: int| 0 <= k < mid.len() && mid[k] == h;
                if k < pre.monitors@.len() {
                    assert(pre.monitors@[k] == h);
                } else {
                    let t2 = k - pre.monitors@.len();
                    assert(handle_for_start(startv[t2], mid[pre.monitors@.len() + t2]));
                }
            }
            // Stopped: exactly the old monitors whose device vanished.
            assert forall|h: MonitorHandle| #[trigger] plan.to_stop@.contains(h) implies (
            pre.monitors@.contains(h) && !present_has(pn, h.identity)) by {
                let t = choose|t: int| 0 <= t < stoppedv.len() && stoppedv[t] == h;
                assert(mid.contains(h) && !present_has(pn, h.identity));
                let k = choose|k: int| 0 <= k < mid.len() && mid[k] == h;
                if k >= pre.monitors@.len() {
                    let t2 = k - pre.monitors@.len();
                    assert(handle_for_start(startv[t2], mid[pre.monitors@.len() + t2]));
                    assert(startv[t2].identity == h.identity);
                    assert(exists|j: int|
                        0 <= j < pn.len() && pn[j].spec_identity() == h.identity);
                    assert(false);
                } else {
                    assert(pre.monitors@[k] == h);
                }
            }
            assert forall|h: MonitorHandle|
                pre.monitors@.contains(h) && !present_has(pn, h.identity) implies #[trigger] plan
                .to_stop@.contains(h) by {
                let k = choose|k: int|
                    0 <= k < pre.monitors@.len() && pre.monitors@[k] == h;
                assert(mid[k] == h);
                assert(!present_has(pn, mid[k].identity));
                assert(stoppedv.contains(mid[k]));
            }
            // Started: exactly the bound, newly visible identities.
            assert forall|id: KeyboardIdentity|
                (exists|t: int|
                    0 <= t < plan.to_start@.len()
                        && (#[trigger] plan.to_start@[t]).identity == id) implies (present_has(
                pn,
                id,
            ) && pre.is_bound(id) && !pre.has_monitor(id)) by {
                let t = choose|t: int| 0 <= t < startv.len() && startv[t].identity == id;
                assert(pre.is_bound(startv[t].identity) && !pre.has_monitor(startv[t].identity));
            }
            assert forall|id: KeyboardIdentity|
                present_has(pn, id) && pre.is_bound(id) && !pre.has_monitor(
                    id,
                ) implies (exists|t: int|
                0 <= t < plan.to_start@.len() && (#[trigger] plan.to_start@[t]).identity
                    == id) by {
                let t = choose|t: int| 0 <= t < startv.len() && startv[t].identity == id;
                assert(plan.to_start@[t].identity == id);
            }
            // Well-formedness survives: every kept monitor is still bound.
            assert forall|k: int| 0 <= k < post.monitors@.len() implies post.is_bound(
                #[trigger] post.monitors@[k].identity,
            ) by {
                assert(mid.contains(keptv[k]));
                let k2 = choose|k2: int| 0 <= k2 < mid.len() && mid[k2] == keptv[k];
                assert(pre.is_bound(mid[k2].identity));
                let kb = choose|kb: int|
                    0 <= kb < pre.layout_map@.len() && pre.layout_map@[kb].identity
                        == mid[k2].identity;
                assert(post.layout_map@[kb].identity == post.monitors@[k].identity);
            }
        }
        plan
    }
}

impl DaemonState {
    /// The surrounding runtime failed to open or start one planned monitor:
    /// forget its registry entry so the next pass retries it. One failed
    /// device never aborts the rest of a pass.
    #[verifier::loop_isolation(false)]
    pub fn monitor_start_failed(&mut self, id: KeyboardIdentity) -> (r: Option<MonitorHandle>)
        requires
            old(self).wf(),
        ensures
            final(self).wf(),
            final(self).layout_map == old(self).layout_map,
            forall|x: KeyboardIdentity|
                #[trigger] final(self).has_monitor(x) <==> (old(self).has_monitor(x) && x != id),
            forall|h: MonitorHandle|
                #[trigger] final(self).monitors@.contains(h) <==> (old(self).monitors@.contains(h)
                    && h.identity != id),
            r is Some <==> old(self).has_monitor(id),
    {
        let ghost pre = *old(self);
        let mut k: usize = 0;
        while k < self.monitors.len()
            invariant
                *self == pre,
                k <= self.monitors@.len(),
                forall|t: int| 0 <= t < k ==> self.monitors@[t].identity != id,
            decreases self.monitors@.len() - k,
        {
            if self.monitors[k].identity == id {
                let h = self.monitors.remove(k);
                proof {
                    pre.monitors@.remove_ensures(k as int);
                    assert(h.identity == id);
                    assert forall|x: KeyboardIdentity| #[trigger]
                        self.has_monitor(x) implies (pre.has_monitor(x) && x != id) by {
                        let t = choose|t: int|
                            0 <= t < self.monitors@.len() && self.monitors@[t].identity == x;
                        if t < k {
                            assert(pre.monitors@[t].identity == x);
                        } else {
                            assert(pre.monitors@[t + 1].identity == x);
                            assert(x != id);
                        }
                    }
                    assert forall|x: KeyboardIdentity|
                        pre.has_monitor(x) && x != id implies #[trigger] self.has_monitor(x) by {
                        let t = choose|t: int|
                            0 <= t < pre.monitors@.len() && pre.monitors@[t].identity == x;
                        assert(t != k);
                        if t < k {
                            assert(self.monitors@[t].identity == x);
                        } else {
                            assert(self.monitors@[t - 1].identity == x);
                        }
                    }
                    assert forall|h2: MonitorHandle| #[trigger]
                        self.monitors@.contains(h2) implies (pre.monitors@.contains(h2)
                        && h2.identity != id) by {
                        let t = choose|t: int|
                            0 <= t < self.monitors@.len() && self.monitors@[t] == h2;
                        if t < k {
                            assert(pre.monitors@[t] == h2);
                            assert(pre.monitors@[t].identity != pre.monitors@[k as int].identity);
                        } else {
                            assert(pre.monitors@[t + 1] == h2);
                            assert(pre.monitors@[t + 1].identity
                                != pre.monitors@[k as int].identity);
                        }
                    }
                    assert forall|h2: MonitorHandle|
                        pre.monitors@.contains(h2) && h2.identity != id implies #[trigger] self
                        .monitors@.contains(h2) by {
                        let t = choose|t: int|
                            0 <= t < pre.monitors@.len() && pre.monitors@[t] == h2;
                        assert(t != k);
                        if t < k {
                            assert(self.monitors@[t] == h2);
                        } else {
                            assert(self.monitors@[t - 1] == h2);
                        }
                    }
                    assert forall|a: int, b: int|
                        0 <= a < b < self.monitors@.len() implies self.monitors@[a].identity
                        != self.monitors@[b].identity by {
                        let pa: int = if a < k { a } else { a + 1 };
                        let pb: int = if b < k { b } else { b + 1 };
                        assert(self.monitors@[a] == pre.monitors@[pa]);
                        assert(self.monitors@[b] == pre.monitors@[pb]);
                    }
                    assert forall|t: int| 0 <= t < self.monitors@.len() implies self.is_bound(
                        #[trigger] self.monitors@[t].identity,
                    ) by {
                        let pt: int = if t < k { t } else { t + 1 };
                        assert(self.monitors@[t] == pre.monitors@[pt]);
                        assert(pre.is_bound(pre.monitors@[pt].identity));
                        let kb = choose|kb: int|
                            0 <= kb < pre.layout_map@.len() && pre.layout_map@[kb].identity
                                == pre.monitors@[pt].identity;
                        assert(self.layout_map@[kb].identity == self.monitors@[t].identity);
                    }
                }
                return Some(h);
            }
            k += 1;
        }
        None
    }
}

/// One key-down on a monitored device: the trigger for a switch attempt.
pub struct ActivationEvent {
    pub identity: KeyboardIdentity,
    pub target_layout_index: u32,
}

/// What the controller decided for one activation.
pub enum SwitchDecision {
    /// Debounce suppressed the event: no action, no state change.
    Suppressed,
    /// Issue a real switch to this layout, then report back through
    /// `record_switch` on success.
    Switch { target: u32 },
    /// Dry-run: log the switch that would have happened; the debounce state
    /// is already updated as if it had.
    DryRunSwitch { target: u32 },
}

/// The debounce window in milliseconds: an activation this soon after the
/// last switch is suppressed.
pub const DEBOUNCE_WINDOW_MS: u64 = 100;

/// The debounced switch controller: a state machine over the identity that
/// last caused a switch and the time of that switch (initialized to process
/// start). A single press can produce several activation signals in quick
/// succession, and rollover bursts and focus-change feedback produce more;
/// both rules below exist to absorb them.
pub struct DebounceController {
    pub dry_run: bool,
    pub last_identity: Option<KeyboardIdentity>,
    pub last_switch_ms: u64,
}

/// An activation is suppressed when it comes from the identity that caused
/// the last switch, or within the debounce window of the last switch.
pub open spec fn suppressed(c: DebounceController, id: KeyboardIdentity, now_ms: u64) -> bool {
    c.last_identity == Some(id) || now_ms - c.last_switch_ms <= DEBOUNCE_WINDOW_MS
}

/// Everything one `on_activation` call guarantees, as a relation between
/// the controller before (`c0`) and after (`c1`).
pub open spec fn activation_post(
    c0: DebounceController,
    c1: DebounceController,
    ev: ActivationEvent,
    now_ms: u64,
    d: SwitchDecision,
) -> bool {
    &&& c1.dry_run == c0.dry_run
    &&& if suppressed(c0, ev.identity, now_ms) {
        d == SwitchDecision::Suppressed && c1 == c0
    } else if c0.dry_run {
        d == (SwitchDecision::DryRunSwitch { target: ev.target_layout_index }) && c1.last_identity
            == Some(ev.identity) && c1.last_switch_ms == now_ms
    } else {
        d == (SwitchDecision::Switch { target: ev.target_layout_index }) && c1 == c0
    }
}

impl DebounceController {
    /// A fresh controller: no device has switched yet and the clock of the
    /// last switch is the process start.
    pub fn new(dry_run: bool, start_ms: u64) -> (r: DebounceController)
        ensures
            r.dry_run == dry_run,
            r.last_identity is None,
            r.last_switch_ms == start_ms,
    {
        DebounceController { dry_run, last_identity: None, last_switch_ms: start_ms }
    }

    /// Decides one activation at time `now_ms` (a monotone clock). A
    /// suppressed event changes nothing. Otherwise, in dry-run the debounce
    /// state advances as if the switch had been issued, mirroring live
    /// timing; in live mode the state advances only when the caller reports
    /// the switch succeeded, so a failed switch can be retried on the
    /// device's next press.
    pub fn on_activation(&mut self, ev: &ActivationEvent, now_ms: u64) -> (d: SwitchDecision)
        requires
            now_ms >= old(self).last_switch_ms,
        ensures
            activation_post(*old(self), *final(self), *ev, now_ms, d),
    {
        let same = match &self.last_identity {
            Some(last) => *last == ev.identity,
            None => false,
        };
        if same || now_ms - self.last_switch_ms <= DEBOUNCE_WINDOW_MS {
            SwitchDecision::Suppressed
        } else if self.dry_run {
            self.last_identity = Some(ev.identity);
            self.last_switch_ms = now_ms;
            SwitchDecision::DryRunSwitch { target: ev.target_layout_index }
        } else {
            SwitchDecision::Switch { target: ev.target_layout_index }
        }
    }

    /// The caller issued the switch for `id` and it succeeded: advance the
    /// debounce state. On failure this is not called, so the state is
    /// unchanged and a retry stays possible.
    pub fn record_switch(&mut self, id: KeyboardIdentity, now_ms: u64)
        ensures
            final(self).dry_run == old(self).dry_run,
            final(self).last_identity == Some(id),
            final(self).last_switch_ms == now_ms,
    {
        self.last_identity = Some(id);
        self.last_switch_ms = now_ms;
    }
}

/// Two activations from the same identity in quick succession cause exactly
/// one switch: once the first has switched (and been recorded, or taken
/// effect directly in dry-run), the second is suppressed — by the identity
/// rule, and within the window also by the time rule.
pub proof fn lemma_debounce_same_identity(
    c: DebounceController,
    c2: DebounceController,
    ev: ActivationEvent,
    now_ms: u64,
    d: SwitchDecision,
)
    requires
        c.last_identity == Some(ev.identity),
        activation_post(c, c2, ev, now_ms, d),
    ensures
        d is Suppressed,
        c2 == c,
{
}

/// For an activation from a different identity than the last switch, the
/// identity rule never suppresses: the decision is governed by the time
/// window alone. Two presses on different keyboards within the window still
/// yield one switch, because the second fails its own time check against
/// the updated state; past the window it switches.
pub proof fn lemma_debounce_distinct_identities(
    c: DebounceController,
    c2: DebounceController,
    ev: ActivationEvent,
    now_ms: u64,
    d: SwitchDecision,
)
    requires
        c.last_identity != Some(ev.identity),
        activation_post(c, c2, ev, now_ms, d),
    ensures
        (d is Suppressed) <==> now_ms - c.last_switch_ms <= DEBOUNCE_WINDOW_MS,
{
}

/// In dry-run mode no activation ever yields a real switch command, yet the
/// debounce state advances exactly as it would have live.
pub proof fn lemma_dry_run_never_switches(
    c: DebounceController,
    c2: DebounceController,
    ev: ActivationEvent,
    now_ms: u64,
    d: SwitchDecision,
)
    requires
        c.dry_run,
        activation_post(c, c2, ev, now_ms, d),
    ensures
        !(d is Switch),
        !(d is Suppressed) ==> c2.last_identity == Some(ev.identity) && c2.last_switch_ms
            == now_ms,
{
}

/// Binding lookups agree between two states whose binding tables are equal.
pub proof fn lemma_bound_congruence(a: DaemonState, b: DaemonState)
    requires
        a.layout_map@ == b.layout_map@,
    ensures
        forall|id: KeyboardIdentity| #[trigger] a.is_bound(id) == b.is_bound(id),
{
    assert forall|id: KeyboardIdentity| #[trigger] a.is_bound(id) == b.is_bound(id) by {
        if a.is_bound(id) {
            let k = choose|k: int|
                0 <= k < a.layout_map@.len() && a.layout_map@[k].identity == id;
            assert(b.layout_map@[k].identity == id);
        }
        if b.is_bound(id) {
            let k = choose|k: int|
                0 <= k < b.layout_map@.len() && b.layout_map@[k].identity == id;
            assert(a.layout_map@[k].identity == id);
        }
    }
}

/// One reconciliation pass makes the registry exactly the bound identities
/// of the enumeration, whatever it held before: the monitor set converges
/// to `bound` intersected with `present` in a single pass.
pub proof fn lemma_reconcile_converges(
    s0: DaemonState,
    s1: DaemonState,
    present: Seq<Keyboard>,
    plan: ReconcilePlan,
)
    requires
        s0.wf(),
        reconcile_post(s0, s1, present, plan),
    ensures
        forall|id: KeyboardIdentity|
            #[trigger] s1.has_monitor(id) <==> (s0.is_bound(id) && present_has(present, id)),
{
    assert forall|id: KeyboardIdentity|
        #[trigger] s1.has_monitor(id) <==> (s0.is_bound(id) && present_has(present, id)) by {
        if s0.has_monitor(id) {
            let k = choose|k: int|
                0 <= k < s0.monitors@.len() && s0.monitors@[k].identity == id;
            assert(s0.is_bound(s0.monitors@[k].identity));
        }
    }
}

/// Idempotence: reconciling twice against the same enumeration leaves the
/// registry's identities and its size unchanged — the second pass starts
/// nothing and stops nothing.
pub proof fn lemma_reconcile_idempotent(
    s0: DaemonState,
    s1: DaemonState,
    s2: DaemonState,
    present: Seq<Keyboard>,
    plan_a: ReconcilePlan,
    plan_b: ReconcilePlan,
)
    requires
        s0.wf(),
        s1.wf(),
        reconcile_post(s0, s1, present, plan_a),
        reconcile_post(s1, s2, present, plan_b),
    ensures
        forall|id: KeyboardIdentity| #[trigger] s2.has_monitor(id) == s1.has_monitor(id),
        s2.monitors@.len() == s1.monitors@.len(),
        plan_b.to_start@.len() == 0,
        plan_b.to_stop@.len() == 0,
{
    lemma_bound_congruence(s0, s1);
    lemma_reconcile_converges(s0, s1, present, plan_a);
    lemma_reconcile_converges(s1, s2, present, plan_b);
    assert forall|id: KeyboardIdentity|
        #[trigger] s2.has_monitor(id) == s1.has_monitor(id) by {
        assert(s1.has_monitor(id) <==> (s0.is_bound(id) && present_has(present, id)));
        assert(s2.has_monitor(id) <==> (s1.is_bound(id) && present_has(present, id)));
    }
    // The second pass has nothing to start: every bound, present identity
    // already has its monitor.
    if plan_b.to_start@.len() > 0 {
        let x = plan_b.to_start@[0].identity;
        assert(exists|t: int|
            0 <= t < plan_b.to_start@.len() && (#[trigger] plan_b.to_start@[t]).identity == x);
        assert(present_has(present, x) && s1.is_bound(x) && !s1.has_monitor(x));
        assert(false);
    }
    // And nothing to stop: every monitored identity is still enumerated.
    if plan_b.to_stop@.len() > 0 {
        let h = plan_b.to_stop@[0];
        assert(plan_b.to_stop@.contains(h));
        assert(s1.monitors@.contains(h) && !present_has(present, h.identity));
        let k = choose|k: int| 0 <= k < s1.monitors@.len() && s1.monitors@[k] == h;
        assert(s1.monitors@[k].identity == h.identity);
        assert(s1.has_monitor(h.identity));
        assert(false);
    }
}

/// The binding table never changes across a chain of reconciliation passes.
pub proof fn lemma_layout_stable_to(
    states: Seq<DaemonState>,
    enums: Seq<Seq<Keyboard>>,
    plans: Seq<ReconcilePlan>,
    i: int,
)
    requires
        states.len() == enums.len() + 1,
        plans.len() == enums.len(),
        forall|j: int|
            0 <= j < enums.len() ==> reconcile_post(
                #[trigger] states[j],
                states[j + 1],
                enums[j],
                plans[j],
            ),
        0 <= i < states.len(),
    ensures
        states[i].layout_map == states[0].layout_map,
    decreases i,
{
    if i > 0 {
        lemma_layout_stable_to(states, enums, plans, i - 1);
        assert(reconcile_post(states[i - 1], states[i], enums[i - 1], plans[i - 1]));
    }
}

/// Across any chain of reconciliation passes, the registry afterwards holds
/// exactly the identities that are bound in the initial configuration and
/// enumerated by the most recent pass — the history before the last pass
/// does not matter.
pub proof fn lemma_reconcile_sequence(
    states: Seq<DaemonState>,
    enums: Seq<Seq<Keyboard>>,
    plans: Seq<ReconcilePlan>,
)
    requires
        states.len() == enums.len() + 1,
        plans.len() == enums.len(),
        enums.len() >= 1,
        forall|j: int| 0 <= j < states.len() ==> (#[trigger] states[j]).wf(),
        forall|j: int|
            0 <= j < enums.len() ==> reconcile_post(
                #[trigger] states[j],
                states[j + 1],
                enums[j],
                plans[j],
            ),
    ensures
        forall|id: KeyboardIdentity|
            #[trigger] states.last().has_monitor(id) <==> (states[0].is_bound(id) && present_has(
                enums.last(),
                id,
            )),
{
    let n = enums.len() as int;
    assert(reconcile_post(states[n - 1], states[n], enums[n - 1], plans[n - 1]));
    lemma_reconcile_converges(states[n - 1], states[n], enums[n - 1], plans[n - 1]);
    lemma_layout_stable_to(states, enums, plans, n - 1);
    lemma_bound_congruence(states[n - 1], states[0]);
}

} // verus!

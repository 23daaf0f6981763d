//! The reconciliation controller: diffing desired state against the set of
//! running proxies, and deciding what to start, stop, and when to exit.
//!
//! The controller is a state machine. Each reconciliation pass ([`Controller::tick`])
//! computes the proxies to stop and the mappings to start, updates the
//! running set, and reports whether the process should exit. The change
//! signal feeding the running-task set is structural equality of the full
//! resolved mapping, not just its key: a mapping whose target changed while
//! its `local_bind` stayed the same is stopped and re-added, never updated
//! in place. Once `should_exit` holds, every running proxy is stopped and
//! none started. Between passes, [`Controller::observe`] takes the outcome
//! of a configuration read and replaces the desired state only when it
//! changed structurally. The caller performs the returned actions: spawning
//! and cancelling handler tasks and adding or removing packet-marking
//! rules.

use vstd::prelude::*;

use crate::config::{Config, ConfigError, IntMapping};
use crate::net::SockAddrV4;

verus! {

/// The fixed reconciliation interval, in seconds: the runner sleeps this
/// long after each pass before re-reading the configuration.
pub const RECONCILE_INTERVAL_SECS: u64 = 3;

/// The desired state of the gateway, rebuilt from configuration on each
/// read: the resolved mappings plus the global flags.
#[derive(Clone, Debug)]
pub struct DesiredState {
    pub resolved_mappings: Vec<IntMapping>,
    pub transparent: bool,
    pub manage_iptables: bool,
    pub should_exit: bool,
}

impl DesiredState {
    /// Structural equality: same resolved mappings in the same order, and
    /// the same flags. This decides whether a re-read configuration
    /// replaces the previous desired state.
    pub open spec fn agrees(self, o: DesiredState) -> bool {
        self.resolved_mappings@ == o.resolved_mappings@ && self.transparent == o.transparent
            && self.manage_iptables == o.manage_iptables && self.should_exit == o.should_exit
    }

    /// Whether the gateway manages routing state: both global flags set.
    pub open spec fn spec_routing_managed(self) -> bool {
        self.transparent && self.manage_iptables
    }

    pub fn routing_managed(&self) -> (r: bool)
        ensures
            r == self.spec_routing_managed(),
    {
        self.transparent && self.manage_iptables
    }

    pub fn same_as(&self, o: &DesiredState) -> (r: bool)
        ensures
            r == self.agrees(*o),
    {
        if self.transparent != o.transparent || self.manage_iptables != o.manage_iptables
            || self.should_exit != o.should_exit {
            return false;
        }
        if self.resolved_mappings.len() != o.resolved_mappings.len() {
            proof {
                assert(self.resolved_mappings@.len() != o.resolved_mappings@.len());
            }
            return false;
        }
        let n = self.resolved_mappings.len();
        let mut i: usize = 0;
        while i < n
            invariant
                i <= n,
                n == self.resolved_mappings@.len() == o.resolved_mappings@.len(),
                forall|k: int|
                    0 <= k < i ==> self.resolved_mappings@[k] == o.resolved_mappings@[k],
            decreases n - i,
        {
            if self.resolved_mappings[i] != o.resolved_mappings[i] {
                return false;
            }
            i += 1;
        }
        proof {
            assert(self.resolved_mappings@ =~= o.resolved_mappings@);
        }
        true
    }

    /// Builds the desired state a configuration resolves to.
    pub fn from_config(c: &Config) -> (r: Result<DesiredState, ConfigError>)
        ensures
            match r {
                Ok(d) => crate::config::config_error(c.mappings@, c.bind_addrs@) is None
                    && d.resolved_mappings@ == c.spec_resolved() && d.transparent == c.transparent
                    && d.manage_iptables == c.manage_iptables && d.should_exit == c.should_exit
                    && desired_keys_unique(d.resolved_mappings@) && (forall|i: int|
                    0 <= i < d.resolved_mappings@.len() ==> (
                    #[trigger] d.resolved_mappings@[i]).wf() && d.resolved_mappings@[i].transparent
                        == c.transparent && d.resolved_mappings@[i].manage_iptables
                        == c.manage_iptables),
                Err(e) => crate::config::config_error(c.mappings@, c.bind_addrs@) == Some(e),
            },
    {
        match c.to_int_mappings() {
            Ok(v) => Ok(
                DesiredState {
                    resolved_mappings: v,
                    transparent: c.transparent,
                    manage_iptables: c.manage_iptables,
                    should_exit: c.should_exit,
                },
            ),
            Err(e) => Err(e),
        }
    }
}

/// The record the controller keeps for one running proxy task: the full
/// resolved mapping it was started with, and whether its packet-marking
/// rule is managed.
#[derive(Clone, Copy, PartialEq, Eq, Structural, Debug)]
pub struct RunningProxy {
    pub mapping: IntMapping,
    pub managed: bool,
}

impl RunningProxy {
    /// The proxy's key.
    pub open spec fn key(self) -> SockAddrV4 {
        self.mapping.local_bind
    }
}

/// Whether some desired mapping equals `m`, structurally.
pub open spec fn desired_contains(ds: Seq<IntMapping>, m: IntMapping) -> bool {
    exists|i: int| 0 <= i < ds.len() && ds[i] == m
}

/// Whether some running proxy was started with exactly the mapping `m`.
pub open spec fn running_contains(ps: Seq<RunningProxy>, m: IntMapping) -> bool {
    exists|i: int| 0 <= i < ps.len() && ps[i].mapping == m
}

/// Pairwise-distinct `local_bind` keys among running proxies.
pub open spec fn running_keys_unique(ps: Seq<RunningProxy>) -> bool {
    forall|i: int, j: int|
        0 <= i < j < ps.len() ==> (#[trigger] ps[i]).key() != (#[trigger] ps[j]).key()
}

/// Pairwise-distinct `local_bind` keys among resolved mappings.
pub open spec fn desired_keys_unique(ds: Seq<IntMapping>) -> bool {
    forall|i: int, j: int|
        0 <= i < j < ds.len() ==> (#[trigger] ds[i]).local_bind != (#[trigger] ds[j]).local_bind
}

/// The running proxies whose full mapping is still desired, in order.
pub open spec fn spec_kept(ps: Seq<RunningProxy>, ds: Seq<IntMapping>) -> Seq<RunningProxy>
    decreases ps.len(),
{
    if ps.len() == 0 {
        Seq::empty()
    } else if desired_contains(ds, ps[0].mapping) {
        seq![ps[0]] + spec_kept(ps.skip(1), ds)
    } else {
        spec_kept(ps.skip(1), ds)
    }
}

/// The running proxies whose full mapping is no longer desired, in order —
/// including those whose key survived with a changed value.
pub open spec fn spec_stopped(ps: Seq<RunningProxy>, ds: Seq<IntMapping>) -> Seq<RunningProxy>
    decreases ps.len(),
{
    if ps.len() == 0 {
        Seq::empty()
    } else if desired_contains(ds, ps[0].mapping) {
        spec_stopped(ps.skip(1), ds)
    } else {
        seq![ps[0]] + spec_stopped(ps.skip(1), ds)
    }
}

/// The desired mappings not running with exactly that value, in order.
pub open spec fn spec_started(ds: Seq<IntMapping>, ps: Seq<RunningProxy>) -> Seq<IntMapping>
    decreases ds.len(),
{
    if ds.len() == 0 {
        Seq::empty()
    } else if running_contains(ps, ds[0]) {
        spec_started(ds.skip(1), ps)
    } else {
        seq![ds[0]] + spec_started(ds.skip(1), ps)
    }
}

/// The proxy record a newly started mapping is tracked by.
pub open spec fn proxy_of(m: IntMapping, managed: bool) -> RunningProxy {
    RunningProxy { mapping: m, managed }
}

/// The proxies to stop in one pass: all of them once `should_exit` holds,
/// otherwise those whose mappings are no longer desired.
pub open spec fn spec_stops(ps: Seq<RunningProxy>, d: DesiredState) -> Seq<RunningProxy> {
    if d.should_exit {
        ps
    } else {
        spec_stopped(ps, d.resolved_mappings@)
    }
}

/// The mappings to start in one pass: none once `should_exit` holds,
/// otherwise the desired mappings not running.
pub open spec fn spec_starts(ps: Seq<RunningProxy>, d: DesiredState) -> Seq<IntMapping> {
    if d.should_exit {
        Seq::empty()
    } else {
        spec_started(d.resolved_mappings@, ps)
    }
}

/// The running set after one pass.
pub open spec fn spec_next(ps: Seq<RunningProxy>, d: DesiredState) -> Seq<RunningProxy> {
    if d.should_exit {
        Seq::empty()
    } else {
        spec_kept(ps, d.resolved_mappings@) + spec_starts(ps, d).map_values(
            |m: IntMapping| proxy_of(m, d.spec_routing_managed()),
        )
    }
}

/// What one reconciliation pass asks the caller to do.
pub struct TickPlan {
    /// Mappings to start: add the packet-marking rule first when managed
    /// (best effort), then spawn a handler task with a fresh cancellation
    /// handle.
    pub to_start: Vec<IntMapping>,
    /// Proxies to stop: signal cancellation, await the task in the
    /// background, then remove its packet-marking rule when managed.
    pub to_stop: Vec<RunningProxy>,
    /// Whether this pass reached the clean-exit condition: `should_exit`
    /// held and the running set is now empty.
    pub exit: bool,
}

/// The reconciliation controller's state.
pub struct Controller {
    pub proxies: Vec<RunningProxy>,
    pub desired: DesiredState,
    pub exited: bool,
}

impl Controller {
    pub open spec fn wf(self) -> bool {
        running_keys_unique(self.proxies@) && desired_keys_unique(
            self.desired.resolved_mappings@,
        )
    }

    /// A fresh controller: nothing runs yet; the initial desired state is
    /// in force. The caller must perform the one-time routing setup first
    /// when [`DesiredState::routing_managed`] holds of the initial state,
    /// and must treat a setup failure as fatal.
    pub fn new(initial: DesiredState) -> (r: Controller)
        requires
            desired_keys_unique(initial.resolved_mappings@),
        ensures
            r.wf(),
            r.proxies@ == Seq::<RunningProxy>::empty(),
            r.desired == initial,
            !r.exited,
    {
        Controller { proxies: Vec::new(), desired: initial, exited: false }
    }

    /// Takes the outcome of a configuration read: a failed read keeps the
    /// previous desired state, and a successful one replaces it only when
    /// it differs structurally.
    pub fn observe(&mut self, read: Option<DesiredState>)
        requires
            old(self).wf(),
            read matches Some(d) ==> desired_keys_unique(d.resolved_mappings@),
        ensures
            final(self).wf(),
            final(self).proxies == old(self).proxies,
            final(self).exited == old(self).exited,
            match read {
                None => final(self).desired == old(self).desired,
                Some(d) => {
                    if d.agrees(old(self).desired) {
                        final(self).desired == old(self).desired
                    } else {
                        final(self).desired == d
                    }
                },
            },
    {
        match read {
            None => {},
            Some(d) => {
                if !self.desired.same_as(&d) {
                    self.desired = d;
                }
            },
        }
    }

    /// One reconciliation pass against the current desired state.
    ///
    /// Stops every running proxy whose full mapping is no longer desired
    /// (all of them once `should_exit` holds), starts every desired mapping
    /// not running with exactly that value (none once `should_exit` holds),
    /// and reports exit exactly when `should_exit` holds — the running set
    /// is then empty.
    pub fn tick(&mut self) -> (plan: TickPlan)
        requires
            old(self).wf(),
            !old(self).exited,
        ensures
            final(self).wf(),
            final(self).desired == old(self).desired,
            final(self).proxies@ == spec_next(old(self).proxies@, old(self).desired),
            plan.to_stop@ == spec_stops(old(self).proxies@, old(self).desired),
            plan.to_start@ == spec_starts(old(self).proxies@, old(self).desired),
            plan.exit == old(self).desired.should_exit,
            final(self).exited == plan.exit,
            plan.exit ==> final(self).proxies@.len() == 0,
    {
        let ghost ps0 = self.proxies@;
        let ghost d = self.desired;
        let ghost ds = self.desired.resolved_mappings@;
        let should_exit = self.desired.should_exit;
        let mut kept: Vec<RunningProxy> = Vec::new();
        let mut to_stop: Vec<RunningProxy> = Vec::new();
        let mut i: usize = 0;
        proof {
            assert(ps0.skip(0) =~= ps0);
            assert(kept@ + spec_kept(ps0, ds) =~= spec_kept(ps0, ds));
            assert(to_stop@ + spec_stopped(ps0, ds) =~= spec_stopped(ps0, ds));
        }
        while i < self.proxies.len()
            invariant
                i <= self.proxies.len(),
                ps0 == self.proxies@,
                ds == self.desired.resolved_mappings@,
                should_exit == self.desired.should_exit,
                should_exit ==> kept@.len() == 0 && to_stop@ == ps0.take(i as int),
                !should_exit ==> spec_kept(ps0, ds) == kept@ + spec_kept(ps0.skip(i as int), ds),
                !should_exit ==> spec_stopped(ps0, ds) == to_stop@ + spec_stopped(
                    ps0.skip(i as int),
                    ds,
                ),
            decreases self.proxies.len() - i,
        {
            let p = self.proxies[i];
            proof {
                assert(ps0.skip(i as int)[0] == p);
                assert(ps0.skip(i as int).skip(1) =~= ps0.skip(i + 1));
            }
            if !should_exit && desired_contains_mapping(&self.desired.resolved_mappings,
                &p.mapping) {
                let ghost old_kept = kept@;
                kept.push(p);
                proof {
                    assert(kept@ + spec_kept(ps0.skip(i + 1), ds) =~= old_kept + spec_kept(
                        ps0.skip(i as int), ds));
                }
            } else {
                let ghost old_stop = to_stop@;
                to_stop.push(p);
                proof {
                    if should_exit {
                        assert(to_stop@ =~= ps0.take(i + 1));
                    } else {
                        assert(to_stop@ + spec_stopped(ps0.skip(i + 1), ds) =~= old_stop
                            + spec_stopped(ps0.skip(i as int), ds));
                    }
                }
            }
            i += 1;
        }
        proof {
            if should_exit {
                assert(ps0.take(ps0.len() as int) =~= ps0);
            } else {
                assert(ps0.skip(ps0.len() as int) =~= Seq::<RunningProxy>::empty());
                assert(kept@ + spec_kept(ps0.skip(ps0.len() as int), ds) =~= kept@);
                assert(to_stop@ + spec_stopped(ps0.skip(ps0.len() as int), ds) =~= to_stop@);
            }
        }
        let mut to_start: Vec<IntMapping> = Vec::new();
        let managed = self.desired.transparent && self.desired.manage_iptables;
        if !should_exit {
            let mut j: usize = 0;
            proof {
                assert(ds.skip(0) =~= ds);
                assert(to_start@ + spec_started(ds, ps0) =~= spec_started(ds, ps0));
            }
            while j < self.desired.resolved_mappings.len()
                invariant
                    j <= self.desired.resolved_mappings.len(),
                    ps0 == self.proxies@,
                    ds == self.desired.resolved_mappings@,
                    spec_started(ds, ps0) == to_start@ + spec_started(ds.skip(j as int), ps0),
                decreases self.desired.resolved_mappings.len() - j,
            {
                let m = self.desired.resolved_mappings[j];
                proof {
                    assert(ds.skip(j as int)[0] == m);
                    assert(ds.skip(j as int).skip(1) =~= ds.skip(j + 1));
                }
                if !running_contains_mapping(&self.proxies, &m) {
                    let ghost old_start = to_start@;
                    to_start.push(m);
                    proof {
                        assert(to_start@ + spec_started(ds.skip(j + 1), ps0) =~= old_start
                            + spec_started(ds.skip(j as int), ps0));
                    }
                }
                j += 1;
            }
            proof {
                assert(ds.skip(ds.len() as int) =~= Seq::<IntMapping>::empty());
                assert(to_start@ + spec_started(ds.skip(ds.len() as int), ps0) =~= to_start@);
            }
        }
        // Append a record for every started mapping to the kept set.
        let ghost start_list = to_start@;
        let ghost base = kept@;
        let mut k: usize = 0;
        proof {
            assert(kept@ =~= base + start_list.take(0).map_values(
                |m: IntMapping| proxy_of(m, managed)));
        }
        while k < to_start.len()
            invariant
                k <= to_start.len(),
                start_list == to_start@,
                kept@ == base + start_list.take(k as int).map_values(
                    |m: IntMapping| proxy_of(m, managed),
                ),
            decreases to_start.len() - k,
        {
            let m = to_start[k];
            kept.push(RunningProxy { mapping: m, managed });
            k += 1;
            proof {
                assert(start_list.take(k as int).map_values(|m: IntMapping| proxy_of(m, managed))
                    =~= start_list.take(k - 1).map_values(|m: IntMapping| proxy_of(m, managed)).push(
                    proxy_of(start_list[k - 1], managed)));
                assert(kept@ =~= base + start_list.take(k as int).map_values(
                    |m: IntMapping| proxy_of(m, managed)));
            }
        }
        proof {
            assert(start_list.take(start_list.len() as int) =~= start_list);
        }
        self.proxies = kept;
        let exit = should_exit && self.proxies.len() == 0;
        proof {
            if should_exit {
                assert(self.proxies@ =~= Seq::<RunningProxy>::empty());
                assert(exit);
            } else {
                assert(start_list.map_values(|m: IntMapping| proxy_of(m, managed)) =~= spec_starts(
                    ps0, d).map_values(|m: IntMapping| proxy_of(m, d.spec_routing_managed())));
                assert(self.proxies@ =~= spec_kept(ps0, ds) + spec_starts(ps0, d).map_values(
                    |m: IntMapping| proxy_of(m, d.spec_routing_managed())));
            }
            lemma_next_keys_unique(ps0, d);
        }
        self.exited = exit;
        TickPlan { to_start, to_stop, exit }
    }
}

/// Helper: whether any desired mapping equals `m`, structurally.
pub fn desired_contains_mapping(ms: &Vec<IntMapping>, m: &IntMapping) -> (r: bool)
    ensures
        r == desired_contains(ms@, *m),
{
    let mut i: usize = 0;
    while i < ms.len()
        invariant
            i <= ms@.len(),
            forall|j: int| 0 <= j < i ==> (#[trigger] ms@[j]) != *m,
        decreases ms@.len() - i,
    {
        if ms[i] == *m {
            return true;
        }
        i += 1;
    }
    false
}

/// Helper: whether any running proxy was started with exactly `m`.
pub fn running_contains_mapping(ps: &Vec<RunningProxy>, m: &IntMapping) -> (r: bool)
    ensures
        r == running_contains(ps@, *m),
{
    let mut i: usize = 0;
    while i < ps.len()
        invariant
            i <= ps@.len(),
            forall|j: int| 0 <= j < i ==> (#[trigger] ps@[j]).mapping != *m,
        decreases ps@.len() - i,
    {
        if ps[i].mapping == *m {
            return true;
        }
        i += 1;
    }
    false
}

/// Every kept proxy is one of the old proxies, and its mapping is desired.
proof fn lemma_kept_element_of(ps: Seq<RunningProxy>, ds: Seq<IntMapping>, i: int)
    requires
        0 <= i < spec_kept(ps, ds).len(),
    ensures
        exists|j: int| 0 <= j < ps.len() && ps[j] == spec_kept(ps, ds)[i],
        desired_contains(ds, spec_kept(ps, ds)[i].mapping),
    decreases ps.len(),
{
    if ps.len() > 0 {
        if desired_contains(ds, ps[0].mapping) {
            if i == 0 {
                assert(ps[0] == spec_kept(ps, ds)[0]);
            } else {
                lemma_kept_element_of(ps.skip(1), ds, i - 1);
                let j = choose|j: int|
                    0 <= j < ps.skip(1).len() && ps.skip(1)[j] == spec_kept(ps.skip(1), ds)[i - 1];
                assert(ps[j + 1] == spec_kept(ps, ds)[i]);
            }
        } else {
            lemma_kept_element_of(ps.skip(1), ds, i);
            let j = choose|j: int|
                0 <= j < ps.skip(1).len() && ps.skip(1)[j] == spec_kept(ps.skip(1), ds)[i];
            assert(ps[j + 1] == spec_kept(ps, ds)[i]);
        }
    }
}

/// Every started mapping is one of the desired mappings, and is not
/// running.
proof fn lemma_started_element_of(ds: Seq<IntMapping>, ps: Seq<RunningProxy>, i: int)
    requires
        0 <= i < spec_started(ds, ps).len(),
    ensures
        exists|j: int| 0 <= j < ds.len() && ds[j] == spec_started(ds, ps)[i],
        !running_contains(ps, spec_started(ds, ps)[i]),
    decreases ds.len(),
{
    if ds.len() > 0 {
        if running_contains(ps, ds[0]) {
            lemma_started_element_of(ds.skip(1), ps, i);
            let j = choose|j: int|
                0 <= j < ds.skip(1).len() && ds.skip(1)[j] == spec_started(ds.skip(1), ps)[i];
            assert(ds[j + 1] == spec_started(ds, ps)[i]);
        } else {
            if i == 0 {
                assert(ds[0] == spec_started(ds, ps)[0]);
            } else {
                lemma_started_element_of(ds.skip(1), ps, i - 1);
                let j = choose|j: int|
                    0 <= j < ds.skip(1).len() && ds.skip(1)[j] == spec_started(ds.skip(1), ps)[i
                        - 1];
                assert(ds[j + 1] == spec_started(ds, ps)[i]);
            }
        }
    }
}

/// Kept proxies keep pairwise-distinct keys.
proof fn lemma_kept_unique(ps: Seq<RunningProxy>, ds: Seq<IntMapping>)
    requires
        running_keys_unique(ps),
    ensures
        running_keys_unique(spec_kept(ps, ds)),
    decreases ps.len(),
{
    if ps.len() > 0 {
        assert(forall|i: int, j: int|
            0 <= i < j < ps.skip(1).len() ==> (#[trigger] ps.skip(1)[i]).key() != (
            #[trigger] ps.skip(1)[j]).key());
        lemma_kept_unique(ps.skip(1), ds);
        if desired_contains(ds, ps[0].mapping) {
            assert forall|j: int| 1 <= j < spec_kept(ps, ds).len() implies (
            #[trigger] spec_kept(ps, ds)[j]).key() != ps[0].key() by {
                lemma_kept_element_of(ps.skip(1), ds, j - 1);
                let w = choose|w: int|
                    0 <= w < ps.skip(1).len() && ps.skip(1)[w] == spec_kept(ps.skip(1), ds)[j - 1];
                assert(ps[w + 1] == spec_kept(ps, ds)[j]);
            }
        }
    }
}

/// Started mappings keep pairwise-distinct keys.
proof fn lemma_started_unique(ds: Seq<IntMapping>, ps: Seq<RunningProxy>)
    requires
        desired_keys_unique(ds),
    ensures
        desired_keys_unique(spec_started(ds, ps)),
    decreases ds.len(),
{
    if ds.len() > 0 {
        assert(forall|i: int, j: int|
            0 <= i < j < ds.skip(1).len() ==> (#[trigger] ds.skip(1)[i]).local_bind != (
            #[trigger] ds.skip(1)[j]).local_bind);
        lemma_started_unique(ds.skip(1), ps);
        if !running_contains(ps, ds[0]) {
            assert forall|j: int| 1 <= j < spec_started(ds, ps).len() implies (
            #[trigger] spec_started(ds, ps)[j]).local_bind != ds[0].local_bind by {
                lemma_started_element_of(ds.skip(1), ps, j - 1);
                let w = choose|w: int|
                    0 <= w < ds.skip(1).len() && ds.skip(1)[w] == spec_started(ds.skip(1), ps)[j
                        - 1];
                assert(ds[w + 1] == spec_started(ds, ps)[j]);
            }
        }
    }
}

/// A kept proxy and a started mapping never share a key: both mappings are
/// desired, so a shared key makes them the same mapping, which cannot be
/// both running and not running.
proof fn lemma_next_keys_unique(ps: Seq<RunningProxy>, d: DesiredState)
    requires
        running_keys_unique(ps),
        desired_keys_unique(d.resolved_mappings@),
    ensures
        running_keys_unique(spec_next(ps, d)),
{
    if !d.should_exit {
        let ds = d.resolved_mappings@;
        let kept = spec_kept(ps, ds);
        let started = spec_started(ds, ps).map_values(
            |m: IntMapping| proxy_of(m, d.spec_routing_managed()),
        );
        lemma_kept_unique(ps, ds);
        lemma_started_unique(ds, ps);
        assert forall|i: int, j: int| 0 <= i < j < (kept + started).len() implies (
        #[trigger] (kept + started)[i]).key() != (#[trigger] (kept + started)[j]).key() by {
            if i < kept.len() && j >= kept.len() {
                lemma_kept_element_of(ps, ds, i);
                lemma_started_element_of(ds, ps, j - kept.len());
                let sm = spec_started(ds, ps)[j - kept.len()];
                assert((kept + started)[j] == started[j - kept.len()]);
                assert(started[j - kept.len()].mapping == sm);
                if kept[i].key() == sm.local_bind {
                    // Two desired mappings share a key, so they are equal;
                    // but one is running and the other is not.
                    let a = choose|a: int| 0 <= a < ds.len() && ds[a] == kept[i].mapping;
                    let b = choose|b: int| 0 <= b < ds.len() && ds[b] == sm;
                    assert(ds[a].local_bind == ds[b].local_bind);
                    assert(kept[i].mapping == sm);
                    let w = choose|w: int| 0 <= w < ps.len() && ps[w] == kept[i];
                    assert(running_contains(ps, sm));
                }
            } else if i >= kept.len() {
                assert((kept + started)[i].key() == spec_started(ds, ps)[i
                    - kept.len()].local_bind);
                assert((kept + started)[j].key() == spec_started(ds, ps)[j
                    - kept.len()].local_bind);
            }
        }
    }
}

/// If every proxy's mapping is desired, every proxy is kept and none
/// stopped.
proof fn lemma_all_mappings_desired(ps: Seq<RunningProxy>, ds: Seq<IntMapping>)
    requires
        forall|i: int| 0 <= i < ps.len() ==> desired_contains(ds, (#[trigger] ps[i]).mapping),
    ensures
        spec_kept(ps, ds) == ps,
        spec_stopped(ps, ds) == Seq::<RunningProxy>::empty(),
    decreases ps.len(),
{
    if ps.len() > 0 {
        assert(desired_contains(ds, ps[0].mapping));
        assert(forall|i: int|
            0 <= i < ps.skip(1).len() ==> desired_contains(
                ds,
                (#[trigger] ps.skip(1)[i]).mapping,
            ));
        lemma_all_mappings_desired(ps.skip(1), ds);
        assert(spec_kept(ps, ds) =~= ps);
    }
}

/// If every desired mapping is running, nothing is started.
proof fn lemma_all_mappings_running(ds: Seq<IntMapping>, ps: Seq<RunningProxy>)
    requires
        forall|i: int| 0 <= i < ds.len() ==> running_contains(ps, #[trigger] ds[i]),
    ensures
        spec_started(ds, ps) == Seq::<IntMapping>::empty(),
    decreases ds.len(),
{
    if ds.len() > 0 {
        assert(forall|i: int|
            0 <= i < ds.skip(1).len() ==> running_contains(ps, #[trigger] ds.skip(1)[i]));
        lemma_all_mappings_running(ds.skip(1), ps);
    }
}

/// A running mapping that is still desired appears among the kept proxies.
proof fn lemma_kept_contains(ps: Seq<RunningProxy>, ds: Seq<IntMapping>, m: IntMapping)
    requires
        running_contains(ps, m),
        desired_contains(ds, m),
    ensures
        running_contains(spec_kept(ps, ds), m),
    decreases ps.len(),
{
    if ps.len() > 0 {
        if ps[0].mapping == m {
            assert(spec_kept(ps, ds)[0].mapping == m);
        } else {
            let j = choose|j: int| 0 <= j < ps.len() && ps[j].mapping == m;
            assert(ps.skip(1)[j - 1].mapping == m);
            lemma_kept_contains(ps.skip(1), ds, m);
            if desired_contains(ds, ps[0].mapping) {
                let w = choose|w: int|
                    0 <= w < spec_kept(ps.skip(1), ds).len() && spec_kept(ps.skip(1), ds)[
                    w].mapping == m;
                assert(spec_kept(ps, ds)[w + 1].mapping == m);
            }
        }
    }
}

/// A desired mapping not running appears among the started mappings.
proof fn lemma_started_contains(ds: Seq<IntMapping>, ps: Seq<RunningProxy>, m: IntMapping, i: int)
    requires
        0 <= i < ds.len(),
        ds[i] == m,
        !running_contains(ps, m),
    ensures
        desired_contains(spec_started(ds, ps), m),
    decreases ds.len(),
{
    if i == 0 {
        assert(spec_started(ds, ps)[0] == m);
    } else {
        assert(ds.skip(1)[i - 1] == m);
        lemma_started_contains(ds.skip(1), ps, m, i - 1);
        let w = choose|w: int|
            0 <= w < spec_started(ds.skip(1), ps).len() && spec_started(ds.skip(1), ps)[w] == m;
        if running_contains(ps, ds[0]) {
            assert(spec_started(ds, ps)[w] == m);
        } else {
            assert(spec_started(ds, ps)[w + 1] == m);
        }
    }
}

/// Reconciliation is idempotent: a second pass against an unchanged desired
/// state stops nothing, starts nothing, re-adds no packet-marking rule, and
/// leaves the running set exactly as the first pass left it.
pub proof fn lemma_reconcile_idempotent(ps: Seq<RunningProxy>, d: DesiredState)
    requires
        desired_keys_unique(d.resolved_mappings@),
    ensures
        spec_stops(spec_next(ps, d), d) == Seq::<RunningProxy>::empty(),
        spec_starts(spec_next(ps, d), d) == Seq::<IntMapping>::empty(),
        spec_next(spec_next(ps, d), d) == spec_next(ps, d),
{
    let ds = d.resolved_mappings@;
    let ps1 = spec_next(ps, d);
    if d.should_exit {
        assert(ps1 =~= Seq::<RunningProxy>::empty());
        assert(spec_stops(ps1, d) =~= Seq::<RunningProxy>::empty());
        assert(spec_next(ps1, d) =~= ps1);
    } else {
        let kept = spec_kept(ps, ds);
        let started_ms = spec_started(ds, ps);
        // Every running mapping in ps1 is desired.
        assert forall|i: int| 0 <= i < ps1.len() implies desired_contains(
            ds,
            (#[trigger] ps1[i]).mapping,
        ) by {
            if i < kept.len() {
                lemma_kept_element_of(ps, ds, i);
            } else {
                lemma_started_element_of(ds, ps, i - kept.len());
                let j = choose|j: int|
                    0 <= j < ds.len() && ds[j] == spec_started(ds, ps)[i - kept.len()];
                assert(ds[j] == ps1[i].mapping);
            }
        }
        lemma_all_mappings_desired(ps1, ds);
        // Every desired mapping is running in ps1.
        assert forall|i: int| 0 <= i < ds.len() implies running_contains(
            ps1,
            #[trigger] ds[i],
        ) by {
            if running_contains(ps, ds[i]) {
                lemma_kept_contains(ps, ds, ds[i]);
                let w = choose|w: int| 0 <= w < kept.len() && kept[w].mapping == ds[i];
                assert(ps1[w].mapping == ds[i]);
            } else {
                lemma_started_contains(ds, ps, ds[i], i);
                let w = choose|w: int| 0 <= w < started_ms.len() && started_ms[w] == ds[i];
                assert(ps1[kept.len() + w].mapping == ds[i]);
            }
        }
        lemma_all_mappings_running(ds, ps1);
        assert(spec_next(ps1, d) =~= ps1);
        assert(spec_starts(ps1, d) =~= Seq::<IntMapping>::empty());
        assert(spec_stops(ps1, d) =~= Seq::<RunningProxy>::empty());
    }
}

/// Shutdown is terminal: once `should_exit` holds, a pass stops every
/// running proxy, starts none, leaves the running set empty, and reports
/// exit; a further pass against the same state does nothing. The controller
/// records the exit, and no pass can follow it.
pub proof fn lemma_shutdown_terminal(ps: Seq<RunningProxy>, d: DesiredState)
    requires
        d.should_exit,
    ensures
        spec_next(ps, d) == Seq::<RunningProxy>::empty(),
        spec_stops(ps, d) == ps,
        spec_starts(ps, d) == Seq::<IntMapping>::empty(),
        spec_stops(spec_next(ps, d), d) == Seq::<RunningProxy>::empty(),
        spec_next(spec_next(ps, d), d) == spec_next(ps, d),
{
}

} // verus!

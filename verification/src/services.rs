//! Supervised services: the declarative definition, the runtime state
//! machine, and the operations that drive it (start, stop, reap, restart).

use vstd::prelude::*;
use crate::names::Name;
use crate::units::{only_service_changed, unit_services, Unit, UnitComponent, Units, UnitsView};

verus! {

/// Runtime state of one supervised service.
pub enum ServiceState {
    /// Running, with a tracked process.
    Active,
    /// Never started, or explicitly stopped.
    Inactive,
    /// The tracked process terminated with this exit code.
    Exited(i32),
    /// The last start attempt failed with this message.
    Error(String),
}

/// One supervised child-process definition plus its live runtime state.
/// The tracked handle is the OS process id of the running child, if any.
pub struct Service {
    pub name: String,
    pub executable: String,
    pub args: Vec<String>,
    pub restart: bool,
    pub child: Option<i32>,
    pub last_state: ServiceState,
}

/// Inert placeholder for a socket unit.
pub struct Socket(pub u32);

/// What the OS reported for one attempt to spawn a service's executable:
/// either the process id of the new child, or the failure message.
pub enum SpawnOutcome {
    Spawned(i32),
    Failed(String),
}

/// What one non-blocking "reap any terminated child" check reported.
pub enum ReapEvent {
    /// A child with this process id exited with this code.
    Exited(i32, i32),
    /// No child was ready; a no-op iteration.
    NoneReady,
    /// The wait call itself failed (for instance, no children exist at all).
    WaitError,
}

impl UnitComponent for Service {
    /// The services a unit holds are its members of this kind.
    open spec fn members(unit: Unit) -> Seq<Service> {
        unit_services(unit)
    }

    open spec fn member_name(&self) -> Seq<char> {
        self.name@
    }

    #[verifier::loop_isolation(false)]
    fn find_in_unit<'a>(unit: &'a Unit, name: &str) -> (r: Option<&'a Service>) {
        match &unit.service {
            Some(v) => {
                let n = v.len();
                let mut i: usize = 0;
                while i < n
                    invariant
                        i <= n,
                        n == v@.len(),
                        forall|j: int| 0 <= j < i ==> (#[trigger] v@[j]).name@ != name@,
                    decreases n - i,
                {
                    if crate::names::str_eq(v[i].name.as_str(), name) {
                        let c = &v[i];
                        proof {
                            assert(unit_services(*unit) == v@);
                            assert(*c == <Service as UnitComponent>::members(*unit)[i as int]);
                            assert(c.member_name() == name@);
                        }
                        return Some(c);
                    }
                    i += 1;
                }
                proof {
                    assert forall|k: int|
                        0 <= k < unit_services(*unit).len() implies (#[trigger] unit_services(
                        *unit,
                    )[k]).name@ != name@ by {
                        assert(unit_services(*unit)[k] == v@[k]);
                    }
                }
                None
            },
            None => None,
        }
    }
}

impl Clone for ServiceState {
    fn clone(&self) -> (r: Self)
        ensures
            r == *self,
    {
        match self {
            ServiceState::Active => ServiceState::Active,
            ServiceState::Inactive => ServiceState::Inactive,
            ServiceState::Exited(code) => ServiceState::Exited(*code),
            ServiceState::Error(m) => ServiceState::Error(m.clone()),
        }
    }
}

/// An element-exact copy of a list of strings.
fn clone_strings(v: &Vec<String>) -> (r: Vec<String>)
    ensures
        r@ == v@,
{
    let n = v.len();
    let mut r: Vec<String> = Vec::new();
    let mut i: usize = 0;
    while i < n
        invariant
            i <= n,
            n == v@.len(),
            r@ == v@.take(i as int),
        decreases n - i,
    {
        r.push(v[i].clone());
        proof {
            assert(r@ =~= v@.take(i + 1 as int));
        }
        i += 1;
    }
    proof {
        assert(v@.take(n as int) =~= v@);
    }
    r
}

/// The two services agree field by field, their argument lists as values.
pub open spec fn service_like(a: Service, b: Service) -> bool {
    &&& a.name == b.name
    &&& a.executable == b.executable
    &&& a.args@ == b.args@
    &&& a.restart == b.restart
    &&& a.child == b.child
    &&& a.last_state == b.last_state
}

impl Clone for Service {
    fn clone(&self) -> (r: Self)
        ensures
            service_like(r, *self),
    {
        Service {
            name: self.name.clone(),
            executable: self.executable.clone(),
            args: clone_strings(&self.args),
            restart: self.restart,
            child: self.child,
            last_state: self.last_state.clone(),
        }
    }
}

/// The declarative fields of two services agree.

pub open spec fn same_decl(a: Service, b: Service) -> bool {
    &&& a.name == b.name
    &&& a.executable == b.executable
    &&& a.args == b.args
    &&& a.restart == b.restart
}

/// How a service looks after a start attempt with the given outcome: a
/// successful spawn records the handle and activates; a failure records the
/// error message and is never treated as an exit, so restart policy does not
/// apply to it.
pub open spec fn start_post(pre: Service, o: SpawnOutcome, post: Service) -> bool {
    &&& same_decl(pre, post)
    &&& match o {
        SpawnOutcome::Spawned(pid) => {
            &&& post.child == Some(pid)
            &&& post.last_state == ServiceState::Active
        },
        SpawnOutcome::Failed(e) => {
            &&& post.child == pre.child
            &&& post.last_state matches ServiceState::Error(m)
                && m@ == "Failed to start service \""@ + pre.name@ + "\": "@ + e@
        },
    }
}

/// How a service looks after a stop: still the same declaration, no tracked
/// process, `Inactive`; stopping an already stopped service changes nothing.
pub open spec fn stop_post(pre: Service, post: Service) -> bool {
    &&& same_decl(pre, post)
    &&& post.child is None
    &&& post.last_state == ServiceState::Inactive
    &&& (pre.child is None && pre.last_state == ServiceState::Inactive ==> post == pre)
}

/// How a service looks after its child's exit is reaped: still the same
/// declaration, the handle dropped, the exit code kept.
pub open spec fn reaped_post(pre: Service, code: i32, post: Service) -> bool {
    &&& same_decl(pre, post)
    &&& post.child is None
    &&& post.last_state == ServiceState::Exited(code)
}

/// Records the outcome of a spawn attempt in the service's runtime state.
///
/// On success the new process handle is tracked and the service becomes
/// `Active`; on failure the service becomes `Error(message)` and no retry is
/// performed.
pub fn start_service(service: &mut Service, outcome: SpawnOutcome)
    ensures
        start_post(*old(service), outcome, *final(service)),
{
    match outcome {
        SpawnOutcome::Spawned(pid) => {
            service.child = Some(pid);
            service.last_state = ServiceState::Active;
        },
        SpawnOutcome::Failed(e) => {
            let m = String::from_str("Failed to start service \"")
                .concat(service.name.as_str())
                .concat("\": ")
                .concat(e.as_str());
            proof {
                assert(m@ =~= "Failed to start service \""@ + service.name@ + "\": "@ + e@);
            }
            service.last_state = ServiceState::Error(m);
        },
    }
}

/// Relies on nix::sys::signal::kill to deliver SIGTERM, the default graceful
/// terminate signal, to the process; a failure to deliver is ignored.
#[verifier::external_body]
fn os_terminate(pid: i32) {
    let _ = nix::sys::signal::kill(nix::unistd::Pid::from_raw(pid), nix::sys::signal::Signal::SIGTERM);
}

/// Relies on nix::sys::signal::kill to deliver SIGKILL, the unconditional
/// kill signal, to the process; a failure to deliver is ignored.
#[verifier::external_body]
fn os_kill(pid: i32) {
    let _ = nix::sys::signal::kill(nix::unistd::Pid::from_raw(pid), nix::sys::signal::Signal::SIGKILL);
}

/// Stops a service: if a process is tracked, a termination request is sent —
/// graceful by default, an unconditional kill when forced — then the state
/// becomes `Inactive` and the handle is dropped. The call does not wait for
/// the process to die; reclamation happens later in the reaper. On a service
/// that is already `Inactive` with no tracked process this is a no-op.
pub fn stop_service(service: &mut Service, force: bool)
    ensures
        same_decl(*old(service), *final(service)),
        final(service).child is None,
        final(service).last_state == ServiceState::Inactive,
        old(service).child is None && old(service).last_state == ServiceState::Inactive
            ==> *final(service) == *old(service),
{
    if let Some(pid) = service.child {
        if force {
            os_kill(pid);
        } else {
            os_terminate(pid);
        }
    }
    service.child = None;
    service.last_state = ServiceState::Inactive;
}

/// Relies on nix::sys::wait::waitpid with WNOHANG to reap any terminated
/// child without blocking, classifying the report; which child (if any) is
/// reported depends on the OS, so nothing is promised of the result.
#[verifier::external_body]
fn os_wait_any() -> ReapEvent {
    match nix::sys::wait::waitpid(None, Some(nix::sys::wait::WaitPidFlag::WNOHANG)) {
        Ok(nix::sys::wait::WaitStatus::Exited(pid, code)) => ReapEvent::Exited(pid.as_raw(), code),
        Ok(_) => ReapEvent::NoneReady,
        Err(_) => ReapEvent::WaitError,
    }
}

impl Clone for SpawnOutcome {
    fn clone(&self) -> (r: Self)
        ensures
            r == *self,
    {
        match self {
            SpawnOutcome::Spawned(pid) => SpawnOutcome::Spawned(*pid),
            SpawnOutcome::Failed(e) => SpawnOutcome::Failed(e.clone()),
        }
    }
}

/// Everything about the unit at one position is kept between the two
/// registry states but possibly its services' runtime fields.
pub open spec fn unit_shape_kept(a: UnitsView, b: UnitsView, i: int) -> bool {
    &&& b.units[i].0 == a.units[i].0
    &&& b.units[i].1.socket == a.units[i].1.socket
    &&& b.units[i].1.mount == a.units[i].1.mount
    &&& (a.units[i].1.service is Some <==> b.units[i].1.service is Some)
    &&& unit_services(b.units[i].1).len() == unit_services(a.units[i].1).len()
}

/// What a whole start pass does: disabled units are untouched, and every
/// service of every enabled unit takes the outcome supplied for its
/// position — there is no "already active" guard.
pub open spec fn start_services_post(
    a: UnitsView,
    b: UnitsView,
    outcomes: Seq<Seq<SpawnOutcome>>,
) -> bool {
    &&& b.enabled == a.enabled
    &&& b.units.len() == a.units.len()
    &&& forall|i: int|
        0 <= i < a.units.len() && !a.enabled.contains(a.units[i].0) ==> #[trigger] b.units[i]
            == a.units[i]
    &&& forall|i: int|
        0 <= i < a.units.len() && a.enabled.contains(a.units[i].0) ==> #[trigger] unit_shape_kept(
            a,
            b,
            i,
        )
    &&& forall|i: int, l: int|
        0 <= i < a.units.len() && a.enabled.contains(a.units[i].0) && 0 <= l < unit_services(
            a.units[i].1,
        ).len() ==> start_post(
            #[trigger] unit_services(a.units[i].1)[l],
            outcomes[i][l],
            unit_services(b.units[i].1)[l],
        )
}

/// Starts every service belonging to an enabled unit, unconditionally: a
/// service already running spawns again under the same identity and the
/// prior handle is silently overwritten. The caller supplies, per registry
/// position, the outcome the OS gave each spawn attempt, in the same
/// unit-by-unit, service-by-service order.
#[verifier::loop_isolation(false)]
pub fn start_services(units: &mut Units, outcomes: &Vec<Vec<SpawnOutcome>>)
    requires
        old(units).wf(),
        outcomes@.len() == old(units)@.units.len(),
        forall|i: int|
            0 <= i < old(units)@.units.len() && old(units)@.enabled.contains(
                old(units)@.units[i].0,
            ) ==> (#[trigger] outcomes@[i])@.len() == unit_services(old(units)@.units[i].1).len(),
    ensures
        final(units).wf(),
        start_services_post(
            old(units)@,
            final(units)@,
            outcomes@.map_values(|v: Vec<SpawnOutcome>| v@),
        ),
{
    let ghost a = old(units)@;
    let n = units.unit_count();
    let mut i: usize = 0;
    while i < n
        invariant
            i <= n,
            n == a.units.len(),
            units.wf(),
            units@.enabled == a.enabled,
            units@.units.len() == a.units.len(),
            forall|k: int| i <= k < a.units.len() ==> #[trigger] units@.units[k] == a.units[k],
            forall|k: int|
                0 <= k < i && !a.enabled.contains(a.units[k].0) ==> #[trigger] units@.units[k]
                    == a.units[k],
            forall|k: int|
                0 <= k < i && a.enabled.contains(a.units[k].0) ==> #[trigger] unit_shape_kept(
                    a,
                    units@,
                    k,
                ),
            forall|k: int, l: int|
                0 <= k < i && a.enabled.contains(a.units[k].0) && 0 <= l < unit_services(
                    a.units[k].1,
                ).len() ==> start_post(
                    #[trigger] unit_services(a.units[k].1)[l],
                    outcomes@[k]@[l],
                    unit_services(units@.units[k].1)[l],
                ),
        decreases n - i,
    {
        let on = units.enabled_at_index(i);
        proof {
            assert(units@.units[i as int] == a.units[i as int]);
            assert(on == a.enabled.contains(a.units[i as int].0)) by {
                assert(units@.enabled.contains(units@.units[i as int].0) == a.enabled.contains(
                    a.units[i as int].0,
                ));
            }
        }
        if on {
            let m = units.service_count(i);
            let mut j: usize = 0;
            while j < m
                invariant
                    j <= m,
                    i < n,
                    m == unit_services(a.units[i as int].1).len(),
                    units.wf(),
                    units@.enabled == a.enabled,
                    units@.units.len() == a.units.len(),
                    a.enabled.contains(a.units[i as int].0),
                    forall|k: int|
                        i < k < a.units.len() ==> #[trigger] units@.units[k] == a.units[k],
                    forall|k: int|
                        0 <= k < i && !a.enabled.contains(a.units[k].0) ==> #[trigger] units@
                            .units[k] == a.units[k],
                    forall|k: int|
                        0 <= k < i && a.enabled.contains(a.units[k].0)
                            ==> #[trigger] unit_shape_kept(a, units@, k),
                    forall|k: int, l: int|
                        0 <= k < i && a.enabled.contains(a.units[k].0) && 0 <= l < unit_services(
                            a.units[k].1,
                        ).len() ==> start_post(
                            #[trigger] unit_services(a.units[k].1)[l],
                            outcomes@[k]@[l],
                            unit_services(units@.units[k].1)[l],
                        ),
                    unit_shape_kept(a, units@, i as int),
                    forall|l: int|
                        j <= l < unit_services(a.units[i as int].1).len()
                            ==> #[trigger] unit_services(units@.units[i as int].1)[l]
                            == unit_services(a.units[i as int].1)[l],
                    forall|l: int|
                        0 <= l < j ==> start_post(
                            #[trigger] unit_services(a.units[i as int].1)[l],
                            outcomes@[i as int]@[l],
                            unit_services(units@.units[i as int].1)[l],
                        ),
                decreases m - j,
            {
                let oc = outcomes[i][j].clone();
                let ghost prev = units@;
                units.start_service_at(i, j, oc);
                proof {
                    assert(only_service_changed(prev, units@, i as int, j as int));
                    assert forall|k: int|
                        0 <= k < a.units.len() && k != i as int implies #[trigger] units@.units[k]
                        == prev.units[k] by {}
                    assert forall|l: int|
                        0 <= l < unit_services(a.units[i as int].1).len() && l != j as int
                            implies #[trigger] unit_services(units@.units[i as int].1)[l]
                        == unit_services(prev.units[i as int].1)[l] by {}
                    assert forall|k: int|
                        0 <= k < i && a.enabled.contains(a.units[k].0) implies #[trigger] unit_shape_kept(
                            a,
                            units@,
                            k,
                        ) by {
                        assert(unit_shape_kept(a, prev, k));
                        assert(units@.units[k] == prev.units[k]);
                    }
                    assert(unit_shape_kept(a, units@, i as int)) by {
                        assert(unit_shape_kept(a, prev, i as int));
                    }
                }
                j += 1;
            }
        }
        i += 1;
    }
}

/// What the reaped exit of the child with this process id does to one
/// service: the one tracking that process records the exit and drops its
/// handle; every other service, tracked or not, is untouched. A service
/// already marked `Inactive` by a prior stop has no tracked handle, so the
/// reaped exit of its old process is simply ignored.
pub open spec fn reap_service_rel(pre: Service, pid: i32, code: i32, post: Service) -> bool {
    if pre.child == Some(pid) {
        reaped_post(pre, code, post)
    } else {
        post == pre
    }
}

/// What one reaped exit does to the whole registry: every (unit, service)
/// pair, enabled or not, is matched against the reported process id.
pub open spec fn reap_units_post(a: UnitsView, b: UnitsView, pid: i32, code: i32) -> bool {
    &&& b.enabled == a.enabled
    &&& b.units.len() == a.units.len()
    &&& forall|i: int| 0 <= i < a.units.len() ==> #[trigger] unit_shape_kept(a, b, i)
    &&& forall|i: int, l: int|
        0 <= i < a.units.len() && 0 <= l < unit_services(a.units[i].1).len() ==> reap_service_rel(
            #[trigger] unit_services(a.units[i].1)[l],
            pid,
            code,
            unit_services(b.units[i].1)[l],
        )
}

/// The (unit name, service name) identities, in order, of one unit's
/// services that track this process id and ask to be restarted.
pub open spec fn unit_restart_list(name: Seq<char>, svcs: Seq<Service>, pid: i32) -> Seq<
    (Seq<char>, Seq<char>),
>
    decreases svcs.len(),
{
    if svcs.len() == 0 {
        Seq::empty()
    } else {
        let rest = unit_restart_list(name, svcs.drop_last(), pid);
        if svcs.last().child == Some(pid) && svcs.last().restart {
            rest.push((name, svcs.last().name@))
        } else {
            rest
        }
    }
}

/// The restart identities collected from the first `upto` units.
pub open spec fn restart_list(a: UnitsView, upto: int, pid: i32) -> Seq<(Seq<char>, Seq<char>)>
    decreases upto,
{
    if upto <= 0 {
        Seq::empty()
    } else {
        restart_list(a, upto - 1, pid) + unit_restart_list(
            a.units[upto - 1].0,
            unit_services(a.units[upto - 1].1),
            pid,
        )
    }
}

/// The view of the returned restart identities.
pub open spec fn restart_pairs(r: Seq<(Name, String)>) -> Seq<(Seq<char>, Seq<char>)> {
    r.map_values(|q: (Name, String)| (q.0@, q.1@))
}

/// What one reaper iteration leaves behind for the event it observed: a
/// reaped exit updates every matching service and collects the restart
/// identities; a no-op or failed wait changes nothing.
pub open spec fn reap_step_result(
    a: UnitsView,
    b: UnitsView,
    event: ReapEvent,
    restarts: Seq<(Seq<char>, Seq<char>)>,
) -> bool {
    match event {
        ReapEvent::Exited(pid, code) => {
            &&& reap_units_post(a, b, pid, code)
            &&& restarts == restart_list(a, a.units.len() as int, pid)
        },
        _ => b == a && restarts.len() == 0,
    }
}

/// Applies one reap report to the registry: on a reaped exit, every (unit,
/// service) pair — enabled or not, since a terminated process must be
/// matched even if its unit was later disabled — whose tracked process id
/// matches records `Exited(code)` and drops its handle; the identities of
/// those with the restart flag are returned, in registry order, for the
/// caller to start again. A "none ready" or failed wait changes nothing and
/// is never fatal.
#[verifier::loop_isolation(false)]
pub fn reap_step(units: &mut Units, event: ReapEvent) -> (r: Vec<(Name, String)>)
    requires
        old(units).wf(),
    ensures
        final(units).wf(),
        reap_step_result(old(units)@, final(units)@, event, restart_pairs(r@)),
{
    let mut r: Vec<(Name, String)> = Vec::new();
    let (pid, code) = match event {
        ReapEvent::Exited(pid, code) => (pid, code),
        _ => {
            proof {
                assert(restart_pairs(r@) =~= Seq::<(Seq<char>, Seq<char>)>::empty());
            }
            return r;
        },
    };
    let ghost a = old(units)@;
    let n = units.unit_count();
    let mut i: usize = 0;
    while i < n
        invariant
            i <= n,
            n == a.units.len(),
            units.wf(),
            units@.enabled == a.enabled,
            units@.units.len() == a.units.len(),
            forall|k: int| i <= k < a.units.len() ==> #[trigger] units@.units[k] == a.units[k],
            forall|k: int| 0 <= k < i ==> #[trigger] unit_shape_kept(a, units@, k),
            forall|k: int, l: int|
                0 <= k < i && 0 <= l < unit_services(a.units[k].1).len() ==> reap_service_rel(
                    #[trigger] unit_services(a.units[k].1)[l],
                    pid,
                    code,
                    unit_services(units@.units[k].1)[l],
                ),
            restart_pairs(r@) == restart_list(a, i as int, pid),
        decreases n - i,
    {
        let m = units.service_count(i);
        let mut j: usize = 0;
        while j < m
            invariant
                j <= m,
                i < n,
                m == unit_services(a.units[i as int].1).len(),
                units.wf(),
                units@.enabled == a.enabled,
                units@.units.len() == a.units.len(),
                forall|k: int| i < k < a.units.len() ==> #[trigger] units@.units[k] == a.units[k],
                forall|k: int| 0 <= k < i ==> #[trigger] unit_shape_kept(a, units@, k),
                forall|k: int, l: int|
                    0 <= k < i && 0 <= l < unit_services(a.units[k].1).len() ==> reap_service_rel(
                        #[trigger] unit_services(a.units[k].1)[l],
                        pid,
                        code,
                        unit_services(units@.units[k].1)[l],
                    ),
                unit_shape_kept(a, units@, i as int),
                forall|l: int|
                    j <= l < unit_services(a.units[i as int].1).len()
                        ==> #[trigger] unit_services(units@.units[i as int].1)[l] == unit_services(
                        a.units[i as int].1,
                    )[l],
                forall|l: int|
                    0 <= l < j ==> reap_service_rel(
                        #[trigger] unit_services(a.units[i as int].1)[l],
                        pid,
                        code,
                        unit_services(units@.units[i as int].1)[l],
                    ),
                restart_pairs(r@) == restart_list(a, i as int, pid) + unit_restart_list(
                    a.units[i as int].0,
                    unit_services(a.units[i as int].1).take(j as int),
                    pid,
                ),
            decreases m - j,
        {
            let (matched, wants_restart, svc_name) = {
                let s = units.service_at(i, j);
                let matched = match s.child {
                    Some(p) => p == pid,
                    None => false,
                };
                (matched, s.restart, if matched && s.restart {
                    Some(s.name.clone())
                } else {
                    None
                })
            };
            proof {
                assert(unit_services(units@.units[i as int].1)[j as int] == unit_services(
                    a.units[i as int].1,
                )[j as int]);
                assert(unit_services(a.units[i as int].1).take(j + 1 as int).drop_last()
                    =~= unit_services(a.units[i as int].1).take(j as int));
            }
            let ghost prev = units@;
            if matched {
                units.reap_service_at(i, j, code);
                proof {
                    assert(only_service_changed(prev, units@, i as int, j as int));
                    assert forall|k: int|
                        0 <= k < a.units.len() && k != i as int implies #[trigger] units@.units[k]
                        == prev.units[k] by {}
                    assert forall|l: int|
                        0 <= l < unit_services(a.units[i as int].1).len() && l != j as int
                            implies #[trigger] unit_services(units@.units[i as int].1)[l]
                        == unit_services(prev.units[i as int].1)[l] by {}
                    assert forall|k: int| 0 <= k < i implies #[trigger] unit_shape_kept(
                        a,
                        units@,
                        k,
                    ) by {
                        assert(unit_shape_kept(a, prev, k));
                        assert(units@.units[k] == prev.units[k]);
                    }
                    assert(unit_shape_kept(a, units@, i as int)) by {
                        assert(unit_shape_kept(a, prev, i as int));
                    }
                }
                if wants_restart {
                    let uname = units.name_at(i).clone();
                    match svc_name {
                        Some(sn) => {
                            let ghost rpre = r@;
                            r.push((uname, sn));
                            proof {
                                let svcs = unit_services(a.units[i as int].1);
                                assert(svcs.take(j + 1 as int).last() == svcs[j as int]);
                                assert(svcs[j as int].child == Some(pid) && svcs[j as int].restart);
                                assert(unit_restart_list(a.units[i as int].0, svcs.take(j + 1 as int), pid)
                                    == unit_restart_list(
                                    a.units[i as int].0,
                                    svcs.take(j as int),
                                    pid,
                                ).push((a.units[i as int].0, svcs[j as int].name@)));
                                assert(uname@ == a.units[i as int].0);
                                assert(sn@ == svcs[j as int].name@);
                                assert(r@ == rpre.push((uname, sn)));
                                assert(restart_pairs(r@) =~= restart_pairs(rpre).push(
                                    (uname@, sn@),
                                ));
                                assert(restart_pairs(r@) =~= restart_list(a, i as int, pid)
                                    + unit_restart_list(
                                    a.units[i as int].0,
                                    svcs.take(j + 1 as int),
                                    pid,
                                ));
                            }
                        },
                        None => {
                            proof {
                                assert(false);
                            }
                        },
                    }
                }
            }
            j += 1;
        }
        proof {
            assert(unit_services(a.units[i as int].1).take(m as int) =~= unit_services(
                a.units[i as int].1,
            ));
        }
        i += 1;
    }
    r
}

/// Polls the OS once for a terminated child and applies what it reported to
/// the registry; whatever the OS answered, the registry afterwards reflects
/// exactly one reap report, and the returned identities are the services to
/// start again.
pub fn reaper_poll(units: &mut Units) -> (r: Vec<(Name, String)>)
    requires
        old(units).wf(),
    ensures
        final(units).wf(),
        exists|event: ReapEvent|
            #[trigger] reap_step_result(old(units)@, final(units)@, event, restart_pairs(r@)),
{
    let event = os_wait_any();
    let ghost witness = event;
    let r = reap_step(units, event);
    proof {
        assert(reap_step_result(old(units)@, final(units)@, witness, restart_pairs(r@)));
    }
    r
}

/// Resolves a (unit name, service name) identity to registry positions: the
/// returned positions carry exactly those names; nothing is returned when no
/// such service exists.
#[verifier::loop_isolation(false)]
pub fn find_service(units: &Units, unit_name: &str, service_name: &str) -> (r: Option<
    (usize, usize),
>)
    requires
        units.wf(),
    ensures
        match r {
            Some(p) => {
                &&& p.0 < units@.units.len()
                &&& p.1 < unit_services(units@.units[p.0 as int].1).len()
                &&& units@.units[p.0 as int].0 == unit_name@
                &&& unit_services(units@.units[p.0 as int].1)[p.1 as int].name@ == service_name@
            },
            None => forall|i: int, l: int|
                0 <= i < units@.units.len() && 0 <= l < unit_services(units@.units[i].1).len()
                    ==> !(units@.units[i].0 == unit_name@ && (#[trigger] unit_services(
                    units@.units[i].1,
                )[l]).name@ == service_name@),
        },
{
    let n = units.unit_count();
    let mut i: usize = 0;
    while i < n
        invariant
            i <= n,
            n == units@.units.len(),
            forall|k: int| 0 <= k < i ==> #[trigger] units@.units[k].0 != unit_name@,
        decreases n - i,
    {
        let hit = units.name_at(i).same_str(unit_name);
        if hit {
            let m = units.service_count(i);
            let mut j: usize = 0;
            while j < m
                invariant
                    j <= m,
                    i < n,
                    m == unit_services(units@.units[i as int].1).len(),
                    units@.units[i as int].0 == unit_name@,
                    forall|l: int|
                        0 <= l < j ==> (#[trigger] unit_services(units@.units[i as int].1)[l]).name@
                            != service_name@,
                decreases m - j,
            {
                let sn = {
                    let s = units.service_at(i, j);
                    crate::names::str_eq(s.name.as_str(), service_name)
                };
                if sn {
                    return Some((i, j));
                }
                j += 1;
            }
            proof {
                assert forall|k: int, l: int|
                    0 <= k < units@.units.len() && 0 <= l < unit_services(units@.units[k].1).len()
                        implies !(units@.units[k].0 == unit_name@ && (#[trigger] unit_services(
                    units@.units[k].1,
                )[l]).name@ == service_name@) by {
                    if units@.units[k].0 == unit_name@ {
                        assert(units.unit_names()[k] == units@.units[k].0);
                        assert(units.unit_names()[i as int] == units@.units[i as int].0);
                        assert(k == i);
                    }
                }
            }
            return None;
        }
        i += 1;
    }
    proof {
        assert forall|k: int, l: int|
            0 <= k < units@.units.len() && 0 <= l < unit_services(units@.units[k].1).len()
                implies !(units@.units[k].0 == unit_name@ && (#[trigger] unit_services(
            units@.units[k].1,
        )[l]).name@ == service_name@) by {}
    }
    None
}

} // verus!

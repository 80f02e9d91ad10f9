use rind::names::Name;
use rind::services::{
    find_service, reap_step, reaper_poll, start_service, start_services, stop_service, ReapEvent,
    Service, ServiceState, SpawnOutcome,
};
use rind::units::{Unit, Units};

fn svc(name: &str, executable: &str, restart: bool) -> Service {
    Service {
        name: name.to_string(),
        executable: executable.to_string(),
        args: Vec::new(),
        restart,
        child: None,
        last_state: ServiceState::Inactive,
    }
}

fn unit_with(services: Vec<Service>) -> Unit {
    Unit { service: Some(services), socket: None, mount: None }
}

#[test]
fn failed_spawn_sets_error_and_tracks_nothing() {
    let mut s = svc("web", "/no/such/binary", false);
    start_service(
        &mut s,
        SpawnOutcome::Failed("No such file or directory (os error 2)".to_string()),
    );
    assert!(s.child.is_none());
    match &s.last_state {
        ServiceState::Error(m) => {
            assert_eq!(
                m,
                "Failed to start service \"web\": No such file or directory (os error 2)"
            );
        }
        _ => panic!("expected an error state"),
    }
}

#[test]
fn successful_spawn_activates_and_tracks_pid() {
    let mut s = svc("web", "/bin/true", false);
    start_service(&mut s, SpawnOutcome::Spawned(4242));
    assert_eq!(s.child, Some(4242));
    assert!(matches!(s.last_state, ServiceState::Active));
}

#[test]
fn reap_without_restart_keeps_exited() {
    let mut units = Units::new();
    units.insert_unit(Name::new("a"), unit_with(vec![svc("one", "/bin/true", false)]));
    units.parse_enabled("a");
    start_services(&mut units, &vec![vec![SpawnOutcome::Spawned(4242)]]);
    assert!(matches!(units.service_at(0, 0).last_state, ServiceState::Active));

    let restarts = reap_step(&mut units, ReapEvent::Exited(4242, 7));
    let s = units.service_at(0, 0);
    assert!(matches!(s.last_state, ServiceState::Exited(7)));
    assert!(s.child.is_none());
    // restart=false: nothing is queued, no further spawn occurs.
    assert!(restarts.is_empty());
}

#[test]
fn reap_with_restart_queues_exactly_one_spawn() {
    let mut units = Units::new();
    units.insert_unit(Name::new("a"), unit_with(vec![svc("one", "/bin/true", true)]));
    units.parse_enabled("a");
    start_services(&mut units, &vec![vec![SpawnOutcome::Spawned(4242)]]);

    let restarts = reap_step(&mut units, ReapEvent::Exited(4242, 0));
    assert_eq!(restarts.len(), 1);
    assert_eq!(restarts[0].0.to_string(), "a");
    assert_eq!(restarts[0].1, "one");

    // The caller re-resolves each queued identity and starts it again.
    let (ui, si) =
        find_service(&units, restarts[0].0.as_str(), &restarts[0].1).expect("identity resolves");
    units.start_service_at(ui, si, SpawnOutcome::Spawned(4343));
    let s = units.service_at(0, 0);
    assert!(matches!(s.last_state, ServiceState::Active));
    assert_eq!(s.child, Some(4343));
    assert_ne!(s.child, Some(4242));
}

#[test]
fn reap_ignores_unmatched_and_idle_reports() {
    let mut units = Units::new();
    units.insert_unit(Name::new("a"), unit_with(vec![svc("one", "/bin/true", true)]));
    units.parse_enabled("a");
    start_services(&mut units, &vec![vec![SpawnOutcome::Spawned(10)]]);

    // An exit of a process nobody tracks finds no matching handle.
    let restarts = reap_step(&mut units, ReapEvent::Exited(99, 1));
    assert!(restarts.is_empty());
    assert!(matches!(units.service_at(0, 0).last_state, ServiceState::Active));

    // A no-op iteration and a failed wait change nothing.
    assert!(reap_step(&mut units, ReapEvent::NoneReady).is_empty());
    assert!(reap_step(&mut units, ReapEvent::WaitError).is_empty());
    assert_eq!(units.service_at(0, 0).child, Some(10));
}

#[test]
fn stop_twice_on_inactive_service_is_a_no_op() {
    let mut s = svc("idle", "/bin/true", false);
    stop_service(&mut s, false);
    stop_service(&mut s, true);
    assert!(s.child.is_none());
    assert!(matches!(s.last_state, ServiceState::Inactive));
}

#[test]
fn stop_of_reaped_exit_is_ignored_by_reaper() {
    // A stop drops the handle at once; the later reaped exit of that process
    // finds no matching tracked handle and leaves the state alone.
    let mut units = Units::new();
    units.insert_unit(Name::new("a"), unit_with(vec![svc("one", "/bin/true", true)]));
    units.parse_enabled("a");
    start_services(&mut units, &vec![vec![SpawnOutcome::Spawned(99999999)]]);
    // No process has this id (it is beyond any real pid range), so the
    // termination request fails and the library ignores that.
    units.stop_service_at(0, 0, false);
    assert!(matches!(units.service_at(0, 0).last_state, ServiceState::Inactive));

    let restarts = reap_step(&mut units, ReapEvent::Exited(99999999, 0));
    assert!(restarts.is_empty());
    assert!(matches!(units.service_at(0, 0).last_state, ServiceState::Inactive));
}

#[test]
fn end_to_end_enabled_unit_runs_disabled_stays_inactive() {
    let mut units = Units::new();
    units.insert_unit(Name::new("a"), unit_with(vec![svc("worker", "/bin/true", false)]));
    units.insert_unit(Name::new("b"), unit_with(vec![svc("other", "/bin/true", false)]));
    units.parse_enabled("a");

    // Only unit "a" is enabled, so only its service is spawned.
    start_services(&mut units, &vec![vec![SpawnOutcome::Spawned(600)], vec![]]);
    assert!(matches!(units.service_at(0, 0).last_state, ServiceState::Active));
    assert!(matches!(units.service_at(1, 0).last_state, ServiceState::Inactive));
    assert!(units.service_at(1, 0).child.is_none());

    // One reaper pass after the child exits cleanly.
    let restarts = reap_step(&mut units, ReapEvent::Exited(600, 0));
    assert!(restarts.is_empty());
    assert!(matches!(units.service_at(0, 0).last_state, ServiceState::Exited(0)));
    assert!(matches!(units.service_at(1, 0).last_state, ServiceState::Inactive));
    assert!(units.service_at(1, 0).child.is_none());
}

#[test]
fn start_services_has_no_already_active_guard() {
    let mut units = Units::new();
    units.insert_unit(Name::new("a"), unit_with(vec![svc("one", "/bin/true", false)]));
    units.parse_enabled("a");
    start_services(&mut units, &vec![vec![SpawnOutcome::Spawned(1)]]);
    // A second pass spawns again and silently overwrites the tracked handle.
    start_services(&mut units, &vec![vec![SpawnOutcome::Spawned(2)]]);
    assert_eq!(units.service_at(0, 0).child, Some(2));
}

#[test]
fn reaper_poll_without_children_is_a_no_op() {
    // This process has no children, so the wait call reports a failure and
    // the poll must leave the registry untouched.
    let mut units = Units::new();
    units.insert_unit(Name::new("a"), unit_with(vec![svc("one", "/bin/true", true)]));
    units.parse_enabled("a");
    start_services(&mut units, &vec![vec![SpawnOutcome::Spawned(12)]]);
    let restarts = reaper_poll(&mut units);
    assert!(restarts.is_empty());
    let s = units.service_at(0, 0);
    assert!(matches!(s.last_state, ServiceState::Active));
    assert_eq!(s.child, Some(12));
}

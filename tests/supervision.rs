use ultraman::output::{format_line, pad_name};
use ultraman::supervisor::{int_string, Phase, ProcessRecord, Registry, Supervisor, WaitEvent};

fn rec(index: usize, name: &str, pid: i32) -> ProcessRecord {
    ProcessRecord { index, name: name.to_string(), pid }
}

fn started(pids: &[(i32, &str)]) -> Supervisor {
    let mut s = Supervisor::new(pids.len());
    for (i, (pid, name)) in pids.iter().enumerate() {
        assert!(!s.may_output() || pids.is_empty());
        assert!(s.register(rec(i, name, *pid)));
    }
    s
}

#[test]
fn registry_refuses_duplicate_pid() {
    let mut r = Registry::new();
    assert!(r.register(rec(0, "web.1", 10)));
    assert!(!r.register(rec(1, "web.2", 10)));
    assert_eq!(r.len(), 1);
    assert_eq!(r.remove(10).map(|p| p.name), Some("web.1".to_string()));
    assert!(r.remove(10).is_none());
    assert!(r.is_empty());
}

#[test]
fn barrier_opens_after_last_registration() {
    let mut s = Supervisor::new(2);
    assert!(!s.may_output());
    assert!(s.register(rec(0, "web.1", 11)));
    assert!(!s.may_output());
    assert_eq!(s.phase, Phase::Starting);
    assert!(s.register(rec(1, "web.2", 12)));
    assert!(s.may_output());
    assert_eq!(s.phase, Phase::Running);
}

#[test]
fn empty_formation_exits_zero_at_once() {
    let mut s = Supervisor::new(0);
    assert!(s.may_output());
    let a = s.on_wait(WaitEvent::NoChildren);
    assert_eq!(a.exit, Some(0));
    assert!(a.terminate.is_empty());
}

#[test]
fn graceful_shutdown_scenario() {
    let mut s = started(&[(100, "sleep.1")]);
    let (line, pids) = s.on_signal("SIGINT");
    assert_eq!(line, "SIGINT received");
    assert_eq!(pids, vec![100]);
    let a = s.on_wait(WaitEvent::Signaled(100, "SIGTERM".to_string()));
    let log = a.log.unwrap();
    assert_eq!(log.name, "sleep.1");
    assert_eq!(log.message, "terminated by SIGTERM");
    assert_eq!(a.exit, Some(0));
    assert!(s.registry.is_empty());
}

#[test]
fn escalation_scenario() {
    let mut s = started(&[(200, "stubborn.1")]);
    assert!(s.on_deadline().is_empty());
    let (_, pids) = s.on_signal("SIGINT");
    assert_eq!(pids, vec![200]);
    assert_eq!(s.on_deadline(), vec![200]);
    let a = s.on_wait(WaitEvent::Signaled(200, "SIGKILL".to_string()));
    assert_eq!(a.exit, Some(0));
    assert!(s.on_deadline().is_empty());
}

#[test]
fn natural_death_cascades_scenario() {
    let mut s = started(&[(300, "fast.1"), (301, "slow.1")]);
    let a = s.on_wait(WaitEvent::Exited(300, 7));
    assert_eq!(a.log.unwrap().message, "exited with code 7");
    assert_eq!(a.terminate, vec![301]);
    assert_eq!(a.exit, None);
    assert_eq!(s.phase, Phase::Stopping(7));
    let b = s.on_wait(WaitEvent::Signaled(301, "SIGTERM".to_string()));
    assert!(b.terminate.is_empty());
    assert_eq!(b.exit, Some(7));
    let c = s.on_wait(WaitEvent::NoChildren);
    assert_eq!(c.exit, Some(7));
}

#[test]
fn cascade_works_once() {
    let mut s = started(&[(1, "a.1"), (2, "a.2")]);
    assert_eq!(s.cascade(3), vec![1, 2]);
    assert!(s.cascade(4).is_empty());
    assert!(s.cascade(0).is_empty());
    assert_eq!(s.phase, Phase::Stopping(3));
    let (_, pids) = s.on_signal("SIGTERM");
    assert!(pids.is_empty());
    assert_eq!(s.registry.len(), 2);
}

#[test]
fn not_ready_and_unknown_pid() {
    let mut s = started(&[(5, "w.1")]);
    let a = s.on_wait(WaitEvent::NotReady);
    assert!(a.log.is_none() && a.exit.is_none() && a.terminate.is_empty());
    let b = s.on_wait(WaitEvent::Signaled(99, "SIGTERM".to_string()));
    assert!(b.log.is_none());
    assert_eq!(s.registry.len(), 1);
}

#[test]
fn int_text() {
    assert_eq!(int_string(0), "0");
    assert_eq!(int_string(-1), "-1");
    assert_eq!(int_string(i32::MIN), i32::MIN.to_string());
    assert_eq!(int_string(255), "255");
}

#[test]
fn output_lines() {
    assert_eq!(pad_name("web.1", 8), "web.1   ");
    assert_eq!(pad_name("worker.10", 4), "worker.10");
    assert_eq!(format_line("web.1", 8, Some(0), Some("12:00:01"), false, "hello"), "[12:00:01] web.1    | hello");
    assert_eq!(format_line("system", 6, None, None, false, "x"), "system | x");
    assert_eq!(
        format_line("web.1", 5, Some(7), None, true, "hi"),
        "\u{1b}[33mweb.1 |\u{1b}[0m hi"
    );
}

#[test]
fn early_exit_is_found_after_barrier() {
    // the child with pid 41 has already ended when the last replica registers
    let mut s = Supervisor::new(2);
    assert!(s.register(rec(0, "fast.1", 41)));
    assert!(!s.may_output());
    assert!(s.register(rec(1, "slow.1", 42)));
    assert!(s.may_output());
    let a = s.on_wait(WaitEvent::Exited(41, 0));
    let log = a.log.unwrap();
    assert_eq!(log.name, "fast.1");
    assert_eq!(log.index, 0);
    assert_eq!(a.terminate, vec![42]);
}

fn pids_of(s: &Supervisor) -> Vec<i32> {
    s.registry.pids()
}

#[test]
fn reaping_keeps_the_other_children_in_order() {
    let mut s = started(&[(1, "a.1"), (2, "b.1"), (3, "c.1")]);
    let a = s.on_wait(WaitEvent::Signaled(2, "SIGTERM".to_string()));
    let log = a.log.unwrap();
    assert_eq!((log.name.as_str(), log.index), ("b.1", 1));
    assert_eq!(pids_of(&s), vec![1, 3]);
    assert!(a.terminate.is_empty());
    let b = s.on_wait(WaitEvent::Exited(1, 2));
    assert_eq!(b.log.unwrap().name, "a.1");
    assert_eq!(pids_of(&s), vec![3]);
    assert_eq!(b.terminate, vec![3]);
}

#[test]
fn unregistered_pid_changes_nothing() {
    let mut s = started(&[(1, "a.1"), (2, "b.1")]);
    let a = s.on_wait(WaitEvent::Exited(9, 1));
    assert!(a.log.is_none());
    assert_eq!(pids_of(&s), vec![1, 2]);
    assert_eq!(a.terminate, vec![1, 2]);
    assert_eq!(s.phase, Phase::Stopping(1));
}

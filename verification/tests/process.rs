use server_start::config::{OutputMode, ServerConfig};
use server_start::ports::listening_ports;
use server_start::process::{wait_for_release, ProcessManager, RunState};
use std::collections::HashMap;

fn server(name: &str, port: Option<u16>) -> ServerConfig {
    ServerConfig {
        name: name.to_string(),
        dir: "C:/x".to_string(),
        cmd: "npm run dev".to_string(),
        env: Vec::new(),
        output: None,
        port,
    }
}

/// The outside world as the tests see it: every effect is logged in order.
struct World {
    next_pid: u32,
    log: Vec<String>,
    fail: Option<String>,
    /// Answers of the port probe, in order; `false` once they run out.
    taken: Vec<bool>,
}

impl World {
    fn new() -> World {
        World { next_pid: 100, log: Vec::new(), fail: None, taken: Vec::new() }
    }
}

fn spawn(mut w: World, c: &ServerConfig, m: OutputMode) -> (World, Result<u32, String>) {
    if w.fail.as_deref() == Some(c.name.as_str()) {
        w.log.push(format!("spawn failed {}", c.name));
        return (w, Err(format!("Failed to start '{}': boom", c.name)));
    }
    w.next_pid += 1;
    w.log.push(format!("spawn {} {:?} -> {}", c.name, m, w.next_pid));
    let pid = w.next_pid;
    (w, Ok(pid))
}

fn kill(mut w: World, pid: u32) -> World {
    w.log.push(format!("kill {}", pid));
    w
}

fn kill_pid(mut w: World, pid: u32) -> World {
    w.log.push(format!("kill tree {}", pid));
    w
}

fn listening(mut w: World, port: u16) -> (World, bool) {
    let taken = if w.taken.is_empty() { false } else { w.taken.remove(0) };
    w.log.push(format!("probe {} {}", port, taken));
    (w, taken)
}

fn pause(mut w: World) -> World {
    w.log.push("pause".to_string());
    w
}

fn names(v: &[&str]) -> Vec<String> {
    v.iter().map(|s| s.to_string()).collect()
}

fn log(w: &World) -> Vec<&str> {
    w.log.iter().map(|s| s.as_str()).collect()
}

#[test]
fn start_stop_restart_single_server() {
    let none = HashMap::new();
    let mut w = World::new();
    let mut r;
    let mut mgr: ProcessManager<u32> = ProcessManager::new(vec![server("web", None), server("api", None)], OutputMode::Terminal);
    assert_eq!(mgr.server_count(), 2);
    assert!(!mgr.is_running(0));
    (w, r) = mgr.start(w, 0, &none, &spawn);
    assert_eq!(r, Ok(()));
    assert!(mgr.is_running(0));
    (w, r) = mgr.start(w, 0, &none, &spawn);
    assert_eq!(r, Err("'web' is already running".to_string()));
    (w, r) = mgr.restart(w, 0, &none, &spawn, &kill, &kill_pid, &listening, &pause);
    assert_eq!(r, Ok(()));
    (w, r) = mgr.stop(w, 0, &none, &kill, &kill_pid);
    assert_eq!(r, Ok(()));
    assert!(!mgr.is_running(0));
    (w, r) = mgr.stop(w, 0, &none, &kill, &kill_pid);
    assert_eq!(r, Ok(()));
    // Spawned once per start, and the restart killed before it spawned.
    assert_eq!(
        log(&w),
        vec!["spawn web Terminal -> 101", "kill 101", "spawn web Terminal -> 102", "kill 102"]
    );
}

#[test]
fn unknown_server_errors() {
    let none = HashMap::new();
    let mut w = World::new();
    let mut r;
    let mut mgr: ProcessManager<u32> = ProcessManager::new(vec![server("web", None)], OutputMode::Terminal);
    (w, r) = mgr.start(w, 7, &none, &spawn);
    assert_eq!(r, Err("Server 7 not found".to_string()));
    (w, r) = mgr.stop(w, 12, &none, &kill, &kill_pid);
    assert_eq!(r, Err("Server 12 not found".to_string()));
    (w, r) = mgr.restart(w, 1, &none, &spawn, &kill, &kill_pid, &listening, &pause);
    assert_eq!(r, Err("Server 1 not found".to_string()));
    (w, r) = mgr.set_output_mode(w, 3, OutputMode::Hidden, &spawn, &kill);
    assert_eq!(r, Err("Server 3 not found".to_string()));
    assert!(!mgr.is_running(7));
    assert_eq!(mgr.server_name(1), None);
    assert_eq!(mgr.server_output_mode(1), None);
    assert!(w.log.is_empty());
}

#[test]
fn spawn_failure_leaves_server_stopped() {
    let none = HashMap::new();
    let mut w = World::new();
    w.fail = Some("web".to_string());
    let mut mgr: ProcessManager<u32> = ProcessManager::new(vec![server("web", None)], OutputMode::Terminal);
    let (w, r) = mgr.start(w, 0, &none, &spawn);
    assert_eq!(r, Err("Failed to start 'web': boom".to_string()));
    assert!(!mgr.is_running(0));
    assert_eq!(log(&w), vec!["spawn failed web"]);
}

#[test]
fn bulk_actions() {
    let none = HashMap::new();
    let mut w = World::new();
    let mut results;
    let mut mgr: ProcessManager<u32> =
        ProcessManager::new(vec![server("a", None), server("b", None), server("c", None)], OutputMode::Terminal);
    (w, _) = mgr.start(w, 1, &none, &spawn);
    (w, results) = mgr.start_all(w, &spawn);
    assert_eq!(results, vec![Ok(()), Err("'b' is already running".to_string()), Ok(())]);
    assert!(mgr.any_running());
    w = mgr.stop_all(w, &kill);
    assert!(!mgr.any_running());
    (w, results) = mgr.restart_all(w, &spawn, &kill);
    assert_eq!(results, vec![Ok(()), Ok(()), Ok(())]);
    assert!((0..3).all(|i| mgr.is_running(i)));
    assert_eq!(
        log(&w),
        vec![
            "spawn b Terminal -> 101",
            "spawn a Terminal -> 102",
            "spawn c Terminal -> 103",
            "kill 102",
            "kill 101",
            "kill 103",
            "spawn a Terminal -> 104",
            "spawn b Terminal -> 105",
            "spawn c Terminal -> 106",
        ]
    );
}

#[test]
fn restart_all_stops_everything_before_starting() {
    let mut w = World::new();
    let mut mgr: ProcessManager<u32> = ProcessManager::new(vec![server("a", None), server("b", None)], OutputMode::Hidden);
    (w, _) = mgr.start_all(w, &spawn);
    w.log.clear();
    (w, _) = mgr.restart_all(w, &spawn, &kill);
    assert_eq!(log(&w), vec!["kill 101", "kill 102", "spawn a Hidden -> 103", "spawn b Hidden -> 104"]);
}

#[test]
fn names_and_modes() {
    let mut api = server("api", None);
    api.output = Some(OutputMode::Logfile);
    let mgr: ProcessManager<u32> = ProcessManager::new(vec![server("web", None), api, server("web", None)], OutputMode::Hidden);
    assert_eq!(mgr.server_name(1), Some("api"));
    assert_eq!(mgr.server_output_mode(0), Some(OutputMode::Hidden));
    assert_eq!(mgr.server_output_mode(1), Some(OutputMode::Logfile));
    assert_eq!(mgr.server_id_by_name("web"), Some(0));
    assert_eq!(mgr.server_id_by_name("api"), Some(1));
    assert_eq!(mgr.server_id_by_name("db"), None);
}

#[test]
fn set_output_mode_restarts_running_server() {
    let none = HashMap::new();
    let mut w = World::new();
    let mut r;
    let mut mgr: ProcessManager<u32> = ProcessManager::new(vec![server("web", None), server("api", None)], OutputMode::Terminal);
    (w, _) = mgr.start(w, 0, &none, &spawn);
    (w, r) = mgr.set_output_mode(w, 0, OutputMode::Logfile, &spawn, &kill);
    assert_eq!(r, Ok(()));
    assert_eq!(mgr.server_output_mode(0), Some(OutputMode::Logfile));
    assert!(mgr.is_running(0));
    (w, r) = mgr.set_output_mode(w, 1, OutputMode::Hidden, &spawn, &kill);
    assert_eq!(r, Ok(()));
    assert!(!mgr.is_running(1));
    assert_eq!(mgr.server_output_mode(1), Some(OutputMode::Hidden));
    assert_eq!(log(&w), vec!["spawn web Terminal -> 101", "kill 101", "spawn web Logfile -> 102"]);
}

#[test]
fn groups_act_on_named_servers_once() {
    let mut w = World::new();
    let mut results;
    let mut mgr: ProcessManager<u32> =
        ProcessManager::new(vec![server("a", None), server("b", None), server("c", None)], OutputMode::Terminal);
    let group = names(&["c", "missing", "a", "c"]);
    assert_eq!(mgr.group_members(&group), vec![2, 0]);
    assert_eq!(mgr.group_status(&group), (0, 3));
    (w, results) = mgr.start_group(w, &group, &spawn);
    assert_eq!(results, vec![Ok(()), Ok(())]);
    assert!(mgr.is_running(0) && !mgr.is_running(1) && mgr.is_running(2));
    assert_eq!(mgr.group_status(&group), (3, 3));
    (w, results) = mgr.restart_group(w, &group, &spawn, &kill);
    assert_eq!(results, vec![Ok(()), Ok(())]);
    w = mgr.stop_group(w, &group, &kill);
    assert!(!mgr.any_running());
    assert_eq!(
        log(&w),
        vec![
            "spawn c Terminal -> 101",
            "spawn a Terminal -> 102",
            "kill 101",
            "kill 102",
            "spawn c Terminal -> 103",
            "spawn a Terminal -> 104",
            "kill 103",
            "kill 104",
        ]
    );
}

#[test]
fn reload_keeps_unchanged_servers() {
    let none = HashMap::new();
    let mut w = World::new();
    let mut mgr: ProcessManager<u32> = ProcessManager::new(
        vec![server("web", Some(5173)), server("api", None), server("db", None)],
        OutputMode::Terminal,
    );
    (w, _) = mgr.start_all(w, &spawn);
    // web changes port only, api changes its command, db is removed, a new server appears first.
    let mut api = server("api", None);
    api.cmd = "cargo run".to_string();
    w = mgr.reload(w, vec![server("new", None), api, server("web", Some(8080))], OutputMode::Terminal, &kill);
    assert_eq!(mgr.server_count(), 3);
    assert_eq!(mgr.server_name(0), Some("new"));
    assert!(!mgr.is_running(0));
    assert!(!mgr.is_running(1));
    assert!(mgr.is_running(2));
    assert_eq!(&log(&w)[3..], &["kill 102", "kill 103"]);
    // The kept process is the original one.
    (w, _) = mgr.stop(w, 2, &none, &kill, &kill_pid);
    assert_eq!(*log(&w).last().unwrap(), "kill 101");
}

#[test]
fn reload_restarts_on_mode_change() {
    let none = HashMap::new();
    let mut w = World::new();
    let mut mgr: ProcessManager<u32> = ProcessManager::new(vec![server("web", None)], OutputMode::Terminal);
    (w, _) = mgr.start(w, 0, &none, &spawn);
    w = mgr.reload(w, vec![server("web", None)], OutputMode::Hidden, &kill);
    assert!(!mgr.is_running(0));
    assert_eq!(*log(&w).last().unwrap(), "kill 101");
    assert_eq!(mgr.server_output_mode(0), Some(OutputMode::Hidden));
}

#[test]
fn run_state_detects_external() {
    let none = HashMap::new();
    let w = World::new();
    let mut mgr: ProcessManager<u32> =
        ProcessManager::new(vec![server("web", Some(5173)), server("api", Some(3000)), server("db", None)], OutputMode::Terminal);
    let mut ports = HashMap::new();
    ports.insert(5173u16, 4242u32);
    ports.insert(3000u16, 17u32);
    assert_eq!(mgr.run_state(0, &ports), Some(RunState::External { pid: 4242 }));
    assert_eq!(mgr.run_state(2, &ports), Some(RunState::Stopped));
    let _ = mgr.start(w, 1, &none, &spawn);
    assert_eq!(mgr.run_state(1, &ports), Some(RunState::Running));
    assert_eq!(mgr.run_state(0, &listening_ports(&[], &[])), Some(RunState::Stopped));
    assert_eq!(mgr.run_state(3, &ports), None);
}

#[test]
fn exited_processes_are_detected() {
    let none = HashMap::new();
    let mut w = World::new();
    let mut mgr: ProcessManager<u32> =
        ProcessManager::new(vec![server("a", None), server("b", None), server("c", None)], OutputMode::Terminal);
    (w, _) = mgr.start(w, 0, &none, &spawn);
    (w, _) = mgr.start(w, 1, &none, &spawn);
    // The process of "a" (PID 101) has exited; "b" is alive; "c" never ran.
    let asked = std::cell::RefCell::new(Vec::new());
    let exited = |pid: &u32| {
        asked.borrow_mut().push(*pid);
        *pid == 101
    };
    assert_eq!(mgr.poll_exits(&exited), vec![true, false, false]);
    assert_eq!(*asked.borrow(), vec![101, 102]);
    assert!(!mgr.is_running(0));
    assert!(mgr.is_running(1));
    assert!(!mgr.is_running(2));
    assert_eq!(mgr.run_state(0, &HashMap::new()), Some(RunState::Stopped));
    // A crashed server can be started again.
    let (_, r) = mgr.start(w, 0, &none, &spawn);
    assert_eq!(r, Ok(()));
}

#[test]
fn clear_exited_drops_marked_handles_only() {
    let w = World::new();
    let mut mgr: ProcessManager<u32> = ProcessManager::new(vec![server("a", None), server("b", None)], OutputMode::Terminal);
    let _ = mgr.start_all(w, &spawn);
    mgr.clear_exited(&vec![false, true, true]);
    assert!(mgr.is_running(0));
    assert!(!mgr.is_running(1));
    mgr.clear_exited(&vec![]);
    assert!(mgr.is_running(0));
}

#[test]
fn start_refuses_external_server() {
    let mut w = World::new();
    let mut r;
    let mut mgr: ProcessManager<u32> =
        ProcessManager::new(vec![server("web", Some(5173)), server("api", Some(3000))], OutputMode::Terminal);
    let mut ports = HashMap::new();
    ports.insert(5173u16, 4242u32);
    (w, r) = mgr.start(w, 0, &ports, &spawn);
    assert_eq!(r, Err("'web' is already running outside Server Start (PID 4242)".to_string()));
    assert!(!mgr.is_running(0));
    assert!(w.log.is_empty());
    (w, r) = mgr.start(w, 1, &ports, &spawn);
    assert_eq!(r, Ok(()));
    assert!(mgr.is_running(1));
    (w, r) = mgr.start(w, 1, &ports, &spawn);
    assert_eq!(r, Err("'api' is already running".to_string()));
    (w, r) = mgr.start(w, 5, &ports, &spawn);
    assert_eq!(r, Err("Server 5 not found".to_string()));
    assert_eq!(log(&w), vec!["spawn api Terminal -> 101"]);
}

#[test]
fn stop_kills_external_server_tree() {
    let none = HashMap::new();
    let mut w = World::new();
    let mut r;
    let mut mgr: ProcessManager<u32> =
        ProcessManager::new(vec![server("web", Some(5173)), server("api", None)], OutputMode::Terminal);
    let mut ports = HashMap::new();
    ports.insert(5173u16, 4242u32);
    (w, r) = mgr.stop(w, 0, &ports, &kill, &kill_pid);
    assert_eq!(r, Ok(()));
    (w, _) = mgr.start(w, 1, &none, &spawn);
    (w, r) = mgr.stop(w, 1, &ports, &kill, &kill_pid);
    assert_eq!(r, Ok(()));
    (w, r) = mgr.stop(w, 9, &ports, &kill, &kill_pid);
    assert_eq!(r, Err("Server 9 not found".to_string()));
    assert_eq!(log(&w), vec!["kill tree 4242", "spawn api Terminal -> 101", "kill 101"]);
}

#[test]
fn restart_adopts_external_server() {
    let mut w = World::new();
    w.taken = vec![true, true, false];
    let mut r;
    let mut mgr: ProcessManager<u32> = ProcessManager::new(vec![server("web", Some(5173))], OutputMode::Terminal);
    let mut ports = HashMap::new();
    ports.insert(5173u16, 4242u32);
    (w, r) = mgr.restart(w, 0, &ports, &spawn, &kill, &kill_pid, &listening, &pause);
    assert_eq!(r, Ok(()));
    assert!(mgr.is_running(0));
    // Now managed: a restart kills the manager's own process.
    (w, r) = mgr.restart(w, 0, &ports, &spawn, &kill, &kill_pid, &listening, &pause);
    assert_eq!(r, Ok(()));
    assert_eq!(
        log(&w),
        vec![
            "kill tree 4242",
            "probe 5173 true",
            "pause",
            "probe 5173 true",
            "pause",
            "probe 5173 false",
            "spawn web Terminal -> 101",
            "kill 101",
            "spawn web Terminal -> 102",
        ]
    );
}

#[test]
fn release_wait_gives_up_after_the_poll_limit() {
    let mut w = World::new();
    w.taken = vec![true; 60];
    let (w, released) = wait_for_release(w, 80, &listening, &pause);
    assert!(!released);
    assert_eq!(w.log.iter().filter(|e| e.starts_with("probe")).count(), 50);
    assert_eq!(w.log.iter().filter(|e| *e == "pause").count(), 50);
    assert_eq!(w.log[0], "probe 80 true");
    assert_eq!(w.log[1], "pause");
    let (w, released) = wait_for_release(World::new(), 80, &listening, &pause);
    assert!(released);
    assert_eq!(log(&w), vec!["probe 80 false"]);
}

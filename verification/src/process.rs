//! Bookkeeping of the managed server processes.
//!
//! The manager keeps, for every configured server, its configuration and the
//! handle of the process it spawned, if one is running. Spawning and killing
//! are done by the caller's `spawn` and `kill` functions; the manager
//! decides when to call them and records what came back.
//!
//! Every such function takes the state of the outside world (a value of the
//! caller's type `W`) and hands back the state after its effect; the manager
//! passes each state on to the next call and returns the last one. The
//! contracts follow this chain, so they state which effects happen, how
//! many times, and in which order.
use std::collections::HashMap;
use vstd::prelude::*;

use crate::config::{effective_mode, same_spawn_fields, OutputMode, ServerConfig};
use crate::text::{decimal, push_decimal, same_text};

verus! {

struct ManagedProcess<H> {
    config: ServerConfig,
    handle: Option<H>,
}

/// The configured servers and the processes spawned for them. Server ids
/// are positions in the configuration, from 0.
pub struct ProcessManager<H> {
    processes: Vec<ManagedProcess<H>>,
    output: OutputMode,
}

/// What the tray shows for a server.
#[derive(Debug, Clone, Copy, PartialEq, Eq, Structural)]
pub enum RunState {
    /// Spawned by this manager and not stopped since.
    Running,
    /// Not spawned by this manager, but something listens on its port.
    External { pid: u32 },
    /// Neither.
    Stopped,
}

/// The error for an id that names no server.
pub open spec fn not_found_message(id: nat) -> Seq<char> {
    "Server "@ + decimal(id) + " not found"@
}

/// The error for starting a server that is already running.
pub open spec fn already_running_message(name: Seq<char>) -> Seq<char> {
    "'"@ + name + "' is already running"@
}

/// What starting one server does, the world going from `w0` to `w1`: a
/// running server is left alone and the start fails, with no effect;
/// otherwise `spawn` is called once, with the server's configuration and
/// output mode, and the server runs with the handle it returned, or stays
/// stopped and the start fails with its error.
pub open spec fn start_outcome<W, H, F: Fn(W, &ServerConfig, OutputMode) -> (W, Result<H, String>)>(
    spawn: F,
    w0: W,
    w1: W,
    config: ServerConfig,
    mode: OutputMode,
    before: Option<H>,
    after: Option<H>,
    res: Result<(), String>,
) -> bool {
    match before {
        Some(_) => w1 == w0 && after == before && (res matches Err(e) && e@ == already_running_message(config.name@)),
        None => match res {
            Ok(_) => after matches Some(h) && call_ensures(spawn, (w0, &config, mode), (w1, Ok(h))),
            Err(e) => after is None && call_ensures(spawn, (w0, &config, mode), (w1, Err(e))),
        },
    }
}

/// What stopping one server does to the world, from `w0` to `w1`: the
/// process of a running server is handed to `kill`, once; a stopped server
/// has no effect.
pub open spec fn killed<W, H, K: Fn(W, H) -> W>(kill: K, w0: W, w1: W, before: Option<H>) -> bool {
    match before {
        Some(h) => call_ensures(kill, (w0, h), w1),
        None => w1 == w0,
    }
}

/// The servers `targets` were started one after the other, the world going
/// through `ws`: the `k`-th start takes it from `ws[k]` to `ws[k + 1]`.
pub open spec fn starts_in_turn<W, H, F: Fn(W, &ServerConfig, OutputMode) -> (W, Result<H, String>)>(
    spawn: F,
    ws: Seq<W>,
    configs: Seq<ServerConfig>,
    modes: Seq<OutputMode>,
    targets: Seq<usize>,
    before: Seq<Option<H>>,
    after: Seq<Option<H>>,
    results: Seq<Result<(), String>>,
) -> bool {
    &&& ws.len() == targets.len() + 1
    &&& forall|k: int|
        #![trigger targets[k]]
        0 <= k < targets.len() ==> start_outcome(
            spawn,
            ws[k],
            ws[k + 1],
            configs[targets[k] as int],
            modes[targets[k] as int],
            before[targets[k] as int],
            after[targets[k] as int],
            results[k],
        )
}

/// The servers `targets` were stopped one after the other, the world going
/// through `ws`.
pub open spec fn kills_in_turn<W, H, K: Fn(W, H) -> W>(
    kill: K,
    ws: Seq<W>,
    targets: Seq<usize>,
    before: Seq<Option<H>>,
) -> bool {
    &&& ws.len() == targets.len() + 1
    &&& forall|k: int| #![trigger targets[k]] 0 <= k < targets.len() ==> killed(kill, ws[k], ws[k + 1], before[targets[k] as int])
}

/// `n` servers, none of them running.
pub open spec fn no_handles<H>(n: nat) -> Seq<Option<H>> {
    Seq::new(n, |i: int| None::<H>)
}

/// The ids `0..n`, in order.
pub open spec fn id_range(n: nat) -> Seq<usize> {
    Seq::new(n, |i: int| i as usize)
}

/// Whether the ids are distinct and name servers of a list of `n`.
pub open spec fn valid_targets(targets: Seq<usize>, n: nat) -> bool {
    &&& forall|k: int| 0 <= k < targets.len() ==> targets[k] < n
    &&& forall|k: int, l: int| 0 <= k < l < targets.len() ==> targets[k] != targets[l]
}

/// The first server, from position `from` on, with the given name.
pub open spec fn first_named_from(configs: Seq<ServerConfig>, name: Seq<char>, from: int) -> Option<int>
    decreases configs.len() - from,
{
    if from < 0 || from >= configs.len() {
        None
    } else if configs[from].name@ == name {
        Some(from)
    } else {
        first_named_from(configs, name, from + 1)
    }
}

/// The first server with the given name.
pub open spec fn first_named(configs: Seq<ServerConfig>, name: Seq<char>) -> Option<int> {
    first_named_from(configs, name, 0)
}

/// The servers a group names, each once, in the order first named; names
/// that match no server are skipped.
pub open spec fn group_targets(configs: Seq<ServerConfig>, names: Seq<Seq<char>>) -> Seq<usize>
    decreases names.len(),
{
    if names.len() == 0 {
        Seq::empty()
    } else {
        let before = group_targets(configs, names.drop_last());
        match first_named(configs, names.last()) {
            Some(i) => if before.contains(i as usize) {
                before
            } else {
                before.push(i as usize)
            },
            None => before,
        }
    }
}

/// The number of names that match a server, and of those whose server is
/// running.
pub open spec fn group_counts<H>(configs: Seq<ServerConfig>, handles: Seq<Option<H>>, names: Seq<Seq<char>>) -> (nat, nat)
    decreases names.len(),
{
    if names.len() == 0 {
        (0, 0)
    } else {
        let (running, total) = group_counts(configs, handles, names.drop_last());
        match first_named(configs, names.last()) {
            Some(i) => (if handles[i] is Some {
                running + 1
            } else {
                running
            }, total + 1),
            None => (running, total),
        }
    }
}

impl<H> ProcessManager<H> {
    /// The server configurations, by id.
    pub closed spec fn configs(&self) -> Seq<ServerConfig> {
        self.processes@.map_values(|p: ManagedProcess<H>| p.config)
    }

    /// The handle of each server's process, `None` when it is not running.
    pub closed spec fn handles(&self) -> Seq<Option<H>> {
        self.processes@.map_values(|p: ManagedProcess<H>| p.handle)
    }

    /// The global default output mode.
    pub closed spec fn global_output(&self) -> OutputMode {
        self.output
    }

    /// The output mode server `i` runs with.
    pub open spec fn mode_of(&self, i: int) -> OutputMode {
        effective_mode(self.configs()[i].output, self.global_output())
    }

    /// The output mode of every server.
    pub open spec fn modes(&self) -> Seq<OutputMode> {
        Seq::new(self.configs().len(), |i: int| self.mode_of(i))
    }

    /// Every server has exactly one handle slot.
    pub proof fn lemma_aligned(&self)
        ensures
            self.handles().len() == self.configs().len(),
    {
    }

    /// A manager for the given servers, none of them running.
    pub fn new(servers: Vec<ServerConfig>, output: OutputMode) -> (m: Self)
        ensures
            m.configs() == servers@,
            m.handles() == Seq::new(servers@.len(), |i: int| None::<H>),
            m.global_output() == output,
    {
        let mut processes: Vec<ManagedProcess<H>> = Vec::new();
        let mut servers = servers;
        let ghost all = servers@;
        let total = servers.len();
        let mut taken: usize = 0;
        while servers.len() > 0
            invariant
                all.len() == total,
                total == taken + servers@.len(),
                servers@ == all.subrange(taken as int, all.len() as int),
                processes@.len() == taken,
                forall|k: int| 0 <= k < taken ==> (#[trigger] processes@[k]).config == all[k] && processes@[k].handle is None,
            decreases servers@.len(),
        {
            let config = servers.remove(0);
            assert(config == all[taken as int]);
            processes.push(ManagedProcess { config, handle: None });
            taken = taken + 1;
        }
        let m = ProcessManager { processes, output };
        assert(m.configs() =~= all);
        assert(m.handles() =~= Seq::new(all.len(), |i: int| None::<H>));
        m
    }

    fn set_handle(&mut self, id: usize, h: Option<H>)
        requires
            id < old(self).handles().len(),
        ensures
            final(self).handles() == old(self).handles().update(id as int, h),
            final(self).configs() == old(self).configs(),
            final(self).global_output() == old(self).global_output(),
    {
        self.processes[id].handle = h;
        assert(self.handles() =~= old(self).handles().update(id as int, h));
        assert(self.configs() =~= old(self).configs());
    }

    fn take_handle(&mut self, id: usize) -> (h: Option<H>)
        requires
            id < old(self).handles().len(),
        ensures
            h == old(self).handles()[id as int],
            final(self).handles() == old(self).handles().update(id as int, None),
            final(self).configs() == old(self).configs(),
            final(self).global_output() == old(self).global_output(),
    {
        let h = self.processes[id].handle.take();
        assert(self.handles() =~= old(self).handles().update(id as int, None));
        assert(self.configs() =~= old(self).configs());
        h
    }

    fn mode(&self, id: usize) -> (m: OutputMode)
        requires
            id < self.configs().len(),
        ensures
            m == self.mode_of(id as int),
    {
        match self.processes[id].config.output {
            Some(m) => m,
            None => self.output,
        }
    }

    /// Number of configured servers.
    pub fn server_count(&self) -> (n: usize)
        ensures
            n == self.configs().len(),
    {
        self.processes.len()
    }

    /// The name of server `id`.
    pub fn server_name(&self, id: usize) -> (name: Option<&str>)
        ensures
            match name {
                Some(s) => id < self.configs().len() && s@ == self.configs()[id as int].name@,
                None => id >= self.configs().len(),
            },
    {
        if id < self.processes.len() {
            Some(self.processes[id].config.name.as_str())
        } else {
            None
        }
    }

    /// The TCP port server `id` declares, if any.
    pub fn server_port(&self, id: usize) -> (port: Option<u16>)
        ensures
            id >= self.configs().len() ==> port is None,
            id < self.configs().len() ==> port == self.configs()[id as int].port,
    {
        if id < self.processes.len() {
            self.processes[id].config.port
        } else {
            None
        }
    }

    /// The output mode server `id` runs with: its own override, else the
    /// global default.
    pub fn server_output_mode(&self, id: usize) -> (mode: Option<OutputMode>)
        ensures
            match mode {
                Some(m) => id < self.configs().len() && m == self.mode_of(id as int),
                None => id >= self.configs().len(),
            },
    {
        if id < self.processes.len() {
            Some(self.mode(id))
        } else {
            None
        }
    }

    /// The id of the first server with the given name.
    pub fn server_id_by_name(&self, name: &str) -> (id: Option<usize>)
        ensures
            match id {
                Some(i) => first_named(self.configs(), name@) == Some(i as int) && i < self.configs().len(),
                None => first_named(self.configs(), name@) is None,
            },
    {
        let mut i: usize = 0;
        while i < self.processes.len()
            invariant
                i <= self.configs().len(),
                first_named(self.configs(), name@) == first_named_from(self.configs(), name@, i as int),
            decreases self.configs().len() - i,
        {
            if same_text(self.processes[i].config.name.as_str(), name) {
                return Some(i);
            }
            i = i + 1;
        }
        None
    }

    /// Whether the manager has a process for server `id`.
    pub fn is_running(&self, id: usize) -> (running: bool)
        ensures
            running == (id < self.configs().len() && self.handles()[id as int] is Some),
    {
        id < self.processes.len() && self.processes[id].handle.is_some()
    }

    /// Whether any server is running.
    pub fn any_running(&self) -> (running: bool)
        ensures
            running == exists|i: int| 0 <= i < self.handles().len() && (#[trigger] self.handles()[i]) is Some,
    {
        let mut i: usize = 0;
        while i < self.processes.len()
            invariant
                i <= self.handles().len(),
                forall|j: int| 0 <= j < i ==> (#[trigger] self.handles()[j]) is None,
            decreases self.handles().len() - i,
        {
            if self.processes[i].handle.is_some() {
                assert(self.handles()[i as int] is Some);
                return true;
            }
            i = i + 1;
        }
        false
    }

    /// The status of server `id` given a snapshot of the listening ports:
    /// running when the manager spawned it; external when it is not running
    /// but has a `port` that something listens on; stopped otherwise.
    pub fn run_state(&self, id: usize, ports: &HashMap<u16, u32>) -> (state: Option<RunState>)
        ensures
            id >= self.configs().len() ==> state is None,
            id < self.configs().len() ==> state == Some(
                if self.handles()[id as int] is Some {
                    RunState::Running
                } else {
                    match self.configs()[id as int].port {
                        Some(p) => if ports@.contains_key(p) {
                            RunState::External { pid: ports@[p] }
                        } else {
                            RunState::Stopped
                        },
                        None => RunState::Stopped,
                    }
                },
            ),
    {
        broadcast use vstd::std_specs::hash::group_hash_axioms;

        if id >= self.processes.len() {
            return None;
        }
        if self.processes[id].handle.is_some() {
            return Some(RunState::Running);
        }
        match self.processes[id].config.port {
            Some(p) => match ports.get(&p) {
                Some(pid) => Some(RunState::External { pid: *pid }),
                None => Some(RunState::Stopped),
            },
            None => Some(RunState::Stopped),
        }
    }
}


impl<H> ProcessManager<H> {
    /// Starts server `id` unless it is already running: `spawn` is called
    /// once, with its configuration and output mode, and the returned handle
    /// is kept.
    fn start_one<W, F>(&mut self, w: W, id: usize, spawn: &F) -> (out: (W, Result<(), String>)) where
        F: Fn(W, &ServerConfig, OutputMode) -> (W, Result<H, String>),

        requires
            forall|w: W, c: &ServerConfig, m: OutputMode| #[trigger] spawn.requires((w, c, m)),
            id < old(self).configs().len(),
        ensures
            final(self).configs() == old(self).configs(),
            final(self).global_output() == old(self).global_output(),
            final(self).handles() == old(self).handles().update(id as int, final(self).handles()[id as int]),
            start_outcome(
                *spawn,
                w,
                out.0,
                old(self).configs()[id as int],
                old(self).mode_of(id as int),
                old(self).handles()[id as int],
                final(self).handles()[id as int],
                out.1,
            ),
    {
        if self.processes[id].handle.is_some() {
            assert(self.handles() =~= self.handles().update(id as int, self.handles()[id as int]));
            return (w, Err(already_running(&self.processes[id].config.name)));
        }
        let mode = self.mode(id);
        let (w1, r) = spawn(w, &self.processes[id].config, mode);
        match r {
            Ok(h) => {
                self.set_handle(id, Some(h));
                (w1, Ok(()))
            },
            Err(e) => {
                assert(self.handles() =~= self.handles().update(id as int, self.handles()[id as int]));
                (w1, Err(e))
            },
        }
    }

    /// Stops server `id`: if it is running, its process handle is given to
    /// `kill` (which kills the process tree).
    fn stop_one<W, K>(&mut self, w: W, id: usize, kill: &K) -> (w1: W) where K: Fn(W, H) -> W
        requires
            forall|w: W, h: H| #[trigger] kill.requires((w, h)),
            id < old(self).configs().len(),
        ensures
            final(self).configs() == old(self).configs(),
            final(self).global_output() == old(self).global_output(),
            final(self).handles() == old(self).handles().update(id as int, None),
            killed(*kill, w, w1, old(self).handles()[id as int]),
    {
        match self.take_handle(id) {
            Some(h) => kill(w, h),
            None => w,
        }
    }

    /// Stops server `id`, then starts it again.
    fn restart_one<W, F, K>(&mut self, w: W, id: usize, spawn: &F, kill: &K) -> (out: (W, Result<(), String>)) where
        F: Fn(W, &ServerConfig, OutputMode) -> (W, Result<H, String>),
        K: Fn(W, H) -> W,

        requires
            forall|w: W, c: &ServerConfig, m: OutputMode| #[trigger] spawn.requires((w, c, m)),
            forall|w: W, h: H| #[trigger] kill.requires((w, h)),
            id < old(self).configs().len(),
        ensures
            final(self).configs() == old(self).configs(),
            final(self).global_output() == old(self).global_output(),
            final(self).handles() == old(self).handles().update(id as int, final(self).handles()[id as int]),
            exists|wm: W|
                #![trigger killed(*kill, w, wm, old(self).handles()[id as int])]
                killed(*kill, w, wm, old(self).handles()[id as int]) && start_outcome(
                    *spawn,
                    wm,
                    out.0,
                    old(self).configs()[id as int],
                    old(self).mode_of(id as int),
                    None,
                    final(self).handles()[id as int],
                    out.1,
                ),
    {
        let wm = self.stop_one(w, id, kill);
        let out = self.start_one(wm, id, spawn);
        assert(self.handles() =~= old(self).handles().update(id as int, self.handles()[id as int]));
        assert(killed(*kill, w, wm, old(self).handles()[id as int]));
        out
    }

    /// Starts each of the given servers once, in order, and returns the
    /// outcome of each start.
    fn start_each<W, F>(&mut self, w: W, targets: &Vec<usize>, spawn: &F) -> (out: (W, Vec<Result<(), String>>)) where
        F: Fn(W, &ServerConfig, OutputMode) -> (W, Result<H, String>),

        requires
            forall|w: W, c: &ServerConfig, m: OutputMode| #[trigger] spawn.requires((w, c, m)),
            valid_targets(targets@, old(self).configs().len()),
        ensures
            final(self).configs() == old(self).configs(),
            final(self).global_output() == old(self).global_output(),
            final(self).handles().len() == old(self).handles().len(),
            out.1@.len() == targets@.len(),
            exists|ws: Seq<W>|
                #![trigger starts_in_turn(*spawn, ws, old(self).configs(), old(self).modes(), targets@, old(self).handles(), final(self).handles(), out.1@)]
                starts_in_turn(
                    *spawn,
                    ws,
                    old(self).configs(),
                    old(self).modes(),
                    targets@,
                    old(self).handles(),
                    final(self).handles(),
                    out.1@,
                ) && ws[0] == w && ws.last() == out.0,
            forall|i: int|
                0 <= i < old(self).handles().len() && !targets@.contains(i as usize) ==> final(self).handles()[i]
                    == old(self).handles()[i],
    {
        let mut results: Vec<Result<(), String>> = Vec::new();
        let ghost w0 = w;
        let mut w = w;
        let ghost mut ws: Seq<W> = seq![w0];
        let mut k: usize = 0;
        while k < targets.len()
            invariant
                forall|w: W, c: &ServerConfig, m: OutputMode| #[trigger] spawn.requires((w, c, m)),
                valid_targets(targets@, old(self).configs().len()),
                k <= targets@.len(),
                self.configs() == old(self).configs(),
                self.global_output() == old(self).global_output(),
                self.handles().len() == old(self).handles().len(),
                results@.len() == k,
                ws.len() == k + 1,
                ws[k as int] == w,
                ws[0] == w0,
                forall|j: int|
                    #![trigger targets@[j]]
                    0 <= j < k ==> start_outcome(
                        *spawn,
                        ws[j],
                        ws[j + 1],
                        old(self).configs()[targets@[j] as int],
                        old(self).mode_of(targets@[j] as int),
                        old(self).handles()[targets@[j] as int],
                        self.handles()[targets@[j] as int],
                        results@[j],
                    ),
                forall|i: int|
                    0 <= i < old(self).handles().len() && !targets@.take(k as int).contains(i as usize)
                        ==> self.handles()[i] == old(self).handles()[i],
            decreases targets@.len() - k,
        {
            let id = targets[k];
            proof {
                assert(!targets@.take(k as int).contains(id)) by {
                    if targets@.take(k as int).contains(id) {
                        let j = choose|j: int| 0 <= j < k && targets@.take(k as int)[j] == id;
                        assert(targets@[j] == targets@[k as int]);
                    }
                }
            }
            let ghost prev = ws;
            let (w1, r) = self.start_one(w, id, spawn);
            w = w1;
            proof {
                ws = prev.push(w1);
            }
            results.push(r);
            proof {
                assert forall|j: int|
                    #![trigger targets@[j]]
                    0 <= j < k + 1 implies start_outcome(
                        *spawn,
                        ws[j],
                        ws[j + 1],
                        old(self).configs()[targets@[j] as int],
                        old(self).mode_of(targets@[j] as int),
                        old(self).handles()[targets@[j] as int],
                        self.handles()[targets@[j] as int],
                        results@[j],
                    ) by {
                    assert(ws[j] == prev[j]);
                    if j < k {
                        assert(targets@[j] != id);
                        assert(ws[j + 1] == prev[j + 1]);
                    }
                }
                assert forall|i: int|
                    0 <= i < old(self).handles().len() && !targets@.take(k + 1).contains(i as usize)
                        implies self.handles()[i] == old(self).handles()[i] by {
                    assert(targets@.take(k + 1)[k as int] == id);
                    if targets@.take(k as int).contains(i as usize) {
                        let j = choose|j: int| 0 <= j < k && targets@.take(k as int)[j] == i as usize;
                        assert(targets@.take(k + 1)[j] == i as usize);
                    }
                }
            }
            k = k + 1;
        }
        assert(targets@.take(targets@.len() as int) =~= targets@);
        assert forall|j: int|
            #![trigger targets@[j]]
            0 <= j < targets@.len() implies old(self).modes()[targets@[j] as int] == old(self).mode_of(targets@[j] as int) by {
        }
        assert(starts_in_turn(
            *spawn,
            ws,
            old(self).configs(),
            old(self).modes(),
            targets@,
            old(self).handles(),
            self.handles(),
            results@,
        ));
        assert(ws[0] == w0);
        assert(ws.last() == w);
        (w, results)
    }

    /// Stops each of the given servers, in order.
    fn stop_each<W, K>(&mut self, w: W, targets: &Vec<usize>, kill: &K) -> (w1: W) where K: Fn(W, H) -> W
        requires
            forall|w: W, h: H| #[trigger] kill.requires((w, h)),
            valid_targets(targets@, old(self).configs().len()),
        ensures
            final(self).configs() == old(self).configs(),
            final(self).global_output() == old(self).global_output(),
            final(self).handles().len() == old(self).handles().len(),
            forall|k: int|
                #![trigger targets@[k]]
                0 <= k < targets@.len() ==> final(self).handles()[targets@[k] as int] is None,
            exists|ws: Seq<W>|
                #![trigger kills_in_turn(*kill, ws, targets@, old(self).handles())]
                kills_in_turn(*kill, ws, targets@, old(self).handles()) && ws[0] == w && ws.last() == w1,
            forall|i: int|
                0 <= i < old(self).handles().len() && !targets@.contains(i as usize) ==> final(self).handles()[i]
                    == old(self).handles()[i],
    {
        let ghost w0 = w;
        let mut w = w;
        let ghost mut ws: Seq<W> = seq![w0];
        let mut k: usize = 0;
        while k < targets.len()
            invariant
                forall|w: W, h: H| #[trigger] kill.requires((w, h)),
                valid_targets(targets@, old(self).configs().len()),
                k <= targets@.len(),
                self.configs() == old(self).configs(),
                self.global_output() == old(self).global_output(),
                self.handles().len() == old(self).handles().len(),
                ws.len() == k + 1,
                ws[k as int] == w,
                ws[0] == w0,
                forall|j: int|
                    #![trigger targets@[j]]
                    0 <= j < k ==> self.handles()[targets@[j] as int] is None && killed(
                        *kill,
                        ws[j],
                        ws[j + 1],
                        old(self).handles()[targets@[j] as int],
                    ),
                forall|i: int|
                    0 <= i < old(self).handles().len() && !targets@.take(k as int).contains(i as usize)
                        ==> self.handles()[i] == old(self).handles()[i],
            decreases targets@.len() - k,
        {
            let id = targets[k];
            proof {
                assert(!targets@.take(k as int).contains(id)) by {
                    if targets@.take(k as int).contains(id) {
                        let j = choose|j: int| 0 <= j < k && targets@.take(k as int)[j] == id;
                        assert(targets@[j] == targets@[k as int]);
                    }
                }
            }
            let ghost prev = ws;
            w = self.stop_one(w, id, kill);
            proof {
                ws = prev.push(w);
                assert forall|j: int|
                    #![trigger targets@[j]]
                    0 <= j < k + 1 implies self.handles()[targets@[j] as int] is None && killed(
                        *kill,
                        ws[j],
                        ws[j + 1],
                        old(self).handles()[targets@[j] as int],
                    ) by {
                    assert(ws[j] == prev[j]);
                    if j < k {
                        assert(targets@[j] != id);
                        assert(ws[j + 1] == prev[j + 1]);
                    }
                }
                assert forall|i: int|
                    0 <= i < old(self).handles().len() && !targets@.take(k + 1).contains(i as usize)
                        implies self.handles()[i] == old(self).handles()[i] by {
                    assert(targets@.take(k + 1)[k as int] == id);
                    if targets@.take(k as int).contains(i as usize) {
                        let j = choose|j: int| 0 <= j < k && targets@.take(k as int)[j] == i as usize;
                        assert(targets@.take(k + 1)[j] == i as usize);
                    }
                }
            }
            k = k + 1;
        }
        assert(targets@.take(targets@.len() as int) =~= targets@);
        assert(kills_in_turn(*kill, ws, targets@, old(self).handles()));
        w
    }

    fn all_ids(&self) -> (ids: Vec<usize>)
        ensures
            ids@ == id_range(self.configs().len()),
            forall|k: int| 0 <= k < ids@.len() ==> #[trigger] ids@[k] == k,
            valid_targets(ids@, self.configs().len()),
    {
        let mut ids: Vec<usize> = Vec::new();
        let n = self.processes.len();
        let mut i: usize = 0;
        while i < n
            invariant
                n == self.configs().len(),
                i <= n,
                ids@.len() == i,
                forall|k: int| 0 <= k < i ==> #[trigger] ids@[k] == k,
            decreases n - i,
        {
            ids.push(i);
            i = i + 1;
        }
        assert(ids@ =~= id_range(n as nat));
        ids
    }

    /// Starts every server, in id order, and returns the outcome of each
    /// start (a running server reports that it is already running).
    pub fn start_all<W, F>(&mut self, w: W, spawn: &F) -> (out: (W, Vec<Result<(), String>>)) where
        F: Fn(W, &ServerConfig, OutputMode) -> (W, Result<H, String>),

        requires
            forall|w: W, c: &ServerConfig, m: OutputMode| #[trigger] spawn.requires((w, c, m)),
        ensures
            final(self).configs() == old(self).configs(),
            final(self).global_output() == old(self).global_output(),
            final(self).handles().len() == old(self).handles().len(),
            out.1@.len() == old(self).configs().len(),
            exists|ws: Seq<W>|
                #![trigger starts_in_turn(*spawn, ws, old(self).configs(), old(self).modes(), id_range(old(self).configs().len()), old(self).handles(), final(self).handles(), out.1@)]
                starts_in_turn(
                    *spawn,
                    ws,
                    old(self).configs(),
                    old(self).modes(),
                    id_range(old(self).configs().len()),
                    old(self).handles(),
                    final(self).handles(),
                    out.1@,
                ) && ws[0] == w && ws.last() == out.0,
    {
        let ids = self.all_ids();
        self.start_each(w, &ids, spawn)
    }

    /// Stops every server, in id order.
    pub fn stop_all<W, K>(&mut self, w: W, kill: &K) -> (w1: W) where K: Fn(W, H) -> W
        requires
            forall|w: W, h: H| #[trigger] kill.requires((w, h)),
        ensures
            final(self).configs() == old(self).configs(),
            final(self).global_output() == old(self).global_output(),
            final(self).handles() == no_handles::<H>(old(self).configs().len()),
            exists|ws: Seq<W>|
                #![trigger kills_in_turn(*kill, ws, id_range(old(self).configs().len()), old(self).handles())]
                kills_in_turn(*kill, ws, id_range(old(self).configs().len()), old(self).handles()) && ws[0] == w
                    && ws.last() == w1,
    {
        let ids = self.all_ids();
        let n = self.processes.len();
        let w1 = self.stop_each(w, &ids, kill);
        assert forall|i: int| 0 <= i < old(self).configs().len() implies self.handles()[i] is None by {
            assert(ids@[i] == i);
        }
        assert(self.handles() =~= no_handles::<H>(old(self).configs().len()));
        w1
    }

    /// Stops every server, then starts every server.
    pub fn restart_all<W, F, K>(&mut self, w: W, spawn: &F, kill: &K) -> (out: (W, Vec<Result<(), String>>)) where
        F: Fn(W, &ServerConfig, OutputMode) -> (W, Result<H, String>),
        K: Fn(W, H) -> W,

        requires
            forall|w: W, c: &ServerConfig, m: OutputMode| #[trigger] spawn.requires((w, c, m)),
            forall|w: W, h: H| #[trigger] kill.requires((w, h)),
        ensures
            final(self).configs() == old(self).configs(),
            final(self).global_output() == old(self).global_output(),
            final(self).handles().len() == old(self).handles().len(),
            out.1@.len() == old(self).configs().len(),
            exists|stops: Seq<W>, starts: Seq<W>|
                #![trigger kills_in_turn(*kill, stops, id_range(old(self).configs().len()), old(self).handles()), starts_in_turn(*spawn, starts, old(self).configs(), old(self).modes(), id_range(old(self).configs().len()), no_handles::<H>(old(self).configs().len()), final(self).handles(), out.1@)]
                kills_in_turn(*kill, stops, id_range(old(self).configs().len()), old(self).handles())
                && starts_in_turn(
                    *spawn,
                    starts,
                    old(self).configs(),
                    old(self).modes(),
                    id_range(old(self).configs().len()),
                    no_handles::<H>(old(self).configs().len()),
                    final(self).handles(),
                    out.1@,
                ) && stops[0] == w && stops.last() == starts[0] && starts.last() == out.0,
    {
        let wm = self.stop_all(w, kill);
        let ghost mid = self.handles();
        assert(self.modes() =~= old(self).modes());
        let out = self.start_all(wm, spawn);
        out
    }
}


/// The views of a list of names.
pub open spec fn name_views(names: Seq<String>) -> Seq<Seq<char>> {
    names.map_values(|s: String| s@)
}

impl<H> ProcessManager<H> {
    fn contains_id(ids: &Vec<usize>, id: usize) -> (r: bool)
        ensures
            r == ids@.contains(id),
    {
        let mut k: usize = 0;
        while k < ids.len()
            invariant
                k <= ids@.len(),
                forall|j: int| 0 <= j < k ==> ids@[j] != id,
            decreases ids@.len() - k,
        {
            if ids[k] == id {
                return true;
            }
            k = k + 1;
        }
        false
    }

    /// The servers a group names, each once, in the order first named.
    pub fn group_members(&self, names: &[String]) -> (ids: Vec<usize>)
        ensures
            ids@ == group_targets(self.configs(), name_views(names@)),
            valid_targets(ids@, self.configs().len()),
    {
        let mut ids: Vec<usize> = Vec::new();
        let mut k: usize = 0;
        while k < names.len()
            invariant
                k <= names@.len(),
                ids@ == group_targets(self.configs(), name_views(names@).take(k as int)),
                valid_targets(ids@, self.configs().len()),
            decreases names@.len() - k,
        {
            let found = self.server_id_by_name(names[k].as_str());
            assert(name_views(names@).take(k + 1).drop_last() =~= name_views(names@).take(k as int));
            assert(name_views(names@).take(k + 1).last() == names@[k as int]@);
            match found {
                Some(i) => {
                    if !Self::contains_id(&ids, i) {
                        ids.push(i);
                    }
                },
                None => {},
            }
            k = k + 1;
        }
        assert(name_views(names@).take(names@.len() as int) =~= name_views(names@));
        ids
    }

    /// For a group's names: how many name a configured server, and how many
    /// of those servers are running.
    pub fn group_status(&self, names: &[String]) -> (counts: (usize, usize))
        ensures
            counts.0 == group_counts(self.configs(), self.handles(), name_views(names@)).0,
            counts.1 == group_counts(self.configs(), self.handles(), name_views(names@)).1,
    {
        let mut running: usize = 0;
        let mut total: usize = 0;
        let mut k: usize = 0;
        while k < names.len()
            invariant
                k <= names@.len(),
                total <= k,
                running <= total,
                (running as nat, total as nat) == group_counts(self.configs(), self.handles(), name_views(names@).take(k as int)),
            decreases names@.len() - k,
        {
            let found = self.server_id_by_name(names[k].as_str());
            assert(name_views(names@).take(k + 1).drop_last() =~= name_views(names@).take(k as int));
            assert(name_views(names@).take(k + 1).last() == names@[k as int]@);
            match found {
                Some(i) => {
                    if self.is_running(i) {
                        running = running + 1;
                    }
                    total = total + 1;
                },
                None => {},
            }
            k = k + 1;
        }
        assert(name_views(names@).take(names@.len() as int) =~= name_views(names@));
        (running, total)
    }

    /// Starts every server the group names (each once), in the order of
    /// [`group_targets`], and returns the outcome of each start.
    pub fn start_group<W, F>(&mut self, w: W, names: &[String], spawn: &F) -> (out: (W, Vec<Result<(), String>>)) where
        F: Fn(W, &ServerConfig, OutputMode) -> (W, Result<H, String>),

        requires
            forall|w: W, c: &ServerConfig, m: OutputMode| #[trigger] spawn.requires((w, c, m)),
        ensures
            ({
                let targets = group_targets(old(self).configs(), name_views(names@));
                &&& final(self).configs() == old(self).configs()
                &&& final(self).global_output() == old(self).global_output()
                &&& final(self).handles().len() == old(self).handles().len()
                &&& out.1@.len() == targets.len()
                &&& exists|ws: Seq<W>|
                    #![trigger starts_in_turn(*spawn, ws, old(self).configs(), old(self).modes(), targets, old(self).handles(), final(self).handles(), out.1@)]
                    starts_in_turn(
                        *spawn,
                        ws,
                        old(self).configs(),
                        old(self).modes(),
                        targets,
                        old(self).handles(),
                        final(self).handles(),
                        out.1@,
                    ) && ws[0] == w && ws.last() == out.0
                &&& forall|i: int|
                    0 <= i < old(self).handles().len() && !targets.contains(i as usize) ==> final(self).handles()[i]
                        == old(self).handles()[i]
            }),
    {
        let ids = self.group_members(names);
        self.start_each(w, &ids, spawn)
    }

    /// Stops every server the group names, in the order of
    /// [`group_targets`].
    pub fn stop_group<W, K>(&mut self, w: W, names: &[String], kill: &K) -> (w1: W) where K: Fn(W, H) -> W
        requires
            forall|w: W, h: H| #[trigger] kill.requires((w, h)),
        ensures
            ({
                let targets = group_targets(old(self).configs(), name_views(names@));
                &&& final(self).configs() == old(self).configs()
                &&& final(self).global_output() == old(self).global_output()
                &&& final(self).handles().len() == old(self).handles().len()
                &&& forall|k: int|
                    #![trigger targets[k]]
                    0 <= k < targets.len() ==> final(self).handles()[targets[k] as int] is None
                &&& exists|ws: Seq<W>|
                    #![trigger kills_in_turn(*kill, ws, targets, old(self).handles())]
                    kills_in_turn(*kill, ws, targets, old(self).handles()) && ws[0] == w && ws.last() == w1
                &&& forall|i: int|
                    0 <= i < old(self).handles().len() && !targets.contains(i as usize) ==> final(self).handles()[i]
                        == old(self).handles()[i]
            }),
    {
        let ids = self.group_members(names);
        self.stop_each(w, &ids, kill)
    }

    /// Stops every server the group names, then starts them again, both in
    /// the order of [`group_targets`].
    pub fn restart_group<W, F, K>(&mut self, w: W, names: &[String], spawn: &F, kill: &K) -> (out: (
        W,
        Vec<Result<(), String>>,
    )) where
        F: Fn(W, &ServerConfig, OutputMode) -> (W, Result<H, String>),
        K: Fn(W, H) -> W,

        requires
            forall|w: W, c: &ServerConfig, m: OutputMode| #[trigger] spawn.requires((w, c, m)),
            forall|w: W, h: H| #[trigger] kill.requires((w, h)),
        ensures
            ({
                let targets = group_targets(old(self).configs(), name_views(names@));
                let stopped = Seq::new(
                    old(self).handles().len(),
                    |i: int| if targets.contains(i as usize) { None } else { old(self).handles()[i] },
                );
                &&& final(self).configs() == old(self).configs()
                &&& final(self).global_output() == old(self).global_output()
                &&& final(self).handles().len() == old(self).handles().len()
                &&& out.1@.len() == targets.len()
                &&& exists|stops: Seq<W>, starts: Seq<W>|
                    #![trigger kills_in_turn(*kill, stops, targets, old(self).handles()), starts_in_turn(*spawn, starts, old(self).configs(), old(self).modes(), targets, stopped, final(self).handles(), out.1@)]
                    kills_in_turn(*kill, stops, targets, old(self).handles()) && starts_in_turn(
                        *spawn,
                        starts,
                        old(self).configs(),
                        old(self).modes(),
                        targets,
                        stopped,
                        final(self).handles(),
                        out.1@,
                    ) && stops[0] == w && stops.last() == starts[0] && starts.last() == out.0
                &&& forall|i: int|
                    0 <= i < old(self).handles().len() && !targets.contains(i as usize) ==> final(self).handles()[i]
                        == old(self).handles()[i]
            }),
    {
        let ids = self.group_members(names);
        let n = self.processes.len();
        let ghost targets = ids@;
        let wm = self.stop_each(w, &ids, kill);
        proof {
            let stopped = Seq::new(
                old(self).handles().len(),
                |i: int| if targets.contains(i as usize) { None } else { old(self).handles()[i] },
            );
            assert forall|i: int| 0 <= i < old(self).handles().len() implies self.handles()[i] == stopped[i] by {
                if targets.contains(i as usize) {
                    let k = choose|k: int| 0 <= k < targets.len() && targets[k] == i as usize;
                    assert(self.handles()[targets[k] as int] is None);
                }
            }
            assert(self.handles() =~= stopped);
            assert(self.modes() =~= old(self).modes());
        }
        self.start_each(wm, &ids, spawn)
    }
}


/// A server configuration with its output override set to `mode`.
pub open spec fn with_output(config: ServerConfig, mode: OutputMode) -> ServerConfig {
    ServerConfig { output: Some(mode), ..config }
}

impl<H> ProcessManager<H> {
    /// Switches server `id` to output mode `mode` (as its own override). A
    /// running server is restarted, its old process killed before the new
    /// one is spawned, so that the new mode takes effect at once; a stopped
    /// one uses it the next time it starts.
    pub fn set_output_mode<W, F, K>(&mut self, w: W, id: usize, mode: OutputMode, spawn: &F, kill: &K) -> (out: (
        W,
        Result<(), String>,
    )) where
        F: Fn(W, &ServerConfig, OutputMode) -> (W, Result<H, String>),
        K: Fn(W, H) -> W,

        requires
            forall|w: W, c: &ServerConfig, m: OutputMode| #[trigger] spawn.requires((w, c, m)),
            forall|w: W, h: H| #[trigger] kill.requires((w, h)),
        ensures
            final(self).global_output() == old(self).global_output(),
            id >= old(self).configs().len() ==> {
                &&& final(self).configs() == old(self).configs()
                &&& final(self).handles() == old(self).handles()
                &&& out.0 == w
                &&& out.1 matches Err(e) && e@ == not_found_message(id as nat)
            },
            id < old(self).configs().len() ==> {
                let config = with_output(old(self).configs()[id as int], mode);
                &&& final(self).configs() == old(self).configs().update(id as int, config)
                &&& final(self).handles() == old(self).handles().update(id as int, final(self).handles()[id as int])
                &&& final(self).mode_of(id as int) == mode
                &&& match old(self).handles()[id as int] {
                    Some(_) => exists|wm: W|
                        #![trigger killed(*kill, w, wm, old(self).handles()[id as int])]
                        killed(*kill, w, wm, old(self).handles()[id as int]) && start_outcome(
                            *spawn,
                            wm,
                            out.0,
                            config,
                            mode,
                            None,
                            final(self).handles()[id as int],
                            out.1,
                        ),
                    None => final(self).handles()[id as int] is None && out.1 is Ok && out.0 == w,
                }
            },
    {
        if id >= self.processes.len() {
            return (w, Err(not_found(id)));
        }
        self.processes[id].config.output = Some(mode);
        assert(self.configs() =~= old(self).configs().update(id as int, with_output(old(self).configs()[id as int], mode)));
        assert(self.handles() =~= old(self).handles());
        if self.processes[id].handle.is_some() {
            self.restart_one(w, id, spawn, kill)
        } else {
            (w, Ok(()))
        }
    }
}


/// Whether a running old server may go on running as a new server: it is
/// running, and the two agree on every field that affects spawning and on
/// the output mode they run with. The port is not among those fields, so a
/// port-only change keeps a server running.
pub open spec fn may_keep<H>(
    old_config: ServerConfig,
    old_mode: OutputMode,
    old_handle: Option<H>,
    new_config: ServerConfig,
    new_mode: OutputMode,
) -> bool {
    &&& old_handle is Some
    &&& same_spawn_fields(old_config@, new_config@)
    &&& old_mode == new_mode
}

/// The first old server, from position `from` on, that no earlier new
/// server has claimed and that may go on running as `new_config`.
pub open spec fn keeper_from<H>(
    old_configs: Seq<ServerConfig>,
    old_handles: Seq<Option<H>>,
    old_output: OutputMode,
    claimed: Seq<Option<int>>,
    new_config: ServerConfig,
    new_mode: OutputMode,
    from: int,
) -> Option<int>
    decreases old_configs.len() - from,
{
    if from < 0 || from >= old_configs.len() {
        None
    } else if !claimed.contains(Some(from)) && may_keep(
        old_configs[from],
        effective_mode(old_configs[from].output, old_output),
        old_handles[from],
        new_config,
        new_mode,
    ) {
        Some(from)
    } else {
        keeper_from(old_configs, old_handles, old_output, claimed, new_config, new_mode, from + 1)
    }
}

/// For each new server, in order, the old server whose process it takes
/// over on a configuration reload: the first one not yet claimed that may
/// go on running as it; `None` when there is none.
pub open spec fn reload_plan<H>(
    old_configs: Seq<ServerConfig>,
    old_handles: Seq<Option<H>>,
    old_output: OutputMode,
    new_configs: Seq<ServerConfig>,
    new_output: OutputMode,
) -> Seq<Option<int>>
    decreases new_configs.len(),
{
    if new_configs.len() == 0 {
        Seq::empty()
    } else {
        let before = reload_plan(old_configs, old_handles, old_output, new_configs.drop_last(), new_output);
        let c = new_configs.last();
        before.push(
            keeper_from(old_configs, old_handles, old_output, before, c, effective_mode(c.output, new_output), 0),
        )
    }
}

proof fn lemma_keeper_from_sound<H>(
    old_configs: Seq<ServerConfig>,
    old_handles: Seq<Option<H>>,
    old_output: OutputMode,
    claimed: Seq<Option<int>>,
    new_config: ServerConfig,
    new_mode: OutputMode,
    from: int,
)
    ensures
        keeper_from(old_configs, old_handles, old_output, claimed, new_config, new_mode, from) matches Some(i) ==> {
            &&& from <= i < old_configs.len()
            &&& !claimed.contains(Some(i))
            &&& may_keep(old_configs[i], effective_mode(old_configs[i].output, old_output), old_handles[i], new_config, new_mode)
        },
    decreases old_configs.len() - from,
{
    if 0 <= from < old_configs.len() {
        lemma_keeper_from_sound(old_configs, old_handles, old_output, claimed, new_config, new_mode, from + 1);
    }
}

/// Every entry of a reload plan names a distinct old server that is running
/// and may go on running as the new server of that entry.
pub proof fn lemma_reload_plan_sound<H>(
    old_configs: Seq<ServerConfig>,
    old_handles: Seq<Option<H>>,
    old_output: OutputMode,
    new_configs: Seq<ServerConfig>,
    new_output: OutputMode,
)
    ensures
        ({
            let plan = reload_plan(old_configs, old_handles, old_output, new_configs, new_output);
            &&& plan.len() == new_configs.len()
            &&& forall|j: int|
                #![trigger plan[j]]
                0 <= j < plan.len() ==> (plan[j] matches Some(i) ==> {
                    &&& 0 <= i < old_configs.len()
                    &&& may_keep(
                        old_configs[i],
                        effective_mode(old_configs[i].output, old_output),
                        old_handles[i],
                        new_configs[j],
                        effective_mode(new_configs[j].output, new_output),
                    )
                })
            &&& forall|j: int, k: int| 0 <= j < k < plan.len() && plan[j] is Some ==> plan[j] != plan[k]
        }),
    decreases new_configs.len(),
{
    if new_configs.len() > 0 {
        let prefix = new_configs.drop_last();
        lemma_reload_plan_sound(old_configs, old_handles, old_output, prefix, new_output);
        let before = reload_plan(old_configs, old_handles, old_output, prefix, new_output);
        let c = new_configs.last();
        let m = effective_mode(c.output, new_output);
        lemma_keeper_from_sound(old_configs, old_handles, old_output, before, c, m, 0);
        let plan = reload_plan(old_configs, old_handles, old_output, new_configs, new_output);
        assert(plan == before.push(keeper_from(old_configs, old_handles, old_output, before, c, m, 0)));
        assert forall|j: int|
            #![trigger plan[j]]
            0 <= j < plan.len() implies (plan[j] matches Some(i) ==> {
                &&& 0 <= i < old_configs.len()
                &&& may_keep(
                    old_configs[i],
                    effective_mode(old_configs[i].output, old_output),
                    old_handles[i],
                    new_configs[j],
                    effective_mode(new_configs[j].output, new_output),
                )
            }) by {
            if j < plan.len() - 1 {
                assert(plan[j] == before[j]);
                assert(new_configs[j] == prefix[j]);
            }
        }
        assert forall|j: int, k: int| 0 <= j < k < plan.len() && plan[j] is Some implies plan[j] != plan[k] by {
            assert(plan[j] == before[j]);
            if k == plan.len() - 1 {
                if plan[k] == plan[j] {
                    assert(before.contains(plan[j]));
                }
            } else {
                assert(plan[k] == before[k]);
            }
        }
    }
}


proof fn lemma_keeper_from_finds<H>(
    old_configs: Seq<ServerConfig>,
    old_handles: Seq<Option<H>>,
    old_output: OutputMode,
    claimed: Seq<Option<int>>,
    new_config: ServerConfig,
    new_mode: OutputMode,
    from: int,
    i: int,
)
    requires
        0 <= from <= i < old_configs.len(),
        !claimed.contains(Some(i)),
        may_keep(old_configs[i], effective_mode(old_configs[i].output, old_output), old_handles[i], new_config, new_mode),
        forall|f: int|
            from <= f < i ==> !may_keep(
                old_configs[f],
                effective_mode(old_configs[f].output, old_output),
                old_handles[f],
                new_config,
                new_mode,
            ),
    ensures
        keeper_from(old_configs, old_handles, old_output, claimed, new_config, new_mode, from) == Some(i),
    decreases i - from,
{
    if from < i {
        lemma_keeper_from_finds(old_configs, old_handles, old_output, claimed, new_config, new_mode, from + 1, i);
    }
}

proof fn lemma_reload_plan_prefix<H>(
    old_configs: Seq<ServerConfig>,
    old_handles: Seq<Option<H>>,
    old_output: OutputMode,
    new_configs: Seq<ServerConfig>,
    new_output: OutputMode,
    k: int,
)
    requires
        0 <= k <= new_configs.len(),
    ensures
        reload_plan(old_configs, old_handles, old_output, new_configs.take(k), new_output)
            == reload_plan(old_configs, old_handles, old_output, new_configs, new_output).take(k),
    decreases new_configs.len(),
{
    lemma_reload_plan_sound(old_configs, old_handles, old_output, new_configs, new_output);
    if k == new_configs.len() {
        assert(new_configs.take(k) =~= new_configs);
        assert(reload_plan(old_configs, old_handles, old_output, new_configs, new_output).take(k)
            =~= reload_plan(old_configs, old_handles, old_output, new_configs, new_output));
    } else {
        let prefix = new_configs.drop_last();
        lemma_reload_plan_prefix(old_configs, old_handles, old_output, prefix, new_output, k);
        assert(prefix.take(k) =~= new_configs.take(k));
        lemma_reload_plan_sound(old_configs, old_handles, old_output, prefix, new_output);
        assert(reload_plan(old_configs, old_handles, old_output, prefix, new_output).take(k)
            =~= reload_plan(old_configs, old_handles, old_output, new_configs, new_output).take(k));
    }
}

/// Hot reload keeps unchanged servers running: a running server whose name
/// is unique in the old and in the new configuration, and whose spawning
/// fields and output mode are the same in both (its port may differ),
/// keeps its process, wherever it now stands in the list.
pub proof fn lemma_reload_keeps_unchanged_server<H>(
    old_configs: Seq<ServerConfig>,
    old_handles: Seq<Option<H>>,
    old_output: OutputMode,
    new_configs: Seq<ServerConfig>,
    new_output: OutputMode,
    i: int,
    j: int,
)
    requires
        0 <= i < old_configs.len(),
        0 <= j < new_configs.len(),
        old_handles[i] is Some,
        same_spawn_fields(old_configs[i]@, new_configs[j]@),
        effective_mode(old_configs[i].output, old_output) == effective_mode(new_configs[j].output, new_output),
        forall|k: int| 0 <= k < old_configs.len() && k != i ==> old_configs[k].name@ != old_configs[i].name@,
        forall|k: int| 0 <= k < new_configs.len() && k != j ==> new_configs[k].name@ != new_configs[j].name@,
    ensures
        reload_plan(old_configs, old_handles, old_output, new_configs, new_output)[j] == Some(i),
{
    let upto = new_configs.take(j + 1);
    let prefix = new_configs.take(j);
    assert(upto.drop_last() =~= prefix);
    assert(upto.last() == new_configs[j]);
    lemma_reload_plan_prefix(old_configs, old_handles, old_output, new_configs, new_output, j + 1);
    let before = reload_plan(old_configs, old_handles, old_output, prefix, new_output);
    lemma_reload_plan_sound(old_configs, old_handles, old_output, prefix, new_output);
    let new_mode = effective_mode(new_configs[j].output, new_output);
    assert(!before.contains(Some(i))) by {
        if before.contains(Some(i)) {
            let k = choose|k: int| 0 <= k < before.len() && before[k] == Some(i);
            assert(prefix[k] == new_configs[k]);
            assert(before[k] matches Some(x) && x == i);
        }
    }
    assert forall|f: int|
        0 <= f < i implies !may_keep(
            old_configs[f],
            effective_mode(old_configs[f].output, old_output),
            old_handles[f],
            new_configs[j],
            new_mode,
        ) by {
        assert(old_configs[f].name@ != old_configs[i].name@);
    }
    lemma_keeper_from_finds(old_configs, old_handles, old_output, before, new_configs[j], new_mode, 0, i);
    let plan_upto = reload_plan(old_configs, old_handles, old_output, upto, new_output);
    assert(plan_upto == before.push(
        keeper_from(old_configs, old_handles, old_output, before, new_configs[j], new_mode, 0),
    ));
    lemma_reload_plan_sound(old_configs, old_handles, old_output, new_configs, new_output);
    let full = reload_plan(old_configs, old_handles, old_output, new_configs, new_output);
    assert(plan_upto[j] == Some(i));
    assert(full.take(j + 1)[j] == full[j]);
}


/// An index as a mathematical integer.
pub open spec fn opt_index(o: Option<usize>) -> Option<int> {
    match o {
        Some(i) => Some(i as int),
        None => None,
    }
}

impl<H> ProcessManager<H> {
    /// Computes the reload plan for the new servers.
    fn plan_reload(&self, servers: &Vec<ServerConfig>, output: OutputMode) -> (plan: Vec<Option<usize>>)
        ensures
            plan@.map_values(|o: Option<usize>| opt_index(o)) == reload_plan(
                self.configs(),
                self.handles(),
                self.global_output(),
                servers@,
                output,
            ),
    {
        let n_old = self.processes.len();
        let mut claimed: Vec<bool> = Vec::new();
        let mut i: usize = 0;
        while i < n_old
            invariant
                n_old == self.configs().len(),
                i <= n_old,
                claimed@.len() == i,
                forall|k: int| 0 <= k < i ==> !claimed@[k],
            decreases n_old - i,
        {
            claimed.push(false);
            i = i + 1;
        }
        let mut plan: Vec<Option<usize>> = Vec::new();
        let mut j: usize = 0;
        while j < servers.len()
            invariant
                n_old == self.configs().len(),
                n_old == self.handles().len(),
                j <= servers@.len(),
                claimed@.len() == n_old,
                plan@.map_values(|o: Option<usize>| opt_index(o)) == reload_plan(
                    self.configs(),
                    self.handles(),
                    self.global_output(),
                    servers@.take(j as int),
                    output,
                ),
                forall|k: int|
                    0 <= k < n_old ==> claimed@[k] == plan@.map_values(|o: Option<usize>| opt_index(o)).contains(
                        Some(k),
                    ),
            decreases servers@.len() - j,
        {
            let ghost before = plan@.map_values(|o: Option<usize>| opt_index(o));
            let new_config = &servers[j];
            let new_mode = match new_config.output {
                Some(m) => m,
                None => output,
            };
            let ghost target = keeper_from(
                self.configs(),
                self.handles(),
                self.global_output(),
                before,
                *new_config,
                new_mode,
                0,
            );
            let mut found: Option<usize> = None;
            let mut i: usize = 0;
            while i < n_old
                invariant_except_break
                    found is None,
                    target == keeper_from(
                        self.configs(),
                        self.handles(),
                        self.global_output(),
                        before,
                        *new_config,
                        new_mode,
                        i as int,
                    ),
                invariant
                    n_old == self.configs().len(),
                    n_old == self.handles().len(),
                    claimed@.len() == n_old,
                    i <= n_old,
                    forall|k: int| 0 <= k < n_old ==> claimed@[k] == before.contains(Some(k)),
                ensures
                    opt_index(found) == target,
                decreases n_old - i,
            {
                if !claimed[i] && self.processes[i].handle.is_some() && self.processes[i].config.spawn_fields_eq(
                    new_config,
                ) && self.mode(i) == new_mode {
                    found = Some(i);
                    break;
                }
                i = i + 1;
            }
            proof {
                lemma_keeper_from_sound(
                    self.configs(),
                    self.handles(),
                    self.global_output(),
                    before,
                    *new_config,
                    new_mode,
                    0,
                );
            }
            if let Some(i) = found {
                claimed.set(i, true);
            }
            plan.push(found);
            proof {
                let upto = servers@.take(j + 1);
                assert(upto.drop_last() =~= servers@.take(j as int));
                assert(upto.last() == *new_config);
                let now = plan@.map_values(|o: Option<usize>| opt_index(o));
                assert(now =~= before.push(target));
                assert forall|k: int| 0 <= k < n_old implies claimed@[k] == now.contains(Some(k)) by {
                    if target == Some(k) {
                        assert(now[before.len() as int] == Some(k));
                    }
                    if now.contains(Some(k)) && !before.contains(Some(k)) {
                        let x = choose|x: int| 0 <= x < now.len() && now[x] == Some(k);
                        if x < before.len() {
                            assert(before[x] == now[x]);
                        }
                    }
                    if before.contains(Some(k)) {
                        let x = choose|x: int| 0 <= x < before.len() && before[x] == Some(k);
                        assert(now[x] == before[x]);
                    }
                }
            }
            j = j + 1;
        }
        assert(servers@.take(servers@.len() as int) =~= servers@);
        plan
    }

    /// Replaces the configuration after it was reloaded. Each new server
    /// takes over the process of the old server the [`reload_plan`] gives
    /// it, so running servers whose spawning fields and output mode did not
    /// change keep running (a changed port alone restarts nothing); the
    /// processes no new server takes over are handed to `kill`; all other
    /// new servers start out stopped.
    pub fn reload<W, K>(&mut self, w: W, servers: Vec<ServerConfig>, output: OutputMode, kill: &K) -> (w1: W) where
        K: Fn(W, H) -> W,

        requires
            forall|w: W, h: H| #[trigger] kill.requires((w, h)),
        ensures
            ({
                let plan = reload_plan(old(self).configs(), old(self).handles(), old(self).global_output(), servers@, output);
                let dropped = Seq::new(
                    old(self).handles().len(),
                    |i: int| if plan.contains(Some(i)) { None } else { old(self).handles()[i] },
                );
                &&& final(self).configs() == servers@
                &&& final(self).global_output() == output
                &&& final(self).handles().len() == servers@.len()
                &&& forall|j: int|
                    #![trigger final(self).handles()[j]]
                    0 <= j < servers@.len() ==> final(self).handles()[j] == match plan[j] {
                        Some(i) => old(self).handles()[i],
                        None => None,
                    }
                &&& exists|ws: Seq<W>|
                    #![trigger kills_in_turn(*kill, ws, id_range(old(self).handles().len()), dropped)]
                    kills_in_turn(*kill, ws, id_range(old(self).handles().len()), dropped) && ws[0] == w && ws.last()
                        == w1
            }),
    {
        let ghost old_configs = self.configs();
        let ghost old_handles = self.handles();
        let ghost old_output = self.global_output();
        let plan_vec = self.plan_reload(&servers, output);
        let ghost plan = reload_plan(old_configs, old_handles, old_output, servers@, output);
        proof {
            lemma_reload_plan_sound(old_configs, old_handles, old_output, servers@, output);
        }
        assert(plan_vec@.len() == servers@.len()) by {
            assert(plan_vec@.map_values(|o: Option<usize>| opt_index(o)).len() == plan_vec@.len());
        }
        let n_new = servers.len();
        let ghost all = servers@;
        let mut servers = servers;
        let mut processes: Vec<ManagedProcess<H>> = Vec::new();
        let mut j: usize = 0;
        while j < n_new
            invariant
                n_new == all.len(),
                plan_vec@.len() == n_new,
                plan == reload_plan(old_configs, old_handles, old_output, all, output),
                plan.len() == n_new,
                forall|x: int| 0 <= x < n_new ==> opt_index(#[trigger] plan_vec@[x]) == plan[x],
                forall|x: int|
                    #![trigger plan[x]]
                    0 <= x < plan.len() ==> (plan[x] matches Some(i) ==> 0 <= i < old_configs.len()),
                forall|x: int, y: int| 0 <= x < y < plan.len() && plan[x] is Some ==> plan[x] != plan[y],
                j <= n_new,
                servers@ == all.subrange(j as int, n_new as int),
                self.configs() == old_configs,
                self.global_output() == old_output,
                self.handles().len() == old_handles.len(),
                forall|i: int|
                    #![trigger self.handles()[i]]
                    0 <= i < old_handles.len() ==> self.handles()[i] == if plan.take(j as int).contains(Some(i)) {
                        None
                    } else {
                        old_handles[i]
                    },
                processes@.len() == j,
                forall|x: int|
                    #![trigger processes@[x]]
                    0 <= x < j ==> processes@[x].config == all[x] && processes@[x].handle == match plan[x] {
                        Some(i) => old_handles[i],
                        None => None,
                    },
            decreases n_new - j,
        {
            let config = servers.remove(0);
            assert(config == all[j as int]);
            assert(opt_index(plan_vec@[j as int]) == plan[j as int]);
            let handle = match plan_vec[j] {
                Some(i) => {
                    assert(!plan.take(j as int).contains(Some(i as int))) by {
                        if plan.take(j as int).contains(Some(i as int)) {
                            let x = choose|x: int| 0 <= x < j && plan.take(j as int)[x] == Some(i as int);
                            assert(plan[x] == plan[j as int]);
                        }
                    }
                    self.take_handle(i)
                },
                None => None,
            };
            processes.push(ManagedProcess { config, handle });
            proof {
                let upto = plan.take(j + 1);
                let prev = plan.take(j as int);
                assert(upto[j as int] == plan[j as int]);
                assert forall|i: int|
                    #![trigger self.handles()[i]]
                    0 <= i < old_handles.len() implies self.handles()[i] == if upto.contains(Some(i)) {
                        None
                    } else {
                        old_handles[i]
                    } by {
                    if prev.contains(Some(i)) {
                        let x = choose|x: int| 0 <= x < j && #[trigger] prev[x] == Some(i);
                        assert(upto[x] == Some(i));
                    }
                    if upto.contains(Some(i)) && !prev.contains(Some(i)) {
                        let x = choose|x: int| 0 <= x < upto.len() && #[trigger] upto[x] == Some(i);
                        if x < j {
                            assert(prev[x] == Some(i));
                        }
                    }
                }
            }
            j = j + 1;
        }
        assert(plan.take(n_new as int) =~= plan);
        let n_old = self.processes.len();
        let ghost dropped = Seq::new(
            old_handles.len(),
            |i: int| if plan.contains(Some(i)) { None } else { old_handles[i] },
        );
        let ghost w0 = w;
        let mut w = w;
        let ghost mut ws: Seq<W> = seq![w0];
        let mut i: usize = 0;
        while i < n_old
            invariant
                n_old == old_handles.len(),
                i <= n_old,
                self.handles().len() == n_old,
                forall|k: int| 0 <= k < n_old ==> (#[trigger] self.handles()[k]) == if k < i || plan.contains(Some(k)) {
                    None
                } else {
                    old_handles[k]
                },
                dropped == Seq::new(
                    old_handles.len(),
                    |i: int| if plan.contains(Some(i)) { None } else { old_handles[i] },
                ),
                ws.len() == i + 1,
                ws[0] == w0,
                ws[i as int] == w,
                forall|k: int| 0 <= k < i ==> killed(*kill, ws[k], ws[k + 1], #[trigger] dropped[k]),
                forall|w: W, h: H| #[trigger] kill.requires((w, h)),
            decreases n_old - i,
        {
            let ghost prev = ws;
            let h = self.take_handle(i);
            assert(h == dropped[i as int]);
            w = match h {
                Some(h) => kill(w, h),
                None => w,
            };
            proof {
                ws = prev.push(w);
                assert forall|k: int| 0 <= k < i + 1 implies killed(*kill, ws[k], ws[k + 1], #[trigger] dropped[k]) by {
                    assert(ws[k] == prev[k]);
                    if k < i {
                        assert(ws[k + 1] == prev[k + 1]);
                    }
                }
            }
            i = i + 1;
        }
        proof {
            let ids = id_range(n_old as nat);
            assert forall|k: int| #![trigger ids[k]] 0 <= k < ids.len() implies killed(*kill, ws[k], ws[k + 1], dropped[ids[k] as int]) by {
                assert(ids[k] as int == k);
            }
            assert(kills_in_turn(*kill, ws, ids, dropped));
        }
        self.processes = processes;
        self.output = output;
        assert(self.configs() =~= all);
        assert forall|j: int|
            #![trigger self.handles()[j]]
            0 <= j < all.len() implies self.handles()[j] == match plan[j] {
                Some(i) => old_handles[i],
                None => None,
            } by {
            assert(self.processes@[j] == processes@[j]);
        }
        w
    }
}


/// Reloading the very configuration that is running, with server names all
/// distinct, changes nothing: every running server keeps its process and
/// every stopped one stays stopped, so no process is killed.
pub proof fn lemma_reload_same_config_keeps_everything<H>(
    configs: Seq<ServerConfig>,
    handles: Seq<Option<H>>,
    output: OutputMode,
)
    requires
        handles.len() == configs.len(),
        forall|a: int, b: int| 0 <= a < b < configs.len() ==> configs[a].name@ != configs[b].name@,
    ensures
        forall|j: int|
            #![trigger handles[j]]
            0 <= j < configs.len() ==> reload_plan(configs, handles, output, configs, output)[j] == if handles[j] is Some {
                Some(j)
            } else {
                None
            },
{
    let plan = reload_plan(configs, handles, output, configs, output);
    lemma_reload_plan_sound(configs, handles, output, configs, output);
    assert forall|j: int|
        #![trigger handles[j]]
        0 <= j < configs.len() implies plan[j] == if handles[j] is Some {
            Some(j)
        } else {
            None
        } by {
        if handles[j] is Some {
            assert forall|k: int| 0 <= k < configs.len() && k != j implies configs[k].name@ != configs[j].name@ by {
                if k < j {
                    assert(configs[k].name@ != configs[j].name@);
                } else {
                    assert(configs[j].name@ != configs[k].name@);
                }
            }
            lemma_reload_keeps_unchanged_server(configs, handles, output, configs, output, j, j);
        } else {
            if plan[j] is Some {
                let i = plan[j]->0;
                if i != j {
                    if i < j {
                        assert(configs[i].name@ != configs[j].name@);
                    } else {
                        assert(configs[j].name@ != configs[i].name@);
                    }
                }
            }
        }
    }
}

/// The error for starting a server that already runs outside the app.
pub open spec fn external_message(name: Seq<char>, pid: u32) -> Seq<char> {
    "'"@ + name + "' is already running outside Server Start (PID "@ + decimal(pid as nat) + ")"@
}

/// The error shown when Start is refused because the server already runs
/// outside the app.
pub fn external_start_error(name: &str, pid: u32) -> (e: String)
    ensures
        e@ == external_message(name@, pid),
{
    let mut e = String::from_str("'");
    e.append(name);
    e.append("' is already running outside Server Start (PID ");
    push_decimal(&mut e, pid as u64);
    e.append(")");
    e
}

fn not_found(id: usize) -> (e: String)
    ensures
        e@ == not_found_message(id as nat),
{
    let mut e = String::new();
    e.append("Server ");
    push_decimal(&mut e, id as u64);
    e.append(" not found");
    e
}

fn already_running(name: &String) -> (e: String)
    ensures
        e@ == already_running_message(name@),
{
    let mut e = String::new();
    e.append("'");
    e.append(name.as_str());
    e.append("' is already running");
    e
}

} // verus!

verus! {

/// The handles once the servers marked in `exited` are known to have
/// exited: their handles are dropped, the others kept.
pub open spec fn after_exits<H>(handles: Seq<Option<H>>, exited: Seq<bool>) -> Seq<Option<H>> {
    Seq::new(handles.len(), |i: int| if i < exited.len() && exited[i] { None } else { handles[i] })
}

/// Crash detection: once a poll finds that a server's process has exited,
/// the server no longer counts as running; a server whose process is still
/// alive keeps it.
pub proof fn lemma_exit_detected<H>(handles: Seq<Option<H>>, exited: Seq<bool>, i: int)
    requires
        0 <= i < handles.len(),
        i < exited.len(),
    ensures
        exited[i] ==> after_exits(handles, exited)[i] is None,
        !exited[i] ==> after_exits(handles, exited)[i] == handles[i],
{
}

/// How long the app waits for an external server's port to be released:
/// the number of times it asks whether the port is still listened on.
pub const RELEASE_POLLS: u32 = 50;

/// A wait for `port` to be released, the world going from `w0` to `w1`.
/// Each entry of `probes` is one ask of `listening`: the world before, the
/// answer (still taken), the world after. At most [`RELEASE_POLLS`] asks
/// are made, the first from `w0`; between two asks `pause` is called once,
/// and only after the answer "taken"; the wait ends at the first "free"
/// answer (`released`), or after the last ask and one more pause.
pub open spec fn release_wait<W, L: Fn(W, u16) -> (W, bool), S: Fn(W) -> W>(
    listening: L,
    pause: S,
    port: u16,
    w0: W,
    w1: W,
    probes: Seq<(W, bool, W)>,
    released: bool,
) -> bool {
    let n = probes.len();
    &&& 1 <= n <= RELEASE_POLLS
    &&& probes[0].0 == w0
    &&& forall|k: int|
        0 <= k < n ==> call_ensures(listening, ((#[trigger] probes[k]).0, port), (probes[k].2, probes[k].1))
    &&& forall|k: int|
        0 <= k < n - 1 ==> (#[trigger] probes[k]).1 && call_ensures(pause, (probes[k].2,), probes[k + 1].0)
    &&& released == !probes[n - 1].1
    &&& released ==> w1 == probes[n - 1].2
    &&& !released ==> n == RELEASE_POLLS && call_ensures(pause, (probes[n - 1].2,), w1)
}

/// Waits for `port` to be released after its external owner was killed:
/// asks `listening` at most [`RELEASE_POLLS`] times, calling `pause` after
/// each answer that the port is still taken, and stops at the first answer
/// that it is free. Returns the world after the wait and whether the port
/// was seen free.
pub fn wait_for_release<W, L, S>(w: W, port: u16, listening: &L, pause: &S) -> (out: (W, bool)) where
    L: Fn(W, u16) -> (W, bool),
    S: Fn(W) -> W,

    requires
        forall|w: W, p: u16| #[trigger] listening.requires((w, p)),
        forall|w: W| #[trigger] pause.requires((w,)),
    ensures
        exists|probes: Seq<(W, bool, W)>|
            #![trigger release_wait(*listening, *pause, port, w, out.0, probes, out.1)]
            release_wait(*listening, *pause, port, w, out.0, probes, out.1),
{
    let ghost w0 = w;
    let mut cur = w;
    let ghost mut probes: Seq<(W, bool, W)> = Seq::empty();
    let mut polls: u32 = 0;
    loop
        invariant
            forall|w: W, p: u16| #[trigger] listening.requires((w, p)),
            forall|w: W| #[trigger] pause.requires((w,)),
            polls < RELEASE_POLLS,
            w0 == w,
            probes.len() == polls,
            polls == 0 ==> cur == w0,
            polls > 0 ==> probes[0].0 == w0,
            forall|k: int|
                0 <= k < polls ==> call_ensures(*listening, ((#[trigger] probes[k]).0, port), (probes[k].2, probes[k].1)),
            forall|k: int|
                0 <= k < polls - 1 ==> (#[trigger] probes[k]).1 && call_ensures(*pause, (probes[k].2,), probes[k + 1].0),
            polls > 0 ==> probes[polls - 1].1 && call_ensures(*pause, (probes[polls - 1].2,), cur),
        decreases RELEASE_POLLS - polls,
    {
        let ghost before = cur;
        let ghost prev = probes;
        let (wa, taken) = listening(cur, port);
        proof {
            probes = prev.push((before, taken, wa));
            assert forall|k: int|
                0 <= k < polls + 1 implies call_ensures(*listening, ((#[trigger] probes[k]).0, port), (probes[k].2, probes[k].1)) by {
                if k < polls {
                    assert(probes[k] == prev[k]);
                }
            }
            assert forall|k: int|
                0 <= k < polls implies (#[trigger] probes[k]).1 && call_ensures(*pause, (probes[k].2,), probes[k + 1].0) by {
                assert(probes[k] == prev[k]);
                if k + 1 < polls {
                    assert(probes[k + 1] == prev[k + 1]);
                }
            }
        }
        polls = polls + 1;
        if !taken {
            let res = (wa, true);
            assert(release_wait(*listening, *pause, port, w, res.0, probes, res.1));
            return res;
        }
        cur = pause(wa);
        if polls == RELEASE_POLLS {
            let res = (cur, false);
            assert(release_wait(*listening, *pause, port, w, res.0, probes, res.1));
            return res;
        }
    }
}

impl<H> ProcessManager<H> {
    /// The PID that listens on server `i`'s port while the manager does not
    /// run it: the server was started outside the app.
    pub open spec fn external_pid(&self, i: int, ports: Map<u16, u32>) -> Option<u32> {
        if self.handles()[i] is Some {
            None
        } else {
            match self.configs()[i].port {
                Some(p) => if ports.contains_key(p) {
                    Some(ports[p])
                } else {
                    None
                },
                None => None,
            }
        }
    }

    fn find_external(&self, id: usize, ports: &HashMap<u16, u32>) -> (pid: Option<u32>)
        requires
            id < self.configs().len(),
        ensures
            pid == self.external_pid(id as int, ports@),
    {
        broadcast use vstd::std_specs::hash::group_hash_axioms;

        if self.processes[id].handle.is_some() {
            return None;
        }
        match self.processes[id].config.port {
            Some(p) => match ports.get(&p) {
                Some(pid) => Some(*pid),
                None => None,
            },
            None => None,
        }
    }

    /// Drops the handles of the servers marked in `exited`, whose processes
    /// have exited on their own.
    pub fn clear_exited(&mut self, exited: &Vec<bool>)
        ensures
            final(self).configs() == old(self).configs(),
            final(self).global_output() == old(self).global_output(),
            final(self).handles() == after_exits(old(self).handles(), exited@),
    {
        let mut i: usize = 0;
        while i < self.processes.len()
            invariant
                self.configs() == old(self).configs(),
                self.global_output() == old(self).global_output(),
                self.handles().len() == old(self).handles().len(),
                i <= self.handles().len(),
                forall|j: int| 0 <= j < i ==> #[trigger] self.handles()[j] == after_exits(old(self).handles(), exited@)[j],
                forall|j: int| i <= j < self.handles().len() ==> #[trigger] self.handles()[j] == old(self).handles()[j],
            decreases self.handles().len() - i,
        {
            if i < exited.len() && exited[i] {
                self.set_handle(i, None);
            }
            i = i + 1;
        }
        assert(self.handles() =~= after_exits(old(self).handles(), exited@));
    }

    /// Crash detection: asks `exited` about the process of every running
    /// server and drops the handles of those that have exited. Returns, per
    /// server, whether its process was found to have exited.
    pub fn poll_exits<P>(&mut self, exited: &P) -> (found: Vec<bool>) where P: Fn(&H) -> bool
        requires
            forall|h: &H| #[trigger] exited.requires((h,)),
        ensures
            final(self).configs() == old(self).configs(),
            final(self).global_output() == old(self).global_output(),
            found@.len() == old(self).handles().len(),
            forall|i: int|
                0 <= i < found@.len() ==> match #[trigger] old(self).handles()[i] {
                    Some(h) => call_ensures(*exited, (&h,), found@[i]),
                    None => !found@[i],
                },
            final(self).handles() == after_exits(old(self).handles(), found@),
    {
        let mut found: Vec<bool> = Vec::new();
        let mut i: usize = 0;
        while i < self.processes.len()
            invariant
                forall|h: &H| #[trigger] exited.requires((h,)),
                i <= self.handles().len(),
                found@.len() == i,
                forall|j: int|
                    0 <= j < i ==> match #[trigger] self.handles()[j] {
                        Some(h) => call_ensures(*exited, (&h,), found@[j]),
                        None => !found@[j],
                    },
            decreases self.handles().len() - i,
        {
            let gone = match &self.processes[i].handle {
                Some(h) => exited(h),
                None => false,
            };
            found.push(gone);
            i = i + 1;
        }
        self.clear_exited(&found);
        found
    }

    /// Starts server `id`. It is refused, with no effect, when the id names
    /// no server, when the manager runs it already, or when the manager does
    /// not run it but something outside the app listens on its port (`ports`
    /// is a snapshot of the listening ports and their PIDs); otherwise
    /// `spawn` is called once and the handle it returns is kept.
    pub fn start<W, F>(&mut self, w: W, id: usize, ports: &HashMap<u16, u32>, spawn: &F) -> (out: (
        W,
        Result<(), String>,
    )) where
        F: Fn(W, &ServerConfig, OutputMode) -> (W, Result<H, String>),

        requires
            forall|w: W, c: &ServerConfig, m: OutputMode| #[trigger] spawn.requires((w, c, m)),
        ensures
            final(self).configs() == old(self).configs(),
            final(self).global_output() == old(self).global_output(),
            id >= old(self).configs().len() ==> {
                &&& final(self).handles() == old(self).handles()
                &&& out.0 == w
                &&& out.1 matches Err(e) && e@ == not_found_message(id as nat)
            },
            id < old(self).configs().len() ==> match old(self).external_pid(id as int, ports@) {
                Some(pid) => {
                    &&& final(self).handles() == old(self).handles()
                    &&& out.0 == w
                    &&& out.1 matches Err(e) && e@ == external_message(old(self).configs()[id as int].name@, pid)
                },
                None => {
                    &&& final(self).handles() == old(self).handles().update(
                        id as int,
                        final(self).handles()[id as int],
                    )
                    &&& start_outcome(
                        *spawn,
                        w,
                        out.0,
                        old(self).configs()[id as int],
                        old(self).mode_of(id as int),
                        old(self).handles()[id as int],
                        final(self).handles()[id as int],
                        out.1,
                    )
                },
            },
    {
        if id >= self.processes.len() {
            return (w, Err(not_found(id)));
        }
        if let Some(pid) = self.find_external(id, ports) {
            return (w, Err(external_start_error(self.processes[id].config.name.as_str(), pid)));
        }
        self.start_one(w, id, spawn)
    }

    /// Stops server `id`: the manager's own process is given to `kill`; for
    /// a server started outside the app, the PID listening on its port is
    /// given to `kill_pid` (which kills that process tree). A stopped server
    /// has no effect.
    pub fn stop<W, K, KP>(&mut self, w: W, id: usize, ports: &HashMap<u16, u32>, kill: &K, kill_pid: &KP) -> (out: (
        W,
        Result<(), String>,
    )) where K: Fn(W, H) -> W, KP: Fn(W, u32) -> W
        requires
            forall|w: W, h: H| #[trigger] kill.requires((w, h)),
            forall|w: W, p: u32| #[trigger] kill_pid.requires((w, p)),
        ensures
            final(self).configs() == old(self).configs(),
            final(self).global_output() == old(self).global_output(),
            id >= old(self).configs().len() ==> {
                &&& final(self).handles() == old(self).handles()
                &&& out.0 == w
                &&& out.1 matches Err(e) && e@ == not_found_message(id as nat)
            },
            id < old(self).configs().len() ==> {
                &&& out.1 is Ok
                &&& final(self).handles() == old(self).handles().update(id as int, None)
                &&& match old(self).external_pid(id as int, ports@) {
                    Some(pid) => call_ensures(*kill_pid, (w, pid), out.0),
                    None => killed(*kill, w, out.0, old(self).handles()[id as int]),
                }
            },
    {
        if id >= self.processes.len() {
            return (w, Err(not_found(id)));
        }
        if let Some(pid) = self.find_external(id, ports) {
            let w1 = kill_pid(w, pid);
            assert(self.handles() =~= self.handles().update(id as int, None));
            return (w1, Ok(()));
        }
        let w1 = self.stop_one(w, id, kill);
        (w1, Ok(()))
    }

    /// Restarts server `id`: its process is stopped first, then the server
    /// is started. A server started outside the app is taken over: the PID
    /// listening on its port is given to `kill_pid`, the port is waited for
    /// as [`wait_for_release`] does, and then the server is started under
    /// the manager.
    pub fn restart<W, F, K, KP, L, S>(
        &mut self,
        w: W,
        id: usize,
        ports: &HashMap<u16, u32>,
        spawn: &F,
        kill: &K,
        kill_pid: &KP,
        listening: &L,
        pause: &S,
    ) -> (out: (W, Result<(), String>)) where
        F: Fn(W, &ServerConfig, OutputMode) -> (W, Result<H, String>),
        K: Fn(W, H) -> W,
        KP: Fn(W, u32) -> W,
        L: Fn(W, u16) -> (W, bool),
        S: Fn(W) -> W,

        requires
            forall|w: W, c: &ServerConfig, m: OutputMode| #[trigger] spawn.requires((w, c, m)),
            forall|w: W, h: H| #[trigger] kill.requires((w, h)),
            forall|w: W, p: u32| #[trigger] kill_pid.requires((w, p)),
            forall|w: W, p: u16| #[trigger] listening.requires((w, p)),
            forall|w: W| #[trigger] pause.requires((w,)),
        ensures
            final(self).configs() == old(self).configs(),
            final(self).global_output() == old(self).global_output(),
            id >= old(self).configs().len() ==> {
                &&& final(self).handles() == old(self).handles()
                &&& out.0 == w
                &&& out.1 matches Err(e) && e@ == not_found_message(id as nat)
            },
            id < old(self).configs().len() ==> {
                &&& final(self).handles() == old(self).handles().update(id as int, final(self).handles()[id as int])
                &&& match old(self).external_pid(id as int, ports@) {
                    Some(pid) => exists|wa: W, wb: W, probes: Seq<(W, bool, W)>, released: bool|
                        #![trigger release_wait(*listening, *pause, old(self).configs()[id as int].port->0, wa, wb, probes, released)]
                        call_ensures(*kill_pid, (w, pid), wa) && release_wait(
                            *listening,
                            *pause,
                            old(self).configs()[id as int].port->0,
                            wa,
                            wb,
                            probes,
                            released,
                        ) && start_outcome(
                            *spawn,
                            wb,
                            out.0,
                            old(self).configs()[id as int],
                            old(self).mode_of(id as int),
                            None,
                            final(self).handles()[id as int],
                            out.1,
                        ),
                    None => exists|wm: W|
                        #![trigger killed(*kill, w, wm, old(self).handles()[id as int])]
                        killed(*kill, w, wm, old(self).handles()[id as int]) && start_outcome(
                            *spawn,
                            wm,
                            out.0,
                            old(self).configs()[id as int],
                            old(self).mode_of(id as int),
                            None,
                            final(self).handles()[id as int],
                            out.1,
                        ),
                }
            },
    {
        if id >= self.processes.len() {
            return (w, Err(not_found(id)));
        }
        if let Some(pid) = self.find_external(id, ports) {
            let port = match self.processes[id].config.port {
                Some(p) => p,
                None => 0,
            };
            let wa = kill_pid(w, pid);
            let (wb, released) = wait_for_release(wa, port, listening, pause);
            let out = self.start_one(wb, id, spawn);
            proof {
                let probes = choose|probes: Seq<(W, bool, W)>| release_wait(*listening, *pause, port, wa, wb, probes, released);
                assert(release_wait(*listening, *pause, old(self).configs()[id as int].port->0, wa, wb, probes, released));
            }
            return out;
        }
        self.restart_one(w, id, spawn, kill)
    }
}

} // verus!

verus! {

/// A running server keeps its process across a reload only for a new server
/// that is spawned exactly as it was: for every new server `j` that the plan
/// gives the process of old server `i`, that process is running and the two
/// have the same name, directory, command, environment (as a map of
/// variables) and output override, and run with the same output mode (their
/// own override, else the global default of their configuration). A change
/// of any of these, such as one environment variable, makes the old process
/// go (and [`ProcessManager::reload`] kill it).
pub proof fn lemma_reload_keeps_only_identical_spawns<H>(
    old_configs: Seq<ServerConfig>,
    old_handles: Seq<Option<H>>,
    old_output: OutputMode,
    new_configs: Seq<ServerConfig>,
    new_output: OutputMode,
    j: int,
)
    requires
        0 <= j < new_configs.len(),
    ensures
        reload_plan(old_configs, old_handles, old_output, new_configs, new_output)[j] matches Some(i) ==> {
            &&& 0 <= i < old_configs.len()
            &&& old_handles[i] is Some
            &&& old_configs[i]@.name == new_configs[j]@.name
            &&& old_configs[i]@.dir == new_configs[j]@.dir
            &&& old_configs[i]@.cmd == new_configs[j]@.cmd
            &&& old_configs[i]@.env == new_configs[j]@.env
            &&& old_configs[i].output == new_configs[j].output
            &&& (match old_configs[i].output {
                Some(m) => m,
                None => old_output,
            }) == (match new_configs[j].output {
                Some(m) => m,
                None => new_output,
            })
        },
{
    lemma_reload_plan_sound(old_configs, old_handles, old_output, new_configs, new_output);
    let plan = reload_plan(old_configs, old_handles, old_output, new_configs, new_output);
    assert(plan.len() == new_configs.len());
    if plan[j] is Some {
        let i = plan[j]->0;
        assert(may_keep(
            old_configs[i],
            effective_mode(old_configs[i].output, old_output),
            old_handles[i],
            new_configs[j],
            effective_mode(new_configs[j].output, new_output),
        ));
    }
}

/// Whether group member name `n` names a server.
pub open spec fn names_a_server(configs: Seq<ServerConfig>, n: Seq<char>) -> bool {
    exists|i: int| 0 <= i < configs.len() && #[trigger] configs[i].name@ == n
}

/// Whether group member name `n` names a server whose process runs: the
/// first server of that name.
pub open spec fn names_a_running_server<H>(configs: Seq<ServerConfig>, handles: Seq<Option<H>>, n: Seq<char>) -> bool {
    exists|i: int|
        0 <= i < configs.len() && #[trigger] configs[i].name@ == n && handles[i] is Some && forall|k: int|
            0 <= k < i ==> configs[k].name@ != n
}

proof fn lemma_first_named_from_finds(configs: Seq<ServerConfig>, n: Seq<char>, from: int)
    requires
        0 <= from,
    ensures
        match first_named_from(configs, n, from) {
            Some(i) => from <= i < configs.len() && configs[i].name@ == n && forall|k: int|
                from <= k < i ==> configs[k].name@ != n,
            None => forall|k: int| from <= k < configs.len() ==> configs[k].name@ != n,
        },
    decreases configs.len() - from,
{
    if from < configs.len() && configs[from].name@ != n {
        lemma_first_named_from_finds(configs, n, from + 1);
    }
}

/// What a group's status counts, over all member lists: the running count
/// is the number of member names (repeats counted each time) whose server
/// is running, and the total the number of member names that name a
/// server; names that match no server count in neither.
pub proof fn lemma_group_counts_count<H>(configs: Seq<ServerConfig>, handles: Seq<Option<H>>, names: Seq<Seq<char>>)
    ensures
        group_counts(configs, handles, names).0 == names.filter(
            |n: Seq<char>| names_a_running_server(configs, handles, n),
        ).len(),
        group_counts(configs, handles, names).1 == names.filter(|n: Seq<char>| names_a_server(configs, n)).len(),
    decreases names.len(),
{
    let running = |n: Seq<char>| names_a_running_server(configs, handles, n);
    let named = |n: Seq<char>| names_a_server(configs, n);
    if names.len() == 0 {
        reveal_with_fuel(Seq::filter, 1);
    } else {
        let prefix = names.drop_last();
        let n = names.last();
        lemma_group_counts_count(configs, handles, prefix);
        assert(prefix.push(n) =~= names);
        prefix.lemma_filter_len_push(running, n);
        prefix.lemma_filter_len_push(named, n);
        lemma_first_named_from_finds(configs, n, 0);
        match first_named(configs, n) {
            Some(i) => {
                assert(named(n));
                if handles[i] is Some {
                    assert(running(n));
                } else {
                    assert(!running(n)) by {
                        if running(n) {
                            let x = choose|x: int|
                                0 <= x < configs.len() && #[trigger] configs[x].name@ == n && handles[x] is Some
                                    && forall|k: int| 0 <= k < x ==> configs[k].name@ != n;
                            assert(x == i);
                        }
                    }
                }
            },
            None => {
                assert(!named(n));
                assert(!running(n));
            },
        }
    }
}

/// A group acts on exactly the servers its member names name (the first
/// server of each name), each of them once: a server is among the group's
/// targets exactly when some member name names it first, and no target
/// comes twice.
pub proof fn lemma_group_targets_members(configs: Seq<ServerConfig>, names: Seq<Seq<char>>)
    requires
        configs.len() <= usize::MAX,
    ensures
        forall|i: int|
            0 <= i < configs.len() ==> (#[trigger] group_targets(configs, names).contains(i as usize) <==> exists|k: int|
                0 <= k < names.len() && #[trigger] first_named(configs, names[k]) == Some(i)),
        forall|a: int, b: int|
            0 <= a < b < group_targets(configs, names).len() ==> group_targets(configs, names)[a] != group_targets(
                configs,
                names,
            )[b],
        forall|a: int|
            0 <= a < group_targets(configs, names).len() ==> #[trigger] group_targets(configs, names)[a] < configs.len(),
    decreases names.len(),
{
    if names.len() > 0 {
        let prefix = names.drop_last();
        let n = names.last();
        lemma_group_targets_members(configs, prefix);
        let before = group_targets(configs, prefix);
        let after = group_targets(configs, names);
        lemma_first_named_from_finds(configs, n, 0);
        assert forall|i: int| 0 <= i < configs.len() implies (#[trigger] after.contains(i as usize) <==> exists|k: int|
            0 <= k < names.len() && #[trigger] first_named(configs, names[k]) == Some(i)) by {
            if after.contains(i as usize) {
                if before.contains(i as usize) {
                    let k = choose|k: int| 0 <= k < prefix.len() && #[trigger] first_named(configs, prefix[k]) == Some(i);
                    assert(names[k] == prefix[k]);
                } else {
                    match first_named(configs, n) {
                        Some(x) => {
                            if before.contains(x as usize) {
                                assert(after == before);
                            } else {
                                assert(after == before.push(x as usize));
                                let y = choose|y: int| 0 <= y < after.len() && after[y] == i as usize;
                                if y < before.len() {
                                    assert(before[y] == after[y]);
                                }
                                assert(x == i);
                            }
                        },
                        None => {
                            assert(after == before);
                        },
                    }
                    assert(names[names.len() - 1] == n);
                    assert(first_named(configs, names[names.len() - 1]) == Some(i));
                }
            }
            if exists|k: int| 0 <= k < names.len() && #[trigger] first_named(configs, names[k]) == Some(i) {
                let k = choose|k: int| 0 <= k < names.len() && #[trigger] first_named(configs, names[k]) == Some(i);
                if k < prefix.len() {
                    assert(names[k] == prefix[k]);
                    assert(before.contains(i as usize));
                    let y = choose|y: int| 0 <= y < before.len() && before[y] == i as usize;
                    if !before.contains((first_named(configs, n)->0) as usize) && first_named(configs, n) is Some {
                        assert(after[y] == before[y]);
                    }
                } else {
                    assert(names[k] == n);
                    if !before.contains(i as usize) {
                        assert(after[before.len() as int] == i as usize);
                    }
                }
            }
        }
    }
}

} // verus!

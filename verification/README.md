# server-start

A Windows system-tray application that starts, stops and restarts the dev
servers listed in `%APPDATA%/server-start/config.toml`, with per-server output
modes (terminal, log file, hidden), server groups, hot configuration reload,
detection of servers started outside the app (by the TCP port they listen on),
"Restart Terminals" and "Start with Windows".

## Layout

- `src/` — the verified library (Verus):
  - `config.rs` — server, group and configuration types; effective output
    mode; `spawn_fields_eq` (port excluded); file locations and log file
    names; the warning about groups that name unknown servers.
  - `process.rs` — `ProcessManager`: per-server process handles, start /
    stop / restart (single, all, group), start / stop / restart of servers
    started outside the app, crash detection (dropping the handles of
    processes that exited), output-mode switching, status (running /
    external / stopped), the wait for a released port, and the hot-reload
    plan that keeps unchanged servers running.
  - `ports.rs` — decoding of the Windows TCP listener tables
    (`MIB_TCPTABLE_OWNER_PID`, `MIB_TCP6TABLE_OWNER_PID`) into a
    port -> PID map, and the decisions of the two-call sizing fetch.
  - `tasklist.rs` — reading `tasklist /FO CSV /NH` output for "Restart
    Terminals".
  - `menu.rs` — tray menu item ids and their parsing, labels and item
    states.
  - `launch.rs` — the command line a server is spawned with.
  - `autostart.rs` — the value written under the HKCU Run key.
  - `text.rs` — string helpers (decimal numerals, number parsing).
- `app/` — the program: tray icon and menu (tray-icon, winit), the event
  loop, TOML loading (serde, toml), process spawning and killing, the
  listener-table system calls (windows), the registry (winreg) and message
  boxes.
- `tests/` — tests of the library.

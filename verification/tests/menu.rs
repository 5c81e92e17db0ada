use server_start::config::OutputMode;
use server_start::menu::{
    group_label, menu_id, mode_item, parse_menu_id, server_items, server_label, shows_view_log, MenuCommand,
};
use server_start::process::{external_start_error, RunState};

#[test]
fn fixed_ids() {
    assert_eq!(parse_menu_id("quit"), Some(MenuCommand::Quit));
    assert_eq!(parse_menu_id("start_all"), Some(MenuCommand::StartAll));
    assert_eq!(parse_menu_id("stop_all"), Some(MenuCommand::StopAll));
    assert_eq!(parse_menu_id("restart_all"), Some(MenuCommand::RestartAll));
    assert_eq!(parse_menu_id("restart_terminals"), Some(MenuCommand::RestartTerminals));
    assert_eq!(parse_menu_id("reload_config"), Some(MenuCommand::ReloadConfig));
    assert_eq!(parse_menu_id("open_config"), Some(MenuCommand::OpenConfig));
    assert_eq!(parse_menu_id("autostart"), Some(MenuCommand::ToggleAutostart));
    assert_eq!(parse_menu_id("refresh_status"), Some(MenuCommand::RefreshStatus));
    assert_eq!(menu_id(MenuCommand::RefreshStatus), "refresh_status");
}

#[test]
fn numbered_ids() {
    assert_eq!(parse_menu_id("start_3"), Some(MenuCommand::Start(3)));
    assert_eq!(parse_menu_id("stop_0"), Some(MenuCommand::Stop(0)));
    assert_eq!(parse_menu_id("restart_12"), Some(MenuCommand::Restart(12)));
    assert_eq!(parse_menu_id("mode_terminal_1"), Some(MenuCommand::SetMode(1, OutputMode::Terminal)));
    assert_eq!(parse_menu_id("mode_logfile_2"), Some(MenuCommand::SetMode(2, OutputMode::Logfile)));
    assert_eq!(parse_menu_id("mode_hidden_4"), Some(MenuCommand::SetMode(4, OutputMode::Hidden)));
    assert_eq!(parse_menu_id("viewlog_5"), Some(MenuCommand::ViewLog(5)));
    assert_eq!(parse_menu_id("grp_start_0"), Some(MenuCommand::StartGroup(0)));
    assert_eq!(parse_menu_id("grp_stop_1"), Some(MenuCommand::StopGroup(1)));
    assert_eq!(parse_menu_id("grp_restart_2"), Some(MenuCommand::RestartGroup(2)));
    assert_eq!(parse_menu_id("start_+7"), Some(MenuCommand::Start(7)));
}

#[test]
fn ids_that_ask_for_nothing() {
    assert_eq!(parse_menu_id(""), None);
    assert_eq!(parse_menu_id("start_"), None);
    assert_eq!(parse_menu_id("start_x"), None);
    assert_eq!(parse_menu_id("stop_-1"), None);
    assert_eq!(parse_menu_id("start_99999999999999999999999"), None);
    assert_eq!(parse_menu_id("launch_1"), None);
}

#[test]
fn ids_round_trip() {
    let cmds = [
        MenuCommand::Quit,
        MenuCommand::StartAll,
        MenuCommand::StopAll,
        MenuCommand::RestartAll,
        MenuCommand::RestartTerminals,
        MenuCommand::ReloadConfig,
        MenuCommand::OpenConfig,
        MenuCommand::ToggleAutostart,
        MenuCommand::Start(10),
        MenuCommand::Stop(0),
        MenuCommand::Restart(3),
        MenuCommand::SetMode(2, OutputMode::Terminal),
        MenuCommand::SetMode(2, OutputMode::Logfile),
        MenuCommand::SetMode(2, OutputMode::Hidden),
        MenuCommand::ViewLog(1),
        MenuCommand::StartGroup(4),
        MenuCommand::StopGroup(5),
        MenuCommand::RestartGroup(6),
    ];
    for c in cmds {
        assert_eq!(parse_menu_id(&menu_id(c)), Some(c));
    }
    assert_eq!(menu_id(MenuCommand::Start(10)), "start_10");
    assert_eq!(menu_id(MenuCommand::SetMode(2, OutputMode::Logfile)), "mode_logfile_2");
}

#[test]
fn labels() {
    assert_eq!(server_label("Frontend", RunState::Running), "Frontend [running]");
    assert_eq!(server_label("Frontend", RunState::External { pid: 3 }), "Frontend [external]");
    assert_eq!(server_label("Frontend", RunState::Stopped), "Frontend [stopped]");
    assert_eq!(group_label("Reader", 1, 2), "Reader [1/2]");
    assert_eq!(mode_item(OutputMode::Terminal, OutputMode::Terminal), ("Terminal *".to_string(), false));
    assert_eq!(mode_item(OutputMode::Hidden, OutputMode::Terminal), ("Hidden".to_string(), true));
    assert!(shows_view_log(OutputMode::Logfile));
    assert!(!shows_view_log(OutputMode::Hidden));
}

#[test]
fn item_states() {
    let r = server_items(RunState::Running);
    assert!(!r.start && r.stop && r.restart);
    let s = server_items(RunState::Stopped);
    assert!(s.start && !s.stop && !s.restart);
    let e = server_items(RunState::External { pid: 1 });
    assert!(e.start && e.stop && e.restart);
}

#[test]
fn external_start_error_names_the_pid() {
    assert_eq!(external_start_error("web", 77), "'web' is already running outside Server Start (PID 77)");
}

//! The tray menu: item ids, what a click on each means, and the labels and
//! states of the items.
use vstd::prelude::*;

use crate::config::OutputMode;
use crate::process::RunState;
use crate::text::{decimal, digit_value, lemma_decimal_parses, parse_unsigned, parse_unsigned_chars, push_decimal, same_text, text_chars};

verus! {

/// What a click on a menu item asks for.
#[derive(Debug, Clone, Copy, PartialEq, Eq, Structural)]
pub enum MenuCommand {
    Quit,
    StartAll,
    StopAll,
    RestartAll,
    RestartTerminals,
    ReloadConfig,
    OpenConfig,
    /// Toggle "Start with Windows".
    ToggleAutostart,
    /// Probe every server's status again and rebuild the menu.
    RefreshStatus,
    Start(usize),
    Stop(usize),
    Restart(usize),
    SetMode(usize, OutputMode),
    ViewLog(usize),
    StartGroup(usize),
    StopGroup(usize),
    RestartGroup(usize),
}

/// The prefix of the id of an item that acts on server or group `n`.
pub open spec fn mode_prefix(mode: OutputMode) -> Seq<char> {
    match mode {
        OutputMode::Terminal => "mode_terminal_"@,
        OutputMode::Logfile => "mode_logfile_"@,
        OutputMode::Hidden => "mode_hidden_"@,
    }
}

/// The id of the menu item for a command.
pub open spec fn menu_id_text(cmd: MenuCommand) -> Seq<char> {
    match cmd {
        MenuCommand::Quit => "quit"@,
        MenuCommand::StartAll => "start_all"@,
        MenuCommand::StopAll => "stop_all"@,
        MenuCommand::RestartAll => "restart_all"@,
        MenuCommand::RestartTerminals => "restart_terminals"@,
        MenuCommand::ReloadConfig => "reload_config"@,
        MenuCommand::OpenConfig => "open_config"@,
        MenuCommand::ToggleAutostart => "autostart"@,
        MenuCommand::RefreshStatus => "refresh_status"@,
        MenuCommand::Start(i) => "start_"@ + decimal(i as nat),
        MenuCommand::Stop(i) => "stop_"@ + decimal(i as nat),
        MenuCommand::Restart(i) => "restart_"@ + decimal(i as nat),
        MenuCommand::SetMode(i, m) => mode_prefix(m) + decimal(i as nat),
        MenuCommand::ViewLog(i) => "viewlog_"@ + decimal(i as nat),
        MenuCommand::StartGroup(i) => "grp_start_"@ + decimal(i as nat),
        MenuCommand::StopGroup(i) => "grp_stop_"@ + decimal(i as nat),
        MenuCommand::RestartGroup(i) => "grp_restart_"@ + decimal(i as nat),
    }
}

/// Whether `s` begins with `prefix`.
pub open spec fn has_prefix(s: Seq<char>, prefix: Seq<char>) -> bool {
    prefix.len() <= s.len() && s.take(prefix.len() as int) == prefix
}

/// The server or group number after a prefix, read as `usize`.
pub open spec fn id_number(rest: Seq<char>) -> Option<usize> {
    match parse_unsigned(rest, usize::MAX as nat) {
        Some(n) => Some(n as usize),
        None => None,
    }
}

/// The number after `prefix` in `id`, if `id` has that prefix.
pub open spec fn numbered(id: Seq<char>, prefix: Seq<char>) -> Option<usize> {
    id_number(id.skip(prefix.len() as int))
}

/// The command a menu item id stands for. Fixed ids are tried first; then
/// the first prefix that `id` begins with decides, and the rest must read
/// as a number, or the click does nothing.
pub open spec fn menu_command(id: Seq<char>) -> Option<MenuCommand> {
    if id == "quit"@ {
        Some(MenuCommand::Quit)
    } else if id == "start_all"@ {
        Some(MenuCommand::StartAll)
    } else if id == "stop_all"@ {
        Some(MenuCommand::StopAll)
    } else if id == "restart_all"@ {
        Some(MenuCommand::RestartAll)
    } else if id == "restart_terminals"@ {
        Some(MenuCommand::RestartTerminals)
    } else if id == "open_config"@ {
        Some(MenuCommand::OpenConfig)
    } else if id == "autostart"@ {
        Some(MenuCommand::ToggleAutostart)
    } else if id == "reload_config"@ {
        Some(MenuCommand::ReloadConfig)
    } else if id == "refresh_status"@ {
        Some(MenuCommand::RefreshStatus)
    } else if has_prefix(id, "start_"@) {
        match numbered(id, "start_"@) {
            Some(i) => Some(MenuCommand::Start(i)),
            None => None,
        }
    } else if has_prefix(id, "stop_"@) {
        match numbered(id, "stop_"@) {
            Some(i) => Some(MenuCommand::Stop(i)),
            None => None,
        }
    } else if has_prefix(id, "restart_"@) {
        match numbered(id, "restart_"@) {
            Some(i) => Some(MenuCommand::Restart(i)),
            None => None,
        }
    } else if has_prefix(id, "mode_terminal_"@) {
        match numbered(id, "mode_terminal_"@) {
            Some(i) => Some(MenuCommand::SetMode(i, OutputMode::Terminal)),
            None => None,
        }
    } else if has_prefix(id, "mode_logfile_"@) {
        match numbered(id, "mode_logfile_"@) {
            Some(i) => Some(MenuCommand::SetMode(i, OutputMode::Logfile)),
            None => None,
        }
    } else if has_prefix(id, "mode_hidden_"@) {
        match numbered(id, "mode_hidden_"@) {
            Some(i) => Some(MenuCommand::SetMode(i, OutputMode::Hidden)),
            None => None,
        }
    } else if has_prefix(id, "grp_start_"@) {
        match numbered(id, "grp_start_"@) {
            Some(i) => Some(MenuCommand::StartGroup(i)),
            None => None,
        }
    } else if has_prefix(id, "grp_stop_"@) {
        match numbered(id, "grp_stop_"@) {
            Some(i) => Some(MenuCommand::StopGroup(i)),
            None => None,
        }
    } else if has_prefix(id, "grp_restart_"@) {
        match numbered(id, "grp_restart_"@) {
            Some(i) => Some(MenuCommand::RestartGroup(i)),
            None => None,
        }
    } else if has_prefix(id, "viewlog_"@) {
        match numbered(id, "viewlog_"@) {
            Some(i) => Some(MenuCommand::ViewLog(i)),
            None => None,
        }
    } else {
        None
    }
}


proof fn lemma_differ_at(a: Seq<char>, b: Seq<char>, k: int)
    requires
        0 <= k < a.len(),
        0 <= k < b.len(),
        a[k] != b[k],
    ensures
        a != b,
{
}

proof fn lemma_no_prefix_at(s: Seq<char>, p: Seq<char>, k: int)
    requires
        0 <= k < p.len(),
        k < s.len(),
        s[k] != p[k],
    ensures
        !has_prefix(s, p),
{
    if p.len() <= s.len() {
        assert(s.take(p.len() as int)[k] == s[k]);
    }
}

proof fn lemma_numbered_id(p: Seq<char>, n: usize)
    ensures
        ({
            let id = p + decimal(n as nat);
            &&& has_prefix(id, p)
            &&& numbered(id, p) == Some(n)
            &&& id.len() > p.len()
            &&& digit_value(id[p.len() as int]) is Some
            &&& forall|k: int| 0 <= k < p.len() ==> id[k] == p[k]
        }),
{
    let id = p + decimal(n as nat);
    lemma_decimal_parses(n as nat, usize::MAX as nat);
    assert(id.take(p.len() as int) =~= p);
    assert(id.skip(p.len() as int) =~= decimal(n as nat));
}

/// Every menu item id reads back as the command it was made for: the ids
/// of different commands never collide, and a click on an item always asks
/// for that item's command.
pub proof fn lemma_menu_id_round_trip(cmd: MenuCommand)
    ensures
        menu_command(menu_id_text(cmd)) == Some(cmd),
{
    reveal_strlit("quit");
    reveal_strlit("start_all");
    reveal_strlit("stop_all");
    reveal_strlit("restart_all");
    reveal_strlit("restart_terminals");
    reveal_strlit("open_config");
    reveal_strlit("autostart");
    reveal_strlit("reload_config");
    reveal_strlit("refresh_status");
    reveal_strlit("start_");
    reveal_strlit("stop_");
    reveal_strlit("restart_");
    reveal_strlit("mode_terminal_");
    reveal_strlit("mode_logfile_");
    reveal_strlit("mode_hidden_");
    reveal_strlit("grp_start_");
    reveal_strlit("grp_stop_");
    reveal_strlit("grp_restart_");
    reveal_strlit("viewlog_");
    match cmd {
        MenuCommand::Quit => {
        },
        MenuCommand::StartAll => {
            lemma_differ_at("start_all"@, "quit"@, 0);
        },
        MenuCommand::StopAll => {
            lemma_differ_at("stop_all"@, "quit"@, 0);
            lemma_differ_at("stop_all"@, "start_all"@, 2);
        },
        MenuCommand::RestartAll => {
            lemma_differ_at("restart_all"@, "quit"@, 0);
            lemma_differ_at("restart_all"@, "start_all"@, 0);
            lemma_differ_at("restart_all"@, "stop_all"@, 0);
        },
        MenuCommand::RestartTerminals => {
            lemma_differ_at("restart_terminals"@, "quit"@, 0);
            lemma_differ_at("restart_terminals"@, "start_all"@, 0);
            lemma_differ_at("restart_terminals"@, "stop_all"@, 0);
            lemma_differ_at("restart_terminals"@, "restart_all"@, 8);
        },
        MenuCommand::OpenConfig => {
            lemma_differ_at("open_config"@, "quit"@, 0);
            lemma_differ_at("open_config"@, "start_all"@, 0);
            lemma_differ_at("open_config"@, "stop_all"@, 0);
            lemma_differ_at("open_config"@, "restart_all"@, 0);
            lemma_differ_at("open_config"@, "restart_terminals"@, 0);
        },
        MenuCommand::ToggleAutostart => {
            lemma_differ_at("autostart"@, "quit"@, 0);
            lemma_differ_at("autostart"@, "start_all"@, 0);
            lemma_differ_at("autostart"@, "stop_all"@, 0);
            lemma_differ_at("autostart"@, "restart_all"@, 0);
            lemma_differ_at("autostart"@, "restart_terminals"@, 0);
            lemma_differ_at("autostart"@, "open_config"@, 0);
        },
        MenuCommand::ReloadConfig => {
            lemma_differ_at("reload_config"@, "quit"@, 0);
            lemma_differ_at("reload_config"@, "start_all"@, 0);
            lemma_differ_at("reload_config"@, "stop_all"@, 0);
            lemma_differ_at("reload_config"@, "restart_all"@, 2);
            lemma_differ_at("reload_config"@, "restart_terminals"@, 2);
            lemma_differ_at("reload_config"@, "open_config"@, 0);
            lemma_differ_at("reload_config"@, "autostart"@, 0);
        },
        MenuCommand::RefreshStatus => {
            lemma_differ_at("refresh_status"@, "quit"@, 0);
            lemma_differ_at("refresh_status"@, "start_all"@, 0);
            lemma_differ_at("refresh_status"@, "stop_all"@, 0);
            lemma_differ_at("refresh_status"@, "restart_all"@, 2);
            lemma_differ_at("refresh_status"@, "restart_terminals"@, 2);
            lemma_differ_at("refresh_status"@, "open_config"@, 0);
            lemma_differ_at("refresh_status"@, "autostart"@, 0);
            lemma_differ_at("refresh_status"@, "reload_config"@, 2);
        },
        MenuCommand::Start(i) => {
            let id = "start_"@ + decimal(i as nat);
            lemma_numbered_id("start_"@, i);
            lemma_differ_at(id, "quit"@, 0);
            assert(digit_value("start_all"@[6]) is None);
            lemma_differ_at(id, "start_all"@, 6);
            lemma_differ_at(id, "stop_all"@, 2);
            lemma_differ_at(id, "restart_all"@, 0);
            lemma_differ_at(id, "restart_terminals"@, 0);
            lemma_differ_at(id, "open_config"@, 0);
            lemma_differ_at(id, "autostart"@, 0);
            lemma_differ_at(id, "reload_config"@, 0);
            lemma_differ_at(id, "refresh_status"@, 0);
        },
        MenuCommand::Stop(i) => {
            let id = "stop_"@ + decimal(i as nat);
            lemma_numbered_id("stop_"@, i);
            lemma_differ_at(id, "quit"@, 0);
            lemma_differ_at(id, "start_all"@, 2);
            assert(digit_value("stop_all"@[5]) is None);
            lemma_differ_at(id, "stop_all"@, 5);
            lemma_differ_at(id, "restart_all"@, 0);
            lemma_differ_at(id, "restart_terminals"@, 0);
            lemma_differ_at(id, "open_config"@, 0);
            lemma_differ_at(id, "autostart"@, 0);
            lemma_differ_at(id, "reload_config"@, 0);
            lemma_differ_at(id, "refresh_status"@, 0);
            lemma_no_prefix_at(id, "start_"@, 2);
        },
        MenuCommand::Restart(i) => {
            let id = "restart_"@ + decimal(i as nat);
            lemma_numbered_id("restart_"@, i);
            lemma_differ_at(id, "quit"@, 0);
            lemma_differ_at(id, "start_all"@, 0);
            lemma_differ_at(id, "stop_all"@, 0);
            assert(digit_value("restart_all"@[8]) is None);
            lemma_differ_at(id, "restart_all"@, 8);
            assert(digit_value("restart_terminals"@[8]) is None);
            lemma_differ_at(id, "restart_terminals"@, 8);
            lemma_differ_at(id, "open_config"@, 0);
            lemma_differ_at(id, "autostart"@, 0);
            lemma_differ_at(id, "reload_config"@, 2);
            lemma_differ_at(id, "refresh_status"@, 2);
            lemma_no_prefix_at(id, "start_"@, 0);
            lemma_no_prefix_at(id, "stop_"@, 0);
        },
        MenuCommand::SetMode(i, OutputMode::Terminal) => {
            let id = "mode_terminal_"@ + decimal(i as nat);
            lemma_numbered_id("mode_terminal_"@, i);
            lemma_differ_at(id, "quit"@, 0);
            lemma_differ_at(id, "start_all"@, 0);
            lemma_differ_at(id, "stop_all"@, 0);
            lemma_differ_at(id, "restart_all"@, 0);
            lemma_differ_at(id, "restart_terminals"@, 0);
            lemma_differ_at(id, "open_config"@, 0);
            lemma_differ_at(id, "autostart"@, 0);
            lemma_differ_at(id, "reload_config"@, 0);
            lemma_differ_at(id, "refresh_status"@, 0);
            lemma_no_prefix_at(id, "start_"@, 0);
            lemma_no_prefix_at(id, "stop_"@, 0);
            lemma_no_prefix_at(id, "restart_"@, 0);
        },
        MenuCommand::SetMode(i, OutputMode::Logfile) => {
            let id = "mode_logfile_"@ + decimal(i as nat);
            lemma_numbered_id("mode_logfile_"@, i);
            lemma_differ_at(id, "quit"@, 0);
            lemma_differ_at(id, "start_all"@, 0);
            lemma_differ_at(id, "stop_all"@, 0);
            lemma_differ_at(id, "restart_all"@, 0);
            lemma_differ_at(id, "restart_terminals"@, 0);
            lemma_differ_at(id, "open_config"@, 0);
            lemma_differ_at(id, "autostart"@, 0);
            lemma_differ_at(id, "reload_config"@, 0);
            lemma_differ_at(id, "refresh_status"@, 0);
            lemma_no_prefix_at(id, "start_"@, 0);
            lemma_no_prefix_at(id, "stop_"@, 0);
            lemma_no_prefix_at(id, "restart_"@, 0);
            lemma_no_prefix_at(id, "mode_terminal_"@, 5);
        },
        MenuCommand::SetMode(i, OutputMode::Hidden) => {
            let id = "mode_hidden_"@ + decimal(i as nat);
            lemma_numbered_id("mode_hidden_"@, i);
            lemma_differ_at(id, "quit"@, 0);
            lemma_differ_at(id, "start_all"@, 0);
            lemma_differ_at(id, "stop_all"@, 0);
            lemma_differ_at(id, "restart_all"@, 0);
            lemma_differ_at(id, "restart_terminals"@, 0);
            lemma_differ_at(id, "open_config"@, 0);
            lemma_differ_at(id, "autostart"@, 0);
            lemma_differ_at(id, "reload_config"@, 0);
            lemma_differ_at(id, "refresh_status"@, 0);
            lemma_no_prefix_at(id, "start_"@, 0);
            lemma_no_prefix_at(id, "stop_"@, 0);
            lemma_no_prefix_at(id, "restart_"@, 0);
            lemma_no_prefix_at(id, "mode_terminal_"@, 5);
            lemma_no_prefix_at(id, "mode_logfile_"@, 5);
        },
        MenuCommand::StartGroup(i) => {
            let id = "grp_start_"@ + decimal(i as nat);
            lemma_numbered_id("grp_start_"@, i);
            lemma_differ_at(id, "quit"@, 0);
            lemma_differ_at(id, "start_all"@, 0);
            lemma_differ_at(id, "stop_all"@, 0);
            lemma_differ_at(id, "restart_all"@, 0);
            lemma_differ_at(id, "restart_terminals"@, 0);
            lemma_differ_at(id, "open_config"@, 0);
            lemma_differ_at(id, "autostart"@, 0);
            lemma_differ_at(id, "reload_config"@, 0);
            lemma_differ_at(id, "refresh_status"@, 0);
            lemma_no_prefix_at(id, "start_"@, 0);
            lemma_no_prefix_at(id, "stop_"@, 0);
            lemma_no_prefix_at(id, "restart_"@, 0);
            lemma_no_prefix_at(id, "mode_terminal_"@, 0);
            lemma_no_prefix_at(id, "mode_logfile_"@, 0);
            lemma_no_prefix_at(id, "mode_hidden_"@, 0);
        },
        MenuCommand::StopGroup(i) => {
            let id = "grp_stop_"@ + decimal(i as nat);
            lemma_numbered_id("grp_stop_"@, i);
            lemma_differ_at(id, "quit"@, 0);
            lemma_differ_at(id, "start_all"@, 0);
            lemma_differ_at(id, "stop_all"@, 0);
            lemma_differ_at(id, "restart_all"@, 0);
            lemma_differ_at(id, "restart_terminals"@, 0);
            lemma_differ_at(id, "open_config"@, 0);
            lemma_differ_at(id, "autostart"@, 0);
            lemma_differ_at(id, "reload_config"@, 0);
            lemma_differ_at(id, "refresh_status"@, 0);
            lemma_no_prefix_at(id, "start_"@, 0);
            lemma_no_prefix_at(id, "stop_"@, 0);
            lemma_no_prefix_at(id, "restart_"@, 0);
            lemma_no_prefix_at(id, "mode_terminal_"@, 0);
            lemma_no_prefix_at(id, "mode_logfile_"@, 0);
            lemma_no_prefix_at(id, "mode_hidden_"@, 0);
            lemma_no_prefix_at(id, "grp_start_"@, 6);
        },
        MenuCommand::RestartGroup(i) => {
            let id = "grp_restart_"@ + decimal(i as nat);
            lemma_numbered_id("grp_restart_"@, i);
            lemma_differ_at(id, "quit"@, 0);
            lemma_differ_at(id, "start_all"@, 0);
            lemma_differ_at(id, "stop_all"@, 0);
            lemma_differ_at(id, "restart_all"@, 0);
            lemma_differ_at(id, "restart_terminals"@, 0);
            lemma_differ_at(id, "open_config"@, 0);
            lemma_differ_at(id, "autostart"@, 0);
            lemma_differ_at(id, "reload_config"@, 0);
            lemma_differ_at(id, "refresh_status"@, 0);
            lemma_no_prefix_at(id, "start_"@, 0);
            lemma_no_prefix_at(id, "stop_"@, 0);
            lemma_no_prefix_at(id, "restart_"@, 0);
            lemma_no_prefix_at(id, "mode_terminal_"@, 0);
            lemma_no_prefix_at(id, "mode_logfile_"@, 0);
            lemma_no_prefix_at(id, "mode_hidden_"@, 0);
            lemma_no_prefix_at(id, "grp_start_"@, 4);
            lemma_no_prefix_at(id, "grp_stop_"@, 4);
        },
        MenuCommand::ViewLog(i) => {
            let id = "viewlog_"@ + decimal(i as nat);
            lemma_numbered_id("viewlog_"@, i);
            lemma_differ_at(id, "quit"@, 0);
            lemma_differ_at(id, "start_all"@, 0);
            lemma_differ_at(id, "stop_all"@, 0);
            lemma_differ_at(id, "restart_all"@, 0);
            lemma_differ_at(id, "restart_terminals"@, 0);
            lemma_differ_at(id, "open_config"@, 0);
            lemma_differ_at(id, "autostart"@, 0);
            lemma_differ_at(id, "reload_config"@, 0);
            lemma_differ_at(id, "refresh_status"@, 0);
            lemma_no_prefix_at(id, "start_"@, 0);
            lemma_no_prefix_at(id, "stop_"@, 0);
            lemma_no_prefix_at(id, "restart_"@, 0);
            lemma_no_prefix_at(id, "mode_terminal_"@, 0);
            lemma_no_prefix_at(id, "mode_logfile_"@, 0);
            lemma_no_prefix_at(id, "mode_hidden_"@, 0);
            lemma_no_prefix_at(id, "grp_start_"@, 0);
            lemma_no_prefix_at(id, "grp_stop_"@, 0);
            lemma_no_prefix_at(id, "grp_restart_"@, 0);
        },
    }
}

/// The rest of `s` after `prefix`, if `s` begins with it.
fn strip_prefix_chars(s: &Vec<char>, prefix: &str) -> (rest: Option<Vec<char>>)
    ensures
        match rest {
            Some(r) => has_prefix(s@, prefix@) && r@ == s@.skip(prefix@.len() as int),
            None => !has_prefix(s@, prefix@),
        },
{
    let p = text_chars(prefix);
    if p.len() > s.len() {
        return None;
    }
    let mut k: usize = 0;
    while k < p.len()
        invariant
            p@ == prefix@,
            p@.len() <= s@.len(),
            k <= p@.len(),
            forall|x: int| 0 <= x < k ==> s@[x] == p@[x],
        decreases p@.len() - k,
    {
        if s[k] != p[k] {
            assert(s@.take(p@.len() as int)[k as int] != p@[k as int]);
            return None;
        }
        k = k + 1;
    }
    assert(s@.take(p@.len() as int) =~= p@);
    let mut rest: Vec<char> = Vec::new();
    let mut i: usize = p.len();
    while i < s.len()
        invariant
            p@.len() <= i <= s@.len(),
            rest@ == s@.subrange(p@.len() as int, i as int),
        decreases s@.len() - i,
    {
        rest.push(s[i]);
        assert(s@.subrange(p@.len() as int, i + 1) =~= s@.subrange(p@.len() as int, i as int).push(s@[i as int]));
        i = i + 1;
    }
    assert(rest@ =~= s@.skip(prefix@.len() as int));
    Some(rest)
}

fn number_after(s: &Vec<char>, prefix: &str) -> (r: Option<Option<usize>>)
    ensures
        match r {
            Some(n) => has_prefix(s@, prefix@) && n == numbered(s@, prefix@),
            None => !has_prefix(s@, prefix@),
        },
{
    match strip_prefix_chars(s, prefix) {
        Some(rest) => {
            let max: u64 = usize::MAX as u64;
            match parse_unsigned_chars(&rest, max) {
                Some(n) => Some(Some(n as usize)),
                None => Some(None),
            }
        },
        None => None,
    }
}

/// The command a clicked menu item id stands for, as [`menu_command`]
/// describes; `None` for an id that asks for nothing.
pub fn parse_menu_id(id: &str) -> (cmd: Option<MenuCommand>)
    ensures
        cmd == menu_command(id@),
{
    if same_text(id, "quit") {
        return Some(MenuCommand::Quit);
    } else if same_text(id, "start_all") {
        return Some(MenuCommand::StartAll);
    } else if same_text(id, "stop_all") {
        return Some(MenuCommand::StopAll);
    } else if same_text(id, "restart_all") {
        return Some(MenuCommand::RestartAll);
    } else if same_text(id, "restart_terminals") {
        return Some(MenuCommand::RestartTerminals);
    } else if same_text(id, "open_config") {
        return Some(MenuCommand::OpenConfig);
    } else if same_text(id, "autostart") {
        return Some(MenuCommand::ToggleAutostart);
    } else if same_text(id, "reload_config") {
        return Some(MenuCommand::ReloadConfig);
    } else if same_text(id, "refresh_status") {
        return Some(MenuCommand::RefreshStatus);
    }
    let s = text_chars(id);
    if let Some(n) = number_after(&s, "start_") {
        return match n {
            Some(i) => Some(MenuCommand::Start(i)),
            None => None,
        };
    }
    if let Some(n) = number_after(&s, "stop_") {
        return match n {
            Some(i) => Some(MenuCommand::Stop(i)),
            None => None,
        };
    }
    if let Some(n) = number_after(&s, "restart_") {
        return match n {
            Some(i) => Some(MenuCommand::Restart(i)),
            None => None,
        };
    }
    if let Some(n) = number_after(&s, "mode_terminal_") {
        return match n {
            Some(i) => Some(MenuCommand::SetMode(i, OutputMode::Terminal)),
            None => None,
        };
    }
    if let Some(n) = number_after(&s, "mode_logfile_") {
        return match n {
            Some(i) => Some(MenuCommand::SetMode(i, OutputMode::Logfile)),
            None => None,
        };
    }
    if let Some(n) = number_after(&s, "mode_hidden_") {
        return match n {
            Some(i) => Some(MenuCommand::SetMode(i, OutputMode::Hidden)),
            None => None,
        };
    }
    if let Some(n) = number_after(&s, "grp_start_") {
        return match n {
            Some(i) => Some(MenuCommand::StartGroup(i)),
            None => None,
        };
    }
    if let Some(n) = number_after(&s, "grp_stop_") {
        return match n {
            Some(i) => Some(MenuCommand::StopGroup(i)),
            None => None,
        };
    }
    if let Some(n) = number_after(&s, "grp_restart_") {
        return match n {
            Some(i) => Some(MenuCommand::RestartGroup(i)),
            None => None,
        };
    }
    if let Some(n) = number_after(&s, "viewlog_") {
        return match n {
            Some(i) => Some(MenuCommand::ViewLog(i)),
            None => None,
        };
    }
    None
}

fn numbered_id(prefix: &str, n: usize) -> (id: String)
    ensures
        id@ == prefix@ + decimal(n as nat),
{
    let mut id = String::new();
    id.append(prefix);
    push_decimal(&mut id, n as u64);
    id
}

/// The id of the menu item for a command.
pub fn menu_id(cmd: MenuCommand) -> (id: String)
    ensures
        id@ == menu_id_text(cmd),
{
    match cmd {
        MenuCommand::Quit => String::from_str("quit"),
        MenuCommand::StartAll => String::from_str("start_all"),
        MenuCommand::StopAll => String::from_str("stop_all"),
        MenuCommand::RestartAll => String::from_str("restart_all"),
        MenuCommand::RestartTerminals => String::from_str("restart_terminals"),
        MenuCommand::ReloadConfig => String::from_str("reload_config"),
        MenuCommand::OpenConfig => String::from_str("open_config"),
        MenuCommand::ToggleAutostart => String::from_str("autostart"),
        MenuCommand::RefreshStatus => String::from_str("refresh_status"),
        MenuCommand::Start(i) => numbered_id("start_", i),
        MenuCommand::Stop(i) => numbered_id("stop_", i),
        MenuCommand::Restart(i) => numbered_id("restart_", i),
        MenuCommand::SetMode(i, OutputMode::Terminal) => numbered_id("mode_terminal_", i),
        MenuCommand::SetMode(i, OutputMode::Logfile) => numbered_id("mode_logfile_", i),
        MenuCommand::SetMode(i, OutputMode::Hidden) => numbered_id("mode_hidden_", i),
        MenuCommand::ViewLog(i) => numbered_id("viewlog_", i),
        MenuCommand::StartGroup(i) => numbered_id("grp_start_", i),
        MenuCommand::StopGroup(i) => numbered_id("grp_stop_", i),
        MenuCommand::RestartGroup(i) => numbered_id("grp_restart_", i),
    }
}

} // verus!

verus! {

/// The status shown after a server's name.
pub open spec fn status_text(state: RunState) -> Seq<char> {
    match state {
        RunState::Running => " [running]"@,
        RunState::External { .. } => " [external]"@,
        RunState::Stopped => " [stopped]"@,
    }
}

/// The label of a server's submenu: its name and status.
pub fn server_label(name: &str, state: RunState) -> (label: String)
    ensures
        label@ == name@ + status_text(state),
{
    let mut label = String::from_str(name);
    match state {
        RunState::Running => label.append(" [running]"),
        RunState::External { .. } => label.append(" [external]"),
        RunState::Stopped => label.append(" [stopped]"),
    }
    label
}

/// Which of a server's Start, Stop and Restart items can be clicked.
#[derive(Debug, Clone, Copy, PartialEq, Eq, Structural)]
pub struct ServerItems {
    pub start: bool,
    pub stop: bool,
    pub restart: bool,
}

/// Start can be clicked unless the manager runs the server; Stop and
/// Restart when the server runs, here or externally.
pub fn server_items(state: RunState) -> (items: ServerItems)
    ensures
        items.start == !(state is Running),
        items.stop == !(state is Stopped),
        items.restart == !(state is Stopped),
{
    match state {
        RunState::Running => ServerItems { start: false, stop: true, restart: true },
        RunState::External { .. } => ServerItems { start: true, stop: true, restart: true },
        RunState::Stopped => ServerItems { start: true, stop: false, restart: false },
    }
}

/// The name of an output mode in the Mode submenu.
pub open spec fn mode_name(mode: OutputMode) -> Seq<char> {
    match mode {
        OutputMode::Terminal => "Terminal"@,
        OutputMode::Logfile => "Logfile"@,
        OutputMode::Hidden => "Hidden"@,
    }
}

/// The label of a Mode submenu item: the mode's name, marked with ` *`
/// when it is the server's current mode; that item cannot be clicked.
pub fn mode_item(mode: OutputMode, current: OutputMode) -> (item: (String, bool))
    ensures
        item.0@ == mode_name(mode) + (if mode == current {
            " *"@
        } else {
            ""@
        }),
        item.1 == (mode != current),
{
    let mut label = match mode {
        OutputMode::Terminal => String::from_str("Terminal"),
        OutputMode::Logfile => String::from_str("Logfile"),
        OutputMode::Hidden => String::from_str("Hidden"),
    };
    if mode == current {
        label.append(" *");
    } else {
        proof {
            reveal_strlit("");
        }
        assert(label@ =~= label@ + ""@);
    }
    (label, mode != current)
}

/// Whether a server's submenu offers View Log: only in logfile mode.
pub fn shows_view_log(mode: OutputMode) -> (shown: bool)
    ensures
        shown == (mode == OutputMode::Logfile),
{
    mode == OutputMode::Logfile
}

/// The label of a group's submenu: `<name> [<running>/<total>]`.
pub fn group_label(name: &str, running: usize, total: usize) -> (label: String)
    ensures
        label@ == name@ + " ["@ + decimal(running as nat) + "/"@ + decimal(total as nat) + "]"@,
{
    let mut label = String::from_str(name);
    label.append(" [");
    push_decimal(&mut label, running as u64);
    label.append("/");
    push_decimal(&mut label, total as u64);
    label.append("]");
    label
}

} // verus!

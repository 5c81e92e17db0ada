use server_start::config::{OutputMode, ServerConfig};
use server_start::launch::{launch_command, Console};

fn server(name: &str) -> ServerConfig {
    ServerConfig {
        name: name.to_string(),
        dir: "C:/dev/app".to_string(),
        cmd: "npm run dev".to_string(),
        env: vec![("NODE_ENV".to_string(), "development".to_string())],
        output: None,
        port: None,
    }
}

#[test]
fn terminal_mode_opens_titled_powershell() {
    let c = launch_command(&server("Bob's App"), OutputMode::Terminal);
    assert_eq!(c.program, "powershell");
    assert_eq!(
        c.args,
        vec!["-NoExit".to_string(), "-Command".to_string(), "$Host.UI.RawUI.WindowTitle = 'Bob''s App'; npm run dev".to_string()]
    );
    assert_eq!(c.console, Console::NewWindow);
}

#[test]
fn logfile_and_hidden_run_through_cmd() {
    let c = launch_command(&server("web"), OutputMode::Logfile);
    assert_eq!(c.program, "cmd");
    assert_eq!(c.args, vec!["/c".to_string(), "npm run dev".to_string()]);
    assert_eq!(c.console, Console::LogFile);
    let c = launch_command(&server("web"), OutputMode::Hidden);
    assert_eq!(c.program, "cmd");
    assert_eq!(c.console, Console::Discarded);
}

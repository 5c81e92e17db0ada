use server_start::config::{env_eq, Config, GroupConfig, OutputMode, ServerConfig};
use server_start::config::{app_dir_in, config_path_in, log_path_in, logs_dir_in, warn_unmatched_group_servers};

fn server(name: &str, port: Option<u16>) -> ServerConfig {
    ServerConfig {
        name: name.to_string(),
        dir: "C:/x".to_string(),
        cmd: "npm run dev".to_string(),
        env: Vec::new(),
        output: None,
        port,
    }
}

fn pairs(items: &[(&str, &str)]) -> Vec<(String, String)> {
    items.iter().map(|(k, v)| (k.to_string(), v.to_string())).collect()
}

#[test]
fn spawn_fields_eq_ignores_port() {
    let a = server("web", Some(5173));
    let b = server("web", Some(8080));
    assert!(a.spawn_fields_eq(&b));
    assert_ne!(a, b);
}

#[test]
fn equal_configs_compare_equal() {
    let a = server("web", Some(5173));
    let b = server("web", Some(5173));
    assert_eq!(a, b);
}

#[test]
fn spawn_fields_eq_sees_each_spawn_field() {
    let base = server("web", None);
    let mut other = server("api", None);
    assert!(!base.spawn_fields_eq(&other));
    other = server("web", None);
    other.dir = "C:/y".to_string();
    assert!(!base.spawn_fields_eq(&other));
    other = server("web", None);
    other.cmd = "cargo run".to_string();
    assert!(!base.spawn_fields_eq(&other));
    other = server("web", None);
    other.output = Some(OutputMode::Logfile);
    assert!(!base.spawn_fields_eq(&other));
    other = server("web", None);
    other.env = pairs(&[("RUST_LOG", "debug")]);
    assert!(!base.spawn_fields_eq(&other));
}

#[test]
fn env_comparison_ignores_order() {
    let a = pairs(&[("A", "1"), ("B", "2")]);
    let b = pairs(&[("B", "2"), ("A", "1")]);
    assert!(env_eq(&a, &b));
}

#[test]
fn env_comparison_sees_values_and_names() {
    assert!(!env_eq(&pairs(&[("A", "1")]), &pairs(&[("A", "2")])));
    assert!(!env_eq(&pairs(&[("A", "1")]), &pairs(&[("A", "1"), ("B", "1")])));
    assert!(!env_eq(&pairs(&[("A", "1"), ("B", "1")]), &pairs(&[("A", "1")])));
    assert!(env_eq(&pairs(&[]), &pairs(&[])));
}

#[test]
fn env_last_value_wins() {
    let a = pairs(&[("A", "1"), ("A", "2")]);
    assert!(env_eq(&a, &pairs(&[("A", "2")])));
    assert!(!env_eq(&a, &pairs(&[("A", "1")])));
}

#[test]
fn effective_output_prefers_override() {
    let mut s = server("web", None);
    assert_eq!(*s.effective_output(&OutputMode::Hidden), OutputMode::Hidden);
    s.output = Some(OutputMode::Logfile);
    assert_eq!(*s.effective_output(&OutputMode::Hidden), OutputMode::Logfile);
}

#[test]
fn default_output_is_terminal() {
    assert_eq!(OutputMode::default(), OutputMode::Terminal);
    let c = Config::empty();
    assert_eq!(c.output, OutputMode::Terminal);
    assert!(c.server.is_empty());
    assert!(c.group.is_empty());
}

#[test]
fn log_path_sanitizes_name() {
    let p = Config::log_path("Backend API");
    assert!(p.ends_with("Backend_API.log"));
    let sep_pos = p.len() - "Backend_API.log".len() - 1;
    let sep = p.as_bytes()[sep_pos];
    assert!(sep == b'/' || sep == b'\\');
    assert!(p[..sep_pos].ends_with("logs"));
}

#[test]
fn log_path_keeps_letters_digits_dash_underscore() {
    assert!(Config::log_path("a-b_c9").ends_with("a-b_c9.log"));
    assert!(Config::log_path("x/y:z.w").ends_with("x_y_z_w.log"));
    assert!(Config::log_path("café").ends_with("café.log"));
}

#[test]
fn config_paths_end_with_app_dir() {
    let dir = Config::config_dir();
    assert!(dir.ends_with("server-start"));
    let path = Config::config_path();
    assert!(path.starts_with(&dir));
    assert!(path.ends_with("config.toml"));
    assert_eq!(path.len(), dir.len() + 1 + "config.toml".len());
    let logs = Config::logs_dir();
    assert!(logs.starts_with(&dir));
    assert!(logs.ends_with("logs"));
}

fn group(name: &str, servers: &[&str]) -> GroupConfig {
    GroupConfig { name: name.to_string(), servers: servers.iter().map(|s| s.to_string()).collect() }
}

#[test]
fn group_warning_lists_unknown_servers() {
    let servers = vec![server("Reader Frontend", None), server("Reader Backend", None)];
    let groups = vec![
        group("Reader", &["Reader Frontend", "Reader Backend"]),
        group("Auth Stack", &["Auth API", "Reader Backend", "Redis"]),
        group("Empty", &["Nope"]),
    ];
    let w = warn_unmatched_group_servers(&groups, &servers).unwrap();
    assert_eq!(
        w,
        "Group \"Auth Stack\" references unknown servers: Auth API, Redis\n\nGroup \"Empty\" references unknown servers: Nope"
    );
}

#[test]
fn no_group_warning_when_all_match() {
    let servers = vec![server("a", None), server("b", None)];
    let groups = vec![group("g", &["a", "b"]), group("h", &[])];
    assert_eq!(warn_unmatched_group_servers(&groups, &servers), None);
    assert_eq!(warn_unmatched_group_servers(&[], &servers), None);
}

#[test]
fn paths_under_a_given_config_dir() {
    let base = Some("C:\\Users\\me\\AppData\\Roaming".to_string());
    assert_eq!(app_dir_in(base.clone(), '\\'), "C:\\Users\\me\\AppData\\Roaming\\server-start");
    assert_eq!(config_path_in(base.clone(), '\\'), "C:\\Users\\me\\AppData\\Roaming\\server-start\\config.toml");
    assert_eq!(logs_dir_in(base.clone(), '\\'), "C:\\Users\\me\\AppData\\Roaming\\server-start\\logs");
    assert_eq!(
        log_path_in(base, '\\', "Backend API"),
        "C:\\Users\\me\\AppData\\Roaming\\server-start\\logs\\Backend_API.log"
    );
}

#[test]
fn paths_without_a_config_dir_use_current_dir() {
    assert_eq!(app_dir_in(None, '/'), "./server-start");
    assert_eq!(config_path_in(None, '/'), "./server-start/config.toml");
    assert_eq!(logs_dir_in(None, '/'), "./server-start/logs");
    assert_eq!(log_path_in(None, '/', "x/y"), "./server-start/logs/x_y.log");
}

#[test]
fn base_ending_in_separator_gets_no_second_one() {
    assert_eq!(app_dir_in(Some("/home/me/.config/".to_string()), '/'), "/home/me/.config/server-start");
    assert_eq!(app_dir_in(Some(String::new()), '/'), "server-start");
}

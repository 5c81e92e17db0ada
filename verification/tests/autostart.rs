use server_start::autostart::run_key_value;

#[test]
fn quotes_executable_path() {
    assert_eq!(
        run_key_value("C:\\Program Files\\server-start.exe"),
        Ok("\"C:\\Program Files\\server-start.exe\"".to_string())
    );
}

#[test]
fn rejects_path_with_quote() {
    assert_eq!(
        run_key_value("C:\\bad\"dir\\x.exe"),
        Err("Executable path contains a double-quote character and cannot be safely registered: C:\\bad\"dir\\x.exe"
            .to_string())
    );
}

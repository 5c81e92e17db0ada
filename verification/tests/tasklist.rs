use server_start::tasklist::pids_to_kill;

#[test]
fn finds_pids_except_own() {
    let listing = "\"powershell.exe\",\"1234\",\"Console\",\"1\",\"80,000 K\"\r\n\"powershell.exe\",\"99\",\"Console\",\"1\",\"70,000 K\"\r\n\"powershell.exe\",\"5678\",\"Console\",\"1\",\"60,000 K\"\r\n";
    assert_eq!(pids_to_kill(listing, "powershell.exe", 99), vec![1234, 5678]);
}

#[test]
fn skips_other_lines() {
    let listing = "INFO: No tasks are running which match the specified criteria.\r\n";
    assert_eq!(pids_to_kill(listing, "pwsh.exe", 1), Vec::<u32>::new());
    let listing = "\"pwsh.exe\"\n\"pwsh.exe\",\"x12\"\n\"pwsh.exe\",\"+15\"\n\"other.exe\",\"7\"";
    assert_eq!(pids_to_kill(listing, "pwsh.exe", 1), vec![15]);
}

#[test]
fn rejects_out_of_range_pid() {
    let listing = "\"a.exe\",\"4294967296\"\n\"a.exe\",\"4294967295\"";
    assert_eq!(pids_to_kill(listing, "a.exe", 1), vec![4294967295]);
}

#[test]
fn empty_listing_gives_nothing() {
    assert_eq!(pids_to_kill("", "a.exe", 1), Vec::<u32>::new());
}

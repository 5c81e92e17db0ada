//! "Start with Windows": the value written under the per-user Run key.
//!
//! The registry itself is read and written by the application; this module
//! decides what is written.
use vstd::prelude::*;

verus! {

/// The Run-key value for an executable path: the path in double quotes, so
/// that spaces in any parent directory survive.
pub open spec fn quoted_command(exe_path: Seq<char>) -> Seq<char> {
    "\""@ + exe_path + "\""@
}

/// The error for a path that cannot be quoted safely.
pub open spec fn unquotable_message(exe_path: Seq<char>) -> Seq<char> {
    "Executable path contains a double-quote character and cannot be safely registered: "@ + exe_path
}

/// The value to register for the executable at `exe_path`. NTFS rejects `"`
/// in path components, so a path holding one is refused: it would break
/// `CreateProcess` parsing of the Run-key value silently.
pub fn run_key_value(exe_path: &str) -> (value: Result<String, String>)
    ensures
        match value {
            Ok(v) => !exe_path@.contains('"') && v@ == quoted_command(exe_path@),
            Err(e) => exe_path@.contains('"') && e@ == unquotable_message(exe_path@),
        },
{
    let n = exe_path.unicode_len();
    let mut i: usize = 0;
    while i < n
        invariant
            n == exe_path@.len(),
            i <= n,
            forall|k: int| 0 <= k < i ==> exe_path@[k] != '"',
        decreases n - i,
    {
        if exe_path.get_char(i) == '"' {
            let mut e = String::from_str("Executable path contains a double-quote character and cannot be safely registered: ");
            e.append(exe_path);
            return Err(e);
        }
        i = i + 1;
    }
    let mut v = String::from_str("\"");
    v.append(exe_path);
    v.append("\"");
    Ok(v)
}

} // verus!

//! How a server's command is launched in each output mode.
use vstd::prelude::*;

use crate::config::{OutputMode, ServerConfig};
use crate::text::push_char;

verus! {

/// Where a launched server's console output goes.
#[derive(Debug, Clone, Copy, PartialEq, Eq, Structural)]
pub enum Console {
    /// A new console window of its own.
    NewWindow,
    /// No window; output written to the server's log file.
    LogFile,
    /// No window; output discarded.
    Discarded,
}

/// The program, arguments and console of a server's process.
pub struct LaunchCommand {
    pub program: String,
    pub args: Vec<String>,
    pub console: Console,
}

/// `s` with every `'` doubled, as a PowerShell single-quoted string needs.
pub open spec fn ps_quote_escaped(s: Seq<char>) -> Seq<char>
    decreases s.len(),
{
    if s.len() == 0 {
        Seq::empty()
    } else if s.last() == '\'' {
        ps_quote_escaped(s.drop_last()) + seq!['\'', '\'']
    } else {
        ps_quote_escaped(s.drop_last()).push(s.last())
    }
}

/// The PowerShell command of a terminal-mode server: set the window title
/// to the server's name, then run its command.
pub open spec fn terminal_script(name: Seq<char>, cmd: Seq<char>) -> Seq<char> {
    "$Host.UI.RawUI.WindowTitle = '"@ + ps_quote_escaped(name) + "'; "@ + cmd
}

/// How a server is launched: in terminal mode, a PowerShell window (kept
/// open) titled with the server's name runs the command; in logfile and
/// hidden mode, `cmd /c` runs it without a window, its output going to the
/// log file or nowhere.
pub open spec fn launch_spec(config: ServerConfig, mode: OutputMode) -> (Seq<char>, Seq<Seq<char>>, Console) {
    match mode {
        OutputMode::Terminal => (
            "powershell"@,
            seq!["-NoExit"@, "-Command"@, terminal_script(config.name@, config.cmd@)],
            Console::NewWindow,
        ),
        OutputMode::Logfile => ("cmd"@, seq!["/c"@, config.cmd@], Console::LogFile),
        OutputMode::Hidden => ("cmd"@, seq!["/c"@, config.cmd@], Console::Discarded),
    }
}

/// Every mode runs the server's own command, unchanged: in logfile and
/// hidden mode `cmd` gets exactly `/c` and the command; in terminal mode
/// `powershell` gets a script that ends with the command. The console goes
/// with the mode: a window of its own, the log file, or nowhere.
pub proof fn lemma_launch_runs_the_command(config: ServerConfig, mode: OutputMode)
    ensures
        ({
            let (program, args, console) = launch_spec(config, mode);
            &&& mode != OutputMode::Terminal ==> program == "cmd"@ && args == seq!["/c"@, config.cmd@]
            &&& mode == OutputMode::Terminal ==> program == "powershell"@ && args.len() == 3
                && args[2].len() >= config.cmd@.len() && args[2].subrange(
                args[2].len() - config.cmd@.len(),
                args[2].len() as int,
            ) == config.cmd@
            &&& console == match mode {
                OutputMode::Terminal => Console::NewWindow,
                OutputMode::Logfile => Console::LogFile,
                OutputMode::Hidden => Console::Discarded,
            }
        }),
{
    if mode == OutputMode::Terminal {
        let script = terminal_script(config.name@, config.cmd@);
        let head = "$Host.UI.RawUI.WindowTitle = '"@ + ps_quote_escaped(config.name@) + "'; "@;
        assert(script == head + config.cmd@);
        assert(script.subrange(head.len() as int, script.len() as int) =~= config.cmd@);
    }
}

/// Escaping works character by character: the escape of a concatenation is
/// the concatenation of the escapes, a single quote becomes two quotes, and
/// every other character stays as it is; so a text without quotes is left
/// unchanged.
pub proof fn lemma_quote_escape_by_character(a: Seq<char>, b: Seq<char>, c: char)
    ensures
        ps_quote_escaped(a + b) == ps_quote_escaped(a) + ps_quote_escaped(b),
        ps_quote_escaped(seq![c]) == if c == '\'' {
            seq!['\'', '\'']
        } else {
            seq![c]
        },
        (forall|k: int| 0 <= k < a.len() ==> a[k] != '\'') ==> ps_quote_escaped(a) == a,
    decreases b.len(),
{
    assert(seq![c].drop_last() =~= Seq::<char>::empty());
    assert(seq![c].last() == c);
    assert(ps_quote_escaped(Seq::<char>::empty()) == Seq::<char>::empty());
    assert(Seq::<char>::empty() + seq!['\'', '\''] =~= seq!['\'', '\'']);
    assert(Seq::<char>::empty().push(c) =~= seq![c]);
    if b.len() > 0 {
        lemma_quote_escape_by_character(a, b.drop_last(), c);
        assert((a + b).drop_last() =~= a + b.drop_last());
        assert((a + b).last() == b.last());
    } else {
        assert(a + b =~= a);
    }
    lemma_quote_free_unchanged(a);
}

proof fn lemma_quote_free_unchanged(a: Seq<char>)
    ensures
        (forall|k: int| 0 <= k < a.len() ==> a[k] != '\'') ==> ps_quote_escaped(a) == a,
    decreases a.len(),
{
    if a.len() > 0 {
        lemma_quote_free_unchanged(a.drop_last());
        if forall|k: int| 0 <= k < a.len() ==> a[k] != '\'' {
            assert(a.last() == a[a.len() - 1]);
            assert(a.drop_last().push(a.last()) =~= a);
        }
    }
}

fn escape_single_quotes(s: &str) -> (e: String)
    ensures
        e@ == ps_quote_escaped(s@),
{
    let mut e = String::new();
    let n = s.unicode_len();
    let mut i: usize = 0;
    while i < n
        invariant
            n == s@.len(),
            i <= n,
            e@ == ps_quote_escaped(s@.take(i as int)),
        decreases n - i,
    {
        let c = s.get_char(i);
        assert(s@.take(i + 1).drop_last() =~= s@.take(i as int));
        assert(s@.take(i + 1).last() == c);
        if c == '\'' {
            push_char(&mut e, '\'');
            push_char(&mut e, '\'');
            assert(e@ =~= ps_quote_escaped(s@.take(i as int)) + seq!['\'', '\'']);
        } else {
            push_char(&mut e, c);
        }
        i = i + 1;
    }
    assert(s@.take(n as int) =~= s@);
    e
}

/// The command that launches `config` in output mode `mode`, as
/// [`launch_spec`] describes. The server's environment variables and
/// working directory come with it from `config`.
pub fn launch_command(config: &ServerConfig, mode: OutputMode) -> (c: LaunchCommand)
    ensures
        c.program@ == launch_spec(*config, mode).0,
        c.args@.map_values(|a: String| a@) == launch_spec(*config, mode).1,
        c.console == launch_spec(*config, mode).2,
        mode != OutputMode::Terminal ==> c.program@ == "cmd"@ && c.args@.len() == 2 && c.args@[0]@ == "/c"@
            && c.args@[1]@ == config.cmd@,
        mode == OutputMode::Terminal ==> c.program@ == "powershell"@ && c.args@.len() == 3 && c.args@[2]@.len()
            >= config.cmd@.len() && c.args@[2]@.subrange(
            c.args@[2]@.len() - config.cmd@.len(),
            c.args@[2]@.len() as int,
        ) == config.cmd@,
{
    match mode {
        OutputMode::Terminal => {
            let mut script = String::from_str("$Host.UI.RawUI.WindowTitle = '");
            let title = escape_single_quotes(config.name.as_str());
            script.append(title.as_str());
            script.append("'; ");
            script.append(config.cmd.as_str());
            let mut args: Vec<String> = Vec::new();
            args.push(String::from_str("-NoExit"));
            args.push(String::from_str("-Command"));
            args.push(script);
            let c = LaunchCommand { program: String::from_str("powershell"), args, console: Console::NewWindow };
            assert(c.args@.map_values(|a: String| a@) =~= launch_spec(*config, mode).1);
            c
        },
        _ => {
            let mut args: Vec<String> = Vec::new();
            args.push(String::from_str("/c"));
            args.push(config.cmd.clone());
            let console = if mode == OutputMode::Logfile {
                Console::LogFile
            } else {
                Console::Discarded
            };
            let c = LaunchCommand { program: String::from_str("cmd"), args, console };
            assert(c.args@.map_values(|a: String| a@) =~= launch_spec(*config, mode).1);
            c
        },
    }
}

} // verus!

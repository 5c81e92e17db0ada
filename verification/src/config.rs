//! Server configuration: output modes, servers, groups and file locations.
use vstd::prelude::*;

use crate::text::{ascii_alphanumeric, is_alphanumeric, push_char, unicode_alphanumeric};

verus! {

/// How a server's output is displayed.
#[derive(Debug, Clone, Copy, PartialEq, Eq, Structural)]
pub enum OutputMode {
    /// PowerShell window per server with named title and visible logs
    Terminal,
    /// Hidden process, stdout/stderr redirected to a log file
    Logfile,
    /// Hidden process, no output captured
    Hidden,
}

impl Default for OutputMode {
    fn default() -> (m: OutputMode)
        ensures
            m == OutputMode::Terminal,
    {
        OutputMode::Terminal
    }
}

} // verus!

verus! {

/// The environment variables of a server as (name, value) pairs of views.
pub open spec fn env_pairs(env: Seq<(String, String)>) -> Seq<(Seq<char>, Seq<char>)> {
    env.map_values(|p: (String, String)| (p.0@, p.1@))
}

/// The variables the pairs set; a name given twice takes its last value.
pub open spec fn env_map(pairs: Seq<(Seq<char>, Seq<char>)>) -> Map<Seq<char>, Seq<char>>
    decreases pairs.len(),
{
    if pairs.len() == 0 {
        Map::empty()
    } else {
        env_map(pairs.drop_last()).insert(pairs.last().0, pairs.last().1)
    }
}

/// Whether some pair sets `name`.
pub open spec fn pairs_name(pairs: Seq<(Seq<char>, Seq<char>)>, name: Seq<char>) -> bool {
    exists|i: int| 0 <= i < pairs.len() && #[trigger] pairs[i].0 == name
}

/// A name is set exactly when some pair names it.
pub proof fn lemma_env_map_domain(pairs: Seq<(Seq<char>, Seq<char>)>, name: Seq<char>)
    ensures
        env_map(pairs).contains_key(name) <==> pairs_name(pairs, name),
    decreases pairs.len(),
{
    if pairs.len() > 0 {
        let prefix = pairs.drop_last();
        lemma_env_map_domain(prefix, name);
        if pairs_name(prefix, name) {
            let k = choose|k: int| 0 <= k < prefix.len() && #[trigger] prefix[k].0 == name;
            assert(pairs[k].0 == name);
        }
        if pairs_name(pairs, name) && pairs.last().0 != name {
            let k = choose|k: int| 0 <= k < pairs.len() && #[trigger] pairs[k].0 == name;
            assert(prefix[k].0 == name);
        }
    }
}

/// A name takes the value of the last pair that names it.
pub proof fn lemma_env_map_last_wins(pairs: Seq<(Seq<char>, Seq<char>)>, i: int)
    requires
        0 <= i < pairs.len(),
        forall|j: int| i < j < pairs.len() ==> pairs[j].0 != pairs[i].0,
    ensures
        env_map(pairs).contains_key(pairs[i].0),
        env_map(pairs)[pairs[i].0] == pairs[i].1,
    decreases pairs.len(),
{
    if i < pairs.len() - 1 {
        let prefix = pairs.drop_last();
        assert(prefix[i] == pairs[i]);
        assert forall|j: int| i < j < prefix.len() implies prefix[j].0 != prefix[i].0 by {
            assert(prefix[j] == pairs[j]);
        }
        lemma_env_map_last_wins(prefix, i);
    }
}

/// Index of the last pair that sets `name`.
fn env_last_index(env: &Vec<(String, String)>, name: &String) -> (r: Option<usize>)
    ensures
        match r {
            Some(i) => i < env@.len() && env@[i as int].0@ == name@ && forall|j: int|
                i < j < env@.len() ==> env@[j].0@ != name@,
            None => forall|j: int| 0 <= j < env@.len() ==> env@[j].0@ != name@,
        },
{
    let mut i = env.len();
    while i > 0
        invariant
            i <= env@.len(),
            forall|j: int| i <= j < env@.len() ==> env@[j].0@ != name@,
        decreases i,
    {
        i = i - 1;
        if env[i].0 == *name {
            return Some(i);
        }
    }
    None
}

/// The value `env` gives `name`, if any.
proof fn lemma_env_value_at(env: Seq<(String, String)>, name: Seq<char>, i: int)
    requires
        0 <= i < env.len(),
        env[i].0@ == name,
        forall|j: int| i < j < env.len() ==> env[j].0@ != name,
    ensures
        env_map(env_pairs(env)).contains_key(name),
        env_map(env_pairs(env))[name] == env[i].1@,
{
    let pairs = env_pairs(env);
    assert(pairs[i].0 == name);
    assert forall|j: int| i < j < pairs.len() implies pairs[j].0 != pairs[i].0 by {
        assert(pairs[j].0 == env[j].0@);
    }
    lemma_env_map_last_wins(pairs, i);
}

proof fn lemma_env_absent(env: Seq<(String, String)>, name: Seq<char>)
    requires
        forall|j: int| 0 <= j < env.len() ==> env[j].0@ != name,
    ensures
        !env_map(env_pairs(env)).contains_key(name),
{
    let pairs = env_pairs(env);
    lemma_env_map_domain(pairs, name);
    if pairs_name(pairs, name) {
        let k = choose|k: int| 0 <= k < pairs.len() && #[trigger] pairs[k].0 == name;
        assert(pairs[k].0 == env[k].0@);
    }
}

/// Whether two environments set the same variables to the same values.
pub fn env_eq(a: &Vec<(String, String)>, b: &Vec<(String, String)>) -> (r: bool)
    ensures
        r == (env_map(env_pairs(a@)) == env_map(env_pairs(b@))),
{
    let ghost ma = env_map(env_pairs(a@));
    let ghost mb = env_map(env_pairs(b@));
    let mut i: usize = 0;
    while i < a.len()
        invariant
            i <= a@.len(),
            ma == env_map(env_pairs(a@)),
            mb == env_map(env_pairs(b@)),
            forall|k: int|
                #![trigger a@[k]]
                0 <= k < i ==> mb.contains_key(a@[k].0@) && ma.contains_key(a@[k].0@) && mb[a@[k].0@] == ma[a@[k].0@],
        decreases a@.len() - i,
    {
        let name = &a[i].0;
        let ia = env_last_index(a, name);
        let ib = env_last_index(b, name);
        match ia {
            Some(ia) => {
                proof {
                    lemma_env_value_at(a@, name@, ia as int);
                }
                match ib {
                    Some(ib) => {
                        proof {
                            lemma_env_value_at(b@, name@, ib as int);
                        }
                        if a[ia].1 != b[ib].1 {
                            assert(ma[name@] != mb[name@]);
                            return false;
                        }
                    },
                    None => {
                        proof {
                            lemma_env_absent(b@, name@);
                        }
                        assert(!mb.contains_key(name@));
                        return false;
                    },
                }
            },
            None => {
                assert(false);
            },
        }
        i = i + 1;
    }
    let mut j: usize = 0;
    while j < b.len()
        invariant
            j <= b@.len(),
            ma == env_map(env_pairs(a@)),
            mb == env_map(env_pairs(b@)),
            forall|k: int|
                #![trigger b@[k]]
                0 <= k < j ==> ma.contains_key(b@[k].0@),
        decreases b@.len() - j,
    {
        let name = &b[j].0;
        let ia = env_last_index(a, name);
        if ia.is_none() {
            proof {
                lemma_env_absent(a@, name@);
                lemma_env_map_domain(env_pairs(b@), name@);
                assert(env_pairs(b@)[j as int].0 == name@);
                assert(mb.contains_key(name@));
            }
            return false;
        }
        proof {
            let ia = ia->0;
            lemma_env_value_at(a@, name@, ia as int);
        }
        j = j + 1;
    }
    proof {
        assert forall|name: Seq<char>| #[trigger] ma.dom().contains(name) implies mb.dom().contains(name) && mb[name] == ma[name] by {
            lemma_env_map_domain(env_pairs(a@), name);
            let k = choose|k: int| 0 <= k < env_pairs(a@).len() && #[trigger] env_pairs(a@)[k].0 == name;
            assert(a@[k].0@ == name);
        }
        assert forall|name: Seq<char>| #[trigger] mb.dom().contains(name) implies ma.dom().contains(name) by {
            lemma_env_map_domain(env_pairs(b@), name);
            let k = choose|k: int| 0 <= k < env_pairs(b@).len() && #[trigger] env_pairs(b@)[k].0 == name;
            assert(b@[k].0@ == name);
        }
        assert(ma.dom() =~= mb.dom());
        assert forall|name: Seq<char>| #[trigger] ma.dom().contains(name) implies ma[name] == mb[name] by {
            assert(ma.contains_key(name));
        }
        assert(ma =~= mb);
    }
    true
}

} // verus!

verus! {

/// One `[[server]]` block.
#[derive(Debug, Clone)]
pub struct ServerConfig {
    pub name: String,
    pub dir: String,
    pub cmd: String,
    /// Optional: environment variables for this server, as (name, value)
    /// pairs; a name given twice takes its last value
    pub env: Vec<(String, String)>,
    /// Per-server output mode override (uses global default if not set)
    pub output: Option<OutputMode>,
    /// Optional: TCP port the server listens on. Enables detection of
    /// externally-started instances (shown as [external] in the tray).
    pub port: Option<u16>,
}

/// The mathematical content of a [`ServerConfig`].
pub struct ServerConfigView {
    pub name: Seq<char>,
    pub dir: Seq<char>,
    pub cmd: Seq<char>,
    pub env: Map<Seq<char>, Seq<char>>,
    pub output: Option<OutputMode>,
    pub port: Option<u16>,
}

impl View for ServerConfig {
    type V = ServerConfigView;

    open spec fn view(&self) -> ServerConfigView {
        ServerConfigView {
            name: self.name@,
            dir: self.dir@,
            cmd: self.cmd@,
            env: env_map(env_pairs(self.env@)),
            output: self.output,
            port: self.port,
        }
    }
}

/// The output mode a server runs with: its own override, else the global
/// default.
pub open spec fn effective_mode(output: Option<OutputMode>, global: OutputMode) -> OutputMode {
    match output {
        Some(m) => m,
        None => global,
    }
}

/// A server runs with its own output override when it has one, and with
/// the global default otherwise, whatever the default is.
pub proof fn lemma_override_else_global(output: Option<OutputMode>, global: OutputMode)
    ensures
        output is None ==> effective_mode(output, global) == global,
        output matches Some(m) ==> effective_mode(output, global) == m,
{
}

/// Whether two servers agree on everything that affects how their process
/// is spawned: name, directory, command, environment and output override.
pub open spec fn same_spawn_fields(a: ServerConfigView, b: ServerConfigView) -> bool {
    &&& a.name == b.name
    &&& a.dir == b.dir
    &&& a.cmd == b.cmd
    &&& a.env == b.env
    &&& a.output == b.output
}

impl ServerConfig {
    /// Returns the effective output mode, preferring per-server override over global default.
    pub fn effective_output<'a>(&'a self, global: &'a OutputMode) -> (mode: &'a OutputMode)
        ensures
            *mode == effective_mode(self.output, *global),
            self.output is None ==> *mode == *global,
            self.output matches Some(m) ==> *mode == m,
    {
        match &self.output {
            Some(m) => m,
            None => global,
        }
    }

    /// True when the fields that affect process spawning are equal.
    /// `port` is intentionally excluded: it only affects status detection,
    /// so changing it must not restart a running server on config reload.
    pub fn spawn_fields_eq(&self, other: &Self) -> (r: bool)
        ensures
            r == same_spawn_fields(self@, other@),
            r <==> (self.name@ == other.name@ && self.dir@ == other.dir@ && self.cmd@ == other.cmd@ && self@.env
                == other@.env && self.output == other.output),
    {
        self.name == other.name && self.dir == other.dir && self.cmd == other.cmd && env_eq(&self.env, &other.env)
            && self.output == other.output
    }
}

impl PartialEq for ServerConfig {
    fn eq(&self, other: &Self) -> (r: bool) {
        self.spawn_fields_eq(other) && self.port == other.port
    }
}

impl vstd::std_specs::cmp::PartialEqSpecImpl for ServerConfig {
    open spec fn obeys_eq_spec() -> bool {
        true
    }

    open spec fn eq_spec(&self, other: &Self) -> bool {
        self@ == other@
    }
}

/// One `[[group]]` block: named servers started, stopped and restarted
/// together.
#[derive(Debug, Clone)]
pub struct GroupConfig {
    pub name: String,
    /// Server names belonging to this group (must match [[server]] name fields)
    pub servers: Vec<String>,
}

/// The whole configuration file.
#[derive(Debug, Clone)]
pub struct Config {
    /// Global default output mode for all servers
    pub output: OutputMode,
    pub server: Vec<ServerConfig>,
    /// Named groups of servers for bulk start/stop/restart
    pub group: Vec<GroupConfig>,
}

impl Config {
    /// The configuration used when no file exists yet: terminal output, no
    /// servers, no groups.
    pub fn empty() -> (c: Config)
        ensures
            c.output == OutputMode::Terminal,
            c.server@.len() == 0,
            c.group@.len() == 0,
    {
        Config { output: OutputMode::Terminal, server: Vec::new(), group: Vec::new() }
    }
}

} // verus!

verus! {

/// Whether `c` separates path components (on Windows both `\` and `/` do).
pub open spec fn is_separator(c: char) -> bool {
    c == '/' || c == '\\'
}

/// `base` extended by the component `part`: a separator is put between them
/// unless `base` is empty or already ends with one.
pub open spec fn path_join(base: Seq<char>, part: Seq<char>, sep: char) -> Seq<char> {
    if base.len() == 0 || is_separator(base.last()) {
        base + part
    } else {
        base.push(sep) + part
    }
}

/// Trusted: reads `std::path::MAIN_SEPARATOR`, which the documentation
/// gives as `\` on Windows and `/` elsewhere.
#[verifier::external_body]
fn main_separator() -> (sep: char)
    ensures
        is_separator(sep),
{
    std::path::MAIN_SEPARATOR
}

/// Trusted: calls `dirs::config_dir`, which returns the user's configuration
/// directory (`{FOLDERID_RoamingAppData}` on Windows) or `None`; the result
/// depends on the machine and the environment, so nothing is stated of it.
/// The path is converted to a string lossily.
#[verifier::external_body]
fn user_config_dir() -> (dir: Option<String>) {
    dirs::config_dir().map(|p| p.to_string_lossy().into_owned())
}

/// Extends `base` by the component `part`, as [`path_join`] describes.
fn join_path(base: &String, part: &str, sep: char) -> (res: String)
    ensures
        res@ == path_join(base@, part@, sep),
{
    let mut res = base.clone();
    let n = base.unicode_len();
    if n > 0 {
        let last = base.as_str().get_char(n - 1);
        if last != '/' && last != '\\' {
            push_char(&mut res, sep);
        }
    }
    res.append(part);
    res
}

/// The application's directory under a user configuration directory.
pub open spec fn app_dir(base: Seq<char>, sep: char) -> Seq<char> {
    path_join(base, "server-start"@, sep)
}

/// The log directory under a user configuration directory.
pub open spec fn app_logs_dir(base: Seq<char>, sep: char) -> Seq<char> {
    path_join(app_dir(base, sep), "logs"@, sep)
}

/// Whether `c` may stand in a log file name as it is: a letter or digit
/// (ASCII ones by their ranges, others as `char::is_alphanumeric` decides),
/// `-` or `_`.
pub open spec fn file_name_keeps(c: char) -> bool {
    (if (c as u32) < 128 {
        ascii_alphanumeric(c)
    } else {
        unicode_alphanumeric(c)
    }) || c == '-' || c == '_'
}

/// `c` itself when it may stand in a log file name, else `_`.
pub open spec fn file_name_char(c: char) -> char {
    if file_name_keeps(c) {
        c
    } else {
        '_'
    }
}

/// The log file name of a server: its name with every character other than
/// letters, digits, `-` and `_` replaced by `_`, then `.log`.
pub open spec fn log_file_name(server_name: Seq<char>) -> Seq<char> {
    server_name.map_values(|c: char| file_name_char(c)) + ".log"@
}

fn sanitized_log_file_name(server_name: &str) -> (res: String)
    ensures
        res@ == log_file_name(server_name@),
{
    let mut res = String::new();
    let n = server_name.unicode_len();
    let mut i: usize = 0;
    while i < n
        invariant
            n == server_name@.len(),
            i <= n,
            res@ == server_name@.take(i as int).map_values(|c: char| file_name_char(c)),
        decreases n - i,
    {
        let c = server_name.get_char(i);
        let safe = if is_alphanumeric(c) || c == '-' || c == '_' {
            c
        } else {
            '_'
        };
        push_char(&mut res, safe);
        assert(server_name@.take(i + 1).map_values(|c: char| file_name_char(c)) =~= server_name@.take(
            i as int,
        ).map_values(|c: char| file_name_char(c)).push(safe));
        i = i + 1;
    }
    assert(server_name@.take(n as int) =~= server_name@);
    res.append(".log");
    res
}

/// The configuration directory a lookup gave, or `.` when it gave none.
pub open spec fn base_or_current(base: Option<String>) -> Seq<char> {
    match base {
        Some(b) => b@,
        None => "."@,
    }
}

fn base_string(base: Option<String>) -> (b: String)
    ensures
        b@ == base_or_current(base),
{
    match base {
        Some(d) => d,
        None => String::from_str("."),
    }
}

/// The application's directory under the configuration directory `base`
/// (`.` when there is none), with `sep` between components.
pub fn app_dir_in(base: Option<String>, sep: char) -> (dir: String)
    ensures
        dir@ == app_dir(base_or_current(base), sep),
{
    let b = base_string(base);
    join_path(&b, "server-start", sep)
}

/// The configuration file under the configuration directory `base`.
pub fn config_path_in(base: Option<String>, sep: char) -> (path: String)
    ensures
        path@ == path_join(app_dir(base_or_current(base), sep), "config.toml"@, sep),
{
    let dir = app_dir_in(base, sep);
    join_path(&dir, "config.toml", sep)
}

/// The log directory under the configuration directory `base`.
pub fn logs_dir_in(base: Option<String>, sep: char) -> (dir: String)
    ensures
        dir@ == app_logs_dir(base_or_current(base), sep),
{
    let app = app_dir_in(base, sep);
    join_path(&app, "logs", sep)
}

/// The log file of a server under the configuration directory `base`.
pub fn log_path_in(base: Option<String>, sep: char, server_name: &str) -> (path: String)
    ensures
        path@ == path_join(app_logs_dir(base_or_current(base), sep), log_file_name(server_name@), sep),
{
    let dir = logs_dir_in(base, sep);
    let file = sanitized_log_file_name(server_name);
    join_path(&dir, file.as_str(), sep)
}

impl Config {
    /// The config directory: `%APPDATA%/server-start/` (`./server-start`
    /// when the system reports no configuration directory), as
    /// [`app_dir_in`] builds it from the user's configuration directory and
    /// the platform's separator. The caller creates it.
    pub fn config_dir() -> (dir: String)
        ensures
            exists|base: Option<String>, sep: char|
                is_separator(sep) && dir@ == #[trigger] app_dir(base_or_current(base), sep),
    {
        let sep = main_separator();
        let base = user_config_dir();
        let ghost b = base;
        let dir = app_dir_in(base, sep);
        assert(dir@ == app_dir(base_or_current(b), sep));
        dir
    }

    /// The configuration file: `config.toml` in [`Config::config_dir`], as
    /// [`config_path_in`] builds it.
    pub fn config_path() -> (path: String)
        ensures
            exists|base: Option<String>, sep: char|
                is_separator(sep) && path@ == path_join(#[trigger] app_dir(base_or_current(base), sep), "config.toml"@, sep),
    {
        let sep = main_separator();
        let base = user_config_dir();
        let ghost b = base;
        let path = config_path_in(base, sep);
        assert(path@ == path_join(app_dir(base_or_current(b), sep), "config.toml"@, sep));
        path
    }

    /// Log directory: `%APPDATA%/server-start/logs/`, as [`logs_dir_in`]
    /// builds it. The caller creates it.
    pub fn logs_dir() -> (dir: String)
        ensures
            exists|base: Option<String>, sep: char|
                is_separator(sep) && dir@ == #[trigger] app_logs_dir(base_or_current(base), sep),
    {
        let sep = main_separator();
        let base = user_config_dir();
        let ghost b = base;
        let dir = logs_dir_in(base, sep);
        assert(dir@ == app_logs_dir(base_or_current(b), sep));
        dir
    }

    /// Log file path for a given server name: [`log_file_name`] in
    /// [`Config::logs_dir`], as [`log_path_in`] builds it.
    pub fn log_path(server_name: &str) -> (path: String)
        ensures
            exists|base: Option<String>, sep: char|
                is_separator(sep) && path@ == path_join(
                    #[trigger] app_logs_dir(base_or_current(base), sep),
                    log_file_name(server_name@),
                    sep,
                ),
    {
        let sep = main_separator();
        let base = user_config_dir();
        let ghost b = base;
        let path = log_path_in(base, sep, server_name);
        assert(path@ == path_join(app_logs_dir(base_or_current(b), sep), log_file_name(server_name@), sep));
        path
    }
}

} // verus!

verus! {

/// The mathematical content of a [`GroupConfig`].
pub struct GroupConfigView {
    pub name: Seq<char>,
    pub servers: Seq<Seq<char>>,
}

impl View for GroupConfig {
    type V = GroupConfigView;

    open spec fn view(&self) -> GroupConfigView {
        GroupConfigView { name: self.name@, servers: self.servers@.map_values(|s: String| s@) }
    }
}

/// The names of a list of servers.
pub open spec fn server_names(servers: Seq<ServerConfig>) -> Seq<Seq<char>> {
    servers.map_values(|s: ServerConfig| s.name@)
}

/// The names, in order, that are not among `known`.
pub open spec fn unknown_names(names: Seq<Seq<char>>, known: Seq<Seq<char>>) -> Seq<Seq<char>>
    decreases names.len(),
{
    if names.len() == 0 {
        Seq::empty()
    } else {
        let rest = unknown_names(names.drop_last(), known);
        if known.contains(names.last()) {
            rest
        } else {
            rest.push(names.last())
        }
    }
}

/// The items separated by `sep`.
pub open spec fn joined(items: Seq<Seq<char>>, sep: Seq<char>) -> Seq<char>
    decreases items.len(),
{
    if items.len() == 0 {
        Seq::empty()
    } else if items.len() == 1 {
        items[0]
    } else {
        joined(items.drop_last(), sep) + sep + items.last()
    }
}

/// The warning about one group whose listed servers are not all configured.
pub open spec fn group_warning(group: GroupConfigView, known: Seq<Seq<char>>) -> Seq<char> {
    "Group \""@ + group.name + "\" references unknown servers: "@ + joined(
        unknown_names(group.servers, known),
        ", "@,
    )
}

/// The warnings about all groups that list unknown servers, in group order.
pub open spec fn group_warnings(groups: Seq<GroupConfig>, known: Seq<Seq<char>>) -> Seq<Seq<char>>
    decreases groups.len(),
{
    if groups.len() == 0 {
        Seq::empty()
    } else {
        let rest = group_warnings(groups.drop_last(), known);
        let g = groups.last()@;
        if unknown_names(g.servers, known).len() == 0 {
            rest
        } else {
            rest.push(group_warning(g, known))
        }
    }
}

/// The text of the "Group Config Warning" dialog, if one is due.
pub open spec fn unmatched_group_warning(groups: Seq<GroupConfig>, servers: Seq<ServerConfig>) -> Option<Seq<char>> {
    let warnings = group_warnings(groups, server_names(servers));
    if warnings.len() == 0 {
        None
    } else {
        Some(joined(warnings, "\n\n"@))
    }
}

/// Appends `item` to a separated list built so far.
fn append_item(list: &mut String, count: usize, item: &str, sep: &str, ghost_items: Ghost<Seq<Seq<char>>>)
    requires
        count == ghost_items@.len(),
        old(list)@ == joined(ghost_items@, sep@),
    ensures
        final(list)@ == joined(ghost_items@.push(item@), sep@),
{
    let ghost items = ghost_items@.push(item@);
    assert(items.drop_last() =~= ghost_items@);
    if count > 0 {
        list.append(sep);
    } else {
        assert(items.len() == 1);
    }
    list.append(item);
}

fn name_is_configured(name: &String, servers: &[ServerConfig]) -> (r: bool)
    ensures
        r == server_names(servers@).contains(name@),
{
    let mut i: usize = 0;
    while i < servers.len()
        invariant
            i <= servers@.len(),
            forall|k: int| 0 <= k < i ==> servers@[k].name@ != name@,
        decreases servers@.len() - i,
    {
        if servers[i].name == *name {
            assert(server_names(servers@)[i as int] == name@);
            return true;
        }
        i = i + 1;
    }
    proof {
        if server_names(servers@).contains(name@) {
            let k = choose|k: int| 0 <= k < server_names(servers@).len() && server_names(servers@)[k] == name@;
            assert(servers@[k].name@ == name@);
        }
    }
    false
}

/// Checks that every server a group lists is configured, and returns the
/// text of the warning to show when some are not: one paragraph per
/// offending group, `Group "<name>" references unknown servers: <a>, <b>`,
/// paragraphs separated by a blank line.
pub fn warn_unmatched_group_servers(groups: &[GroupConfig], servers: &[ServerConfig]) -> (warning: Option<String>)
    ensures
        warning matches Some(w) ==> unmatched_group_warning(groups@, servers@) == Some(w@),
        warning is None ==> unmatched_group_warning(groups@, servers@) is None,
{
    let ghost known = server_names(servers@);
    let mut text = String::new();
    let mut count: usize = 0;
    let mut gi: usize = 0;
    while gi < groups.len()
        invariant
            gi <= groups@.len(),
            known == server_names(servers@),
            count == group_warnings(groups@.take(gi as int), known).len(),
            count <= gi,
            text@ == joined(group_warnings(groups@.take(gi as int), known), "\n\n"@),
        decreases groups@.len() - gi,
    {
        let group = &groups[gi];
        let ghost gv = group@;
        let mut line = String::new();
        let mut n_unknown: usize = 0;
        let mut si: usize = 0;
        while si < group.servers.len()
            invariant
                si <= group.servers@.len(),
                gv == group@,
                known == server_names(servers@),
                n_unknown == unknown_names(gv.servers.take(si as int), known).len(),
                n_unknown <= si,
                line@ == joined(unknown_names(gv.servers.take(si as int), known), ", "@),
            decreases group.servers@.len() - si,
        {
            let name = &group.servers[si];
            assert(gv.servers.take(si + 1).drop_last() =~= gv.servers.take(si as int));
            assert(gv.servers[si as int] == name@);
            if !name_is_configured(name, servers) {
                append_item(
                    &mut line,
                    n_unknown,
                    name.as_str(),
                    ", ",
                    Ghost(unknown_names(gv.servers.take(si as int), known)),
                );
                n_unknown = n_unknown + 1;
            }
            si = si + 1;
        }
        assert(gv.servers.take(group.servers@.len() as int) =~= gv.servers);
        assert(groups@.take(gi + 1).drop_last() =~= groups@.take(gi as int));
        assert(groups@.take(gi + 1).last() == groups@[gi as int]);
        if n_unknown > 0 {
            let mut warning = String::new();
            warning.append("Group \"");
            warning.append(group.name.as_str());
            warning.append("\" references unknown servers: ");
            warning.append(line.as_str());
            assert(warning@ == group_warning(gv, known));
            append_item(
                &mut text,
                count,
                warning.as_str(),
                "\n\n",
                Ghost(group_warnings(groups@.take(gi as int), known)),
            );
            count = count + 1;
        }
        gi = gi + 1;
    }
    assert(groups@.take(groups@.len() as int) =~= groups@);
    if count == 0 {
        None
    } else {
        Some(text)
    }
}

/// A name is reported as unknown exactly when the group lists it and no
/// server has it.
pub proof fn lemma_unknown_names_members(names: Seq<Seq<char>>, known: Seq<Seq<char>>, n: Seq<char>)
    ensures
        unknown_names(names, known).contains(n) <==> (names.contains(n) && !known.contains(n)),
    decreases names.len(),
{
    if names.len() > 0 {
        let prefix = names.drop_last();
        lemma_unknown_names_members(prefix, known, n);
        let before = unknown_names(prefix, known);
        let after = unknown_names(names, known);
        if prefix.contains(n) {
            let k = choose|k: int| 0 <= k < prefix.len() && prefix[k] == n;
            assert(names[k] == prefix[k]);
        }
        if names.contains(n) && !known.contains(n) {
            let k = choose|k: int| 0 <= k < names.len() && names[k] == n;
            if k < prefix.len() {
                assert(prefix[k] == names[k]);
                let y = choose|y: int| 0 <= y < before.len() && before[y] == n;
                assert(after[y] == before[y]);
            } else {
                assert(after[after.len() - 1] == n);
            }
        }
        if after.contains(n) {
            let y = choose|y: int| 0 <= y < after.len() && after[y] == n;
            if y < before.len() {
                assert(before[y] == after[y]);
                assert(before.contains(n));
            } else {
                assert(names[names.len() - 1] == n);
            }
        }
    }
}

proof fn lemma_group_warnings_empty(groups: Seq<GroupConfig>, known: Seq<Seq<char>>)
    ensures
        group_warnings(groups, known).len() == 0 <==> forall|g: int|
            0 <= g < groups.len() ==> unknown_names((#[trigger] groups[g])@.servers, known).len() == 0,
    decreases groups.len(),
{
    if groups.len() > 0 {
        let prefix = groups.drop_last();
        lemma_group_warnings_empty(prefix, known);
        assert forall|g: int| 0 <= g < prefix.len() implies #[trigger] prefix[g] == groups[g] by {}
        if group_warnings(groups, known).len() == 0 {
            assert forall|g: int| 0 <= g < groups.len() implies unknown_names((#[trigger] groups[g])@.servers, known).len() == 0 by {
                if g < prefix.len() {
                    assert(prefix[g] == groups[g]);
                }
            }
        }
    }
}

/// The group warning is shown exactly when some group lists a server name
/// that no configured server has.
pub proof fn lemma_warning_iff_unknown_member(groups: Seq<GroupConfig>, servers: Seq<ServerConfig>)
    ensures
        unmatched_group_warning(groups, servers) is Some <==> exists|g: int, k: int|
            0 <= g < groups.len() && 0 <= k < groups[g]@.servers.len() && !exists|i: int|
                0 <= i < servers.len() && #[trigger] servers[i].name@ == (#[trigger] groups[g]@.servers[k]),
{
    let known = server_names(servers);
    lemma_group_warnings_empty(groups, known);
    assert forall|g: int, k: int|
        0 <= g < groups.len() && 0 <= k < groups[g]@.servers.len() implies (known.contains(groups[g]@.servers[k])
        <==> exists|i: int| 0 <= i < servers.len() && #[trigger] servers[i].name@ == groups[g]@.servers[k]) by {
        let n = groups[g]@.servers[k];
        if known.contains(n) {
            let i = choose|i: int| 0 <= i < known.len() && known[i] == n;
            assert(servers[i].name@ == n);
        }
        if exists|i: int| 0 <= i < servers.len() && #[trigger] servers[i].name@ == n {
            let i = choose|i: int| 0 <= i < servers.len() && #[trigger] servers[i].name@ == n;
            assert(known[i] == n);
        }
    }
    if unmatched_group_warning(groups, servers) is Some {
        let g = choose|g: int| 0 <= g < groups.len() && unknown_names((#[trigger] groups[g])@.servers, known).len() != 0;
        let names = groups[g]@.servers;
        let n = unknown_names(names, known)[0];
        assert(unknown_names(names, known).contains(n));
        lemma_unknown_names_members(names, known, n);
        let k = choose|k: int| 0 <= k < names.len() && names[k] == n;
        assert(!known.contains(groups[g]@.servers[k]));
    }
    if exists|g: int, k: int|
        0 <= g < groups.len() && 0 <= k < groups[g]@.servers.len() && !exists|i: int|
            0 <= i < servers.len() && #[trigger] servers[i].name@ == (#[trigger] groups[g]@.servers[k]) {
        let (g, k) = choose|g: int, k: int|
            0 <= g < groups.len() && 0 <= k < groups[g]@.servers.len() && !exists|i: int|
                0 <= i < servers.len() && #[trigger] servers[i].name@ == (#[trigger] groups[g]@.servers[k]);
        let names = groups[g]@.servers;
        assert(names.contains(names[k]));
        lemma_unknown_names_members(names, known, names[k]);
        assert(unknown_names(names, known).contains(names[k]));
    }
}

/// How a server name becomes its log file name: one character for each
/// character of the name, then `.log`; ASCII letters, digits, `-` and `_`
/// are kept, every other ASCII character becomes `_`.
pub proof fn lemma_log_file_name_chars(name: Seq<char>)
    ensures
        log_file_name(name).len() == name.len() + 4,
        log_file_name(name).subrange(name.len() as int, name.len() + 4int) == ".log"@,
        forall|k: int|
            0 <= k < name.len() && (name[k] as u32) < 128 ==> #[trigger] log_file_name(name)[k] == if ('a' <= name[k]
                <= 'z') || ('A' <= name[k] <= 'Z') || ('0' <= name[k] <= '9') || name[k] == '-' || name[k] == '_' {
                name[k]
            } else {
                '_'
            },
{
    reveal_strlit(".log");
    let m = name.map_values(|c: char| file_name_char(c));
    assert(log_file_name(name).subrange(name.len() as int, name.len() + 4int) =~= ".log"@);
    assert forall|k: int| 0 <= k < name.len() && (name[k] as u32) < 128 implies #[trigger] log_file_name(name)[k] == if (
    'a' <= name[k] <= 'z') || ('A' <= name[k] <= 'Z') || ('0' <= name[k] <= '9') || name[k] == '-' || name[k] == '_' {
        name[k]
    } else {
        '_'
    } by {
        assert(log_file_name(name)[k] == m[k]);
    }
}

} // verus!

//! TCP listener table decoding, backing external-server detection.
//!
//! A server config may declare the TCP `port` it listens on. If that port is
//! LISTENing but the process wasn't spawned by us, it was started externally
//! (a terminal, an AI dev session, ...) and the tray shows it as [external].
//!
//! The operating system hands the listener table over as raw bytes in the
//! layout of `MIB_TCPTABLE_OWNER_PID` (IPv4) or `MIB_TCP6TABLE_OWNER_PID`
//! (IPv6): a little-endian row count followed by fixed-size rows. This module
//! decodes those bytes and merges the rows into a port -> owning PID map.
use std::collections::HashMap;
use vstd::prelude::*;

verus! {

/// Which listener table a buffer holds.
#[derive(Debug, Clone, Copy, PartialEq, Eq, Structural)]
pub enum AddressFamily {
    /// `MIB_TCPTABLE_OWNER_PID`: rows of `MIB_TCPROW_OWNER_PID`.
    V4,
    /// `MIB_TCP6TABLE_OWNER_PID`: rows of `MIB_TCP6ROW_OWNER_PID`.
    V6,
}

/// Byte offset of the first row: the rows follow the 4-byte row count.
pub open spec fn table_header_len() -> nat {
    4
}

impl AddressFamily {
    /// Size in bytes of one row of the table.
    pub open spec fn row_len(self) -> nat {
        match self {
            AddressFamily::V4 => 24,
            AddressFamily::V6 => 56,
        }
    }

    /// Offset of `dwLocalPort` within a row.
    pub open spec fn port_offset(self) -> nat {
        match self {
            AddressFamily::V4 => 8,
            AddressFamily::V6 => 20,
        }
    }

    /// Offset of `dwOwningPid` within a row.
    pub open spec fn pid_offset(self) -> nat {
        match self {
            AddressFamily::V4 => 20,
            AddressFamily::V6 => 52,
        }
    }

    fn exec_row_len(self) -> (n: usize)
        ensures
            n == self.row_len(),
    {
        match self {
            AddressFamily::V4 => 24,
            AddressFamily::V6 => 56,
        }
    }

    fn exec_port_offset(self) -> (n: usize)
        ensures
            n == self.port_offset(),
    {
        match self {
            AddressFamily::V4 => 8,
            AddressFamily::V6 => 20,
        }
    }

    fn exec_pid_offset(self) -> (n: usize)
        ensures
            n == self.pid_offset(),
    {
        match self {
            AddressFamily::V4 => 20,
            AddressFamily::V6 => 52,
        }
    }
}

/// The little-endian 32-bit value stored at `at`.
pub open spec fn le_u32(b: Seq<u8>, at: int) -> nat {
    (b[at] + 256 * b[at + 1] + 65536 * b[at + 2] + 16777216 * b[at + 3]) as nat
}

/// The big-endian (network order) 16-bit value stored at `at`.
pub open spec fn be_u16(b: Seq<u8>, at: int) -> nat {
    (256 * b[at] + b[at + 1]) as nat
}

/// Number of rows decoded from a table: the reported row count, bounded by
/// the rows that actually fit in the buffer.
pub open spec fn row_count(b: Seq<u8>, family: AddressFamily) -> nat {
    if b.len() < table_header_len() {
        0
    } else {
        let fit = ((b.len() - table_header_len()) as nat) / family.row_len();
        let reported = le_u32(b, 0);
        if reported < fit {
            reported
        } else {
            fit
        }
    }
}

/// Byte offset of row `i`.
pub open spec fn row_start(family: AddressFamily, i: int) -> int {
    table_header_len() + i * family.row_len()
}

/// The (local port, owning PID) pair of row `i`. The port field holds the
/// port in network byte order in its first two bytes; the PID is a
/// little-endian 32-bit value.
pub open spec fn row_entry(b: Seq<u8>, family: AddressFamily, i: int) -> (u16, u32) {
    let start = row_start(family, i);
    (
        be_u16(b, start + family.port_offset()) as u16,
        le_u32(b, start + family.pid_offset()) as u32,
    )
}

/// Where each row's fields sit: row `i` starts after the 4-byte row count
/// and `i` rows of 24 bytes (IPv4) or 56 bytes (IPv6); its port is the
/// big-endian 16-bit value at offset 8 (IPv4) or 20 (IPv6), and its PID
/// the full little-endian 32-bit `dwOwningPid` at offset 20 (IPv4) or 52
/// (IPv6), all four bytes of it.
pub proof fn lemma_row_entry_bytes(b: Seq<u8>, i: int)
    ensures
        ({
            let s = 4 + 24 * i;
            row_entry(b, AddressFamily::V4, i) == (
                (256 * b[s + 8] + b[s + 9]) as u16,
                (b[s + 20] + 256 * b[s + 21] + 65536 * b[s + 22] + 16777216 * b[s + 23]) as u32,
            )
        }),
        ({
            let s = 4 + 56 * i;
            row_entry(b, AddressFamily::V6, i) == (
                (256 * b[s + 20] + b[s + 21]) as u16,
                (b[s + 52] + 256 * b[s + 53] + 65536 * b[s + 54] + 16777216 * b[s + 55]) as u32,
            )
        }),
{
}

/// How many rows a table holds, and which: the row count is the
/// little-endian 32-bit value in the first four bytes, cut down to the
/// number of whole rows the rest of the buffer holds (none when the buffer
/// is shorter than the count itself), and row `i` is decoded from its bytes.
pub proof fn lemma_table_rows_bytes(b: Seq<u8>, family: AddressFamily)
    ensures
        b.len() < 4 ==> table_rows(b, family).len() == 0,
        b.len() >= 4 ==> ({
            let reported = b[0] + 256 * b[1] + 65536 * b[2] + 16777216 * b[3];
            let fit = (b.len() - 4) / (if family is V4 { 24int } else { 56int });
            table_rows(b, family).len() == if reported < fit { reported } else { fit }
        }),
        forall|i: int| 0 <= i < table_rows(b, family).len() ==> #[trigger] table_rows(b, family)[i] == row_entry(b, family, i),
{
}

/// All (port, PID) pairs of a table, in table order.
pub open spec fn table_rows(b: Seq<u8>, family: AddressFamily) -> Seq<(u16, u32)> {
    Seq::new(row_count(b, family), |i: int| row_entry(b, family, i))
}

/// Adds the rows to `m` in order, a port keeping the PID of the first row
/// that names it.
pub open spec fn insert_first(m: Map<u16, u32>, rows: Seq<(u16, u32)>) -> Map<u16, u32>
    decreases rows.len(),
{
    if rows.len() == 0 {
        m
    } else {
        let before = insert_first(m, rows.drop_last());
        let r = rows.last();
        if before.contains_key(r.0) {
            before
        } else {
            before.insert(r.0, r.1)
        }
    }
}

/// The port -> PID map built from an IPv4 table and then an IPv6 table.
pub open spec fn listener_map(v4: Seq<u8>, v6: Seq<u8>) -> Map<u16, u32> {
    insert_first(insert_first(Map::empty(), table_rows(v4, AddressFamily::V4)), table_rows(v6, AddressFamily::V6))
}


/// Whether some row names `port`.
pub open spec fn rows_name_port(rows: Seq<(u16, u32)>, port: u16) -> bool {
    exists|i: int| 0 <= i < rows.len() && #[trigger] rows[i].0 == port
}

/// Adding two batches of rows one after the other is adding their
/// concatenation.
pub proof fn lemma_insert_first_append(m: Map<u16, u32>, a: Seq<(u16, u32)>, b: Seq<(u16, u32)>)
    ensures
        insert_first(insert_first(m, a), b) == insert_first(m, a + b),
    decreases b.len(),
{
    if b.len() == 0 {
        assert(a + b =~= a);
    } else {
        lemma_insert_first_append(m, a, b.drop_last());
        assert((a + b).drop_last() =~= a + b.drop_last());
        assert((a + b).last() == b.last());
    }
}

/// The ports of the result are those already present and those the rows
/// name.
pub proof fn lemma_insert_first_domain(m: Map<u16, u32>, rows: Seq<(u16, u32)>, port: u16)
    ensures
        insert_first(m, rows).contains_key(port) <==> (m.contains_key(port) || rows_name_port(rows, port)),
    decreases rows.len(),
{
    if rows.len() > 0 {
        let prefix = rows.drop_last();
        lemma_insert_first_domain(m, prefix, port);
        if rows_name_port(prefix, port) {
            let k = choose|k: int| 0 <= k < prefix.len() && #[trigger] prefix[k].0 == port;
            assert(rows[k].0 == port);
        }
        if rows_name_port(rows, port) && !rows_name_port(prefix, port) {
            let k = choose|k: int| 0 <= k < rows.len() && #[trigger] rows[k].0 == port;
            if k < rows.len() - 1 {
                assert(prefix[k].0 == port);
            }
        }
    }
}

/// A port already present keeps its PID.
pub proof fn lemma_insert_first_keeps(m: Map<u16, u32>, rows: Seq<(u16, u32)>, port: u16)
    requires
        m.contains_key(port),
    ensures
        insert_first(m, rows).contains_key(port),
        insert_first(m, rows)[port] == m[port],
    decreases rows.len(),
{
    if rows.len() > 0 {
        lemma_insert_first_keeps(m, rows.drop_last(), port);
    }
}

/// A new port gets the PID of the first row that names it.
pub proof fn lemma_insert_first_first_row(m: Map<u16, u32>, rows: Seq<(u16, u32)>, i: int)
    requires
        0 <= i < rows.len(),
        !m.contains_key(rows[i].0),
        forall|j: int| 0 <= j < i ==> rows[j].0 != rows[i].0,
    ensures
        insert_first(m, rows).contains_key(rows[i].0),
        insert_first(m, rows)[rows[i].0] == rows[i].1,
    decreases rows.len(),
{
    let port = rows[i].0;
    let prefix = rows.drop_last();
    if i < rows.len() - 1 {
        assert(prefix[i] == rows[i]);
        assert forall|j: int| 0 <= j < i implies prefix[j].0 != prefix[i].0 by {
            assert(prefix[j] == rows[j]);
        }
        lemma_insert_first_first_row(m, prefix, i);
    } else {
        lemma_insert_first_domain(m, prefix, port);
        assert(!rows_name_port(prefix, port)) by {
            if rows_name_port(prefix, port) {
                let k = choose|k: int| 0 <= k < prefix.len() && #[trigger] prefix[k].0 == port;
                assert(rows[k] == prefix[k]);
            }
        }
    }
}

/// A port is listening exactly when some IPv4 or IPv6 row names it, and it
/// maps to the PID of the first such row, IPv4 rows coming first: when a
/// port has both an IPv4 and an IPv6 listener, the first insertion wins.
pub proof fn lemma_first_listener_wins(v4: Seq<u8>, v6: Seq<u8>, port: u16)
    ensures
        ({
            let rows = table_rows(v4, AddressFamily::V4) + table_rows(v6, AddressFamily::V6);
            &&& listener_map(v4, v6).contains_key(port) <==> rows_name_port(rows, port)
            &&& forall|i: int|
                #![trigger rows[i]]
                0 <= i < rows.len() && rows[i].0 == port && (forall|j: int| 0 <= j < i ==> rows[j].0 != port)
                    ==> listener_map(v4, v6)[port] == rows[i].1
        }),
{
    let a = table_rows(v4, AddressFamily::V4);
    let b = table_rows(v6, AddressFamily::V6);
    let rows = a + b;
    lemma_insert_first_append(Map::empty(), a, b);
    lemma_insert_first_domain(Map::empty(), rows, port);
    assert forall|i: int|
        #![trigger rows[i]]
        0 <= i < rows.len() && rows[i].0 == port && (forall|j: int| 0 <= j < i ==> rows[j].0 != port)
            implies listener_map(v4, v6)[port] == rows[i].1 by {
        lemma_insert_first_first_row(Map::empty(), rows, i);
    }
}

proof fn lemma_row_fits(len: int, family: AddressFamily, i: int, n: int)
    requires
        len >= 4,
        n <= (len - 4) / (family.row_len() as int),
        0 <= i < n,
    ensures
        row_start(family, i) + family.row_len() <= len,
{
    let rl = family.row_len() as int;
    assert(rl > 0);
    assert((i + 1) * rl <= n * rl) by (nonlinear_arith)
        requires
            i + 1 <= n,
            rl > 0,
    ;
    assert(n * rl <= len - 4) by (nonlinear_arith)
        requires
            n <= (len - 4) / rl,
            rl > 0,
            len - 4 >= 0,
    ;
    assert(i * rl + rl == (i + 1) * rl) by (nonlinear_arith);
}

fn read_le_u32(b: &[u8], at: usize) -> (v: u32)
    requires
        at + 4 <= b@.len(),
    ensures
        v == le_u32(b@, at as int),
{
    let v: u64 = b[at] as u64 + 256 * (b[at + 1] as u64) + 65536 * (b[at + 2] as u64) + 16777216 * (b[at + 3] as u64);
    v as u32
}

fn read_be_u16(b: &[u8], at: usize) -> (v: u16)
    requires
        at + 2 <= b@.len(),
    ensures
        v == be_u16(b@, at as int),
{
    256 * (b[at] as u16) + (b[at + 1] as u16)
}

/// Decodes the rows of one listener table and adds them to `out`; a port
/// already present keeps its PID.
pub fn collect_table(table: &[u8], family: AddressFamily, out: &mut HashMap<u16, u32>)
    ensures
        final(out)@ == insert_first(old(out)@, table_rows(table@, family)),
{
    broadcast use vstd::std_specs::hash::group_hash_axioms;

    let len = table.len();
    if len < 4 {
        assert(table_rows(table@, family) =~= Seq::<(u16, u32)>::empty());
        return;
    }
    let row_len = family.exec_row_len();
    let fit = (len - 4) / row_len;
    let reported = read_le_u32(table, 0) as usize;
    let n = if reported < fit { reported } else { fit };
    assert(n == row_count(table@, family));
    let ghost rows = table_rows(table@, family);
    let port_off = family.exec_port_offset();
    let pid_off = family.exec_pid_offset();
    let mut i: usize = 0;
    while i < n
        invariant
            len == table@.len(),
            len >= 4,
            row_len == family.row_len(),
            port_off == family.port_offset(),
            pid_off == family.pid_offset(),
            n == row_count(table@, family),
            n <= (len - 4) / (row_len as int),
            rows == table_rows(table@, family),
            rows.len() == n,
            0 <= i <= n,
            out@ == insert_first(old(out)@, rows.take(i as int)),
        decreases n - i,
    {
        proof {
            lemma_row_fits(len as int, family, i as int, n as int);
        }
        let start = 4 + i * row_len;
        let port = read_be_u16(table, start + port_off);
        let pid = read_le_u32(table, start + pid_off);
        assert((port, pid) == rows[i as int]);
        assert(rows.take(i + 1).drop_last() =~= rows.take(i as int));
        if !out.contains_key(&port) {
            out.insert(port, pid);
        }
        i = i + 1;
    }
    assert(rows.take(n as int) =~= rows);
}

/// Snapshot of all listening TCP ports (IPv4 + IPv6) mapped to the owning
/// PID, decoded from the two raw listener tables. A table that could not be
/// fetched is passed as an empty slice and contributes nothing.
/// If a port has both an IPv4 and an IPv6 listener, the first insertion
/// wins: in practice both belong to the same process, so either PID works
/// for taskkill.
pub fn listening_ports(v4_table: &[u8], v6_table: &[u8]) -> (ports: HashMap<u16, u32>)
    ensures
        ports@ == listener_map(v4_table@, v6_table@),
{
    let mut map: HashMap<u16, u32> = HashMap::new();
    collect_table(v4_table, AddressFamily::V4, &mut map);
    collect_table(v6_table, AddressFamily::V6, &mut map);
    map
}

/// Whether anything is listening on `port` according to a snapshot. Used to
/// wait for a port to be released after killing an external process (no
/// Child handle to wait on).
pub fn port_listening(ports: &HashMap<u16, u32>, port: u16) -> (res: bool)
    ensures
        res == ports@.contains_key(port),
{
    broadcast use vstd::std_specs::hash::group_hash_axioms;

    ports.contains_key(&port)
}


/// What one call of the listener-table query (`GetExtendedTcpTable`)
/// reported.
#[derive(Debug, Clone, Copy, PartialEq, Eq, Structural)]
pub enum QueryOutcome {
    /// `NO_ERROR`: the table was written into the buffer.
    Success,
    /// `ERROR_INSUFFICIENT_BUFFER`: the buffer was too small; the reported
    /// size has been updated.
    BufferTooSmall,
    /// Any other return code.
    Failed,
}

/// Where the two-call sizing pattern stands.
#[derive(Debug, Clone, Copy, PartialEq, Eq, Structural)]
pub enum FetchPhase {
    /// The sizing call (without a buffer) has been made.
    Sizing,
    /// `attempts` calls with a buffer have been made.
    Fetching { attempts: u32 },
}

/// What to do after a query call.
#[derive(Debug, Clone, Copy, PartialEq, Eq, Structural)]
pub enum FetchAction {
    /// Call the query again with a zeroed buffer of `buffer_len` bytes.
    Query { buffer_len: usize },
    /// The buffer of the last call holds the table.
    Accept,
    /// Give up: no table.
    GiveUp,
}

/// Number of calls with a buffer before giving up: the table can grow
/// between the sizing call and the fetch, so a few retries are made.
pub const FETCH_ATTEMPTS: u32 = 3;

/// Smallest buffer offered to the query.
pub const MIN_TABLE_BUFFER: u32 = 16;

/// The buffer length offered for a reported size.
pub open spec fn buffer_len_for(reported_size: u32) -> usize {
    if reported_size < MIN_TABLE_BUFFER {
        MIN_TABLE_BUFFER as usize
    } else {
        reported_size as usize
    }
}

/// The next phase and action of the fetch, given the outcome of the call
/// just made and the size it reported.
pub open spec fn fetch_transition(phase: FetchPhase, outcome: QueryOutcome, reported_size: u32) -> (FetchPhase, FetchAction) {
    match phase {
        FetchPhase::Sizing => match outcome {
            QueryOutcome::Failed => (phase, FetchAction::GiveUp),
            _ => (FetchPhase::Fetching { attempts: 1 }, FetchAction::Query { buffer_len: buffer_len_for(reported_size) }),
        },
        FetchPhase::Fetching { attempts } => match outcome {
            QueryOutcome::Success => (phase, FetchAction::Accept),
            QueryOutcome::Failed => (phase, FetchAction::GiveUp),
            QueryOutcome::BufferTooSmall => if attempts < FETCH_ATTEMPTS {
                (FetchPhase::Fetching { attempts: (attempts + 1) as u32 }, FetchAction::Query { buffer_len: buffer_len_for(reported_size) })
            } else {
                (phase, FetchAction::GiveUp)
            },
        },
    }
}

/// Decides the next step of fetching one listener table with the two-call
/// sizing pattern: after the sizing call, a failure other than "buffer too
/// small" gives up; otherwise the table is fetched into a buffer of the
/// reported size (at least 16 bytes), retrying up to three times while the
/// buffer keeps turning out too small.
pub fn fetch_step(phase: FetchPhase, outcome: QueryOutcome, reported_size: u32) -> (res: (FetchPhase, FetchAction))
    ensures
        res == fetch_transition(phase, outcome, reported_size),
{
    let buffer_len: usize = if reported_size < MIN_TABLE_BUFFER {
        MIN_TABLE_BUFFER as usize
    } else {
        reported_size as usize
    };
    match phase {
        FetchPhase::Sizing => match outcome {
            QueryOutcome::Failed => (phase, FetchAction::GiveUp),
            _ => (FetchPhase::Fetching { attempts: 1 }, FetchAction::Query { buffer_len }),
        },
        FetchPhase::Fetching { attempts } => match outcome {
            QueryOutcome::Success => (phase, FetchAction::Accept),
            QueryOutcome::Failed => (phase, FetchAction::GiveUp),
            QueryOutcome::BufferTooSmall => if attempts < FETCH_ATTEMPTS {
                (FetchPhase::Fetching { attempts: attempts + 1 }, FetchAction::Query { buffer_len })
            } else {
                (phase, FetchAction::GiveUp)
            },
        },
    }
}

/// Calls with a buffer that the fetch may still make from a phase.
pub open spec fn fetch_budget(phase: FetchPhase) -> int {
    match phase {
        FetchPhase::Sizing => FETCH_ATTEMPTS as int,
        FetchPhase::Fetching { attempts } => FETCH_ATTEMPTS - attempts,
    }
}

/// The fetch ends: every new query spends budget, which never goes below
/// zero, so at most one sizing call and three fetching calls are made. Every
/// buffer offered holds at least 16 bytes and at least the reported size,
/// and a table is accepted only from a successful call with a buffer.
pub proof fn lemma_fetch_terminates(phase: FetchPhase, outcome: QueryOutcome, reported_size: u32)
    requires
        0 <= fetch_budget(phase) <= FETCH_ATTEMPTS,
    ensures
        ({
            let (next, action) = fetch_transition(phase, outcome, reported_size);
            &&& action matches FetchAction::Query { buffer_len } ==> {
                &&& 0 <= fetch_budget(next) < fetch_budget(phase)
                &&& buffer_len >= MIN_TABLE_BUFFER
                &&& buffer_len >= reported_size
            }
            &&& action is Accept ==> phase is Fetching && outcome is Success
        }),
{
}

} // verus!

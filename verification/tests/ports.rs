use server_start::ports::{
    collect_table, fetch_step, listening_ports, port_listening, AddressFamily, FetchAction, FetchPhase, QueryOutcome,
};
use std::collections::HashMap;

/// A `MIB_TCPTABLE_OWNER_PID` image with the given (port, pid) rows.
fn v4_table(rows: &[(u16, u32)]) -> Vec<u8> {
    let mut b = (rows.len() as u32).to_le_bytes().to_vec();
    for (port, pid) in rows {
        b.extend_from_slice(&2u32.to_le_bytes()); // dwState
        b.extend_from_slice(&[127, 0, 0, 1]); // dwLocalAddr
        let port_be = port.to_be_bytes();
        b.extend_from_slice(&[port_be[0], port_be[1], 0, 0]); // dwLocalPort
        b.extend_from_slice(&0u32.to_le_bytes()); // dwRemoteAddr
        b.extend_from_slice(&0u32.to_le_bytes()); // dwRemotePort
        b.extend_from_slice(&pid.to_le_bytes()); // dwOwningPid
    }
    b
}

/// A `MIB_TCP6TABLE_OWNER_PID` image with the given (port, pid) rows.
fn v6_table(rows: &[(u16, u32)]) -> Vec<u8> {
    let mut b = (rows.len() as u32).to_le_bytes().to_vec();
    for (port, pid) in rows {
        b.extend_from_slice(&[0u8; 16]); // ucLocalAddr
        b.extend_from_slice(&0u32.to_le_bytes()); // dwLocalScopeId
        let port_be = port.to_be_bytes();
        b.extend_from_slice(&[port_be[0], port_be[1], 0, 0]); // dwLocalPort
        b.extend_from_slice(&[0u8; 16]); // ucRemoteAddr
        b.extend_from_slice(&0u32.to_le_bytes()); // dwRemoteScopeId
        b.extend_from_slice(&0u32.to_le_bytes()); // dwRemotePort
        b.extend_from_slice(&2u32.to_le_bytes()); // dwState
        b.extend_from_slice(&pid.to_le_bytes()); // dwOwningPid
    }
    b
}

#[test]
fn decodes_v4_rows() {
    let t = v4_table(&[(5173, 4242), (8080, 77)]);
    let ports = listening_ports(&t, &[]);
    assert_eq!(ports.len(), 2);
    assert_eq!(ports.get(&5173), Some(&4242));
    assert_eq!(ports.get(&8080), Some(&77));
}

#[test]
fn decodes_v6_rows() {
    let t = v6_table(&[(443, 9), (65535, 4000000000)]);
    let ports = listening_ports(&[], &t);
    assert_eq!(ports.len(), 2);
    assert_eq!(ports.get(&443), Some(&9));
    assert_eq!(ports.get(&65535), Some(&4000000000));
}

#[test]
fn first_listener_wins() {
    let v4 = v4_table(&[(3000, 1), (3000, 2)]);
    let v6 = v6_table(&[(3000, 3), (4000, 4)]);
    let ports = listening_ports(&v4, &v6);
    assert_eq!(ports.get(&3000), Some(&1));
    assert_eq!(ports.get(&4000), Some(&4));
    assert_eq!(ports.len(), 2);
}

#[test]
fn row_count_is_bounded_by_buffer() {
    let mut t = v4_table(&[(1, 10), (2, 20)]);
    t[0] = 9; // claims nine rows
    let ports = listening_ports(&t, &[]);
    assert_eq!(ports.len(), 2);
    t.truncate(4 + 24 + 10); // second row cut short
    let ports = listening_ports(&t, &[]);
    assert_eq!(ports.len(), 1);
    assert_eq!(ports.get(&1), Some(&10));
}

#[test]
fn reported_count_limits_rows() {
    let mut t = v4_table(&[(1, 10), (2, 20)]);
    t[0] = 1;
    let ports = listening_ports(&t, &[]);
    assert_eq!(ports.len(), 1);
}

#[test]
fn short_or_empty_tables_give_nothing() {
    assert!(listening_ports(&[], &[]).is_empty());
    assert!(listening_ports(&[1, 0], &[5]).is_empty());
    assert!(listening_ports(&[0, 0, 0, 0], &[0; 16]).is_empty());
}

#[test]
fn collect_keeps_existing_entries() {
    let mut m = HashMap::new();
    m.insert(80u16, 5u32);
    collect_table(&v4_table(&[(80, 6), (81, 7)]), AddressFamily::V4, &mut m);
    assert_eq!(m.get(&80), Some(&5));
    assert_eq!(m.get(&81), Some(&7));
}

#[test]
fn port_listening_checks_snapshot() {
    let ports = listening_ports(&v4_table(&[(5173, 1)]), &[]);
    assert!(port_listening(&ports, 5173));
    assert!(!port_listening(&ports, 5174));
}

#[test]
fn fetch_sizing_then_fetch() {
    let (p, a) = fetch_step(FetchPhase::Sizing, QueryOutcome::BufferTooSmall, 200);
    assert_eq!(p, FetchPhase::Fetching { attempts: 1 });
    assert_eq!(a, FetchAction::Query { buffer_len: 200 });
    let (_, a) = fetch_step(p, QueryOutcome::Success, 200);
    assert_eq!(a, FetchAction::Accept);
}

#[test]
fn fetch_offers_at_least_sixteen_bytes() {
    let (_, a) = fetch_step(FetchPhase::Sizing, QueryOutcome::Success, 0);
    assert_eq!(a, FetchAction::Query { buffer_len: 16 });
}

#[test]
fn fetch_gives_up_on_failure() {
    assert_eq!(fetch_step(FetchPhase::Sizing, QueryOutcome::Failed, 10).1, FetchAction::GiveUp);
    assert_eq!(fetch_step(FetchPhase::Fetching { attempts: 1 }, QueryOutcome::Failed, 10).1, FetchAction::GiveUp);
}

#[test]
fn fetch_retries_three_times() {
    let mut phase = FetchPhase::Sizing;
    let mut queries = 0;
    loop {
        let (p, a) = fetch_step(phase, QueryOutcome::BufferTooSmall, 64);
        phase = p;
        match a {
            FetchAction::Query { buffer_len } => {
                assert_eq!(buffer_len, 64);
                queries += 1;
            }
            FetchAction::Accept => panic!("nothing was fetched"),
            FetchAction::GiveUp => break,
        }
    }
    assert_eq!(queries, 3);
}

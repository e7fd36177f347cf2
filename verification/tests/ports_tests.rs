use std::collections::HashSet;

use netstat2::{AddressFamilyFlags, ProtocolFlags, ProtocolSocketInfo};
use portkill::ports::{Lookup, PortEntry, Socket, SocketKind, TcpState, scan, scan_port};

fn tcp_state(state: netstat2::TcpState) -> TcpState {
    match state {
        netstat2::TcpState::Closed => TcpState::Closed,
        netstat2::TcpState::Listen => TcpState::Listen,
        netstat2::TcpState::SynSent => TcpState::SynSent,
        netstat2::TcpState::SynReceived => TcpState::SynReceived,
        netstat2::TcpState::Established => TcpState::Established,
        netstat2::TcpState::FinWait1 => TcpState::FinWait1,
        netstat2::TcpState::FinWait2 => TcpState::FinWait2,
        netstat2::TcpState::CloseWait => TcpState::CloseWait,
        netstat2::TcpState::Closing => TcpState::Closing,
        netstat2::TcpState::LastAck => TcpState::LastAck,
        netstat2::TcpState::TimeWait => TcpState::TimeWait,
        netstat2::TcpState::DeleteTcb => TcpState::DeleteTcb,
        netstat2::TcpState::Unknown => TcpState::Unknown,
    }
}

/// The machine's socket table, as the library takes it.
fn live_sockets() -> Vec<Socket> {
    netstat2::get_sockets_info(
        AddressFamilyFlags::IPV4 | AddressFamilyFlags::IPV6,
        ProtocolFlags::TCP | ProtocolFlags::UDP,
    )
    .unwrap()
    .into_iter()
    .map(|s| Socket {
        kind: match &s.protocol_socket_info {
            ProtocolSocketInfo::Tcp(tcp) => SocketKind::Tcp(tcp_state(tcp.state)),
            ProtocolSocketInfo::Udp(_) => SocketKind::Udp,
        },
        port: s.local_port(),
        pids: s.associated_pids,
    })
    .collect()
}

fn scan_live() -> Vec<PortEntry> {
    let no_lookups: Vec<Lookup> = Vec::new();
    scan(&live_sockets(), &no_lookups)
}

fn scan_port_live(port: u16) -> Vec<PortEntry> {
    let no_lookups: Vec<Lookup> = Vec::new();
    scan_port(port, &live_sockets(), &no_lookups)
}

#[test]
fn unbound_sockets_are_not_listed() {
    assert!(
        scan_live().iter().all(|e| e.port != 0),
        "port 0 is not a port anyone can free"
    );
    assert!(scan_port_live(0).is_empty());
}

#[test]
fn entries_come_back_sorted_and_deduped() {
    let entries = scan_live();
    assert!(
        entries
            .windows(2)
            .all(|w| (w[0].port, w[0].pid) <= (w[1].port, w[1].pid))
    );

    let mut seen = HashSet::new();
    assert!(
        entries
            .iter()
            .all(|e| seen.insert((e.port, e.proto, e.pid))),
        "the same process/port/proto must not be listed twice"
    );
}

use portkill::ports::{Owner, Proto, pids_to_resolve};

fn socket(kind: SocketKind, port: u16, pids: &[u32]) -> Socket {
    Socket { kind, port, pids: pids.to_vec() }
}

fn table() -> Vec<Socket> {
    vec![
        socket(SocketKind::Tcp(TcpState::Listen), 8080, &[300]),
        // The same process on the same port over IPv6.
        socket(SocketKind::Tcp(TcpState::Listen), 8080, &[300]),
        // A connection, not an owner of the port.
        socket(SocketKind::Tcp(TcpState::Established), 8080, &[400]),
        socket(SocketKind::Udp, 53, &[100, 200]),
        // An unbound UDP socket.
        socket(SocketKind::Udp, 0, &[500]),
        socket(SocketKind::Tcp(TcpState::Listen), 53, &[100]),
        socket(SocketKind::Tcp(TcpState::Listen), 3000, &[250]),
    ]
}

fn lookups() -> Vec<Lookup> {
    vec![
        Lookup {
            pid: 300,
            owner: Some(Owner { name: "python".to_owned(), user: "cyrus".to_owned(), memory: 2048 }),
        },
        Lookup { pid: 100, owner: None },
        Lookup {
            pid: 200,
            owner: Some(Owner { name: "dnsmasq".to_owned(), user: "root".to_owned(), memory: 1 }),
        },
    ]
}

fn rows(entries: &[PortEntry]) -> Vec<(u16, Proto, u32, String, String, u64)> {
    entries
        .iter()
        .map(|e| (e.port, e.proto, e.pid, e.name.clone(), e.user.clone(), e.memory))
        .collect()
}

#[test]
fn scan_lists_owners_once_in_port_then_pid_order() {
    let got = rows(&scan(&table(), &lookups()));
    let q = "?".to_owned();
    let expected = vec![
        // UDP before TCP: the scan came upon the UDP socket first.
        (53, Proto::Udp, 100, q.clone(), q.clone(), 0),
        (53, Proto::Tcp, 100, q.clone(), q.clone(), 0),
        (53, Proto::Udp, 200, "dnsmasq".to_owned(), "root".to_owned(), 1),
        (3000, Proto::Tcp, 250, q.clone(), q.clone(), 0),
        (8080, Proto::Tcp, 300, "python".to_owned(), "cyrus".to_owned(), 2048),
    ];
    assert_eq!(got, expected);
}

#[test]
fn same_port_and_process_keep_scan_order() {
    let sockets = vec![
        socket(SocketKind::Tcp(TcpState::Listen), 53, &[100]),
        socket(SocketKind::Udp, 53, &[200, 100]),
        socket(SocketKind::Tcp(TcpState::Listen), 53, &[100]),
    ];
    let got: Vec<(u16, Proto, u32)> =
        scan(&sockets, &Vec::new()).iter().map(|e| (e.port, e.proto, e.pid)).collect();
    assert_eq!(got, vec![(53, Proto::Tcp, 100), (53, Proto::Udp, 100), (53, Proto::Udp, 200)]);
}

#[test]
fn looking_at_one_port_shows_only_it() {
    let got = rows(&scan_port(8080, &table(), &lookups()));
    assert_eq!(got, vec![(8080, Proto::Tcp, 300, "python".to_owned(), "cyrus".to_owned(), 2048)]);
    assert!(scan_port(9999, &table(), &lookups()).is_empty());
    assert!(scan_port(0, &table(), &lookups()).is_empty());
    let all = rows(&scan(&table(), &lookups()));
    let on_53: Vec<_> = all.iter().filter(|r| r.0 == 53).cloned().collect();
    assert_eq!(rows(&scan_port(53, &table(), &lookups())), on_53);
}

#[test]
fn only_listed_processes_are_looked_up() {
    assert_eq!(pids_to_resolve(&table(), None), vec![300, 100, 200, 250]);
    assert_eq!(pids_to_resolve(&table(), Some(53)), vec![100, 200]);
    assert!(pids_to_resolve(&table(), Some(0)).is_empty());
}

#[test]
fn protocol_names_and_filter_text() {
    assert_eq!(Proto::Tcp.to_string(), "TCP");
    assert_eq!(Proto::Udp.to_string(), "UDP");
    let e = PortEntry {
        port: 3000,
        proto: Proto::Tcp,
        pid: 42,
        name: "node".to_owned(),
        user: "cyrus".to_owned(),
        memory: 0,
    };
    assert_eq!(e.haystack(), "3000 node cyrus TCP");
}

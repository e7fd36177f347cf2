//! Socket ownership: which process is sitting on which port.
//!
//! Reading the socket table and looking processes up is the program's job;
//! this module decides what of it is listed, once, and in which order.

use vstd::prelude::*;

use crate::text::{decimal, push_decimal};

verus! {

broadcast use vstd::string::group_string_axioms;

/// Transport protocol of a listed socket.
#[derive(Clone, Copy, Debug, PartialEq, Eq, Structural, Hash)]
pub enum Proto {
    Tcp,
    Udp,
}

impl Proto {
    /// The protocol's name as shown in tables and matched by the filter.
    pub open spec fn label(self) -> Seq<char> {
        match self {
            Proto::Tcp => seq!['T', 'C', 'P'],
            Proto::Udp => seq!['U', 'D', 'P'],
        }
    }

    /// The protocol's name: `TCP` or `UDP`.
    pub fn to_string(&self) -> (s: String)
        ensures
            s@ == self.label(),
    {
        match self {
            Proto::Tcp => {
                let s = "TCP".to_string();
                proof {
                    reveal_strlit("TCP");
                }
                s
            },
            Proto::Udp => {
                let s = "UDP".to_string();
                proof {
                    reveal_strlit("UDP");
                }
                s
            },
        }
    }
}

/// State of a TCP socket, as the socket table reports it.
#[derive(Clone, Copy, Debug, PartialEq, Eq, Structural)]
pub enum TcpState {
    Closed,
    Listen,
    SynSent,
    SynReceived,
    Established,
    FinWait1,
    FinWait2,
    CloseWait,
    Closing,
    LastAck,
    TimeWait,
    DeleteTcb,
    Unknown,
}

/// Protocol-specific part of a socket.
#[derive(Clone, Copy, Debug, PartialEq, Eq, Structural)]
pub enum SocketKind {
    Tcp(TcpState),
    Udp,
}

/// One row of the system's socket table.
pub struct Socket {
    pub kind: SocketKind,
    pub port: u16,
    /// Processes that hold the socket open.
    pub pids: Vec<u32>,
}

/// What was found out about a process that holds a socket.
pub struct Owner {
    pub name: String,
    pub user: String,
    /// Resident memory, in bytes.
    pub memory: u64,
}

/// The result of looking one process up; `owner` is `None` where the
/// process could not be inspected.
pub struct Lookup {
    pub pid: u32,
    pub owner: Option<Owner>,
}

/// One process holding one port.
pub struct PortEntry {
    pub port: u16,
    pub proto: Proto,
    pub pid: u32,
    pub name: String,
    pub user: String,
    pub memory: u64,
}

/// A `PortEntry` as plain values.
pub struct PortEntryView {
    pub port: u16,
    pub proto: Proto,
    pub pid: u32,
    pub name: Seq<char>,
    pub user: Seq<char>,
    pub memory: u64,
}

impl View for PortEntry {
    type V = PortEntryView;

    open spec fn view(&self) -> PortEntryView {
        PortEntryView {
            port: self.port,
            proto: self.proto,
            pid: self.pid,
            name: self.name@,
            user: self.user@,
            memory: self.memory,
        }
    }
}

/// The filter text of an entry: port, process, user and protocol,
/// separated by single spaces.
pub open spec fn haystack_of(e: PortEntryView) -> Seq<char> {
    decimal(e.port as nat) + seq![' '] + e.name + seq![' '] + e.user + seq![' '] + e.proto.label()
}

impl PortEntry {
    /// The text the fuzzy filter matches against.
    pub fn haystack(&self) -> (s: String)
        ensures
            s@ == haystack_of(self@),
    {
        let mut s = String::new();
        push_decimal(&mut s, self.port as u64);
        s.append(" ");
        s.append(self.name.as_str());
        s.append(" ");
        s.append(self.user.as_str());
        s.append(" ");
        let p = self.proto.to_string();
        s.append(p.as_str());
        proof {
            reveal_strlit(" ");
        }
        s
    }
}

/// The protocol under which a socket is listed: TCP sockets only while
/// listening (any other state is a connection, not an owner of the port),
/// UDP sockets always.
pub open spec fn listed_proto(kind: SocketKind) -> Option<Proto> {
    match kind {
        SocketKind::Tcp(TcpState::Listen) => Some(Proto::Tcp),
        SocketKind::Tcp(_) => None,
        SocketKind::Udp => Some(Proto::Udp),
    }
}

/// Whether a socket is listed when looking at port `only` (or at every port
/// when `only` is `None`). Port 0 is an unbound socket and never listed.
pub open spec fn qualifies(s: Socket, only: Option<u16>) -> bool {
    &&& listed_proto(s.kind) is Some
    &&& s.port != 0
    &&& (only matches Some(wanted) ==> wanted == s.port)
}

/// Port, protocol and process that pid `b` of socket `a` stands for.
pub open spec fn socket_triple(sockets: Seq<Socket>, a: int, b: int) -> (u16, Proto, u32) {
    (sockets[a].port, listed_proto(sockets[a].kind)->0, sockets[a].pids@[b])
}

/// `t` is the triple of some qualifying socket and pid that comes before
/// pid `b_end` of socket `a_end` in scan order.
pub open spec fn listed_before(sockets: Seq<Socket>, only: Option<u16>, a_end: int, b_end: int, t: (u16, Proto, u32)) -> bool {
    exists|a: int, b: int|
        #![trigger socket_triple(sockets, a, b)]
        0 <= a < sockets.len() && 0 <= b < sockets[a].pids@.len() && (a < a_end || (a == a_end && b < b_end))
            && qualifies(sockets[a], only) && socket_triple(sockets, a, b) == t
}

/// `t` is the port, protocol and process of some listed socket.
pub open spec fn is_listed(sockets: Seq<Socket>, only: Option<u16>, t: (u16, Proto, u32)) -> bool {
    listed_before(sockets, only, sockets.len() as int, 0, t)
}

/// In scan order, `t1` turns up before every place where `t2` does.
pub open spec fn seen_first(sockets: Seq<Socket>, only: Option<u16>, t1: (u16, Proto, u32), t2: (u16, Proto, u32)) -> bool {
    forall|a: int, b: int|
        #![trigger socket_triple(sockets, a, b)]
        0 <= a < sockets.len() && 0 <= b < sockets[a].pids@.len() && qualifies(sockets[a], only)
            && socket_triple(sockets, a, b) == t2 ==> listed_before(sockets, only, a, b, t1)
}

/// Entries with the same port and process (one TCP, one UDP) keep the order
/// in which the scan first came upon them.
pub open spec fn ties_in_scan_order(sockets: Seq<Socket>, only: Option<u16>, r: Seq<PortEntryView>) -> bool {
    forall|i: int, j: int|
        #![trigger r[i], r[j]]
        0 <= i < j < r.len() && r[i].port == r[j].port && r[i].pid == r[j].pid ==> seen_first(
            sockets,
            only,
            triple_of(r[i]),
            triple_of(r[j]),
        )
}

/// The first lookup made for `pid`, if any.
pub open spec fn owner_of(lookups: Seq<Lookup>, pid: u32) -> Option<Owner>
    decreases lookups.len(),
{
    if lookups.len() == 0 {
        None
    } else if lookups[0].pid == pid {
        lookups[0].owner
    } else {
        owner_of(lookups.drop_first(), pid)
    }
}

/// The entry shows what the lookup of its process found, or `?`, `?` and no
/// memory where nothing was found.
pub open spec fn shows_owner(e: PortEntryView, lookups: Seq<Lookup>) -> bool {
    match owner_of(lookups, e.pid) {
        Some(o) => e.name == o.name@ && e.user == o.user@ && e.memory == o.memory,
        None => e.name == seq!['?'] && e.user == seq!['?'] && e.memory == 0,
    }
}

/// Port, protocol and process of an entry.
pub open spec fn triple_of(e: PortEntryView) -> (u16, Proto, u32) {
    (e.port, e.proto, e.pid)
}

/// Scan order: by port, then by process.
pub open spec fn key_le(port1: u16, pid1: u32, port2: u16, pid2: u32) -> bool {
    port1 < port2 || (port1 == port2 && pid1 <= pid2)
}

/// The entries as plain values.
pub open spec fn views(v: Seq<PortEntry>) -> Seq<PortEntryView> {
    v.map_values(|e: PortEntry| e@)
}

/// Ordered by port then process, and no port, protocol and process twice.
pub open spec fn sorted_unique(r: Seq<PortEntryView>) -> bool {
    &&& forall|i: int, j: int|
        0 <= i < j < r.len() ==> key_le(r[i].port, r[i].pid, r[j].port, r[j].pid)
    &&& forall|i: int, j: int| 0 <= i < j < r.len() ==> triple_of(r[i]) != triple_of(r[j])
}

/// `r` lists, once each and in scan order, exactly the triples listed before
/// pid `b` of socket `a`, each with its owner's details.
pub open spec fn collected_before(
    sockets: Seq<Socket>,
    only: Option<u16>,
    lookups: Seq<Lookup>,
    a: int,
    b: int,
    r: Seq<PortEntryView>,
) -> bool {
    &&& sorted_unique(r)
    &&& ties_in_scan_order(sockets, only, r)
    &&& forall|i: int|
        0 <= i < r.len() ==> listed_before(sockets, only, a, b, triple_of(#[trigger] r[i]))
            && shows_owner(r[i], lookups)
    &&& forall|t: (u16, Proto, u32)|
        listed_before(sockets, only, a, b, t) ==> exists|i: int|
            0 <= i < r.len() && triple_of(#[trigger] r[i]) == t
}

/// `r` is what the scan shows for `sockets`: every listed port, protocol and
/// process exactly once, ordered by port then process (and, for the same port
/// and process, in the order the scan came upon them), with its owner's
/// details.
pub open spec fn collected(sockets: Seq<Socket>, only: Option<u16>, lookups: Seq<Lookup>, r: Seq<PortEntryView>) -> bool {
    &&& sorted_unique(r)
    &&& ties_in_scan_order(sockets, only, r)
    &&& forall|i: int|
        0 <= i < r.len() ==> is_listed(sockets, only, triple_of(#[trigger] r[i])) && shows_owner(
            r[i],
            lookups,
        )
    &&& forall|t: (u16, Proto, u32)|
        is_listed(sockets, only, t) ==> exists|i: int| 0 <= i < r.len() && triple_of(#[trigger] r[i]) == t
}

proof fn lemma_listed_step(sockets: Seq<Socket>, only: Option<u16>, a: int, b: int, t: (u16, Proto, u32))
    requires
        0 <= a < sockets.len(),
        0 <= b < sockets[a].pids@.len(),
        qualifies(sockets[a], only),
    ensures
        listed_before(sockets, only, a, b + 1, t) <==> (listed_before(sockets, only, a, b, t)
            || socket_triple(sockets, a, b) == t),
{
    if listed_before(sockets, only, a, b + 1, t) {
        let (x, y) = choose|x: int, y: int|
            #![trigger socket_triple(sockets, x, y)]
            0 <= x < sockets.len() && 0 <= y < sockets[x].pids@.len() && (x < a || (x == a && y < b + 1))
                && qualifies(sockets[x], only) && socket_triple(sockets, x, y) == t;
        if !(x == a && y == b) {
            assert(listed_before(sockets, only, a, b, t));
        }
    }
    if socket_triple(sockets, a, b) == t {
        assert(listed_before(sockets, only, a, b + 1, t));
    }
    if listed_before(sockets, only, a, b, t) {
        let (x, y) = choose|x: int, y: int|
            #![trigger socket_triple(sockets, x, y)]
            0 <= x < sockets.len() && 0 <= y < sockets[x].pids@.len() && (x < a || (x == a && y < b))
                && qualifies(sockets[x], only) && socket_triple(sockets, x, y) == t;
        assert(listed_before(sockets, only, a, b + 1, t));
    }
}

proof fn lemma_listed_next_socket(sockets: Seq<Socket>, only: Option<u16>, a: int, t: (u16, Proto, u32))
    requires
        0 <= a < sockets.len(),
    ensures
        listed_before(sockets, only, a + 1, 0, t) <==> listed_before(
            sockets,
            only,
            a,
            if qualifies(sockets[a], only) {
                sockets[a].pids@.len() as int
            } else {
                0
            },
            t,
        ),
{
    let e = if qualifies(sockets[a], only) {
        sockets[a].pids@.len() as int
    } else {
        0
    };
    if listed_before(sockets, only, a + 1, 0, t) {
        let (x, y) = choose|x: int, y: int|
            #![trigger socket_triple(sockets, x, y)]
            0 <= x < sockets.len() && 0 <= y < sockets[x].pids@.len() && (x < a + 1 || (x == a + 1 && y < 0))
                && qualifies(sockets[x], only) && socket_triple(sockets, x, y) == t;
        assert(listed_before(sockets, only, a, e, t));
    }
    if listed_before(sockets, only, a, e, t) {
        let (x, y) = choose|x: int, y: int|
            #![trigger socket_triple(sockets, x, y)]
            0 <= x < sockets.len() && 0 <= y < sockets[x].pids@.len() && (x < a || (x == a && y < e))
                && qualifies(sockets[x], only) && socket_triple(sockets, x, y) == t;
        assert(listed_before(sockets, only, a + 1, 0, t));
    }
}

fn listed_proto_of(kind: SocketKind) -> (p: Option<Proto>)
    ensures
        p == listed_proto(kind),
{
    match kind {
        SocketKind::Tcp(TcpState::Listen) => Some(Proto::Tcp),
        SocketKind::Tcp(_) => None,
        SocketKind::Udp => Some(Proto::Udp),
    }
}

fn question_mark() -> (s: String)
    ensures
        s@ == seq!['?'],
{
    let s = "?".to_string();
    proof {
        reveal_strlit("?");
    }
    s
}

/// The entry for `port`, `proto` and `pid`, with what the first lookup of
/// `pid` found.
fn entry_for(port: u16, proto: Proto, pid: u32, lookups: &Vec<Lookup>) -> (e: PortEntry)
    ensures
        triple_of(e@) == (port, proto, pid),
        shows_owner(e@, lookups@),
{
    let mut i: usize = 0;
    assert(lookups@.skip(0) == lookups@);
    while i < lookups.len()
        invariant
            i <= lookups@.len(),
            owner_of(lookups@, pid) == owner_of(lookups@.skip(i as int), pid),
        decreases lookups@.len() - i,
    {
        assert(lookups@.skip(i as int).drop_first() == lookups@.skip(i + 1));
        if lookups[i].pid == pid {
            match &lookups[i].owner {
                Some(o) => {
                    return PortEntry {
                        port,
                        proto,
                        pid,
                        name: o.name.clone(),
                        user: o.user.clone(),
                        memory: o.memory,
                    };
                },
                None => {
                    return PortEntry {
                        port,
                        proto,
                        pid,
                        name: question_mark(),
                        user: question_mark(),
                        memory: 0,
                    };
                },
            }
        }
        i = i + 1;
    }
    assert(lookups@.skip(i as int).len() == 0);
    PortEntry { port, proto, pid, name: question_mark(), user: question_mark(), memory: 0 }
}

fn has_triple(out: &Vec<PortEntry>, port: u16, proto: Proto, pid: u32) -> (found: bool)
    ensures
        found <==> exists|i: int|
            0 <= i < out@.len() && triple_of(#[trigger] views(out@)[i]) == (port, proto, pid),
{
    let mut i: usize = 0;
    while i < out.len()
        invariant
            i <= out@.len(),
            forall|k: int| 0 <= k < i ==> triple_of(#[trigger] views(out@)[k]) != (port, proto, pid),
        decreases out@.len() - i,
    {
        let e = &out[i];
        if e.port == port && e.proto == proto && e.pid == pid {
            assert(triple_of(views(out@)[i as int]) == (port, proto, pid));
            return true;
        }
        i = i + 1;
    }
    false
}

/// Where an entry with this port and process goes: after every entry that
/// sorts before it or level with it.
fn insertion_point(out: &Vec<PortEntry>, port: u16, pid: u32) -> (pos: usize)
    requires
        sorted_unique(views(out@)),
    ensures
        pos <= out@.len(),
        forall|i: int| 0 <= i < pos ==> key_le(out@[i].port, out@[i].pid, port, pid),
        forall|i: int| pos <= i < out@.len() ==> !key_le(out@[i].port, out@[i].pid, port, pid),
{
    let mut i: usize = 0;
    while i < out.len()
        invariant
            i <= out@.len(),
            sorted_unique(views(out@)),
            forall|k: int| 0 <= k < i ==> key_le(out@[k].port, out@[k].pid, port, pid),
        decreases out@.len() - i,
    {
        if !(out[i].port < port || (out[i].port == port && out[i].pid <= pid)) {
            assert forall|k: int| i <= k < out@.len() implies !key_le(out@[k].port, out@[k].pid, port, pid) by {
                if k > i {
                    assert(views(out@)[i as int].port == out@[i as int].port);
                    assert(views(out@)[k].port == out@[k].port);
                    assert(key_le(views(out@)[i as int].port, views(out@)[i as int].pid, views(out@)[k].port, views(out@)[k].pid));
                }
            }
            return i;
        }
        i = i + 1;
    }
    i
}

/// A triple already listed before a point in the scan turns up before every
/// place where a triple not yet listed there does.
proof fn lemma_seen_first_new(
    sockets: Seq<Socket>,
    only: Option<u16>,
    a: int,
    b: int,
    t1: (u16, Proto, u32),
    t2: (u16, Proto, u32),
)
    requires
        listed_before(sockets, only, a, b, t1),
        !listed_before(sockets, only, a, b, t2),
    ensures
        seen_first(sockets, only, t1, t2),
{
    let (x, y) = choose|x: int, y: int|
        #![trigger socket_triple(sockets, x, y)]
        0 <= x < sockets.len() && 0 <= y < sockets[x].pids@.len() && (x < a || (x == a && y < b))
            && qualifies(sockets[x], only) && socket_triple(sockets, x, y) == t1;
    assert forall|a2: int, b2: int|
        0 <= a2 < sockets.len() && 0 <= b2 < sockets[a2].pids@.len() && qualifies(sockets[a2], only)
            && #[trigger] socket_triple(sockets, a2, b2) == t2 implies listed_before(sockets, only, a2, b2, t1) by {
        if a2 < a || (a2 == a && b2 < b) {
            assert(listed_before(sockets, only, a, b, t2));
        }
        assert(socket_triple(sockets, x, y) == t1);
    }
}

proof fn lemma_add_pid(
    sockets: Seq<Socket>,
    only: Option<u16>,
    lookups: Seq<Lookup>,
    a: int,
    b: int,
    r: Seq<PortEntryView>,
    added: bool,
    pos: int,
    e: PortEntryView,
    r2: Seq<PortEntryView>,
)
    requires
        0 <= a < sockets.len(),
        0 <= b < sockets[a].pids@.len(),
        qualifies(sockets[a], only),
        collected_before(sockets, only, lookups, a, b, r),
        triple_of(e) == socket_triple(sockets, a, b),
        shows_owner(e, lookups),
        added <==> !(exists|i: int| 0 <= i < r.len() && triple_of(#[trigger] r[i]) == triple_of(e)),
        added ==> 0 <= pos <= r.len() && r2 == r.insert(pos, e),
        added ==> forall|i: int| 0 <= i < pos ==> key_le(r[i].port, r[i].pid, e.port, e.pid),
        added ==> forall|i: int| pos <= i < r.len() ==> !key_le(r[i].port, r[i].pid, e.port, e.pid),
        !added ==> r2 == r,
    ensures
        collected_before(sockets, only, lookups, a, b + 1, r2),
{
    assert forall|t: (u16, Proto, u32)| #[trigger] listed_before(sockets, only, a, b + 1, t) <==> (listed_before(sockets, only, a, b, t) || socket_triple(sockets, a, b) == t) by {
        lemma_listed_step(sockets, only, a, b, t);
    }
    if added {
        assert forall|i: int, j: int| 0 <= i < j < r2.len() implies key_le(r2[i].port, r2[i].pid, r2[j].port, r2[j].pid) by {
            if j < pos {
            } else if j == pos {
            } else if i < pos {
                assert(r2[j] == r[j - 1]);
                assert(!key_le(r[j - 1].port, r[j - 1].pid, e.port, e.pid));
            } else if i == pos {
                assert(r2[j] == r[j - 1]);
                assert(!key_le(r[j - 1].port, r[j - 1].pid, e.port, e.pid));
            } else {
                assert(r2[j] == r[j - 1]);
                assert(r2[i] == r[i - 1]);
            }
        }
        assert forall|i: int, j: int| 0 <= i < j < r2.len() implies triple_of(r2[i]) != triple_of(r2[j]) by {
            if i == pos {
                assert(r2[j] == r[j - 1]);
            } else if j == pos {
                assert(r2[i] == r[i]);
            } else {
                let oi = if i < pos { i } else { i - 1 };
                let oj = if j < pos { j } else { j - 1 };
                assert(r2[i] == r[oi]);
                assert(r2[j] == r[oj]);
            }
        }
        assert forall|i: int, j: int|
            #![trigger r2[i], r2[j]]
            0 <= i < j < r2.len() && r2[i].port == r2[j].port && r2[i].pid == r2[j].pid implies seen_first(
                sockets,
                only,
                triple_of(r2[i]),
                triple_of(r2[j]),
            ) by {
            if j == pos {
                assert(r2[i] == r[i]);
                assert(listed_before(sockets, only, a, b, triple_of(r[i])));
                lemma_seen_first_new(sockets, only, a, b, triple_of(r[i]), triple_of(e));
            } else if i == pos {
                assert(r2[j] == r[j - 1]);
                assert(!key_le(r[j - 1].port, r[j - 1].pid, e.port, e.pid));
            } else {
                let oi = if i < pos { i } else { i - 1 };
                let oj = if j < pos { j } else { j - 1 };
                assert(r2[i] == r[oi]);
                assert(r2[j] == r[oj]);
            }
        }
        assert forall|i: int| 0 <= i < r2.len() implies listed_before(sockets, only, a, b + 1, triple_of(#[trigger] r2[i]))
            && shows_owner(r2[i], lookups) by {
            if i < pos {
                assert(r2[i] == r[i]);
            } else if i > pos {
                assert(r2[i] == r[i - 1]);
            }
        }
        assert forall|t: (u16, Proto, u32)| #[trigger] listed_before(sockets, only, a, b + 1, t) implies exists|i: int|
            0 <= i < r2.len() && triple_of(#[trigger] r2[i]) == t by {
            if t == triple_of(e) {
                assert(triple_of(r2[pos]) == t);
            } else {
                let i = choose|i: int| 0 <= i < r.len() && triple_of(#[trigger] r[i]) == t;
                if i < pos {
                    assert(r2[i] == r[i]);
                    assert(triple_of(r2[i]) == t);
                } else {
                    assert(r2[i + 1] == r[i]);
                    assert(triple_of(r2[i + 1]) == t);
                }
            }
        }
    } else {
        assert forall|t: (u16, Proto, u32)| #[trigger] listed_before(sockets, only, a, b + 1, t) implies exists|i: int|
            0 <= i < r2.len() && triple_of(#[trigger] r2[i]) == t by {
            if t != triple_of(e) {
                assert(listed_before(sockets, only, a, b, t));
            }
        }
        assert forall|i: int| 0 <= i < r2.len() implies listed_before(sockets, only, a, b + 1, triple_of(#[trigger] r2[i]))
            && shows_owner(r2[i], lookups) by {
            assert(listed_before(sockets, only, a, b, triple_of(r2[i])));
        }
    }
}

proof fn lemma_next_socket(
    sockets: Seq<Socket>,
    only: Option<u16>,
    lookups: Seq<Lookup>,
    a: int,
    r: Seq<PortEntryView>,
)
    requires
        0 <= a < sockets.len(),
        collected_before(
            sockets,
            only,
            lookups,
            a,
            if qualifies(sockets[a], only) {
                sockets[a].pids@.len() as int
            } else {
                0
            },
            r,
        ),
    ensures
        collected_before(sockets, only, lookups, a + 1, 0, r),
{
    let e = if qualifies(sockets[a], only) {
        sockets[a].pids@.len() as int
    } else {
        0
    };
    assert forall|t: (u16, Proto, u32)| #[trigger] listed_before(sockets, only, a + 1, 0, t) <==> listed_before(sockets, only, a, e, t) by {
        lemma_listed_next_socket(sockets, only, a, t);
    }
    assert forall|i: int| 0 <= i < r.len() implies listed_before(sockets, only, a + 1, 0, triple_of(#[trigger] r[i]))
        && shows_owner(r[i], lookups) by {
        assert(listed_before(sockets, only, a, e, triple_of(r[i])));
    }
    assert forall|t: (u16, Proto, u32)| #[trigger] listed_before(sockets, only, a + 1, 0, t) implies exists|i: int|
        0 <= i < r.len() && triple_of(#[trigger] r[i]) == t by {
        assert(listed_before(sockets, only, a, e, t));
    }
}

/// Every listed TCP socket and every bound UDP socket among `sockets`, on
/// port `only` where that is given: one entry per port, protocol and
/// process, ordered by port then process (entries level on both in the order
/// the scan came upon them), with what `lookups` found out about the process.
pub fn collect(sockets: &Vec<Socket>, only: Option<u16>, lookups: &Vec<Lookup>) -> (out: Vec<PortEntry>)
    ensures
        collected(sockets@, only, lookups@, views(out@)),
{
    let mut out: Vec<PortEntry> = Vec::new();
    let mut a: usize = 0;
    assert(views(out@) =~= Seq::<PortEntryView>::empty());
    while a < sockets.len()
        invariant
            a <= sockets@.len(),
            collected_before(sockets@, only, lookups@, a as int, 0, views(out@)),
        decreases sockets@.len() - a,
    {
        let sock = &sockets[a];
        let proto = listed_proto_of(sock.kind);
        let port = sock.port;
        let wanted = match only {
            Some(w) => w == port,
            None => true,
        };
        if proto.is_some() && port != 0 && wanted {
            let proto = proto.unwrap();
            assert(qualifies(sockets@[a as int], only));
            let mut b: usize = 0;
            while b < sock.pids.len()
                invariant
                    a < sockets@.len(),
                    sock == &sockets@[a as int],
                    qualifies(sockets@[a as int], only),
                    proto == listed_proto(sock.kind)->0,
                    port == sock.port,
                    b <= sock.pids@.len(),
                    collected_before(sockets@, only, lookups@, a as int, b as int, views(out@)),
                decreases sock.pids@.len() - b,
            {
                let pid = sock.pids[b];
                let ghost before = views(out@);
                let present = has_triple(&out, port, proto, pid);
                let entry = entry_for(port, proto, pid, lookups);
                let ghost ev = entry@;
                let mut pos: usize = 0;
                if !present {
                    pos = insertion_point(&out, port, pid);
                    out.insert(pos, entry);
                    assert(views(out@) =~= before.insert(pos as int, ev));
                }
                proof {
                    lemma_add_pid(sockets@, only, lookups@, a as int, b as int, before, !present, pos as int, ev, views(out@));
                }
                b = b + 1;
            }
        }
        proof {
            lemma_next_socket(sockets@, only, lookups@, a as int, views(out@));
        }
        a = a + 1;
    }
    out
}

/// `pid` holds some socket that is listed when looking at `only`.
pub open spec fn holds_listed(sockets: Seq<Socket>, only: Option<u16>, pid: u32) -> bool {
    exists|a: int, b: int|
        #![trigger socket_triple(sockets, a, b)]
        0 <= a < sockets.len() && 0 <= b < sockets[a].pids@.len() && qualifies(sockets[a], only)
            && socket_triple(sockets, a, b).2 == pid
}

/// The processes worth looking up before collecting: each process that holds
/// a listed socket, once.
pub fn pids_to_resolve(sockets: &Vec<Socket>, only: Option<u16>) -> (pids: Vec<u32>)
    ensures
        forall|pid: u32| pids@.contains(pid) <==> holds_listed(sockets@, only, pid),
        forall|i: int, j: int| 0 <= i < j < pids@.len() ==> pids@[i] != pids@[j],
{
    let mut pids: Vec<u32> = Vec::new();
    let mut a: usize = 0;
    while a < sockets.len()
        invariant
            a <= sockets@.len(),
            forall|i: int, j: int| 0 <= i < j < pids@.len() ==> pids@[i] != pids@[j],
            forall|pid: u32| pids@.contains(pid) <==> exists|x: int, y: int|
                #![trigger socket_triple(sockets@, x, y)]
                0 <= x < a && 0 <= y < sockets@[x].pids@.len() && qualifies(sockets@[x], only)
                    && socket_triple(sockets@, x, y).2 == pid,
        decreases sockets@.len() - a,
    {
        let sock = &sockets[a];
        let proto = listed_proto_of(sock.kind);
        let wanted = match only {
            Some(w) => w == sock.port,
            None => true,
        };
        let q = proto.is_some() && sock.port != 0 && wanted;
        assert(q == qualifies(sockets@[a as int], only));
        let mut b: usize = 0;
        while b < sock.pids.len()
            invariant
                a < sockets@.len(),
                sock == &sockets@[a as int],
                q == qualifies(sockets@[a as int], only),
                b <= sock.pids@.len(),
                forall|i: int, j: int| 0 <= i < j < pids@.len() ==> pids@[i] != pids@[j],
                forall|pid: u32| pids@.contains(pid) <==> exists|x: int, y: int|
                    #![trigger socket_triple(sockets@, x, y)]
                    0 <= x < sockets@.len() && 0 <= y < sockets@[x].pids@.len() && (x < a || (x == a && y < b && q))
                        && qualifies(sockets@[x], only) && socket_triple(sockets@, x, y).2 == pid,
            decreases sock.pids@.len() - b,
        {
            let pid = sock.pids[b];
            let ghost before = pids@;
            if q {
                let mut seen = false;
                let mut i: usize = 0;
                while i < pids.len()
                    invariant
                        i <= pids@.len(),
                        seen <==> exists|k: int| 0 <= k < i && pids@[k] == pid,
                    decreases pids@.len() - i,
                {
                    if pids[i] == pid {
                        seen = true;
                    }
                    i = i + 1;
                }
                if !seen {
                    pids.push(pid);
                }
            }
            assert forall|p: u32| pids@.contains(p) <==> exists|x: int, y: int|
                #![trigger socket_triple(sockets@, x, y)]
                0 <= x < sockets@.len() && 0 <= y < sockets@[x].pids@.len() && (x < a || (x == a && y < b + 1 && q))
                    && qualifies(sockets@[x], only) && socket_triple(sockets@, x, y).2 == p by {
                if q && p == pid {
                    assert(socket_triple(sockets@, a as int, b as int).2 == p);
                    if before.contains(p) {
                    } else {
                        assert(pids@[pids@.len() - 1] == p);
                    }
                } else {
                    if pids@.contains(p) {
                        if !before.contains(p) {
                            assert(pids@.len() == before.len() + 1);
                            let k = choose|k: int| 0 <= k < pids@.len() && pids@[k] == p;
                            if k < before.len() {
                                assert(before[k] == p);
                            }
                        }
                    }
                    if before.contains(p) {
                        let k = choose|k: int| 0 <= k < before.len() && before[k] == p;
                        assert(pids@[k] == p);
                    }
                }
            }
            b = b + 1;
        }
        assert forall|p: u32| pids@.contains(p) <==> exists|x: int, y: int|
            #![trigger socket_triple(sockets@, x, y)]
            0 <= x < a + 1 && 0 <= y < sockets@[x].pids@.len() && qualifies(sockets@[x], only)
                && socket_triple(sockets@, x, y).2 == p by {
            if pids@.contains(p) {
                let (x, y) = choose|x: int, y: int|
                    #![trigger socket_triple(sockets@, x, y)]
                    0 <= x < sockets@.len() && 0 <= y < sockets@[x].pids@.len() && (x < a || (x == a && y < b && q))
                        && qualifies(sockets@[x], only) && socket_triple(sockets@, x, y).2 == p;
            }
            if exists|x: int, y: int|
                #![trigger socket_triple(sockets@, x, y)]
                0 <= x < a + 1 && 0 <= y < sockets@[x].pids@.len() && qualifies(sockets@[x], only)
                    && socket_triple(sockets@, x, y).2 == p {
                let (x, y) = choose|x: int, y: int|
                    #![trigger socket_triple(sockets@, x, y)]
                    0 <= x < a + 1 && 0 <= y < sockets@[x].pids@.len() && qualifies(sockets@[x], only)
                        && socket_triple(sockets@, x, y).2 == p;
                assert(socket_triple(sockets@, x, y).2 == p);
            }
        }
        a = a + 1;
    }
    pids
}

/// Every listening TCP socket and every bound UDP socket, sorted by port.
pub fn scan(sockets: &Vec<Socket>, lookups: &Vec<Lookup>) -> (out: Vec<PortEntry>)
    ensures
        collected(sockets@, None, lookups@, views(out@)),
        forall|i: int| 0 <= i < out@.len() ==> out@[i].port != 0,
{
    let out = collect(sockets, None, lookups);
    assert forall|i: int| 0 <= i < out@.len() implies out@[i].port != 0 by {
        assert(views(out@)[i].port == out@[i].port);
        assert(is_listed(sockets@, None, triple_of(views(out@)[i])));
    }
    out
}

/// Just the sockets bound to `port`.
pub fn scan_port(port: u16, sockets: &Vec<Socket>, lookups: &Vec<Lookup>) -> (out: Vec<PortEntry>)
    ensures
        collected(sockets@, Some(port), lookups@, views(out@)),
        forall|i: int| 0 <= i < out@.len() ==> out@[i].port == port,
        port == 0 ==> out@.len() == 0,
{
    let out = collect(sockets, Some(port), lookups);
    assert forall|i: int| 0 <= i < out@.len() implies out@[i].port == port by {
        assert(views(out@)[i].port == out@[i].port);
        assert(is_listed(sockets@, Some(port), triple_of(views(out@)[i])));
    }
    if port == 0 && out.len() > 0 {
        assert(views(out@)[0].port == out@[0].port);
        assert(is_listed(sockets@, Some(port), triple_of(views(out@)[0])));
    }
    out
}

/// Reading the socket table failed; `cause` is the system's description.
pub struct ScanError {
    pub cause: String,
}

impl ScanError {
    /// What failed, without the underlying cause.
    pub fn message(&self) -> (s: String)
        ensures
            s@ == "failed to enumerate network sockets"@,
    {
        "failed to enumerate network sockets".to_string()
    }
}

proof fn lemma_listed_on_port(sockets: Seq<Socket>, port: u16, t: (u16, Proto, u32))
    ensures
        is_listed(sockets, Some(port), t) <==> (is_listed(sockets, None, t) && t.0 == port),
{
    if is_listed(sockets, Some(port), t) {
        let (a, b) = choose|a: int, b: int|
            #![trigger socket_triple(sockets, a, b)]
            0 <= a < sockets.len() && 0 <= b < sockets[a].pids@.len() && (a < sockets.len() || (a == sockets.len()
                && b < 0)) && qualifies(sockets[a], Some(port)) && socket_triple(sockets, a, b) == t;
        assert(qualifies(sockets[a], None));
    }
    if is_listed(sockets, None, t) && t.0 == port {
        let (a, b) = choose|a: int, b: int|
            #![trigger socket_triple(sockets, a, b)]
            0 <= a < sockets.len() && 0 <= b < sockets[a].pids@.len() && (a < sockets.len() || (a == sockets.len()
                && b < 0)) && qualifies(sockets[a], None) && socket_triple(sockets, a, b) == t;
        assert(qualifies(sockets[a], Some(port)));
    }
}

proof fn lemma_same_triple_same_entry(e1: PortEntryView, e2: PortEntryView, lookups: Seq<Lookup>)
    requires
        triple_of(e1) == triple_of(e2),
        shows_owner(e1, lookups),
        shows_owner(e2, lookups),
    ensures
        e1 == e2,
{
}

/// `e` is one of the entries of `r`.
pub open spec fn shown_in(e: PortEntryView, r: Seq<PortEntryView>) -> bool {
    exists|j: int| 0 <= j < r.len() && r[j] == e
}

/// Looking at one port shows exactly the entries that looking at every port
/// shows on that port.
pub proof fn lemma_port_scan_is_slice_of_full_scan(
    sockets: Seq<Socket>,
    lookups: Seq<Lookup>,
    port: u16,
    all: Seq<PortEntryView>,
    one: Seq<PortEntryView>,
)
    requires
        collected(sockets, None, lookups, all),
        collected(sockets, Some(port), lookups, one),
    ensures
        forall|i: int| 0 <= i < one.len() ==> shown_in(#[trigger] one[i], all),
        forall|j: int| 0 <= j < all.len() && (#[trigger] all[j]).port == port ==> shown_in(all[j], one),
{
    assert forall|i: int| 0 <= i < one.len() implies shown_in(#[trigger] one[i], all) by {
        lemma_listed_on_port(sockets, port, triple_of(one[i]));
        let j = choose|j: int| 0 <= j < all.len() && triple_of(#[trigger] all[j]) == triple_of(one[i]);
        lemma_same_triple_same_entry(all[j], one[i], lookups);
        assert(all[j] == one[i]);
    }
    assert forall|j: int| 0 <= j < all.len() && (#[trigger] all[j]).port == port implies shown_in(all[j], one) by {
        lemma_listed_on_port(sockets, port, triple_of(all[j]));
        let i = choose|i: int| 0 <= i < one.len() && triple_of(#[trigger] one[i]) == triple_of(all[j]);
        lemma_same_triple_same_entry(all[j], one[i], lookups);
        assert(one[i] == all[j]);
    }
}

} // verus!

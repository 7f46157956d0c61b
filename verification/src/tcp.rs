//! TCP connections: which belong to a row, and how they are closed.

use crate::number::{decimal, format_u64};
use crate::order::{sorted, stable_sort};
use crate::text::{comes_before, text_less, text_order_is_total};
use vstd::prelude::*;

verus! {

/// The state that a connection is set to in order to close it.
pub const MIB_TCP_STATE_DELETE_TCB: u32 = 12;

/// What the system answers a caller without the rights that a call needs.
pub const ERROR_ACCESS_DENIED: u32 = 5;

/// An address, byte by byte as it is sent.
#[derive(Debug, Clone, Copy)]
pub enum IpAddress {
    V4([u8; 4]),
    V6([u8; 16]),
}

/// One end of a connection.
#[derive(Debug, Clone, Copy)]
pub struct Endpoint {
    pub addr: IpAddress,
    pub port: u16,
}

/// What tells one connection from another.
#[derive(Debug, Clone, Copy)]
pub struct TcpConnectionKey {
    pub ipv6: bool,
    pub local: Endpoint,
    pub remote: Endpoint,
}

/// A connection: whose it is, what its other end and its state are shown as, and whether its
/// state is one that can be closed.
#[derive(Debug)]
pub struct TcpConnection {
    pub key: TcpConnectionKey,
    pub pid: u32,
    pub remote_label: String,
    pub state_label: String,
    pub disconnectable: bool,
}

impl Clone for TcpConnection {
    fn clone(&self) -> (r: Self)
        ensures
            r == *self,
    {
        TcpConnection {
            key: self.key,
            pid: self.pid,
            remote_label: self.remote_label.clone(),
            state_label: self.state_label.clone(),
            disconnectable: self.disconnectable,
        }
    }
}

/// A row of the system's connection table, addresses and ports as the table keeps them.
#[derive(Debug, Clone, Copy, PartialEq, Eq, Structural)]
pub struct MibTcpRow {
    pub state: u32,
    pub local_addr: u32,
    pub local_port: u32,
    pub remote_addr: u32,
    pub remote_port: u32,
}

/// Why a connection was not closed.
#[derive(Debug, Clone, Copy, PartialEq, Eq, Structural)]
pub enum CloseTcpError {
    AccessDenied,
    UnsupportedIpv6,
    OsError(u32),
}

/// What a failure says.
pub open spec fn close_message(e: CloseTcpError) -> Seq<char> {
    match e {
        CloseTcpError::AccessDenied => "access denied"@,
        CloseTcpError::UnsupportedIpv6 => "IPv6 TCP disconnect is not supported yet"@,
        CloseTcpError::OsError(code) => "Windows API error "@ + decimal(code as nat),
    }
}

impl CloseTcpError {
    /// What went wrong, in words.
    pub fn message(&self) -> (r: String)
        ensures
            r@ == close_message(*self),
    {
        match self {
            CloseTcpError::AccessDenied => String::from_str("access denied"),
            CloseTcpError::UnsupportedIpv6 => String::from_str(
                "IPv6 TCP disconnect is not supported yet",
            ),
            CloseTcpError::OsError(code) => {
                let mut out = String::from_str("Windows API error ");
                let number = format_u64(*code as u64);
                out.append(number.as_str());
                out
            },
        }
    }
}

/// An address as the table keeps it: its first byte lowest.
pub open spec fn table_addr(a: [u8; 4]) -> int {
    a@[0] + 0x100 * a@[1] + 0x1_0000 * a@[2] + 0x100_0000 * a@[3]
}

/// A port as the table keeps it: its two bytes exchanged.
pub open spec fn table_port(port: u16) -> int {
    (port as int % 0x100) * 0x100 + port as int / 0x100
}

/// An address as the table keeps it.
pub fn mib_ipv4_addr(a: [u8; 4]) -> (r: u32)
    ensures
        r == table_addr(a),
{
    a[0] as u32 + 0x100 * (a[1] as u32) + 0x1_0000 * (a[2] as u32) + 0x100_0000 * (a[3] as u32)
}

/// A port as the table keeps it.
pub fn mib_port(port: u16) -> (r: u32)
    ensures
        r == table_port(port),
{
    ((port % 0x100) as u32) * 0x100 + (port / 0x100) as u32
}

/// The row that closes a connection; there is none for IPv6.
pub open spec fn closing_row(key: TcpConnectionKey) -> Result<MibTcpRow, CloseTcpError> {
    match (key.ipv6, key.local.addr, key.remote.addr) {
        (false, IpAddress::V4(local), IpAddress::V4(remote)) => Ok(
            MibTcpRow {
                state: MIB_TCP_STATE_DELETE_TCB,
                local_addr: table_addr(local) as u32,
                local_port: table_port(key.local.port) as u32,
                remote_addr: table_addr(remote) as u32,
                remote_port: table_port(key.remote.port) as u32,
            },
        ),
        _ => Err(CloseTcpError::UnsupportedIpv6),
    }
}

/// The row to hand to the system in order to close a connection.
pub fn close_tcp_connection(key: &TcpConnectionKey) -> (r: Result<MibTcpRow, CloseTcpError>)
    ensures
        r == closing_row(*key),
{
    if key.ipv6 {
        return Err(CloseTcpError::UnsupportedIpv6);
    }
    let local_addr = match key.local.addr {
        IpAddress::V4(addr) => mib_ipv4_addr(addr),
        IpAddress::V6(_) => {
            return Err(CloseTcpError::UnsupportedIpv6);
        },
    };
    let remote_addr = match key.remote.addr {
        IpAddress::V4(addr) => mib_ipv4_addr(addr),
        IpAddress::V6(_) => {
            return Err(CloseTcpError::UnsupportedIpv6);
        },
    };
    Ok(
        MibTcpRow {
            state: MIB_TCP_STATE_DELETE_TCB,
            local_addr,
            local_port: mib_port(key.local.port),
            remote_addr,
            remote_port: mib_port(key.remote.port),
        },
    )
}

/// What the system's answer to a closing row means.
pub open spec fn closing_result(status: u32) -> Result<(), CloseTcpError> {
    if status == 0 {
        Ok(())
    } else if status == ERROR_ACCESS_DENIED {
        Err(CloseTcpError::AccessDenied)
    } else {
        Err(CloseTcpError::OsError(status))
    }
}

/// What the system's answer to a closing row means.
pub fn close_status(status: u32) -> (r: Result<(), CloseTcpError>)
    ensures
        r == closing_result(status),
{
    if status == 0 {
        return Ok(());
    }
    if status == ERROR_ACCESS_DENIED {
        return Err(CloseTcpError::AccessDenied);
    }
    Err(CloseTcpError::OsError(status))
}

/// The rows that close a process's connections: of those whose state allows it, as far as they
/// can be closed at all.
pub open spec fn closing_rows(pid: u32, connections: Seq<TcpConnection>) -> Seq<MibTcpRow>
    decreases connections.len(),
{
    if connections.len() == 0 {
        Seq::empty()
    } else {
        let before = closing_rows(pid, connections.drop_last());
        let c = connections.last();
        match closing_row(c.key) {
            Ok(row) => if c.pid == pid && c.disconnectable {
                before.push(row)
            } else {
                before
            },
            Err(_) => before,
        }
    }
}

/// The rows to hand to the system in order to close a process's connections.
pub fn close_tcp_connections_for_pid(pid: u32, connections: &Vec<TcpConnection>) -> (r: Vec<
    MibTcpRow,
>)
    ensures
        r@ == closing_rows(pid, connections@),
{
    let mut out: Vec<MibTcpRow> = Vec::new();
    let mut i: usize = 0;
    while i < connections.len()
        invariant
            i <= connections@.len(),
            out@ == closing_rows(pid, connections@.take(i as int)),
        decreases connections@.len() - i,
    {
        assert(connections@.take(i + 1).drop_last() =~= connections@.take(i as int));
        if connections[i].pid == pid && connections[i].disconnectable {
            match close_tcp_connection(&connections[i].key) {
                Ok(row) => out.push(row),
                Err(_) => {},
            }
        }
        i += 1;
    }
    assert(connections@.take(i as int) =~= connections@);
    out
}

/// The rows that close the connections of several processes, one process after the other.
pub open spec fn closing_rows_for(pids: Seq<u32>, connections: Seq<TcpConnection>) -> Seq<MibTcpRow>
    decreases pids.len(),
{
    if pids.len() == 0 {
        Seq::empty()
    } else {
        closing_rows_for(pids.drop_last(), connections) + closing_rows(pids.last(), connections)
    }
}

/// The rows to hand to the system in order to close the connections of several processes.
pub fn close_tcp_connections_for_pids(pids: &Vec<u32>, connections: &Vec<TcpConnection>) -> (r: Vec<
    MibTcpRow,
>)
    ensures
        r@ == closing_rows_for(pids@, connections@),
{
    let mut out: Vec<MibTcpRow> = Vec::new();
    let mut i: usize = 0;
    while i < pids.len()
        invariant
            i <= pids@.len(),
            out@ == closing_rows_for(pids@.take(i as int), connections@),
        decreases pids@.len() - i,
    {
        assert(pids@.take(i + 1).drop_last() =~= pids@.take(i as int));
        let rows = close_tcp_connections_for_pid(pids[i], connections);
        let mut j: usize = 0;
        let ghost before = out@;
        assert(before + rows@.take(0) =~= before);
        while j < rows.len()
            invariant
                j <= rows@.len(),
                out@ == before + rows@.take(j as int),
            decreases rows@.len() - j,
        {
            out.push(rows[j]);
            assert(out@ =~= before + rows@.take(j + 1));
            j += 1;
        }
        assert(rows@.take(j as int) =~= rows@);
        i += 1;
    }
    assert(pids@.take(i as int) =~= pids@);
    out
}

/// How many answers say that a connection was closed.
pub open spec fn successes(statuses: Seq<u32>) -> nat
    decreases statuses.len(),
{
    if statuses.len() == 0 {
        0
    } else {
        successes(statuses.drop_last()) + if closing_result(statuses.last()) is Ok {
            1nat
        } else {
            0
        }
    }
}

/// How many connections were closed, by the system's answers.
pub fn closed_count(statuses: &Vec<u32>) -> (r: usize)
    ensures
        r == successes(statuses@),
        r <= statuses@.len(),
{
    let mut n: usize = 0;
    let mut i: usize = 0;
    while i < statuses.len()
        invariant
            n <= i <= statuses@.len(),
            n == successes(statuses@.take(i as int)),
        decreases statuses@.len() - i,
    {
        assert(statuses@.take(i + 1).drop_last() =~= statuses@.take(i as int));
        if close_status(statuses[i]).is_ok() {
            n += 1;
        }
        i += 1;
    }
    assert(statuses@.take(i as int) =~= statuses@);
    n
}

/// The connections of one process.
pub open spec fn connections_of(pid: u32, all: Seq<TcpConnection>) -> Seq<TcpConnection>
    decreases all.len(),
{
    if all.len() == 0 {
        Seq::empty()
    } else {
        let before = connections_of(pid, all.drop_last());
        if all.last().pid == pid {
            before.push(all.last())
        } else {
            before
        }
    }
}

/// The connections of several processes, one process after the other.
pub open spec fn connections_of_all(pids: Seq<u32>, all: Seq<TcpConnection>) -> Seq<TcpConnection>
    decreases pids.len(),
{
    if pids.len() == 0 {
        Seq::empty()
    } else {
        connections_of_all(pids.drop_last(), all) + connections_of(pids.last(), all)
    }
}

/// The order in which connections are shown: by their other end, then by process.
pub open spec fn connection_order() -> spec_fn(TcpConnection, TcpConnection) -> bool {
    |a: TcpConnection, b: TcpConnection|
        text_less(a.remote_label@, b.remote_label@) || (a.remote_label@ == b.remote_label@ && a.pid
            < b.pid)
}

fn shown_before(a: &TcpConnection, b: &TcpConnection) -> (r: bool)
    ensures
        r == connection_order()(*a, *b),
{
    proof {
        text_order_is_total(a.remote_label@, b.remote_label@);
    }
    if comes_before(a.remote_label.as_str(), b.remote_label.as_str()) {
        true
    } else if comes_before(b.remote_label.as_str(), a.remote_label.as_str()) {
        false
    } else {
        a.pid < b.pid
    }
}

fn push_connections_of(out: &mut Vec<TcpConnection>, pid: u32, all: &Vec<TcpConnection>)
    ensures
        final(out)@ == old(out)@ + connections_of(pid, all@),
{
    let mut i: usize = 0;
    assert(out@ =~= old(out)@ + connections_of(pid, all@.take(0)));
    while i < all.len()
        invariant
            i <= all@.len(),
            out@ == old(out)@ + connections_of(pid, all@.take(i as int)),
        decreases all@.len() - i,
    {
        assert(all@.take(i + 1).drop_last() =~= all@.take(i as int));
        if all[i].pid == pid {
            out.push(all[i].clone());
        }
        assert(out@ =~= old(out)@ + connections_of(pid, all@.take(i + 1)));
        i += 1;
    }
    assert(all@.take(i as int) =~= all@);
}

/// The connections of several processes, in the order in which they are shown.
pub fn connections_for_pids(pids: &Vec<u32>, all: &Vec<TcpConnection>) -> (r: Vec<TcpConnection>)
    ensures
        r@ == sorted(connections_of_all(pids@, all@), connection_order()),
{
    let mut out: Vec<TcpConnection> = Vec::new();
    let mut i: usize = 0;
    while i < pids.len()
        invariant
            i <= pids@.len(),
            out@ == connections_of_all(pids@.take(i as int), all@),
        decreases pids@.len() - i,
    {
        assert(pids@.take(i + 1).drop_last() =~= pids@.take(i as int));
        push_connections_of(&mut out, pids[i], all);
        i += 1;
    }
    assert(pids@.take(i as int) =~= pids@);
    let before = |a: &TcpConnection, b: &TcpConnection| -> (c: bool)
        ensures
            c == connection_order()(*a, *b),
        { shown_before(a, b) };
    stable_sort(out, before, Ghost(connection_order()))
}

/// The order of connections ranks them.
pub proof fn connection_order_ranks()
    ensures
        crate::order::ranks(connection_order()),
{
    let less = connection_order();
    assert forall|a: TcpConnection, b: TcpConnection| #[trigger] less(a, b) implies !less(b, a) by {
        text_order_is_total(a.remote_label@, b.remote_label@);
    }
    assert forall|a: TcpConnection, b: TcpConnection, c: TcpConnection|
        #![trigger less(a, b), less(b, c)]
        !less(a, b) && !less(b, c) implies !less(a, c) by {
        let (x, y, z) = (a.remote_label@, b.remote_label@, c.remote_label@);
        text_order_is_total(x, y);
        text_order_is_total(y, z);
        text_order_is_total(x, z);
        if text_less(x, z) {
            if x == y {
            } else if y == z {
            } else {
                crate::text::text_order_is_transitive(y, x, z);
            }
        } else if x == z && x != y {
        }
    }
}

/// The connections shown for some processes are exactly theirs, and in order.
pub proof fn shown_connections_are_theirs(pids: Seq<u32>, all: Seq<TcpConnection>, c: TcpConnection)
    ensures
        sorted(connections_of_all(pids, all), connection_order()).contains(c) == (all.contains(c)
            && pids.contains(c.pid)),
        crate::order::in_order(
            sorted(connections_of_all(pids, all), connection_order()),
            connection_order(),
        ),
{
    connection_order_ranks();
    crate::order::sorting_orders(connections_of_all(pids, all), connection_order());
    crate::order::sorting_keeps_membership(connections_of_all(pids, all), connection_order(), c);
    lemma_theirs(pids, all, c);
}

proof fn lemma_theirs(pids: Seq<u32>, all: Seq<TcpConnection>, c: TcpConnection)
    ensures
        connections_of_all(pids, all).contains(c) == (all.contains(c) && pids.contains(c.pid)),
    decreases pids.len(),
{
    if pids.len() > 0 {
        let (head, tail) = (
            connections_of_all(pids.drop_last(), all),
            connections_of(pids.last(), all),
        );
        lemma_theirs(pids.drop_last(), all, c);
        lemma_its_own(pids.last(), all, c);
        lemma_joined_contains(head, tail, c);
        lemma_last_or_before(pids, c.pid);
    }
}

proof fn lemma_its_own(pid: u32, all: Seq<TcpConnection>, c: TcpConnection)
    ensures
        connections_of(pid, all).contains(c) == (all.contains(c) && c.pid == pid),
    decreases all.len(),
{
    if all.len() > 0 {
        lemma_its_own(pid, all.drop_last(), c);
        lemma_last_or_before(all, c);
        let before = connections_of(pid, all.drop_last());
        lemma_last_or_before(before.push(all.last()), c);
        assert(before.push(all.last()).drop_last() =~= before);
    }
}

proof fn lemma_last_or_before<T>(s: Seq<T>, x: T)
    requires
        s.len() > 0,
    ensures
        s.contains(x) == (s.drop_last().contains(x) || s.last() == x),
{
    if s.contains(x) && s.last() != x {
        let i = choose|i: int| 0 <= i < s.len() && s[i] == x;
        assert(s.drop_last()[i] == x);
    }
    if s.drop_last().contains(x) {
        let i = choose|i: int| 0 <= i < s.len() - 1 && s.drop_last()[i] == x;
        assert(s[i] == x);
    }
    assert(s[s.len() - 1] == s.last());
}

proof fn lemma_joined_contains<T>(a: Seq<T>, b: Seq<T>, x: T)
    ensures
        (a + b).contains(x) == (a.contains(x) || b.contains(x)),
{
    let whole = a + b;
    if a.contains(x) {
        let i = choose|i: int| 0 <= i < a.len() && a[i] == x;
        assert(whole[i] == x);
    }
    if b.contains(x) {
        let i = choose|i: int| 0 <= i < b.len() && b[i] == x;
        assert(whole[a.len() + i] == x);
    }
    if whole.contains(x) {
        let i = choose|i: int| 0 <= i < whole.len() && whole[i] == x;
        if i < a.len() {
            assert(a[i] == x);
        } else {
            assert(b[i - a.len()] == x);
        }
    }
}

/// IPv6 connections can be listed but not closed.
pub proof fn ipv6_is_not_closed(key: TcpConnectionKey)
    requires
        key.ipv6 || !(key.local.addr is V4) || !(key.remote.addr is V4),
    ensures
        closing_row(key) == Err::<MibTcpRow, CloseTcpError>(CloseTcpError::UnsupportedIpv6),
{
}

/// Whether a connection is one of a process's that can be closed, and `row` closes it.
pub open spec fn is_closed_by(c: TcpConnection, pid: u32, row: MibTcpRow) -> bool {
    &&& c.pid == pid
    &&& c.disconnectable
    &&& !c.key.ipv6
    &&& c.key.local.addr is V4
    &&& c.key.remote.addr is V4
    &&& closing_row(c.key) == Ok::<MibTcpRow, CloseTcpError>(row)
}

/// Disconnecting all closes all: the rows that close a process's connections are one for each that
/// can be closed, in the order of the list, and none for any other. `kept` are the places of those
/// in the list.
pub proof fn disconnecting_all_closes_all(pid: u32, connections: Seq<TcpConnection>, kept: Seq<int>)
    requires
        forall|i: int, j: int| 0 <= i < j < kept.len() ==> kept[i] < kept[j],
        forall|at: int| #![trigger kept.contains(at)] #![trigger connections[at]]
            kept.contains(at) == (0 <= at < connections.len() && connections[at].pid == pid
                && connections[at].disconnectable && !connections[at].key.ipv6
                && connections[at].key.local.addr is V4 && connections[at].key.remote.addr is V4),
    ensures
        closing_rows(pid, connections).len() == kept.len(),
        forall|i: int|
            0 <= i < kept.len() ==> is_closed_by(
                connections[kept[i]],
                pid,
                #[trigger] closing_rows(pid, connections)[i],
            ),
    decreases connections.len(),
{
    if connections.len() == 0 {
        if kept.len() > 0 {
            assert(kept.contains(kept[0]));
        }
    } else {
        let init = connections.drop_last();
        let last = connections.len() - 1;
        let c = connections.last();
        let closes = kept.contains(last);
        let before = if closes {
            kept.drop_last()
        } else {
            kept
        };
        if closes {
            let i = choose|i: int| 0 <= i < kept.len() && kept[i] == last;
            if i < kept.len() - 1 {
                assert(kept[i] < kept[kept.len() - 1]);
                assert(kept.contains(kept[kept.len() - 1]));
            }
            assert(kept.last() == last);
        }
        assert forall|at: int| #![trigger before.contains(at)] #![trigger init[at]]
            before.contains(at) == (0 <= at < init.len() && init[at].pid == pid
                && init[at].disconnectable && !init[at].key.ipv6 && init[at].key.local.addr is V4
                && init[at].key.remote.addr is V4) by {
            if before.contains(at) {
                let i = choose|i: int| 0 <= i < before.len() && before[i] == at;
                assert(kept[i] == at);
                assert(kept.contains(at));
                if closes {
                    assert(kept[i] < kept[kept.len() - 1]);
                }
            }
            if 0 <= at < init.len() {
                assert(init[at] == connections[at]);
                if kept.contains(at) {
                    let i = choose|i: int| 0 <= i < kept.len() && kept[i] == at;
                    assert(before[i] == at);
                }
            }
        }
        disconnecting_all_closes_all(pid, init, before);
        assert(connections[last] == c);
        assert forall|i: int| 0 <= i < kept.len() implies is_closed_by(
            connections[kept[i]],
            pid,
            #[trigger] closing_rows(pid, connections)[i],
        ) by {
            if i < before.len() {
                assert(before.contains(before[i]));
                assert(is_closed_by(init[before[i]], pid, closing_rows(pid, init)[i]));
            }
        }
    }
}

/// A closing row is of the state that deletes a connection, and holds the bytes of both addresses
/// and ports in the order in which they go over the network.
pub proof fn closing_rows_name_the_connection(key: TcpConnectionKey, row: MibTcpRow)
    requires
        closing_row(key) == Ok::<MibTcpRow, CloseTcpError>(row),
    ensures
        !key.ipv6,
        row.state == 12,
        key.local.addr matches IpAddress::V4(a) && row.local_addr == a@[0] + 256 * a@[1] + 65536
            * a@[2] + 16777216 * a@[3],
        key.remote.addr matches IpAddress::V4(b) && row.remote_addr == b@[0] + 256 * b@[1] + 65536
            * b@[2] + 16777216 * b@[3],
        row.local_port < 65536,
        row.remote_port < 65536,
        row.local_port / 256 == key.local.port % 256,
        row.local_port % 256 == key.local.port / 256,
        row.remote_port / 256 == key.remote.port % 256,
        row.remote_port % 256 == key.remote.port / 256,
{
}

/// Every connection over IPv4 has a closing row.
pub proof fn ipv4_is_closed(key: TcpConnectionKey)
    requires
        !key.ipv6,
        key.local.addr is V4,
        key.remote.addr is V4,
    ensures
        closing_row(key) is Ok,
{
}

/// Closing the connections of several processes is closing those of some and then those of the
/// others; of one process, it is closing that process's own.
pub proof fn closing_for_many_is_closing_for_each(
    a: Seq<u32>,
    b: Seq<u32>,
    pid: u32,
    connections: Seq<TcpConnection>,
)
    ensures
        closing_rows_for(a + b, connections) == closing_rows_for(a, connections) + closing_rows_for(
            b,
            connections,
        ),
        closing_rows_for(seq![pid], connections) == closing_rows(pid, connections),
    decreases b.len(),
{
    let one = seq![pid];
    assert(one.drop_last() =~= Seq::<u32>::empty());
    assert(closing_rows_for(one.drop_last(), connections) =~= Seq::<MibTcpRow>::empty());
    assert(closing_rows_for(one, connections) =~= closing_rows(pid, connections));
    if b.len() == 0 {
        assert(a + b =~= a);
        assert(closing_rows_for(a, connections) + Seq::<MibTcpRow>::empty() =~= closing_rows_for(
            a,
            connections,
        ));
    } else {
        closing_for_many_is_closing_for_each(a, b.drop_last(), pid, connections);
        assert((a + b).drop_last() =~= a + b.drop_last());
        assert(closing_rows_for(a + b, connections) =~= closing_rows_for(a, connections)
            + closing_rows_for(b, connections));
    }
}

/// The system's answer says that a connection was closed just where it is zero, and tells a lack of
/// rights from all other failures.
pub proof fn answers_tell_what_happened(status: u32)
    ensures
        closing_result(status) is Ok == (status == 0),
        closing_result(status) == Err::<(), CloseTcpError>(CloseTcpError::AccessDenied) <==> status
            == 5,
        status != 0 && status != 5 ==> closing_result(status) == Err::<(), CloseTcpError>(
            CloseTcpError::OsError(status),
        ),
{
}

/// The connections that were closed are those that were answered with zero.
pub proof fn successes_are_zeros(statuses: Seq<u32>)
    ensures
        successes(statuses) == statuses.filter(|status: u32| status == 0).len(),
    decreases statuses.len(),
{
    reveal(Seq::filter);
    if statuses.len() > 0 {
        successes_are_zeros(statuses.drop_last());
    }
}

/// A connection is shown as often as it stands in the list and its process among those asked for.
pub proof fn shown_connections_are_counted(pids: Seq<u32>, all: Seq<TcpConnection>)
    requires
        pids.no_duplicates(),
    ensures
        sorted(connections_of_all(pids, all), connection_order()).to_multiset() =~= all.filter(
            |c: TcpConnection| pids.contains(c.pid),
        ).to_multiset(),
{
    crate::order::sorting_keeps_items(connections_of_all(pids, all), connection_order());
    lemma_counted(pids, all);
}

proof fn lemma_counted(pids: Seq<u32>, all: Seq<TcpConnection>)
    requires
        pids.no_duplicates(),
    ensures
        connections_of_all(pids, all).to_multiset() =~= all.filter(
            |c: TcpConnection| pids.contains(c.pid),
        ).to_multiset(),
    decreases pids.len(),
{
    broadcast use vstd::seq_lib::group_to_multiset_ensures;

    assert forall|c: TcpConnection|
        connections_of_all(pids, all).to_multiset().count(c) == all.filter(
            |x: TcpConnection| pids.contains(x.pid),
        ).to_multiset().count(c) by {
        lemma_count_of_all(pids, all, c);
        lemma_count_of_filter(all, |x: TcpConnection| pids.contains(x.pid), c);
    }
}

proof fn lemma_count_of_filter<T>(s: Seq<T>, keep: spec_fn(T) -> bool, x: T)
    ensures
        s.filter(keep).to_multiset().count(x) == if keep(x) {
            s.to_multiset().count(x)
        } else {
            0
        },
    decreases s.len(),
{
    broadcast use vstd::seq_lib::group_to_multiset_ensures;

    reveal(Seq::filter);
    if s.len() > 0 {
        lemma_count_of_filter(s.drop_last(), keep, x);
        assert(s =~= s.drop_last().push(s.last()));
    }
}

proof fn lemma_count_of_one(pid: u32, all: Seq<TcpConnection>, c: TcpConnection)
    ensures
        connections_of(pid, all).to_multiset().count(c) == if c.pid == pid {
            all.to_multiset().count(c)
        } else {
            0
        },
    decreases all.len(),
{
    broadcast use vstd::seq_lib::group_to_multiset_ensures;

    if all.len() > 0 {
        lemma_count_of_one(pid, all.drop_last(), c);
        assert(all =~= all.drop_last().push(all.last()));
    }
}

proof fn lemma_count_of_all(pids: Seq<u32>, all: Seq<TcpConnection>, c: TcpConnection)
    requires
        pids.no_duplicates(),
    ensures
        connections_of_all(pids, all).to_multiset().count(c) == if pids.contains(c.pid) {
            all.to_multiset().count(c)
        } else {
            0
        },
    decreases pids.len(),
{
    broadcast use vstd::seq_lib::group_to_multiset_ensures;

    if pids.len() > 0 {
        let init = pids.drop_last();
        lemma_count_of_all(init, all, c);
        lemma_count_of_one(pids.last(), all, c);
        lemma_last_or_before(pids, c.pid);
        vstd::seq_lib::lemma_multiset_commutative(
            connections_of_all(init, all),
            connections_of(pids.last(), all),
        );
        if init.contains(pids.last()) {
            let i = choose|i: int| 0 <= i < init.len() && init[i] == pids.last();
            assert(pids[i] == pids[pids.len() - 1]);
        }
    }
}

/// The connections of a process are those that are its own, in the order of the list; those of several
/// processes are those of one after the other.
pub proof fn connections_are_found_by_process(a: Seq<u32>, b: Seq<u32>, pid: u32, all: Seq<TcpConnection>)
    ensures
        connections_of(pid, all) == all.filter(|c: TcpConnection| c.pid == pid),
        connections_of_all(seq![pid], all) == connections_of(pid, all),
        connections_of_all(a + b, all) == connections_of_all(a, all) + connections_of_all(b, all),
    decreases all.len(), b.len(),
{
    reveal(Seq::filter);
    if all.len() > 0 {
        connections_are_found_by_process(seq![], seq![], pid, all.drop_last());
    }
    let one = seq![pid];
    assert(one.drop_last() =~= Seq::<u32>::empty());
    assert(connections_of_all(one.drop_last(), all) =~= Seq::<TcpConnection>::empty());
    assert(connections_of_all(one, all) =~= connections_of(pid, all));
    if b.len() == 0 {
        assert(a + b =~= a);
        assert(connections_of_all(a, all) + connections_of_all(b, all) =~= connections_of_all(
            a,
            all,
        ));
    } else {
        assert((a + b).drop_last() =~= a + b.drop_last());
        connections_are_found_by_process(a, b.drop_last(), pid, all);
        assert(connections_of_all(a + b, all) =~= connections_of_all(a, all) + connections_of_all(
            b,
            all,
        ));
    }
}

/// Each failure to close a connection says which it is, and a failure of the system its number.
pub proof fn closing_failures_say_what_they_are(code: u32)
    ensures
        close_message(CloseTcpError::AccessDenied) == "access denied"@,
        close_message(CloseTcpError::UnsupportedIpv6)
            == "IPv6 TCP disconnect is not supported yet"@,
        close_message(CloseTcpError::OsError(code)) == "Windows API error "@ + decimal(
            code as nat,
        ),
{
}

} // verus!

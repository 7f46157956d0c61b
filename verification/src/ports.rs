//! Which process owns which port: the system's connection tables and what is read from them.

use crate::order::{sorted, stable_sort};
use crate::packet::Protocol;
use crate::rows::ProcessInfo;
use crate::text::{comes_before, lowercase, text_less, to_lowercase};
use std::collections::HashMap;
use vstd::prelude::*;

verus! {

broadcast use vstd::std_specs::hash::group_hash_axioms;

pub const AF_INET: u32 = 2;

pub const AF_INET6: u32 = 23;

/// The status with which the system answers a request for a table's size.
pub const ERROR_INSUFFICIENT_BUFFER: u32 = 122;

/// The four bytes at `i` as a number. Tables are little-endian, as the machines are that
/// they come from.
pub open spec fn le32(b: Seq<u8>, i: int) -> int {
    b[i] + b[i + 1] * 256 + b[i + 2] * 65536 + b[i + 3] * 16777216
}

/// How the rows of a table are laid out: the size of a row, where its local port stands, and
/// where the process that owns it.
pub struct Layout {
    pub row: int,
    pub port: int,
    pub pid: int,
}

pub open spec fn layout(row: int, port: int, pid: int) -> Layout {
    Layout { row, port, pid }
}

/// The local port in row `k`, which is in network order.
pub open spec fn row_port(b: Seq<u8>, l: Layout, k: int) -> int {
    let at = 4 + k * l.row + l.port;
    b[at] * 256 + b[at + 1]
}

/// The process in row `k`.
pub open spec fn row_pid(b: Seq<u8>, l: Layout, k: int) -> int {
    le32(b, 4 + k * l.row + l.pid)
}

/// How many rows a table holds: what it says in front, as far as they are there.
pub open spec fn row_count(b: Seq<u8>, l: Layout) -> int {
    if b.len() < 4 {
        0
    } else if le32(b, 0) <= (b.len() - 4) / l.row {
        le32(b, 0)
    } else {
        (b.len() - 4) / l.row
    }
}

/// The owners of the ports in the first `n` rows. Rows without a process or a port are left
/// out, and of two rows with one port the later counts.
pub open spec fn owners(b: Seq<u8>, l: Layout, n: int) -> Map<u16, u32>
    decreases n,
{
    if n <= 0 {
        Map::empty()
    } else {
        let before = owners(b, l, n - 1);
        let port = row_port(b, l, n - 1);
        let pid = row_pid(b, l, n - 1);
        if pid > 0 && port > 0 {
            before.insert(port as u16, pid as u32)
        } else {
            before
        }
    }
}

/// The owners of the ports in a table.
pub open spec fn table_owners(b: Seq<u8>, l: Layout) -> Map<u16, u32> {
    owners(b, l, row_count(b, l))
}

fn read_le32(b: &[u8], i: usize) -> (r: u32)
    requires
        i + 4 <= b@.len(),
    ensures
        r == le32(b@, i as int),
{
    b[i] as u32 + b[i + 1] as u32 * 256 + b[i + 2] as u32 * 65536 + b[i + 3] as u32 * 16777216
}

fn parse_owner_pid_rows(
    buffer: &[u8],
    row_size: usize,
    local_port_offset: usize,
    owning_pid_offset: usize,
) -> (r: HashMap<u16, u32>)
    requires
        local_port_offset + 4 <= row_size,
        owning_pid_offset + 4 <= row_size,
    ensures
        r@ == table_owners(
            buffer@,
            layout(row_size as int, local_port_offset as int, owning_pid_offset as int),
        ),
{
    let ghost l = layout(row_size as int, local_port_offset as int, owning_pid_offset as int);
    let mut map: HashMap<u16, u32> = HashMap::new();
    if buffer.len() < 4 {
        return map;
    }
    let count: u32 = read_le32(buffer, 0);
    let mut offset: usize = 4;
    let mut k: u32 = 0;
    while k < count && row_size <= buffer.len() - offset
        invariant
            buffer@.len() >= 4,
            count == le32(buffer@, 0),
            k <= count,
            local_port_offset + 4 <= row_size,
            owning_pid_offset + 4 <= row_size,
            l == layout(row_size as int, local_port_offset as int, owning_pid_offset as int),
            offset == 4 + k * row_size,
            offset <= buffer@.len(),
            map@ == owners(buffer@, l, k as int),
        decreases count - k,
    {
        let at: usize = offset + local_port_offset;
        let port: u16 = buffer[at] as u16 * 256 + buffer[at + 1] as u16;
        let owning_pid: u32 = read_le32(buffer, offset + owning_pid_offset);
        if owning_pid > 0 && port > 0 {
            map.insert(port, owning_pid);
        }
        assert((k + 1) * row_size == k * row_size + row_size) by (nonlinear_arith);
        offset = offset + row_size;
        k = k + 1;
    }
    proof {
        let room = buffer@.len() - 4;
        let rows = room / row_size as int;
        if k < count {
            assert(rows == k) by (nonlinear_arith)
                requires
                    k * row_size <= room < k * row_size + row_size,
                    rows == room / row_size as int,
                    row_size > 0,
            ;
        } else {
            assert(rows >= k) by (nonlinear_arith)
                requires
                    k * row_size <= room,
                    rows == room / row_size as int,
                    row_size > 0,
            ;
        }
    }
    map
}

pub fn parse_tcp_owner_pid_table(buffer: &[u8]) -> (r: HashMap<u16, u32>)
    ensures
        r@ == table_owners(buffer@, layout(24, 8, 20)),
{
    parse_owner_pid_rows(buffer, 24, 8, 20)
}

pub fn parse_tcp6_owner_pid_table(buffer: &[u8]) -> (r: HashMap<u16, u32>)
    ensures
        r@ == table_owners(buffer@, layout(56, 20, 52)),
{
    parse_owner_pid_rows(buffer, 56, 20, 52)
}

pub fn parse_udp_owner_pid_table(buffer: &[u8]) -> (r: HashMap<u16, u32>)
    ensures
        r@ == table_owners(buffer@, layout(12, 4, 8)),
{
    parse_owner_pid_rows(buffer, 12, 4, 8)
}

pub fn parse_udp6_owner_pid_table(buffer: &[u8]) -> (r: HashMap<u16, u32>)
    ensures
        r@ == table_owners(buffer@, layout(28, 20, 24)),
{
    parse_owner_pid_rows(buffer, 28, 20, 24)
}

/// Every owner that a table names is a real process on a real port.
pub proof fn owners_are_nonzero(b: Seq<u8>, l: Layout, n: int)
    ensures
        forall|port: u16| #[trigger]
            owners(b, l, n).contains_key(port) ==> port > 0 && owners(b, l, n)[port] > 0,
    decreases n,
{
    if n > 0 {
        owners_are_nonzero(b, l, n - 1);
        let before = owners(b, l, n - 1);
        let p = row_port(b, l, n - 1);
        let q = row_pid(b, l, n - 1);
        assert forall|port: u16| #[trigger] owners(b, l, n).contains_key(port) implies port > 0
            && owners(b, l, n)[port] > 0 by {
            if q > 0 && p > 0 && port == p as u16 {
            } else {
                assert(before.contains_key(port));
            }
        }
    }
}

/// Row layout of the TCP table of an address family.
pub open spec fn tcp_layout(af: u32) -> Option<Layout> {
    if af == AF_INET {
        Some(layout(24, 8, 20))
    } else if af == AF_INET6 {
        Some(layout(56, 20, 52))
    } else {
        None
    }
}

/// Row layout of the UDP table of an address family.
pub open spec fn udp_layout(af: u32) -> Option<Layout> {
    if af == AF_INET {
        Some(layout(12, 4, 8))
    } else if af == AF_INET6 {
        Some(layout(28, 20, 24))
    } else {
        None
    }
}

fn tcp_row_layout(af: u32) -> (r: Option<(usize, usize, usize)>)
    ensures
        match r {
            Some(t) => tcp_layout(af) == Some(layout(t.0 as int, t.1 as int, t.2 as int)) && 4
                <= t.0 <= 4096 && t.1 + 4 <= t.0 && t.2 + 4 <= t.0,
            None => tcp_layout(af) is None,
        },
{
    if af == AF_INET {
        Some((24, 8, 20))
    } else if af == AF_INET6 {
        Some((56, 20, 52))
    } else {
        None
    }
}

fn udp_row_layout(af: u32) -> (r: Option<(usize, usize, usize)>)
    ensures
        match r {
            Some(t) => udp_layout(af) == Some(layout(t.0 as int, t.1 as int, t.2 as int)) && 4
                <= t.0 <= 4096 && t.1 + 4 <= t.0 && t.2 + 4 <= t.0,
            None => udp_layout(af) is None,
        },
{
    if af == AF_INET {
        Some((12, 4, 8))
    } else if af == AF_INET6 {
        Some((28, 20, 24))
    } else {
        None
    }
}

/// How large a buffer to read a table into, from the answer to the request for its size;
/// nothing where there is no table to read.
pub fn table_buffer_len(status: u32, size: u32) -> (r: Option<u32>)
    ensures
        r == (if status == ERROR_INSUFFICIENT_BUFFER && size != 0 {
            Some(size)
        } else {
            None
        }),
{
    if status != ERROR_INSUFFICIENT_BUFFER || size == 0 {
        None
    } else {
        Some(size)
    }
}

/// The owners of the TCP ports, from the system's answer and the buffer that it filled; none
/// where it failed or the address family is unknown.
pub fn build_tcp_port_pid_map(af: u32, status: u32, buffer: &[u8]) -> (r: HashMap<u16, u32>)
    ensures
        r@ == (match tcp_layout(af) {
            Some(l) => if status == 0 {
                table_owners(buffer@, l)
            } else {
                Map::empty()
            },
            None => Map::empty(),
        }),
{
    match tcp_row_layout(af) {
        Some((row_size, local_port_offset, owning_pid_offset)) => {
            if status != 0 {
                return HashMap::new();
            }
            parse_owner_pid_rows(buffer, row_size, local_port_offset, owning_pid_offset)
        },
        None => HashMap::new(),
    }
}

/// The owners of the UDP ports, from the system's answer and the buffer that it filled; none
/// where it failed or the address family is unknown.
pub fn build_udp_port_pid_map(af: u32, status: u32, buffer: &[u8]) -> (r: HashMap<u16, u32>)
    ensures
        r@ == (match udp_layout(af) {
            Some(l) => if status == 0 {
                table_owners(buffer@, l)
            } else {
                Map::empty()
            },
            None => Map::empty(),
        }),
{
    match udp_row_layout(af) {
        Some((row_size, local_port_offset, owning_pid_offset)) => {
            if status != 0 {
                return HashMap::new();
            }
            parse_owner_pid_rows(buffer, row_size, local_port_offset, owning_pid_offset)
        },
        None => HashMap::new(),
    }
}

/// The owners of all ports, kept apart by protocol and IP version.
#[derive(Debug)]
pub struct PortPidMap {
    pub tcp_v4: HashMap<u16, u32>,
    pub tcp_v6: HashMap<u16, u32>,
    pub udp_v4: HashMap<u16, u32>,
    pub udp_v6: HashMap<u16, u32>,
}

impl Default for PortPidMap {
    fn default() -> (r: Self)
        ensures
            r.tcp_v4@ == Map::<u16, u32>::empty(),
            r.tcp_v6@ == Map::<u16, u32>::empty(),
            r.udp_v4@ == Map::<u16, u32>::empty(),
            r.udp_v6@ == Map::<u16, u32>::empty(),
    {
        PortPidMap {
            tcp_v4: HashMap::new(),
            tcp_v6: HashMap::new(),
            udp_v4: HashMap::new(),
            udp_v6: HashMap::new(),
        }
    }
}

/// Those of some ports that a process owns.
pub open spec fn owned_among(ports: Set<u16>, table: Map<u16, u32>, pid: u32) -> Set<u16> {
    ports.filter(|port: u16| table[port] == pid)
}

/// How many ports of a table a process owns.
pub open spec fn ports_owned(table: Map<u16, u32>, pid: u32) -> nat {
    owned_among(table.dom(), table, pid).len()
}

/// The owners of some ports.
spec fn owners_of(ports: Seq<u16>, table: Map<u16, u32>) -> Seq<u32> {
    ports.map_values(|port: u16| table[port])
}

impl PortPidMap {
    /// The owners of one protocol's ports.
    pub open spec fn table(self, protocol: Protocol, is_ipv6: bool) -> Map<u16, u32> {
        match (protocol, is_ipv6) {
            (Protocol::Tcp, false) => self.tcp_v4@,
            (Protocol::Tcp, true) => self.tcp_v6@,
            (Protocol::Udp, false) => self.udp_v4@,
            (Protocol::Udp, true) => self.udp_v6@,
        }
    }

    /// The process that owns a port.
    pub open spec fn owner(self, protocol: Protocol, port: u16, is_ipv6: bool) -> Option<u32> {
        if self.table(protocol, is_ipv6).contains_key(port) {
            Some(self.table(protocol, is_ipv6)[port])
        } else {
            None
        }
    }

    /// Whether some port belongs to `pid`.
    pub open spec fn names(self, pid: u32) -> bool {
        ||| self.tcp_v4@.contains_value(pid)
        ||| self.tcp_v6@.contains_value(pid)
        ||| self.udp_v4@.contains_value(pid)
        ||| self.udp_v6@.contains_value(pid)
    }

    /// The tables just read from the system; those of IPv6 only where it is enabled.
    pub fn refresh(
        ipv6_enabled: bool,
        tcp_v4: HashMap<u16, u32>,
        tcp_v6: HashMap<u16, u32>,
        udp_v4: HashMap<u16, u32>,
        udp_v6: HashMap<u16, u32>,
    ) -> (r: Self)
        ensures
            r.tcp_v4@ == tcp_v4@,
            r.udp_v4@ == udp_v4@,
            r.tcp_v6@ == (if ipv6_enabled {
                tcp_v6@
            } else {
                Map::empty()
            }),
            r.udp_v6@ == (if ipv6_enabled {
                udp_v6@
            } else {
                Map::empty()
            }),
    {
        PortPidMap {
            tcp_v4,
            tcp_v6: if ipv6_enabled {
                tcp_v6
            } else {
                HashMap::new()
            },
            udp_v4,
            udp_v6: if ipv6_enabled {
                udp_v6
            } else {
                HashMap::new()
            },
        }
    }

    pub fn pid_for(&self, protocol: Protocol, port: u16, is_ipv6: bool) -> (r: Option<u32>)
        ensures
            r == self.owner(protocol, port, is_ipv6),
    {
        let map = match (protocol, is_ipv6) {
            (Protocol::Tcp, false) => &self.tcp_v4,
            (Protocol::Tcp, true) => &self.tcp_v6,
            (Protocol::Udp, false) => &self.udp_v4,
            (Protocol::Udp, true) => &self.udp_v6,
        };
        match map.get(&port) {
            Some(pid) => Some(*pid),
            None => None,
        }
    }

    /// The owners of all ports, in no particular order, one for each port.
    pub fn pids(&self) -> (r: Vec<u32>)
        ensures
            forall|pid: u32| #[trigger] r@.contains(pid) <==> self.names(pid),
            forall|pid: u32| #[trigger]
                r@.to_multiset().count(pid) == ports_owned(self.tcp_v4@, pid) + ports_owned(
                    self.tcp_v6@,
                    pid,
                ) + ports_owned(self.udp_v4@, pid) + ports_owned(self.udp_v6@, pid),
            r@.len() == self.tcp_v4@.dom().len() + self.tcp_v6@.dom().len()
                + self.udp_v4@.dom().len() + self.udp_v6@.dom().len(),
    {
        let mut out = values_of(&self.tcp_v4);
        let mut b = values_of(&self.tcp_v6);
        let mut c = values_of(&self.udp_v4);
        let mut d = values_of(&self.udp_v6);
        let ghost (w, x, y, z) = (out@, b@, c@, d@);
        out.append(&mut b);
        out.append(&mut c);
        out.append(&mut d);
        assert(out@ =~= w + x + y + z);
        assert forall|pid: u32| #[trigger] out@.contains(pid) <==> self.names(pid) by {
            lemma_contains_concat(w, x, pid);
            lemma_contains_concat(w + x, y, pid);
            lemma_contains_concat(w + x + y, z, pid);
            assert(w.contains(pid) <==> self.tcp_v4@.contains_value(pid));
            assert(x.contains(pid) <==> self.tcp_v6@.contains_value(pid));
            assert(y.contains(pid) <==> self.udp_v4@.contains_value(pid));
            assert(z.contains(pid) <==> self.udp_v6@.contains_value(pid));
        }
        proof {
            vstd::seq_lib::lemma_multiset_commutative(w, x);
            vstd::seq_lib::lemma_multiset_commutative(w + x, y);
            vstd::seq_lib::lemma_multiset_commutative(w + x + y, z);
        }
        out
    }
}

proof fn lemma_contains_concat(a: Seq<u32>, b: Seq<u32>, x: u32)
    ensures
        (a + b).contains(x) <==> a.contains(x) || b.contains(x),
{
    if a.contains(x) {
        let i = choose|i: int| 0 <= i < a.len() && a[i] == x;
        assert((a + b)[i] == x);
    }
    if b.contains(x) {
        let i = choose|i: int| 0 <= i < b.len() && b[i] == x;
        assert((a + b)[a.len() + i] == x);
    }
}

/// A list of ports holds those of one owner as often as their owners' list holds that owner.
proof fn lemma_owners_counted(ports: Seq<u16>, table: Map<u16, u32>, pid: u32)
    requires
        ports.no_duplicates(),
    ensures
        owners_of(ports, table).to_multiset().count(pid) == owned_among(
            ports.to_set(),
            table,
            pid,
        ).len(),
    decreases ports.len(),
{
    broadcast use vstd::seq_lib::group_to_multiset_ensures;

    let owners = owners_of(ports, table);
    let owned = owned_among(ports.to_set(), table, pid);
    if ports.len() == 0 {
        assert(owners =~= Seq::<u32>::empty());
        assert(owned =~= Set::<u16>::empty());
    } else {
        let (init, last) = (ports.drop_last(), ports.last());
        lemma_owners_counted(init, table, pid);
        let before = owned_among(init.to_set(), table, pid);
        assert(owners =~= owners_of(init, table).push(table[last]));
        assert(!init.contains(last));
        assert(ports =~= init.push(last));
        assert(ports.to_set() =~= init.to_set().insert(last)) by {
            assert forall|x: u16| ports.contains(x) == (init.contains(x) || x == last) by {
                if init.contains(x) {
                    let i = choose|i: int| 0 <= i < init.len() && init[i] == x;
                    assert(ports[i] == x);
                }
                if x == last {
                    assert(ports[ports.len() - 1] == x);
                }
            }
        }
        init.lemma_cardinality_of_set();
        if table[last] == pid {
            assert(owned =~= before.insert(last));
        } else {
            assert(owned =~= before);
        }
        assert(!before.contains(last));
    }
}

fn values_of(m: &HashMap<u16, u32>) -> (r: Vec<u32>)
    ensures
        forall|pid: u32| #[trigger] r@.contains(pid) <==> m@.contains_value(pid),
        forall|pid: u32| #[trigger] r@.to_multiset().count(pid) == ports_owned(m@, pid),
        r@.len() == m@.dom().len(),
{
    let mut out: Vec<u32> = Vec::new();
    let ghost all = vstd::std_specs::iter::IteratorSpec::remaining(&m.keys()).unref();
    for k in it: m.keys()
        invariant
            it.seq().unref() == all,
            all.to_set() == m@.dom(),
            out@ == owners_of(all, m@).take(it.index()),
    {
        assert(all[it.index()] == *k);
        assert(all.to_set().contains(*k));
        if let Some(v) = m.get(k) {
            out.push(*v);
        }
        assert(out@ =~= owners_of(all, m@).take(it.index() + 1));
    }
    assert(out@ =~= owners_of(all, m@));
    assert forall|pid: u32| #[trigger] out@.contains(pid) <==> m@.contains_value(pid) by {
        if out@.contains(pid) {
            let i = choose|i: int| 0 <= i < out@.len() && out@[i] == pid;
            assert(all.to_set().contains(all[i]));
        }
        if m@.contains_value(pid) {
            let port = choose|port: u16| m@.contains_key(port) && m@[port] == pid;
            assert(all.to_set().contains(port));
            let i = choose|i: int| 0 <= i < all.len() && all[i] == port;
            assert(out@[i] == pid);
        }
    }
    assert forall|pid: u32| #[trigger] out@.to_multiset().count(pid) == ports_owned(m@, pid) by {
        lemma_owners_counted(all, m@, pid);
    }
    proof {
        all.unique_seq_to_set();
    }
    out
}

/// The two IP versions and the two protocols do not see each other's ports.
pub proof fn tables_are_separate(
    a: PortPidMap,
    b: PortPidMap,
    protocol: Protocol,
    is_ipv6: bool,
    port: u16,
)
    requires
        a.table(protocol, is_ipv6) == b.table(protocol, is_ipv6),
    ensures
        a.owner(protocol, port, is_ipv6) == b.owner(protocol, port, is_ipv6),
{
}

/// Whether `pid` is to be listed: it owns a port or has a rule, and is a real process.
pub open spec fn is_listed(map: PortPidMap, active_rule_pids: Seq<u32>, pid: u32) -> bool {
    pid > 0 && (map.names(pid) || active_rule_pids.contains(pid))
}

/// The processes to list, each once, in no particular order.
pub fn network_pids(map: &PortPidMap, active_rule_pids: &Vec<u32>) -> (r: Vec<u32>)
    ensures
        r@.no_duplicates(),
        forall|pid: u32| #[trigger]
            r@.contains(pid) <==> is_listed(*map, active_rule_pids@, pid),
{
    let owners = map.pids();
    let mut out: Vec<u32> = Vec::new();
    let mut i: usize = 0;
    while i < owners.len()
        invariant
            i <= owners@.len(),
            out@.no_duplicates(),
            forall|pid: u32| #[trigger]
                out@.contains(pid) <==> pid > 0 && owners@.take(i as int).contains(pid),
        decreases owners@.len() - i,
    {
        add_pid(&mut out, owners[i]);
        proof {
            lemma_take_one_more(owners@, i as int);
        }
        i += 1;
    }
    assert(owners@.take(i as int) =~= owners@);
    let mut k: usize = 0;
    while k < active_rule_pids.len()
        invariant
            k <= active_rule_pids@.len(),
            out@.no_duplicates(),
            forall|pid: u32| #[trigger]
                out@.contains(pid) <==> pid > 0 && (map.names(pid) || active_rule_pids@.take(
                    k as int,
                ).contains(pid)),
        decreases active_rule_pids@.len() - k,
    {
        add_pid(&mut out, active_rule_pids[k]);
        proof {
            lemma_take_one_more(active_rule_pids@, k as int);
        }
        k += 1;
    }
    assert(active_rule_pids@.take(k as int) =~= active_rule_pids@);
    out
}

proof fn lemma_take_one_more(s: Seq<u32>, i: int)
    requires
        0 <= i < s.len(),
    ensures
        forall|x: u32| #[trigger]
            s.take(i + 1).contains(x) <==> s.take(i).contains(x) || x == s[i],
{
    assert forall|x: u32| #[trigger] s.take(i + 1).contains(x) <==> s.take(i).contains(x) || x
        == s[i] by {
        if s.take(i).contains(x) {
            let t = s.take(i);
            let k = choose|k: int| 0 <= k < t.len() && t[k] == x;
            assert(s.take(i + 1)[k] == x);
        }
        if x == s[i] {
            assert(s.take(i + 1)[i] == x);
        }
        if s.take(i + 1).contains(x) && x != s[i] {
            let t = s.take(i + 1);
            let k = choose|k: int| 0 <= k < t.len() && t[k] == x;
            assert(s.take(i)[k] == x);
        }
    }
}

/// Adds a real process that is not there yet.
fn add_pid(out: &mut Vec<u32>, pid: u32)
    requires
        old(out)@.no_duplicates(),
    ensures
        final(out)@.no_duplicates(),
        forall|x: u32| #[trigger]
            final(out)@.contains(x) <==> old(out)@.contains(x) || (x == pid && pid > 0),
{
    if pid == 0 {
        return;
    }
    let mut i: usize = 0;
    while i < out.len()
        invariant
            i <= out@.len(),
            out@ == old(out)@,
            out@.no_duplicates(),
            pid > 0,
            forall|j: int| 0 <= j < i ==> #[trigger] out@[j] != pid,
        decreases out@.len() - i,
    {
        if out[i] == pid {
            assert(out@.contains(pid));
            return;
        }
        i += 1;
    }
    let ghost before = out@;
    out.push(pid);
    proof {
        assert(!before.contains(pid));
        assert forall|x: u32| #[trigger] out@.contains(x) <==> before.contains(x) || x == pid by {
            if before.contains(x) {
                let k = choose|k: int| 0 <= k < before.len() && before[k] == x;
                assert(out@[k] == x);
            }
            if x == pid {
                assert(out@[before.len() as int] == x);
            }
        }
    }
}

/// The processes whose name is known.
pub open spec fn named(found: Seq<(u32, Option<String>)>) -> Seq<ProcessInfo>
    decreases found.len(),
{
    if found.len() == 0 {
        Seq::empty()
    } else {
        let before = named(found.drop_last());
        match found.last().1 {
            Some(name) => before.push(ProcessInfo { pid: found.last().0, name }),
            None => before,
        }
    }
}

/// Processes by their names in lower case.
pub open spec fn process_order() -> spec_fn(ProcessInfo, ProcessInfo) -> bool {
    |a: ProcessInfo, b: ProcessInfo| text_less(lowercase(a.name@), lowercase(b.name@))
}

/// The processes to show, from what the system says the listed ones are called: those that
/// it could name, in the order of their names.
pub fn get_network_processes(found: Vec<(u32, Option<String>)>) -> (r: Vec<ProcessInfo>)
    ensures
        r@ == sorted(named(found@), process_order()),
{
    let mut processes: Vec<ProcessInfo> = Vec::new();
    let mut i: usize = 0;
    while i < found.len()
        invariant
            i <= found@.len(),
            processes@ == named(found@.take(i as int)),
        decreases found@.len() - i,
    {
        assert(found@.take(i + 1).drop_last() =~= found@.take(i as int));
        match &found[i].1 {
            Some(name) => {
                processes.push(ProcessInfo { pid: found[i].0, name: name.clone() });
            },
            None => {},
        }
        i += 1;
    }
    assert(found@.take(i as int) =~= found@);
    let before = |a: &ProcessInfo, b: &ProcessInfo| -> (c: bool)
        ensures
            c == text_less(lowercase(a.name@), lowercase(b.name@)),
        {
            let x = to_lowercase(a.name.as_str());
            let y = to_lowercase(b.name.as_str());
            comes_before(x.as_str(), y.as_str())
        };
    stable_sort(processes, before, Ghost(process_order()))
}

/// Listing loses no process that has a name and adds none.
pub proof fn listing_keeps_named(found: Seq<(u32, Option<String>)>, x: ProcessInfo)
    ensures
        sorted(named(found), process_order()).contains(x) == named(found).contains(x),
{
    crate::order::sorting_keeps_membership(named(found), process_order(), x);
}

/// Whether row `k` of a table is there, as far as the table says and the buffer holds, and says
/// that `port` belongs to `pid`, neither being zero.
pub open spec fn row_says(b: Seq<u8>, l: Layout, k: int, port: u16, pid: int) -> bool {
    let start = 4 + k * l.row;
    let (at, own) = (start + l.port, start + l.pid);
    &&& 0 <= k < b[0] + b[1] * 256 + b[2] * 65536 + b[3] * 16777216
    &&& 4 <= start + l.row <= b.len()
    &&& port > 0
    &&& port == b[at] * 256 + b[at + 1]
    &&& pid > 0
    &&& pid == b[own] + b[own + 1] * 256 + b[own + 2] * 65536 + b[own + 3] * 16777216
}

/// Every row of a table counts: the port of a row belongs to the process in it, unless a later row
/// says otherwise, and no other port has an owner.
pub proof fn every_row_counts(b: Seq<u8>, l: Layout, port: u16)
    requires
        l.row > 0,
        b.len() >= 4,
    ensures
        forall|k: int, pid: int| #[trigger]
            row_says(b, l, k, port, pid) ==> table_owners(b, l).contains_key(port),
        table_owners(b, l).contains_key(port) ==> exists|k: int|
            {
                &&& #[trigger] row_says(b, l, k, port, table_owners(b, l)[port] as int)
                &&& forall|later: int, pid: int| #[trigger]
                    row_says(b, l, later, port, pid) ==> later <= k
            },
{
    let n = row_count(b, l);
    lemma_rows_counted(b, l, port, n);
    assert forall|k: int, pid: int| #[trigger] row_says(b, l, k, port, pid) implies 0 <= k < n
        && names_port(b, l, port, k) by {
        lemma_row_is_there(b, l, k);
    }
    if table_owners(b, l).contains_key(port) {
        let k = choose|k: int|
            {
                &&& 0 <= k < n
                &&& #[trigger] names_port(b, l, port, k)
                &&& owners(b, l, n)[port] == row_pid(b, l, k)
                &&& forall|j: int| k < j < n ==> !#[trigger] names_port(b, l, port, j)
            };
        lemma_row_is_there(b, l, k);
        assert(row_says(b, l, k, port, table_owners(b, l)[port] as int));
    }
}

proof fn lemma_row_is_there(b: Seq<u8>, l: Layout, k: int)
    requires
        l.row > 0,
        b.len() >= 4,
        0 <= k,
    ensures
        (k < le32(b, 0) && 4 + k * l.row + l.row <= b.len()) == (k < row_count(b, l)),
        k * l.row >= 0,
{
    let room = (b.len() - 4) / l.row;
    assert(k * l.row >= 0) by (nonlinear_arith)
        requires
            k >= 0,
            l.row > 0,
    ;
    assert((4 + k * l.row + l.row <= b.len()) == (k < room)) by (nonlinear_arith)
        requires
            room == (b.len() - 4) / l.row,
            l.row > 0,
            b.len() >= 4,
    ;
}

/// A table without room for its count of rows has no owners.
pub proof fn cut_off_tables_are_empty(b: Seq<u8>, l: Layout)
    requires
        b.len() < 4,
    ensures
        table_owners(b, l) == Map::<u16, u32>::empty(),
{
}

/// Whether row `k` says that `port` belongs to a process.
spec fn names_port(b: Seq<u8>, l: Layout, port: u16, k: int) -> bool {
    port > 0 && row_port(b, l, k) == port && row_pid(b, l, k) > 0
}

proof fn lemma_rows_counted(b: Seq<u8>, l: Layout, port: u16, n: int)
    ensures
        owners(b, l, n).contains_key(port) == (exists|k: int|
            0 <= k < n && #[trigger] names_port(b, l, port, k)),
        owners(b, l, n).contains_key(port) ==> exists|k: int|
            {
                &&& 0 <= k < n
                &&& #[trigger] names_port(b, l, port, k)
                &&& owners(b, l, n)[port] == row_pid(b, l, k)
                &&& forall|j: int| k < j < n ==> !#[trigger] names_port(b, l, port, j)
            },
    decreases n,
{
    if n > 0 {
        lemma_rows_counted(b, l, port, n - 1);
        let last = n - 1;
        if names_port(b, l, port, last) {
            assert(owners(b, l, n)[port] == row_pid(b, l, last));
        } else {
            assert(owners(b, l, n).contains_key(port) == owners(b, l, n - 1).contains_key(port)) by {
                let p = row_port(b, l, last);
                if row_pid(b, l, last) > 0 && p > 0 {
                    assert(0 <= p <= 65535);
                    assert(p as u16 != port);
                }
            }
            if owners(b, l, n - 1).contains_key(port) {
                let k = choose|k: int|
                    {
                        &&& 0 <= k < n - 1
                        &&& #[trigger] names_port(b, l, port, k)
                        &&& owners(b, l, n - 1)[port] == row_pid(b, l, k)
                        &&& forall|j: int| k < j < n - 1 ==> !#[trigger] names_port(b, l, port, j)
                    };
                assert(names_port(b, l, port, k));
                assert(owners(b, l, n)[port] == owners(b, l, n - 1)[port]);
            }
        }
    }
}

/// A port's owner is the one that the table of its protocol and IP version names.
pub proof fn ports_are_looked_up_in_their_table(map: PortPidMap, port: u16, pid: u32)
    ensures
        (map.owner(Protocol::Tcp, port, false) == Some(pid)) == (map.tcp_v4@.contains_pair(
            port,
            pid,
        )),
        (map.owner(Protocol::Tcp, port, true) == Some(pid)) == (map.tcp_v6@.contains_pair(
            port,
            pid,
        )),
        (map.owner(Protocol::Udp, port, false) == Some(pid)) == (map.udp_v4@.contains_pair(
            port,
            pid,
        )),
        (map.owner(Protocol::Udp, port, true) == Some(pid)) == (map.udp_v6@.contains_pair(
            port,
            pid,
        )),
{
}

/// The system writes rows of 24 bytes for TCP and of 12 for UDP over IPv4, and of 56 and of 28 over
/// IPv6, each with the local port and the process at a place of its own; there are no other tables.
pub proof fn tables_are_laid_out_by_protocol(af: u32)
    ensures
        tcp_layout(2) == Some(Layout { row: 24, port: 8, pid: 20 }),
        tcp_layout(23) == Some(Layout { row: 56, port: 20, pid: 52 }),
        udp_layout(2) == Some(Layout { row: 12, port: 4, pid: 8 }),
        udp_layout(23) == Some(Layout { row: 28, port: 20, pid: 24 }),
        af != 2 && af != 23 ==> tcp_layout(af) is None && udp_layout(af) is None,
{
}

/// A process is listed where it is a real one and owns a port of any kind or has a rule.
pub proof fn processes_with_ports_or_rules_are_listed(
    map: PortPidMap,
    active_rule_pids: Seq<u32>,
    pid: u32,
)
    ensures
        is_listed(map, active_rule_pids, pid) == (pid != 0 && (active_rule_pids.contains(pid)
            || exists|port: u16, protocol: Protocol, is_ipv6: bool| #[trigger]
            map.owner(protocol, port, is_ipv6) == Some(pid))),
{
    if map.names(pid) {
        if map.tcp_v4@.contains_value(pid) {
            let port = choose|port: u16| #[trigger]
                map.tcp_v4@.contains_key(port) && map.tcp_v4@[port] == pid;
            assert(map.owner(Protocol::Tcp, port, false) == Some(pid));
        } else if map.tcp_v6@.contains_value(pid) {
            let port = choose|port: u16| #[trigger]
                map.tcp_v6@.contains_key(port) && map.tcp_v6@[port] == pid;
            assert(map.owner(Protocol::Tcp, port, true) == Some(pid));
        } else if map.udp_v4@.contains_value(pid) {
            let port = choose|port: u16| #[trigger]
                map.udp_v4@.contains_key(port) && map.udp_v4@[port] == pid;
            assert(map.owner(Protocol::Udp, port, false) == Some(pid));
        } else {
            let port = choose|port: u16| #[trigger]
                map.udp_v6@.contains_key(port) && map.udp_v6@[port] == pid;
            assert(map.owner(Protocol::Udp, port, true) == Some(pid));
        }
    }
}

/// The processes listed are those whose name was found, in the order in which they were looked up.
pub proof fn named_processes_are_listed(
    a: Seq<(u32, Option<String>)>,
    b: Seq<(u32, Option<String>)>,
    pid: u32,
    name: String,
)
    ensures
        named(Seq::empty()).len() == 0,
        named(seq![(pid, Some(name))]) == seq![ProcessInfo { pid, name }],
        named(seq![(pid, None)]).len() == 0,
        named(a + b) == named(a) + named(b),
    decreases b.len(),
{
    let none = Seq::<(u32, Option<String>)>::empty();
    let one = seq![(pid, Some(name))];
    assert(one.drop_last() =~= none);
    assert(named(none) =~= Seq::<ProcessInfo>::empty());
    assert(named(one) =~= seq![ProcessInfo { pid, name }]);
    let other = seq![(pid, None::<String>)];
    assert(other.drop_last() =~= none);
    if b.len() == 0 {
        assert(a + b =~= a);
        assert(named(a) + named(b) =~= named(a));
    } else {
        assert((a + b).drop_last() =~= a + b.drop_last());
        named_processes_are_listed(a, b.drop_last(), pid, name);
        assert(named(a + b) =~= named(a) + named(b));
    }
}

/// Processes are listed by name, upper and lower case aside, and those of one name in the order in
/// which they were looked up.
pub proof fn processes_are_listed_by_name(ps: Seq<ProcessInfo>, i: int, j: int, name: Seq<char>)
    requires
        0 <= i < j < ps.len(),
    ensures
        ({
            let r = sorted(ps, process_order());
            let same = |p: ProcessInfo| lowercase(p.name@) == lowercase(name);
            &&& r.len() == ps.len()
            &&& r.to_multiset() == ps.to_multiset()
            &&& lowercase(r[i].name@) == lowercase(r[j].name@) || text_less(
                lowercase(r[i].name@),
                lowercase(r[j].name@),
            )
            &&& r.filter(same) == ps.filter(same)
        }),
{
    let less = process_order();
    lemma_process_order_ranks();
    crate::order::sorting_keeps_items(ps, less);
    crate::order::sorting_orders(ps, less);
    let r = sorted(ps, less);
    assert(!less(r[j], r[i]));
    crate::text::text_order_is_total(lowercase(r[i].name@), lowercase(r[j].name@));
    let same = |p: ProcessInfo| lowercase(p.name@) == lowercase(name);
    lemma_ties_of_name(ps, name);
}

proof fn lemma_process_order_ranks()
    ensures
        crate::order::ranks(process_order()),
{
    let less = process_order();
    assert forall|a: ProcessInfo, b: ProcessInfo| #[trigger] less(a, b) implies !less(b, a) by {
        crate::text::text_order_is_total(lowercase(a.name@), lowercase(b.name@));
    }
    assert forall|a: ProcessInfo, b: ProcessInfo, c: ProcessInfo|
        #![trigger less(a, b), less(b, c)]
        !less(a, b) && !less(b, c) implies !less(a, c) by {
        let (x, y, z) = (lowercase(a.name@), lowercase(b.name@), lowercase(c.name@));
        crate::text::text_order_is_total(x, y);
        crate::text::text_order_is_total(y, z);
        if text_less(x, z) && x != y && y != z {
            crate::text::text_order_is_transitive(y, x, z);
        }
    }
}

proof fn lemma_ties_of_name(ps: Seq<ProcessInfo>, name: Seq<char>)
    ensures
        ({
            let same = |p: ProcessInfo| lowercase(p.name@) == lowercase(name);
            sorted(ps, process_order()).filter(same) == ps.filter(same)
        }),
{
    let less = process_order();
    let same = |p: ProcessInfo| lowercase(p.name@) == lowercase(name);
    lemma_process_order_ranks();
    let r = sorted(ps, less);
    if exists|k: int| 0 <= k < ps.len() && same(#[trigger] ps[k]) {
        let k = choose|k: int| 0 <= k < ps.len() && same(#[trigger] ps[k]);
        let c = ps[k];
        crate::order::sorting_leaves_ties_alone(ps, less, c);
        assert forall|p: ProcessInfo| #[trigger] same(p) == crate::order::ties(less, c)(p) by {
            crate::text::text_order_is_total(lowercase(p.name@), lowercase(c.name@));
        }
        assert(same =~= crate::order::ties(less, c));
    } else {
        assert forall|k: int| 0 <= k < r.len() implies !same(#[trigger] r[k]) by {
            crate::order::sorting_keeps_membership(ps, less, r[k]);
            assert(r.contains(r[k]));
            let m = choose|m: int| 0 <= m < ps.len() && ps[m] == r[k];
            assert(!same(ps[m]));
        }
        lemma_nothing_kept(ps, same);
        lemma_nothing_kept(r, same);
    }
}

proof fn lemma_nothing_kept(ps: Seq<ProcessInfo>, f: spec_fn(ProcessInfo) -> bool)
    requires
        forall|k: int| 0 <= k < ps.len() ==> !f(#[trigger] ps[k]),
    ensures
        ps.filter(f) == Seq::<ProcessInfo>::empty(),
    decreases ps.len(),
{
    reveal(Seq::filter);
    if ps.len() > 0 {
        let t = ps.drop_last();
        assert forall|k: int| 0 <= k < t.len() implies !f(#[trigger] t[k]) by {
            assert(t[k] == ps[k]);
        }
        lemma_nothing_kept(t, f);
        assert(!f(ps[ps.len() - 1]));
    }
}

/// A process owns the ports that are its own, counted one by one.
pub proof fn ports_are_counted_one_by_one(table: Map<u16, u32>, port: u16, owner: u32, pid: u32)
    requires
        table.dom().finite(),
        !table.contains_key(port),
    ensures
        ports_owned(Map::empty(), pid) == 0,
        ports_owned(table.insert(port, owner), pid) == ports_owned(table, pid) + if owner == pid {
            1nat
        } else {
            0
        },
{
    let none = Map::<u16, u32>::empty();
    assert(owned_among(none.dom(), none, pid) =~= Set::<u16>::empty());
    let more = table.insert(port, owner);
    let a = owned_among(table.dom(), table, pid);
    let b = owned_among(more.dom(), more, pid);
    assert(a.finite()) by {
        table.dom().lemma_len_filter(|p: u16| table[p] == pid);
    }
    if owner == pid {
        assert(b =~= a.insert(port));
    } else {
        assert(b =~= a);
    }
}

} // verus!

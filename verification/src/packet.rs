//! Reading IPv4 and IPv6 packets as far as the limiter needs them.

use crate::rule::Direction;
use vstd::prelude::*;

verus! {

#[derive(Debug, Clone, Copy, PartialEq, Eq, Structural)]
pub enum Protocol {
    Tcp,
    Udp,
}

/// What the limiter needs to know of a TCP or UDP packet.
#[derive(Debug, Clone, Copy, PartialEq, Eq, Structural)]
pub struct IpPacket {
    pub protocol: Protocol,
    pub source_port: u16,
    pub destination_port: u16,
    pub total_len: usize,
    pub payload_len: usize,
}

pub type Ipv4Packet = IpPacket;

/// Two bytes as a number, the first one counting more.
pub open spec fn word_at(p: Seq<u8>, i: int) -> int {
    p[i] * 256 + p[i + 1]
}

pub open spec fn high_nibble(b: u8) -> int {
    b as int / 16
}

pub open spec fn low_nibble(b: u8) -> int {
    b as int % 16
}

/// The protocol with this number, if it is one that is read.
pub open spec fn protocol_of(n: u8) -> Option<Protocol> {
    if n == 6 {
        Some(Protocol::Tcp)
    } else if n == 17 {
        Some(Protocol::Udp)
    } else {
        None
    }
}

/// Length of the TCP or UDP header at `at` in a packet of `total` bytes, if it is whole.
pub open spec fn header_len(protocol: Protocol, p: Seq<u8>, at: int, total: int) -> Option<int> {
    match protocol {
        Protocol::Tcp => {
            let len = high_nibble(p[at + 12]) * 4;
            if at + 20 <= total && len >= 20 && at + len <= total {
                Some(len)
            } else {
                None
            }
        },
        Protocol::Udp => if at + 8 <= total {
            Some(8)
        } else {
            None
        },
    }
}

/// The packet whose TCP or UDP header begins at `at`.
pub open spec fn packet_from(protocol: Protocol, p: Seq<u8>, at: int, total: int) -> Option<
    IpPacket,
> {
    match header_len(protocol, p, at, total) {
        Some(len) => Some(
            IpPacket {
                protocol,
                source_port: word_at(p, at) as u16,
                destination_port: word_at(p, at + 2) as u16,
                total_len: total as usize,
                payload_len: (total - at - len) as usize,
            },
        ),
        None => None,
    }
}

/// An IPv4 packet: at least 24 bytes, version 4, with its ports inside the buffer, a total
/// length that covers the header and lies inside the buffer, and TCP or UDP in it.
pub open spec fn ipv4(p: Seq<u8>) -> Option<IpPacket> {
    let at = low_nibble(p[0]) * 4;
    let total = word_at(p, 2);
    if p.len() < 24 || high_nibble(p[0]) != 4 || at + 4 > p.len() || total < at || total > p.len() {
        None
    } else {
        match protocol_of(p[9]) {
            Some(protocol) => packet_from(protocol, p, at, total),
            None => None,
        }
    }
}

/// Whether the header with this number is skipped on the way to TCP or UDP.
pub open spec fn is_extension(n: u8) -> bool {
    n == 0 || n == 43 || n == 44 || n == 60 || n == 51
}

/// Length of the extension header `n` at `at`.
pub open spec fn extension_len(n: u8, p: Seq<u8>, at: int) -> int {
    if n == 51 {
        (p[at + 1] + 2) * 4
    } else {
        (p[at + 1] + 1) * 8
    }
}

/// Where TCP or UDP begins, following the chain of extension headers from the header `n` at
/// `at`.
pub open spec fn transport(p: Seq<u8>, n: u8, at: int, total: int) -> Option<(int, Protocol)>
    decreases total + 4096 - at,
{
    if protocol_of(n) is Some {
        Some((at, protocol_of(n)->0))
    } else if is_extension(n) && at + 8 <= total {
        transport(p, p[at], at + extension_len(n, p, at), total)
    } else {
        None
    }
}

/// An IPv6 packet: at least 40 bytes, version 6, with its payload inside the buffer, and TCP
/// or UDP behind its extension headers.
pub open spec fn ipv6(p: Seq<u8>) -> Option<IpPacket> {
    let total = 40 + word_at(p, 4);
    if p.len() < 40 || high_nibble(p[0]) != 6 || total > p.len() {
        None
    } else {
        match transport(p, p[6], 40, total) {
            Some((at, protocol)) => packet_from(protocol, p, at, total),
            None => None,
        }
    }
}

/// What a buffer holds when read as IPv6 or IPv4.
pub open spec fn read_packet(p: Seq<u8>, is_ipv6: bool) -> Option<IpPacket> {
    if is_ipv6 {
        ipv6(p)
    } else {
        ipv4(p)
    }
}

impl IpPacket {
    /// The port on this machine's side.
    pub open spec fn port(self, direction: Direction) -> u16 {
        match direction {
            Direction::Upload => self.source_port,
            Direction::Download => self.destination_port,
        }
    }

    pub fn parse(packet: &[u8], is_ipv6: bool) -> (r: Option<Self>)
        ensures
            r == read_packet(packet@, is_ipv6),
    {
        if is_ipv6 {
            parse_ipv6(packet)
        } else {
            parse_ipv4(packet)
        }
    }

    pub fn local_port(self, direction: Direction) -> (r: u16)
        ensures
            r == self.port(direction),
    {
        match direction {
            Direction::Upload => self.source_port,
            Direction::Download => self.destination_port,
        }
    }
}

fn upper(b: u8) -> (r: usize)
    ensures
        r == high_nibble(b),
        r <= 15,
{
    assert(b >> 4 == b / 16) by (bit_vector);
    (b >> 4) as usize
}

fn lower(b: u8) -> (r: usize)
    ensures
        r == low_nibble(b),
        r <= 15,
{
    assert(b & 0x0f == b % 16) by (bit_vector);
    (b & 0x0f) as usize
}

fn word(p: &[u8], i: usize) -> (r: u16)
    requires
        i + 1 < p@.len(),
    ensures
        r == word_at(p@, i as int),
{
    p[i] as u16 * 256 + p[i + 1] as u16
}

fn protocol_from(n: u8) -> (r: Option<Protocol>)
    ensures
        r == protocol_of(n),
{
    if n == 6 {
        Some(Protocol::Tcp)
    } else if n == 17 {
        Some(Protocol::Udp)
    } else {
        None
    }
}

fn assemble(protocol: Protocol, packet: &[u8], at: usize, total_len: usize) -> (r: Option<IpPacket>)
    requires
        at + 4 <= packet@.len(),
        at <= 0x10_0000,
        total_len <= packet@.len(),
    ensures
        r == packet_from(protocol, packet@, at as int, total_len as int),
{
    match transport_header_len(protocol, packet, at, total_len) {
        None => None,
        Some(len) => Some(
            IpPacket {
                protocol,
                source_port: word(packet, at),
                destination_port: word(packet, at + 2),
                total_len,
                payload_len: total_len - (at + len),
            },
        ),
    }
}

fn parse_ipv4(packet: &[u8]) -> (r: Option<IpPacket>)
    ensures
        r == ipv4(packet@),
{
    if packet.len() < 24 {
        return None;
    }
    if upper(packet[0]) != 4 {
        return None;
    }
    let ihl: usize = lower(packet[0]) * 4;
    if ihl + 4 > packet.len() {
        return None;
    }
    let total_len: usize = word(packet, 2) as usize;
    if total_len < ihl || total_len > packet.len() {
        return None;
    }
    match protocol_from(packet[9]) {
        None => None,
        Some(protocol) => assemble(protocol, packet, ihl, total_len),
    }
}

fn parse_ipv6(packet: &[u8]) -> (r: Option<IpPacket>)
    ensures
        r == ipv6(packet@),
{
    if packet.len() < 40 {
        return None;
    }
    if upper(packet[0]) != 6 {
        return None;
    }
    let total_len: usize = 40 + word(packet, 4) as usize;
    if total_len > packet.len() {
        return None;
    }
    match ipv6_transport_offset(packet, total_len) {
        None => None,
        Some((at, protocol)) => {
            if at + 4 > total_len {
                return None;
            }
            assemble(protocol, packet, at, total_len)
        },
    }
}

fn ipv6_transport_offset(packet: &[u8], total_len: usize) -> (r: Option<(usize, Protocol)>)
    requires
        40 <= total_len <= packet@.len(),
        total_len <= 0x10_0000,
    ensures
        match transport(packet@, packet@[6], 40, total_len as int) {
            None => r is None,
            Some((at, protocol)) => r matches Some(q) && q.0 == at && q.1 == protocol,
        },
        r matches Some(q) ==> q.0 <= total_len + 2048,
{
    let mut next_header: u8 = packet[6];
    let mut offset: usize = 40;
    loop
        invariant
            40 <= total_len <= packet@.len(),
            total_len <= 0x10_0000,
            40 <= offset <= total_len + 2048,
            transport(packet@, packet@[6], 40, total_len as int) == transport(
                packet@,
                next_header,
                offset as int,
                total_len as int,
            ),
        decreases total_len + 4096 - offset,
    {
        match protocol_from(next_header) {
            Some(protocol) => {
                return Some((offset, protocol));
            },
            None => {},
        }
        if next_header == 0 || next_header == 43 || next_header == 44 || next_header == 60 {
            if offset + 8 > total_len {
                return None;
            }
            let header_len: usize = (packet[offset + 1] as usize + 1) * 8;
            next_header = packet[offset];
            offset = offset + header_len;
        } else if next_header == 51 {
            if offset + 8 > total_len {
                return None;
            }
            let header_len: usize = (packet[offset + 1] as usize + 2) * 4;
            next_header = packet[offset];
            offset = offset + header_len;
        } else {
            return None;
        }
    }
}

fn transport_header_len(
    protocol: Protocol,
    packet: &[u8],
    transport_offset: usize,
    total_len: usize,
) -> (r: Option<usize>)
    requires
        total_len <= packet@.len(),
        transport_offset <= 0x10_0000,
    ensures
        match header_len(protocol, packet@, transport_offset as int, total_len as int) {
            None => r is None,
            Some(n) => r matches Some(m) && m == n,
        },
        r matches Some(m) ==> transport_offset + m <= total_len,
{
    match protocol {
        Protocol::Tcp => {
            if transport_offset + 20 > total_len {
                return None;
            }
            let tcp_header_len: usize = upper(packet[transport_offset + 12]) * 4;
            if tcp_header_len < 20 || transport_offset + tcp_header_len > total_len {
                return None;
            }
            Some(tcp_header_len)
        },
        Protocol::Udp => {
            if transport_offset + 8 > total_len {
                return None;
            }
            Some(8)
        },
    }
}

/// The start of TCP or UDP never lies before the fixed IPv6 header.
proof fn lemma_transport_at(p: Seq<u8>, n: u8, at: int, total: int)
    requires
        at >= 40,
    ensures
        transport(p, n, at, total) matches Some(q) ==> q.0 >= 40,
    decreases total + 4096 - at,
{
    if protocol_of(n) is None && is_extension(n) && at + 8 <= total {
        lemma_transport_at(p, p[at], at + extension_len(n, p, at), total);
    }
}

/// A packet that was read lies inside its buffer, and its payload inside the packet, behind
/// a transport header of at least 8 bytes; only payload bytes count against a limit.
pub proof fn payload_lies_inside(p: Seq<u8>, is_ipv6: bool)
    ensures
        read_packet(p, is_ipv6) matches Some(k) ==> {
            &&& k.payload_len + 8 <= k.total_len <= p.len()
            &&& k.protocol == Protocol::Tcp ==> k.payload_len + 20 <= k.total_len
            &&& is_ipv6 ==> k.payload_len + 48 <= k.total_len
        },
{
    if is_ipv6 {
        lemma_transport_at(p, p[6], 40, 40 + word_at(p, 4));
    }
}

/// How long a packet says it is.
pub open spec fn stated_len(p: Seq<u8>, is_ipv6: bool) -> int {
    if is_ipv6 {
        40 + word_at(p, 4)
    } else {
        word_at(p, 2)
    }
}

proof fn lemma_transport_alike(p: Seq<u8>, q: Seq<u8>, n: u8, at: int, total: int)
    requires
        0 <= at,
        total <= p.len(),
        total <= q.len(),
        forall|i: int| 0 <= i < total ==> p[i] == q[i],
    ensures
        transport(p, n, at, total) == transport(q, n, at, total),
    decreases total + 4096 - at,
{
    if protocol_of(n) is None && is_extension(n) && at + 8 <= total {
        lemma_transport_alike(p, q, p[at], at + extension_len(n, p, at), total);
    }
}

/// Bytes behind the length that a packet states do not change how it reads. An IPv4 packet that
/// states less than ten bytes is left out, as its protocol number lies behind them.
pub proof fn bytes_behind_a_packet_mean_nothing(p: Seq<u8>, q: Seq<u8>, is_ipv6: bool)
    requires
        p.len() >= if is_ipv6 {
            40int
        } else {
            24
        },
        q.len() >= if is_ipv6 {
            40int
        } else {
            24
        },
        10 <= stated_len(p, is_ipv6) <= p.len(),
        stated_len(p, is_ipv6) <= q.len(),
        p.take(stated_len(p, is_ipv6)) == q.take(stated_len(p, is_ipv6)),
    ensures
        read_packet(p, is_ipv6) == read_packet(q, is_ipv6),
{
    let total = stated_len(p, is_ipv6);
    assert forall|i: int| 0 <= i < total implies p[i] == q[i] by {
        assert(p.take(total)[i] == q.take(total)[i]);
    }
    if is_ipv6 {
        lemma_transport_alike(p, q, p[6], 40, total);
        lemma_transport_at(p, p[6], 40, total);
    }
}

/// The version number decides: no buffer reads as both IPv4 and IPv6.
pub proof fn versions_exclude_each_other(p: Seq<u8>)
    ensures
        !(read_packet(p, false) is Some && read_packet(p, true) is Some),
{
}

/// An IPv4 packet is its header, the header of TCP or UDP in it, and its payload, and nothing else;
/// a buffer is read just where all of it is there.
pub proof fn ipv4_packets_are_headers_and_payload(p: Seq<u8>)
    ensures
        ({
            let at = p[0] as int % 16 * 4;
            let total = p[2] * 256 + p[3];
            let tcp_len = p[at + 12] as int / 16 * 4;
            let tcp = p[9] == 6 && at + 20 <= total && 20 <= tcp_len && at + tcp_len <= total;
            let udp = p[9] == 17 && at + 8 <= total;
            let whole = p.len() >= 24 && p[0] as int / 16 == 4 && at + 4 <= p.len() && at <= total
                <= p.len() && (tcp || udp);
            match read_packet(p, false) {
                None => !whole,
                Some(k) => {
                    &&& whole
                    &&& k.protocol == if tcp {
                        Protocol::Tcp
                    } else {
                        Protocol::Udp
                    }
                    &&& k.total_len == total
                    &&& at + (if tcp {
                        tcp_len
                    } else {
                        8
                    }) + k.payload_len == total
                    &&& k.source_port == p[at] * 256 + p[at + 1]
                    &&& k.destination_port == p[at + 2] * 256 + p[at + 3]
                },
            }
        }),
{
}

/// Whether the headers of an IPv6 packet of `total` bytes stand at `starts` and are of `kinds`: the
/// first follows the fixed header, and each but the last is an extension header that tells its
/// length in units of eight bytes, or of four where it is an authentication header, and what comes
/// next.
pub open spec fn is_header_chain(p: Seq<u8>, total: int, starts: Seq<int>, kinds: Seq<u8>) -> bool {
    &&& 0 < starts.len() == kinds.len()
    &&& starts[0] == 40
    &&& kinds[0] == p[6]
    &&& forall|i: int| #![trigger starts[i]]
        0 <= i < starts.len() - 1 ==> {
            &&& kinds[i] == 0 || kinds[i] == 43 || kinds[i] == 44 || kinds[i] == 51 || kinds[i]
                == 60
            &&& starts[i] + 8 <= total
            &&& kinds[i + 1] == p[starts[i]]
            &&& starts[i + 1] == starts[i] + if kinds[i] == 51 {
                4 * (p[starts[i] + 1] + 2)
            } else {
                8 * (p[starts[i] + 1] + 1)
            }
        }
}

proof fn lemma_chain_followed(p: Seq<u8>, total: int, starts: Seq<int>, kinds: Seq<u8>, i: int)
    requires
        is_header_chain(p, total, starts, kinds),
        0 <= i < starts.len(),
    ensures
        starts[i] >= 40,
        transport(p, p[6], 40, total) == transport(p, kinds[i], starts[i], total),
    decreases i,
{
    if i > 0 {
        lemma_chain_followed(p, total, starts, kinds, i - 1);
        assert(starts[i - 1] + 8 <= total);
        assert(kinds[i - 1 + 1] == p[starts[i - 1]]);
    }
}

/// An IPv6 packet is its fixed header, its extension headers, the header of TCP or UDP behind them,
/// and its payload, and nothing else; where the chain of headers comes to something else, or to an
/// extension header that is not whole, nothing is read.
pub proof fn ipv6_packets_are_headers_and_payload(p: Seq<u8>, starts: Seq<int>, kinds: Seq<u8>)
    requires
        p.len() >= 40,
        p[0] as int / 16 == 6,
        40 + p[4] * 256 + p[5] <= p.len(),
        is_header_chain(p, 40 + p[4] * 256 + p[5], starts, kinds),
    ensures
        ({
            let total = 40 + p[4] * 256 + p[5];
            let (at, kind) = (starts.last(), kinds.last());
            let tcp_len = p[at + 12] as int / 16 * 4;
            let tcp = kind == 6 && at + 20 <= total && 20 <= tcp_len && at + tcp_len <= total;
            let udp = kind == 17 && at + 8 <= total;
            match read_packet(p, true) {
                Some(k) => {
                    &&& tcp || udp || ((kind == 0 || kind == 43 || kind == 44 || kind == 51 || kind
                        == 60) && at + 8 <= total)
                    &&& tcp || udp ==> {
                        &&& k.protocol == if tcp {
                            Protocol::Tcp
                        } else {
                            Protocol::Udp
                        }
                        &&& k.total_len == total
                        &&& at + (if tcp {
                            tcp_len
                        } else {
                            8
                        }) + k.payload_len == total
                        &&& k.source_port == p[at] * 256 + p[at + 1]
                        &&& k.destination_port == p[at + 2] * 256 + p[at + 3]
                    }
                },
                None => !tcp && !udp,
            }
        }),
{
    lemma_chain_followed(p, 40 + p[4] * 256 + p[5], starts, kinds, starts.len() - 1);
}

/// A buffer that is too short for the length that its packet states, or for the fixed header, or
/// that is of another version, is not read as IPv6.
pub proof fn broken_ipv6_packets_are_not_read(p: Seq<u8>)
    requires
        p.len() < 40 || p[0] as int / 16 != 6 || 40 + p[4] * 256 + p[5] > p.len(),
    ensures
        read_packet(p, true) is None,
{
}

} // verus!

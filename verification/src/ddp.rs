//! Datagram Delivery Protocol: sockets, inbound delivery and outbound headers.

use crate::addr::{AddressSource, AppleTalkAddress};
use crate::addressing::{EthernetMac, Node};
use crate::idmap::IdMap;
use crate::link::{DataLinkPacket, DataLinkProtocol};
use crate::nbp::addr_on;
use crate::random::random_u8;
use crate::route_table::{Interface, NextHop};
use crate::wire::{be16, put_bytes};
use vstd::prelude::*;

verus! {

/// Most payload bytes in one datagram.
pub const DDP_MAX_PAYLOAD: usize = 586;

/// Bytes in a long header.
pub const DDP_LONG_HEADER: usize = 13;

/// Bytes in a short header, which LocalTalk uses.
pub const DDP_SHORT_HEADER: usize = 5;

/// First socket number that is given out dynamically.
pub const FIRST_DYNAMIC_SOCKET: u8 = 64;

/// The protocol of a datagram's payload.
#[derive(Debug, Clone, Copy, PartialEq, Eq, Structural)]
pub enum DdpProtocolType {
    RtmpResponse,
    Nbp,
    Atp,
    Aep,
    RtmpRequest,
    Zip,
    Adsp,
    /// A protocol that has no name here, by its number.
    Other(u8),
}

impl DdpProtocolType {
    /// The number that stands for a protocol in headers.
    pub open spec fn code(self) -> u8 {
        match self {
            DdpProtocolType::RtmpResponse => 1,
            DdpProtocolType::Nbp => 2,
            DdpProtocolType::Atp => 3,
            DdpProtocolType::Aep => 4,
            DdpProtocolType::RtmpRequest => 5,
            DdpProtocolType::Zip => 6,
            DdpProtocolType::Adsp => 7,
            DdpProtocolType::Other(n) => n,
        }
    }

    /// The number that stands for a protocol in headers.
    pub fn number(&self) -> (n: u8)
        ensures
            n == self.code(),
    {
        match *self {
            DdpProtocolType::RtmpResponse => 1,
            DdpProtocolType::Nbp => 2,
            DdpProtocolType::Atp => 3,
            DdpProtocolType::Aep => 4,
            DdpProtocolType::RtmpRequest => 5,
            DdpProtocolType::Zip => 6,
            DdpProtocolType::Adsp => 7,
            DdpProtocolType::Other(n) => n,
        }
    }

    /// The protocol that a number in a header stands for; every number stands
    /// for one.
    pub fn from_number(n: u8) -> (p: Self)
        ensures
            p.code() == n,
            p matches DdpProtocolType::Other(_) ==> n == 0 || n > 7,
    {
        match n {
            1 => DdpProtocolType::RtmpResponse,
            2 => DdpProtocolType::Nbp,
            3 => DdpProtocolType::Atp,
            4 => DdpProtocolType::Aep,
            5 => DdpProtocolType::RtmpRequest,
            6 => DdpProtocolType::Zip,
            7 => DdpProtocolType::Adsp,
            _ => DdpProtocolType::Other(n),
        }
    }
}

/// A datagram header.
#[derive(Debug, Clone, Copy, PartialEq, Eq, Structural)]
pub struct DdpHeaders {
    pub hop_count: u8,
    pub len: usize,
    pub chksum: u16,
    pub dest_network_num: u16,
    pub dest_sock_num: u8,
    pub dest_node_id: u8,
    pub src_network_num: u16,
    pub src_sock_num: u8,
    pub src_node_id: u8,
    pub protocol_typ: DdpProtocolType,
}

/// A socket on the internet.
#[derive(Debug, Clone, Copy, PartialEq, Eq, Structural)]
pub struct DdpAddress {
    pub addr: AppleTalkAddress,
    pub sock: u8,
}

impl DdpAddress {
    /// The socket `sock` of a node.
    pub fn new(network: AppleTalkAddress, sock: u8) -> (a: Self)
        ensures
            a.addr == network,
            a.sock == sock,
    {
        DdpAddress { addr: network, sock }
    }
}

/// The socket number is in use.
#[derive(Debug, Clone, Copy, PartialEq, Eq, Structural)]
pub struct SocketInUse;

/// What becomes of a datagram that came in.
#[derive(Debug, Clone, Copy, PartialEq, Eq, Structural)]
pub enum Delivery {
    /// It is not for us.
    NotForUs,
    /// Nobody listens on its socket.
    NoSocket,
    /// It goes to this socket.
    ToSocket(u8),
}

/// The open sockets of a node.
#[derive(Debug)]
pub struct DdpProcessor {
    pub sockets: IdMap<()>,
}

impl DdpProcessor {
    /// The invariant of the open sockets.
    pub open spec fn wf(self) -> bool {
        self.sockets.wf()
    }

    /// Whether a socket is open.
    pub open spec fn is_open(self, sock: u8) -> bool {
        self.sockets@.contains_key(sock as u64)
    }

    /// No sockets.
    pub fn new() -> (p: Self)
        ensures
            p.wf(),
            forall|s: u8| !p.is_open(s),
    {
        DdpProcessor { sockets: IdMap::new() }
    }

    /// Opens a socket by number.
    pub fn open(&mut self, sock: u8) -> (r: Result<u8, SocketInUse>)
        requires
            old(self).wf(),
        ensures
            final(self).wf(),
            r == if old(self).is_open(sock) {
                Err::<u8, SocketInUse>(SocketInUse)
            } else {
                Ok(sock)
            },
            forall|s: u8| #[trigger] final(self).is_open(s) <==> old(self).is_open(s) || s == sock,
    {
        if self.sockets.contains(sock as u64) {
            return Err(SocketInUse);
        }
        self.sockets.insert(sock as u64, ());
        Ok(sock)
    }

    /// Opens the given socket, or one whose number is picked at random from
    /// the dynamic range.
    pub fn new_sock(&mut self, sock_num: Option<u8>) -> (r: Result<u8, SocketInUse>)
        requires
            old(self).wf(),
        ensures
            final(self).wf(),
            match sock_num {
                Some(n) => r == if old(self).is_open(n) {
                    Err::<u8, SocketInUse>(SocketInUse)
                } else {
                    Ok(n)
                },
                None => match r {
                    Ok(n) => FIRST_DYNAMIC_SOCKET <= n && !old(self).is_open(n),
                    Err(_) => exists|n: u8| FIRST_DYNAMIC_SOCKET <= n && #[trigger] old(self).is_open(n),
                },
            },
            forall|s: u8| #[trigger] final(self).is_open(s) <==> old(self).is_open(s) || r == Ok::<u8, SocketInUse>(s),
    {
        let n: u8 = match sock_num {
            Some(n) => n,
            None => random_u8(FIRST_DYNAMIC_SOCKET, 255),
        };
        assert(old(self).is_open(n) == self.is_open(n));
        self.open(n)
    }

    /// Closes a socket whose owner is gone.
    pub fn close(&mut self, sock: u8)
        requires
            old(self).wf(),
        ensures
            final(self).wf(),
            forall|s: u8| #[trigger] final(self).is_open(s) <==> old(self).is_open(s) && s != sock,
    {
        let _gone = self.sockets.remove(sock as u64);
    }

    /// Where a datagram goes: it is for us if it is a broadcast or if its
    /// destination matches our address, and then it goes to its socket.
    pub fn deliver(&self, headers: &DdpHeaders, dest_matches_us: bool) -> (d: Delivery)
        requires
            self.wf(),
        ensures
            d == if headers.dest_node_id != 255 && !dest_matches_us {
                Delivery::NotForUs
            } else if self.is_open(headers.dest_sock_num) {
                Delivery::ToSocket(headers.dest_sock_num)
            } else {
                Delivery::NoSocket
            },
    {
        if headers.dest_node_id != 255 && !dest_matches_us {
            return Delivery::NotForUs;
        }
        if self.sockets.contains(headers.dest_sock_num as u64) {
            Delivery::ToSocket(headers.dest_sock_num)
        } else {
            Delivery::NoSocket
        }
    }
}

/// What a received datagram leads to: the sender's address and node, to be
/// remembered where the sender was not known yet, and the delivery.
#[derive(Debug, Clone, Copy)]
pub struct Received {
    pub learned: Option<(AppleTalkAddress, Node)>,
    pub delivery: Delivery,
}

impl DdpProcessor {
    /// Takes in a datagram from a link. `sender_known` tells whether the node
    /// of the sender's address is known already, `dest_matches_us` whether the
    /// destination matches our address on that link.
    pub fn handle_packet(
        &self,
        headers: &DdpHeaders,
        source: AddressSource,
        source_mac: EthernetMac,
        sender_known: bool,
        dest_matches_us: bool,
    ) -> (r: Received)
        requires
            self.wf(),
        ensures
            r.learned is None <==> sender_known,
            r.learned matches Some(l) ==> l.0 == (AppleTalkAddress {
                network_number: headers.src_network_num,
                node_number: headers.src_node_id,
            }) && l.1 == match source {
                AddressSource::EtherTalkPhase2 => Node::EtherTalkPhase2(source_mac),
                AddressSource::EtherTalkPhase1 => Node::EtherTalkPhase1(source_mac),
                AddressSource::LocalTalk => Node::LocalTalk(headers.src_node_id),
            },
            r.delivery == if headers.dest_node_id != 255 && !dest_matches_us {
                Delivery::NotForUs
            } else if self.is_open(headers.dest_sock_num) {
                Delivery::ToSocket(headers.dest_sock_num)
            } else {
                Delivery::NoSocket
            },
    {
        let learned = if sender_known {
            None
        } else {
            Some(
                (
                    AppleTalkAddress {
                        network_number: headers.src_network_num,
                        node_number: headers.src_node_id,
                    },
                    sender_node(source, source_mac, headers.src_node_id),
                ),
            )
        };
        Received { learned, delivery: self.deliver(headers, dest_matches_us) }
    }
}

/// Whether a payload can be sent in one datagram.
pub fn payload_fits(len: usize) -> (r: bool)
    ensures
        r == (len <= DDP_MAX_PAYLOAD),
{
    len <= DDP_MAX_PAYLOAD
}

/// The node that sent a datagram, as far as its link shows, to be remembered
/// for the sender's address.
pub fn sender_node(source: AddressSource, source_mac: EthernetMac, src_node_id: u8) -> (n: Node)
    ensures
        n == match source {
            AddressSource::EtherTalkPhase2 => Node::EtherTalkPhase2(source_mac),
            AddressSource::EtherTalkPhase1 => Node::EtherTalkPhase1(source_mac),
            AddressSource::LocalTalk => Node::LocalTalk(src_node_id),
        },
{
    match source {
        AddressSource::EtherTalkPhase2 => Node::EtherTalkPhase2(source_mac),
        AddressSource::EtherTalkPhase1 => Node::EtherTalkPhase1(source_mac),
        AddressSource::LocalTalk => Node::LocalTalk(src_node_id),
    }
}

/// The payload of a received long-header datagram: what stands behind the
/// header, up to the length that the header gives.
pub fn long_payload(pkt: &[u8], len: usize) -> (r: Vec<u8>)
    requires
        DDP_LONG_HEADER <= pkt@.len(),
        DDP_LONG_HEADER <= len,
    ensures
        r@ == pkt@.subrange(
            DDP_LONG_HEADER as int,
            if len <= pkt@.len() {
                len as int
            } else {
                pkt@.len() as int
            },
        ),
{
    let end: usize = if len <= pkt.len() { len } else { pkt.len() };
    crate::wire::slice_bytes(pkt, DDP_LONG_HEADER, end)
}

/// Whether an address stands for every node on every cable.
pub open spec fn is_everywhere(dest: AppleTalkAddress) -> bool {
    dest.network_number == 0 && dest.node_number == 255
}

/// The cable of a route that is there; without one, EtherTalk before LocalTalk.
pub open spec fn cable_for(hop: Option<NextHop>, has_et: bool, has_lt: bool) -> Interface {
    let lt = match hop {
        Some(NextHop::Local(interface)) => interface == Interface::LocalTalk,
        Some(NextHop::Via { router, interface }) => interface == Interface::LocalTalk,
        None => false,
    };
    if lt && has_lt || !has_et {
        Interface::LocalTalk
    } else {
        Interface::EtherTalk
    }
}

/// Where a datagram goes: over which cables, and to which address on each. A
/// broadcast to every network goes out on every cable. Another destination is
/// reached directly where it is on one of our cables, and otherwise through
/// the router of its route.
pub fn next_links(dest: AppleTalkAddress, hop: Option<NextHop>, has_et: bool, has_lt: bool) -> (links: Vec<
    (Interface, AppleTalkAddress),
>)
    requires
        has_et || has_lt,
    ensures
        links@ == if is_everywhere(dest) {
            if has_et && has_lt {
                seq![(Interface::EtherTalk, dest), (Interface::LocalTalk, dest)]
            } else if has_et {
                seq![(Interface::EtherTalk, dest)]
            } else {
                seq![(Interface::LocalTalk, dest)]
            }
        } else {
            seq![
                (
                    cable_for(hop, has_et, has_lt),
                    match hop {
                        Some(NextHop::Via { router, interface }) => router,
                        _ => dest,
                    },
                ),
            ]
        },
{
    let mut links: Vec<(Interface, AppleTalkAddress)> = Vec::new();
    if dest.network_number == 0 && dest.node_number == 255 {
        if has_et {
            links.push((Interface::EtherTalk, dest));
        }
        if has_lt {
            links.push((Interface::LocalTalk, dest));
        }
    } else {
        match hop {
            Some(NextHop::Local(interface)) => {
                links.push((addr_on(Some(interface), has_et, has_lt), dest));
            },
            Some(NextHop::Via { router, interface }) => {
                links.push((addr_on(Some(interface), has_et, has_lt), router));
            },
            None => {
                links.push((addr_on(None, has_et, has_lt), dest));
            },
        }
    }
    links
}

/// Whether a datagram to this node has the short header: on LocalTalk, as long
/// as no router is known. A short header has no network numbers, and with a
/// router there are other networks.
pub open spec fn uses_short_header(dest_node: Node, has_router: bool) -> bool {
    dest_node is LocalTalk && !has_router
}

/// Whether a datagram to this node has the short header.
pub fn short_header(dest_node: Node, has_router: bool) -> (r: bool)
    ensures
        r == uses_short_header(dest_node, has_router),
{
    match dest_node {
        Node::LocalTalk(_) => !has_router,
        _ => false,
    }
}

/// The header of a datagram on its way out.
pub fn outbound_headers(
    our_addr: AppleTalkAddress,
    src_sock: u8,
    dest: DdpAddress,
    protocol: DdpProtocolType,
    payload_len: usize,
    dest_node: Node,
    has_router: bool,
) -> (h: DdpHeaders)
    requires
        payload_len <= DDP_MAX_PAYLOAD,
    ensures
        h == (DdpHeaders {
            hop_count: 0,
            len: (payload_len + if uses_short_header(dest_node, has_router) {
                DDP_SHORT_HEADER
            } else {
                DDP_LONG_HEADER
            }) as usize,
            chksum: 0,
            dest_network_num: dest.addr.network_number,
            dest_sock_num: dest.sock,
            dest_node_id: dest.addr.node_number,
            src_network_num: our_addr.network_number,
            src_sock_num: src_sock,
            src_node_id: our_addr.node_number,
            protocol_typ: protocol,
        }),
{
    let header_len: usize = if short_header(dest_node, has_router) { DDP_SHORT_HEADER } else { DDP_LONG_HEADER };
    DdpHeaders {
        hop_count: 0,
        len: payload_len + header_len,
        chksum: 0,
        dest_network_num: dest.addr.network_number,
        dest_sock_num: dest.sock,
        dest_node_id: dest.addr.node_number,
        src_network_num: our_addr.network_number,
        src_sock_num: src_sock,
        src_node_id: our_addr.node_number,
        protocol_typ: protocol,
    }
}

/// The bytes of a datagram: the serialised header, in a long one the checksum
/// field emptied, and the payload.
pub open spec fn datagram_bytes(header: Seq<u8>, payload: Seq<u8>, long: bool) -> Seq<u8> {
    if long {
        header.update(2, 0u8).update(3, 0u8) + payload
    } else {
        header + payload
    }
}

/// Puts a serialised header and a payload together. The checksum field of a
/// long header is emptied, so that the checksum can be computed.
pub fn assemble(header: Vec<u8>, payload: &[u8], long: bool) -> (bytes: Vec<u8>)
    requires
        long ==> header@.len() >= 4,
    ensures
        bytes@ == datagram_bytes(header@, payload@, long),
{
    let mut bytes = header;
    if long {
        bytes.set(2, 0);
        bytes.set(3, 0);
    }
    put_bytes(&mut bytes, payload);
    bytes
}

/// The packet for the link: the checksum is put into the header of a long
/// datagram; short ones have none.
pub fn handle_outbound(
    dest_node: Node,
    our_addr: AppleTalkAddress,
    bytes: Vec<u8>,
    chksum: u16,
    has_router: bool,
) -> (p: DataLinkPacket)
    requires
        !uses_short_header(dest_node, has_router) ==> bytes@.len() >= 4,
    ensures
        p.dest_node == dest_node,
        p.protocol == DataLinkProtocol::Ddp,
        p.src_node_id == our_addr.node_number,
        p.ddp_long == !uses_short_header(dest_node, has_router),
        p.payload@ == if uses_short_header(dest_node, has_router) {
            bytes@
        } else {
            bytes@.update(2, be16(chksum)[0]).update(3, be16(chksum)[1])
        },
{
    let short = short_header(dest_node, has_router);
    let mut payload = bytes;
    if !short {
        payload.set(2, (chksum / 256) as u8);
        payload.set(3, (chksum % 256) as u8);
    }
    DataLinkPacket {
        dest_node,
        protocol: DataLinkProtocol::Ddp,
        payload,
        src_node_id: our_addr.node_number,
        ddp_long: !short,
    }
}

/// Putting in the checksum changes nothing but the checksum field.
pub proof fn law_checksum_only(bytes: Seq<u8>, chksum: u16, i: int)
    requires
        bytes.len() >= 4,
        0 <= i < bytes.len(),
        i != 2 && i != 3,
    ensures
        bytes.update(2, be16(chksum)[0]).update(3, be16(chksum)[1])[i] == bytes[i],
        bytes.update(2, be16(chksum)[0]).update(3, be16(chksum)[1]).len() == bytes.len(),
{
}

/// Protocols have the numbers that the network knows them by, and no number has
/// two names.
pub proof fn law_protocols_have_their_numbers(n: u8)
    ensures
        DdpProtocolType::RtmpResponse.code() == 1,
        DdpProtocolType::Nbp.code() == 2,
        DdpProtocolType::Atp.code() == 3,
        DdpProtocolType::Aep.code() == 4,
        DdpProtocolType::RtmpRequest.code() == 5,
        DdpProtocolType::Zip.code() == 6,
        DdpProtocolType::Adsp.code() == 7,
        DdpProtocolType::Other(n).code() == n,
{
}

/// Only the broadcast address of no network in particular is everywhere.
pub proof fn law_everywhere_is_one_address(dest: AppleTalkAddress)
    ensures
        is_everywhere(dest) <==> dest == (AppleTalkAddress { network_number: 0, node_number: 255 }),
{
}

/// A datagram takes the link of its next hop, where the node has it; without a
/// hop, or without that link, EtherTalk where there is one, else LocalTalk.
pub proof fn law_datagram_takes_the_link_of_its_hop(hop: NextHop, router: AppleTalkAddress, interface: Interface, has_et: bool, has_lt: bool)
    requires
        has_et || has_lt,
    ensures
        has_et && has_lt ==> cable_for(Some(NextHop::Local(interface)), has_et, has_lt) == interface,
        has_et && has_lt ==> cable_for(Some(NextHop::Via { router, interface }), has_et, has_lt) == interface,
        has_et ==> cable_for(None, has_et, has_lt) == Interface::EtherTalk,
        !has_et ==> cable_for(Some(hop), has_et, has_lt) == Interface::LocalTalk,
        !has_lt ==> cable_for(Some(hop), has_et, has_lt) == Interface::EtherTalk,
        !has_et ==> cable_for(None, has_et, has_lt) == Interface::LocalTalk,
{
}

/// A short header is for a node on LocalTalk, and only where no router is known.
pub proof fn law_short_header_is_for_localtalk(mac: EthernetMac, node: u8, has_router: bool)
    ensures
        uses_short_header(Node::LocalTalk(node), false),
        !uses_short_header(Node::LocalTalk(node), true),
        !uses_short_header(Node::EtherTalkPhase1(mac), has_router),
        !uses_short_header(Node::EtherTalkPhase2(mac), has_router),
{
}

/// A datagram is its header and its payload; with a long header, the checksum at
/// the third and fourth byte is zero, and nothing else differs.
pub proof fn law_datagram_is_header_and_payload(header: Seq<u8>, payload: Seq<u8>, long: bool)
    requires
        header.len() >= 4,
    ensures
        ({
            let d = datagram_bytes(header, payload, long);
            &&& d.len() == header.len() + payload.len()
            &&& forall|k: int| 0 <= k < payload.len() ==> #[trigger] d[header.len() + k] == payload[k]
            &&& forall|k: int| 0 <= k < header.len() && k != 2 && k != 3 ==> #[trigger] d[k] == header[k]
            &&& long ==> d[2] == 0 && d[3] == 0
            &&& !long ==> d[2] == header[2] && d[3] == header[3]
        }),
{
}

/// A datagram carries at most 586 bytes, behind a header of 13 or 5; sockets that
/// are given out start at 64.
pub proof fn law_datagrams_have_limits()
    ensures
        DDP_MAX_PAYLOAD == 586,
        DDP_LONG_HEADER == 13,
        DDP_SHORT_HEADER == 5,
        FIRST_DYNAMIC_SOCKET == 64,
        crate::atp::ATP_HEADER_LEN + crate::atp::ATP_MAX_DATA_PER_PACKET == DDP_MAX_PAYLOAD,
        crate::adsp::ADSP_HEADER_LEN + crate::adsp::ADSP_MAX_DATA < DDP_MAX_PAYLOAD,
{
}

} // verus!

//! The client of a daemon that owns the interfaces: requests and replies,
//! sockets, and the daemon's routing rules.

use crate::addr::{AddressSource, AppleTalkAddress};
use crate::ddp::{DdpHeaders, DdpProtocolType, DDP_LONG_HEADER};
use crate::idmap::IdMap;
use crate::route_table::{CableRange, Interface, RouteChange, RouteSnapshot};
use crate::wire::str_eq;
use vstd::prelude::*;
use vstd::string::*;

verus! {

/// Seconds between signs of life to a daemon that is reached by datagrams.
pub const UDP_KEEPALIVE_SECS: u64 = 30;

// ── Errors ───────────────────────────────────────────────────────────────────

/// The kind of an error that a daemon reports.
#[derive(Debug, Clone, Copy, PartialEq, Eq, Structural)]
pub enum ErrorCode {
    InvalidArgument,
    NotFound,
    AddrInUse,
    Other,
}

/// The kind of an error.
#[derive(Debug, Clone, Copy, PartialEq, Eq, Structural)]
pub enum RemoteErrorKind {
    InvalidInput,
    NotFound,
    AddrInUse,
    InvalidData,
    NotConnected,
    BrokenPipe,
    Other,
}

/// An error of the client, with a message.
#[derive(Debug)]
pub struct RemoteError {
    pub kind: RemoteErrorKind,
    pub message: String,
}

/// The error for what a daemon reports.
pub fn daemon_error(code: ErrorCode, message: &str) -> (e: RemoteError)
    ensures
        e.kind == match code {
            ErrorCode::InvalidArgument => RemoteErrorKind::InvalidInput,
            ErrorCode::NotFound => RemoteErrorKind::NotFound,
            ErrorCode::AddrInUse => RemoteErrorKind::AddrInUse,
            ErrorCode::Other => RemoteErrorKind::Other,
        },
        e.message@ == "daemon error: "@ + message@,
{
    let mut text = "daemon error: ".to_owned();
    text.append(message);
    RemoteError {
        kind: match code {
            ErrorCode::InvalidArgument => RemoteErrorKind::InvalidInput,
            ErrorCode::NotFound => RemoteErrorKind::NotFound,
            ErrorCode::AddrInUse => RemoteErrorKind::AddrInUse,
            ErrorCode::Other => RemoteErrorKind::Other,
        },
        message: text,
    }
}

/// The error for a reply of another kind than the request asks for.
pub fn unexpected_reply() -> (e: RemoteError)
    ensures
        e.kind == RemoteErrorKind::InvalidData,
        e.message@ == "unexpected reply kind from daemon"@,
{
    RemoteError { kind: RemoteErrorKind::InvalidData, message: "unexpected reply kind from daemon".to_owned() }
}

/// The error for a connection that is gone.
pub fn connection_closed() -> (e: RemoteError)
    ensures
        e.kind == RemoteErrorKind::BrokenPipe,
        e.message@ == "daemon connection closed"@,
{
    RemoteError { kind: RemoteErrorKind::BrokenPipe, message: "daemon connection closed".to_owned() }
}

// ── Requests and sockets ─────────────────────────────────────────────────────

/// What is under way with a daemon: the requests that wait for a reply and the
/// sockets that datagrams are delivered to.
#[derive(Debug)]
pub struct RemoteClient {
    pub next_id: u64,
    pub pending: IdMap<()>,
    pub sockets: IdMap<()>,
}

impl RemoteClient {
    /// The invariant of the client.
    pub open spec fn wf(self) -> bool {
        self.pending.wf() && self.sockets.wf()
    }

    /// The requests that wait for a reply.
    pub open spec fn waiting(self) -> Set<u64> {
        self.pending@.dom()
    }

    /// The sockets that are open.
    pub open spec fn open_sockets(self) -> Set<u64> {
        self.sockets@.dom()
    }

    /// A client with nothing under way.
    pub fn new() -> (c: Self)
        ensures
            c.wf(),
            c.next_id == 1,
            c.waiting() == Set::<u64>::empty(),
            c.open_sockets() == Set::<u64>::empty(),
    {
        let c = RemoteClient { next_id: 1, pending: IdMap::new(), sockets: IdMap::new() };
        assert(c.waiting() =~= Set::<u64>::empty());
        assert(c.open_sockets() =~= Set::<u64>::empty());
        c
    }

    /// The number of a new request, which then waits for its reply.
    pub fn request(&mut self) -> (id: u64)
        requires
            old(self).wf(),
        ensures
            final(self).wf(),
            id == old(self).next_id,
            final(self).next_id == if old(self).next_id == u64::MAX {
                0
            } else {
                old(self).next_id + 1
            },
            final(self).waiting() == old(self).waiting().insert(id),
            final(self).open_sockets() == old(self).open_sockets(),
    {
        let id: u64 = self.next_id;
        self.next_id = id.wrapping_add(1);
        self.pending.insert(id, ());
        assert(self.waiting() =~= old(self).waiting().insert(id));
        id
    }

    /// Takes in the reply to a request, or that it could not be sent. Returns
    /// whether somebody waits for it.
    pub fn settle(&mut self, id: u64) -> (known: bool)
        requires
            old(self).wf(),
        ensures
            final(self).wf(),
            known == old(self).waiting().contains(id),
            final(self).waiting() == old(self).waiting().remove(id),
            final(self).open_sockets() == old(self).open_sockets(),
            final(self).next_id == old(self).next_id,
    {
        let found = self.pending.remove(id);
        assert(self.waiting() =~= old(self).waiting().remove(id));
        found.is_some()
    }

    /// Takes in the number of a socket that the daemon has opened.
    pub fn open_socket(&mut self, socket_id: u32) -> (r: Result<u8, RemoteError>)
        requires
            old(self).wf(),
        ensures
            final(self).wf(),
            final(self).waiting() == old(self).waiting(),
            final(self).next_id == old(self).next_id,
            match r {
                Ok(sock) => sock == socket_id && final(self).open_sockets() == old(self).open_sockets().insert(
                    socket_id as u64,
                ),
                Err(e) => socket_id > 255 && e.kind == RemoteErrorKind::InvalidData && e.message@
                    == "socket id out of range"@ && final(self).open_sockets() == old(self).open_sockets(),
            },
    {
        if socket_id > 255 {
            return Err(
                RemoteError { kind: RemoteErrorKind::InvalidData, message: "socket id out of range".to_owned() },
            );
        }
        self.sockets.insert(socket_id as u64, ());
        assert(self.open_sockets() =~= old(self).open_sockets().insert(socket_id as u64));
        Ok(socket_id as u8)
    }

    /// Forgets a socket.
    pub fn close_socket(&mut self, socket_id: u8)
        requires
            old(self).wf(),
        ensures
            final(self).wf(),
            final(self).waiting() == old(self).waiting(),
            final(self).next_id == old(self).next_id,
            final(self).open_sockets() == old(self).open_sockets().remove(socket_id as u64),
    {
        self.sockets.remove(socket_id as u64);
        assert(self.open_sockets() =~= old(self).open_sockets().remove(socket_id as u64));
    }

    /// The socket that a datagram from the daemon goes to, if it is open.
    pub fn socket_for(&self, socket_id: u32) -> (r: Option<u8>)
        requires
            self.wf(),
        ensures
            r == if socket_id <= 255 && self.open_sockets().contains(socket_id as u64) {
                Some(socket_id as u8)
            } else {
                None
            },
    {
        if socket_id <= 255 && self.sockets.contains(socket_id as u64) {
            Some(socket_id as u8)
        } else {
            None
        }
    }

    /// Gives up everything when the connection dies.
    pub fn fail_pending(&mut self)
        ensures
            final(self).wf(),
            final(self).waiting() == Set::<u64>::empty(),
            final(self).open_sockets() == Set::<u64>::empty(),
            final(self).next_id == old(self).next_id,
    {
        self.pending = IdMap::new();
        self.sockets = IdMap::new();
        assert(self.waiting() =~= Set::<u64>::empty());
        assert(self.open_sockets() =~= Set::<u64>::empty());
    }
}

// ── Datagrams from the daemon ────────────────────────────────────────────────

/// A datagram as a daemon hands it over.
#[derive(Debug)]
pub struct DaemonDatagram {
    pub source_network: u32,
    pub source_node: u32,
    pub source_socket: u32,
    pub dest_network: u32,
    pub dest_node: u32,
    pub dest_socket: u32,
    pub arrival_link: u32,
    pub payload: Vec<u8>,
}

/// The low byte of a number.
pub open spec fn low8(n: u32) -> u8 {
    (n % 256) as u8
}

/// The low two bytes of a number.
pub open spec fn low16(n: u32) -> u16 {
    (n % 0x1_0000) as u16
}

/// The low byte of a number.
pub fn low_byte(n: u32) -> (r: u8)
    ensures
        r == low8(n),
{
    (n % 256) as u8
}

/// The low two bytes of a number.
pub fn low_word(n: u32) -> (r: u16)
    ensures
        r == low16(n),
{
    (n % 0x1_0000) as u16
}

/// The link that a datagram arrived on, by the daemon's number for it.
pub open spec fn link_of(arrival_link: u32) -> AddressSource {
    if arrival_link == 1 {
        AddressSource::EtherTalkPhase1
    } else if arrival_link == 3 {
        AddressSource::LocalTalk
    } else {
        AddressSource::EtherTalkPhase2
    }
}

/// The header and the link of a datagram that a daemon hands over. A daemon
/// tells neither the hops nor the checksum.
pub fn datagram_headers(dg: &DaemonDatagram, protocol_typ: DdpProtocolType) -> (r: (DdpHeaders, AddressSource))
    requires
        dg.payload@.len() + DDP_LONG_HEADER <= usize::MAX,
    ensures
        r.0 == (DdpHeaders {
            hop_count: 0,
            len: (dg.payload@.len() + DDP_LONG_HEADER) as usize,
            chksum: 0,
            dest_network_num: low16(dg.dest_network),
            dest_sock_num: low8(dg.dest_socket),
            dest_node_id: low8(dg.dest_node),
            src_network_num: low16(dg.source_network),
            src_sock_num: low8(dg.source_socket),
            src_node_id: low8(dg.source_node),
            protocol_typ,
        }),
        r.1 == link_of(dg.arrival_link),
{
    let source = if dg.arrival_link == 1 {
        AddressSource::EtherTalkPhase1
    } else if dg.arrival_link == 3 {
        AddressSource::LocalTalk
    } else {
        AddressSource::EtherTalkPhase2
    };
    (
        DdpHeaders {
            hop_count: 0,
            len: dg.payload.len() + DDP_LONG_HEADER,
            chksum: 0,
            dest_network_num: low_word(dg.dest_network),
            dest_sock_num: low_byte(dg.dest_socket),
            dest_node_id: low_byte(dg.dest_node),
            src_network_num: low_word(dg.source_network),
            src_sock_num: low_byte(dg.source_socket),
            src_node_id: low_byte(dg.source_node),
            protocol_typ,
        },
        source,
    )
}

// ── Interfaces of the daemon ─────────────────────────────────────────────────

/// The type of an interface.
#[derive(Debug, Clone, Copy, PartialEq, Eq, Structural)]
pub enum InterfaceType {
    EtherTalk,
    LocalTalk,
    Other,
}

/// An interface of a daemon.
#[derive(Debug)]
pub struct DaemonInterface {
    pub name: String,
    pub type_: InterfaceType,
    /// Network and node, where the interface has an address.
    pub address: Option<(u32, u32)>,
}

/// The first interface with a name.
pub open spec fn first_named(interfaces: Seq<DaemonInterface>, name: Seq<char>) -> Option<int>
    decreases interfaces.len(),
{
    if interfaces.len() == 0 {
        None
    } else if interfaces[0].name@ == name {
        Some(0)
    } else {
        match first_named(interfaces.skip(1), name) {
            Some(i) => Some(i + 1),
            None => None,
        }
    }
}

proof fn lemma_first_named(interfaces: Seq<DaemonInterface>, name: Seq<char>, n: int)
    requires
        0 <= n <= interfaces.len(),
        forall|i: int| 0 <= i < n ==> (#[trigger] interfaces[i]).name@ != name,
        n < interfaces.len() ==> interfaces[n].name@ == name,
    ensures
        first_named(interfaces, name) == if n < interfaces.len() {
            Some(n)
        } else {
            None
        },
    decreases interfaces.len(),
{
    if n > 0 {
        let rest = interfaces.skip(1);
        assert forall|i: int| 0 <= i < n - 1 implies (#[trigger] rest[i]).name@ != name by {
            assert(rest[i] == interfaces[i + 1]);
        }
        lemma_first_named(rest, name, n - 1);
    }
}

/// The address of the interface with a name.
pub fn interface_addr(interfaces: &[DaemonInterface], name: &str) -> (r: Result<AppleTalkAddress, RemoteError>)
    ensures
        match first_named(interfaces@, name@) {
            None => r matches Err(e) && e.kind == RemoteErrorKind::NotFound && e.message@ == "interface '"@ + name@
                + "' not found on daemon"@,
            Some(i) => match interfaces@[i].address {
                None => r matches Err(e) && e.kind == RemoteErrorKind::NotConnected && e.message@ == "interface '"@
                    + name@ + "' has no address yet"@,
                Some((network, node)) => r == Ok::<AppleTalkAddress, RemoteError>(
                    AppleTalkAddress { network_number: low16(network), node_number: low8(node) },
                ),
            },
        },
{
    let mut i: usize = 0;
    while i < interfaces.len()
        invariant
            i <= interfaces@.len(),
            forall|k: int| 0 <= k < i ==> (#[trigger] interfaces@[k]).name@ != name@,
        decreases interfaces@.len() - i,
    {
        if str_eq(interfaces[i].name.as_str(), name) {
            proof {
                lemma_first_named(interfaces@, name@, i as int);
            }
            return match interfaces[i].address {
                Some((network, node)) => Ok(
                    AppleTalkAddress { network_number: low_word(network), node_number: low_byte(node) },
                ),
                None => {
                    let mut message = "interface '".to_owned();
                    message.append(name);
                    message.append("' has no address yet");
                    Err(RemoteError { kind: RemoteErrorKind::NotConnected, message })
                },
            };
        }
        i += 1;
    }
    proof {
        lemma_first_named(interfaces@, name@, i as int);
    }
    let mut message = "interface '".to_owned();
    message.append(name);
    message.append("' not found on daemon");
    Err(RemoteError { kind: RemoteErrorKind::NotFound, message })
}

/// Whether `at` is the first interface of a type, or there is none.
pub open spec fn is_first_of(interfaces: Seq<DaemonInterface>, type_: InterfaceType, at: Option<usize>) -> bool {
    match at {
        Some(i) => i < interfaces.len() && interfaces[i as int].type_ == type_ && forall|k: int|
            0 <= k < i ==> (#[trigger] interfaces[k]).type_ != type_,
        None => forall|k: int| 0 <= k < interfaces.len() ==> (#[trigger] interfaces[k]).type_ != type_,
    }
}

/// The interfaces that a stack on top of a daemon uses: the first of each type.
pub fn pick_interfaces(interfaces: &[DaemonInterface]) -> (r: (Option<usize>, Option<usize>))
    ensures
        is_first_of(interfaces@, InterfaceType::EtherTalk, r.0),
        is_first_of(interfaces@, InterfaceType::LocalTalk, r.1),
{
    let mut ethertalk: Option<usize> = None;
    let mut localtalk: Option<usize> = None;
    let mut i: usize = 0;
    while i < interfaces.len()
        invariant
            i <= interfaces@.len(),
            is_first_of(interfaces@.take(i as int), InterfaceType::EtherTalk, ethertalk),
            is_first_of(interfaces@.take(i as int), InterfaceType::LocalTalk, localtalk),
        decreases interfaces@.len() - i,
    {
        let ghost before = interfaces@.take(i as int);
        let ghost after = interfaces@.take(i + 1);
        assert(forall|k: int| 0 <= k < i ==> #[trigger] after[k] == before[k]);
        assert(after[i as int] == interfaces@[i as int]);
        match interfaces[i].type_ {
            InterfaceType::EtherTalk => {
                if ethertalk.is_none() {
                    ethertalk = Some(i);
                }
            },
            InterfaceType::LocalTalk => {
                if localtalk.is_none() {
                    localtalk = Some(i);
                }
            },
            InterfaceType::Other => {},
        }
        i += 1;
    }
    assert(interfaces@.take(i as int) =~= interfaces@);
    (ethertalk, localtalk)
}

// ── Routing rules of the daemon ──────────────────────────────────────────────

/// The daemon's number for an interface.
pub open spec fn interface_code(interface: Option<Interface>) -> u32 {
    match interface {
        Some(Interface::EtherTalk) => 2,
        Some(Interface::LocalTalk) => 3,
        None => 0,
    }
}

/// The interface that a number of the daemon stands for.
pub open spec fn interface_of_code(code: u32) -> Option<Interface> {
    if code == 1 || code == 2 {
        Some(Interface::EtherTalk)
    } else if code == 3 {
        Some(Interface::LocalTalk)
    } else {
        None
    }
}

/// The number that we send for an interface stands for it.
pub proof fn law_interface_codes_read_back(interface: Option<Interface>)
    ensures
        interface_of_code(interface_code(interface)) == interface,
{
}

/// A route as a daemon lists it; what it leaves out is missing.
#[derive(Debug)]
pub struct DaemonRoute {
    pub range: Option<(u32, u32)>,
    pub next_hop: Option<(u32, u32)>,
    pub interface: u32,
}

/// A zone as a daemon lists it.
#[derive(Debug)]
pub struct DaemonZone {
    pub name: String,
    pub ranges: Vec<(u32, u32)>,
}

/// What a daemon lists of its routing rules.
#[derive(Debug)]
pub struct DaemonRoutes {
    pub local_range: Option<(u32, u32)>,
    pub routes: Vec<DaemonRoute>,
    pub zones: Vec<DaemonZone>,
}

/// A cable range out of a daemon's numbers.
pub open spec fn range_of(r: (u32, u32)) -> CableRange {
    (low16(r.0), low16(r.1))
}

/// A route that a daemon lists, unless something is missing.
pub open spec fn route_of(r: DaemonRoute) -> Option<(u16, u16, AppleTalkAddress, Option<Interface>)> {
    match (r.range, r.next_hop) {
        (Some(range), Some(hop)) => Some(
            (
                low16(range.0),
                low16(range.1),
                AppleTalkAddress { network_number: low16(hop.0), node_number: low8(hop.1) },
                interface_of_code(r.interface),
            ),
        ),
        _ => None,
    }
}

/// The complete routes among the first `n`.
pub open spec fn routes_of(routes: Seq<DaemonRoute>, n: nat) -> Seq<(u16, u16, AppleTalkAddress, Option<Interface>)>
    decreases n,
{
    if n == 0 {
        Seq::empty()
    } else {
        let before = routes_of(routes, (n - 1) as nat);
        match route_of(routes[n - 1]) {
            Some(r) => before.push(r),
            None => before,
        }
    }
}

/// The cable ranges out of a daemon's numbers.
pub open spec fn ranges_of(ranges: Seq<(u32, u32)>) -> Seq<CableRange> {
    Seq::new(ranges.len(), |i: int| range_of(ranges[i]))
}

fn convert_ranges(ranges: &[(u32, u32)]) -> (r: Vec<CableRange>)
    ensures
        r@ == ranges_of(ranges@),
{
    let mut out: Vec<CableRange> = Vec::new();
    let mut i: usize = 0;
    while i < ranges.len()
        invariant
            i <= ranges@.len(),
            out@ == ranges_of(ranges@.take(i as int)),
        decreases ranges@.len() - i,
    {
        let (lo, hi) = ranges[i];
        out.push((low_word(lo), low_word(hi)));
        assert(out@ =~= ranges_of(ranges@.take(i + 1)));
        i += 1;
    }
    assert(ranges@.take(i as int) =~= ranges@);
    out
}

fn convert_route(route: &DaemonRoute) -> (r: Option<(u16, u16, AppleTalkAddress, Option<Interface>)>)
    ensures
        r == route_of(*route),
{
    match (route.range, route.next_hop) {
        (Some((lo, hi)), Some((network, node))) => {
            let interface = if route.interface == 1 || route.interface == 2 {
                Some(Interface::EtherTalk)
            } else if route.interface == 3 {
                Some(Interface::LocalTalk)
            } else {
                None
            };
            Some(
                (
                    low_word(lo),
                    low_word(hi),
                    AppleTalkAddress { network_number: low_word(network), node_number: low_byte(node) },
                    interface,
                ),
            )
        },
        _ => None,
    }
}

/// A daemon's routing rules as a snapshot for our own table.
pub fn snapshot_from_proto(reply: &DaemonRoutes) -> (s: RouteSnapshot)
    ensures
        s.local_range == match reply.local_range {
            Some(r) => Some(range_of(r)),
            None => None,
        },
        s.routes@ == routes_of(reply.routes@, reply.routes@.len()),
        s.zones@.len() == reply.zones@.len(),
        forall|i: int|
            0 <= i < reply.zones@.len() ==> (#[trigger] s.zones@[i]).0@ == reply.zones@[i].name@ && s.zones@[i].1@
                == ranges_of(reply.zones@[i].ranges@),
{
    let mut routes: Vec<(u16, u16, AppleTalkAddress, Option<Interface>)> = Vec::new();
    let mut i: usize = 0;
    while i < reply.routes.len()
        invariant
            i <= reply.routes@.len(),
            routes@ == routes_of(reply.routes@, i as nat),
        decreases reply.routes@.len() - i,
    {
        if let Some(route) = convert_route(&reply.routes[i]) {
            routes.push(route);
        }
        i += 1;
    }
    let mut zones: Vec<(String, Vec<CableRange>)> = Vec::new();
    let mut j: usize = 0;
    while j < reply.zones.len()
        invariant
            j <= reply.zones@.len(),
            zones@.len() == j,
            forall|i: int|
                0 <= i < j ==> (#[trigger] zones@[i]).0@ == reply.zones@[i].name@ && zones@[i].1@ == ranges_of(
                    reply.zones@[i].ranges@,
                ),
        decreases reply.zones@.len() - j,
    {
        let zone = &reply.zones[j];
        zones.push((zone.name.clone(), convert_ranges(&zone.ranges)));
        j += 1;
    }
    let local_range = match reply.local_range {
        Some((lo, hi)) => Some((low_word(lo), low_word(hi))),
        None => None,
    };
    RouteSnapshot { local_range, routes, zones }
}

/// A change of the routing rules as a daemon takes it.
#[derive(Debug)]
pub enum RuleRequest {
    SetLocalRange { lo: u32, hi: u32 },
    AddRoute { route: DaemonRoute },
    RemoveRoute { lo: u32, hi: u32 },
    AddZone { zone: DaemonZone },
    RemoveZone { name: String },
}

/// The numbers of cable ranges.
pub open spec fn wide_ranges(ranges: Seq<CableRange>) -> Seq<(u32, u32)> {
    Seq::new(ranges.len(), |i: int| (ranges[i].0 as u32, ranges[i].1 as u32))
}

/// Whether a request asks for a change.
pub open spec fn asks_for(request: RuleRequest, change: RouteChange) -> bool {
    match change {
        RouteChange::SetLocalRange(range) => request == (RuleRequest::SetLocalRange {
            lo: range.0 as u32,
            hi: range.1 as u32,
        }),
        RouteChange::InsertRoute { lo, hi, next_hop, interface } => request == (RuleRequest::AddRoute {
            route: DaemonRoute {
                range: Some((lo as u32, hi as u32)),
                next_hop: Some((next_hop.network_number as u32, next_hop.node_number as u32)),
                interface: interface_code(interface),
            },
        }),
        RouteChange::RemoveRoute { lo, hi } => request == (RuleRequest::RemoveRoute { lo: lo as u32, hi: hi as u32 }),
        RouteChange::InsertZone { zone, ranges } => request matches RuleRequest::AddZone { zone: z } && z.name@ == zone@
            && z.ranges@ == wide_ranges(ranges@),
        RouteChange::RemoveZone { zone } => request matches RuleRequest::RemoveZone { name: z } && z@ == zone@,
    }
}

/// The request that tells a daemon of a change of our table.
pub fn apply_route_change(change: &RouteChange) -> (request: RuleRequest)
    ensures
        asks_for(request, *change),
{
    match change {
        RouteChange::SetLocalRange((lo, hi)) => RuleRequest::SetLocalRange { lo: *lo as u32, hi: *hi as u32 },
        RouteChange::InsertRoute { lo, hi, next_hop, interface } => RuleRequest::AddRoute {
            route: DaemonRoute {
                range: Some((*lo as u32, *hi as u32)),
                next_hop: Some((next_hop.network_number as u32, next_hop.node_number as u32)),
                interface: match interface {
                    Some(Interface::EtherTalk) => 2,
                    Some(Interface::LocalTalk) => 3,
                    None => 0,
                },
            },
        },
        RouteChange::RemoveRoute { lo, hi } => RuleRequest::RemoveRoute { lo: *lo as u32, hi: *hi as u32 },
        RouteChange::InsertZone { zone, ranges } => {
            let mut wide: Vec<(u32, u32)> = Vec::new();
            let mut i: usize = 0;
            while i < ranges.len()
                invariant
                    i <= ranges@.len(),
                    wide@ == wide_ranges(ranges@.take(i as int)),
                decreases ranges@.len() - i,
            {
                let (lo, hi) = ranges[i];
                wide.push((lo as u32, hi as u32));
                assert(wide@ =~= wide_ranges(ranges@.take(i + 1)));
                i += 1;
            }
            assert(ranges@.take(i as int) =~= ranges@);
            RuleRequest::AddZone { zone: DaemonZone { name: zone.clone(), ranges: wide } }
        },
        RouteChange::RemoveZone { zone } => RuleRequest::RemoveZone { name: zone.clone() },
    }
}

/// A route that we tell a daemon of comes back in its listing as it was.
pub proof fn law_told_routes_come_back(
    lo: u16,
    hi: u16,
    next_hop: AppleTalkAddress,
    interface: Option<Interface>,
    request: RuleRequest,
)
    requires
        asks_for(request, RouteChange::InsertRoute { lo, hi, next_hop, interface }),
    ensures
        request matches RuleRequest::AddRoute { route } && route_of(route) == Some((lo, hi, next_hop, interface)),
{
    law_interface_codes_read_back(interface);
}

/// A zone that we tell a daemon of comes back in its listing as it was.
pub proof fn law_told_zones_come_back(zone: String, ranges: Vec<CableRange>, request: RuleRequest)
    requires
        asks_for(request, RouteChange::InsertZone { zone, ranges }),
    ensures
        request matches RuleRequest::AddZone { zone: z } && z.name@ == zone@ && ranges_of(z.ranges@) == ranges@,
{
    assert(request is AddZone);
    let z = request->AddZone_zone;
    assert(ranges_of(z.ranges@) =~= ranges@);
}

/// Numbers keep their low bits.
pub proof fn law_numbers_keep_their_low_bits(n: u32, a: u8, b: u16)
    ensures
        low8(a as u32) == a,
        low16(b as u32) == b,
        low8(n) == n % 256,
        low16(n) == n % 65536,
{
}

/// Links have the numbers 1 for EtherTalk Phase 1, 2 for Phase 2 and 3 for
/// LocalTalk; any other stands for Phase 2.
pub proof fn law_links_have_their_numbers(n: u32)
    ensures
        link_of(1) == AddressSource::EtherTalkPhase1,
        link_of(2) == AddressSource::EtherTalkPhase2,
        link_of(3) == AddressSource::LocalTalk,
        n == 0 || n > 3 ==> link_of(n) == AddressSource::EtherTalkPhase2,
        interface_code(Some(Interface::EtherTalk)) == 2,
        interface_code(Some(Interface::LocalTalk)) == 3,
        interface_code(None) == 0,
        interface_of_code(1) == Some(Interface::EtherTalk),
        n == 0 || n > 3 ==> interface_of_code(n) is None,
{
}

/// An interface is found by its name: the first that has it.
pub proof fn law_first_interface_of_a_name(interfaces: Seq<DaemonInterface>, name: Seq<char>)
    ensures
        match first_named(interfaces, name) {
            Some(i) => 0 <= i < interfaces.len() && interfaces[i].name@ == name && forall|k: int|
                0 <= k < i ==> (#[trigger] interfaces[k]).name@ != name,
            None => forall|k: int| 0 <= k < interfaces.len() ==> (#[trigger] interfaces[k]).name@ != name,
        },
    decreases interfaces.len(),
{
    if interfaces.len() > 0 && interfaces[0].name@ != name {
        let rest = interfaces.skip(1);
        law_first_interface_of_a_name(rest, name);
        assert forall|k: int| 0 < k < interfaces.len() implies #[trigger] interfaces[k] == rest[k - 1] by {}
    }
}

/// A route that a daemon lists is over its range, by way of its router and on its
/// interface; one without a range or a router is none.
pub proof fn law_listed_route_is_as_told(r: DaemonRoute, lo: u16, hi: u16, network: u16, node: u8)
    ensures
        r.range is None || r.next_hop is None ==> route_of(r) is None,
        r.range == Some((lo as u32, hi as u32)) && r.next_hop == Some((network as u32, node as u32)) ==> (route_of(r)
            matches Some(route) && route.0 == lo && route.1 == hi && route.2.network_number == network
            && route.2.node_number == node && route.3 == interface_of_code(r.interface)),
{
}

/// The routes of a listing are those of its entries that are routes, in order.
pub proof fn law_listed_routes_are_taken(routes: Seq<DaemonRoute>, n: nat, i: int)
    requires
        0 <= i < n <= routes.len(),
    ensures
        route_of(routes[i]) matches Some(r) ==> routes_of(routes, n).contains(r),
        routes_of(routes, n).len() <= n,
        (forall|k: int| 0 <= k < n ==> route_of(#[trigger] routes[k]) is Some) ==> routes_of(routes, n).len() == n
            && Some(routes_of(routes, n)[i]) == route_of(routes[i]),
    decreases n,
{
    let all = routes_of(routes, n);
    let fewer = routes_of(routes, (n - 1) as nat);
    if n > 1 {
        law_listed_routes_are_taken(routes, (n - 1) as nat, if i < n - 1 {
            i
        } else {
            0
        });
    } else {
        assert(fewer.len() == 0);
    }
    if route_of(routes[i]) is Some {
        let r = route_of(routes[i])->0;
        if i == n - 1 {
            assert(all.last() == r);
        } else {
            let k = choose|k: int| 0 <= k < fewer.len() && fewer[k] == r;
            assert(all[k] == r);
        }
    }
    if forall|k: int| 0 <= k < n ==> route_of(#[trigger] routes[k]) is Some {
        assert(route_of(routes[n - 1]) is Some);
        assert(forall|k: int| 0 <= k < n - 1 ==> route_of(#[trigger] routes[k]) is Some);
    }
}

/// Ranges are taken as they are listed, and listed as they are.
pub proof fn law_listed_ranges_are_taken(listed: Seq<(u32, u32)>, ranges: Seq<CableRange>, i: int)
    ensures
        ranges_of(listed).len() == listed.len(),
        0 <= i < listed.len() && listed[i].0 < 65536 && listed[i].1 < 65536 ==> ranges_of(listed)[i].0 == listed[i].0
            && ranges_of(listed)[i].1 == listed[i].1,
        wide_ranges(ranges).len() == ranges.len(),
        0 <= i < ranges.len() ==> wide_ranges(ranges)[i].0 == ranges[i].0 && wide_ranges(ranges)[i].1 == ranges[i].1,
{
}

/// A change of the rules is asked for as what it is.
pub proof fn law_changes_are_asked_for(request: RuleRequest, change: RouteChange)
    requires
        asks_for(request, change),
    ensures
        match change {
            RouteChange::SetLocalRange(range) => request is SetLocalRange && request->SetLocalRange_lo == range.0
                && request->SetLocalRange_hi == range.1,
            RouteChange::InsertRoute { lo, hi, next_hop, interface } => request is AddRoute
                && request->AddRoute_route.range == Some((lo as u32, hi as u32)) && request->AddRoute_route.next_hop
                == Some((next_hop.network_number as u32, next_hop.node_number as u32)),
            RouteChange::RemoveRoute { lo, hi } => request is RemoveRoute && request->RemoveRoute_lo == lo
                && request->RemoveRoute_hi == hi,
            RouteChange::InsertZone { zone, ranges } => request is AddZone && request->AddZone_zone.name@ == zone@
                && request->AddZone_zone.ranges@.len() == ranges@.len(),
            RouteChange::RemoveZone { zone } => request is RemoveZone && request->RemoveZone_name@ == zone@,
        },
{
}

/// The interface of a kind is the first of that kind, and there is none only where
/// no interface is of it.
pub proof fn law_first_interface_of_a_kind(interfaces: Seq<DaemonInterface>, type_: InterfaceType, at: Option<usize>, k: int)
    requires
        is_first_of(interfaces, type_, at),
        0 <= k < interfaces.len(),
        interfaces[k].type_ == type_,
    ensures
        at is Some,
        at->0 <= k,
        interfaces[at->0 as int].type_ == type_,
{
}

/// What waits and what is open is told by number.
pub proof fn law_client_is_its_tables(c: RemoteClient, k: u64)
    ensures
        c.waiting().contains(k) == c.pending@.contains_key(k),
        c.open_sockets().contains(k) == c.sockets@.contains_key(k),
{
}

} // verus!

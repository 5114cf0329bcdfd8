//! Address acquisition and resolution: AARP on EtherTalk, LLAP enquiries on
//! LocalTalk.

use crate::addr::{AddressSource, AppleTalkAddress};
use crate::pending::{map_insert, map_new, map_remove, waiting, WaitingMap};
use crate::random::{random_u16, random_u8};
use vstd::prelude::*;

verus! {

/// An Ethernet hardware address.
pub type EthernetMac = [u8; 6];

/// A node on a link.
#[derive(Debug, Clone, Copy, PartialEq, Eq)]
pub enum Node {
    EtherTalkPhase1(EthernetMac),
    EtherTalkPhase2(EthernetMac),
    LocalTalk(u8),
}

/// What an AARP packet is for.
#[derive(Debug, Clone, Copy, PartialEq, Eq, Structural)]
pub enum AarpOpcode {
    Request,
    Response,
    Probe,
}

/// An AARP packet for AppleTalk over Ethernet.
#[derive(Debug, Clone, Copy, PartialEq, Eq)]
pub struct AarpPacket {
    pub hardware_type: u16,
    pub protocol_type: u16,
    pub hardware_size: u8,
    pub protocol_size: u8,
    pub opcode: AarpOpcode,
    pub sender_addr: EthernetMac,
    pub sender_protocol: AppleTalkAddress,
    pub target_addr: EthernetMac,
    pub target_protocol: AppleTalkAddress,
}

/// An AARP packet and the node that it goes to.
#[derive(Debug, Clone, Copy)]
pub struct AarpFrame {
    pub dest_node: Node,
    pub packet: AarpPacket,
}

/// Milliseconds to wait for a node to defend its address on LocalTalk.
pub const LLAP_PROBE_MILLIS: u64 = 10;

/// Milliseconds to wait for a node to defend its address on EtherTalk.
pub const AARP_PROBE_MILLIS: u64 = 1000;

/// Milliseconds to wait for the answer to a lookup.
pub const LOOKUP_MILLIS: u64 = 2000;

/// Milliseconds for which a failed lookup is remembered.
pub const NEGATIVE_MILLIS: u64 = 60_000;

/// Candidates that are tried for an address inside a cable range.
pub const MAX_CANDIDATES: usize = 8;

/// The hardware broadcast address.
pub open spec fn broadcast_bytes() -> Seq<u8> {
    seq![0xFFu8, 0xFFu8, 0xFFu8, 0xFFu8, 0xFFu8, 0xFFu8]
}

/// The multicast address of all AppleTalk nodes on an extended cable.
pub open spec fn multicast_bytes() -> Seq<u8> {
    seq![0x09u8, 0x00u8, 0x07u8, 0xFFu8, 0xFFu8, 0xFFu8]
}

fn mac_is(mac: EthernetMac, other: EthernetMac) -> (r: bool)
    ensures
        r == (mac@ == other@),
{
    let r = mac[0] == other[0] && mac[1] == other[1] && mac[2] == other[2] && mac[3] == other[3] && mac[4] == other[4]
        && mac[5] == other[5];
    assert(r ==> mac@ =~= other@);
    r
}

fn hardware_broadcast() -> (mac: EthernetMac)
    ensures
        mac@ == broadcast_bytes(),
{
    let mac: EthernetMac = [0xFF, 0xFF, 0xFF, 0xFF, 0xFF, 0xFF];
    assert(mac@ =~= broadcast_bytes());
    mac
}

fn appletalk_multicast() -> (mac: EthernetMac)
    ensures
        mac@ == multicast_bytes(),
{
    let mac: EthernetMac = [0x09, 0x00, 0x07, 0xFF, 0xFF, 0xFF];
    assert(mac@ =~= multicast_bytes());
    mac
}

/// An address as one number.
pub open spec fn addr_key(a: AppleTalkAddress) -> u32 {
    (a.network_number * 256 + a.node_number) as u32
}

fn addr_key_of(a: AppleTalkAddress) -> (k: u32)
    ensures
        k == addr_key(a),
{
    a.network_number as u32 * 256 + a.node_number as u32
}

/// Different addresses have different keys.
pub proof fn law_addr_keys_differ(a: AppleTalkAddress, b: AppleTalkAddress)
    ensures
        addr_key(a) == addr_key(b) ==> a == b,
{
}

/// The node behind a hardware address on an EtherTalk link.
pub open spec fn ether_node(source: AddressSource, mac: EthernetMac) -> Node {
    match source {
        AddressSource::EtherTalkPhase2 => Node::EtherTalkPhase2(mac),
        _ => Node::EtherTalkPhase1(mac),
    }
}

/// A node address that may be tried on a link: on LocalTalk a node without a
/// network, on an extended EtherTalk a node in the startup range, on a
/// nonextended one a node without a network.
pub open spec fn is_candidate(local_talk: bool, phase: AddressSource, a: AppleTalkAddress) -> bool {
    if local_talk {
        a.network_number == 0 && 1 <= a.node_number <= 253
    } else if phase == AddressSource::EtherTalkPhase2 {
        0xFF00 <= a.network_number <= 0xFFFE && 1 <= a.node_number <= 253
    } else {
        a.network_number == 0 && 1 <= a.node_number <= 254
    }
}

/// What the address acquisition asks for next.
#[derive(Debug)]
pub enum ProbeStep {
    /// Send an LLAP enquiry to this node and wait for `LLAP_PROBE_MILLIS`.
    Enquire(u8),
    /// Send this probe and wait for `AARP_PROBE_MILLIS`.
    Probe(AarpFrame),
    /// Keep waiting.
    Wait,
}

/// What an AARP packet leads to.
#[derive(Debug)]
pub enum AarpReaction {
    /// Nothing.
    Ignore,
    /// Send this response.
    Respond(AarpFrame),
    /// The requests wait no longer: the address belongs to the node, which is
    /// worth remembering.
    Resolved { requests: Vec<u64>, addr: AppleTalkAddress, node: Node },
}

/// The addressing of one interface. Requests are known by numbers that the
/// caller gives them.
pub struct Addressing {
    pub our_mac: Option<EthernetMac>,
    pub phase: AddressSource,
    /// The settled address, or the candidate that is being probed.
    pub our_addr: AppleTalkAddress,
    pub settled: bool,
    pub pending: WaitingMap,
}

impl Addressing {
    /// The requests that wait, by address key.
    pub open spec fn waits(self) -> Map<u32, Seq<u64>> {
        waiting(self.pending)
    }

    /// The broadcast address of a phase.
    pub fn broadcast_mac(phase: AddressSource) -> (mac: EthernetMac)
        ensures
            mac@ == if phase == AddressSource::EtherTalkPhase2 {
                multicast_bytes()
            } else {
                broadcast_bytes()
            },
    {
        match phase {
            AddressSource::EtherTalkPhase2 => appletalk_multicast(),
            _ => hardware_broadcast(),
        }
    }

    /// Whether `mac` is the broadcast address of an EtherTalk phase.
    pub fn is_broadcast_mac(mac: EthernetMac, phase: AddressSource) -> (r: bool)
        ensures
            r == match phase {
                AddressSource::EtherTalkPhase1 => mac@ == broadcast_bytes(),
                AddressSource::EtherTalkPhase2 => mac@ == multicast_bytes(),
                AddressSource::LocalTalk => false,
            },
    {
        match phase {
            AddressSource::EtherTalkPhase1 => mac_is(mac, hardware_broadcast()),
            AddressSource::EtherTalkPhase2 => mac_is(mac, appletalk_multicast()),
            AddressSource::LocalTalk => false,
        }
    }

    /// An AARP packet of ours and where it goes.
    pub open spec fn frame(self, target: AppleTalkAddress, target_mac: EthernetMac, our_addr: AppleTalkAddress, opcode:
        AarpOpcode, source: AddressSource) -> AarpFrame {
        AarpFrame {
            dest_node: ether_node(source, target_mac),
            packet: AarpPacket {
                hardware_type: 1,
                protocol_type: 0x809b,
                hardware_size: 6,
                protocol_size: 4,
                opcode,
                sender_addr: self.our_mac.unwrap(),
                sender_protocol: our_addr,
                target_addr: target_mac,
                target_protocol: target,
            },
        }
    }

    /// Whether `f` asks all nodes of the cable about `target` in our name.
    pub open spec fn asks_all(self, f: AarpFrame, target: AppleTalkAddress, our_addr: AppleTalkAddress, opcode: AarpOpcode) -> bool {
        &&& f == self.frame(target, f.packet.target_addr, our_addr, opcode, self.phase)
        &&& f.packet.target_addr@ == if self.phase == AddressSource::EtherTalkPhase2 {
            multicast_bytes()
        } else {
            broadcast_bytes()
        }
    }

    fn create_packet(
        &self,
        target: AppleTalkAddress,
        target_mac: EthernetMac,
        our_addr: AppleTalkAddress,
        opcode: AarpOpcode,
        source_type: AddressSource,
    ) -> (f: AarpFrame)
        requires
            self.our_mac is Some,
            source_type != AddressSource::LocalTalk,
        ensures
            f == self.frame(target, target_mac, our_addr, opcode, source_type),
    {
        let our_mac = self.our_mac.unwrap();
        let packet = AarpPacket {
            hardware_type: 1,
            protocol_type: 0x809b,
            hardware_size: 6,
            protocol_size: 4,
            opcode,
            sender_addr: our_mac,
            sender_protocol: our_addr,
            target_addr: target_mac,
            target_protocol: target,
        };
        let dest_node = match source_type {
            AddressSource::EtherTalkPhase2 => Node::EtherTalkPhase2(target_mac),
            _ => Node::EtherTalkPhase1(target_mac),
        };
        AarpFrame { dest_node, packet }
    }

    /// An interface whose address is not settled yet. A fixed address is taken
    /// at once, without a probe; on LocalTalk, where there is no hardware
    /// address, it has no network number yet.
    pub fn new(our_mac: Option<EthernetMac>, phase: AddressSource, fixed_addr: Option<AppleTalkAddress>) -> (a: Self)
        ensures
            a.our_mac == our_mac,
            a.phase == phase,
            a.waits() == Map::<u32, Seq<u64>>::empty(),
            a.settled == (fixed_addr is Some),
            match fixed_addr {
                Some(f) => a.our_addr == if our_mac is None {
                    (AppleTalkAddress { network_number: 0, node_number: f.node_number })
                } else {
                    f
                },
                None => is_candidate(our_mac is None, phase, a.our_addr),
            },
    {
        let pending = map_new();
        assert(waiting(pending) =~= Map::<u32, Seq<u64>>::empty());
        match fixed_addr {
            Some(f) => {
                let our_addr = if our_mac.is_none() {
                    AppleTalkAddress { network_number: 0, node_number: f.node_number }
                } else {
                    f
                };
                Addressing { our_mac, phase, our_addr, settled: true, pending }
            },
            None => {
                let our_addr = fresh_candidate(our_mac.is_none(), phase);
                Addressing { our_mac, phase, our_addr, settled: false, pending }
            },
        }
    }

    /// The probe of the candidate.
    pub open spec fn is_probe(self, step: ProbeStep) -> bool {
        match step {
            ProbeStep::Enquire(node) => self.our_mac is None && node == self.our_addr.node_number,
            ProbeStep::Probe(f) => self.our_mac is Some && self.asks_all(f, self.our_addr, self.our_addr, AarpOpcode::Probe),
            ProbeStep::Wait => false,
        }
    }

    /// The probe to be sent for the candidate.
    pub fn probe(&self) -> (step: ProbeStep)
        requires
            self.our_mac is Some ==> self.phase != AddressSource::LocalTalk,
        ensures
            self.is_probe(step),
    {
        if self.our_mac.is_none() {
            ProbeStep::Enquire(self.our_addr.node_number)
        } else {
            ProbeStep::Probe(
                self.create_packet(
                    self.our_addr,
                    Addressing::broadcast_mac(self.phase),
                    self.our_addr,
                    AarpOpcode::Probe,
                    self.phase,
                ),
            )
        }
    }

    /// Nobody has defended the candidate in time: it is ours.
    pub fn probe_expired(&mut self)
        ensures
            *final(self) == (Addressing { settled: true, ..*old(self) }),
    {
        self.settled = true;
    }

    fn reselect(&mut self) -> (step: ProbeStep)
        requires
            old(self).our_mac is Some ==> old(self).phase != AddressSource::LocalTalk,
        ensures
            is_candidate(old(self).our_mac is None, old(self).phase, final(self).our_addr),
            *final(self) == (Addressing { our_addr: final(self).our_addr, ..*old(self) }),
            final(self).is_probe(step),
    {
        self.our_addr = fresh_candidate(self.our_mac.is_none(), self.phase);
        self.probe()
    }

    /// An LLAP acknowledgement came in while a candidate is being probed. If
    /// it comes from the candidate, another one is tried.
    pub fn probe_acknowledged(&mut self, src_node: u8) -> (step: ProbeStep)
        requires
            old(self).our_mac is Some ==> old(self).phase != AddressSource::LocalTalk,
        ensures
            if src_node == old(self).our_addr.node_number {
                &&& is_candidate(old(self).our_mac is None, old(self).phase, final(self).our_addr)
                &&& *final(self) == (Addressing { our_addr: final(self).our_addr, ..*old(self) })
                &&& final(self).is_probe(step)
            } else {
                *final(self) == *old(self) && step is Wait
            },
    {
        if src_node == self.our_addr.node_number {
            self.reselect()
        } else {
            ProbeStep::Wait
        }
    }

    /// An AARP packet came in while a candidate is being probed. If it is a
    /// probe for the same address, another one is tried.
    pub fn probe_contested(&mut self, pkt: &AarpPacket) -> (step: ProbeStep)
        requires
            old(self).our_mac is Some ==> old(self).phase != AddressSource::LocalTalk,
        ensures
            if pkt.opcode == AarpOpcode::Probe && pkt.target_protocol == old(self).our_addr {
                &&& is_candidate(old(self).our_mac is None, old(self).phase, final(self).our_addr)
                &&& *final(self) == (Addressing { our_addr: final(self).our_addr, ..*old(self) })
                &&& final(self).is_probe(step)
            } else {
                *final(self) == *old(self) && step is Wait
            },
    {
        if pkt.opcode == AarpOpcode::Probe && pkt.target_protocol == self.our_addr {
            self.reselect()
        } else {
            ProbeStep::Wait
        }
    }

    /// Starts a lookup: returns the request to be sent, and lets `request`
    /// wait for the answer.
    pub fn lookup(&mut self, addr: AppleTalkAddress, request: u64) -> (f: AarpFrame)
        requires
            old(self).our_mac is Some,
            old(self).phase != AddressSource::LocalTalk,
        ensures
            old(self).asks_all(f, addr, old(self).our_addr, AarpOpcode::Request),
            final(self).waits() == old(self).waits().insert(
                addr_key(addr),
                if old(self).waits().contains_key(addr_key(addr)) {
                    old(self).waits()[addr_key(addr)].push(request)
                } else {
                    seq![request]
                },
            ),
            *final(self) == (Addressing { pending: final(self).pending, ..*old(self) }),
    {
        let f = self.create_packet(
            addr,
            Addressing::broadcast_mac(self.phase),
            self.our_addr,
            AarpOpcode::Request,
            self.phase,
        );
        let key: u32 = addr_key_of(addr);
        let ghost before = self.waits();
        let mut list = match map_remove(&mut self.pending, key) {
            Some(list) => list,
            None => Vec::new(),
        };
        list.push(request);
        assert(list@ =~= if before.contains_key(key) {
            before[key].push(request)
        } else {
            seq![request]
        });
        map_insert(&mut self.pending, key, list);
        assert(self.waits() =~= before.insert(key, list@));
        f
    }

    /// Takes another address, without a probe.
    pub fn set_addr(&mut self, addr: AppleTalkAddress)
        ensures
            *final(self) == (Addressing { our_addr: addr, ..*old(self) }),
    {
        self.our_addr = addr;
    }

    /// An LLAP enquiry came in: whether it is for us, so that it has to be
    /// acknowledged.
    pub fn received_enquiry(&self, node: u8) -> (acknowledge: bool)
        ensures
            acknowledge == (node == self.our_addr.node_number),
    {
        node == self.our_addr.node_number
    }

    /// Takes in an AARP packet once the address is settled.
    pub fn handle_aarp_packet(&mut self, pkt: &AarpPacket, source: AddressSource) -> (r: AarpReaction)
        requires
            old(self).our_mac is Some,
            source != AddressSource::LocalTalk,
        ensures
            match pkt.opcode {
                AarpOpcode::Request => {
                    &&& *final(self) == *old(self)
                    &&& if pkt.target_protocol.node_number == old(self).our_addr.node_number {
                        r == AarpReaction::Respond(
                            old(self).frame(
                                pkt.sender_protocol,
                                pkt.sender_addr,
                                old(self).our_addr,
                                AarpOpcode::Response,
                                source,
                            ),
                        )
                    } else {
                        r is Ignore
                    }
                },
                AarpOpcode::Probe => {
                    &&& *final(self) == *old(self)
                    &&& if pkt.target_protocol == old(self).our_addr {
                        r == AarpReaction::Respond(
                            old(self).frame(
                                pkt.sender_protocol,
                                pkt.sender_addr,
                                old(self).our_addr,
                                AarpOpcode::Response,
                                source,
                            ),
                        )
                    } else {
                        r is Ignore
                    }
                },
                AarpOpcode::Response => {
                    let key = addr_key(pkt.sender_protocol);
                    &&& *final(self) == (Addressing { pending: final(self).pending, ..*old(self) })
                    &&& final(self).waits() == old(self).waits().remove(key)
                    &&& if old(self).waits().contains_key(key) {
                        r matches AarpReaction::Resolved { requests, addr, node } && requests@ == old(self).waits()[key]
                            && addr == pkt.sender_protocol && node == ether_node(source, pkt.sender_addr)
                    } else {
                        r is Ignore
                    }
                },
            },
    {
        match pkt.opcode {
            AarpOpcode::Request => {
                if pkt.target_protocol.node_number == self.our_addr.node_number {
                    AarpReaction::Respond(
                        self.create_packet(
                            pkt.sender_protocol,
                            pkt.sender_addr,
                            self.our_addr,
                            AarpOpcode::Response,
                            source,
                        ),
                    )
                } else {
                    AarpReaction::Ignore
                }
            },
            AarpOpcode::Probe => {
                if pkt.target_protocol == self.our_addr {
                    AarpReaction::Respond(
                        self.create_packet(
                            pkt.sender_protocol,
                            pkt.sender_addr,
                            self.our_addr,
                            AarpOpcode::Response,
                            source,
                        ),
                    )
                } else {
                    AarpReaction::Ignore
                }
            },
            AarpOpcode::Response => {
                match map_remove(&mut self.pending, addr_key_of(pkt.sender_protocol)) {
                    Some(requests) => {
                        let node = match source {
                            AddressSource::EtherTalkPhase2 => Node::EtherTalkPhase2(pkt.sender_addr),
                            _ => Node::EtherTalkPhase1(pkt.sender_addr),
                        };
                        AarpReaction::Resolved { requests, addr: pkt.sender_protocol, node }
                    },
                    None => AarpReaction::Ignore,
                }
            },
        }
    }

    /// The packet that tests whether a candidate is in use, without claiming
    /// it.
    pub fn probe_candidate(&self, candidate: AppleTalkAddress) -> (step: ProbeStep)
        requires
            self.our_mac is Some ==> self.phase != AddressSource::LocalTalk,
        ensures
            match step {
                ProbeStep::Enquire(node) => self.our_mac is None && node == candidate.node_number,
                ProbeStep::Probe(f) => self.our_mac is Some && self.asks_all(f, candidate, candidate, AarpOpcode::Probe),
                ProbeStep::Wait => false,
            },
    {
        if self.our_mac.is_none() {
            ProbeStep::Enquire(candidate.node_number)
        } else {
            ProbeStep::Probe(
                self.create_packet(
                    candidate,
                    Addressing::broadcast_mac(self.phase),
                    candidate,
                    AarpOpcode::Probe,
                    self.phase,
                ),
            )
        }
    }
}

/// Whether an AARP packet shows that a candidate is in use: its owner answers,
/// or someone else probes for it.
pub fn candidate_taken(candidate: AppleTalkAddress, pkt: &AarpPacket) -> (taken: bool)
    ensures
        taken == ((pkt.opcode == AarpOpcode::Response && pkt.sender_protocol == candidate) || (pkt.opcode
            == AarpOpcode::Probe && pkt.target_protocol == candidate)),
{
    (pkt.opcode == AarpOpcode::Response && pkt.sender_protocol == candidate) || (pkt.opcode == AarpOpcode::Probe
        && pkt.target_protocol == candidate)
}

fn fresh_candidate(local_talk: bool, phase: AddressSource) -> (a: AppleTalkAddress)
    ensures
        is_candidate(local_talk, phase, a),
{
    if local_talk {
        AppleTalkAddress { network_number: 0, node_number: random_u8(1, 253) }
    } else {
        match phase {
            AddressSource::EtherTalkPhase2 => AppleTalkAddress {
                network_number: random_u16(0xFF00, 0xFFFE),
                node_number: random_u8(1, 253),
            },
            _ => AppleTalkAddress { network_number: 0, node_number: random_u8(1, 254) },
        }
    }
}

// ── Cached addresses ─────────────────────────────────────────────────────────

/// What is remembered of an address.
#[derive(Debug, Clone, Copy)]
pub enum CacheEntry {
    /// The node that has the address.
    Valid(Node),
    /// Nobody answered; not to be asked again before this time.
    Negative(u64),
}

/// The broadcast node of a link.
pub open spec fn is_broadcast_node(phase: AddressSource, node: Node) -> bool {
    match phase {
        AddressSource::EtherTalkPhase2 => node matches Node::EtherTalkPhase2(mac) && mac@ == multicast_bytes(),
        AddressSource::EtherTalkPhase1 => node matches Node::EtherTalkPhase1(mac) && mac@ == broadcast_bytes(),
        AddressSource::LocalTalk => node == Node::LocalTalk(255),
    }
}

/// The node of an address, as far as it can be told without asking. Node 255
/// is the broadcast of the link. On LocalTalk a node without a network is its
/// own link address. Everything else has to be remembered.
pub fn try_lookup(phase: AddressSource, addr: AppleTalkAddress, cached: Option<CacheEntry>) -> (r: Option<Node>)
    ensures
        if addr.node_number == 255 {
            r is Some && is_broadcast_node(phase, r.unwrap())
        } else if addr.network_number == 0 && phase == AddressSource::LocalTalk {
            r == Some(Node::LocalTalk(addr.node_number))
        } else {
            r == match cached {
                Some(CacheEntry::Valid(node)) => Some(node),
                _ => None,
            }
        },
{
    if addr.node_number == 255 {
        return Some(
            match phase {
                AddressSource::EtherTalkPhase2 => Node::EtherTalkPhase2(appletalk_multicast()),
                AddressSource::EtherTalkPhase1 => Node::EtherTalkPhase1(hardware_broadcast()),
                AddressSource::LocalTalk => Node::LocalTalk(255),
            },
        );
    }
    if addr.network_number == 0 && phase == AddressSource::LocalTalk {
        return Some(Node::LocalTalk(addr.node_number));
    }
    match cached {
        Some(CacheEntry::Valid(node)) => Some(node),
        _ => None,
    }
}

/// What to do for a lookup that cannot be told without asking.
#[derive(Debug, Clone, Copy)]
pub enum LookupPlan {
    /// The node is known.
    Found(Node),
    /// Nobody answered lately: fail without asking.
    Unanswered,
    /// Ask, wait for `LOOKUP_MILLIS`, and remember a failure.
    Ask,
}

/// Plans a lookup.
pub fn plan_lookup(phase: AddressSource, addr: AppleTalkAddress, cached: Option<CacheEntry>, now: u64) -> (plan: LookupPlan)
    ensures
        match plan {
            LookupPlan::Found(node) => addr.node_number == 255 && is_broadcast_node(phase, node) || addr.node_number
                != 255 && addr.network_number == 0 && phase == AddressSource::LocalTalk && node == Node::LocalTalk(
                addr.node_number,
            ) || addr.node_number != 255 && !(addr.network_number == 0 && phase == AddressSource::LocalTalk) && cached
                == Some(CacheEntry::Valid(node)),
            LookupPlan::Unanswered => addr.node_number != 255 && !(addr.network_number == 0 && phase
                == AddressSource::LocalTalk) && (cached matches Some(CacheEntry::Negative(t)) && now < t),
            LookupPlan::Ask => addr.node_number != 255 && !(addr.network_number == 0 && phase
                == AddressSource::LocalTalk) && match cached {
                None => true,
                Some(CacheEntry::Negative(t)) => now >= t,
                Some(CacheEntry::Valid(_)) => false,
            },
        },
{
    if let Some(node) = try_lookup(phase, addr, cached) {
        return LookupPlan::Found(node);
    }
    match cached {
        Some(CacheEntry::Negative(expires_at)) => if now < expires_at {
            LookupPlan::Unanswered
        } else {
            LookupPlan::Ask
        },
        _ => LookupPlan::Ask,
    }
}

/// What is remembered of an address whose lookup went unanswered at `now`.
pub fn unanswered(now: u64) -> (e: CacheEntry)
    requires
        now + NEGATIVE_MILLIS <= u64::MAX,
    ensures
        e == CacheEntry::Negative((now + NEGATIVE_MILLIS) as u64),
{
    CacheEntry::Negative(now + NEGATIVE_MILLIS)
}

/// What is remembered of the sender of an AARP packet: nothing on LocalTalk,
/// where AARP is not used.
pub fn learned_sender(pkt: &AarpPacket, source: AddressSource) -> (r: Option<CacheEntry>)
    ensures
        r == if source == AddressSource::LocalTalk {
            None
        } else {
            Some(CacheEntry::Valid(ether_node(source, pkt.sender_addr)))
        },
{
    match source {
        AddressSource::EtherTalkPhase2 => Some(CacheEntry::Valid(Node::EtherTalkPhase2(pkt.sender_addr))),
        AddressSource::EtherTalkPhase1 => Some(CacheEntry::Valid(Node::EtherTalkPhase1(pkt.sender_addr))),
        AddressSource::LocalTalk => None,
    }
}

// ── Moving into a cable range ────────────────────────────────────────────────

/// What came of the last step of a search.
#[derive(Debug, Clone, Copy, PartialEq, Eq, Structural)]
pub enum ProbeOutcome {
    /// No candidate has been probed yet.
    NotProbed,
    /// Nobody defends the candidate.
    Free,
    /// The candidate is in use.
    Taken,
    /// The probe could not be made.
    Failed,
}

/// What a search for an address does next.
#[derive(Debug, Clone, Copy, PartialEq, Eq, Structural)]
pub enum RangeStep {
    /// Probe this candidate.
    Probe(AppleTalkAddress),
    /// Take this address.
    Adopt(AppleTalkAddress),
    /// Give up and keep the address.
    Keep,
}

/// A search for a free address inside a cable range.
#[derive(Debug, Clone, Copy)]
pub struct RangeSearch {
    pub lo: u16,
    pub hi: u16,
    pub tried: usize,
    pub candidate: AppleTalkAddress,
}

/// Whether an address lies outside a cable range, so that another one has to
/// be acquired.
pub fn outside_range(cur: AppleTalkAddress, lo: u16, hi: u16) -> (r: bool)
    ensures
        r == !(lo <= cur.network_number <= hi),
{
    !(lo <= cur.network_number && cur.network_number <= hi)
}

impl RangeSearch {
    /// A search that has not probed anything yet.
    pub fn new(lo: u16, hi: u16) -> (s: Self)
        ensures
            s.lo == lo,
            s.hi == hi,
            s.tried == 0,
    {
        RangeSearch { lo, hi, tried: 0, candidate: AppleTalkAddress { network_number: lo, node_number: 0 } }
    }

    /// Takes in the outcome of the last probe. A free candidate is adopted; as
    /// long as candidates are taken, others are tried, at most
    /// [`MAX_CANDIDATES`] in all.
    pub fn acquire_in_range(&mut self, outcome: ProbeOutcome) -> (step: RangeStep)
        requires
            old(self).lo <= old(self).hi,
        ensures
            final(self).lo == old(self).lo,
            final(self).hi == old(self).hi,
            match outcome {
                ProbeOutcome::Free => step == RangeStep::Adopt(old(self).candidate) && *final(self) == *old(self),
                ProbeOutcome::Failed => step == RangeStep::Keep && *final(self) == *old(self),
                _ => if old(self).tried < MAX_CANDIDATES {
                    &&& final(self).tried == old(self).tried + 1
                    &&& step == RangeStep::Probe(final(self).candidate)
                    &&& old(self).lo <= final(self).candidate.network_number <= old(self).hi
                    &&& 1 <= final(self).candidate.node_number <= 253
                } else {
                    step == RangeStep::Keep && *final(self) == *old(self)
                },
            },
    {
        match outcome {
            ProbeOutcome::Free => RangeStep::Adopt(self.candidate),
            ProbeOutcome::Failed => RangeStep::Keep,
            _ => {
                if self.tried < MAX_CANDIDATES {
                    self.tried = self.tried + 1;
                    self.candidate = AppleTalkAddress {
                        network_number: random_u16(self.lo, self.hi),
                        node_number: random_u8(1, 253),
                    };
                    RangeStep::Probe(self.candidate)
                } else {
                    RangeStep::Keep
                }
            },
        }
    }
}

/// The address to take when a router tells the network number: the same node,
/// unless the number is already the right one.
pub fn adopt_network_number(cur: AppleTalkAddress, net: u16) -> (r: Option<AppleTalkAddress>)
    ensures
        r == if cur.network_number == net {
            None
        } else {
            Some(AppleTalkAddress { network_number: net, node_number: cur.node_number })
        },
{
    if cur.network_number != net {
        Some(AppleTalkAddress { network_number: net, node_number: cur.node_number })
    } else {
        None
    }
}

/// Who asks all nodes asks at Apple's multicast address on an extended network,
/// and at the broadcast address of Ethernet on any other.
pub proof fn law_all_nodes_have_an_address()
    ensures
        broadcast_bytes().len() == 6,
        forall|i: int| 0 <= i < 6 ==> #[trigger] broadcast_bytes()[i] == 255,
        multicast_bytes().len() == 6,
        multicast_bytes()[0] == 0x09 && multicast_bytes()[1] == 0 && multicast_bytes()[2] == 0x07,
        multicast_bytes()[3] == 255 && multicast_bytes()[4] == 255 && multicast_bytes()[5] == 255,
{
}

/// Addresses are kept by their network, then their node.
pub proof fn law_addr_key_is_network_and_node(a: AppleTalkAddress)
    ensures
        addr_key(a) / 256 == a.network_number,
        addr_key(a) % 256 == a.node_number,
{
}

/// Address resolution maps Ethernet addresses of six bytes to AppleTalk addresses
/// of four: a packet names us as the sender, with our own addresses, and its
/// target, and goes to the target on the link that it is for.
pub proof fn law_resolution_packets_name_both_ends(
    a: Addressing,
    target: AppleTalkAddress,
    target_mac: EthernetMac,
    our_addr: AppleTalkAddress,
    opcode: AarpOpcode,
    source: AddressSource,
)
    requires
        a.our_mac is Some,
    ensures
        ({
            let f = a.frame(target, target_mac, our_addr, opcode, source);
            &&& f.packet.hardware_type == 1
            &&& f.packet.protocol_type == 0x809B
            &&& f.packet.hardware_size == 6
            &&& f.packet.protocol_size == 4
            &&& f.packet.opcode == opcode
            &&& Some(f.packet.sender_addr) == a.our_mac
            &&& f.packet.sender_protocol == our_addr
            &&& f.packet.target_addr == target_mac
            &&& f.packet.target_protocol == target
            &&& source == AddressSource::EtherTalkPhase2 ==> f.dest_node == Node::EtherTalkPhase2(target_mac)
            &&& source == AddressSource::EtherTalkPhase1 ==> f.dest_node == Node::EtherTalkPhase1(target_mac)
        }),
{
}

/// A question to all nodes goes where all nodes hear it, and asks for the target
/// under our own address.
pub proof fn law_questions_go_to_all(
    a: Addressing,
    f: AarpFrame,
    target: AppleTalkAddress,
    our_addr: AppleTalkAddress,
    opcode: AarpOpcode,
)
    requires
        a.our_mac is Some,
        a.asks_all(f, target, our_addr, opcode),
    ensures
        f.packet.target_protocol == target,
        f.packet.sender_protocol == our_addr,
        Some(f.packet.sender_addr) == a.our_mac,
        f.packet.opcode == opcode,
        a.phase == AddressSource::EtherTalkPhase2 ==> f.packet.target_addr@ == seq![0x09u8, 0, 0x07, 0xFF, 0xFF, 0xFF]
            && f.dest_node == Node::EtherTalkPhase2(f.packet.target_addr),
        a.phase == AddressSource::EtherTalkPhase1 ==> f.packet.target_addr@ == seq![0xFFu8, 0xFF, 0xFF, 0xFF, 0xFF, 0xFF]
            && f.dest_node == Node::EtherTalkPhase1(f.packet.target_addr),
{
}

/// A probe asks for our own tentative address: on LocalTalk by an enquiry for the
/// node, on EtherTalk by a packet to all nodes.
pub proof fn law_probes_ask_for_our_address(a: Addressing, step: ProbeStep)
    requires
        a.is_probe(step),
    ensures
        step matches ProbeStep::Enquire(node) ==> a.our_mac is None && node == a.our_addr.node_number,
        step matches ProbeStep::Probe(f) ==> a.our_mac is Some && f.packet.opcode == AarpOpcode::Probe
            && f.packet.target_protocol == a.our_addr && f.packet.sender_protocol == a.our_addr && Some(
            f.packet.sender_addr,
        ) == a.our_mac,
        step != ProbeStep::Wait,
{
}

/// A node that looks for an address tries none that is reserved: no node zero and
/// no broadcast; on LocalTalk and without a router no network, on an extended
/// network one of those kept for starting up.
pub proof fn law_candidates_are_not_reserved(local_talk: bool, phase: AddressSource, a: AppleTalkAddress)
    requires
        is_candidate(local_talk, phase, a),
    ensures
        0 < a.node_number < 255,
        local_talk || phase == AddressSource::EtherTalkPhase2 ==> a.node_number < 254,
        local_talk || phase != AddressSource::EtherTalkPhase2 ==> a.network_number == 0,
        !local_talk && phase == AddressSource::EtherTalkPhase2 ==> 65280 <= a.network_number < 65535,
{
}

/// All nodes of a link are behind its broadcast: the multicast address of
/// EtherTalk on an extended network, the broadcast address on one that is not, and
/// node 255 on LocalTalk.
pub proof fn law_broadcast_node_is_of_its_link(node: Node)
    ensures
        is_broadcast_node(AddressSource::EtherTalkPhase2, node) <==> node is EtherTalkPhase2
            && node->EtherTalkPhase2_0@ == seq![0x09u8, 0, 0x07, 0xFF, 0xFF, 0xFF],
        is_broadcast_node(AddressSource::EtherTalkPhase1, node) <==> node is EtherTalkPhase1
            && node->EtherTalkPhase1_0@ == seq![0xFFu8, 0xFF, 0xFF, 0xFF, 0xFF, 0xFF],
        is_broadcast_node(AddressSource::LocalTalk, node) <==> node == Node::LocalTalk(255u8),
{
}

/// A learned sender is behind its hardware address, on the link where it was
/// heard.
pub proof fn law_senders_are_behind_their_address(mac: EthernetMac)
    ensures
        ether_node(AddressSource::EtherTalkPhase2, mac) == Node::EtherTalkPhase2(mac),
        ether_node(AddressSource::EtherTalkPhase1, mac) == Node::EtherTalkPhase1(mac),
{
}

/// A probe waits 10 milliseconds on LocalTalk and a second on EtherTalk; an address
/// that nobody answers for is not asked for again for a minute, and eight
/// candidates are tried in a range.
pub proof fn law_probes_have_their_times()
    ensures
        LLAP_PROBE_MILLIS == 10,
        AARP_PROBE_MILLIS == 1000,
        LOOKUP_MILLIS == 2000,
        NEGATIVE_MILLIS == 60000,
        MAX_CANDIDATES == 8,
{
}

} // verus!

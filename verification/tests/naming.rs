use tailtalk::addr::{AddressSource, AppleTalkAddress};
use tailtalk::addressing::{
    adopt_network_number, candidate_taken, learned_sender, outside_range, plan_lookup, try_lookup, unanswered,
    AarpOpcode, AarpPacket, AarpReaction, Addressing, CacheEntry, LookupPlan, Node, ProbeOutcome, ProbeStep,
    RangeSearch, RangeStep, MAX_CANDIDATES,
};
use tailtalk::ddp::{
    assemble, handle_outbound, long_payload, next_links, outbound_headers, payload_fits, sender_node, DdpAddress, DdpHeaders,
    DdpProcessor, DdpProtocolType, Delivery, SocketInUse, DDP_MAX_PAYLOAD,
};
use tailtalk::echo::{AepFunction, Echo, EchoAction, ECHO_TIMEOUT};
use tailtalk::link::{llap_acknowledgement, llap_enquiry, DataLinkProtocol};
use tailtalk::nbp::{
    addr_on, EntityName, LookupSending, Nbp, NbpDestination, NbpOperation, NbpPacket, NotRegistered, RegisterError,
    RegisteredName, SendStep, LOOKUP_WINDOW, NBP_SOCKET,
};
use tailtalk::route_table::{Interface, LearningMode, NextHop, RouteTable};

const MAC_A: [u8; 6] = [0x00, 0x01, 0x02, 0x03, 0x04, 0x05];
const MAC_B: [u8; 6] = [0x00, 0x01, 0x02, 0x03, 0x04, 0x06];

fn addr(net: u16, node: u8) -> AppleTalkAddress {
    AppleTalkAddress { network_number: net, node_number: node }
}

fn name(object: &str, entity_type: &str) -> EntityName {
    EntityName { object: object.to_string(), entity_type: entity_type.to_string(), zone: "*".to_string() }
}

fn entry(object: &str, entity_type: &str, sock_num: u8) -> RegisteredName {
    RegisteredName { name: name(object, entity_type), sock_num }
}

/// Which registered names each tuple asks for, `=` standing for any text.
fn asked_for(nbp: &Nbp, packet: &NbpPacket) -> Vec<Vec<bool>> {
    packet
        .tuples
        .iter()
        .map(|t| {
            nbp.registered_names
                .iter()
                .map(|r| {
                    (t.entity_name.object == "=" || t.entity_name.object == r.name.object)
                        && (t.entity_name.entity_type == "=" || t.entity_name.entity_type == r.name.entity_type)
                })
                .collect()
        })
        .collect()
}

/// Looks a name up from one node on the names of another; the objects found, with their sockets.
fn look_up(from: &mut Nbp, at: &Nbp, wanted: EntityName) -> Vec<(String, String, u8)> {
    let table = RouteTable::new(LearningMode::Dynamic);
    let plan = from.plan_lookup(&wanted, &table, 0);
    let (packet, destinations) = Nbp::lookup_packet(&plan, wanted, addr(65280, 9));
    assert_eq!(packet.operation, NbpOperation::Lookup);
    assert_eq!(destinations.len(), 1);
    assert_eq!(destinations[0].addr, addr(0, 255));
    from.lookup_sent(plan.tid, 0);
    let rows = asked_for(at, &packet);
    if let Some((reply, to)) = at.handle_lookup(&packet, &rows, addr(65280, 8)) {
        assert_eq!(to.addr, addr(65280, 9));
        assert_eq!(to.socket, NBP_SOCKET);
        from.handle_lookup_reply(reply);
    }
    assert!(from.check_timeouts(LOOKUP_WINDOW).is_empty());
    let mut over = from.check_timeouts(LOOKUP_WINDOW + 1);
    assert_eq!(over.len(), 1);
    let (_, lookup) = over.pop().unwrap();
    lookup.results.into_iter().map(|t| (t.entity_name.object, t.entity_name.entity_type, t.socket_number)).collect()
}

#[test]
fn test_nbp_lookup() {
    let mut a = Nbp::new();
    let mut b = Nbp::new();
    a.handle_register_req(entry("FileServer", "AFPServer", 100), true).unwrap();
    a.handle_register_req(entry("PrintServer", "LaserWriter", 101), true).unwrap();

    let results = look_up(&mut b, &a, name("FileServer", "AFPServer"));
    assert_eq!(results.len(), 1, "Should find exactly one FileServer");
    assert_eq!(results[0], ("FileServer".to_string(), "AFPServer".to_string(), 100));

    let results = look_up(&mut b, &a, name("=", "="));
    assert_eq!(results.len(), 2, "Should find both registered names");

    let results = look_up(&mut b, &a, name("NonExistent", "Service"));
    assert_eq!(results.len(), 0, "Should find no results");
}

#[test]
fn test_client_exchange() {
    let mut a = Nbp::new();
    let mut b = Nbp::new();
    a.handle_register_req(entry("ClientA", "Workstation", 123), true).unwrap();
    let results = look_up(&mut b, &a, name("ClientA", "Workstation"));
    assert!(!results.is_empty(), "Client B found no results");
    assert_eq!(results[0].0, "ClientA");

    let target = addr(65280, 8);
    let mut echo_b = Echo::new();
    let mut echo_a = Echo::new();
    echo_b.send_echo(target, 1_000);
    assert_eq!(echo_a.handle_packet(AepFunction::Request, addr(65280, 9), 1_005), EchoAction::SendBack);
    assert_eq!(echo_b.handle_packet(AepFunction::Reply, target, 1_040), EchoAction::Answered(40));
    assert_eq!(echo_b.handle_packet(AepFunction::Reply, target, 1_050), EchoAction::Ignore);
}

#[test]
fn unanswered_echoes_time_out() {
    let mut echo = Echo::new();
    echo.send_echo(addr(1, 2), 0);
    echo.send_echo(addr(1, 3), 100);
    assert!(echo.check_timeouts(ECHO_TIMEOUT).is_empty());
    let late = echo.check_timeouts(ECHO_TIMEOUT + 1);
    assert_eq!(late.len(), 1);
    assert_eq!(late[0].1.addr, addr(1, 2));
    assert_eq!(echo.handle_packet(AepFunction::Reply, addr(1, 2), 9_000), EchoAction::Ignore);
}

#[test]
fn names_register_once() {
    let mut nbp = Nbp::new();
    assert_eq!(nbp.handle_register_req(entry("=", "X", 1), false), Err(RegisterError::InvalidName));
    assert_eq!(nbp.handle_register_req(entry("A", "X", 1), true), Ok(()));
    assert_eq!(nbp.handle_register_req(entry("A", "X", 1), true), Err(RegisterError::AlreadyRegistered));
    assert_eq!(nbp.handle_register_req(entry("A", "X", 2), true), Ok(()));
    assert_eq!(nbp.handle_unregister_req(&entry("A", "X", 1)), Ok(()));
    assert_eq!(nbp.handle_unregister_req(&entry("A", "X", 1)), Err(NotRegistered));
    assert_eq!(nbp.registered_names.len(), 1);
    assert_eq!(nbp.handle_register_req(entry("A", "X", 1), true), Ok(()));
}

#[test]
fn lookups_go_to_the_router_when_there_is_one() {
    let mut nbp = Nbp::new();
    let mut table = RouteTable::new(LearningMode::Static);
    table.insert_route(200, 210, addr(100, 1), Interface::LocalTalk);
    table.insert_route(100, 100, addr(100, 1), Interface::LocalTalk);
    let wanted = name("=", "LaserWriter");
    let plan = nbp.plan_lookup(&wanted, &table, 0);
    assert_eq!(plan.reply_iface, Some(Interface::LocalTalk));
    let (packet, destinations) = Nbp::lookup_packet(&plan, wanted, addr(100, 7));
    assert_eq!(packet.operation, NbpOperation::BroadcastRequest);
    assert_eq!(destinations.len(), 1);
    assert_eq!(destinations[0].addr, addr(100, 1));
    assert_eq!(packet.tuples[0].node_id, 7);

    assert_eq!(addr_on(Some(Interface::LocalTalk), true, true), Interface::LocalTalk);
    assert_eq!(addr_on(Some(Interface::LocalTalk), true, false), Interface::EtherTalk);
    assert_eq!(addr_on(None, false, true), Interface::LocalTalk);
}

#[test]
fn lookups_go_to_the_first_router_that_takes_them() {
    let dests: Vec<NbpDestination> =
        (1..=2).map(|node| NbpDestination { addr: addr(1, node), socket: NBP_SOCKET }).collect();
    let mut sending = LookupSending::new(dests.clone());
    assert_eq!(sending.next(false), SendStep::SendTo(dests[0]));
    assert_eq!(sending.next(false), SendStep::SendTo(dests[1]));
    assert_eq!(sending.next(true), SendStep::Sent);
    assert_eq!(sending.next(false), SendStep::Failed);
    assert_eq!(LookupSending::new(vec![]).next(false), SendStep::Failed);
}

#[test]
fn protocols_have_numbers() {
    for n in 0..=255 {
        assert_eq!(DdpProtocolType::from_number(n).number(), n);
    }
    assert_eq!(DdpProtocolType::from_number(3), DdpProtocolType::Atp);
    assert_eq!(DdpProtocolType::from_number(8), DdpProtocolType::Other(8));
}

#[test]
fn sockets_open_once() {
    let mut ddp = DdpProcessor::new();
    assert_eq!(ddp.new_sock(Some(129)), Ok(129));
    assert_eq!(ddp.new_sock(Some(129)), Err(SocketInUse));
    ddp.close(129);
    assert_eq!(ddp.new_sock(Some(129)), Ok(129));
    let any = ddp.new_sock(None);
    assert!(any == Err(SocketInUse) || any.unwrap() >= 64);
}

fn headers(dest_node: u8, dest_sock: u8) -> DdpHeaders {
    DdpHeaders {
        hop_count: 0,
        len: 20,
        chksum: 0,
        dest_network_num: 1,
        dest_sock_num: dest_sock,
        dest_node_id: dest_node,
        src_network_num: 1,
        src_sock_num: 77,
        src_node_id: 20,
        protocol_typ: DdpProtocolType::Atp,
    }
}

#[test]
fn datagrams_reach_open_sockets() {
    let mut ddp = DdpProcessor::new();
    ddp.open(4).unwrap();
    let r = ddp.handle_packet(&headers(10, 4), AddressSource::EtherTalkPhase2, MAC_A, false, true);
    assert_eq!(r.delivery, Delivery::ToSocket(4));
    assert_eq!(r.learned, Some((addr(1, 20), Node::EtherTalkPhase2(MAC_A))));
    let r = ddp.handle_packet(&headers(10, 4), AddressSource::LocalTalk, MAC_A, true, false);
    assert_eq!(r.delivery, Delivery::NotForUs);
    assert_eq!(r.learned, None);
    // A broadcast is for everyone.
    let r = ddp.handle_packet(&headers(255, 5), AddressSource::LocalTalk, MAC_A, true, false);
    assert_eq!(r.delivery, Delivery::NoSocket);
    assert_eq!(sender_node(AddressSource::LocalTalk, MAC_A, 20), Node::LocalTalk(20));
    assert_eq!(sender_node(AddressSource::EtherTalkPhase1, MAC_A, 20), Node::EtherTalkPhase1(MAC_A));
}

#[test]
fn outbound_datagrams_carry_their_length_and_checksum() {
    let dest = DdpAddress::new(addr(1, 20), 77);
    let h = outbound_headers(addr(1, 10), 4, dest, DdpProtocolType::Aep, 3, Node::EtherTalkPhase2(MAC_B), false);
    assert_eq!(h.len, 16);
    let short = outbound_headers(addr(0, 10), 4, dest, DdpProtocolType::Aep, 3, Node::LocalTalk(20), false);
    assert_eq!(short.len, 8);
    let routed = outbound_headers(addr(2, 10), 4, dest, DdpProtocolType::Aep, 3, Node::LocalTalk(20), true);
    assert_eq!(routed.len, 16);
    let pkt = handle_outbound(Node::LocalTalk(20), addr(0, 10), vec![0; 8], 0x1234, false);
    assert!(!pkt.ddp_long && pkt.payload == vec![0; 8]);
    assert!(payload_fits(DDP_MAX_PAYLOAD));
    assert!(!payload_fits(DDP_MAX_PAYLOAD + 1));

    let bytes = assemble(vec![0xAA; 13], &[1, 2, 3], true);
    assert_eq!(bytes.len(), 16);
    let pkt = handle_outbound(Node::EtherTalkPhase2(MAC_B), addr(1, 10), bytes, 0x1234, true);
    assert_eq!(pkt.protocol, DataLinkProtocol::Ddp);
    assert_eq!(&pkt.payload[2..4], &[0x12, 0x34]);
    assert_eq!(&pkt.payload[13..], &[1, 2, 3]);
    assert_eq!(pkt.src_node_id, 10);
    assert!(pkt.ddp_long);
    assert_eq!(long_payload(&pkt.payload, 15), vec![1, 2]);
    assert_eq!(long_payload(&pkt.payload, 99), vec![1, 2, 3]);
}

#[test]
fn datagrams_take_the_cable_of_their_route() {
    let (et, lt) = (Interface::EtherTalk, Interface::LocalTalk);
    let via = |interface| Some(NextHop::Via { router: addr(2, 254), interface });
    assert_eq!(next_links(addr(4, 9), via(lt), true, true), vec![(lt, addr(2, 254))]);
    assert_eq!(next_links(addr(4, 9), via(lt), true, false), vec![(et, addr(2, 254))]);
    assert_eq!(next_links(addr(4, 9), Some(NextHop::Local(et)), true, true), vec![(et, addr(4, 9))]);
    assert_eq!(next_links(addr(4, 9), None, true, true), vec![(et, addr(4, 9))]);
    assert_eq!(next_links(addr(4, 9), None, false, true), vec![(lt, addr(4, 9))]);
    assert_eq!(next_links(addr(0, 255), via(lt), true, true), vec![(et, addr(0, 255)), (lt, addr(0, 255))]);
    assert_eq!(next_links(addr(0, 255), None, false, true), vec![(lt, addr(0, 255))]);
}

fn aarp(opcode: AarpOpcode, from: AppleTalkAddress, mac: [u8; 6], about: AppleTalkAddress) -> AarpPacket {
    AarpPacket {
        hardware_type: 1,
        protocol_type: 0x809B,
        hardware_size: 6,
        protocol_size: 4,
        opcode,
        sender_addr: mac,
        sender_protocol: from,
        target_addr: [0; 6],
        target_protocol: about,
    }
}

#[test]
fn addresses_resolve_by_request_and_response() {
    let mut a = Addressing::new(Some(MAC_A), AddressSource::EtherTalkPhase2, Some(addr(65280, 10)));
    let mut b = Addressing::new(Some(MAC_B), AddressSource::EtherTalkPhase2, Some(addr(65280, 20)));
    let ask = a.lookup(addr(65280, 20), 1);
    let again = a.lookup(addr(65280, 20), 2);
    assert_eq!(ask.packet, again.packet);
    assert_eq!(ask.packet.opcode, AarpOpcode::Request);
    assert_eq!(ask.dest_node, Node::EtherTalkPhase2(Addressing::broadcast_mac(AddressSource::EtherTalkPhase2)));

    match b.handle_aarp_packet(&ask.packet, AddressSource::EtherTalkPhase2) {
        AarpReaction::Respond(frame) => {
            assert_eq!(frame.dest_node, Node::EtherTalkPhase2(MAC_A));
            match a.handle_aarp_packet(&frame.packet, AddressSource::EtherTalkPhase2) {
                AarpReaction::Resolved { requests, addr: found, node } => {
                    assert_eq!(requests, vec![1, 2]);
                    assert_eq!(found, addr(65280, 20));
                    assert_eq!(node, Node::EtherTalkPhase2(MAC_B));
                }
                other => panic!("not resolved: {:?}", other),
            }
            // Nobody waits for it a second time.
            assert!(matches!(
                a.handle_aarp_packet(&frame.packet, AddressSource::EtherTalkPhase2),
                AarpReaction::Ignore
            ));
        }
        other => panic!("no response: {:?}", other),
    }
}

#[test]
fn probes_are_defended() {
    let mut a = Addressing::new(Some(MAC_A), AddressSource::EtherTalkPhase2, None);
    assert!(!a.settled);
    assert!(a.our_addr.node_number >= 1 && a.our_addr.node_number <= 253);
    let ours = a.our_addr;
    let probe = match a.probe() {
        ProbeStep::Probe(frame) => frame,
        other => panic!("no probe: {:?}", other),
    };
    assert_eq!(probe.packet.opcode, AarpOpcode::Probe);
    assert_eq!(probe.packet.target_protocol, ours);
    assert!(matches!(a.probe_contested(&aarp(AarpOpcode::Request, addr(1, 1), MAC_B, ours)), ProbeStep::Wait));
    a.probe_expired();
    assert!(a.settled);
    // Somebody else tries for our address.
    let rival = aarp(AarpOpcode::Probe, ours, MAC_B, ours);
    assert!(matches!(a.handle_aarp_packet(&rival, AddressSource::EtherTalkPhase2), AarpReaction::Respond(_)));
    assert!(candidate_taken(ours, &rival));
    assert!(!candidate_taken(addr(1, 1), &rival));
    a.set_addr(addr(3, 3));
    assert!(matches!(a.handle_aarp_packet(&rival, AddressSource::EtherTalkPhase2), AarpReaction::Ignore));
}

#[test]
fn localtalk_nodes_enquire() {
    let mut a = Addressing::new(None, AddressSource::LocalTalk, None);
    assert_eq!(a.our_addr.network_number, 0);
    let node = a.our_addr.node_number;
    assert!(matches!(a.probe(), ProbeStep::Enquire(n) if n == node));
    assert!(matches!(a.probe_acknowledged(node.wrapping_add(1)), ProbeStep::Wait));
    assert!(matches!(a.probe_acknowledged(node), ProbeStep::Enquire(_)));
    assert!(a.received_enquiry(a.our_addr.node_number));

    let fixed = Addressing::new(None, AddressSource::LocalTalk, Some(addr(9, 42)));
    assert!(fixed.settled);
    assert_eq!(fixed.our_addr, addr(0, 42));
    assert!(matches!(fixed.probe_candidate(addr(0, 7)), ProbeStep::Enquire(7)));

    let enquiry = llap_enquiry(7);
    assert_eq!(enquiry.protocol, DataLinkProtocol::LlapEnq);
    assert_eq!(enquiry.dest_node, Node::LocalTalk(7));
    assert_eq!(llap_acknowledgement(7).protocol, DataLinkProtocol::LlapAck);
}

#[test]
fn lookups_use_what_is_cached() {
    let phase = AddressSource::EtherTalkPhase2;
    let known = Some(CacheEntry::Valid(Node::EtherTalkPhase2(MAC_B)));
    assert_eq!(try_lookup(phase, addr(1, 20), known), Some(Node::EtherTalkPhase2(MAC_B)));
    assert_eq!(try_lookup(phase, addr(1, 20), None), None);
    assert_eq!(
        try_lookup(phase, addr(0, 255), None),
        Some(Node::EtherTalkPhase2([0x09, 0x00, 0x07, 0xFF, 0xFF, 0xFF]))
    );
    assert_eq!(try_lookup(AddressSource::LocalTalk, addr(0, 7), None), Some(Node::LocalTalk(7)));
    assert_eq!(try_lookup(AddressSource::LocalTalk, addr(0, 255), None), Some(Node::LocalTalk(255)));

    let silent = unanswered(1_000);
    assert!(matches!(plan_lookup(phase, addr(1, 20), Some(silent), 60_999), LookupPlan::Unanswered));
    assert!(matches!(plan_lookup(phase, addr(1, 20), Some(silent), 61_000), LookupPlan::Ask));
    assert!(matches!(plan_lookup(phase, addr(1, 20), None, 0), LookupPlan::Ask));
    assert!(matches!(plan_lookup(phase, addr(1, 20), known, 0), LookupPlan::Found(Node::EtherTalkPhase2(m)) if m == MAC_B));

    let pkt = aarp(AarpOpcode::Request, addr(1, 20), MAC_B, addr(1, 1));
    assert!(matches!(
        learned_sender(&pkt, AddressSource::EtherTalkPhase1),
        Some(CacheEntry::Valid(Node::EtherTalkPhase1(m))) if m == MAC_B
    ));
    assert!(learned_sender(&pkt, AddressSource::LocalTalk).is_none());

    assert!(Addressing::is_broadcast_mac([0xFF; 6], AddressSource::EtherTalkPhase1));
    assert!(!Addressing::is_broadcast_mac([0xFF; 6], AddressSource::EtherTalkPhase2));
    assert!(!Addressing::is_broadcast_mac([0xFF; 6], AddressSource::LocalTalk));
}

#[test]
fn addresses_are_sought_in_the_range() {
    assert!(outside_range(addr(65280, 9), 3, 5));
    assert!(!outside_range(addr(4, 9), 3, 5));
    let mut search = RangeSearch::new(3, 5);
    let mut step = search.acquire_in_range(ProbeOutcome::NotProbed);
    let mut tried: usize = 0;
    while let RangeStep::Probe(candidate) = step {
        assert!(candidate.network_number >= 3 && candidate.network_number <= 5);
        tried += 1;
        step = search.acquire_in_range(ProbeOutcome::Taken);
    }
    assert_eq!(tried, MAX_CANDIDATES);
    assert_eq!(step, RangeStep::Keep);

    let mut search = RangeSearch::new(7, 7);
    match search.acquire_in_range(ProbeOutcome::NotProbed) {
        RangeStep::Probe(candidate) => {
            assert_eq!(search.acquire_in_range(ProbeOutcome::Free), RangeStep::Adopt(candidate));
        }
        other => panic!("no candidate: {:?}", other),
    }
    assert_eq!(search.acquire_in_range(ProbeOutcome::Failed), RangeStep::Keep);
    assert_eq!(adopt_network_number(addr(0, 9), 2), Some(addr(2, 9)));
    assert_eq!(adopt_network_number(addr(2, 9), 2), None);
}

use tailtalk::addr::{AddressSource, AppleTalkAddress};
use tailtalk::addressing::Node;
use tailtalk::ddp::DdpProtocolType;
use tailtalk::ethertalk::{
    classify, frame_payload, phase1_datagram, source_mac, write_eth1_header, write_snap_header, EtherFrame,
    EtherTalkTx, LlapPacket, LlapType,
};
use tailtalk::link::{aarp_packet, llap_enquiry};
use tailtalk::processor::{
    frame_fits, frame_outbound, localtalk_bytes, localtalk_frame, long_enough, node_bits, pcap_frame, pcap_global_header, Adapter,
    AdapterAction, AdapterEvent, AdapterState, LocalTalkEvent, Outbound, StackConfig, StackError, StackPlan,
};
use tailtalk::remote::{
    apply_route_change, connection_closed, daemon_error, datagram_headers, interface_addr, pick_interfaces,
    snapshot_from_proto, unexpected_reply, DaemonDatagram, DaemonInterface, DaemonRoute, DaemonRoutes, DaemonZone,
    ErrorCode, InterfaceType, RemoteClient, RemoteErrorKind, RuleRequest,
};
use tailtalk::route_table::{Interface, LearningMode, NextHop, RouteChange, RouteTable};
use tailtalk::{time_to_afp, time_to_afp_v1, DataLinkPacket, DataLinkProtocol, AFP2_EPOCH_OFFSET};

const OURS: [u8; 6] = [0x00, 0x05, 0x02, 0x7C, 0x85, 0x93];
const THEIRS: [u8; 6] = [0x00, 0x00, 0xC5, 0x1C, 0x1F, 0x8A];

fn addr(net: u16, node: u8) -> AppleTalkAddress {
    AppleTalkAddress { network_number: net, node_number: node }
}

#[test]
fn dates_count_from_their_epoch() {
    assert_eq!(time_to_afp(AFP2_EPOCH_OFFSET), 0);
    assert_eq!(time_to_afp(AFP2_EPOCH_OFFSET + 86_400), 86_400);
    assert_eq!(time_to_afp(5), 0);
    assert_eq!(time_to_afp(-1), 0);
    assert_eq!(time_to_afp_v1(0), 2_082_844_800);
    assert_eq!(time_to_afp_v1(-1), 2_082_844_799);
    assert_eq!(time_to_afp_v1(-2_082_844_800), 0);
    assert_eq!(time_to_afp_v1(i64::MIN), 0);
    assert_eq!(time_to_afp_v1(0xFFFF_FFFF - 2_082_844_800), u32::MAX);
    assert_eq!(time_to_afp_v1(0x1_0000_0000 - 2_082_844_800), 0);
    assert_eq!(time_to_afp_v1(1_000_000_000).wrapping_sub(time_to_afp(1_000_000_000)), 3_029_529_600);
}

#[test]
fn headers_are_written_over_the_buffer() {
    let mut buf = vec![0xEE; 30];
    assert_eq!(write_eth1_header(&mut buf, THEIRS, OURS, 0x80F3), 14);
    assert_eq!(&buf[0..6], &THEIRS);
    assert_eq!(&buf[6..12], &OURS);
    assert_eq!(&buf[12..15], &[0x80, 0xF3, 0xEE]);
    assert_eq!(write_snap_header(&mut buf, THEIRS, OURS, [8, 0, 7], 0x809B, 300), 22);
    assert_eq!(&buf[12..23], &[0x01, 0x34, 0xAA, 0xAA, 0x03, 8, 0, 7, 0x80, 0x9B, 0xEE]);
}

#[test]
fn phase2_frames_read_back() {
    let tx = EtherTalkTx { our_mac: OURS };
    let payload: Vec<u8> = (0..100).collect();
    let mut buf = vec![0u8; 1500];
    let n = tx.build_ddp_frame(Node::EtherTalkPhase2(THEIRS), &payload, &mut buf);
    assert_eq!(n, 122);
    let frame = EtherTalkTx::sendpacket(&buf, n);
    assert_eq!(frame.len(), 122);
    assert_eq!(classify(&frame), EtherFrame::Phase2);
    assert_eq!(source_mac(&frame), OURS);
    assert_eq!(frame_payload(&frame, 22), payload);
    // A short frame is padded.
    let n = tx.build_aarp_frame(Node::EtherTalkPhase2(THEIRS), &[1, 2, 3], &mut vec![0u8; 1500]);
    assert_eq!(n, 25);
    assert_eq!(EtherTalkTx::sendpacket(&buf, n).len(), 60);
}

#[test]
fn phase1_frames_read_back() {
    let tx = EtherTalkTx { our_mac: OURS };
    // A long datagram: thirteen bytes of header, its destination and source nodes among them, and data.
    let mut payload = vec![0u8; 13];
    payload[8] = 20;
    payload[9] = 10;
    payload.extend_from_slice(b"data that goes along with it, long enough to need no padding");
    let mut buf = vec![0u8; 1500];
    let n = tx.build_ddp_frame(Node::EtherTalkPhase1(THEIRS), &payload, &mut buf);
    assert_eq!(n, 17 + payload.len());
    let frame = EtherTalkTx::sendpacket(&buf, n);
    assert_eq!(classify(&frame), EtherFrame::Phase1Llap);
    assert_eq!(frame[16], 2);
    assert_eq!(phase1_datagram(&frame, LlapType::DdpLong, payload.len()).unwrap(), payload[13..].to_vec());
    assert!(phase1_datagram(&frame, LlapType::Enquiry, 0).is_none());

    let n = tx.build_aarp_frame(Node::EtherTalkPhase1(THEIRS), &[7; 28], &mut buf);
    let frame = EtherTalkTx::sendpacket(&buf, n);
    assert_eq!(classify(&frame), EtherFrame::Phase1Aarp);
    assert_eq!(&frame_payload(&frame, 14)[..28], &[7; 28]);

    let mut foreign = frame.clone();
    foreign[12] = 0x08;
    foreign[13] = 0x00;
    assert_eq!(classify(&foreign), EtherFrame::Ignored);
    assert_eq!(classify(&frame[..14]), EtherFrame::Ignored);
}

#[test]
fn packets_go_out_by_their_link() {
    let aarp = aarp_packet(Node::EtherTalkPhase2(THEIRS), vec![9; 28]);
    match frame_outbound(&aarp, Some(OURS)) {
        Outbound::Ethernet(bytes) => {
            assert_eq!(bytes.len(), 60);
            assert_eq!(&bytes[22..50], &[9; 28]);
        }
        other => panic!("not sent: {:?}", other),
    }
    assert!(matches!(frame_outbound(&aarp, None), Outbound::Dropped));
    match frame_outbound(&llap_enquiry(7), None) {
        Outbound::LocalTalk { header, with_payload } => {
            assert_eq!(header, LlapPacket { dst_node: 7, src_node: 7, type_: LlapType::Enquiry });
            assert!(!with_payload);
        }
        other => panic!("not sent: {:?}", other),
    }
    let datagram = DataLinkPacket {
        dest_node: Node::LocalTalk(3),
        protocol: DataLinkProtocol::Ddp,
        payload: vec![1, 2],
        src_node_id: 9,
        ddp_long: true,
    };
    match frame_outbound(&datagram, None) {
        Outbound::LocalTalk { header, with_payload } => {
            assert_eq!(header, LlapPacket { dst_node: 3, src_node: 9, type_: LlapType::DdpLong });
            assert!(with_payload);
        }
        other => panic!("not sent: {:?}", other),
    }
    let sized = |dest_node: Node, len: usize| DataLinkPacket {
        dest_node,
        protocol: DataLinkProtocol::Ddp,
        payload: vec![0; len],
        src_node_id: 9,
        ddp_long: true,
    };
    assert!(frame_fits(&sized(Node::LocalTalk(3), 1497), Some(OURS)));
    assert!(!frame_fits(&sized(Node::LocalTalk(3), 1498), Some(OURS)));
    assert!(frame_fits(&sized(Node::EtherTalkPhase2(THEIRS), 1478), Some(OURS)));
    assert!(!frame_fits(&sized(Node::EtherTalkPhase2(THEIRS), 1479), Some(OURS)));
    assert!(frame_fits(&sized(Node::EtherTalkPhase1(THEIRS), 1483), Some(OURS)));
    assert!(!frame_fits(&sized(Node::EtherTalkPhase1(THEIRS), 1484), Some(OURS)));
    assert!(frame_fits(&sized(Node::EtherTalkPhase2(THEIRS), 2000), None));
    assert_eq!(localtalk_bytes(&[3, 9, 2], &[1, 2], true), vec![3, 9, 2, 1, 2]);
    assert_eq!(localtalk_bytes(&[3, 9, 0x81], &[1, 2], false), vec![3, 9, 0x81]);
}

#[test]
fn localtalk_frames_are_sorted() {
    let header = |type_: LlapType| LlapPacket { dst_node: 3, src_node: 9, type_ };
    assert!(!long_enough(&[1, 2]));
    let data = [3, 9, 1, 0, 8, 4, 4, 4, 0xAB, 0xCD, 0xEF, 0x99];
    match localtalk_frame(&data, header(LlapType::DdpShort), Some(8)) {
        LocalTalkEvent::Datagram(p) => assert_eq!(p, vec![0xAB, 0xCD, 0xEF]),
        other => panic!("no datagram: {:?}", other),
    }
    assert!(matches!(localtalk_frame(&data, header(LlapType::DdpShort), None), LocalTalkEvent::Ignored));
    assert!(matches!(localtalk_frame(&data, header(LlapType::Enquiry), None), LocalTalkEvent::Enquiry(3)));
    assert!(matches!(localtalk_frame(&data, header(LlapType::Acknowledge), None), LocalTalkEvent::Acknowledge(9)));
    assert!(matches!(localtalk_frame(&data, header(LlapType::Other), None), LocalTalkEvent::Ignored));
}

#[test]
fn adapters_come_up_and_start_over() {
    let mut adapter = Adapter::new();
    assert!(matches!(adapter.next(AdapterEvent::Failed), AdapterAction::WaitAndOpen { warn: true }));
    assert!(matches!(adapter.next(AdapterEvent::Failed), AdapterAction::WaitAndOpen { warn: false }));
    assert!(matches!(adapter.next(AdapterEvent::Done), AdapterAction::Reset));
    assert!(matches!(adapter.next(AdapterEvent::Done), AdapterAction::SetFeatures));
    assert!(matches!(adapter.next(AdapterEvent::Done), AdapterAction::AskAddress));
    match adapter.next(AdapterEvent::Address(10)) {
        AdapterAction::SetNodes(bits) => assert_eq!(bits, node_bits(10)),
        other => panic!("no nodes: {:?}", other),
    }
    assert!(matches!(adapter.next(AdapterEvent::Done), AdapterAction::GoOnline));
    assert!(matches!(adapter.next(AdapterEvent::FrameToSend), AdapterAction::Send));
    assert!(matches!(adapter.next(AdapterEvent::Done), AdapterAction::Listen));
    assert!(matches!(adapter.next(AdapterEvent::WatchEnded), AdapterAction::Listen));
    assert!(!adapter.watching);
    assert!(matches!(adapter.next(AdapterEvent::Gone), AdapterAction::GoOffline));
    assert_eq!(adapter.state, AdapterState::Opening);
}

#[test]
fn one_node_bit_is_set() {
    for node in 0..=255u8 {
        let bits = node_bits(node);
        assert_eq!(bits.len(), 32);
        assert_eq!(bits.iter().map(|b| b.count_ones()).sum::<u32>(), 1);
        assert_eq!(bits[(node / 8) as usize], 1 << (node % 8));
    }
}

#[test]
fn captures_have_their_headers() {
    let header = pcap_global_header();
    assert_eq!(&header[0..8], &[0xd4, 0xc3, 0xb2, 0xa1, 2, 0, 4, 0]);
    assert_eq!(&header[16..24], &[0xFF, 0xFF, 0, 0, 114, 0, 0, 0]);
    let record = pcap_frame(1, 2, &[0xAA, 0xBB, 0xCC]);
    assert_eq!(record, vec![1, 0, 0, 0, 2, 0, 0, 0, 3, 0, 0, 0, 3, 0, 0, 0, 0xAA, 0xBB, 0xCC]);
}

#[test]
fn stacks_are_local_or_the_daemons() {
    let local = StackConfig { ethernet: true, localtalk: false, daemon: false, lt_fixed_node: Some(42) };
    assert!(local.has_local_transport());
    assert_eq!(local.plan(), Ok(StackPlan::Local));
    assert_eq!(local.plan_underlay(), Ok(()));
    assert_eq!(local.localtalk_address(), Some(addr(0, 42)));
    let daemon = StackConfig { ethernet: false, localtalk: false, daemon: true, lt_fixed_node: None };
    assert_eq!(daemon.plan(), Ok(StackPlan::Daemon));
    assert_eq!(daemon.plan_underlay(), Err(StackError::UnderlayFromDaemon));
    assert_eq!(daemon.localtalk_address(), None);
    let both = StackConfig { localtalk: true, ..daemon };
    assert_eq!(both.plan(), Err(StackError::InterfacesWithDaemon));
}

#[test]
fn requests_to_the_daemon_are_settled_once() {
    let mut client = RemoteClient::new();
    let first = client.request();
    let second = client.request();
    assert_ne!(first, second);
    assert!(client.settle(first));
    assert!(!client.settle(first));
    assert_eq!(client.open_socket(129).unwrap(), 129);
    assert_eq!(client.socket_for(129), Some(129));
    let refused = client.open_socket(256).unwrap_err();
    assert_eq!(refused.kind, RemoteErrorKind::InvalidData);
    assert_eq!(refused.message, "socket id out of range");
    client.close_socket(129);
    assert_eq!(client.socket_for(129), None);
    assert_eq!(client.socket_for(256 + 129), None);
    client.open_socket(5).unwrap();
    client.fail_pending();
    assert!(!client.settle(second));
    assert_eq!(client.socket_for(5), None);
}

#[test]
fn daemon_errors_keep_their_kind() {
    assert_eq!(daemon_error(ErrorCode::AddrInUse, "taken").message, "daemon error: taken");
    assert_eq!(daemon_error(ErrorCode::AddrInUse, "").kind, RemoteErrorKind::AddrInUse);
    assert_eq!(daemon_error(ErrorCode::InvalidArgument, "").kind, RemoteErrorKind::InvalidInput);
    assert_eq!(daemon_error(ErrorCode::NotFound, "").kind, RemoteErrorKind::NotFound);
    assert_eq!(daemon_error(ErrorCode::Other, "").kind, RemoteErrorKind::Other);
    assert_eq!(unexpected_reply().kind, RemoteErrorKind::InvalidData);
    assert_eq!(connection_closed().kind, RemoteErrorKind::BrokenPipe);
}

#[test]
fn daemon_datagrams_get_headers() {
    let dg = DaemonDatagram {
        source_network: 0x1_0002,
        source_node: 20,
        source_socket: 77,
        dest_network: 2,
        dest_node: 0x110,
        dest_socket: 4,
        arrival_link: 3,
        payload: vec![1, 2, 3],
    };
    let (headers, source) = datagram_headers(&dg, DdpProtocolType::Aep);
    assert_eq!(headers.src_network_num, 2);
    assert_eq!(headers.dest_node_id, 0x10);
    assert_eq!(headers.len, 16);
    assert_eq!(source, AddressSource::LocalTalk);
}

#[test]
fn daemon_interfaces_are_found_by_name_and_type() {
    let list = [
        DaemonInterface { name: "lt0".to_string(), type_: InterfaceType::LocalTalk, address: Some((2, 9)) },
        DaemonInterface { name: "et0".to_string(), type_: InterfaceType::EtherTalk, address: None },
    ];
    assert_eq!(interface_addr(&list, "lt0").unwrap(), addr(2, 9));
    let e = interface_addr(&list, "et0").unwrap_err();
    assert_eq!((e.kind, e.message.as_str()), (RemoteErrorKind::NotConnected, "interface 'et0' has no address yet"));
    let e = interface_addr(&list, "et1").unwrap_err();
    assert_eq!((e.kind, e.message.as_str()), (RemoteErrorKind::NotFound, "interface 'et1' not found on daemon"));
    assert_eq!(pick_interfaces(&list), (Some(1), Some(0)));
    assert_eq!(pick_interfaces(&list[..1]), (None, Some(0)));
}

fn told(change: RouteChange) -> DaemonRoutes {
    match apply_route_change(&change) {
        RuleRequest::SetLocalRange { lo, hi } => {
            DaemonRoutes { local_range: Some((lo, hi)), routes: vec![], zones: vec![] }
        }
        RuleRequest::AddRoute { route } => DaemonRoutes { local_range: None, routes: vec![route], zones: vec![] },
        RuleRequest::AddZone { zone } => DaemonRoutes { local_range: None, routes: vec![], zones: vec![zone] },
        other => panic!("adds nothing: {:?}", other),
    }
}

#[test]
fn changes_told_to_the_daemon_come_back() {
    for interface in [Some(Interface::EtherTalk), Some(Interface::LocalTalk), None] {
        let change = RouteChange::InsertRoute { lo: 200, hi: 210, next_hop: addr(100, 1), interface };
        assert_eq!(snapshot_from_proto(&told(change)).routes, vec![(200, 210, addr(100, 1), interface)]);
    }
    assert_eq!(snapshot_from_proto(&told(RouteChange::SetLocalRange((3, 5)))).local_range, Some((3, 5)));
    let zone = RouteChange::InsertZone { zone: "Attic".to_string(), ranges: vec![(3, 5), (7, 7)] };
    assert_eq!(snapshot_from_proto(&told(zone)).zones, vec![("Attic".to_string(), vec![(3, 5), (7, 7)])]);
    assert!(matches!(
        apply_route_change(&RouteChange::RemoveRoute { lo: 1, hi: 2 }),
        RuleRequest::RemoveRoute { lo: 1, hi: 2 }
    ));
    assert!(matches!(
        apply_route_change(&RouteChange::RemoveZone { zone: "Attic".to_string() }),
        RuleRequest::RemoveZone { name } if name == "Attic"
    ));
}

#[test]
fn incomplete_daemon_routes_are_left_out() {
    let reply = DaemonRoutes {
        local_range: None,
        routes: vec![
            DaemonRoute { range: None, next_hop: Some((1, 1)), interface: 0 },
            DaemonRoute { range: Some((200, 210)), next_hop: Some((100, 1)), interface: 1 },
            DaemonRoute { range: Some((1, 2)), next_hop: None, interface: 0 },
        ],
        zones: vec![DaemonZone { name: "Z".to_string(), ranges: vec![(200, 210)] }],
    };
    let snapshot = snapshot_from_proto(&reply);
    assert_eq!(snapshot.routes.len(), 1);
    let mut table = RouteTable::new(LearningMode::Static);
    table.replace_contents(snapshot);
    assert!(matches!(table.resolve(205, 0), Some(NextHop::Via { router, .. }) if router == addr(100, 1)));
    assert_eq!(table.routers_for_zone("Z", 0), vec![addr(100, 1)]);
}

use tailtalk::asp::{Asp, AspAction, AspHeader, AspSession, SPFunction, SESSION_TIMEOUT};
use tailtalk::atp::{
    admitted, Atp, AtpAddress, AtpEvent, AtpFunction, AtpPacket, AtpReceivedRequest, AtpSendAlo, AtpSendRelease,
    ATP_MAX_DATA_PER_PACKET,
};

const SERVER: AtpAddress = AtpAddress { network_number: 1, node_number: 10, socket_number: 201 };
const CLIENT: AtpAddress = AtpAddress { network_number: 1, node_number: 20, socket_number: 77 };

/// The bytes that follow a datagram header: eight bytes of transaction header, then the data.
fn on_the_wire(data: &[u8]) -> Vec<u8> {
    let mut bytes = vec![0u8; 8];
    bytes.extend_from_slice(data);
    bytes
}

fn received(event: AtpEvent) -> AtpReceivedRequest {
    match event {
        AtpEvent::Request { request, .. } => request,
        other => panic!("not a request: {:?}", other),
    }
}

fn request(user_bytes: [u8; 4], data: Vec<u8>, bitmap: u8) -> AtpReceivedRequest {
    AtpReceivedRequest { transaction_id: 9, source: CLIENT, user_bytes, data, bitmap }
}

#[test]
fn test_atp_request_response() {
    let mut requester = Atp::new();
    let mut responder = Atp::new();
    let user_bytes = [0xDE, 0xAD, 0xBE, 0xEF];
    let request_data = b"Hello ATP!".to_vec();

    let sent = requester.handle_send_request(SERVER, user_bytes, request_data.clone()).unwrap();
    assert_eq!(sent.destination, SERVER);
    assert_eq!(sent.packet.function, AtpFunction::Request);
    assert!(sent.packet.xo);
    assert_eq!(sent.packet.bitmap_seq_num, 0xFF);
    assert_eq!(sent.packet.user_bytes, user_bytes);
    let packet = sent.packet;
    let wire = on_the_wire(&sent.data);
    requester.request_sent(sent);

    let event = responder.handle_packet(CLIENT, packet, &wire);
    let key = match &event {
        AtpEvent::Request { release: Some(key), .. } => *key,
        other => panic!("an exactly-once request waits for its release: {:?}", other),
    };
    let got = received(event);
    assert_eq!(got.user_bytes, user_bytes);
    assert_eq!(got.data, request_data);

    let answer = got.send_response(got.data.clone(), got.user_bytes);
    let packets = Atp::handle_send_response(&answer);
    assert_eq!(packets.len(), 1);
    assert!(packets[0].packet.eom);
    assert_eq!(packets[0].packet.bitmap_seq_num, 0);
    assert_eq!(packets[0].packet.tid, packet.tid);
    assert_eq!(packets[0].destination, CLIENT);

    let event = requester.handle_packet(SERVER, packets[0].packet, &on_the_wire(&packets[0].data));
    match event {
        AtpEvent::Response { tid, data, user_bytes: back, owed } => {
            assert_eq!(tid, packet.tid);
            assert_eq!(data, request_data, "Response data should match request data");
            assert_eq!(back, user_bytes);
            let release = owed.unwrap();
            assert_eq!(release.packet.function, AtpFunction::Release);
            assert_eq!(release.destination, SERVER);
            match responder.handle_packet(CLIENT, release.packet, &on_the_wire(&release.data)) {
                AtpEvent::Released(k) => assert_eq!(k, key),
                other => panic!("release not taken: {:?}", other),
            }
        }
        other => panic!("no response: {:?}", other),
    }
    assert!(requester.retransmit_pending().is_empty());
}

#[test]
fn responses_are_joined_in_sequence_order() {
    let mut atp = Atp::new();
    let sent = atp.handle_send_request(SERVER, [0; 4], vec![]).unwrap();
    let tid = sent.packet.tid;
    atp.request_sent(sent);
    assert_eq!(atp.retransmit_pending().len(), 1);

    let data: Vec<u8> = (0..1500usize).map(|i| (i % 251) as u8).collect();
    let mut req = request([1, 2, 3, 4], vec![], 0xFF);
    req.transaction_id = tid;
    let packets = Atp::handle_send_response(&req.send_response(data.clone(), [1, 2, 3, 4]));
    assert_eq!(packets.len(), 3);
    assert_eq!(packets[0].data.len(), ATP_MAX_DATA_PER_PACKET);
    assert_eq!(packets[2].data.len(), 1500 - 2 * ATP_MAX_DATA_PER_PACKET);

    // The last arrives first, and one arrives twice.
    for i in [2, 0, 0] {
        let event = atp.handle_packet(SERVER, packets[i].packet, &on_the_wire(&packets[i].data));
        assert!(matches!(event, AtpEvent::Ignored));
    }
    match atp.handle_packet(SERVER, packets[1].packet, &on_the_wire(&packets[1].data)) {
        AtpEvent::Response { data: joined, user_bytes, .. } => {
            assert_eq!(joined, data);
            assert_eq!(user_bytes, [1, 2, 3, 4]);
        }
        other => panic!("not complete: {:?}", other),
    }
}

#[test]
fn requests_too_long_for_a_packet_are_refused() {
    let mut atp = Atp::new();
    assert!(atp.handle_send_request(SERVER, [0; 4], vec![0; ATP_MAX_DATA_PER_PACKET + 1]).is_none());
    assert!(atp.handle_send_request(SERVER, [0; 4], vec![0; ATP_MAX_DATA_PER_PACKET]).is_some());
}

#[test]
fn bitmaps_admit_packets() {
    assert_eq!(admitted(0xFF), 8);
    assert_eq!(admitted(0b0000_0111), 3);
    assert_eq!(admitted(0), 8);
    assert_eq!(request([0; 4], vec![], 0b11).max_response_bytes(), 2 * 578);
    // What does not fit is cut off.
    let answer = request([0; 4], vec![], 0b1).send_response(vec![7; 1000], [0; 4]);
    assert_eq!(answer.packets.len(), 1);
    assert_eq!(answer.packets[0].data.len(), 578);
    let answer = request([0; 4], vec![], 0xFF).send_response_chunked(vec![7; 1000], [0; 4], 512);
    assert_eq!(answer.packets.len(), 2);
    let answer = request([0; 4], vec![], 0xFF).send_response(vec![], [0; 4]);
    assert_eq!(answer.packets.len(), 1);
}

#[test]
fn stray_responses_and_releases_are_ignored() {
    let mut atp = Atp::new();
    let packet = AtpPacket {
        function: AtpFunction::Response,
        xo: false,
        eom: true,
        sts: false,
        bitmap_seq_num: 0,
        tid: 44,
        user_bytes: [0; 4],
    };
    assert!(matches!(atp.handle_packet(SERVER, packet, &on_the_wire(b"x")), AtpEvent::Ignored));
    let release = Atp::handle_send_release(&AtpSendRelease { destination: SERVER, tid: 44 });
    assert_eq!(release.packet.tid, 44);
    assert!(matches!(atp.handle_packet(SERVER, release.packet, &on_the_wire(&[])), AtpEvent::Ignored));
    let alo = atp.handle_send_alo(&AtpSendAlo { address: SERVER, user_bytes: [5; 4] });
    assert!(!alo.packet.xo);
    assert_eq!(alo.packet.tid, 1);
    assert!(alo.data.is_empty());
}

fn header(function: SPFunction, session_id: u8, sequence_number: u16) -> AspHeader {
    AspHeader { function, session_id, sequence_number }
}

fn opened(action: AspAction) -> (AspSession, [u8; 4]) {
    match action {
        AspAction::Open { session, reply } => (session, reply),
        other => panic!("not opened: {:?}", other),
    }
}

#[test]
fn test_asp_session_workflow() {
    let mut asp = Asp::new(205);
    let req = request([4, 0, 0, 0], vec![], 0xFF);

    let (session, reply) = opened(asp.handle_request(&req, header(SPFunction::OpenSess, 0, 0), true, 0));
    assert_eq!(reply[0], 205, "OpenSess should return valid Session Socket (205)");
    assert!(reply[1] > 0, "Session ID should be non-zero");
    assert_eq!(session.id, reply[1]);

    match asp.handle_request(&req, header(SPFunction::CloseSess, session.id, 0), false, 10) {
        AspAction::Reply(user_bytes) => assert_eq!(user_bytes[0], 0, "CloseSess Result Code should be 0"),
        other => panic!("not closed: {:?}", other),
    }

    // Nobody is waiting for a session any more.
    match asp.handle_request(&req, header(SPFunction::OpenSess, 0, 0), false, 20) {
        AspAction::Reply(user_bytes) => assert_eq!(user_bytes, (-1071i32).to_be_bytes()),
        other => panic!("not refused: {:?}", other),
    }
}

#[test]
fn commands_reach_their_session() {
    let mut asp = Asp::new(205);
    let req = request([0; 4], vec![1, 2, 3], 0xFF);
    let (mut session, _) = opened(asp.handle_request(&req, header(SPFunction::OpenSess, 99, 0), true, 0));
    assert_eq!(session.session_addr.socket_number, 99);

    match asp.handle_request(&req, header(SPFunction::Command, session.id, 7), false, 5) {
        AspAction::Deliver { session_id, command } => {
            assert_eq!(session_id, session.id);
            assert_eq!(command.sequence_number, 7);
            assert_eq!(command.data, vec![1, 2, 3]);
            assert_eq!(command.atp_max_response_bytes, 8 * 578);
            session.get_command(&command);
            assert_eq!(session.remote_addr, CLIENT);
        }
        other => panic!("not delivered: {:?}", other),
    }
    // A session that nobody opened, and another node.
    assert!(matches!(
        asp.handle_request(&req, header(SPFunction::Command, 200, 7), false, 5),
        AspAction::Ignore
    ));
    let mut stranger = request([0; 4], vec![], 0xFF);
    stranger.source.node_number = 99;
    assert!(matches!(
        asp.handle_request(&stranger, header(SPFunction::Command, session.id, 7), false, 5),
        AspAction::Ignore
    ));

    let (to, wire, bytes) = session.write(5000, 8);
    assert_eq!(to, session.session_addr);
    assert_eq!(wire, header(SPFunction::WriteContinue, session.id, 8));
    assert_eq!(bytes, vec![0x12, 0x10]);
    assert_eq!(session.write(300, 8).2, vec![1, 44]);
}

#[test]
fn silent_sessions_end() {
    let mut asp = Asp::new(205);
    let req = request([0; 4], vec![], 0xFF);
    let (session, _) = opened(asp.handle_request(&req, header(SPFunction::OpenSess, 99, 0), true, 0));
    let tickles = asp.tickle(SESSION_TIMEOUT);
    assert_eq!(tickles.len(), 1);
    assert_eq!(tickles[0].header, header(SPFunction::Tickle, session.id, 0));
    assert_eq!(tickles[0].address, session.session_addr);

    asp.handle_request(&req, header(SPFunction::Tickle, session.id, 0), false, 60_000);
    assert_eq!(asp.tickle(SESSION_TIMEOUT + 1).len(), 1);
    assert!(asp.tickle(SESSION_TIMEOUT + 60_001).is_empty());
    assert!(matches!(
        asp.handle_request(&req, header(SPFunction::Command, session.id, 1), false, 0),
        AspAction::Ignore
    ));
}

#[test]
fn sessions_are_closed_with_a_message() {
    let mut asp = Asp::new(205);
    let req = request([0; 4], vec![], 0xFF);
    let (a, _) = opened(asp.handle_request(&req, header(SPFunction::OpenSess, 98, 0), true, 0));
    let (b, _) = opened(asp.handle_request(&req, header(SPFunction::OpenSess, 99, 0), true, 0));
    let notices = asp.close_sessions();
    assert_eq!(notices.len(), 2);
    assert_eq!(notices[0].header, header(SPFunction::CloseSess, a.id, 0));
    assert_eq!(notices[0].address, a.session_addr);
    assert_eq!(notices[1].address, b.session_addr);
    assert!(asp.close_sessions().is_empty());
    assert!(asp.tickle(0).is_empty());
}

#[test]
fn status_needs_no_session() {
    let mut asp = Asp::new(205);
    let req = request([0; 4], vec![], 0xFF);
    match asp.handle_request(&req, header(SPFunction::GetStatus, 3, 0x0102), false, 0) {
        AspAction::ReplyStatus(user_bytes) => assert_eq!(user_bytes, [0, 3, 1, 2]),
        other => panic!("no status: {:?}", other),
    }
}

#[test]
fn session_numbers_differ() {
    let mut asp = Asp::new(205);
    let req = request([0; 4], vec![], 0xFF);
    let (a, _) = opened(asp.handle_request(&req, header(SPFunction::OpenSess, 1, 0), true, 0));
    let (b, _) = opened(asp.handle_request(&req, header(SPFunction::OpenSess, 2, 0), true, 0));
    assert_ne!(a.id, b.id);
}

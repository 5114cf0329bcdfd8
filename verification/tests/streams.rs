use tailtalk::adsp::{
    Adsp, AdspAddress, AdspDescriptor, AdspError, AdspEvent, AdspFlags, AdspFrame, AdspPacket, AdspReaction,
    AdspStream, ADSP_MAX_DATA, ADSP_RETRANSMIT,
};
use tailtalk::atp::AtpAddress;
use tailtalk::pap::{
    OpenStep, PapClient, PapFunction, PapPacket, PrintJob, PrintStep, ReadStep, ResponseReader, PAP_TIMEOUT,
};

const A: AdspAddress = AdspAddress { network_number: 1, node_number: 10, socket_number: 100 };
const B: AdspAddress = AdspAddress { network_number: 1, node_number: 20, socket_number: 70 };

/// The bytes of a packet: thirteen bytes of header, then the data.
fn on_the_wire(data: &[u8]) -> Vec<u8> {
    let mut bytes = vec![0u8; 13];
    bytes.extend_from_slice(data);
    bytes
}

fn arrive(at: &mut Adsp, from: AdspAddress, frame: &AdspFrame, now: u64) -> AdspReaction {
    at.received_packet(from, frame.packet, &on_the_wire(&frame.data), now)
}

/// Opens a connection from `b` to `a`: the number of the connection at each end, by which the other keys it.
fn handshake(a: &mut Adsp, b: &mut Adsp) -> (u16, u16) {
    let (b_id, open) = b.connect(A);
    assert_eq!(open.packet.descriptor, AdspDescriptor::OpenConnRequest);
    assert_eq!(&open.data[0..4], &[0x01, 0x00, 0x00, 0x00]);
    let accepted = arrive(a, B, &open, 0);
    assert!(matches!(accepted.event, AdspEvent::Accepted { conn_id } if conn_id == b_id));
    let ack = accepted.frame.unwrap();
    assert_eq!(ack.packet.descriptor, AdspDescriptor::OpenConnReqAck);
    let a_id = ack.packet.connection_id;
    assert_eq!(&ack.data[2..4], &b_id.to_be_bytes());
    let connected = arrive(b, A, &ack, 0);
    assert!(matches!(
        connected.event,
        AdspEvent::Connected { our_conn_id, conn_id } if our_conn_id == b_id && conn_id == a_id
    ));
    let last = connected.frame.unwrap();
    assert_eq!(last.packet.descriptor, AdspDescriptor::OpenConnAck);
    assert_eq!(&last.data[2..4], &a_id.to_be_bytes());
    arrive(a, B, &last, 0);
    (a_id, b_id)
}

/// Sends `data` from one end to the other, acknowledgement included; what the other end hands up.
fn carry(from: &mut Adsp, from_addr: AdspAddress, to: &mut Adsp, to_addr: AdspAddress, peer: u16, data: &[u8]) -> Vec<u8> {
    let mut arrived = Vec::new();
    let mut rest = data;
    loop {
        let send = from.send_data(peer, rest, false).unwrap();
        for frame in &send.frames {
            from.data_sent(peer, &frame.data);
        }
        from.send_finished(peer, send.restarts_clock, 1);
        for frame in &send.frames {
            let reaction = arrive(to, from_addr, frame, 1);
            match reaction.event {
                AdspEvent::Data { data, .. } => arrived.extend_from_slice(&data),
                other => panic!("no data: {:?}", other),
            }
            let ack = reaction.frame.unwrap();
            assert_eq!(ack.packet.descriptor, AdspDescriptor::Acknowledgment);
            arrive(from, to_addr, &ack, 1);
        }
        if send.finished {
            return arrived;
        }
        rest = &rest[send.taken..];
    }
}

#[test]
fn test_adsp_connection() {
    let mut a = Adsp::new();
    let mut b = Adsp::new();
    let (a_id, b_id) = handshake(&mut a, &mut b);
    let mut stream_a = AdspStream::new(b_id, B);
    let mut stream_b = AdspStream::new(a_id, A);
    assert_eq!(stream_a.remote_addr(), B);

    let test_data = b"Hello from Client B!";
    assert_eq!(stream_b.write(test_data), test_data.len());
    assert_eq!(stream_b.unsent_len(), test_data.len());
    let sent = stream_b.flush().unwrap();
    assert!(stream_b.flush().is_none());
    let arrived = carry(&mut b, B, &mut a, A, a_id, &sent);

    let read = stream_a.read_arrived(&arrived, 1024);
    assert_eq!(read, test_data, "Data mismatch");

    stream_a.write(&read);
    let echoed = carry(&mut a, A, &mut b, B, b_id, &stream_a.flush().unwrap());
    // A reader with little room gets the rest from the buffer.
    assert_eq!(stream_b.read_arrived(&echoed, 5), b"Hello");
    assert_eq!(stream_b.unread_len(), 15);
    assert_eq!(stream_b.read_buffered(4).unwrap(), b" fro");
    assert_eq!(stream_b.read_buffered(100).unwrap(), b"m Client B!");
    assert!(stream_b.read_buffered(100).is_none());

    let close = a.close_connection(b_id).unwrap();
    assert_eq!(close.packet.descriptor, AdspDescriptor::CloseAdvice);
    assert!(a.connection_closed(b_id));
    assert!(a.close_connection(b_id).is_none());
    let closed = arrive(&mut b, A, &close, 2);
    assert!(matches!(closed.event, AdspEvent::Closed { conn_id } if conn_id == a_id));
    assert!(matches!(b.send_data(a_id, b"x", false), Err(AdspError::NoSuchConnection)));
}

#[test]
fn test_adsp_stylewriter_name_change() {
    const SW_CONN_ID: u16 = 0x000a;
    const SW_WINDOW: u16 = 0x06b4;
    let printer = AdspAddress { network_number: 1, node_number: 9, socket_number: 129 };
    let mut client = Adsp::new();

    let (our_id, open) = client.connect(printer);
    assert_eq!(open.packet.connection_id, our_id);
    assert!(open.data.len() >= 8, "OpenConnRequest must carry 8-byte open-conn params");
    assert_eq!(&open.data[0..2], &[0x01, 0x00], "OpenConnRequest version mismatch");
    assert_eq!(&open.data[2..4], &[0x00, 0x00], "OpenConnRequest DestConnID must be 0");

    let mut params = vec![0x01, 0x00];
    params.extend_from_slice(&our_id.to_be_bytes());
    params.extend_from_slice(&[0; 4]);
    let plain = AdspFlags { ack: false, eom: false, attention: false };
    let ack = AdspPacket {
        descriptor: AdspDescriptor::OpenConnReqAck,
        connection_id: SW_CONN_ID,
        first_byte_seq: 0,
        next_recv_seq: 0,
        recv_window: SW_WINDOW,
        flags: plain,
    };
    let connected = client.received_packet(printer, ack, &on_the_wire(&params), 0);
    let last = connected.frame.unwrap();
    assert_eq!(last.packet.descriptor, AdspDescriptor::OpenConnAck);
    assert_eq!(last.data.len(), 8);
    assert_eq!(&last.data[0..2], &[0x01, 0x00], "OpenConnAck open-conn version mismatch");
    assert_eq!(&last.data[2..4], &SW_CONN_ID.to_be_bytes(), "OpenConnAck DestConnID must match server ConnID");

    let rounds: [(u16, &[u8]); 3] =
        [(0x0011, &[0x00]), (0x0009, b"\x16Color StyleWriter 2200"), (0x0012, &[0x00])];
    let mut data_send_seq: u32 = 0;
    for (i, (code, data)) in rounds.iter().enumerate() {
        let frame = client.send_attention_msg(SW_CONN_ID, *code, data).unwrap();
        assert_eq!(frame.packet.connection_id, our_id, "client must use its own ConnID in outgoing packets");
        assert_eq!(frame.packet.first_byte_seq, i as u32, "attn seq must increment per message");
        assert_eq!(frame.packet.recv_window, 0, "zero in attention packets");
        assert!(frame.packet.flags.attention && frame.packet.flags.ack);
        assert_eq!(&frame.data[0..2], &code.to_be_bytes());
        assert_eq!(&frame.data[2..], *data);

        let reply = AdspPacket {
            descriptor: AdspDescriptor::DataPacket,
            connection_id: SW_CONN_ID,
            first_byte_seq: data_send_seq,
            next_recv_seq: 0,
            recv_window: SW_WINDOW,
            flags: AdspFlags { ack: true, eom: false, attention: false },
        };
        match client.received_packet(printer, reply, &on_the_wire(&[0x00, 0x00]), 0).event {
            AdspEvent::Data { conn_id, data } => {
                assert_eq!(conn_id, SW_CONN_ID);
                assert_eq!(data, vec![0x00, 0x00]);
            }
            other => panic!("no data: {:?}", other),
        }
        data_send_seq += 2;
    }
    let close = client.close_connection(SW_CONN_ID).unwrap();
    assert_eq!(close.packet.descriptor, AdspDescriptor::CloseAdvice);
    assert_eq!(close.packet.connection_id, our_id);
}

#[test]
fn messages_are_cut_into_packets() {
    let mut a = Adsp::new();
    let mut b = Adsp::new();
    let (a_id, _) = handshake(&mut a, &mut b);
    let data: Vec<u8> = (0..1500usize).map(|i| (i % 256) as u8).collect();
    let send = b.send_data(a_id, &data, true).unwrap();
    assert!(send.finished && send.restarts_clock);
    let frames = send.frames;
    assert_eq!(frames.len(), 3);
    assert_eq!(frames[0].data.len(), ADSP_MAX_DATA);
    assert_eq!(frames[1].packet.first_byte_seq, ADSP_MAX_DATA as u32);
    assert!(!frames[1].packet.flags.eom && frames[2].packet.flags.eom);
    let joined: Vec<u8> = frames.iter().flat_map(|f| f.data.clone()).collect();
    assert_eq!(joined, data);

    // An empty message is one packet that ends it.
    let end = b.send_data(a_id, &[], true).unwrap();
    assert_eq!(end.frames.len(), 1);
    assert!(end.frames[0].packet.flags.eom && end.frames[0].data.is_empty());
    // It is not waited for.
    assert!(end.finished && !end.restarts_clock);
    assert!(b.send_data(a_id, &[], false).unwrap().frames.is_empty());
}

/// A connection whose peer has told of this window.
fn connected_with_window(recv_window: u16) -> Adsp {
    let mut client = Adsp::new();
    let (our_id, _) = client.connect(A);
    let mut params = vec![0x01, 0x00];
    params.extend_from_slice(&our_id.to_be_bytes());
    params.extend_from_slice(&[0; 4]);
    let ack = peer_packet(AdspDescriptor::OpenConnReqAck, 0, recv_window);
    client.received_packet(A, ack, &on_the_wire(&params), 0);
    client
}

fn peer_packet(descriptor: AdspDescriptor, next_recv_seq: u32, recv_window: u16) -> AdspPacket {
    AdspPacket {
        descriptor,
        connection_id: 7,
        first_byte_seq: 0,
        next_recv_seq,
        recv_window,
        flags: AdspFlags { ack: false, eom: false, attention: false },
    }
}

#[test]
fn windows_are_kept() {
    let mut client = connected_with_window(1000);
    let data = [5u8; 1500];
    assert_eq!(client.window_room(7), 1000);
    assert_eq!(client.window_room(8), 0);
    let send = client.send_data(7, &data, true).unwrap();
    assert_eq!((send.taken, send.finished, send.restarts_clock), (1000, false, true));
    assert_eq!(send.frames.iter().map(|f| f.data.len()).collect::<Vec<_>>(), vec![ADSP_MAX_DATA, 1000 - ADSP_MAX_DATA]);
    assert!(send.frames.iter().all(|f| !f.packet.flags.eom));
    for frame in &send.frames {
        client.data_sent(7, &frame.data);
    }
    client.send_finished(7, send.restarts_clock, 10);
    assert_eq!(client.window_room(7), 0);
    let stalled = client.send_data(7, &data[1000..], true).unwrap();
    assert!(stalled.frames.is_empty() && stalled.taken == 0 && !stalled.finished && !stalled.restarts_clock);
    // A window that shrinks below what is in flight lets nothing through.
    client.received_packet(A, peer_packet(AdspDescriptor::Acknowledgment, 400, 500), &on_the_wire(&[]), 20);
    assert_eq!(client.window_room(7), 0);
    client.received_packet(A, peer_packet(AdspDescriptor::Acknowledgment, 1000, 600), &on_the_wire(&[]), 30);
    let last = client.send_data(7, &data[1000..], true).unwrap();
    assert!(last.finished && last.frames.len() == 1 && last.frames[0].packet.flags.eom);
    assert_eq!(last.frames[0].packet.first_byte_seq, 1000);
}

#[test]
fn closed_windows_let_nothing_through() {
    let client = connected_with_window(0);
    assert!(client.send_data(7, b"x", false).unwrap().frames.is_empty());
}

#[test]
fn long_messages_arrive_whole() {
    let mut a = Adsp::new();
    let mut b = Adsp::new();
    let (a_id, _) = handshake(&mut a, &mut b);
    let mut stream = AdspStream::new(a_id, A);
    let message: Vec<u8> = (0..3 * ADSP_MAX_DATA + 7).map(|i| i as u8).collect();
    stream.write(&message[..100]);
    stream.write(&message[100..]);
    let written = stream.write_eom();
    assert_eq!(stream.unsent_len(), 0);
    assert_eq!(carry(&mut b, B, &mut a, A, a_id, &written), message);
    // Everything has been acknowledged: nothing is left to send again.
    assert!(b.tick(ADSP_RETRANSMIT * 10).is_empty());
    assert!(stream.write_eom().is_empty());
}

#[test]
fn lost_packets_are_sent_again() {
    let mut a = Adsp::new();
    let mut b = Adsp::new();
    let (a_id, _) = handshake(&mut a, &mut b);
    let send = b.send_data(a_id, b"lost", false).unwrap();
    for frame in &send.frames {
        b.data_sent(a_id, &frame.data);
    }
    b.send_finished(a_id, send.restarts_clock, 1_000);
    assert!(b.may_tick(1_000 + ADSP_RETRANSMIT));
    assert!(b.tick(1_000 + ADSP_RETRANSMIT).is_empty());
    let mut now: u64 = 1_000;
    for _ in 0..5 {
        now += ADSP_RETRANSMIT + 1;
        assert!(b.may_tick(now));
        let again = b.tick(now);
        assert_eq!(again.len(), 1);
        assert_eq!(again[0].data, b"lost");
        assert_eq!(again[0].packet.first_byte_seq, 0);
    }
    // After that the connection is given up.
    now += ADSP_RETRANSMIT + 1;
    assert!(b.tick(now).is_empty());
    assert!(matches!(b.send_data(a_id, b"x", false), Err(AdspError::Closing)));
}

#[test]
fn attentions_are_acknowledged() {
    let mut a = Adsp::new();
    let mut b = Adsp::new();
    let (a_id, b_id) = handshake(&mut a, &mut b);
    let frame = b.send_attention_msg(a_id, 0x0006, &[0]).unwrap();
    let ack = arrive(&mut a, B, &frame, 0).frame.unwrap();
    assert_eq!(ack.packet.descriptor, AdspDescriptor::ControlPacket);
    assert!(ack.packet.flags.attention);
    assert_eq!(ack.data, vec![0x00, 0x06]);
    assert!(matches!(a.send_attention_msg(b_id ^ 1, 1, &[]), Err(AdspError::NoSuchConnection)));
}

fn pap(connection_id: u8, function: PapFunction, sequence_num: u16, eof: bool, data: Vec<u8>) -> PapPacket {
    PapPacket { connection_id, function, sequence_num, eof, data }
}

const PRINTER: AtpAddress = AtpAddress { network_number: 1, node_number: 30, socket_number: 128 };

fn connected() -> PapClient {
    let mut client = PapClient::new(77);
    let open = client.connect(PRINTER);
    assert_eq!(open.function, PapFunction::OpenConn);
    assert_eq!(open.connection_id, 77);
    assert_eq!(open.data[0], 77);
    let reply = pap(55, PapFunction::OpenConnReply, 0, false, vec![130, 8, 0, 0]);
    assert_eq!(client.open_reply(&reply, false), OpenStep::Connected);
    client
}

#[test]
fn test_pap_print_job() {
    let client = connected();
    assert_eq!(client.connection_id, 55);
    assert_eq!(client.server_addr.socket_number, 130);
    assert_eq!(client.server_addr.node_number, 30);

    let print_data = b"Hello, world! This is a print job.".to_vec();
    let mut job = PrintJob::new(0);
    let ask = pap(55, PapFunction::SendData, 1, false, vec![]);
    match job.print_stream(&client, &ask, 0xFF, 10) {
        PrintStep::Read { capacity, sequence_num } => {
            assert_eq!(capacity, 8 * 512);
            let answer = job.data_read(&client, sequence_num, print_data.clone());
            assert_eq!(answer.data, print_data);
            assert_eq!(answer.sequence_num, 1);
            assert!(!answer.eof);
        }
        other => panic!("nothing to read: {:?}", other),
    }
    // The next request meets the end of the data.
    let ask = pap(55, PapFunction::SendData, 2, false, vec![]);
    assert!(matches!(job.print_stream(&client, &ask, 0xFF, 20), PrintStep::Read { .. }));
    assert!(job.data_read(&client, 2, vec![]).eof);
    let tickle = pap(55, PapFunction::Tickle, 0, false, vec![]);
    assert!(matches!(job.print_stream(&client, &tickle, 0xFF, 30), PrintStep::Done));
    match job.print_stream(&client, &pap(55, PapFunction::SendData, 3, false, vec![]), 0xFF, 30) {
        PrintStep::Respond(p) => assert!(p.eof && p.data.is_empty() && p.sequence_num == 3),
        other => panic!("no answer: {:?}", other),
    }
}

#[test]
fn printers_that_close_early_are_noticed() {
    let client = connected();
    let mut job = PrintJob::new(0);
    let close = pap(55, PapFunction::CloseConn, 0, false, vec![]);
    match job.print_stream(&client, &close, 0xFF, 10) {
        PrintStep::Closed { reply, complete } => {
            assert_eq!(reply.function, PapFunction::CloseConnReply);
            assert!(!complete);
        }
        other => panic!("not closed: {:?}", other),
    }
    // Another connection's packets do not count.
    let other = pap(54, PapFunction::CloseConn, 0, false, vec![]);
    assert!(matches!(job.print_stream(&client, &other, 0xFF, 10), PrintStep::Wait));
    assert!(matches!(job.tick(&client, 10 + PAP_TIMEOUT), PrintStep::Tickle { to, packet }
        if to == client.server_addr && packet.function == PapFunction::Tickle));
    assert!(matches!(job.tick(&client, 11 + PAP_TIMEOUT), PrintStep::TimedOut));
    let (to, close) = client.close();
    assert_eq!(to, client.server_addr);
    assert_ne!(to, client.remote_addr);
    assert_eq!(close.function, PapFunction::CloseConn);
}

#[test]
fn busy_printers_are_asked_again() {
    let mut client = PapClient::new(77);
    client.connect(PRINTER);
    let busy = pap(0, PapFunction::OpenConnReply, 0, false, vec![0, 8, 0xFF, 0xFF]);
    assert_eq!(client.open_reply(&busy, false), OpenStep::Retry);
    assert_eq!(client.open_reply(&busy, true), OpenStep::Busy(0xFFFF));
    let short = pap(0, PapFunction::OpenConnReply, 0, false, vec![0, 8]);
    assert_eq!(client.open_reply(&short, false), OpenStep::TooShort(2));
    let wrong = pap(0, PapFunction::Status, 0, false, vec![]);
    assert_eq!(client.open_reply(&wrong, false), OpenStep::Unexpected(PapFunction::Status));
}

#[test]
fn statuses_are_read_as_text() {
    assert_eq!(PapClient::status_request().function, PapFunction::SendStatus);
    let mut data = vec![0, 0, 0, 0];
    data.extend_from_slice(b"idle");
    data.push(0xFF);
    assert_eq!(PapClient::get_status(&pap(0, PapFunction::Status, 0, false, data)), "idle\u{FFFD}");
    assert_eq!(PapClient::get_status(&pap(0, PapFunction::Status, 0, false, vec![1, 2, 3, 4])), "");
}

#[test]
fn responses_are_gathered_until_their_end() {
    let client = connected();
    let mut reader = ResponseReader::new();
    assert_eq!(reader.request(&client).0, client.server_addr);
    assert_eq!(reader.request(&client).1.sequence_num, 1);
    assert_eq!(reader.read_response(&pap(55, PapFunction::Data, 1, false, vec![1, 2])), ReadStep::More);
    assert_eq!(reader.request(&client).1.sequence_num, 2);
    assert_eq!(
        reader.read_response(&pap(55, PapFunction::Tickle, 0, false, vec![9])),
        ReadStep::Unexpected(PapFunction::Tickle)
    );
    assert_eq!(reader.read_response(&pap(55, PapFunction::Data, 2, true, vec![3])), ReadStep::Complete);
    assert_eq!(reader.response, vec![1, 2, 3]);
}

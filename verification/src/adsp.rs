//! AppleTalk Data Stream Protocol: connections, retransmission and the byte
//! streams on top of them.

use crate::bytebuf::{
    buf_advance, buf_extend, buf_front, buf_len, buf_new, buf_split, buffered, read_be16, write_be16,
};
use crate::idmap::IdMap;
use crate::random::any_u16;
use crate::wire::{
    be16, copy_bytes, from_be16, law_bytes_count_by_their_place, law_numbers_are_read_by_place, lemma_be16_round_trip,
    number16, put_bytes, repeat, slice_bytes,
};
use bytes::BytesMut;
use vstd::prelude::*;

verus! {

/// Most data bytes in one packet.
pub const ADSP_MAX_DATA: usize = 572;

/// The receive window that we advertise.
pub const ADSP_RECV_WINDOW: u16 = 4096;

/// Bytes in a packet header.
pub const ADSP_HEADER_LEN: usize = 13;

/// Milliseconds after which unacknowledged data is sent again.
pub const ADSP_RETRANSMIT: u64 = 3000;

/// Retransmissions after which a connection is given up.
pub const ADSP_MAX_RETRIES: u8 = 5;

/// The protocol version in the parameters of the opening packets.
pub const ADSP_VERSION: u16 = 0x0100;

/// A socket on an AppleTalk internet.
#[derive(Debug, Clone, Copy, PartialEq, Eq, Structural, Hash)]
pub struct AdspAddress {
    pub network_number: u16,
    pub node_number: u8,
    pub socket_number: u8,
}

/// What a packet is for.
#[derive(Debug, Clone, Copy, PartialEq, Eq, Structural)]
pub enum AdspDescriptor {
    DataPacket,
    ControlPacket,
    Acknowledgment,
    OpenConnRequest,
    OpenConnAck,
    OpenConnReqAck,
    OpenConnDenial,
    CloseAdvice,
    ForwardReset,
    ForwardResetAck,
    RetransmitAdvice,
}

/// The flags of a packet.
#[derive(Debug, Clone, Copy, PartialEq, Eq, Structural)]
pub struct AdspFlags {
    pub ack: bool,
    pub eom: bool,
    pub attention: bool,
}

/// A packet header.
#[derive(Debug, Clone, Copy, PartialEq, Eq, Structural)]
pub struct AdspPacket {
    pub descriptor: AdspDescriptor,
    pub connection_id: u16,
    pub first_byte_seq: u32,
    pub next_recv_seq: u32,
    pub recv_window: u16,
    pub flags: AdspFlags,
}

/// A packet on its way out: the header and what stands behind it.
#[derive(Debug)]
pub struct AdspFrame {
    pub destination: AdspAddress,
    pub packet: AdspPacket,
    pub data: Vec<u8>,
}

/// What a frame holds.
pub struct FrameView {
    pub destination: AdspAddress,
    pub packet: AdspPacket,
    pub data: Seq<u8>,
}

impl View for AdspFrame {
    type V = FrameView;

    open spec fn view(&self) -> FrameView {
        FrameView { destination: self.destination, packet: self.packet, data: self.data@ }
    }
}

/// What each frame of a list holds.
pub open spec fn frames_of(frames: Seq<AdspFrame>) -> Seq<FrameView> {
    Seq::new(frames.len(), |i: int| frames[i]@)
}

/// `seq + n` on the circle of sequence numbers.
pub open spec fn seq_add(seq: u32, n: int) -> u32 {
    ((seq + n) % 0x1_0000_0000) as u32
}

/// How far `to` is ahead of `from` on the circle of sequence numbers.
pub open spec fn seq_distance(from: u32, to: u32) -> int {
    (to - from) % 0x1_0000_0000
}

fn seq_advance(seq: u32, n: usize) -> (r: u32)
    ensures
        r == seq_add(seq, n as int),
{
    let low: u64 = (n as u64) % 0x1_0000_0000;
    let r: u32 = ((seq as u64 + low) % 0x1_0000_0000) as u32;
    assert((seq + n) % 0x1_0000_0000 == (seq + (n as int) % 0x1_0000_0000) % 0x1_0000_0000);
    r
}

/// The smaller of two numbers.
pub open spec fn least(a: nat, b: nat) -> nat {
    if a <= b {
        a
    } else {
        b
    }
}

/// One end of a connection.
#[derive(Debug)]
pub struct AdspConnection {
    /// Our number of the connection, which goes into outgoing packets. The
    /// table of connections is keyed by the peer's number.
    pub our_conn_id: u16,
    /// False once the connection has been given up.
    pub open: bool,
    pub remote_addr: AdspAddress,
    pub send_seq: u32,
    pub oldest_unacked_seq: u32,
    pub recv_seq: u32,
    pub send_window: u16,
    /// What has been sent and not been acknowledged yet.
    pub flight_buffer: Vec<u8>,
    pub last_tx: u64,
    pub retries: u8,
    /// The number of the next attention message.
    pub attn_send_seq: u32,
}

/// The state of one end of a connection.
#[verifier::ext_equal]
pub struct ConnView {
    pub our_conn_id: u16,
    pub open: bool,
    pub remote_addr: AdspAddress,
    pub send_seq: u32,
    pub oldest_unacked_seq: u32,
    pub recv_seq: u32,
    pub send_window: u16,
    pub flight: Seq<u8>,
    pub last_tx: u64,
    pub retries: u8,
    pub attn_send_seq: u32,
}

impl ConnView {
    /// What is in flight is what lies between the oldest byte that is not
    /// acknowledged and the next byte to be sent.
    pub open spec fn in_step(self) -> bool {
        self.send_seq == seq_add(self.oldest_unacked_seq, self.flight.len() as int)
    }

    /// A connection that has just been opened.
    pub open spec fn fresh(our_conn_id: u16, remote_addr: AdspAddress, peer_window: u16, now: u64) -> ConnView {
        ConnView {
            our_conn_id,
            open: true,
            remote_addr,
            send_seq: 0,
            oldest_unacked_seq: 0,
            recv_seq: 0,
            send_window: peer_window,
            flight: Seq::empty(),
            last_tx: now,
            retries: 0,
            attn_send_seq: 0,
        }
    }

    /// A piece of data has been sent.
    pub open spec fn sent(self, piece: Seq<u8>) -> ConnView {
        ConnView {
            flight: self.flight + piece,
            send_seq: seq_add(self.send_seq, piece.len() as int),
            ..self
        }
    }

    /// How many bytes an acknowledgement up to `next` takes out of flight.
    pub open spec fn acked(self, next: u32) -> int {
        let n = seq_distance(self.oldest_unacked_seq, next);
        if n <= self.flight.len() {
            n
        } else {
            0
        }
    }

    /// An acknowledgement has come in.
    pub open spec fn after_ack(self, next: u32, window: u16) -> ConnView {
        let n = self.acked(next);
        if n > 0 {
            ConnView {
                send_window: window,
                flight: self.flight.skip(n),
                oldest_unacked_seq: next,
                retries: 0,
                ..self
            }
        } else {
            ConnView { send_window: window, ..self }
        }
    }

    /// Data has come in that starts at `first`.
    pub open spec fn received(self, first: u32, n: int) -> ConnView {
        if n > 0 {
            ConnView { recv_seq: seq_add(first, n), ..self }
        } else {
            self
        }
    }

    /// Whether unacknowledged data has to be sent again.
    pub open spec fn is_due(self, now: u64) -> bool {
        self.flight.len() > 0 && now - self.last_tx > ADSP_RETRANSMIT
    }

    /// The state after the retransmission timer.
    pub open spec fn ticked(self, now: u64) -> ConnView {
        if !self.is_due(now) {
            self
        } else if self.retries + 1 > ADSP_MAX_RETRIES {
            ConnView { retries: (self.retries + 1) as u8, open: false, ..self }
        } else {
            ConnView { retries: (self.retries + 1) as u8, last_tx: now, ..self }
        }
    }

    /// The header of a data packet that starts at `first`.
    pub open spec fn data_header(self, first: u32, eom: bool) -> AdspPacket {
        AdspPacket {
            descriptor: AdspDescriptor::DataPacket,
            connection_id: self.our_conn_id,
            first_byte_seq: first,
            next_recv_seq: self.recv_seq,
            recv_window: ADSP_RECV_WINDOW,
            flags: AdspFlags { ack: true, eom, attention: false },
        }
    }

    /// The packets that carry `data` from byte `at` on, numbered from `base`
    /// for byte zero; the last one ends the message where `eom`.
    pub open spec fn data_frames(self, base: u32, data: Seq<u8>, at: int, eom: bool) -> Seq<FrameView>
        decreases data.len() - at,
    {
        if at < 0 || at >= data.len() {
            Seq::empty()
        } else {
            let end = if data.len() - at > ADSP_MAX_DATA {
                at + ADSP_MAX_DATA
            } else {
                data.len() as int
            };
            seq![
                (FrameView {
                    destination: self.remote_addr,
                    packet: self.data_header(seq_add(base, at), eom && end == data.len()),
                    data: data.subrange(at, end),
                }),
            ] + self.data_frames(base, data, end, eom)
        }
    }

    /// The packets of a message.
    pub open spec fn message_frames(self, data: Seq<u8>, eom: bool) -> Seq<FrameView> {
        if data.len() == 0 && eom {
            seq![
                (FrameView {
                    destination: self.remote_addr,
                    packet: self.data_header(self.send_seq, true),
                    data: Seq::empty(),
                }),
            ]
        } else {
            self.data_frames(self.send_seq, data, 0, eom)
        }
    }

    /// How many more bytes the peer has room for: its window, less what is in
    /// flight.
    pub open spec fn room(self) -> nat {
        if self.send_window > self.flight.len() {
            (self.send_window - self.flight.len()) as nat
        } else {
            0
        }
    }

    /// How many of `len` bytes the peer has room for.
    pub open spec fn fitting(self, len: nat) -> nat {
        least(len, self.room())
    }

    /// The packets of as much of a message as the peer has room for; the message
    /// ends only with its last byte.
    pub open spec fn paced_frames(self, data: Seq<u8>, eom: bool) -> Seq<FrameView> {
        let n = self.fitting(data.len());
        self.message_frames(data.take(n as int), eom && n == data.len())
    }

    /// The packets that the retransmission timer sends.
    pub open spec fn tick_frames(self, now: u64) -> Seq<FrameView> {
        if self.is_due(now) && self.retries + 1 <= ADSP_MAX_RETRIES {
            self.data_frames(self.oldest_unacked_seq, self.flight, 0, false)
        } else {
            Seq::empty()
        }
    }

    /// A packet without data.
    pub open spec fn bare_frame(self, descriptor: AdspDescriptor, recv_window: u16) -> FrameView {
        FrameView {
            destination: self.remote_addr,
            packet: AdspPacket {
                descriptor,
                connection_id: self.our_conn_id,
                first_byte_seq: self.send_seq,
                next_recv_seq: self.recv_seq,
                recv_window,
                flags: AdspFlags { ack: false, eom: false, attention: false },
            },
            data: Seq::empty(),
        }
    }

    /// An attention message.
    pub open spec fn attention_frame(self, code: u16, data: Seq<u8>) -> FrameView {
        FrameView {
            destination: self.remote_addr,
            packet: AdspPacket {
                descriptor: AdspDescriptor::DataPacket,
                connection_id: self.our_conn_id,
                first_byte_seq: self.attn_send_seq,
                next_recv_seq: self.recv_seq,
                recv_window: 0,
                flags: AdspFlags { ack: true, eom: false, attention: true },
            },
            data: be16(code) + data,
        }
    }

    /// The acknowledgement of an attention message.
    pub open spec fn attention_ack(self, code: u16) -> FrameView {
        FrameView {
            destination: self.remote_addr,
            packet: AdspPacket {
                descriptor: AdspDescriptor::ControlPacket,
                connection_id: self.our_conn_id,
                first_byte_seq: self.send_seq,
                next_recv_seq: self.recv_seq,
                recv_window: 0,
                flags: AdspFlags { ack: false, eom: false, attention: true },
            },
            data: be16(code),
        }
    }
}

/// A packet of the opening handshake: the version and the number that the
/// other end is to recognise the connection by, in a block of eight bytes.
pub open spec fn opening_frame(to: AdspAddress, descriptor: AdspDescriptor, our_conn_id: u16, their_conn_id: u16) -> FrameView {
    FrameView {
        destination: to,
        packet: AdspPacket {
            descriptor,
            connection_id: our_conn_id,
            first_byte_seq: 0,
            next_recv_seq: 0,
            recv_window: ADSP_RECV_WINDOW,
            flags: AdspFlags { ack: false, eom: false, attention: false },
        },
        data: be16(ADSP_VERSION) + be16(their_conn_id) + repeat(0, 4),
    }
}

fn make_opening(to: AdspAddress, descriptor: AdspDescriptor, our_conn_id: u16, their_conn_id: u16) -> (f: AdspFrame)
    ensures
        f@ == opening_frame(to, descriptor, our_conn_id, their_conn_id),
{
    let mut data: Vec<u8> = vec![0, 0, 0, 0, 0, 0, 0, 0];
    write_be16(&mut data, 0, ADSP_VERSION);
    write_be16(&mut data, 2, their_conn_id);
    assert(data@ =~= be16(ADSP_VERSION) + be16(their_conn_id) + repeat(0, 4));
    AdspFrame {
        destination: to,
        packet: AdspPacket {
            descriptor,
            connection_id: our_conn_id,
            first_byte_seq: 0,
            next_recv_seq: 0,
            recv_window: ADSP_RECV_WINDOW,
            flags: AdspFlags { ack: false, eom: false, attention: false },
        },
        data,
    }
}

impl AdspConnection {
    /// The state of the connection.
    pub open spec fn view(self) -> ConnView {
        ConnView {
            our_conn_id: self.our_conn_id,
            open: self.open,
            remote_addr: self.remote_addr,
            send_seq: self.send_seq,
            oldest_unacked_seq: self.oldest_unacked_seq,
            recv_seq: self.recv_seq,
            send_window: self.send_window,
            flight: self.flight_buffer@,
            last_tx: self.last_tx,
            retries: self.retries,
            attn_send_seq: self.attn_send_seq,
        }
    }

    fn push_data_frames(&self, frames: &mut Vec<AdspFrame>, base: u32, data: &[u8], eom: bool)
        ensures
            frames_of(final(frames)@) == frames_of(old(frames)@) + self@.data_frames(base, data@, 0, eom),
    {
        let ghost whole = frames_of(old(frames)@) + self@.data_frames(base, data@, 0, eom);
        let mut at: usize = 0;
        while at < data.len()
            invariant
                at <= data@.len(),
                whole == frames_of(frames@) + self@.data_frames(base, data@, at as int, eom),
            decreases data@.len() - at,
        {
            let end: usize = if data.len() - at > ADSP_MAX_DATA { at + ADSP_MAX_DATA } else { data.len() };
            let piece = slice_bytes(data, at, end);
            let frame = AdspFrame {
                destination: self.remote_addr,
                packet: AdspPacket {
                    descriptor: AdspDescriptor::DataPacket,
                    connection_id: self.our_conn_id,
                    first_byte_seq: seq_advance(base, at),
                    next_recv_seq: self.recv_seq,
                    recv_window: ADSP_RECV_WINDOW,
                    flags: AdspFlags { ack: true, eom: eom && end == data.len(), attention: false },
                },
                data: piece,
            };
            let ghost before = frames_of(frames@);
            let ghost fv = frame@;
            frames.push(frame);
            proof {
                assert(frames_of(frames@) =~= before.push(fv));
                assert(self@.data_frames(base, data@, at as int, eom) =~= seq![fv] + self@.data_frames(
                    base,
                    data@,
                    end as int,
                    eom,
                ));
                assert(whole =~= frames_of(frames@) + self@.data_frames(base, data@, end as int, eom));
            }
            at = end;
        }
        assert(whole =~= frames_of(frames@));
    }

    fn window_left(&self) -> (n: usize)
        ensures
            n == self@.room(),
    {
        let window: usize = self.send_window as usize;
        if window > self.flight_buffer.len() {
            window - self.flight_buffer.len()
        } else {
            0
        }
    }

    fn due(&self, now: u64) -> (r: bool)
        ensures
            r == self@.is_due(now),
    {
        self.flight_buffer.len() > 0 && now > self.last_tx && now - self.last_tx > ADSP_RETRANSMIT
    }

    fn bare(&self, descriptor: AdspDescriptor, recv_window: u16) -> (f: AdspFrame)
        ensures
            f@ == self@.bare_frame(descriptor, recv_window),
    {
        AdspFrame {
            destination: self.remote_addr,
            packet: AdspPacket {
                descriptor,
                connection_id: self.our_conn_id,
                first_byte_seq: self.send_seq,
                next_recv_seq: self.recv_seq,
                recv_window,
                flags: AdspFlags { ack: false, eom: false, attention: false },
            },
            data: Vec::new(),
        }
    }
}

/// How a part of a message is sent.
#[derive(Debug)]
pub struct AdspSend {
    pub frames: Vec<AdspFrame>,
    /// How many bytes of the message the packets carry.
    pub taken: usize,
    /// Whether that is all of the message.
    pub finished: bool,
    /// Whether the wait for the acknowledgement starts anew with these packets.
    pub restarts_clock: bool,
}

/// Why data cannot be sent.
#[derive(Debug, Clone, Copy, PartialEq, Eq, Structural)]
pub enum AdspError {
    /// There is no such connection.
    NoSuchConnection,
    /// The connection has been given up.
    Closing,
}

/// What a packet that came in leads to, besides the frames to be sent.
#[derive(Debug)]
pub enum AdspEvent {
    Nothing,
    /// A connection has been accepted; a listener gets its stream.
    Accepted { conn_id: u16 },
    /// The connection that we asked for under `our_conn_id` is open.
    Connected { our_conn_id: u16, conn_id: u16 },
    /// Data for the reader of a connection.
    Data { conn_id: u16, data: Vec<u8> },
    /// The peer has closed a connection; its reader sees the end.
    Closed { conn_id: u16 },
}

/// What an event holds.
pub enum EventView {
    Nothing,
    Accepted { conn_id: u16 },
    Connected { our_conn_id: u16, conn_id: u16 },
    Data { conn_id: u16, data: Seq<u8> },
    Closed { conn_id: u16 },
}

impl View for AdspEvent {
    type V = EventView;

    open spec fn view(&self) -> EventView {
        match *self {
            AdspEvent::Nothing => EventView::Nothing,
            AdspEvent::Accepted { conn_id } => EventView::Accepted { conn_id },
            AdspEvent::Connected { our_conn_id, conn_id } => EventView::Connected { our_conn_id, conn_id },
            AdspEvent::Data { conn_id, data } => EventView::Data { conn_id, data: data@ },
            AdspEvent::Closed { conn_id } => EventView::Closed { conn_id },
        }
    }
}

/// The frame to be sent, if any, and what else a packet leads to.
#[derive(Debug)]
pub struct AdspReaction {
    pub frame: Option<AdspFrame>,
    pub event: AdspEvent,
}

/// What a reaction holds.
#[verifier::ext_equal]
pub struct ReactionView {
    pub frame: Option<FrameView>,
    pub event: EventView,
}

impl View for AdspReaction {
    type V = ReactionView;

    open spec fn view(&self) -> ReactionView {
        ReactionView {
            frame: match self.frame {
                Some(f) => Some(f@),
                None => None,
            },
            event: self.event@,
        }
    }
}

/// No reaction at all.
pub open spec fn ignored() -> ReactionView {
    ReactionView { frame: None, event: EventView::Nothing }
}

/// The connections of one socket.
#[derive(Debug)]
pub struct Adsp {
    pub connections: IdMap<AdspConnection>,
    pub pending_opens: IdMap<()>,
}

/// What a socket knows of its connections.
#[verifier::ext_equal]
pub struct AdspModel {
    pub connections: Map<u64, ConnView>,
    pub opens: Set<u64>,
}

impl AdspModel {
    /// The model with one connection changed.
    pub open spec fn with(self, conn_id: u16, c: ConnView) -> AdspModel {
        AdspModel { connections: self.connections.insert(conn_id as u64, c), ..self }
    }

    /// Which of our numbers an acknowledgement of an opening speaks of: the one
    /// that it carries behind its header, or else its own connection number.
    pub open spec fn opened_id(packet: AdspPacket, payload: Seq<u8>) -> u16 {
        if payload.len() >= 17 {
            from_be16(payload[15], payload[16])
        } else {
            packet.connection_id
        }
    }

    /// The state after a packet, where a connection that the packet opens gets
    /// the number `fresh_id`.
    pub open spec fn after_packet(
        self,
        from: AdspAddress,
        packet: AdspPacket,
        payload: Seq<u8>,
        fresh_id: u16,
        now: u64,
    ) -> AdspModel {
        let id = packet.connection_id;
        let known = self.connections.contains_key(id as u64);
        let c = self.connections[id as u64];
        if packet.flags.attention {
            self
        } else {
            match packet.descriptor {
                AdspDescriptor::OpenConnRequest => self.with(
                    id,
                    ConnView::fresh(fresh_id, from, packet.recv_window, now),
                ),
                AdspDescriptor::OpenConnAck | AdspDescriptor::OpenConnReqAck => {
                    let ours = AdspModel::opened_id(packet, payload);
                    if self.opens.contains(ours as u64) {
                        AdspModel {
                            connections: self.connections.insert(
                                id as u64,
                                ConnView::fresh(ours, from, packet.recv_window, now),
                            ),
                            opens: self.opens.remove(ours as u64),
                        }
                    } else {
                        self
                    }
                },
                AdspDescriptor::DataPacket | AdspDescriptor::ControlPacket => if known {
                    self.with(id, c.received(packet.first_byte_seq, payload.len() - ADSP_HEADER_LEN))
                } else {
                    self
                },
                AdspDescriptor::Acknowledgment => if known {
                    self.with(id, c.after_ack(packet.next_recv_seq, packet.recv_window))
                } else {
                    self
                },
                AdspDescriptor::CloseAdvice => AdspModel { connections: self.connections.remove(id as u64), ..self },
                _ => self,
            }
        }
    }

    /// What a packet leads to.
    pub open spec fn reaction(
        self,
        from: AdspAddress,
        packet: AdspPacket,
        payload: Seq<u8>,
        fresh_id: u16,
    ) -> ReactionView {
        let id = packet.connection_id;
        let known = self.connections.contains_key(id as u64);
        let c = self.connections[id as u64];
        let data = payload.skip(ADSP_HEADER_LEN as int);
        if packet.flags.attention {
            if known && data.len() >= 2 {
                ReactionView {
                    frame: Some(c.attention_ack(from_be16(data[0], data[1]))),
                    event: EventView::Nothing,
                }
            } else {
                ignored()
            }
        } else {
            match packet.descriptor {
                AdspDescriptor::OpenConnRequest => ReactionView {
                    frame: Some(opening_frame(from, AdspDescriptor::OpenConnReqAck, fresh_id, id)),
                    event: EventView::Accepted { conn_id: id },
                },
                AdspDescriptor::OpenConnAck | AdspDescriptor::OpenConnReqAck => {
                    let ours = AdspModel::opened_id(packet, payload);
                    if self.opens.contains(ours as u64) {
                        ReactionView {
                            frame: Some(opening_frame(from, AdspDescriptor::OpenConnAck, ours, id)),
                            event: EventView::Connected { our_conn_id: ours, conn_id: id },
                        }
                    } else {
                        ignored()
                    }
                },
                AdspDescriptor::DataPacket | AdspDescriptor::ControlPacket => if known {
                    ReactionView {
                        frame: Some(
                            c.received(packet.first_byte_seq, data.len() as int).bare_frame(
                                AdspDescriptor::Acknowledgment,
                                ADSP_RECV_WINDOW,
                            ),
                        ),
                        event: if data.len() > 0 {
                            EventView::Data { conn_id: id, data }
                        } else {
                            EventView::Nothing
                        },
                    }
                } else {
                    ignored()
                },
                AdspDescriptor::CloseAdvice => ReactionView {
                    frame: None,
                    event: if known {
                        EventView::Closed { conn_id: id }
                    } else {
                        EventView::Nothing
                    },
                },
                _ => ignored(),
            }
        }
    }
}

/// The state of each connection after the retransmission timer.
pub open spec fn all_ticked(connections: Map<u64, ConnView>, now: u64) -> Map<u64, ConnView> {
    connections.map_values(|c: ConnView| c.ticked(now))
}

/// The packets that the retransmission timer sends for the first `n` entries.
pub open spec fn all_tick_frames(entries: Seq<(u64, AdspConnection)>, now: u64, n: nat) -> Seq<FrameView>
    decreases n,
{
    if n == 0 {
        Seq::empty()
    } else {
        all_tick_frames(entries, now, (n - 1) as nat) + entries[n - 1].1@.tick_frames(now)
    }
}

impl Adsp {
    /// The invariant: in every connection what is in flight fits the sequence
    /// numbers.
    pub open spec fn wf(self) -> bool {
        &&& self.connections.wf()
        &&& self.pending_opens.wf()
        &&& forall|i: int|
            0 <= i < self.connections.entries@.len() ==> (#[trigger] self.connections.entries@[i]).1@.in_step()
    }

    /// What the socket knows of its connections.
    pub open spec fn view(self) -> AdspModel {
        AdspModel {
            connections: Map::new(
                |k: u64| self.connections@.contains_key(k),
                |k: u64| self.connections@[k]@,
            ),
            opens: self.pending_opens@.dom(),
        }
    }

    /// A socket without connections.
    pub fn new() -> (a: Self)
        ensures
            a.wf(),
            a@ == (AdspModel { connections: Map::empty(), opens: Set::empty() }),
    {
        let a = Adsp { connections: IdMap::new(), pending_opens: IdMap::new() };
        assert(a@.connections =~= Map::<u64, ConnView>::empty());
        assert(a@.opens =~= Set::<u64>::empty());
        a
    }

    proof fn lemma_replaced(self, before: Self, i: int)
        requires
            before.wf(),
            0 <= i < before.connections.entries@.len(),
            self.connections.entries@.len() == before.connections.entries@.len(),
            self.connections.entries@[i].0 == before.connections.entries@[i].0,
            self.connections.entries@[i].1@.in_step(),
            forall|j: int|
                0 <= j < before.connections.entries@.len() && j != i ==> self.connections.entries@[j]
                    == before.connections.entries@[j],
            self.pending_opens == before.pending_opens,
        ensures
            self.wf(),
            self@ == (AdspModel {
                connections: before@.connections.insert(
                    before.connections.entries@[i].0,
                    self.connections.entries@[i].1@,
                ),
                ..before@
            }),
    {
        let k = before.connections.entries@[i].0;
        self.connections.lemma_replaced(before.connections, i, self.connections.entries@[i].1);
        assert forall|j: int| 0 <= j < self.connections.entries@.len() implies (
        #[trigger] self.connections.entries@[j]).1@.in_step() by {
            if j != i {
                assert(before.connections.entries@[j].1@.in_step());
            }
        }
        assert(self@.connections =~= before@.connections.insert(k, self.connections.entries@[i].1@));
        assert(self@.opens =~= before@.opens);
    }

    proof fn lemma_inserted(self, before: Self, k: u64, added: AdspConnection)
        requires
            before.wf(),
            added@.in_step(),
            self.connections.wf(),
            self.pending_opens.wf(),
            self.connections@ == before.connections@.insert(k, added),
        ensures
            self.wf(),
            self@.connections == before@.connections.insert(k, added@),
    {
        assert forall|j: int| 0 <= j < self.connections.entries@.len() implies (
        #[trigger] self.connections.entries@[j]).1@.in_step() by {
            self.connections.lemma_entry(j);
            let q = self.connections.entries@[j].0;
            if q != k {
                let b = choose|b: int| before.connections.key_is(b, q);
                before.connections.lemma_entry(b);
                assert(before.connections.entries@[b].1@.in_step());
            }
        }
        assert(self@.connections =~= before@.connections.insert(k, added@));
    }

    proof fn lemma_removed(self, before: Self, k: u64)
        requires
            before.wf(),
            self.connections.wf(),
            self.pending_opens == before.pending_opens,
            self.connections@ == before.connections@.remove(k),
        ensures
            self.wf(),
            self@ == (AdspModel { connections: before@.connections.remove(k), ..before@ }),
    {
        assert forall|j: int| 0 <= j < self.connections.entries@.len() implies (
        #[trigger] self.connections.entries@[j]).1@.in_step() by {
            self.connections.lemma_entry(j);
            let q = self.connections.entries@[j].0;
            let b = choose|b: int| before.connections.key_is(b, q);
            before.connections.lemma_entry(b);
            assert(before.connections.entries@[b].1@.in_step());
        }
        assert(self@.connections =~= before@.connections.remove(k));
        assert(self@ =~= (AdspModel { connections: before@.connections.remove(k), ..before@ }));
    }

    proof fn lemma_known(self, i: int)
        requires
            self.wf(),
            0 <= i < self.connections.entries@.len(),
        ensures
            self@.connections.contains_key(self.connections.entries@[i].0),
            self@.connections[self.connections.entries@[i].0] == self.connections.entries@[i].1@,
    {
        self.connections.lemma_entry(i);
    }

    fn open_connection(&mut self, map_key: u16, our_conn_id: u16, remote_addr: AdspAddress, peer_window: u16, now: u64)
        requires
            old(self).wf(),
        ensures
            final(self).wf(),
            final(self)@ == (AdspModel {
                connections: old(self)@.connections.insert(
                    map_key as u64,
                    ConnView::fresh(our_conn_id, remote_addr, peer_window, now),
                ),
                ..old(self)@
            }),
    {
        let ghost before = *self;
        let conn = AdspConnection {
            our_conn_id,
            open: true,
            remote_addr,
            send_seq: 0,
            oldest_unacked_seq: 0,
            recv_seq: 0,
            send_window: peer_window,
            flight_buffer: Vec::new(),
            last_tx: now,
            retries: 0,
            attn_send_seq: 0,
        };
        let ghost added = conn;
        assert(added@ =~= ConnView::fresh(our_conn_id, remote_addr, peer_window, now));
        self.connections.insert(map_key as u64, conn);
        proof {
            self.lemma_inserted(before, map_key as u64, added);
            assert(self@.opens =~= before@.opens);
        }
    }

    /// Asks for a connection under a number that is picked at random.
    pub fn connect(&mut self, remote_addr: AdspAddress) -> (r: (u16, AdspFrame))
        requires
            old(self).wf(),
        ensures
            final(self).wf(),
            final(self)@ == (AdspModel { opens: old(self)@.opens.insert(r.0 as u64), ..old(self)@ }),
            r.1@ == opening_frame(remote_addr, AdspDescriptor::OpenConnRequest, r.0, 0),
    {
        let conn_id: u16 = any_u16();
        (conn_id, self.send_open_request(conn_id, remote_addr))
    }

    /// Asks for a connection under the number `conn_id`.
    pub fn send_open_request(&mut self, conn_id: u16, remote_addr: AdspAddress) -> (f: AdspFrame)
        requires
            old(self).wf(),
        ensures
            final(self).wf(),
            final(self)@ == (AdspModel { opens: old(self)@.opens.insert(conn_id as u64), ..old(self)@ }),
            f@ == opening_frame(remote_addr, AdspDescriptor::OpenConnRequest, conn_id, 0),
    {
        let ghost before = *self;
        self.pending_opens.insert(conn_id as u64, ());
        assert(self@.opens =~= before@.opens.insert(conn_id as u64));
        assert(self@ =~= (AdspModel { opens: before@.opens.insert(conn_id as u64), ..before@ }));
        make_opening(remote_addr, AdspDescriptor::OpenConnRequest, conn_id, 0)
    }

    /// How many more bytes the peer of a connection has room for.
    pub fn window_room(&self, conn_id: u16) -> (n: usize)
        requires
            self.wf(),
        ensures
            n == if self@.connections.contains_key(conn_id as u64) {
                self@.connections[conn_id as u64].room()
            } else {
                0
            },
    {
        match self.connections.find(conn_id as u64) {
            None => 0,
            Some(i) => self.connections.entries[i].1.window_left(),
        }
    }

    /// The packets of as much of a message as the peer has room for; nothing
    /// changes until they are sent. The rest of the message waits until the peer
    /// has told of more room.
    pub fn send_data(&self, conn_id: u16, data: &[u8], eom: bool) -> (r: Result<AdspSend, AdspError>)
        requires
            self.wf(),
        ensures
            match r {
                Ok(send) => {
                    let c = self@.connections[conn_id as u64];
                    &&& self@.connections.contains_key(conn_id as u64)
                    &&& c.open
                    &&& frames_of(send.frames@) == c.paced_frames(data@, eom)
                    &&& send.taken == c.fitting(data@.len())
                    &&& send.finished == (send.taken == data@.len())
                    &&& send.restarts_clock == (send.taken > 0 || data@.len() == 0 && !eom)
                },
                Err(AdspError::NoSuchConnection) => !self@.connections.contains_key(conn_id as u64),
                Err(AdspError::Closing) => self@.connections.contains_key(conn_id as u64)
                    && !self@.connections[conn_id as u64].open,
            },
    {
        match self.connections.find(conn_id as u64) {
            None => Err(AdspError::NoSuchConnection),
            Some(i) => {
                let conn = &self.connections.entries[i].1;
                if !conn.open {
                    return Err(AdspError::Closing);
                }
                let room: usize = conn.window_left();
                let taken: usize = if data.len() <= room { data.len() } else { room };
                let finished = taken == data.len();
                let part = slice_bytes(data, 0, taken);
                assert(part@ =~= data@.take(taken as int));
                let mut frames: Vec<AdspFrame> = Vec::new();
                assert(frames_of(frames@) =~= Seq::<FrameView>::empty());
                if data.len() == 0 && eom {
                    let frame = AdspFrame {
                        destination: conn.remote_addr,
                        packet: AdspPacket {
                            descriptor: AdspDescriptor::DataPacket,
                            connection_id: conn.our_conn_id,
                            first_byte_seq: conn.send_seq,
                            next_recv_seq: conn.recv_seq,
                            recv_window: ADSP_RECV_WINDOW,
                            flags: AdspFlags { ack: true, eom: true, attention: false },
                        },
                        data: Vec::new(),
                    };
                    let ghost fv = frame@;
                    frames.push(frame);
                    assert(frames_of(frames@) =~= seq![fv]);
                    assert(fv.data =~= Seq::<u8>::empty());
                } else {
                    conn.push_data_frames(&mut frames, conn.send_seq, &part, eom && finished);
                    assert(frames_of(frames@) =~= conn@.data_frames(conn.send_seq, part@, 0, eom && finished));
                }
                Ok(AdspSend { frames, taken, finished, restarts_clock: taken > 0 || data.len() == 0 && !eom })
            },
        }
    }

    /// A piece of data has been sent: it is in flight now.
    pub fn data_sent(&mut self, conn_id: u16, piece: &[u8])
        requires
            old(self).wf(),
        ensures
            final(self).wf(),
            final(self)@ == if old(self)@.connections.contains_key(conn_id as u64) {
                AdspModel {
                    connections: old(self)@.connections.insert(
                        conn_id as u64,
                        old(self)@.connections[conn_id as u64].sent(piece@),
                    ),
                    ..old(self)@
                }
            } else {
                old(self)@
            },
    {
        let ghost before = *self;
        if let Some(i) = self.connections.find(conn_id as u64) {
            proof {
                before.lemma_known(i as int);
            }
            let send_seq: u32 = seq_advance(self.connections.entries[i].1.send_seq, piece.len());
            put_bytes(&mut self.connections.entries[i].1.flight_buffer, piece);
            self.connections.entries[i].1.send_seq = send_seq;
            proof {
                let was = before.connections.entries@[i as int].1@;
                let is = self.connections.entries@[i as int].1@;
                assert(is =~= was.sent(piece@));
                law_sending_stays_in_step(was, piece@);
                self.lemma_replaced(before, i as int);
            }
        }
    }

    /// All packets have been sent that a part of a message has been cut into.
    /// `restarts_clock` tells whether the wait for their acknowledgement starts
    /// now: a packet that only ends a message is not waited for.
    pub fn send_finished(&mut self, conn_id: u16, restarts_clock: bool, now: u64)
        requires
            old(self).wf(),
        ensures
            final(self).wf(),
            final(self)@ == if restarts_clock && old(self)@.connections.contains_key(conn_id as u64) {
                AdspModel {
                    connections: old(self)@.connections.insert(
                        conn_id as u64,
                        ConnView { last_tx: now, ..old(self)@.connections[conn_id as u64] },
                    ),
                    ..old(self)@
                }
            } else {
                old(self)@
            },
    {
        if !restarts_clock {
            return;
        }
        let ghost before = *self;
        if let Some(i) = self.connections.find(conn_id as u64) {
            proof {
                before.lemma_known(i as int);
            }
            self.connections.entries[i].1.last_tx = now;
            proof {
                let was = before.connections.entries@[i as int].1@;
                let is = self.connections.entries@[i as int].1@;
                assert(is =~= ConnView { last_tx: now, ..was });
                assert(was.in_step());
                self.lemma_replaced(before, i as int);
            }
        }
    }

    /// An attention message; its number is used up.
    pub fn send_attention_msg(&mut self, conn_id: u16, code: u16, data: &[u8]) -> (r: Result<AdspFrame, AdspError>)
        requires
            old(self).wf(),
            data@.len() + 2 <= usize::MAX,
        ensures
            final(self).wf(),
            if old(self)@.connections.contains_key(conn_id as u64) {
                let c = old(self)@.connections[conn_id as u64];
                &&& r matches Ok(f) && f@ == c.attention_frame(code, data@)
                &&& final(self)@ == (AdspModel {
                    connections: old(self)@.connections.insert(
                        conn_id as u64,
                        ConnView { attn_send_seq: seq_add(c.attn_send_seq, 1), ..c },
                    ),
                    ..old(self)@
                })
            } else {
                r == Err::<AdspFrame, AdspError>(AdspError::NoSuchConnection) && final(self)@ == old(self)@
            },
    {
        let ghost before = *self;
        match self.connections.find(conn_id as u64) {
            None => Err(AdspError::NoSuchConnection),
            Some(i) => {
                proof {
                    before.lemma_known(i as int);
                }
                let seq: u32 = self.connections.entries[i].1.attn_send_seq;
                self.connections.entries[i].1.attn_send_seq = seq_advance(seq, 1);
                proof {
                    let was = before.connections.entries@[i as int].1@;
                    let is = self.connections.entries@[i as int].1@;
                    assert(is =~= ConnView { attn_send_seq: seq_add(was.attn_send_seq, 1), ..was });
                    assert(was.in_step());
                    self.lemma_replaced(before, i as int);
                }
                let conn = &self.connections.entries[i].1;
                let mut bytes: Vec<u8> = vec![0, 0];
                write_be16(&mut bytes, 0, code);
                put_bytes(&mut bytes, data);
                assert(bytes@ =~= be16(code) + data@);
                Ok(
                    AdspFrame {
                        destination: conn.remote_addr,
                        packet: AdspPacket {
                            descriptor: AdspDescriptor::DataPacket,
                            connection_id: conn.our_conn_id,
                            first_byte_seq: seq,
                            next_recv_seq: conn.recv_seq,
                            recv_window: 0,
                            flags: AdspFlags { ack: true, eom: false, attention: true },
                        },
                        data: bytes,
                    },
                )
            },
        }
    }

    /// The packet that tells the peer that we close a connection; `None` where
    /// there is no such connection.
    pub fn close_connection(&self, conn_id: u16) -> (r: Option<AdspFrame>)
        requires
            self.wf(),
        ensures
            match r {
                Some(f) => self@.connections.contains_key(conn_id as u64) && f@
                    == self@.connections[conn_id as u64].bare_frame(AdspDescriptor::CloseAdvice, 0),
                None => !self@.connections.contains_key(conn_id as u64),
            },
    {
        match self.connections.find(conn_id as u64) {
            None => None,
            Some(i) => Some(self.connections.entries[i].1.bare(AdspDescriptor::CloseAdvice, 0)),
        }
    }

    /// Forgets a connection, once the peer has been told.
    pub fn connection_closed(&mut self, conn_id: u16) -> (known: bool)
        requires
            old(self).wf(),
        ensures
            final(self).wf(),
            known == old(self)@.connections.contains_key(conn_id as u64),
            final(self)@ == (AdspModel { connections: old(self)@.connections.remove(conn_id as u64), ..old(self)@ }),
    {
        let ghost before = *self;
        let gone = self.connections.remove(conn_id as u64);
        proof {
            self.lemma_removed(before, conn_id as u64);
        }
        gone.is_some()
    }

    /// Whether the retransmission counters that the timer counts up still have
    /// room.
    pub open spec fn can_tick(self, now: u64) -> bool {
        forall|i: int|
            0 <= i < self.connections.entries@.len() && (#[trigger] self.connections.entries@[i]).1@.is_due(now)
                ==> self.connections.entries@[i].1.retries < 255
    }

    /// Whether the retransmission counters that the timer counts up still have
    /// room.
    pub fn may_tick(&self, now: u64) -> (r: bool)
        ensures
            r == self.can_tick(now),
    {
        let mut i: usize = 0;
        while i < self.connections.entries.len()
            invariant
                i <= self.connections.entries@.len(),
                forall|j: int|
                    0 <= j < i && (#[trigger] self.connections.entries@[j]).1@.is_due(now)
                        ==> self.connections.entries@[j].1.retries < 255,
            decreases self.connections.entries@.len() - i,
        {
            let conn = &self.connections.entries[i].1;
            if conn.due(now) && conn.retries == 255 {
                assert(self.connections.entries@[i as int].1@.is_due(now));
                return false;
            }
            i += 1;
        }
        true
    }

    /// The retransmission timer: sends everything again that has been in
    /// flight for too long, and gives up a connection after too many attempts.
    pub fn tick(&mut self, now: u64) -> (frames: Vec<AdspFrame>)
        requires
            old(self).wf(),
            old(self).can_tick(now),
        ensures
            final(self).wf(),
            final(self)@ == (AdspModel { connections: all_ticked(old(self)@.connections, now), ..old(self)@ }),
            frames_of(frames@) == all_tick_frames(
                old(self).connections.entries@,
                now,
                old(self).connections.entries@.len(),
            ),
    {
        let mut frames: Vec<AdspFrame> = Vec::new();
        assert(frames_of(frames@) =~= Seq::<FrameView>::empty());
        let ghost start = *self;
        let mut i: usize = 0;
        while i < self.connections.entries.len()
            invariant
                i <= self.connections.entries@.len(),
                start == *old(self),
                start.wf(),
                start.can_tick(now),
                self.wf(),
                self.pending_opens == start.pending_opens,
                self.connections.entries@.len() == start.connections.entries@.len(),
                forall|j: int|
                    0 <= j < self.connections.entries@.len() ==> (#[trigger] self.connections.entries@[j]).0
                        == start.connections.entries@[j].0,
                forall|j: int|
                    0 <= j < i ==> (#[trigger] self.connections.entries@[j]).1@ == start.connections.entries@[j].1@.ticked(
                        now,
                    ),
                forall|j: int|
                    i <= j < self.connections.entries@.len() ==> #[trigger] self.connections.entries@[j]
                        == start.connections.entries@[j],
                frames_of(frames@) == all_tick_frames(start.connections.entries@, now, i as nat),
            decreases self.connections.entries@.len() - i,
        {
            let ghost before = *self;
            let ghost was = self.connections.entries@[i as int].1@;
            assert(self.connections.entries@[i as int] == start.connections.entries@[i as int]);
            assert(was.in_step());
            let due = self.connections.entries[i].1.due(now);
            let ghost earlier = frames_of(frames@);
            if due {
                let retries: u8 = self.connections.entries[i].1.retries + 1;
                self.connections.entries[i].1.retries = retries;
                if retries > ADSP_MAX_RETRIES {
                    self.connections.entries[i].1.open = false;
                } else {
                    {
                        let conn = &self.connections.entries[i].1;
                        let data = copy_bytes(&conn.flight_buffer);
                        conn.push_data_frames(&mut frames, conn.oldest_unacked_seq, &data, false);
                        proof {
                            lemma_data_frames_same(conn@, was, was.oldest_unacked_seq, was.flight, 0, false);
                        }
                    }
                    self.connections.entries[i].1.last_tx = now;
                }
            }
            proof {
                let is = self.connections.entries@[i as int].1@;
                assert(is =~= was.ticked(now));
                self.lemma_replaced(before, i as int);
                assert(frames_of(frames@) =~= earlier + was.tick_frames(now));
            }
            i += 1;
        }
        proof {
            let want = all_ticked(start@.connections, now);
            assert forall|k: u64| self@.connections.contains_key(k) <==> want.contains_key(k) by {
                if self@.connections.contains_key(k) {
                    let j = choose|j: int| self.connections.key_is(j, k);
                    assert(self.connections.entries@[j].0 == start.connections.entries@[j].0);
                    start.lemma_known(j);
                }
                if want.contains_key(k) {
                    let j = choose|j: int| start.connections.key_is(j, k);
                    assert(self.connections.entries@[j].0 == start.connections.entries@[j].0);
                    self.lemma_known(j);
                }
            }
            assert forall|k: u64| self@.connections.contains_key(k) implies self@.connections[k] == want[k] by {
                let j = choose|j: int| self.connections.key_is(j, k);
                assert(self.connections.entries@[j].0 == start.connections.entries@[j].0);
                self.lemma_known(j);
                start.lemma_known(j);
            }
            assert(self@.connections =~= want);
            assert(self@.opens =~= start@.opens);
            assert(self@ =~= (AdspModel { connections: want, ..start@ }));
        }
        frames
    }
}

impl Adsp {
    fn handle_attention(&self, packet: AdspPacket, data: &[u8]) -> (f: Option<AdspFrame>)
        requires
            self.wf(),
        ensures
            match f {
                Some(f) => data@.len() >= 2 && self@.connections.contains_key(packet.connection_id as u64) && f@
                    == self@.connections[packet.connection_id as u64].attention_ack(from_be16(data@[0], data@[1])),
                None => data@.len() < 2 || !self@.connections.contains_key(packet.connection_id as u64),
            },
    {
        if data.len() < 2 {
            return None;
        }
        let code: u16 = read_be16(data);
        match self.connections.find(packet.connection_id as u64) {
            None => None,
            Some(i) => {
                let conn = &self.connections.entries[i].1;
                let mut bytes: Vec<u8> = vec![0, 0];
                write_be16(&mut bytes, 0, code);
                assert(bytes@ =~= be16(code));
                Some(
                    AdspFrame {
                        destination: conn.remote_addr,
                        packet: AdspPacket {
                            descriptor: AdspDescriptor::ControlPacket,
                            connection_id: conn.our_conn_id,
                            first_byte_seq: conn.send_seq,
                            next_recv_seq: conn.recv_seq,
                            recv_window: 0,
                            flags: AdspFlags { ack: false, eom: false, attention: true },
                        },
                        data: bytes,
                    },
                )
            },
        }
    }

    fn handle_open_ack(&mut self, from: AdspAddress, packet: AdspPacket, payload: &[u8], now: u64) -> (r: AdspReaction)
        requires
            old(self).wf(),
            !packet.flags.attention,
            packet.descriptor is OpenConnAck || packet.descriptor is OpenConnReqAck,
        ensures
            final(self).wf(),
            final(self)@ == old(self)@.after_packet(from, packet, payload@, 0, now),
            r@ == old(self)@.reaction(from, packet, payload@, 0),
    {
        let ghost before = *self;
        let their_id: u16 = packet.connection_id;
        let our_id: u16 = if payload.len() >= 17 {
            read_be16(slice_bytes(payload, 15, 17).as_slice())
        } else {
            their_id
        };
        match self.pending_opens.remove(our_id as u64) {
            None => {
                assert(self@ =~= before@);
                AdspReaction { frame: None, event: AdspEvent::Nothing }
            },
            Some(_) => {
                proof {
                    self.lemma_same_connections(before);
                    assert(self@.opens =~= before@.opens.remove(our_id as u64));
                }
                self.open_connection(their_id, our_id, from, packet.recv_window, now);
                AdspReaction {
                    frame: Some(make_opening(from, AdspDescriptor::OpenConnAck, our_id, their_id)),
                    event: AdspEvent::Connected { our_conn_id: our_id, conn_id: their_id },
                }
            },
        }
    }

    proof fn lemma_same_connections(self, before: Self)
        requires
            before.wf(),
            self.connections == before.connections,
            self.pending_opens.wf(),
        ensures
            self.wf(),
            self@.connections == before@.connections,
    {
        assert(self@.connections =~= before@.connections);
    }

    fn handle_data(&mut self, packet: AdspPacket, data: &[u8]) -> (r: AdspReaction)
        requires
            old(self).wf(),
        ensures
            final(self).wf(),
            if old(self)@.connections.contains_key(packet.connection_id as u64) {
                let c = old(self)@.connections[packet.connection_id as u64].received(
                    packet.first_byte_seq,
                    data@.len() as int,
                );
                &&& final(self)@ == old(self)@.with(packet.connection_id, c)
                &&& r@ == (ReactionView {
                    frame: Some(c.bare_frame(AdspDescriptor::Acknowledgment, ADSP_RECV_WINDOW)),
                    event: if data@.len() > 0 {
                        EventView::Data { conn_id: packet.connection_id, data: data@ }
                    } else {
                        EventView::Nothing
                    },
                })
            } else {
                final(self)@ == old(self)@ && r@ == ignored()
            },
    {
        let ghost before = *self;
        match self.connections.find(packet.connection_id as u64) {
            None => AdspReaction { frame: None, event: AdspEvent::Nothing },
            Some(i) => {
                proof {
                    before.lemma_known(i as int);
                }
                let mut event = AdspEvent::Nothing;
                if data.len() > 0 {
                    self.connections.entries[i].1.recv_seq = seq_advance(packet.first_byte_seq, data.len());
                    event = AdspEvent::Data { conn_id: packet.connection_id, data: copy_bytes(data) };
                }
                proof {
                    let was = before.connections.entries@[i as int].1@;
                    let is = self.connections.entries@[i as int].1@;
                    assert(is =~= was.received(packet.first_byte_seq, data@.len() as int));
                    assert(was.in_step());
                    self.lemma_replaced(before, i as int);
                }
                AdspReaction {
                    frame: Some(self.connections.entries[i].1.bare(AdspDescriptor::Acknowledgment, ADSP_RECV_WINDOW)),
                    event,
                }
            },
        }
    }

    fn handle_ack(&mut self, packet: AdspPacket)
        requires
            old(self).wf(),
        ensures
            final(self).wf(),
            final(self)@ == if old(self)@.connections.contains_key(packet.connection_id as u64) {
                old(self)@.with(
                    packet.connection_id,
                    old(self)@.connections[packet.connection_id as u64].after_ack(
                        packet.next_recv_seq,
                        packet.recv_window,
                    ),
                )
            } else {
                old(self)@
            },
    {
        let ghost before = *self;
        if let Some(i) = self.connections.find(packet.connection_id as u64) {
            proof {
                before.lemma_known(i as int);
            }
            let oldest: u32 = self.connections.entries[i].1.oldest_unacked_seq;
            let acked: u32 = packet.next_recv_seq.wrapping_sub(oldest);
            assert(acked == seq_distance(oldest, packet.next_recv_seq));
            self.connections.entries[i].1.send_window = packet.recv_window;
            let len: usize = self.connections.entries[i].1.flight_buffer.len();
            if acked > 0 && acked as usize <= len {
                let rest = slice_bytes(&self.connections.entries[i].1.flight_buffer, acked as usize, len);
                self.connections.entries[i].1.flight_buffer = rest;
                self.connections.entries[i].1.oldest_unacked_seq = packet.next_recv_seq;
                self.connections.entries[i].1.retries = 0;
            }
            proof {
                let was = before.connections.entries@[i as int].1@;
                let is = self.connections.entries@[i as int].1@;
                assert(is =~= was.after_ack(packet.next_recv_seq, packet.recv_window));
                assert(was.in_step());
                law_ack_stays_in_step(was, packet.next_recv_seq, packet.recv_window);
                self.lemma_replaced(before, i as int);
            }
        }
    }

    /// Takes in a packet, with its header at the front of `payload`. A
    /// connection that the packet opens gets the number `fresh_id`.
    pub fn handle_packet(
        &mut self,
        from: AdspAddress,
        packet: AdspPacket,
        payload: &[u8],
        fresh_id: u16,
        now: u64,
    ) -> (r: AdspReaction)
        requires
            old(self).wf(),
            payload@.len() >= ADSP_HEADER_LEN,
        ensures
            final(self).wf(),
            final(self)@ == old(self)@.after_packet(from, packet, payload@, fresh_id, now),
            r@ == old(self)@.reaction(from, packet, payload@, fresh_id),
    {
        let ghost before = *self;
        let data = slice_bytes(payload, ADSP_HEADER_LEN, payload.len());
        assert(data@ =~= payload@.skip(ADSP_HEADER_LEN as int));
        if packet.flags.attention {
            let frame = self.handle_attention(packet, &data);
            return AdspReaction { frame, event: AdspEvent::Nothing };
        }
        match packet.descriptor {
            AdspDescriptor::OpenConnRequest => {
                self.open_connection(packet.connection_id, fresh_id, from, packet.recv_window, now);
                AdspReaction {
                    frame: Some(
                        make_opening(from, AdspDescriptor::OpenConnReqAck, fresh_id, packet.connection_id),
                    ),
                    event: AdspEvent::Accepted { conn_id: packet.connection_id },
                }
            },
            AdspDescriptor::OpenConnAck | AdspDescriptor::OpenConnReqAck => {
                self.handle_open_ack(from, packet, payload, now)
            },
            AdspDescriptor::DataPacket | AdspDescriptor::ControlPacket => self.handle_data(packet, &data),
            AdspDescriptor::Acknowledgment => {
                self.handle_ack(packet);
                AdspReaction { frame: None, event: AdspEvent::Nothing }
            },
            AdspDescriptor::CloseAdvice => {
                let known = self.connection_closed(packet.connection_id);
                AdspReaction {
                    frame: None,
                    event: if known {
                        AdspEvent::Closed { conn_id: packet.connection_id }
                    } else {
                        AdspEvent::Nothing
                    },
                }
            },
            _ => AdspReaction { frame: None, event: AdspEvent::Nothing },
        }
    }

    /// Takes in a packet. A connection that it opens gets a number that is
    /// picked at random.
    pub fn received_packet(&mut self, from: AdspAddress, packet: AdspPacket, payload: &[u8], now: u64) -> (r: AdspReaction)
        requires
            old(self).wf(),
            payload@.len() >= ADSP_HEADER_LEN,
        ensures
            final(self).wf(),
            exists|id: u16|
                final(self)@ == #[trigger] old(self)@.after_packet(from, packet, payload@, id, now) && r@
                    == old(self)@.reaction(from, packet, payload@, id),
    {
        let fresh_id: u16 = any_u16();
        let ghost before = self@;
        let r = self.handle_packet(from, packet, payload, fresh_id, now);
        assert(self@ == before.after_packet(from, packet, payload@, fresh_id, now));
        r
    }
}

/// The two buffers of a byte stream on a connection: what has arrived and not
/// been read, and what has been written and not been sent.
#[derive(Debug)]
pub struct AdspStream {
    pub conn_id: u16,
    pub remote_addr: AdspAddress,
    pub read_buf: BytesMut,
    pub write_buf: BytesMut,
}

impl AdspStream {
    /// What has arrived and not been read.
    pub open spec fn unread(self) -> Seq<u8> {
        buffered(self.read_buf)
    }

    /// What has been written and not been sent.
    pub open spec fn unsent(self) -> Seq<u8> {
        buffered(self.write_buf)
    }

    /// A stream with nothing in its buffers.
    pub fn new(conn_id: u16, remote_addr: AdspAddress) -> (s: Self)
        ensures
            s.conn_id == conn_id,
            s.remote_addr == remote_addr,
            s.unread() == Seq::<u8>::empty(),
            s.unsent() == Seq::<u8>::empty(),
    {
        AdspStream { conn_id, remote_addr, read_buf: buf_new(), write_buf: buf_new() }
    }

    /// The socket at the other end.
    pub fn remote_addr(&self) -> (r: AdspAddress)
        ensures
            r == self.remote_addr,
    {
        self.remote_addr
    }

    /// How many bytes have arrived and not been read.
    pub fn unread_len(&self) -> (n: usize)
        ensures
            n == self.unread().len(),
    {
        buf_len(&self.read_buf)
    }

    /// How many bytes have been written and not been sent.
    pub fn unsent_len(&self) -> (n: usize)
        ensures
            n == self.unsent().len(),
    {
        buf_len(&self.write_buf)
    }

    /// Reads at most `room` bytes from what has arrived before; `None` where
    /// nothing is left of it.
    pub fn read_buffered(&mut self, room: usize) -> (r: Option<Vec<u8>>)
        ensures
            final(self).unsent() == old(self).unsent(),
            final(self).conn_id == old(self).conn_id,
            final(self).remote_addr == old(self).remote_addr,
            match r {
                Some(bytes) => old(self).unread().len() > 0 && bytes@.len() == least(
                    old(self).unread().len(),
                    room as nat,
                ) && bytes@ + final(self).unread() == old(self).unread(),
                None => old(self).unread().len() == 0 && final(self).unread() == old(self).unread(),
            },
    {
        let len: usize = buf_len(&self.read_buf);
        if len == 0 {
            return None;
        }
        let n: usize = if len <= room { len } else { room };
        let bytes = buf_front(&self.read_buf, n);
        buf_advance(&mut self.read_buf, n);
        assert(bytes@ + self.unread() =~= old(self).unread());
        Some(bytes)
    }

    /// Reads at most `room` bytes from data that arrives on an empty buffer;
    /// the rest is kept for later.
    pub fn read_arrived(&mut self, data: &[u8], room: usize) -> (r: Vec<u8>)
        requires
            old(self).unread().len() + data@.len() <= isize::MAX,
        ensures
            final(self).unsent() == old(self).unsent(),
            final(self).conn_id == old(self).conn_id,
            final(self).remote_addr == old(self).remote_addr,
            r@ == data@.take(least(data@.len(), room as nat) as int),
            final(self).unread() == old(self).unread() + data@.skip(least(data@.len(), room as nat) as int),
    {
        let n: usize = if data.len() <= room { data.len() } else { room };
        let front = slice_bytes(data, 0, n);
        assert(front@ =~= data@.take(n as int));
        if n < data.len() {
            let rest = slice_bytes(data, n, data.len());
            assert(rest@ =~= data@.skip(n as int));
            buf_extend(&mut self.read_buf, &rest);
        } else {
            assert(self.unread() + data@.skip(n as int) =~= self.unread());
        }
        front
    }

    /// Writes bytes into the buffer; all of them are taken.
    pub fn write(&mut self, bytes: &[u8]) -> (n: usize)
        requires
            old(self).unsent().len() + bytes@.len() <= isize::MAX,
        ensures
            n == bytes@.len(),
            final(self).unsent() == old(self).unsent() + bytes@,
            final(self).unread() == old(self).unread(),
            final(self).conn_id == old(self).conn_id,
            final(self).remote_addr == old(self).remote_addr,
    {
        buf_extend(&mut self.write_buf, bytes);
        bytes.len()
    }

    /// What a flush has to send, which leaves the buffer; `None` where nothing
    /// has been written.
    pub fn flush(&mut self) -> (r: Option<Vec<u8>>)
        ensures
            final(self).unread() == old(self).unread(),
            final(self).conn_id == old(self).conn_id,
            final(self).remote_addr == old(self).remote_addr,
            final(self).unsent() == Seq::<u8>::empty(),
            match r {
                Some(bytes) => bytes@ == old(self).unsent() && bytes@.len() > 0,
                None => old(self).unsent().len() == 0,
            },
    {
        if buf_len(&self.write_buf) == 0 {
            assert(self.unsent() =~= Seq::<u8>::empty());
            return None;
        }
        Some(buf_split(&mut self.write_buf))
    }

    /// What has been written since the last flush, which leaves the buffer: it
    /// is sent as the end of a message, also where it is empty.
    pub fn write_eom(&mut self) -> (r: Vec<u8>)
        ensures
            final(self).unread() == old(self).unread(),
            final(self).conn_id == old(self).conn_id,
            final(self).remote_addr == old(self).remote_addr,
            final(self).unsent() == Seq::<u8>::empty(),
            r@ == old(self).unsent(),
    {
        buf_split(&mut self.write_buf)
    }
}

proof fn lemma_data_frames_same(a: ConnView, b: ConnView, base: u32, data: Seq<u8>, at: int, eom: bool)
    requires
        a.remote_addr == b.remote_addr,
        a.our_conn_id == b.our_conn_id,
        a.recv_seq == b.recv_seq,
    ensures
        a.data_frames(base, data, at, eom) == b.data_frames(base, data, at, eom),
    decreases data.len() - at,
{
    if 0 <= at < data.len() {
        let end = if data.len() - at > ADSP_MAX_DATA {
            at + ADSP_MAX_DATA
        } else {
            data.len() as int
        };
        lemma_data_frames_same(a, b, base, data, end, eom);
    }
}

/// Sending keeps what is in flight in step with the sequence numbers.
pub proof fn law_sending_stays_in_step(c: ConnView, piece: Seq<u8>)
    requires
        c.in_step(),
    ensures
        c.sent(piece).in_step(),
{
    let a = c.oldest_unacked_seq as int;
    let n = c.flight.len() as int;
    let m = piece.len() as int;
    assert(((a + n) % 0x1_0000_0000 + m) % 0x1_0000_0000 == (a + (n + m)) % 0x1_0000_0000);
}

/// An acknowledgement keeps what is in flight in step with the sequence
/// numbers, and takes out of flight only bytes at its front.
pub proof fn law_ack_stays_in_step(c: ConnView, next: u32, window: u16)
    requires
        c.in_step(),
    ensures
        c.after_ack(next, window).in_step(),
        c.flight.take(c.acked(next)) + c.after_ack(next, window).flight == c.flight,
{
    let n = c.acked(next);
    let a = c.oldest_unacked_seq as int;
    let len = c.flight.len() as int;
    assert(c.flight.take(n) + c.flight.skip(n) =~= c.flight);
    if n > 0 {
        assert(n == (next - a) % 0x1_0000_0000);
        assert((next + (len - n)) % 0x1_0000_0000 == (a + len) % 0x1_0000_0000);
    } else {
        assert(c.flight.take(0) + c.flight =~= c.flight);
    }
}

/// The bytes that a list of packets carries.
pub open spec fn carried(frames: Seq<FrameView>) -> Seq<u8>
    decreases frames.len(),
{
    if frames.len() == 0 {
        Seq::empty()
    } else {
        frames[0].data + carried(frames.skip(1))
    }
}

/// The packets of a message carry it whole and in order, each with no more than
/// the largest amount of data and numbered by where its data stands, and only
/// the last one ends the message.
pub proof fn law_packets_carry_the_message(c: ConnView, base: u32, data: Seq<u8>, at: int, eom: bool)
    requires
        0 <= at <= data.len(),
    ensures
        carried(c.data_frames(base, data, at, eom)) == data.skip(at),
        forall|i: int|
            #![trigger c.data_frames(base, data, at, eom)[i]]
            0 <= i < c.data_frames(base, data, at, eom).len() ==> {
                let f = c.data_frames(base, data, at, eom)[i];
                &&& 0 < f.data.len() <= ADSP_MAX_DATA
                &&& f.packet.first_byte_seq == seq_add(base, at + i * ADSP_MAX_DATA)
                &&& f.packet.flags.eom == (eom && i == c.data_frames(base, data, at, eom).len() - 1)
            },
    decreases data.len() - at,
{
    let frames = c.data_frames(base, data, at, eom);
    if at == data.len() {
        assert(data.skip(at) =~= Seq::<u8>::empty());
    } else {
        let end = if data.len() - at > ADSP_MAX_DATA {
            at + ADSP_MAX_DATA
        } else {
            data.len() as int
        };
        let rest = c.data_frames(base, data, end, eom);
        law_packets_carry_the_message(c, base, data, end, eom);
        assert(frames.skip(1) =~= rest);
        assert(data.subrange(at, end) + data.skip(end) =~= data.skip(at));
        if end < data.len() {
            assert(rest.len() > 0);
        }
        assert forall|i: int|
            #![trigger frames[i]]
            0 <= i < frames.len() implies {
            let f = frames[i];
            &&& 0 < f.data.len() <= ADSP_MAX_DATA
            &&& f.packet.first_byte_seq == seq_add(base, at + i * ADSP_MAX_DATA)
            &&& f.packet.flags.eom == (eom && i == frames.len() - 1)
        } by {
            if i > 0 {
                assert(frames[i] == rest[i - 1]);
                assert(end == at + ADSP_MAX_DATA);
                assert(end + (i - 1) * ADSP_MAX_DATA == at + i * ADSP_MAX_DATA);
            }
        }
    }
}

/// An acknowledgement of everything that has been sent leaves nothing in
/// flight, as long as less is in flight than there are sequence numbers.
pub proof fn law_full_ack_empties_the_flight(c: ConnView, window: u16)
    requires
        c.in_step(),
        c.flight.len() < 0x1_0000_0000,
    ensures
        c.after_ack(c.send_seq, window).flight == Seq::<u8>::empty(),
        !c.after_ack(c.send_seq, window).is_due(u64::MAX),
{
    let a = c.oldest_unacked_seq as int;
    let n = c.flight.len() as int;
    assert(c.send_seq == (a + n) % 0x1_0000_0000);
    assert((c.send_seq - a) % 0x1_0000_0000 == n % 0x1_0000_0000);
    assert(c.acked(c.send_seq) == n);
    assert(c.flight.skip(n) =~= Seq::<u8>::empty());
}

/// Two ends that open a connection agree: what the side that asked sends under
/// its number is what the other side knows the connection by, and the reverse.
pub proof fn law_handshake_agrees(
    asking: AdspModel,
    answering: AdspModel,
    at: AdspAddress,
    to: AdspAddress,
    our_id: u16,
    their_id: u16,
    header: Seq<u8>,
    now: u64,
)
    requires
        asking.opens.contains(our_id as u64),
        header.len() == ADSP_HEADER_LEN,
    ensures
        ({
            let request = opening_frame(to, AdspDescriptor::OpenConnRequest, our_id, 0);
            let opened = answering.after_packet(at, request.packet, header + request.data, their_id, now);
            let reply = answering.reaction(at, request.packet, header + request.data, their_id).frame->0;
            let connected = asking.after_packet(to, reply.packet, header + reply.data, 0, now);
            &&& reply.destination == at
            &&& opened.connections.contains_key(our_id as u64)
            &&& opened.connections[our_id as u64].our_conn_id == their_id
            &&& opened.connections[our_id as u64].remote_addr == at
            &&& connected.connections.contains_key(their_id as u64)
            &&& connected.connections[their_id as u64].our_conn_id == our_id
            &&& connected.connections[their_id as u64].remote_addr == to
            &&& !connected.opens.contains(our_id as u64)
        }),
{
    let request = opening_frame(to, AdspDescriptor::OpenConnRequest, our_id, 0);
    let reply = answering.reaction(at, request.packet, header + request.data, their_id).frame->0;
    let payload = header + reply.data;
    assert(payload.len() == 21);
    assert(payload[15] == be16(our_id)[0]);
    assert(payload[16] == be16(our_id)[1]);
    lemma_be16_round_trip(our_id);
}

/// What a socket knows after packets have come in one after the other, each
/// behind the same header.
pub open spec fn after_packets(m: AdspModel, from: AdspAddress, header: Seq<u8>, frames: Seq<FrameView>, now: u64) -> AdspModel
    decreases frames.len(),
{
    if frames.len() == 0 {
        m
    } else {
        after_packets(
            m.after_packet(from, frames[0].packet, header + frames[0].data, 0, now),
            from,
            header,
            frames.skip(1),
            now,
        )
    }
}

/// What the reader of a connection gets from packets that come in one after
/// the other.
pub open spec fn read_from(m: AdspModel, from: AdspAddress, header: Seq<u8>, frames: Seq<FrameView>, conn_id: u16, now: u64) -> Seq<u8>
    decreases frames.len(),
{
    if frames.len() == 0 {
        Seq::empty()
    } else {
        let payload = header + frames[0].data;
        let got = match m.reaction(from, frames[0].packet, payload, 0).event {
            EventView::Data { conn_id: id, data } => if id == conn_id {
                data
            } else {
                Seq::empty()
            },
            _ => Seq::empty(),
        };
        got + read_from(
            m.after_packet(from, frames[0].packet, payload, 0, now),
            from,
            header,
            frames.skip(1),
            conn_id,
            now,
        )
    }
}

/// What one end writes is what the other end reads: the packets that carry
/// data, taken in in their order, hand out the data, and the number that is
/// expected next is the one behind it.
pub proof fn law_what_is_sent_is_read(
    sender: ConnView,
    receiver: AdspModel,
    from: AdspAddress,
    header: Seq<u8>,
    base: u32,
    data: Seq<u8>,
    at: int,
    eom: bool,
    now: u64,
)
    requires
        header.len() == ADSP_HEADER_LEN,
        receiver.connections.contains_key(sender.our_conn_id as u64),
        0 <= at <= data.len(),
    ensures
        ({
            let frames = sender.data_frames(base, data, at, eom);
            let after = after_packets(receiver, from, header, frames, now);
            let id = sender.our_conn_id as u64;
            &&& read_from(receiver, from, header, frames, sender.our_conn_id, now) == data.skip(at)
            &&& after.connections.contains_key(id)
            &&& after.connections[id] == (if at < data.len() {
                ConnView { recv_seq: seq_add(base, data.len() as int), ..receiver.connections[id] }
            } else {
                receiver.connections[id]
            })
        }),
    decreases data.len() - at,
{
    let frames = sender.data_frames(base, data, at, eom);
    if at < data.len() {
        let end = if data.len() - at > ADSP_MAX_DATA {
            at + ADSP_MAX_DATA
        } else {
            data.len() as int
        };
        let first = frames[0];
        let payload = header + first.data;
        let next = receiver.after_packet(from, first.packet, payload, 0, now);
        assert(first.data == data.subrange(at, end));
        assert(payload.skip(ADSP_HEADER_LEN as int) =~= first.data);
        assert(frames.skip(1) =~= sender.data_frames(base, data, end, eom));
        assert(data.subrange(at, end) + data.skip(end) =~= data.skip(at));
        let n = end - at;
        assert(((base + at) % 0x1_0000_0000 + n) % 0x1_0000_0000 == (base + end) % 0x1_0000_0000);
        law_what_is_sent_is_read(sender, next, from, header, base, data, end, eom, now);
    } else {
        assert(data.skip(at) =~= Seq::<u8>::empty());
    }
}

/// A message that has arrived is out of flight: the acknowledgement that its
/// last packet brings back covers all of it.
pub proof fn law_arrived_message_is_acknowledged(c: ConnView, data: Seq<u8>, window: u16)
    requires
        c.in_step(),
        c.flight.len() + data.len() < 0x1_0000_0000,
    ensures
        c.sent(data).send_seq == seq_add(c.send_seq, data.len() as int),
        c.sent(data).after_ack(seq_add(c.send_seq, data.len() as int), window).flight == Seq::<u8>::empty(),
{
    law_sending_stays_in_step(c, data);
    law_full_ack_empties_the_flight(c.sent(data), window);
}

/// The window of the peer is kept: whatever is sent of a message, no more is in
/// flight afterwards than the last window told, unless more was in flight
/// already, in which case nothing is sent. The packets carry just that part, and
/// where there is room for a byte, a byte is sent.
pub proof fn law_window_is_kept(c: ConnView, data: Seq<u8>, eom: bool)
    ensures
        ({
            let n = c.fitting(data.len());
            let after = c.sent(data.take(n as int));
            &&& n <= data.len()
            &&& carried(c.paced_frames(data, eom)) == data.take(n as int)
            &&& c.flight.len() <= c.send_window ==> after.flight.len() <= c.send_window
            &&& c.flight.len() >= c.send_window ==> n == 0 && after.flight == c.flight
            &&& c.room() > 0 && data.len() > 0 ==> n > 0
        }),
{
    let n = c.fitting(data.len());
    let part = data.take(n as int);
    let ends = eom && n == data.len();
    if part.len() == 0 && ends {
        let frames = c.paced_frames(data, eom);
        reveal_with_fuel(carried, 2);
        assert(frames.skip(1).len() == 0);
        assert(carried(frames) =~= part);
    } else {
        law_packets_carry_the_message(c, c.send_seq, part, 0, ends);
        assert(part.skip(0) =~= part);
    }
    if n == 0 {
        assert(c.flight + part =~= c.flight);
    }
}

/// Sending piece by piece is sending the pieces at once, so that what has been
/// put in flight by the packets of a part of a message is that part.
pub proof fn law_pieces_add_up(c: ConnView, first: Seq<u8>, second: Seq<u8>)
    ensures
        c.sent(first).sent(second) == c.sent(first + second),
{
    assert((c.flight + first) + second =~= c.flight + (first + second));
    let a = c.send_seq as int;
    let n = first.len() as int;
    let m = second.len() as int;
    assert(((a + n) % 0x1_0000_0000 + m) % 0x1_0000_0000 == (a + (n + m)) % 0x1_0000_0000);
    assert(c.sent(first).sent(second) =~= c.sent(first + second));
}

// ── What the packets say ─────────────────────────────────────────────────────

proof fn lemma_frames_by_place(c: ConnView, base: u32, data: Seq<u8>, at: int, eom: bool, i: int)
    requires
        0 <= at <= data.len(),
        0 <= i < c.data_frames(base, data, at, eom).len(),
    ensures
        ({
            let frames = c.data_frames(base, data, at, eom);
            let f = frames[i];
            let d = at + 572 * i;
            let end = if i == frames.len() - 1 {
                data.len() as int
            } else {
                d + 572
            };
            &&& d < end <= d + 572
            &&& end <= data.len()
            &&& f.data == data.subrange(d, end)
            &&& f.packet.first_byte_seq == (base + d) % 0x1_0000_0000
            &&& f.destination == c.remote_addr
            &&& f.packet.descriptor == AdspDescriptor::DataPacket
            &&& f.packet.connection_id == c.our_conn_id
            &&& f.packet.next_recv_seq == c.recv_seq
            &&& f.packet.recv_window == 4096
            &&& f.packet.flags.ack
            &&& !f.packet.flags.attention
            &&& f.packet.flags.eom == (eom && i == frames.len() - 1)
        }),
    decreases data.len() - at,
{
    let frames = c.data_frames(base, data, at, eom);
    let end = if data.len() - at > 572 {
        at + 572
    } else {
        data.len() as int
    };
    let rest = c.data_frames(base, data, end, eom);
    assert(frames.len() == 1 + rest.len());
    if i == 0 {
        assert(rest.len() == 0 <==> end == data.len());
    } else {
        assert(frames[i] == rest[i - 1]);
        lemma_frames_by_place(c, base, data, end, eom, i - 1);
        assert(rest.len() > 0 ==> end < data.len());
        assert(end + 572 * (i - 1) == at + 572 * i);
    }
}

/// What the timer sends again carries the numbers under which it was first sent.
/// Each packet holds just the bytes in flight that lie as far from the oldest one
/// as its number from the oldest number that is not acknowledged; the first packet
/// starts there, each one starts where the one before it ends, and the last ends
/// at the number under which the next byte will be sent. All go to the peer, under
/// our number for the connection.
pub proof fn law_resent_bytes_keep_their_numbers(c: ConnView, now: u64, i: int)
    requires
        c.in_step(),
        c.flight.len() < 0x1_0000_0000,
        0 <= i < c.tick_frames(now).len(),
    ensures
        ({
            let frames = c.tick_frames(now);
            let f = frames[i];
            let d = (f.packet.first_byte_seq - c.oldest_unacked_seq) % 0x1_0000_0000;
            let after = (f.packet.first_byte_seq + f.data.len()) % 0x1_0000_0000;
            &&& 0 < f.data.len() <= 572
            &&& d + f.data.len() <= c.flight.len()
            &&& f.data == c.flight.subrange(d, d + f.data.len())
            &&& i == 0 ==> f.packet.first_byte_seq == c.oldest_unacked_seq
            &&& i + 1 < frames.len() ==> frames[i + 1].packet.first_byte_seq == after
            &&& i + 1 == frames.len() ==> c.send_seq == after
            &&& f.destination == c.remote_addr
            &&& f.packet.connection_id == c.our_conn_id
            &&& f.packet.next_recv_seq == c.recv_seq
            &&& f.packet.recv_window == 4096
            &&& f.packet.descriptor == AdspDescriptor::DataPacket
            &&& !f.packet.flags.eom && f.packet.flags.ack && !f.packet.flags.attention
        }),
{
    let frames = c.tick_frames(now);
    let base = c.oldest_unacked_seq;
    lemma_frames_by_place(c, base, c.flight, 0, false, i);
    let place: int = 572 * i;
    assert((frames[i].packet.first_byte_seq - base) % 0x1_0000_0000 == place);
    if i + 1 < frames.len() {
        lemma_frames_by_place(c, base, c.flight, 0, false, i + 1);
    }
}

/// Packets are sent again exactly where bytes have been in flight for over three
/// seconds, and at most five times.
pub proof fn law_timer_waits_three_seconds(c: ConnView, now: u64)
    ensures
        c.tick_frames(now).len() > 0 <==> c.flight.len() > 0 && now > c.last_tx + 3000 && c.retries < 5,
{
    if c.flight.len() > 0 {
        assert(c.data_frames(c.oldest_unacked_seq, c.flight, 0, false).len() > 0);
    }
}

/// A peer that waits for the oldest number that is not acknowledged reads, out of
/// what the timer sends again, just the bytes in flight, and then waits for the
/// number under which the next byte will be sent; when that is acknowledged,
/// nothing is in flight.
pub proof fn law_resent_bytes_bring_the_peer_up(
    c: ConnView,
    peer: AdspModel,
    from: AdspAddress,
    header: Seq<u8>,
    now: u64,
    window: u16,
)
    requires
        c.in_step(),
        0 < c.flight.len() < 0x1_0000_0000,
        now > c.last_tx + 3000,
        c.retries < 5,
        header.len() == 13,
        peer.connections.contains_key(c.our_conn_id as u64),
        peer.connections[c.our_conn_id as u64].recv_seq == c.oldest_unacked_seq,
    ensures
        ({
            let after = after_packets(peer, from, header, c.tick_frames(now), now);
            let told = after.connections[c.our_conn_id as u64].recv_seq;
            &&& read_from(peer, from, header, c.tick_frames(now), c.our_conn_id, now) == c.flight
            &&& told == c.send_seq
            &&& c.after_ack(told, window).flight.len() == 0
            &&& c.after_ack(told, window).oldest_unacked_seq == c.send_seq
        }),
{
    law_what_is_sent_is_read(c, peer, from, header, c.oldest_unacked_seq, c.flight, 0, false, now);
    assert(c.flight.skip(0) =~= c.flight);
    law_full_ack_empties_the_flight(c, window);
    let a = c.oldest_unacked_seq as int;
    let n = c.flight.len() as int;
    assert((c.send_seq - a) % 0x1_0000_0000 == n % 0x1_0000_0000);
}

/// The packets of a message start at the number under which the next byte is
/// sent, and each one holds the bytes of the message that lie as far from its
/// start as its number from that one; only the last ends the message.
pub proof fn law_message_is_numbered(c: ConnView, data: Seq<u8>, eom: bool, i: int)
    requires
        data.len() < 0x1_0000_0000,
        0 <= i < c.message_frames(data, eom).len(),
    ensures
        ({
            let frames = c.message_frames(data, eom);
            let f = frames[i];
            let d = (f.packet.first_byte_seq - c.send_seq) % 0x1_0000_0000;
            &&& f.data.len() <= 572
            &&& data.len() > 0 ==> f.data.len() > 0
            &&& d + f.data.len() <= data.len()
            &&& f.data == data.subrange(d, d + f.data.len())
            &&& i == 0 ==> d == 0
            &&& i + 1 == frames.len() ==> d + f.data.len() == data.len()
            &&& f.packet.flags.eom == (eom && i + 1 == frames.len())
            &&& f.packet.flags.ack && !f.packet.flags.attention
            &&& f.packet.descriptor == AdspDescriptor::DataPacket
            &&& f.packet.connection_id == c.our_conn_id
            &&& f.packet.next_recv_seq == c.recv_seq
            &&& f.packet.recv_window == 4096
            &&& f.destination == c.remote_addr
        }),
{
    let f = c.message_frames(data, eom)[i];
    if data.len() == 0 && eom {
        assert(f.data =~= data.subrange(0, 0));
    } else {
        lemma_frames_by_place(c, c.send_seq, data, 0, eom, i);
        let place: int = 572 * i;
        assert((f.packet.first_byte_seq - c.send_seq) % 0x1_0000_0000 == place);
    }
}

proof fn lemma_one_place(oldest: int, next: int, first: int, again: int, n: int, x: int, y: int)
    requires
        next == (oldest + n) % 0x1_0000_0000,
        (first + x) % 0x1_0000_0000 == (again + y) % 0x1_0000_0000,
        n >= 0,
        x >= 0,
        y >= 0,
        n + (first - next) % 0x1_0000_0000 + x < 0x1_0000_0000,
        (again - oldest) % 0x1_0000_0000 + y < 0x1_0000_0000,
    ensures
        n + (first - next) % 0x1_0000_0000 + x == (again - oldest) % 0x1_0000_0000 + y,
{
    let d = (first - next) % 0x1_0000_0000;
    let e = (again - oldest) % 0x1_0000_0000;
    let a = (first - next) / 0x1_0000_0000;
    let b = (oldest + n) / 0x1_0000_0000;
    let c = (again - oldest) / 0x1_0000_0000;
    let f = (first + x) / 0x1_0000_0000 - (again + y) / 0x1_0000_0000;
    assert(first - next == 0x1_0000_0000 * a + d);
    assert(oldest + n == 0x1_0000_0000 * b + next);
    assert(again - oldest == 0x1_0000_0000 * c + e);
    assert((first + x) - (again + y) == 0x1_0000_0000 * f);
    assert((n + d + x) - (e + y) == 0x1_0000_0000 * (f + b - a + c));
}

/// A byte has one number: where a packet of a message and one that the timer
/// sends later have a byte of the same number, it is the same byte.
pub proof fn law_a_number_is_one_byte(c: ConnView, data: Seq<u8>, eom: bool, now: u64, i: int, x: int, j: int, y: int)
    requires
        c.in_step(),
        c.flight.len() + data.len() < 0x1_0000_0000,
        0 <= i < c.message_frames(data, eom).len(),
        0 <= x < c.message_frames(data, eom)[i].data.len(),
        0 <= j < c.sent(data).tick_frames(now).len(),
        0 <= y < c.sent(data).tick_frames(now)[j].data.len(),
        (c.message_frames(data, eom)[i].packet.first_byte_seq + x) % 0x1_0000_0000 == (c.sent(data).tick_frames(
            now,
        )[j].packet.first_byte_seq + y) % 0x1_0000_0000,
    ensures
        c.message_frames(data, eom)[i].data[x] == c.sent(data).tick_frames(now)[j].data[y],
{
    let s = c.sent(data);
    law_sending_stays_in_step(c, data);
    law_resent_bytes_keep_their_numbers(s, now, j);
    law_message_is_numbered(c, data, eom, i);
    let f = c.message_frames(data, eom)[i];
    let g = s.tick_frames(now)[j];
    let d = (f.packet.first_byte_seq - c.send_seq) % 0x1_0000_0000;
    let e = (g.packet.first_byte_seq - c.oldest_unacked_seq) % 0x1_0000_0000;
    let n = c.flight.len() as int;
    lemma_one_place(
        c.oldest_unacked_seq as int,
        c.send_seq as int,
        f.packet.first_byte_seq as int,
        g.packet.first_byte_seq as int,
        n,
        x,
        y,
    );
    assert(n + d + x == e + y);
    assert(f.data[x] == data[d + x]);
    assert(g.data[y] == s.flight[e + y]);
}

/// The timer sends, over all connections, what each of them has to send again,
/// and nothing else.
pub proof fn law_timer_serves_every_connection(entries: Seq<(u64, AdspConnection)>, now: u64, n: nat, f: FrameView)
    requires
        n <= entries.len(),
    ensures
        all_tick_frames(entries, now, n).contains(f) <==> exists|i: int|
            0 <= i < n && (#[trigger] entries[i]).1@.tick_frames(now).contains(f),
    decreases n,
{
    let all = all_tick_frames(entries, now, n);
    if n > 0 {
        law_timer_serves_every_connection(entries, now, (n - 1) as nat, f);
        let before = all_tick_frames(entries, now, (n - 1) as nat);
        let last = entries[n - 1].1@.tick_frames(now);
        if before.contains(f) {
            let k = choose|k: int| 0 <= k < before.len() && before[k] == f;
            assert(all[k] == f);
        }
        if last.contains(f) {
            let k = choose|k: int| 0 <= k < last.len() && last[k] == f;
            assert(all[before.len() + k] == f);
        }
        if all.contains(f) {
            let k = choose|k: int| 0 <= k < all.len() && all[k] == f;
            if k < before.len() {
                assert(before[k] == f);
            } else {
                assert(last[k - before.len()] == f);
                assert(entries[n - 1].1@.tick_frames(now).contains(f));
            }
        }
    } else {
        assert(all.len() == 0);
    }
}

/// The timer changes nothing of a connection but its count of repetitions and
/// the time of the last one; after the fifth it takes the connection for closed.
pub proof fn law_timer_gives_up_after_five(c: ConnView, now: u64)
    requires
        c.retries < 255,
    ensures
        ({
            let after = c.ticked(now);
            let due = c.flight.len() > 0 && now > c.last_tx + 3000;
            &&& after.flight == c.flight && after.oldest_unacked_seq == c.oldest_unacked_seq
            &&& after.send_seq == c.send_seq && after.recv_seq == c.recv_seq && after.send_window == c.send_window
            &&& after.our_conn_id == c.our_conn_id && after.remote_addr == c.remote_addr
            &&& after.attn_send_seq == c.attn_send_seq
            &&& after.retries == c.retries + (if due {
                1int
            } else {
                0
            })
            &&& after.open == (c.open && !(due && c.retries >= 5))
            &&& after.last_tx == if due && c.retries < 5 {
                now
            } else {
                c.last_tx
            }
        }),
{
}

/// A new connection is open, has nothing in flight and starts all numbers at
/// zero; the peer's window is what the peer has told.
pub proof fn law_new_connection_starts_at_zero(our_conn_id: u16, remote_addr: AdspAddress, peer_window: u16, now: u64)
    ensures
        ({
            let c = ConnView::fresh(our_conn_id, remote_addr, peer_window, now);
            &&& c.our_conn_id == our_conn_id && c.remote_addr == remote_addr && c.open
            &&& c.send_seq == 0 && c.recv_seq == 0 && c.oldest_unacked_seq == 0 && c.attn_send_seq == 0
            &&& c.flight.len() == 0 && c.send_window == peer_window && c.retries == 0 && c.last_tx == now
            &&& c.in_step()
        }),
{
}

/// A packet that opens a connection asks for four kilobytes at a time, under
/// version 1.0, and names the number that the other side has given.
pub proof fn law_opening_packet_says(to: AdspAddress, descriptor: AdspDescriptor, ours: u16, theirs: u16)
    ensures
        ({
            let f = opening_frame(to, descriptor, ours, theirs);
            &&& f.destination == to
            &&& f.packet.descriptor == descriptor
            &&& f.packet.connection_id == ours
            &&& f.packet.first_byte_seq == 0 && f.packet.next_recv_seq == 0
            &&& f.packet.recv_window == 4096
            &&& !f.packet.flags.ack && !f.packet.flags.eom && !f.packet.flags.attention
            &&& f.data.len() == 8
            &&& number16(f.data, 0) == 0x0100
            &&& number16(f.data, 2) == theirs
            &&& f.data[4] == 0 && f.data[5] == 0 && f.data[6] == 0 && f.data[7] == 0
        }),
{
    law_bytes_count_by_their_place(ADSP_VERSION, 0);
    law_bytes_count_by_their_place(theirs, 0);
}

/// An attention message goes out under its own count of messages, with its code
/// in front of its data, and is answered with the same code.
pub proof fn law_attention_says_its_code(c: ConnView, code: u16, data: Seq<u8>)
    ensures
        ({
            let f = c.attention_frame(code, data);
            &&& f.destination == c.remote_addr
            &&& f.packet.descriptor == AdspDescriptor::DataPacket
            &&& f.packet.connection_id == c.our_conn_id
            &&& f.packet.first_byte_seq == c.attn_send_seq && f.packet.next_recv_seq == c.recv_seq
            &&& f.packet.recv_window == 0
            &&& f.packet.flags.ack && !f.packet.flags.eom && f.packet.flags.attention
            &&& f.data.len() == 2 + data.len()
            &&& number16(f.data, 0) == code
            &&& f.data.skip(2) == data
        }),
        ({
            let f = c.attention_ack(code);
            &&& f.destination == c.remote_addr
            &&& f.packet.descriptor == AdspDescriptor::ControlPacket
            &&& f.packet.connection_id == c.our_conn_id
            &&& f.packet.first_byte_seq == c.send_seq && f.packet.next_recv_seq == c.recv_seq
            &&& f.packet.recv_window == 0
            &&& !f.packet.flags.ack && !f.packet.flags.eom && f.packet.flags.attention
            &&& f.data.len() == 2
            &&& number16(f.data, 0) == code
        }),
{
    law_bytes_count_by_their_place(code, 0);
    assert(c.attention_frame(code, data).data.skip(2) =~= data);
}

/// A packet without data tells where this side stands: what it sends next and
/// what it waits for.
pub proof fn law_bare_packet_tells_where_we_stand(c: ConnView, descriptor: AdspDescriptor, recv_window: u16)
    ensures
        ({
            let f = c.bare_frame(descriptor, recv_window);
            &&& f.destination == c.remote_addr
            &&& f.packet.descriptor == descriptor
            &&& f.packet.connection_id == c.our_conn_id
            &&& f.packet.first_byte_seq == c.send_seq && f.packet.next_recv_seq == c.recv_seq
            &&& f.packet.recv_window == recv_window
            &&& !f.packet.flags.ack && !f.packet.flags.eom && !f.packet.flags.attention
            &&& f.data.len() == 0
        }),
{
}

/// Data on a known connection is handed on as it came and acknowledged at once:
/// the answer goes to the peer, names our number for the connection and waits for
/// the number behind the last byte. Nothing else of the connection changes, and no
/// other connection does.
pub proof fn law_data_is_acknowledged(
    m: AdspModel,
    from: AdspAddress,
    packet: AdspPacket,
    payload: Seq<u8>,
    fresh_id: u16,
    now: u64,
)
    requires
        packet.descriptor == AdspDescriptor::DataPacket || packet.descriptor == AdspDescriptor::ControlPacket,
        !packet.flags.attention,
        payload.len() >= 13,
        m.connections.contains_key(packet.connection_id as u64),
    ensures
        ({
            let id = packet.connection_id as u64;
            let was = m.connections[id];
            let after = m.after_packet(from, packet, payload, fresh_id, now);
            let c = after.connections[id];
            let r = m.reaction(from, packet, payload, fresh_id);
            let n = payload.len() - 13;
            &&& after.connections.dom() == m.connections.dom()
            &&& after.opens == m.opens
            &&& forall|k: u64| k != id && m.connections.contains_key(k) ==> #[trigger] after.connections[k]
                == m.connections[k]
            &&& n > 0 ==> c.recv_seq == (packet.first_byte_seq + n) % 0x1_0000_0000
            &&& n == 0 ==> c.recv_seq == was.recv_seq
            &&& c.send_seq == was.send_seq && c.flight == was.flight && c.oldest_unacked_seq == was.oldest_unacked_seq
            &&& c.our_conn_id == was.our_conn_id && c.remote_addr == was.remote_addr && c.open == was.open
            &&& c.send_window == was.send_window && c.retries == was.retries && c.last_tx == was.last_tx
            &&& r.frame matches Some(f) && {
                &&& f.destination == was.remote_addr
                &&& f.packet.descriptor == AdspDescriptor::Acknowledgment
                &&& f.packet.connection_id == was.our_conn_id
                &&& f.packet.next_recv_seq == c.recv_seq
                &&& f.packet.first_byte_seq == was.send_seq
                &&& f.packet.recv_window == 4096
                &&& f.data.len() == 0
            }
            &&& n == 0 ==> r.event == EventView::Nothing
            &&& n > 0 ==> r.event == (EventView::Data { conn_id: packet.connection_id, data: payload.skip(13) })
        }),
{
    let id = packet.connection_id as u64;
    let after = m.after_packet(from, packet, payload, fresh_id, now);
    assert(after.connections.dom() =~= m.connections.dom());
}

/// An acknowledgement that names a number in flight, or the next one to be sent,
/// takes the bytes before it out of flight, and the wait starts over with no
/// repetitions; any other only tells the peer's window.
pub proof fn law_ack_frees_what_came_in(
    m: AdspModel,
    from: AdspAddress,
    packet: AdspPacket,
    payload: Seq<u8>,
    fresh_id: u16,
    now: u64,
)
    requires
        packet.descriptor == AdspDescriptor::Acknowledgment,
        !packet.flags.attention,
        m.connections.contains_key(packet.connection_id as u64),
    ensures
        ({
            let id = packet.connection_id as u64;
            let was = m.connections[id];
            let c = m.after_packet(from, packet, payload, fresh_id, now).connections[id];
            let n = (packet.next_recv_seq - was.oldest_unacked_seq) % 0x1_0000_0000;
            &&& c.send_window == packet.recv_window
            &&& c.send_seq == was.send_seq && c.recv_seq == was.recv_seq && c.open == was.open
            &&& c.our_conn_id == was.our_conn_id && c.remote_addr == was.remote_addr && c.last_tx == was.last_tx
            &&& 0 < n <= was.flight.len() ==> c.flight == was.flight.skip(n) && c.oldest_unacked_seq
                == packet.next_recv_seq && c.retries == 0
            &&& n == 0 || n > was.flight.len() ==> c.flight == was.flight && c.oldest_unacked_seq
                == was.oldest_unacked_seq && c.retries == was.retries
            &&& m.reaction(from, packet, payload, fresh_id).frame is None
            &&& m.reaction(from, packet, payload, fresh_id).event == EventView::Nothing
        }),
{
}

/// Who asks for a connection gets one: it is known by the number that the peer
/// has given, and the answer goes back under our own with the peer's in it.
pub proof fn law_open_request_is_granted(
    m: AdspModel,
    from: AdspAddress,
    packet: AdspPacket,
    payload: Seq<u8>,
    fresh_id: u16,
    now: u64,
)
    requires
        packet.descriptor == AdspDescriptor::OpenConnRequest,
        !packet.flags.attention,
    ensures
        ({
            let id = packet.connection_id as u64;
            let after = m.after_packet(from, packet, payload, fresh_id, now);
            let c = after.connections[id];
            let r = m.reaction(from, packet, payload, fresh_id);
            &&& after.connections.contains_key(id)
            &&& c.our_conn_id == fresh_id && c.remote_addr == from && c.open && c.send_window == packet.recv_window
            &&& c.last_tx == now
            &&& r.event == (EventView::Accepted { conn_id: packet.connection_id })
            &&& r.frame matches Some(f) && {
                &&& f.destination == from
                &&& f.packet.descriptor == AdspDescriptor::OpenConnReqAck
                &&& f.packet.connection_id == fresh_id
                &&& number16(f.data, 2) == packet.connection_id
            }
        }),
{
    law_opening_packet_says(from, AdspDescriptor::OpenConnReqAck, fresh_id, packet.connection_id);
}

/// Where the answer to our request names our number, the connection is known by
/// the peer's, and the request is no longer open; any other answer does nothing.
pub proof fn law_answer_to_a_request_connects(
    m: AdspModel,
    from: AdspAddress,
    packet: AdspPacket,
    payload: Seq<u8>,
    fresh_id: u16,
    now: u64,
)
    requires
        packet.descriptor == AdspDescriptor::OpenConnAck || packet.descriptor == AdspDescriptor::OpenConnReqAck,
        !packet.flags.attention,
        payload.len() >= 17,
    ensures
        ({
            let id = packet.connection_id as u64;
            let ours = number16(payload, 15);
            let after = m.after_packet(from, packet, payload, fresh_id, now);
            let c = after.connections[id];
            let r = m.reaction(from, packet, payload, fresh_id);
            &&& m.opens.contains(ours as u64) ==> {
                &&& after.connections.contains_key(id)
                &&& c.our_conn_id == ours && c.remote_addr == from && c.open && c.send_window == packet.recv_window
                &&& !after.opens.contains(ours as u64)
                &&& r.event == (EventView::Connected { our_conn_id: ours as u16, conn_id: packet.connection_id })
                &&& r.frame matches Some(f) && f.destination == from && f.packet.descriptor
                    == AdspDescriptor::OpenConnAck && f.packet.connection_id == ours && number16(f.data, 2)
                    == packet.connection_id
            }
            &&& !m.opens.contains(ours as u64) ==> after == m && r.frame is None && r.event == EventView::Nothing
        }),
{
    let ours = AdspModel::opened_id(packet, payload);
    law_numbers_are_read_by_place(payload[15], payload[16], 0, 0);
    law_opening_packet_says(from, AdspDescriptor::OpenConnAck, ours, packet.connection_id);
}

/// A close ends the connection that it names and no other; an attention message
/// changes nothing.
pub proof fn law_close_ends_the_connection(
    m: AdspModel,
    from: AdspAddress,
    packet: AdspPacket,
    payload: Seq<u8>,
    fresh_id: u16,
    now: u64,
)
    ensures
        ({
            let id = packet.connection_id as u64;
            let after = m.after_packet(from, packet, payload, fresh_id, now);
            let r = m.reaction(from, packet, payload, fresh_id);
            &&& packet.flags.attention ==> after == m && r.event == EventView::Nothing
            &&& packet.descriptor == AdspDescriptor::CloseAdvice && !packet.flags.attention ==> {
                &&& !after.connections.contains_key(id)
                &&& forall|k: u64| k != id ==> #[trigger] after.connections.contains_key(k) == m.connections.contains_key(k)
                &&& r.frame is None
                &&& m.connections.contains_key(id) ==> r.event == (EventView::Closed { conn_id: packet.connection_id })
                &&& !m.connections.contains_key(id) ==> r.event == EventView::Nothing
            }
        }),
{
}

/// What is sent joins the end of what is in flight, and the next byte has the
/// number behind it.
pub proof fn law_sent_bytes_join_the_flight(c: ConnView, piece: Seq<u8>)
    ensures
        c.sent(piece).flight.len() == c.flight.len() + piece.len(),
        c.sent(piece).flight.take(c.flight.len() as int) == c.flight,
        c.sent(piece).flight.skip(c.flight.len() as int) == piece,
        c.sent(piece).send_seq == (c.send_seq + piece.len()) % 0x1_0000_0000,
        c.sent(piece).oldest_unacked_seq == c.oldest_unacked_seq,
        c.sent(piece).recv_seq == c.recv_seq,
        c.sent(piece).our_conn_id == c.our_conn_id,
        c.sent(piece).remote_addr == c.remote_addr,
        c.sent(piece).send_window == c.send_window,
{
    assert(c.sent(piece).flight.take(c.flight.len() as int) =~= c.flight);
    assert(c.sent(piece).flight.skip(c.flight.len() as int) =~= piece);
}

/// The room that the peer has is what its window leaves beside the bytes in
/// flight.
pub proof fn law_room_is_what_the_window_leaves(c: ConnView, len: nat)
    ensures
        c.flight.len() <= c.send_window ==> c.flight.len() + c.room() == c.send_window,
        c.flight.len() > c.send_window ==> c.room() == 0,
        c.fitting(len) <= len && c.fitting(len) <= c.room(),
        c.fitting(len) == len || c.fitting(len) == c.room(),
{
}

/// A number that is reached by counting on is as far away as was counted.
pub proof fn law_counting_on_is_a_distance(seq: u32, n: int, other: u32)
    requires
        0 <= n < 0x1_0000_0000,
    ensures
        seq_distance(seq, seq_add(seq, n)) == n,
        seq_add(seq, seq_distance(seq, other)) == other,
        0 <= seq_distance(seq, other) < 0x1_0000_0000,
        seq + n < 0x1_0000_0000 ==> seq_add(seq, n) == seq + n,
        seq_add(seq, 0) == seq,
{
}

/// The timer keeps every connection and counts each on its own.
pub proof fn law_timer_keeps_connections(connections: Map<u64, ConnView>, now: u64, id: u64)
    ensures
        all_ticked(connections, now).contains_key(id) == connections.contains_key(id),
        connections.contains_key(id) ==> all_ticked(connections, now)[id] == connections[id].ticked(now),
{
}

/// A packet, a connection, an event and an answer are known by what their fields
/// hold.
pub proof fn law_adsp_values_are_their_fields(f: AdspFrame, c: AdspConnection, r: AdspReaction)
    ensures
        f@.destination == f.destination,
        f@.packet == f.packet,
        f@.data == f.data@,
        c@.our_conn_id == c.our_conn_id,
        c@.open == c.open,
        c@.remote_addr == c.remote_addr,
        c@.send_seq == c.send_seq,
        c@.oldest_unacked_seq == c.oldest_unacked_seq,
        c@.recv_seq == c.recv_seq,
        c@.send_window == c.send_window,
        c@.flight == c.flight_buffer@,
        c@.last_tx == c.last_tx,
        c@.retries == c.retries,
        c@.attn_send_seq == c.attn_send_seq,
        r.frame matches Some(g) ==> r@.frame == Some(g@),
        r.frame is None ==> r@.frame is None,
        match r.event {
            AdspEvent::Nothing => r@.event == EventView::Nothing,
            AdspEvent::Accepted { conn_id } => r@.event is Accepted && r@.event->Accepted_conn_id == conn_id,
            AdspEvent::Connected { our_conn_id, conn_id } => r@.event is Connected && r@.event->Connected_our_conn_id
                == our_conn_id && r@.event->Connected_conn_id == conn_id,
            AdspEvent::Data { conn_id, data } => r@.event is Data && r@.event->Data_conn_id == conn_id
                && r@.event->Data_data == data@,
            AdspEvent::Closed { conn_id } => r@.event is Closed && r@.event->Closed_conn_id == conn_id,
        },
{
}

/// A socket is known by its connections and the requests that are open.
pub proof fn law_socket_is_its_connections(a: Adsp, id: u64)
    ensures
        a@.connections.contains_key(id) == a.connections@.contains_key(id),
        a.connections@.contains_key(id) ==> a@.connections[id] == a.connections@[id]@,
        a@.opens.contains(id) == a.pending_opens@.contains_key(id),
{
}

/// The timer can count every connection whose bytes are due where none of them has
/// been counted 255 times.
pub proof fn law_timer_can_count(a: Adsp, now: u64, i: int)
    requires
        a.can_tick(now),
        0 <= i < a.connections.entries@.len(),
        a.connections.entries@[i].1.flight_buffer@.len() > 0,
        now > a.connections.entries@[i].1.last_tx + 3000,
    ensures
        a.connections.entries@[i].1.retries < 255,
{
    let c = a.connections.entries@[i].1@;
    assert(c.is_due(now));
}

/// Of a message as much goes out as the peer has room for, under the numbers that
/// follow; the end of the message is told with its last byte and not before.
pub proof fn law_paced_message_ends_with_its_last_byte(c: ConnView, data: Seq<u8>, eom: bool, i: int)
    requires
        data.len() < 0x1_0000_0000,
        0 <= i < c.paced_frames(data, eom).len(),
    ensures
        ({
            let frames = c.paced_frames(data, eom);
            let f = frames[i];
            let d = (f.packet.first_byte_seq - c.send_seq) % 0x1_0000_0000;
            let whole = c.flight.len() + data.len() <= c.send_window || data.len() == 0;
            &&& d + f.data.len() <= data.len()
            &&& f.data == data.subrange(d, d + f.data.len())
            &&& f.packet.flags.eom == (eom && whole && i + 1 == frames.len())
            &&& f.packet.connection_id == c.our_conn_id
            &&& f.packet.next_recv_seq == c.recv_seq
            &&& f.destination == c.remote_addr
            &&& i + 1 == frames.len() && whole ==> d + f.data.len() == data.len()
            &&& i + 1 == frames.len() && !whole ==> c.flight.len() + d + f.data.len() == c.send_window
        }),
{
    let n = c.fitting(data.len());
    let part = data.take(n as int);
    law_message_is_numbered(c, part, eom && n == data.len(), i);
    let f = c.paced_frames(data, eom)[i];
    let d = (f.packet.first_byte_seq - c.send_seq) % 0x1_0000_0000;
    assert(part.subrange(d, d + f.data.len()) =~= data.subrange(d, d + f.data.len()));
    if n == 0 && !(eom && n == data.len()) {
        assert(c.message_frames(part, false).len() == 0);
    }
}

/// Nothing goes out of a message that the peer has no room for, nor of one that is
/// empty and does not end; an empty one that ends goes out as one packet.
pub proof fn law_no_room_no_packets(c: ConnView, data: Seq<u8>, eom: bool)
    ensures
        c.flight.len() >= c.send_window && data.len() > 0 ==> c.paced_frames(data, eom).len() == 0,
        data.len() == 0 && !eom ==> c.paced_frames(data, eom).len() == 0,
        data.len() == 0 && eom ==> c.paced_frames(data, eom).len() == 1,
        c.flight.len() < c.send_window && data.len() > 0 ==> c.paced_frames(data, eom).len() > 0,
{
    let n = c.fitting(data.len());
    let part = data.take(n as int);
    assert(part.len() == n);
    if n > 0 {
        assert(c.data_frames(c.send_seq, part, 0, eom && n == data.len()).len() > 0);
    }
}

/// An attention message on a known connection is answered with its own code, which
/// stands right behind the header; one that is too short for a code, or on a
/// connection that is not known, is not.
pub proof fn law_attention_is_answered(
    m: AdspModel,
    from: AdspAddress,
    packet: AdspPacket,
    payload: Seq<u8>,
    fresh_id: u16,
)
    requires
        packet.flags.attention,
        payload.len() >= 13,
    ensures
        ({
            let r = m.reaction(from, packet, payload, fresh_id);
            let known = m.connections.contains_key(packet.connection_id as u64);
            &&& r.event == EventView::Nothing
            &&& r.frame is Some <==> known && payload.len() >= 15
            &&& r.frame matches Some(f) ==> {
                &&& number16(f.data, 0) == number16(payload, 13)
                &&& f.data.len() == 2
                &&& f.destination == m.connections[packet.connection_id as u64].remote_addr
                &&& f.packet.connection_id == m.connections[packet.connection_id as u64].our_conn_id
                &&& f.packet.flags.attention && !f.packet.flags.ack
            }
        }),
{
    if payload.len() >= 15 {
        let code = from_be16(payload[13], payload[14]);
        law_numbers_are_read_by_place(payload[13], payload[14], 0, 0);
        law_bytes_count_by_their_place(code, 0);
    }
}

/// A packet on a connection that is not known changes nothing and is not answered,
/// unless it opens one.
pub proof fn law_strangers_are_ignored(
    m: AdspModel,
    from: AdspAddress,
    packet: AdspPacket,
    payload: Seq<u8>,
    fresh_id: u16,
    now: u64,
)
    requires
        !m.connections.contains_key(packet.connection_id as u64),
        packet.descriptor == AdspDescriptor::DataPacket || packet.descriptor == AdspDescriptor::ControlPacket
            || packet.descriptor == AdspDescriptor::Acknowledgment || packet.descriptor == AdspDescriptor::CloseAdvice,
    ensures
        m.after_packet(from, packet, payload, fresh_id, now) == m,
        m.reaction(from, packet, payload, fresh_id).frame is None,
        m.reaction(from, packet, payload, fresh_id).event == EventView::Nothing,
{
    assert(m.connections.remove(packet.connection_id as u64) =~= m.connections);
}

/// An answer to a request that does not hold our number is for the request of the
/// number that it has itself.
pub proof fn law_short_answer_names_itself(
    m: AdspModel,
    from: AdspAddress,
    packet: AdspPacket,
    payload: Seq<u8>,
    fresh_id: u16,
    now: u64,
)
    requires
        packet.descriptor == AdspDescriptor::OpenConnAck || packet.descriptor == AdspDescriptor::OpenConnReqAck,
        !packet.flags.attention,
        payload.len() < 17,
    ensures
        ({
            let id = packet.connection_id as u64;
            let after = m.after_packet(from, packet, payload, fresh_id, now);
            &&& m.opens.contains(id) ==> after.connections.contains_key(id) && after.connections[id].our_conn_id
                == packet.connection_id && !after.opens.contains(id)
            &&& !m.opens.contains(id) ==> after == m
        }),
{
}

} // verus!

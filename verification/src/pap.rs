//! Printer Access Protocol: the client side of a print connection.

use crate::atp::{joined, law_response_fits_request, packets_admitted, response_pieces, AtpAddress};
use crate::text::{lossy_text, lossy_utf8};
use crate::wire::{from_be16, put_bytes, slice_bytes};
use vstd::prelude::*;

verus! {

/// Most data bytes in one packet of a print stream. Some printers do not take
/// larger ones over LocalTalk.
pub const PAP_MAX_DATA_PER_PACKET: usize = 512;

/// Milliseconds without a packet from the printer after which a job fails.
pub const PAP_TIMEOUT: u64 = 120_000;

/// Milliseconds between two attempts to open a connection.
pub const PAP_RETRY_MILLIS: u64 = 2000;

/// What a PAP packet is for.
#[derive(Debug, Clone, Copy, PartialEq, Eq, Structural)]
pub enum PapFunction {
    OpenConn,
    OpenConnReply,
    SendData,
    Data,
    Tickle,
    CloseConn,
    CloseConnReply,
    SendStatus,
    Status,
}

/// A PAP packet.
#[derive(Debug)]
pub struct PapPacket {
    pub connection_id: u8,
    pub function: PapFunction,
    pub sequence_num: u16,
    pub eof: bool,
    pub data: Vec<u8>,
}

/// What a packet holds.
pub struct PapView {
    pub connection_id: u8,
    pub function: PapFunction,
    pub sequence_num: u16,
    pub eof: bool,
    pub data: Seq<u8>,
}

impl View for PapPacket {
    type V = PapView;

    open spec fn view(&self) -> PapView {
        PapView {
            connection_id: self.connection_id,
            function: self.function,
            sequence_num: self.sequence_num,
            eof: self.eof,
            data: self.data@,
        }
    }
}

/// A packet without data.
pub open spec fn bare(connection_id: u8, function: PapFunction, sequence_num: u16, eof: bool) -> PapView {
    PapView { connection_id, function, sequence_num, eof, data: Seq::empty() }
}

fn bare_packet(connection_id: u8, function: PapFunction, sequence_num: u16, eof: bool) -> (p: PapPacket)
    ensures
        p@ == bare(connection_id, function, sequence_num, eof),
{
    PapPacket { connection_id, function, sequence_num, eof, data: Vec::new() }
}

/// How an attempt to open a connection ended.
#[derive(Debug, Clone, Copy, PartialEq, Eq, Structural)]
pub enum OpenStep {
    /// The connection is open.
    Connected,
    /// The printer is busy; try again after `PAP_RETRY_MILLIS`.
    Retry,
    /// The printer is still busy and time is up; its result code.
    Busy(u16),
    /// The answer was no reply to the request.
    Unexpected(PapFunction),
    /// The reply is too short; its length.
    TooShort(usize),
}

/// A print client and its connection.
#[derive(Debug, Clone, Copy)]
pub struct PapClient {
    /// Our own socket.
    pub socket_number: u8,
    pub connection_id: u8,
    pub flow_quantum: u8,
    pub remote_addr: AtpAddress,
    /// The printer's socket for this connection.
    pub server_addr: AtpAddress,
    /// How much is read for one request of the printer; `None` for as much as
    /// the request admits.
    pub chunk_size: Option<usize>,
}

/// The address of a client that is not connected.
pub open spec fn nowhere() -> AtpAddress {
    AtpAddress { network_number: 0, node_number: 0, socket_number: 0 }
}

impl PapClient {
    /// A client without a connection.
    pub fn new(socket_number: u8) -> (c: Self)
        ensures
            c.socket_number == socket_number,
            c.connection_id == 0,
            c.flow_quantum == 8,
            c.remote_addr == nowhere(),
            c.server_addr == nowhere(),
            c.chunk_size == None::<usize>,
    {
        let nowhere = AtpAddress { network_number: 0, node_number: 0, socket_number: 0 };
        PapClient {
            socket_number,
            connection_id: 0,
            flow_quantum: 8,
            remote_addr: nowhere,
            server_addr: nowhere,
            chunk_size: None,
        }
    }

    /// Starts to connect to a printer: the packet to be sent to `address`, which is
    /// the socket that the printer listens on.
    pub fn connect(&mut self, address: AtpAddress) -> (p: PapPacket)
        ensures
            *final(self) == (PapClient { remote_addr: address, ..*old(self) }),
            p@ == (PapView {
                connection_id: old(self).socket_number,
                function: PapFunction::OpenConn,
                sequence_num: 0,
                eof: false,
                data: seq![old(self).socket_number, 8u8, 0u8, 0u8],
            }),
    {
        self.remote_addr = address;
        let data: Vec<u8> = vec![self.socket_number, 8, 0, 0];
        assert(data@ =~= seq![self.socket_number, 8u8, 0u8, 0u8]);
        PapPacket {
            connection_id: self.socket_number,
            function: PapFunction::OpenConn,
            sequence_num: 0,
            eof: false,
            data,
        }
    }

    /// Takes in the reply to the request for a connection. `deadline_passed`
    /// tells whether a busy printer is to be given up.
    pub fn open_reply(&mut self, reply: &PapPacket, deadline_passed: bool) -> (step: OpenStep)
        ensures
            if reply.function != PapFunction::OpenConnReply {
                step == OpenStep::Unexpected(reply.function) && *final(self) == *old(self)
            } else if reply.data@.len() < 4 {
                step == OpenStep::TooShort(reply.data@.len() as usize) && *final(self) == (PapClient {
                    connection_id: reply.connection_id,
                    ..*old(self)
                })
            } else {
                let result = from_be16(reply.data@[2], reply.data@[3]);
                &&& step == if result == 0 {
                    OpenStep::Connected
                } else if deadline_passed {
                    OpenStep::Busy(result)
                } else {
                    OpenStep::Retry
                }
                &&& *final(self) == (PapClient {
                    connection_id: reply.connection_id,
                    flow_quantum: reply.data@[1],
                    server_addr: if result == 0 {
                        AtpAddress { socket_number: reply.data@[0], ..old(self).remote_addr }
                    } else {
                        old(self).server_addr
                    },
                    ..*old(self)
                })
            },
    {
        match reply.function {
            PapFunction::OpenConnReply => {},
            other => {
                return OpenStep::Unexpected(other);
            },
        }
        self.connection_id = reply.connection_id;
        if reply.data.len() < 4 {
            return OpenStep::TooShort(reply.data.len());
        }
        self.flow_quantum = reply.data[1];
        let result: u16 = reply.data[2] as u16 * 256 + reply.data[3] as u16;
        if result != 0 {
            if deadline_passed {
                return OpenStep::Busy(result);
            }
            return OpenStep::Retry;
        }
        self.server_addr = AtpAddress {
            network_number: self.remote_addr.network_number,
            node_number: self.remote_addr.node_number,
            socket_number: reply.data[0],
        };
        OpenStep::Connected
    }

    /// The packet that closes the connection, and where it goes: to the printer's
    /// socket for this connection, as everything after the opening.
    pub fn close(&self) -> (r: (AtpAddress, PapPacket))
        ensures
            r.0 == self.server_addr,
            r.1@ == bare(self.connection_id, PapFunction::CloseConn, 0, false),
    {
        (self.server_addr, bare_packet(self.connection_id, PapFunction::CloseConn, 0, false))
    }

    /// The packet that asks a printer for its status.
    pub fn status_request() -> (p: PapPacket)
        ensures
            p@ == bare(0, PapFunction::SendStatus, 0, false),
    {
        bare_packet(0, PapFunction::SendStatus, 0, false)
    }

    /// The status text of a reply: what stands behind its first four bytes.
    pub fn get_status(reply: &PapPacket) -> (s: String)
        ensures
            s@ == if reply.data@.len() > 4 {
                lossy_utf8(reply.data@.skip(4))
            } else {
                Seq::empty()
            },
    {
        if reply.data.len() > 4 {
            let text = slice_bytes(&reply.data, 4, reply.data.len());
            assert(text@ =~= reply.data@.skip(4));
            lossy_text(&text)
        } else {
            String::new()
        }
    }
}

// ── Print jobs ───────────────────────────────────────────────────────────────

/// What a print job does next.
#[derive(Debug)]
pub enum PrintStep {
    /// Wait for the next packet.
    Wait,
    /// Read at most so many bytes of the job, then answer the request with
    /// what was read.
    Read { capacity: usize, sequence_num: u16 },
    /// Answer the request with this packet.
    Respond(PapPacket),
    /// The job is done.
    Done,
    /// Answer the request with this packet; the job is done if `complete`, else
    /// the printer has broken it off.
    Closed { reply: PapPacket, complete: bool },
    /// Send this packet to that address without waiting for an answer.
    Tickle { to: AtpAddress, packet: PapPacket },
    /// The printer has been silent for too long.
    TimedOut,
}

/// A print job.
#[derive(Debug, Clone, Copy, PartialEq, Eq, Structural)]
pub struct PrintJob {
    pub eof_sent: bool,
    pub last_activity: u64,
}

/// The packet that carries what has been read of a job; it marks the end of
/// the job where nothing was read.
pub open spec fn data_packet(connection_id: u8, sequence_num: u16, read: Seq<u8>) -> PapView {
    PapView { connection_id, function: PapFunction::Data, sequence_num, eof: read.len() == 0, data: read }
}

impl PrintJob {
    /// A job of which nothing has been sent.
    pub fn new(now: u64) -> (j: Self)
        ensures
            j == (PrintJob { eof_sent: false, last_activity: now }),
    {
        PrintJob { eof_sent: false, last_activity: now }
    }

    /// Takes in a packet from the printer, which came in a request with the
    /// given bitmap. Packets of other connections are ignored.
    pub fn print_stream(&mut self, client: &PapClient, pap_req: &PapPacket, bitmap: u8, now: u64) -> (step: PrintStep)
        ensures
            if pap_req.connection_id != client.connection_id {
                *final(self) == *old(self) && step is Wait
            } else {
                &&& *final(self) == (PrintJob { last_activity: now, ..*old(self) })
                &&& match pap_req.function {
                    PapFunction::SendData => if old(self).eof_sent {
                        step matches PrintStep::Respond(p) && p@ == data_packet(
                            client.connection_id,
                            pap_req.sequence_num,
                            Seq::empty(),
                        )
                    } else {
                        step == (PrintStep::Read {
                            capacity: match client.chunk_size {
                                Some(n) => n,
                                None => (packets_admitted(bitmap) * PAP_MAX_DATA_PER_PACKET) as usize,
                            },
                            sequence_num: pap_req.sequence_num,
                        })
                    },
                    PapFunction::Tickle => if old(self).eof_sent {
                        step is Done
                    } else {
                        step is Wait
                    },
                    PapFunction::CloseConn => step matches PrintStep::Closed { reply, complete } && reply@ == bare(
                        client.connection_id,
                        PapFunction::CloseConnReply,
                        0,
                        false,
                    ) && complete == old(self).eof_sent,
                    _ => step is Wait,
                }
            },
    {
        if pap_req.connection_id != client.connection_id {
            return PrintStep::Wait;
        }
        self.last_activity = now;
        match pap_req.function {
            PapFunction::SendData => {
                if self.eof_sent {
                    PrintStep::Respond(
                        bare_packet(client.connection_id, PapFunction::Data, pap_req.sequence_num, true),
                    )
                } else {
                    let capacity: usize = match client.chunk_size {
                        Some(n) => n,
                        None => crate::atp::admitted(bitmap) * PAP_MAX_DATA_PER_PACKET,
                    };
                    PrintStep::Read { capacity, sequence_num: pap_req.sequence_num }
                }
            },
            PapFunction::Tickle => {
                if self.eof_sent {
                    PrintStep::Done
                } else {
                    PrintStep::Wait
                }
            },
            PapFunction::CloseConn => PrintStep::Closed {
                reply: bare_packet(client.connection_id, PapFunction::CloseConnReply, 0, false),
                complete: self.eof_sent,
            },
            _ => PrintStep::Wait,
        }
    }

    /// The answer to a request, made of what has been read of the job. Nothing
    /// read means that the job has been sent completely.
    pub fn data_read(&mut self, client: &PapClient, sequence_num: u16, read: Vec<u8>) -> (p: PapPacket)
        ensures
            p@ == data_packet(client.connection_id, sequence_num, read@),
            *final(self) == (PrintJob { eof_sent: old(self).eof_sent || read@.len() == 0, ..*old(self) }),
    {
        let eof = read.len() == 0;
        if eof {
            self.eof_sent = true;
        }
        PapPacket { connection_id: client.connection_id, function: PapFunction::Data, sequence_num, eof, data: read }
    }

    /// The tickle timer.
    pub fn tick(&self, client: &PapClient, now: u64) -> (step: PrintStep)
        ensures
            if now - self.last_activity > PAP_TIMEOUT {
                step is TimedOut
            } else {
                step matches PrintStep::Tickle { to, packet } && to == client.server_addr && packet@ == bare(
                    client.connection_id,
                    PapFunction::Tickle,
                    0,
                    false,
                )
            },
    {
        if now > self.last_activity && now - self.last_activity > PAP_TIMEOUT {
            PrintStep::TimedOut
        } else {
            PrintStep::Tickle {
                to: client.server_addr,
                packet: bare_packet(client.connection_id, PapFunction::Tickle, 0, false),
            }
        }
    }
}

/// The answer to a request for data at the end of a job marks the end and
/// carries nothing.
pub proof fn law_end_carries_nothing(connection_id: u8, sequence_num: u16)
    ensures
        data_packet(connection_id, sequence_num, Seq::empty()) == bare(
            connection_id,
            PapFunction::Data,
            sequence_num,
            true,
        ),
{
}

/// Nothing of a job is lost on the way: as much as the request of the printer
/// makes a client read fits into the packets that the request admits.
pub proof fn law_print_data_fits(read: Seq<u8>, bitmap: u8)
    requires
        read.len() <= packets_admitted(bitmap) * PAP_MAX_DATA_PER_PACKET,
    ensures
        joined(response_pieces(read, PAP_MAX_DATA_PER_PACKET as int, bitmap)) == read,
        response_pieces(read, PAP_MAX_DATA_PER_PACKET as int, bitmap).len() <= packets_admitted(bitmap),
{
    law_response_fits_request(read, PAP_MAX_DATA_PER_PACKET as int, bitmap);
}

// ── Reading from the printer ─────────────────────────────────────────────────

/// What reading from the printer does next.
#[derive(Debug, Clone, Copy, PartialEq, Eq, Structural)]
pub enum ReadStep {
    /// Ask for more.
    More,
    /// Everything has been read.
    Complete,
    /// The printer's answer was no data.
    Unexpected(PapFunction),
}

/// What the printer has sent so far.
#[derive(Debug)]
pub struct ResponseReader {
    pub response: Vec<u8>,
    pub seq: u8,
}

impl ResponseReader {
    /// Nothing read yet; sequence numbers start at one.
    pub fn new() -> (r: Self)
        ensures
            r.response@ == Seq::<u8>::empty(),
            r.seq == 1,
    {
        ResponseReader { response: Vec::new(), seq: 1 }
    }

    /// The packet that asks for the next piece, and where it goes.
    pub fn request(&self, client: &PapClient) -> (r: (AtpAddress, PapPacket))
        ensures
            r.0 == client.server_addr,
            r.1@ == bare(client.connection_id, PapFunction::SendData, self.seq as u16, false),
    {
        (client.server_addr, bare_packet(client.connection_id, PapFunction::SendData, self.seq as u16, false))
    }

    /// Takes in the next piece.
    pub fn read_response(&mut self, data_pkt: &PapPacket) -> (step: ReadStep)
        ensures
            if data_pkt.function != PapFunction::Data {
                step == ReadStep::Unexpected(data_pkt.function) && *final(self) == *old(self)
            } else {
                &&& final(self).response@ == old(self).response@ + data_pkt.data@
                &&& step == if data_pkt.eof {
                    ReadStep::Complete
                } else {
                    ReadStep::More
                }
                &&& final(self).seq == if data_pkt.eof {
                    old(self).seq
                } else if old(self).seq == 255 {
                    0
                } else {
                    (old(self).seq + 1) as u8
                }
            },
    {
        match data_pkt.function {
            PapFunction::Data => {},
            other => {
                return ReadStep::Unexpected(other);
            },
        }
        put_bytes(&mut self.response, &data_pkt.data);
        if data_pkt.eof {
            return ReadStep::Complete;
        }
        self.seq = if self.seq == 255 { 0 } else { self.seq + 1 };
        ReadStep::More
    }
}

/// A packet without data says what it is for, on which connection and in which
/// turn.
pub proof fn law_bare_packet_says(connection_id: u8, function: PapFunction, sequence_num: u16, eof: bool)
    ensures
        ({
            let p = bare(connection_id, function, sequence_num, eof);
            &&& p.connection_id == connection_id
            &&& p.function == function
            &&& p.sequence_num == sequence_num
            &&& p.eof == eof
            &&& p.data.len() == 0
        }),
{
}

/// What has been read to be printed goes out as it is, in its turn, and ends the
/// job exactly where it is empty.
pub proof fn law_print_data_goes_out(connection_id: u8, sequence_num: u16, read: Seq<u8>)
    ensures
        ({
            let p = data_packet(connection_id, sequence_num, read);
            &&& p.connection_id == connection_id
            &&& p.function == PapFunction::Data
            &&& p.sequence_num == sequence_num
            &&& p.data == read
            &&& p.eof <==> read.len() == 0
        }),
{
}

/// A printer that is not connected has no address.
pub proof fn law_nowhere_is_zero()
    ensures
        nowhere().network_number == 0,
        nowhere().node_number == 0,
        nowhere().socket_number == 0,
{
}

/// A packet holds what its fields hold.
pub proof fn law_packet_is_its_fields(p: PapPacket)
    ensures
        p@.connection_id == p.connection_id,
        p@.function == p.function,
        p@.sequence_num == p.sequence_num,
        p@.eof == p.eof,
        p@.data == p.data@,
{
}

/// A printer that is silent for two minutes is given up, a connection is asked for
/// every two seconds, and a packet of print data has at most 512 bytes.
pub proof fn law_printing_has_its_times()
    ensures
        PAP_TIMEOUT == 120000,
        PAP_RETRY_MILLIS == 2000,
        PAP_MAX_DATA_PER_PACKET == 512,
{
}

} // verus!

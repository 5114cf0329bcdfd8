//! AppleTalk Transaction Protocol: fragmenting responses, matching them to
//! requests and putting them together again.

use crate::idmap::IdMap;
use crate::wire::{copy_bytes, put_bytes, slice_bytes};
use vstd::prelude::*;

verus! {

/// Most data bytes in one packet: a datagram of 599 bytes less the 13 of its
/// header and the 8 of the transaction header.
pub const ATP_MAX_DATA_PER_PACKET: usize = 578;

/// Bytes in a transaction header.
pub const ATP_HEADER_LEN: usize = 8;

/// Bytes in the buffer that a packet is built in.
pub const ATP_PACKET_BUFFER: usize = 600;

/// A socket on an AppleTalk internet.
#[derive(Debug, Clone, Copy, PartialEq, Eq, Structural, Hash)]
pub struct AtpAddress {
    pub network_number: u16,
    pub node_number: u8,
    pub socket_number: u8,
}

/// What a transaction packet is for.
#[derive(Debug, Clone, Copy, PartialEq, Eq, Structural)]
pub enum AtpFunction {
    Request,
    Response,
    Release,
}

/// A transaction header.
#[derive(Debug, Clone, Copy, PartialEq, Eq)]
pub struct AtpPacket {
    pub function: AtpFunction,
    pub xo: bool,
    pub eom: bool,
    pub sts: bool,
    /// The bitmap of a request, the sequence number of a response.
    pub bitmap_seq_num: u8,
    pub tid: u16,
    pub user_bytes: [u8; 4],
}

/// One fragment of a response.
#[derive(Debug)]
pub struct AtpResponse {
    pub data: Vec<u8>,
    pub user_bytes: [u8; 4],
}

/// A response to be sent, already in fragments.
#[derive(Debug)]
pub struct AtpSendResponse {
    pub destination: AtpAddress,
    pub tid: u16,
    pub packets: Vec<AtpResponse>,
}

/// A release to be sent.
#[derive(Debug)]
pub struct AtpSendRelease {
    pub destination: AtpAddress,
    pub tid: u16,
}

/// A request that is sent at least once and whose response nobody waits for.
#[derive(Debug)]
pub struct AtpSendAlo {
    pub address: AtpAddress,
    pub user_bytes: [u8; 4],
}

/// A packet on its way out: the header and the data behind it.
#[derive(Debug)]
pub struct AtpDatagram {
    pub destination: AtpAddress,
    pub packet: AtpPacket,
    pub data: Vec<u8>,
}

/// What a datagram holds.
pub struct DatagramView {
    pub destination: AtpAddress,
    pub packet: AtpPacket,
    pub data: Seq<u8>,
}

impl View for AtpDatagram {
    type V = DatagramView;

    open spec fn view(&self) -> DatagramView {
        DatagramView { destination: self.destination, packet: self.packet, data: self.data@ }
    }
}

/// What each datagram of a list holds.
pub open spec fn datagrams(list: Seq<AtpDatagram>) -> Seq<DatagramView> {
    Seq::new(list.len(), |i: int| list[i]@)
}

// ── Fragments ────────────────────────────────────────────────────────────────

/// The number of set bits of a byte.
pub open spec fn bit_count(b: u8) -> int {
    b % 2 + (b / 2) % 2 + (b / 4) % 2 + (b / 8) % 2 + (b / 16) % 2 + (b / 32) % 2 + (b / 64) % 2 + (b / 128) % 2
}

fn count_bits(b: u8) -> (n: usize)
    ensures
        n == bit_count(b),
        n <= 8,
        b != 0 ==> n >= 1,
{
    (b % 2) as usize + ((b / 2) % 2) as usize + ((b / 4) % 2) as usize + ((b / 8) % 2) as usize + ((b / 16) % 2) as usize
        + ((b / 32) % 2) as usize + ((b / 64) % 2) as usize + ((b / 128) % 2) as usize
}

/// How many response packets a request's bitmap admits. An empty bitmap is
/// taken to mean no restriction.
pub open spec fn packets_admitted(bitmap: u8) -> int {
    if bitmap == 0 {
        8
    } else {
        bit_count(bitmap)
    }
}

/// How many response packets a request's bitmap admits.
pub fn admitted(bitmap: u8) -> (n: usize)
    ensures
        n == packets_admitted(bitmap),
        1 <= n <= 8,
{
    if bitmap == 0 {
        8
    } else {
        count_bits(bitmap)
    }
}

/// `data` cut into pieces of `size` bytes, the last one possibly shorter.
pub open spec fn fragments(data: Seq<u8>, size: int) -> Seq<Seq<u8>>
    decreases data.len(),
{
    if size <= 0 || data.len() == 0 {
        Seq::empty()
    } else if data.len() <= size {
        seq![data]
    } else {
        seq![data.take(size)] + fragments(data.skip(size), size)
    }
}

/// The response to a request: as much of `data` as the bitmap admits, in
/// pieces of `size` bytes; one empty piece where there is no data.
pub open spec fn response_pieces(data: Seq<u8>, size: int, bitmap: u8) -> Seq<Seq<u8>> {
    let limit = packets_admitted(bitmap) * size;
    let kept = if data.len() > limit {
        data.take(limit)
    } else {
        data
    };
    if kept.len() == 0 {
        seq![Seq::<u8>::empty()]
    } else {
        fragments(kept, size)
    }
}

/// All pieces one after the other.
pub open spec fn joined(pieces: Seq<Seq<u8>>) -> Seq<u8>
    decreases pieces.len(),
{
    if pieces.len() == 0 {
        Seq::empty()
    } else {
        joined(pieces.drop_last()) + pieces.last()
    }
}

/// The data of each fragment of a response.
pub open spec fn piece_data(packets: Seq<AtpResponse>) -> Seq<Seq<u8>> {
    Seq::new(packets.len(), |i: int| packets[i].data@)
}

proof fn lemma_joined_cons(first: Seq<u8>, rest: Seq<Seq<u8>>)
    ensures
        joined(seq![first] + rest) == first + joined(rest),
    decreases rest.len(),
{
    let all = seq![first] + rest;
    reveal_with_fuel(joined, 2);
    if rest.len() == 0 {
        assert(all.drop_last() =~= Seq::<Seq<u8>>::empty());
        assert(joined(all) =~= first + joined(rest));
    } else {
        assert(all.drop_last() =~= seq![first] + rest.drop_last());
        lemma_joined_cons(first, rest.drop_last());
        assert(joined(all) =~= first + joined(rest));
    }
}

proof fn lemma_fragments(data: Seq<u8>, size: int)
    requires
        size > 0,
    ensures
        joined(fragments(data, size)) == data,
        data.len() > 0 ==> fragments(data, size).len() > 0,
        forall|i: int| 0 <= i < fragments(data, size).len() ==> 0 < (#[trigger] fragments(data, size)[i]).len() <= size,
        fragments(data, size).len() * size < data.len() + size,
    decreases data.len(),
{
    let f = fragments(data, size);
    reveal_with_fuel(joined, 2);
    if data.len() == 0 {
        assert(joined(f) =~= data);
        assert(f.len() * size == 0) by (nonlinear_arith)
            requires
                f.len() == 0,
        ;
    } else if data.len() <= size {
        assert(f.drop_last() =~= Seq::<Seq<u8>>::empty());
        assert(joined(f) =~= data);
        assert(f.len() * size == size) by (nonlinear_arith)
            requires
                f.len() == 1,
        ;
    } else {
        let rest = fragments(data.skip(size), size);
        lemma_fragments(data.skip(size), size);
        lemma_joined_cons(data.take(size), rest);
        assert(data.take(size) + data.skip(size) =~= data);
        assert forall|i: int| 0 <= i < f.len() implies 0 < (#[trigger] f[i]).len() <= size by {
            if i > 0 {
                assert(f[i] == rest[i - 1]);
            }
        }
        assert(f.len() * size == rest.len() * size + size) by (nonlinear_arith)
            requires
                f.len() == rest.len() + 1,
        ;
    }
}

/// A response never has more packets than the request admits, nor more than
/// eight, and no packet is longer than the piece size; put together, the
/// packets give the data, cut off at what the request admits.
pub proof fn law_response_fits_request(data: Seq<u8>, size: int, bitmap: u8)
    requires
        size > 0,
    ensures
        ({
            let pieces = response_pieces(data, size, bitmap);
            let limit = packets_admitted(bitmap) * size;
            &&& 1 <= pieces.len() <= packets_admitted(bitmap) <= 8
            &&& forall|i: int| 0 <= i < pieces.len() ==> (#[trigger] pieces[i]).len() <= size
            &&& joined(pieces) == if data.len() > limit {
                data.take(limit)
            } else {
                data
            }
        }),
{
    let n = packets_admitted(bitmap);
    let limit = n * size;
    let kept = if data.len() > limit {
        data.take(limit)
    } else {
        data
    };
    let pieces = response_pieces(data, size, bitmap);
    assert(1 <= n <= 8);
    assert(limit >= size) by (nonlinear_arith)
        requires
            limit == n * size,
            n >= 1,
            size > 0,
    ;
    reveal_with_fuel(joined, 2);
    if kept.len() == 0 {
        assert(pieces.drop_last() =~= Seq::<Seq<u8>>::empty());
        assert(joined(pieces) =~= kept);
    } else {
        lemma_fragments(kept, size);
        assert(pieces.len() <= n) by (nonlinear_arith)
            requires
                pieces.len() * size < kept.len() + size,
                kept.len() <= n * size,
                size > 0,
        ;
    }
}

fn split_response(data: &Vec<u8>, size: usize, bitmap: u8, user_bytes: [u8; 4]) -> (packets: Vec<AtpResponse>)
    requires
        size > 0,
        8 * size <= usize::MAX,
    ensures
        piece_data(packets@) == response_pieces(data@, size as int, bitmap),
        forall|i: int| 0 <= i < packets@.len() ==> (#[trigger] packets@[i]).user_bytes == user_bytes,
{
    let max_packets: usize = admitted(bitmap);
    assert(max_packets * size <= 8 * size) by (nonlinear_arith)
        requires
            max_packets <= 8,
    ;
    let limit: usize = max_packets * size;
    let end: usize = if data.len() > limit { limit } else { data.len() };
    let ghost kept = data@.take(end as int);
    proof {
        if data@.len() <= limit {
            assert(kept =~= data@);
        }
    }
    let mut packets: Vec<AtpResponse> = Vec::new();
    let mut at: usize = 0;
    proof {
        assert(kept.skip(0) =~= kept);
        assert(piece_data(packets@) + fragments(kept, size as int) =~= fragments(kept, size as int));
    }
    while at < end
        invariant
            at <= end <= data@.len(),
            size > 0,
            kept == data@.take(end as int),
            fragments(kept, size as int) == piece_data(packets@) + fragments(kept.skip(at as int), size as int),
            forall|i: int| 0 <= i < packets@.len() ==> (#[trigger] packets@[i]).user_bytes == user_bytes,
        decreases end - at,
    {
        let next: usize = if end - at > size { at + size } else { end };
        let chunk = slice_bytes(data, at, next);
        let ghost before = piece_data(packets@);
        let ghost rest = kept.skip(at as int);
        let ghost piece = chunk@;
        packets.push(AtpResponse { data: chunk, user_bytes });
        proof {
            assert(piece_data(packets@) =~= before.push(piece));
            assert(rest.take(next - at) =~= piece);
            assert(rest.skip(next - at) =~= kept.skip(next as int));
            if rest.len() <= size {
                assert(rest =~= piece);
                assert(fragments(kept.skip(next as int), size as int) =~= Seq::<Seq<u8>>::empty());
            }
            assert(fragments(rest, size as int) =~= seq![piece] + fragments(kept.skip(next as int), size as int));
            assert(piece_data(packets@) + fragments(kept.skip(next as int), size as int) =~= before + fragments(
                rest,
                size as int,
            ));
        }
        at = next;
    }
    proof {
        assert(kept.skip(at as int) =~= Seq::<u8>::empty());
        assert(piece_data(packets@) =~= fragments(kept, size as int));
    }
    if packets.len() == 0 {
        proof {
            if kept.len() > 0 {
                lemma_fragments(kept, size as int);
            }
        }
        packets.push(AtpResponse { data: Vec::new(), user_bytes });
        assert(piece_data(packets@) =~= seq![Seq::<u8>::empty()]);
    } else {
        assert(kept.len() > 0);
    }
    packets
}

/// A request that has come in.
#[derive(Debug)]
pub struct AtpReceivedRequest {
    pub transaction_id: u16,
    pub source: AtpAddress,
    pub user_bytes: [u8; 4],
    pub data: Vec<u8>,
    /// One bit for each response packet that the client accepts.
    pub bitmap: u8,
}

impl AtpReceivedRequest {
    /// Most response bytes that this request accepts.
    pub fn max_response_bytes(&self) -> (n: usize)
        ensures
            n == packets_admitted(self.bitmap) * ATP_MAX_DATA_PER_PACKET,
    {
        admitted(self.bitmap) * ATP_MAX_DATA_PER_PACKET
    }

    /// The response to this request, in packets as large as they can be.
    pub fn send_response(&self, data: Vec<u8>, user_bytes: [u8; 4]) -> (r: AtpSendResponse)
        ensures
            r.destination == self.source,
            r.tid == self.transaction_id,
            piece_data(r.packets@) == response_pieces(data@, ATP_MAX_DATA_PER_PACKET as int, self.bitmap),
            forall|i: int| 0 <= i < r.packets@.len() ==> (#[trigger] r.packets@[i]).user_bytes == user_bytes,
    {
        let packets = split_response(&data, ATP_MAX_DATA_PER_PACKET, self.bitmap, user_bytes);
        AtpSendResponse { destination: self.source, tid: self.transaction_id, packets }
    }

    /// The response to this request, in packets of `chunk_size` bytes.
    pub fn send_response_chunked(&self, data: Vec<u8>, user_bytes: [u8; 4], chunk_size: usize) -> (r: AtpSendResponse)
        requires
            chunk_size > 0,
            8 * chunk_size <= usize::MAX,
        ensures
            r.destination == self.source,
            r.tid == self.transaction_id,
            piece_data(r.packets@) == response_pieces(data@, chunk_size as int, self.bitmap),
            forall|i: int| 0 <= i < r.packets@.len() ==> (#[trigger] r.packets@[i]).user_bytes == user_bytes,
    {
        let packets = split_response(&data, chunk_size, self.bitmap, user_bytes);
        AtpSendResponse { destination: self.source, tid: self.transaction_id, packets }
    }
}

// ── Transactions ─────────────────────────────────────────────────────────────

/// A request of ours whose response has not come in yet.
#[derive(Debug)]
pub struct PendingRequestState {
    pub xo: bool,
    /// The packets received so far, by sequence number.
    pub received_packets: IdMap<Vec<u8>>,
    pub user_bytes: Option<[u8; 4]>,
    pub eom_seq: Option<u8>,
    /// The request, to be sent again.
    pub packet: AtpPacket,
    pub data: Vec<u8>,
    pub destination: AtpAddress,
}

/// What is known of a pending request.
#[verifier::ext_equal]
pub struct PendingView {
    pub xo: bool,
    pub received: Map<u64, Seq<u8>>,
    pub user_bytes: Option<[u8; 4]>,
    pub eom_seq: Option<u8>,
    pub packet: AtpPacket,
    pub data: Seq<u8>,
    pub destination: AtpAddress,
}

/// Whether the packets `0..=last` are all there.
pub open spec fn has_upto(received: Map<u64, Seq<u8>>, last: int) -> bool {
    forall|i: u64| i <= last ==> #[trigger] received.contains_key(i)
}

/// The first `n` packets one after the other; missing ones add nothing.
pub open spec fn assembled(received: Map<u64, Seq<u8>>, n: int) -> Seq<u8>
    decreases n,
{
    if n <= 0 {
        Seq::empty()
    } else if received.contains_key((n - 1) as u64) {
        assembled(received, n - 1) + received[(n - 1) as u64]
    } else {
        assembled(received, n - 1)
    }
}

impl PendingView {
    /// The request after one more response packet.
    pub open spec fn with_response(self, packet: AtpPacket, data: Seq<u8>) -> PendingView {
        PendingView {
            received: self.received.insert(packet.bitmap_seq_num as u64, data),
            user_bytes: match self.user_bytes {
                Some(u) => Some(u),
                None => Some(packet.user_bytes),
            },
            eom_seq: if packet.eom {
                Some(packet.bitmap_seq_num)
            } else {
                self.eom_seq
            },
            ..self
        }
    }

    /// Whether the response is complete: everything up to the packet marked as
    /// the last one, or eight packets.
    pub open spec fn is_complete(self) -> bool {
        match self.eom_seq {
            Some(e) => has_upto(self.received, e as int),
            None => self.received.dom().len() == 8,
        }
    }

    /// The data of a complete response.
    pub open spec fn response_data(self) -> Seq<u8> {
        assembled(
            self.received,
            match self.eom_seq {
                Some(e) => e + 1,
                None => 8,
            },
        )
    }
}

impl PendingRequestState {
    /// The invariant of a pending request.
    pub open spec fn wf(self) -> bool {
        self.received_packets.wf()
    }

    /// What is known of the request.
    pub open spec fn view(self) -> PendingView {
        PendingView {
            xo: self.xo,
            received: Map::new(
                |k: u64| self.received_packets@.contains_key(k),
                |k: u64| self.received_packets@[k]@,
            ),
            user_bytes: self.user_bytes,
            eom_seq: self.eom_seq,
            packet: self.packet,
            data: self.data@,
            destination: self.destination,
        }
    }

    fn take_response(&mut self, packet: AtpPacket, data: Vec<u8>)
        requires
            old(self).wf(),
        ensures
            final(self).wf(),
            final(self)@ == old(self)@.with_response(packet, data@),
    {
        let ghost before = self@;
        let ghost bytes = data@;
        self.received_packets.insert(packet.bitmap_seq_num as u64, data);
        if self.user_bytes.is_none() {
            self.user_bytes = Some(packet.user_bytes);
        }
        if packet.eom {
            self.eom_seq = Some(packet.bitmap_seq_num);
        }
        assert(self@.received =~= before.received.insert(packet.bitmap_seq_num as u64, bytes));
        assert(self@ =~= before.with_response(packet, bytes));
    }

    fn complete(&self) -> (r: bool)
        requires
            self.wf(),
        ensures
            r == self@.is_complete(),
    {
        match self.eom_seq {
            Some(e) => {
                let mut i: u64 = 0;
                while i <= e as u64
                    invariant
                        i <= e + 1,
                        self.wf(),
                        self.eom_seq == Some(e),
                        forall|k: u64| k < i ==> #[trigger] self@.received.contains_key(k),
                    decreases e + 1 - i,
                {
                    if !self.received_packets.contains(i) {
                        assert(!self@.received.contains_key(i));
                        return false;
                    }
                    assert(self@.received.contains_key(i));
                    i += 1;
                }
                true
            },
            None => {
                proof {
                    self.received_packets.lemma_dom_len();
                    assert(self@.received.dom() =~= self.received_packets@.dom());
                }
                self.received_packets.entries.len() == 8
            },
        }
    }

    fn assemble(&self) -> (r: Vec<u8>)
        requires
            self.wf(),
        ensures
            r@ == self@.response_data(),
    {
        let count: u64 = match self.eom_seq {
            Some(e) => e as u64 + 1,
            None => 8,
        };
        let mut r: Vec<u8> = Vec::new();
        let mut i: u64 = 0;
        while i < count
            invariant
                i <= count,
                self.wf(),
                r@ == assembled(self@.received, i as int),
            decreases count - i,
        {
            if let Some(p) = self.received_packets.get(i) {
                put_bytes(&mut r, p);
            }
            i += 1;
        }
        r
    }
}

/// A source and a transaction identifier as one number.
pub open spec fn release_key(from: AtpAddress, tid: u16) -> u64 {
    (from.network_number * 0x1_0000_0000 + from.node_number * 0x100_0000 + from.socket_number * 0x1_0000 + tid) as u64
}

fn release_key_of(from: AtpAddress, tid: u16) -> (k: u64)
    ensures
        k == release_key(from, tid),
{
    from.network_number as u64 * 0x1_0000_0000 + from.node_number as u64 * 0x100_0000 + from.socket_number as u64
        * 0x1_0000 + tid as u64
}

/// Different transactions have different release keys.
pub proof fn law_release_keys_differ(a: AtpAddress, s: u16, b: AtpAddress, t: u16)
    ensures
        release_key(a, s) == release_key(b, t) ==> a == b && s == t,
{
    lemma_release_key_parts(a, s);
    lemma_release_key_parts(b, t);
}

proof fn lemma_release_key_parts(a: AtpAddress, s: u16)
    ensures
        release_key(a, s) % 0x1_0000 == s,
        (release_key(a, s) / 0x1_0000) % 256 == a.socket_number,
        ((release_key(a, s) / 0x1_0000) / 256) % 256 == a.node_number,
        ((release_key(a, s) / 0x1_0000) / 256) / 256 == a.network_number,
{
    let key = release_key(a, s) as int;
    let upper = a.network_number * 0x1_0000 + a.node_number * 256 + a.socket_number;
    assert(key == upper * 0x1_0000 + s);
    assert(key % 0x1_0000 == s);
    assert(key / 0x1_0000 == upper);
    let middle = a.network_number * 256 + a.node_number;
    assert(upper == middle * 256 + a.socket_number);
    assert(upper / 256 == middle);
}

/// What a packet that came in leads to.
#[derive(Debug)]
pub enum AtpEvent {
    /// Nothing.
    Ignored,
    /// A request to be handed to the responder; a release will follow it under
    /// the key where the client asked for exactly-once service.
    Request { request: AtpReceivedRequest, release: Option<u64> },
    /// The response to our request `tid` is complete; where a release is owed,
    /// it is to be sent.
    Response { tid: u16, data: Vec<u8>, user_bytes: [u8; 4], owed: Option<AtpDatagram> },
    /// The transaction with this release key has been released.
    Released(u64),
}

/// The transactions of one socket.
#[derive(Debug)]
pub struct Atp {
    pub pending_transactions: IdMap<PendingRequestState>,
    pub pending_releases: IdMap<()>,
    pub next_tid: u16,
}

/// What a socket knows of its transactions.
#[verifier::ext_equal]
pub struct AtpModel {
    pub pending: Map<u64, PendingView>,
    pub releases: Set<u64>,
    pub next_tid: u16,
}

/// The header of a request.
pub open spec fn request_packet(tid: u16, user_bytes: [u8; 4], xo: bool) -> AtpPacket {
    AtpPacket { function: AtpFunction::Request, xo, eom: false, sts: false, bitmap_seq_num: 0xff, tid, user_bytes }
}

/// A release of a transaction.
pub open spec fn release_datagram(destination: AtpAddress, tid: u16) -> DatagramView {
    DatagramView {
        destination,
        packet: AtpPacket {
            function: AtpFunction::Release,
            xo: false,
            eom: false,
            sts: false,
            bitmap_seq_num: 0,
            tid,
            user_bytes: [0u8, 0u8, 0u8, 0u8],
        },
        data: Seq::empty(),
    }
}

/// The datagram of fragment `i` of a response of `n` fragments.
pub open spec fn response_datagram(destination: AtpAddress, tid: u16, p: AtpResponse, i: int, n: int) -> DatagramView {
    DatagramView {
        destination,
        packet: AtpPacket {
            function: AtpFunction::Response,
            xo: false,
            eom: i == n - 1,
            sts: false,
            bitmap_seq_num: i as u8,
            tid,
            user_bytes: p.user_bytes,
        },
        data: p.data@,
    }
}

/// The datagrams of the first `k` fragments of a response; a fragment that is
/// too long for a packet is left out.
pub open spec fn response_datagrams(resp: AtpSendResponse, k: nat) -> Seq<DatagramView>
    decreases k,
{
    if k == 0 {
        Seq::empty()
    } else {
        let before = response_datagrams(resp, (k - 1) as nat);
        let p = resp.packets@[k - 1];
        if p.data@.len() + ATP_HEADER_LEN > ATP_PACKET_BUFFER {
            before
        } else {
            before.push(response_datagram(resp.destination, resp.tid, p, k - 1, resp.packets@.len() as int))
        }
    }
}

/// The datagrams that repeat the pending requests.
pub open spec fn repeated(entries: Seq<(u64, PendingRequestState)>) -> Seq<DatagramView> {
    Seq::new(
        entries.len(),
        |i: int|
            (DatagramView {
                destination: entries[i].1.destination,
                packet: entries[i].1.packet,
                data: entries[i].1.data@,
            }),
    )
}

impl Atp {
    /// The invariant of a socket's transactions.
    pub open spec fn wf(self) -> bool {
        &&& self.pending_transactions.wf()
        &&& self.pending_releases.wf()
        &&& forall|i: int|
            0 <= i < self.pending_transactions.entries@.len() ==> (#[trigger] self.pending_transactions.entries@[i]).1.wf()
    }

    /// What the socket knows of its transactions.
    pub open spec fn view(self) -> AtpModel {
        AtpModel {
            pending: Map::new(
                |k: u64| self.pending_transactions@.contains_key(k),
                |k: u64| self.pending_transactions@[k]@,
            ),
            releases: self.pending_releases@.dom(),
            next_tid: self.next_tid,
        }
    }

    /// No transactions; identifiers start at one.
    pub fn new() -> (a: Self)
        ensures
            a.wf(),
            a@ == (AtpModel { pending: Map::empty(), releases: Set::empty(), next_tid: 1 }),
    {
        let a = Atp { pending_transactions: IdMap::new(), pending_releases: IdMap::new(), next_tid: 1 };
        assert(a@.pending =~= Map::<u64, PendingView>::empty());
        assert(a@.releases =~= Set::<u64>::empty());
        a
    }

    fn take_tid(&mut self) -> (tid: u16)
        requires
            old(self).wf(),
        ensures
            final(self).wf(),
            tid == old(self).next_tid,
            final(self)@ == (AtpModel { next_tid: tid_after(old(self)@.next_tid), ..old(self)@ }),
            final(self).pending_transactions == old(self).pending_transactions,
    {
        let tid: u16 = self.next_tid;
        self.next_tid = if tid == 0xFFFF { 0 } else { tid + 1 };
        tid
    }

    /// Builds a request that asks for exactly-once service. Data that does not
    /// fit one packet is refused. The identifier is used up either way.
    pub fn handle_send_request(&mut self, address: AtpAddress, user_bytes: [u8; 4], data: Vec<u8>) -> (r: Option<
        AtpDatagram,
    >)
        requires
            old(self).wf(),
        ensures
            final(self).wf(),
            final(self)@ == (AtpModel { next_tid: tid_after(old(self)@.next_tid), ..old(self)@ }),
            match r {
                Some(d) => data@.len() <= ATP_MAX_DATA_PER_PACKET && d@ == (DatagramView {
                    destination: address,
                    packet: request_packet(old(self)@.next_tid, user_bytes, true),
                    data: data@,
                }),
                None => data@.len() > ATP_MAX_DATA_PER_PACKET,
            },
    {
        let tid: u16 = self.take_tid();
        if data.len() > ATP_MAX_DATA_PER_PACKET {
            return None;
        }
        let packet = AtpPacket {
            function: AtpFunction::Request,
            xo: true,
            eom: false,
            sts: false,
            bitmap_seq_num: 0xff,
            tid,
            user_bytes,
        };
        Some(AtpDatagram { destination: address, packet, data })
    }

    /// Registers a request that has been sent, so that its response is waited
    /// for and it is repeated until then.
    pub fn request_sent(&mut self, sent: AtpDatagram)
        requires
            old(self).wf(),
        ensures
            final(self).wf(),
            final(self)@ == (AtpModel {
                pending: old(self)@.pending.insert(
                    sent.packet.tid as u64,
                    PendingView {
                        xo: sent.packet.xo,
                        received: Map::empty(),
                        user_bytes: None,
                        eom_seq: None,
                        packet: sent.packet,
                        data: sent.data@,
                        destination: sent.destination,
                    },
                ),
                ..old(self)@
            }),
    {
        let ghost before = *self;
        let state = PendingRequestState {
            xo: sent.packet.xo,
            received_packets: IdMap::new(),
            user_bytes: None,
            eom_seq: None,
            packet: sent.packet,
            data: sent.data,
            destination: sent.destination,
        };
        let ghost added = state;
        assert(added@.received =~= Map::<u64, Seq<u8>>::empty());
        self.pending_transactions.insert(sent.packet.tid as u64, state);
        proof {
            self.lemma_pending_inserted(before, sent.packet.tid as u64, added);
        }
    }

    proof fn lemma_pending_inserted(self, before: Self, key: u64, added: PendingRequestState)
        requires
            before.wf(),
            added.wf(),
            self.pending_transactions.wf(),
            self.pending_releases == before.pending_releases,
            self.next_tid == before.next_tid,
            self.pending_transactions@ == before.pending_transactions@.insert(key, added),
        ensures
            self.wf(),
            self@ == (AtpModel { pending: before@.pending.insert(key, added@), ..before@ }),
    {
        assert forall|i: int| 0 <= i < self.pending_transactions.entries@.len() implies (
        #[trigger] self.pending_transactions.entries@[i]).1.wf() by {
            self.pending_transactions.lemma_entry(i);
            let k = self.pending_transactions.entries@[i].0;
            if k != key {
                let j = choose|j: int| before.pending_transactions.key_is(j, k);
                before.pending_transactions.lemma_entry(j);
                assert(before.pending_transactions.entries@[j].1.wf());
            }
        }
        assert(self@.pending =~= before@.pending.insert(key, added@));
        assert(self@ =~= (AtpModel { pending: before@.pending.insert(key, added@), ..before@ }));
    }

    proof fn lemma_pending_removed(self, before: Self, key: u64)
        requires
            before.wf(),
            self.pending_transactions.wf(),
            self.pending_releases == before.pending_releases,
            self.next_tid == before.next_tid,
            self.pending_transactions@ == before.pending_transactions@.remove(key),
        ensures
            self.wf(),
            self@ == (AtpModel { pending: before@.pending.remove(key), ..before@ }),
    {
        assert forall|i: int| 0 <= i < self.pending_transactions.entries@.len() implies (
        #[trigger] self.pending_transactions.entries@[i]).1.wf() by {
            self.pending_transactions.lemma_entry(i);
            let k = self.pending_transactions.entries@[i].0;
            let j = choose|j: int| before.pending_transactions.key_is(j, k);
            before.pending_transactions.lemma_entry(j);
            assert(before.pending_transactions.entries@[j].1.wf());
        }
        assert(self@.pending =~= before@.pending.remove(key));
        assert(self@ =~= (AtpModel { pending: before@.pending.remove(key), ..before@ }));
    }

    /// The packets of a response. The last fragment is marked as such.
    pub fn handle_send_response(resp: &AtpSendResponse) -> (r: Vec<AtpDatagram>)
        ensures
            datagrams(r@) == response_datagrams(*resp, resp.packets@.len()),
    {
        let mut r: Vec<AtpDatagram> = Vec::new();
        let mut i: usize = 0;
        assert(datagrams(r@) =~= Seq::<DatagramView>::empty());
        while i < resp.packets.len()
            invariant
                i <= resp.packets@.len(),
                datagrams(r@) == response_datagrams(*resp, i as nat),
            decreases resp.packets@.len() - i,
        {
            let p = &resp.packets[i];
            if p.data.len() <= ATP_PACKET_BUFFER - ATP_HEADER_LEN {
                let packet = AtpPacket {
                    function: AtpFunction::Response,
                    xo: false,
                    eom: i == resp.packets.len() - 1,
                    sts: false,
                    bitmap_seq_num: i as u8,
                    tid: resp.tid,
                    user_bytes: p.user_bytes,
                };
                let d = AtpDatagram { destination: resp.destination, packet, data: copy_bytes(&p.data) };
                let ghost before = datagrams(r@);
                let ghost dv = d@;
                r.push(d);
                assert(datagrams(r@) =~= before.push(dv));
            }
            i += 1;
        }
        r
    }

    /// A request that nobody waits for. It uses up an identifier.
    pub fn handle_send_alo(&mut self, alo: &AtpSendAlo) -> (d: AtpDatagram)
        requires
            old(self).wf(),
        ensures
            final(self).wf(),
            final(self)@ == (AtpModel { next_tid: tid_after(old(self)@.next_tid), ..old(self)@ }),
            d@ == (DatagramView {
                destination: alo.address,
                packet: request_packet(old(self)@.next_tid, alo.user_bytes, false),
                data: Seq::empty(),
            }),
    {
        let tid: u16 = self.take_tid();
        let packet = AtpPacket {
            function: AtpFunction::Request,
            xo: false,
            eom: false,
            sts: false,
            bitmap_seq_num: 0xff,
            tid,
            user_bytes: alo.user_bytes,
        };
        AtpDatagram { destination: alo.address, packet, data: Vec::new() }
    }

    /// The packet that releases a transaction.
    pub fn handle_send_release(rel: &AtpSendRelease) -> (d: AtpDatagram)
        ensures
            d@ == release_datagram(rel.destination, rel.tid),
    {
        let packet = AtpPacket {
            function: AtpFunction::Release,
            xo: false,
            eom: false,
            sts: false,
            bitmap_seq_num: 0,
            tid: rel.tid,
            user_bytes: [0, 0, 0, 0],
        };
        AtpDatagram { destination: rel.destination, packet, data: Vec::new() }
    }

    /// The requests that still wait for their response, to be sent again.
    pub fn retransmit_pending(&self) -> (r: Vec<AtpDatagram>)
        requires
            self.wf(),
        ensures
            datagrams(r@) == repeated(self.pending_transactions.entries@),
    {
        let mut r: Vec<AtpDatagram> = Vec::new();
        let mut i: usize = 0;
        let ghost all = repeated(self.pending_transactions.entries@);
        assert(datagrams(r@) =~= all.take(0));
        while i < self.pending_transactions.entries.len()
            invariant
                i <= self.pending_transactions.entries@.len(),
                all == repeated(self.pending_transactions.entries@),
                datagrams(r@) == all.take(i as int),
            decreases self.pending_transactions.entries@.len() - i,
        {
            let state = &self.pending_transactions.entries[i].1;
            let d = AtpDatagram {
                destination: state.destination,
                packet: state.packet,
                data: copy_bytes(&state.data),
            };
            let ghost dv = d@;
            let ghost before = datagrams(r@);
            r.push(d);
            assert(datagrams(r@) =~= before.push(dv));
            assert(dv == all[i as int]);
            i += 1;
            assert(all.take(i as int) =~= all.take(i - 1).push(all[i - 1]));
        }
        assert(all.take(i as int) =~= all);
        r
    }

    /// Takes in a packet: `payload` is the whole packet, whose header has been
    /// read as `packet`.
    pub fn handle_packet(&mut self, from: AtpAddress, packet: AtpPacket, payload: &[u8]) -> (event: AtpEvent)
        requires
            old(self).wf(),
        ensures
            final(self).wf(),
            match packet.function {
                AtpFunction::Request => {
                    let key = release_key(from, packet.tid);
                    &&& final(self)@ == if packet.xo {
                        AtpModel { releases: old(self)@.releases.insert(key), ..old(self)@ }
                    } else {
                        old(self)@
                    }
                    &&& event matches AtpEvent::Request { request, release } && request.transaction_id == packet.tid
                        && request.source == from && request.user_bytes == packet.user_bytes && request.bitmap
                        == packet.bitmap_seq_num && request.data@ == payload_data(payload@) && release == if packet.xo {
                        Some(key)
                    } else {
                        None
                    }
                },
                AtpFunction::Response => {
                    let tid = packet.tid as u64;
                    let known = old(self)@.pending.contains_key(tid) && payload@.len() >= ATP_HEADER_LEN;
                    let after = old(self)@.pending[tid].with_response(packet, payload_data(payload@));
                    if !known {
                        final(self)@ == old(self)@ && event is Ignored
                    } else if after.is_complete() {
                        &&& final(self)@ == (AtpModel { pending: old(self)@.pending.remove(tid), ..old(self)@ })
                        &&& event matches AtpEvent::Response { tid: t, data, user_bytes, owed } && t == packet.tid
                            && data@ == after.response_data() && Some(user_bytes) == after.user_bytes && (owed
                            is Some <==> after.xo) && (owed matches Some(d) ==> d@ == release_datagram(
                            from,
                            packet.tid,
                        ))
                    } else {
                        &&& final(self)@ == (AtpModel { pending: old(self)@.pending.insert(tid, after), ..old(self)@ })
                        &&& event is Ignored
                    }
                },
                AtpFunction::Release => {
                    let key = release_key(from, packet.tid);
                    &&& final(self)@ == (AtpModel { releases: old(self)@.releases.remove(key), ..old(self)@ })
                    &&& if old(self)@.releases.contains(key) {
                        event == AtpEvent::Released(key)
                    } else {
                        event is Ignored
                    }
                },
            },
    {
        let ghost before = *self;
        match packet.function {
            AtpFunction::Request => {
                let data = data_of(payload);
                let release = if packet.xo {
                    let key: u64 = release_key_of(from, packet.tid);
                    self.pending_releases.insert(key, ());
                    assert(self@.releases =~= before@.releases.insert(key));
                    assert(self@ =~= (AtpModel { releases: before@.releases.insert(key), ..before@ }));
                    Some(key)
                } else {
                    None
                };
                let request = AtpReceivedRequest {
                    transaction_id: packet.tid,
                    source: from,
                    user_bytes: packet.user_bytes,
                    data,
                    bitmap: packet.bitmap_seq_num,
                };
                AtpEvent::Request { request, release }
            },
            AtpFunction::Response => {
                if payload.len() < ATP_HEADER_LEN {
                    return AtpEvent::Ignored;
                }
                let tid: u64 = packet.tid as u64;
                match self.pending_transactions.remove(tid) {
                    None => {
                        assert(self.pending_transactions@ =~= before.pending_transactions@);
                        proof {
                            self.lemma_pending_removed(before, tid);
                            assert(before@.pending.remove(tid) =~= before@.pending);
                        }
                        AtpEvent::Ignored
                    },
                    Some(mut state) => {
                        proof {
                            self.lemma_pending_removed(before, tid);
                            let j = choose|j: int| before.pending_transactions.key_is(j, tid);
                            before.pending_transactions.lemma_entry(j);
                            assert(before.pending_transactions.entries@[j].1.wf());
                        }
                        let ghost removed = *self;
                        let data = data_of(payload);
                        state.take_response(packet, data);
                        let ghost after = state@;
                        assert(after == before@.pending[tid].with_response(packet, payload_data(payload@)));
                        if state.complete() {
                            let full = state.assemble();
                            let user_bytes = match state.user_bytes {
                                Some(u) => u,
                                None => [0, 0, 0, 0],
                            };
                            let owed = if state.xo {
                                Some(Atp::handle_send_release(&AtpSendRelease { destination: from, tid: packet.tid }))
                            } else {
                                None
                            };
                            AtpEvent::Response { tid: packet.tid, data: full, user_bytes, owed }
                        } else {
                            let ghost kept = state;
                            self.pending_transactions.insert(tid, state);
                            proof {
                                self.lemma_pending_inserted(removed, tid, kept);
                                assert(before@.pending.remove(tid).insert(tid, after) =~= before@.pending.insert(
                                    tid,
                                    after,
                                ));
                            }
                            AtpEvent::Ignored
                        }
                    },
                }
            },
            AtpFunction::Release => {
                let key: u64 = release_key_of(from, packet.tid);
                let found = self.pending_releases.remove(key);
                proof {
                    assert(self@.releases =~= before@.releases.remove(key));
                    assert(self@ =~= (AtpModel { releases: before@.releases.remove(key), ..before@ }));
                }
                if found.is_some() {
                    AtpEvent::Released(key)
                } else {
                    AtpEvent::Ignored
                }
            },
        }
    }
}

/// The identifier that follows `tid`.
pub open spec fn tid_after(tid: u16) -> u16 {
    if tid == 0xFFFF {
        0
    } else {
        (tid + 1) as u16
    }
}

/// What stands behind the header of a packet.
pub open spec fn payload_data(payload: Seq<u8>) -> Seq<u8> {
    if payload.len() > ATP_HEADER_LEN {
        payload.skip(ATP_HEADER_LEN as int)
    } else {
        Seq::empty()
    }
}

fn data_of(payload: &[u8]) -> (data: Vec<u8>)
    ensures
        data@ == payload_data(payload@),
{
    if payload.len() > ATP_HEADER_LEN {
        let data = slice_bytes(payload, ATP_HEADER_LEN, payload.len());
        assert(data@ =~= payload_data(payload@));
        data
    } else {
        Vec::new()
    }
}

// ── Laws ─────────────────────────────────────────────────────────────────────

/// The pieces of a response by sequence number.
pub open spec fn numbered(pieces: Seq<Seq<u8>>) -> Map<u64, Seq<u8>> {
    Map::new(|k: u64| k < pieces.len(), |k: u64| pieces[k as int])
}

proof fn lemma_assembled(pieces: Seq<Seq<u8>>, n: int)
    requires
        0 <= n <= pieces.len() <= 8,
    ensures
        assembled(numbered(pieces), n) == joined(pieces.take(n)),
    decreases n,
{
    if n > 0 {
        lemma_assembled(pieces, n - 1);
        assert(pieces.take(n).drop_last() =~= pieces.take(n - 1));
        assert(numbered(pieces).contains_key((n - 1) as u64));
    } else {
        assert(pieces.take(0) =~= Seq::<Seq<u8>>::empty());
    }
}

/// Whatever the order in which the packets of a response arrive, once all of
/// them are there, and none but them, the response is complete and gives back
/// the data that was sent, cut off at what the request admits.
pub proof fn law_response_reassembles(data: Seq<u8>, size: int, bitmap: u8, state: PendingView)
    requires
        size > 0,
        state.received == numbered(response_pieces(data, size, bitmap)),
        state.eom_seq == Some((response_pieces(data, size, bitmap).len() - 1) as u8),
    ensures
        state.is_complete(),
        state.response_data() == if data.len() > packets_admitted(bitmap) * size {
            data.take(packets_admitted(bitmap) * size)
        } else {
            data
        },
{
    let pieces = response_pieces(data, size, bitmap);
    law_response_fits_request(data, size, bitmap);
    lemma_assembled(pieces, pieces.len() as int);
    assert(pieces.take(pieces.len() as int) =~= pieces);
}

/// As long as a packet below the one marked as last is missing, a response is
/// not complete.
pub proof fn law_incomplete_waits(state: PendingView, missing: u64)
    requires
        state.eom_seq is Some,
        missing <= state.eom_seq.unwrap(),
        !state.received.contains_key(missing),
    ensures
        !state.is_complete(),
{
}

// ── What the packets say ─────────────────────────────────────────────────────

/// Bits are counted one by one: a byte without bits has none, and shifting one in
/// at the low end adds just that one.
pub proof fn law_bits_are_counted(b: u8)
    requires
        b < 128,
    ensures
        bit_count(0) == 0,
        bit_count((2 * b) as u8) == bit_count(b),
        bit_count((2 * b + 1) as u8) == bit_count(b) + 1,
{
}

/// A request without a bitmap asks for eight packets, any other for as many as
/// its bitmap has bits.
pub proof fn law_packets_are_asked_for_by_bits(b: u8)
    ensures
        packets_admitted(0) == 8,
        packets_admitted(255) == 8,
        b > 0 ==> packets_admitted(b) == bit_count(b),
        1 <= packets_admitted(b) <= 8,
{
}

/// A request asks for all eight packets, under its number and with its own four
/// bytes; it says whether the answer has to be released.
pub proof fn law_request_asks_for_all(tid: u16, user_bytes: [u8; 4], xo: bool)
    ensures
        ({
            let p = request_packet(tid, user_bytes, xo);
            &&& p.function == AtpFunction::Request
            &&& p.bitmap_seq_num == 255
            &&& packets_admitted(p.bitmap_seq_num) == 8
            &&& p.tid == tid && p.user_bytes == user_bytes && p.xo == xo
            &&& !p.eom && !p.sts
        }),
{
}

/// A release names the transaction and carries nothing.
pub proof fn law_release_names_the_transaction(destination: AtpAddress, tid: u16)
    ensures
        ({
            let d = release_datagram(destination, tid);
            &&& d.destination == destination
            &&& d.packet.function == AtpFunction::Release
            &&& d.packet.tid == tid
            &&& d.packet.bitmap_seq_num == 0
            &&& !d.packet.xo && !d.packet.eom && !d.packet.sts
            &&& d.packet.user_bytes@ == seq![0u8, 0u8, 0u8, 0u8]
            &&& d.data.len() == 0
        }),
{
    assert(release_datagram(destination, tid).packet.user_bytes@ =~= seq![0u8, 0u8, 0u8, 0u8]);
}

/// The packets of a response go to where the request came from, under its number,
/// each with its place and its own bytes; only the last one ends the response.
pub proof fn law_response_packets_are_numbered(resp: AtpSendResponse, k: nat, i: int)
    requires
        0 <= i < k <= resp.packets@.len() <= 256,
        forall|j: int| 0 <= j < k ==> (#[trigger] resp.packets@[j]).data@.len() <= 592,
    ensures
        response_datagrams(resp, k).len() == k,
        ({
            let d = response_datagrams(resp, k)[i];
            &&& d.destination == resp.destination
            &&& d.packet.function == AtpFunction::Response
            &&& d.packet.tid == resp.tid
            &&& d.packet.bitmap_seq_num == i
            &&& d.packet.eom == (i + 1 == resp.packets@.len())
            &&& !d.packet.xo && !d.packet.sts
            &&& d.packet.user_bytes == resp.packets@[i].user_bytes
            &&& d.data == resp.packets@[i].data@
        }),
    decreases k,
{
    assert(resp.packets@[k - 1].data@.len() <= 592);
    assert(response_datagrams(resp, 0).len() == 0);
    if k > 1 {
        law_response_packets_are_numbered(resp, (k - 1) as nat, if i < k - 1 {
            i
        } else {
            0
        });
    }
}

/// A packet that has no room in a datagram is left out, and the others keep their
/// places.
pub proof fn law_oversized_packets_are_left_out(resp: AtpSendResponse, k: nat, d: DatagramView)
    requires
        k <= resp.packets@.len() <= 256,
        response_datagrams(resp, k).contains(d),
    ensures
        d.data.len() <= 592,
        d.packet.bitmap_seq_num < k,
        d.data == resp.packets@[d.packet.bitmap_seq_num as int].data@,
        d.destination == resp.destination,
        d.packet.tid == resp.tid,
    decreases k,
{
    let all = response_datagrams(resp, k);
    let at = choose|at: int| 0 <= at < all.len() && all[at] == d;
    if k > 0 {
        let before = response_datagrams(resp, (k - 1) as nat);
        if at < before.len() {
            assert(before[at] == d);
            law_oversized_packets_are_left_out(resp, (k - 1) as nat, d);
        }
    }
}

proof fn lemma_fragment_place(data: Seq<u8>, size: int, i: int)
    requires
        size > 0,
        0 <= i < fragments(data, size).len(),
    ensures
        0 <= i * size < data.len(),
        i + 1 < fragments(data, size).len() ==> (i + 1) * size < data.len() && fragments(data, size)[i] == data.subrange(
            i * size,
            i * size + size,
        ),
        i + 1 == fragments(data, size).len() ==> data.len() <= (i + 1) * size && fragments(data, size)[i] == data.skip(
            i * size,
        ),
    decreases data.len(),
{
    if data.len() <= size {
        assert(i == 0);
        assert(i * size == 0 && (i + 1) * size == size) by (nonlinear_arith)
            requires
                i == 0,
        ;
        assert(data.skip(0) =~= data);
    } else {
        let rest = data.skip(size);
        let all = fragments(data, size);
        if i == 0 {
            assert(i * size == 0 && (i + 1) * size == size) by (nonlinear_arith)
                requires
                    i == 0,
            ;
            assert(fragments(rest, size).len() > 0);
            assert(data.subrange(0, size) =~= data.take(size));
        } else {
            lemma_fragment_place(rest, size, i - 1);
            assert(all[i] == fragments(rest, size)[i - 1]);
            assert((i - 1) * size + size == i * size && i * size + size == (i + 1) * size) by (nonlinear_arith);
            if i + 1 < all.len() {
                assert(rest.subrange((i - 1) * size, (i - 1) * size + size) =~= data.subrange(i * size, i * size + size));
            } else {
                assert(rest.skip((i - 1) * size) =~= data.skip(i * size));
            }
        }
    }
}

/// Byte `k` of an answer that fits stands in the piece of its place: pieces are
/// filled one after the other, each up to its size.
pub proof fn law_pieces_are_filled_in_order(data: Seq<u8>, size: int, bitmap: u8, i: int)
    requires
        size > 0,
        0 < data.len() <= packets_admitted(bitmap) * size,
        0 <= i < response_pieces(data, size, bitmap).len(),
    ensures
        ({
            let pieces = response_pieces(data, size, bitmap);
            let end = if i + 1 < pieces.len() {
                i * size + size
            } else {
                data.len() as int
            };
            &&& 0 <= i * size < end <= data.len()
            &&& pieces[i] == data.subrange(i * size, end)
        }),
{
    lemma_fragment_place(data, size, i);
    assert((i + 1) * size == i * size + size) by (nonlinear_arith);
    assert(data.skip(i * size) =~= data.subrange(i * size, data.len() as int));
}

/// Transactions are numbered one after the other, and start over behind the
/// largest number.
pub proof fn law_transactions_are_numbered_in_turn(tid: u16)
    ensures
        tid_after(tid) == (tid + 1) % 65536,
{
}

/// The data of a packet stands behind its header of eight bytes.
pub proof fn law_data_stands_behind_the_header(payload: Seq<u8>)
    ensures
        payload.len() <= 8 ==> payload_data(payload).len() == 0,
        payload.len() > 8 ==> payload_data(payload).len() == payload.len() - 8,
        forall|k: int| 0 <= k < payload_data(payload).len() ==> #[trigger] payload_data(payload)[k] == payload[8 + k],
{
}

/// A packet of a response is kept under its place; the first one tells the four
/// bytes of the response, and the one that ends it how many there are. What was
/// asked stays as it is.
pub proof fn law_response_packets_are_kept(state: PendingView, packet: AtpPacket, data: Seq<u8>)
    ensures
        ({
            let after = state.with_response(packet, data);
            &&& after.received.contains_key(packet.bitmap_seq_num as u64)
            &&& after.received[packet.bitmap_seq_num as u64] == data
            &&& forall|k: u64|
                k != packet.bitmap_seq_num ==> #[trigger] after.received.contains_key(k) == state.received.contains_key(k)
                    && (state.received.contains_key(k) ==> after.received[k] == state.received[k])
            &&& state.user_bytes is Some ==> after.user_bytes == state.user_bytes
            &&& state.user_bytes is None ==> after.user_bytes == Some(packet.user_bytes)
            &&& packet.eom ==> after.eom_seq == Some(packet.bitmap_seq_num)
            &&& !packet.eom ==> after.eom_seq == state.eom_seq
            &&& after.xo == state.xo && after.packet == state.packet && after.data == state.data && after.destination
                == state.destination
        }),
{
}

/// A response is complete exactly where all packets up to the last one are
/// there, or all eight where none was marked as the last.
pub proof fn law_response_is_complete_when(state: PendingView)
    ensures
        state.eom_seq matches Some(e) ==> (state.is_complete() <==> (forall|k: u64|
            0 <= k <= e ==> #[trigger] state.received.contains_key(k))),
        state.eom_seq is None ==> (state.is_complete() <==> state.received.dom().len() == 8),
{
}

proof fn lemma_assembled_places(received: Map<u64, Seq<u8>>, n: int)
    requires
        0 <= n <= 256,
        forall|k: u64| 0 <= k < n ==> #[trigger] received.contains_key(k),
    ensures
        assembled(received, n) == joined(Seq::new(n as nat, |k: int| received[k as u64])),
    decreases n,
{
    let pieces = Seq::new(n as nat, |k: int| received[k as u64]);
    if n > 0 {
        lemma_assembled_places(received, n - 1);
        assert(pieces.drop_last() =~= Seq::new((n - 1) as nat, |k: int| received[k as u64]));
        assert(received.contains_key((n - 1) as u64));
    }
}

/// What a complete response holds are its packets, joined by their places.
pub proof fn law_response_is_joined_in_order(state: PendingView)
    requires
        state.eom_seq is Some,
        state.is_complete(),
    ensures
        state.response_data() == joined(
            Seq::new((state.eom_seq->0 + 1) as nat, |k: int| state.received[k as u64]),
        ),
{
    let n = state.eom_seq->0 + 1;
    assert forall|k: u64| 0 <= k < n implies #[trigger] state.received.contains_key(k) by {}
    lemma_assembled_places(state.received, n);
}

/// What is asked again is what was asked, to the same place.
pub proof fn law_requests_are_repeated_as_they_were(entries: Seq<(u64, PendingRequestState)>, i: int)
    requires
        0 <= i < entries.len(),
    ensures
        repeated(entries).len() == entries.len(),
        repeated(entries)[i].destination == entries[i].1.destination,
        repeated(entries)[i].packet == entries[i].1.packet,
        repeated(entries)[i].data == entries[i].1.data@,
{
}

/// A datagram and a pending request are known by what their fields hold.
pub proof fn law_atp_values_are_their_fields(d: AtpDatagram, p: PendingRequestState, a: Atp, k: u64)
    ensures
        d@.destination == d.destination,
        d@.packet == d.packet,
        d@.data == d.data@,
        p@.xo == p.xo,
        p@.user_bytes == p.user_bytes,
        p@.eom_seq == p.eom_seq,
        p@.packet == p.packet,
        p@.data == p.data@,
        p@.destination == p.destination,
        p@.received.contains_key(k) == p.received_packets@.contains_key(k),
        p.received_packets@.contains_key(k) ==> p@.received[k] == p.received_packets@[k]@,
        a@.next_tid == a.next_tid,
        a@.pending.contains_key(k) == a.pending_transactions@.contains_key(k),
        a.pending_transactions@.contains_key(k) ==> a@.pending[k] == a.pending_transactions@[k]@,
        a@.releases.contains(k) == a.pending_releases@.contains_key(k),
{
}

/// The pieces of a response are the data of its packets.
pub proof fn law_pieces_are_the_data(packets: Seq<AtpResponse>, list: Seq<AtpDatagram>, i: int)
    ensures
        piece_data(packets).len() == packets.len(),
        0 <= i < packets.len() ==> piece_data(packets)[i] == packets[i].data@,
        datagrams(list).len() == list.len(),
        0 <= i < list.len() ==> datagrams(list)[i].data == list[i].data@,
        0 <= i < list.len() ==> datagrams(list)[i].destination == list[i].destination,
        0 <= i < list.len() ==> datagrams(list)[i].packet == list[i].packet,
{
}

/// A response of which no packet was marked as the last is made of its eight
/// packets.
pub proof fn law_eight_packets_are_joined(state: PendingView)
    requires
        state.eom_seq is None,
        forall|k: u64| 0 <= k < 8 ==> #[trigger] state.received.contains_key(k),
    ensures
        state.response_data() == joined(Seq::new(8, |k: int| state.received[k as u64])),
{
    lemma_assembled_places(state.received, 8);
}

/// Every packet that has room in a datagram goes out, at its place.
pub proof fn law_packets_with_room_go_out(resp: AtpSendResponse, k: nat, i: int)
    requires
        0 <= i < k <= resp.packets@.len() <= 256,
        resp.packets@[i].data@.len() <= 592,
    ensures
        exists|d: DatagramView|
            #[trigger] response_datagrams(resp, k).contains(d) && d.packet.bitmap_seq_num == i && d.data
                == resp.packets@[i].data@ && d.packet.user_bytes == resp.packets@[i].user_bytes && d.packet.eom == (i + 1
                == resp.packets@.len()),
    decreases k,
{
    let all = response_datagrams(resp, k);
    let before = response_datagrams(resp, (k - 1) as nat);
    if i < k - 1 {
        law_packets_with_room_go_out(resp, (k - 1) as nat, i);
        let d = choose|d: DatagramView|
            #[trigger] before.contains(d) && d.packet.bitmap_seq_num == i && d.data == resp.packets@[i].data@
                && d.packet.user_bytes == resp.packets@[i].user_bytes && d.packet.eom == (i + 1 == resp.packets@.len());
        let at = choose|at: int| 0 <= at < before.len() && before[at] == d;
        assert(all[at] == d);
        assert(all.contains(d));
    } else {
        assert(all.contains(all.last()));
    }
}

} // verus!

//! EtherTalk frames: the two encapsulations of AppleTalk on Ethernet.

use crate::addressing::{EthernetMac, Node};
use crate::ddp::{DDP_LONG_HEADER, DDP_SHORT_HEADER};
use crate::wire::{
    be16, from_be16, get_be16, law_bytes_count_by_their_place, law_numbers_are_read_by_place, put_be16, put_bytes, slice_bytes,
};
use vstd::prelude::*;

verus! {

/// Ethernet type of AppleTalk datagrams.
pub const ETHERTYPE_DDP: u16 = 0x809B;

/// Ethernet type of AppleTalk address resolution.
pub const ETHERTYPE_AARP: u16 = 0x80F3;

/// Largest value of the type field that is a length.
pub const MAX_FRAME_LENGTH_FIELD: u16 = 1500;

/// Bytes before the payload of a Phase 1 frame.
pub const PHASE1_HEADER_LEN: usize = 14;

/// Bytes before the payload of a Phase 2 frame.
pub const PHASE2_HEADER_LEN: usize = 22;

/// Bytes of an LLAP header.
pub const LLAP_HEADER_LEN: usize = 3;

/// The LLAP type of a datagram with the long header.
pub const LLAP_TYPE_DDP_LONG: u8 = 2;

/// Smallest Ethernet frame.
pub const MIN_ETHERNET_FRAME: usize = 60;

/// The header of a Phase 1 frame.
pub open spec fn eth1_header(dst: EthernetMac, src: EthernetMac, ethertype: u16) -> Seq<u8> {
    dst@ + src@ + be16(ethertype)
}

/// The header of a Phase 2 frame: the length of what follows the first
/// fourteen bytes stands where Phase 1 has the type.
pub open spec fn snap_header(
    dst: EthernetMac,
    src: EthernetMac,
    oui: Seq<u8>,
    ethertype: u16,
    payload_len: nat,
) -> Seq<u8> {
    dst@ + src@ + be16(((8 + payload_len) % 0x1_0000) as u16) + seq![0xAAu8, 0xAAu8, 0x03u8] + oui + be16(ethertype)
}

/// A byte string with `bytes` written over it from `at` on.
pub open spec fn overwritten(buf: Seq<u8>, at: int, bytes: Seq<u8>) -> Seq<u8> {
    buf.take(at) + bytes + buf.skip(at + bytes.len())
}

/// Writes `bytes` over `buf` from `at` on.
pub fn overwrite(buf: &mut Vec<u8>, at: usize, bytes: &[u8])
    requires
        at + bytes@.len() <= old(buf)@.len(),
    ensures
        final(buf)@ == overwritten(old(buf)@, at as int, bytes@),
{
    let total: usize = buf.len();
    let mut i: usize = 0;
    while i < bytes.len()
        invariant
            i <= bytes@.len(),
            at + bytes@.len() <= total,
            total == old(buf)@.len(),
            buf@.len() == total,
            forall|k: int|
                0 <= k < buf@.len() ==> #[trigger] buf@[k] == if at <= k < at + i {
                    bytes@[k - at]
                } else {
                    old(buf)@[k]
                },
        decreases bytes@.len() - i,
    {
        buf.set(at + i, bytes[i]);
        i += 1;
    }
    assert(buf@ =~= overwritten(old(buf)@, at as int, bytes@));
}

proof fn lemma_overwritten_twice(buf: Seq<u8>, a: Seq<u8>, b: Seq<u8>)
    requires
        a.len() + b.len() <= buf.len(),
    ensures
        overwritten(overwritten(buf, 0, a), a.len() as int, b) == overwritten(buf, 0, a + b),
{
    assert(overwritten(overwritten(buf, 0, a), a.len() as int, b) =~= overwritten(buf, 0, a + b));
}

fn push_mac(out: &mut Vec<u8>, mac: EthernetMac)
    ensures
        final(out)@ == old(out)@ + mac@,
{
    out.push(mac[0]);
    out.push(mac[1]);
    out.push(mac[2]);
    out.push(mac[3]);
    out.push(mac[4]);
    out.push(mac[5]);
    assert(out@ =~= old(out)@ + mac@);
}

/// Writes the header of a Phase 1 frame at the front of a buffer and returns
/// its length.
pub fn write_eth1_header(buf: &mut Vec<u8>, dst: EthernetMac, src: EthernetMac, ethertype: u16) -> (n: usize)
    requires
        old(buf)@.len() >= PHASE1_HEADER_LEN,
    ensures
        n == PHASE1_HEADER_LEN,
        final(buf)@ == overwritten(old(buf)@, 0, eth1_header(dst, src, ethertype)),
{
    let mut header: Vec<u8> = Vec::new();
    push_mac(&mut header, dst);
    push_mac(&mut header, src);
    put_be16(&mut header, ethertype);
    assert(header@ =~= eth1_header(dst, src, ethertype));
    overwrite(buf, 0, &header);
    PHASE1_HEADER_LEN
}

/// Writes the header of a Phase 2 frame at the front of a buffer and returns
/// its length.
pub fn write_snap_header(
    buf: &mut Vec<u8>,
    dst: EthernetMac,
    src: EthernetMac,
    oui: [u8; 3],
    ethertype: u16,
    payload_len: usize,
) -> (n: usize)
    requires
        old(buf)@.len() >= PHASE2_HEADER_LEN,
        payload_len + 8 <= usize::MAX,
    ensures
        n == PHASE2_HEADER_LEN,
        final(buf)@ == overwritten(old(buf)@, 0, snap_header(dst, src, oui@, ethertype, payload_len as nat)),
{
    let mut header: Vec<u8> = Vec::new();
    push_mac(&mut header, dst);
    push_mac(&mut header, src);
    put_be16(&mut header, ((8 + payload_len) % 0x1_0000) as u16);
    header.push(0xAA);
    header.push(0xAA);
    header.push(0x03);
    header.push(oui[0]);
    header.push(oui[1]);
    header.push(oui[2]);
    put_be16(&mut header, ethertype);
    assert(header@ =~= snap_header(dst, src, oui@, ethertype, payload_len as nat));
    overwrite(buf, 0, &header);
    PHASE2_HEADER_LEN
}

proof fn lemma_header_lens(dst: EthernetMac, src: EthernetMac, oui: Seq<u8>, ethertype: u16, payload_len: nat)
    ensures
        eth1_header(dst, src, ethertype).len() == PHASE1_HEADER_LEN,
        oui.len() == 3 ==> snap_header(dst, src, oui, ethertype, payload_len).len() == PHASE2_HEADER_LEN,
{
}

fn write_phase1(buf: &mut Vec<u8>, dst: EthernetMac, src: EthernetMac, ethertype: u16, payload: &[u8]) -> (n: usize)
    requires
        PHASE1_HEADER_LEN + payload@.len() <= old(buf)@.len(),
    ensures
        n == PHASE1_HEADER_LEN + payload@.len(),
        final(buf)@ == overwritten(old(buf)@, 0, eth1_header(dst, src, ethertype) + payload@),
{
    let total: usize = buf.len();
    let n: usize = write_eth1_header(buf, dst, src, ethertype);
    proof {
        lemma_header_lens(dst, src, Seq::empty(), ethertype, 0);
    }
    overwrite(buf, n, payload);
    proof {
        lemma_overwritten_twice(old(buf)@, eth1_header(dst, src, ethertype), payload@);
    }
    n + payload.len()
}

fn write_phase2(
    buf: &mut Vec<u8>,
    dst: EthernetMac,
    src: EthernetMac,
    oui: [u8; 3],
    ethertype: u16,
    payload: &[u8],
) -> (n: usize)
    requires
        PHASE2_HEADER_LEN + payload@.len() <= old(buf)@.len(),
    ensures
        n == PHASE2_HEADER_LEN + payload@.len(),
        final(buf)@ == overwritten(
            old(buf)@,
            0,
            snap_header(dst, src, oui@, ethertype, payload@.len()) + payload@,
        ),
{
    let total: usize = buf.len();
    let n: usize = write_snap_header(buf, dst, src, oui, ethertype, payload.len());
    proof {
        lemma_header_lens(dst, src, oui@, ethertype, payload@.len());
    }
    overwrite(buf, n, payload);
    proof {
        lemma_overwritten_twice(old(buf)@, snap_header(dst, src, oui@, ethertype, payload@.len()), payload@);
    }
    n + payload.len()
}

/// The LLAP header in front of a Phase 1 datagram. The node numbers are those
/// at bytes 8 and 9 of the datagram, or zero where it is too short.
pub open spec fn phase1_llap(payload: Seq<u8>) -> Seq<u8> {
    seq![
        if payload.len() > 8 {
            payload[8]
        } else {
            0u8
        },
        if payload.len() > 9 {
            payload[9]
        } else {
            0u8
        },
        LLAP_TYPE_DDP_LONG,
    ]
}

/// The frame that carries a datagram to a node; nothing for a node that is not
/// on Ethernet.
pub open spec fn ddp_frame(our_mac: EthernetMac, dest: Node, payload: Seq<u8>) -> Seq<u8> {
    match dest {
        Node::EtherTalkPhase1(mac) => eth1_header(mac, our_mac, ETHERTYPE_DDP) + phase1_llap(payload) + payload,
        Node::EtherTalkPhase2(mac) => snap_header(
            mac,
            our_mac,
            seq![0x08u8, 0x00u8, 0x07u8],
            ETHERTYPE_DDP,
            payload.len(),
        ) + payload,
        Node::LocalTalk(_) => Seq::empty(),
    }
}

/// The frame that carries an AARP packet to a node; nothing for a node that is
/// not on Ethernet.
pub open spec fn aarp_frame(our_mac: EthernetMac, dest: Node, payload: Seq<u8>) -> Seq<u8> {
    match dest {
        Node::EtherTalkPhase1(mac) => eth1_header(mac, our_mac, ETHERTYPE_AARP) + payload,
        Node::EtherTalkPhase2(mac) => snap_header(
            mac,
            our_mac,
            seq![0x00u8, 0x00u8, 0x00u8],
            ETHERTYPE_AARP,
            payload.len(),
        ) + payload,
        Node::LocalTalk(_) => Seq::empty(),
    }
}

pub proof fn lemma_frame_lens(our_mac: EthernetMac, dest: Node, payload: Seq<u8>)
    ensures
        match dest {
            Node::EtherTalkPhase1(_) => ddp_frame(our_mac, dest, payload).len() == PHASE1_HEADER_LEN + LLAP_HEADER_LEN
                + payload.len() && aarp_frame(our_mac, dest, payload).len() == PHASE1_HEADER_LEN + payload.len(),
            Node::EtherTalkPhase2(_) => ddp_frame(our_mac, dest, payload).len() == PHASE2_HEADER_LEN + payload.len()
                && aarp_frame(our_mac, dest, payload).len() == PHASE2_HEADER_LEN + payload.len(),
            Node::LocalTalk(_) => ddp_frame(our_mac, dest, payload).len() == 0 && aarp_frame(
                our_mac,
                dest,
                payload,
            ).len() == 0,
        },
{
}

/// What a frame is padded to.
pub open spec fn padded_len(len: nat) -> nat {
    if len < MIN_ETHERNET_FRAME {
        MIN_ETHERNET_FRAME as nat
    } else {
        len
    }
}

/// The sending side of an Ethernet interface.
#[derive(Debug, Clone, Copy)]
pub struct EtherTalkTx {
    pub our_mac: EthernetMac,
}

impl EtherTalkTx {
    /// Writes the frame that carries a datagram at the front of a buffer and
    /// returns its length, zero for a node that is not on Ethernet.
    pub fn build_ddp_frame(&self, dest: Node, payload: &[u8], output_buf: &mut Vec<u8>) -> (n: usize)
        requires
            ddp_frame(self.our_mac, dest, payload@).len() <= old(output_buf)@.len(),
        ensures
            n == ddp_frame(self.our_mac, dest, payload@).len(),
            final(output_buf)@ == overwritten(old(output_buf)@, 0, ddp_frame(self.our_mac, dest, payload@)),
    {
        proof {
            lemma_frame_lens(self.our_mac, dest, payload@);
        }
        let payload_len: usize = payload.len();
        match dest {
            Node::EtherTalkPhase1(mac) => {
                let total: usize = output_buf.len();
                let mut body: Vec<u8> = Vec::new();
                body.push(if payload_len > 8 { payload[8] } else { 0 });
                body.push(if payload_len > 9 { payload[9] } else { 0 });
                body.push(LLAP_TYPE_DDP_LONG);
                assert(body@ =~= phase1_llap(payload@));
                put_bytes(&mut body, payload);
                let n: usize = write_phase1(output_buf, mac, self.our_mac, ETHERTYPE_DDP, &body);
                proof {
                    let header = eth1_header(mac, self.our_mac, ETHERTYPE_DDP);
                    assert(header + (phase1_llap(payload@) + payload@) =~= header + phase1_llap(payload@) + payload@);
                }
                n
            },
            Node::EtherTalkPhase2(mac) => {
                let oui: [u8; 3] = [0x08, 0x00, 0x07];
                assert(oui@ =~= seq![0x08u8, 0x00u8, 0x07u8]);
                write_phase2(output_buf, mac, self.our_mac, oui, ETHERTYPE_DDP, payload)
            },
            Node::LocalTalk(_) => {
                assert(overwritten(output_buf@, 0, Seq::<u8>::empty()) =~= output_buf@);
                0
            },
        }
    }

    /// Writes the frame that carries an AARP packet at the front of a buffer
    /// and returns its length, zero for a node that is not on Ethernet.
    pub fn build_aarp_frame(&self, dest: Node, payload: &[u8], output_buf: &mut Vec<u8>) -> (n: usize)
        requires
            aarp_frame(self.our_mac, dest, payload@).len() <= old(output_buf)@.len(),
        ensures
            n == aarp_frame(self.our_mac, dest, payload@).len(),
            final(output_buf)@ == overwritten(old(output_buf)@, 0, aarp_frame(self.our_mac, dest, payload@)),
    {
        proof {
            lemma_frame_lens(self.our_mac, dest, payload@);
        }
        match dest {
            Node::EtherTalkPhase1(mac) => write_phase1(output_buf, mac, self.our_mac, ETHERTYPE_AARP, payload),
            Node::EtherTalkPhase2(mac) => {
                let oui: [u8; 3] = [0x00, 0x00, 0x00];
                assert(oui@ =~= seq![0x00u8, 0x00u8, 0x00u8]);
                write_phase2(output_buf, mac, self.our_mac, oui, ETHERTYPE_AARP, payload)
            },
            Node::LocalTalk(_) => {
                assert(overwritten(output_buf@, 0, Seq::<u8>::empty()) =~= output_buf@);
                0
            },
        }
    }

    /// The bytes that go out for a frame of `final_size` bytes at the front of
    /// a buffer: no fewer than the smallest Ethernet frame.
    pub fn sendpacket(output_buf: &[u8], final_size: usize) -> (bytes: Vec<u8>)
        requires
            padded_len(final_size as nat) <= output_buf@.len(),
        ensures
            bytes@ == output_buf@.take(padded_len(final_size as nat) as int),
    {
        let n: usize = if final_size < MIN_ETHERNET_FRAME { MIN_ETHERNET_FRAME } else { final_size };
        let bytes = slice_bytes(output_buf, 0, n);
        assert(bytes@ =~= output_buf@.take(n as int));
        bytes
    }
}

/// What a frame that came in is.
#[derive(Debug, Clone, Copy, PartialEq, Eq, Structural)]
pub enum EtherFrame {
    /// Encapsulated by LLC and SNAP; its own header says what it carries.
    Phase2,
    /// Address resolution.
    Phase1Aarp,
    /// A datagram behind an LLAP header.
    Phase1Llap,
    /// Nothing of AppleTalk, or cut short.
    Ignored,
}

/// What a frame is.
pub open spec fn frame_kind(data: Seq<u8>) -> EtherFrame {
    let t = from_be16(data[12], data[13]);
    if t <= MAX_FRAME_LENGTH_FIELD {
        EtherFrame::Phase2
    } else if t == ETHERTYPE_AARP && data.len() > PHASE1_HEADER_LEN {
        EtherFrame::Phase1Aarp
    } else if t == ETHERTYPE_DDP && data.len() > PHASE1_HEADER_LEN + LLAP_HEADER_LEN {
        EtherFrame::Phase1Llap
    } else {
        EtherFrame::Ignored
    }
}

/// What a frame that came in is.
pub fn classify(data: &[u8]) -> (k: EtherFrame)
    requires
        data@.len() >= PHASE1_HEADER_LEN,
    ensures
        k == frame_kind(data@),
{
    let t: u16 = get_be16(data, 12);
    if t <= MAX_FRAME_LENGTH_FIELD {
        EtherFrame::Phase2
    } else if t == ETHERTYPE_AARP {
        if data.len() > PHASE1_HEADER_LEN {
            EtherFrame::Phase1Aarp
        } else {
            EtherFrame::Ignored
        }
    } else if t == ETHERTYPE_DDP {
        if data.len() > PHASE1_HEADER_LEN + LLAP_HEADER_LEN {
            EtherFrame::Phase1Llap
        } else {
            EtherFrame::Ignored
        }
    } else {
        EtherFrame::Ignored
    }
}

/// What stands behind the first `n` bytes of a frame.
pub fn frame_payload(data: &[u8], n: usize) -> (r: Vec<u8>)
    requires
        n <= data@.len(),
    ensures
        r@ == data@.skip(n as int),
{
    let r = slice_bytes(data, n, data.len());
    assert(r@ =~= data@.skip(n as int));
    r
}

/// The hardware address that a frame comes from.
pub fn source_mac(data: &[u8]) -> (mac: EthernetMac)
    requires
        data@.len() >= PHASE1_HEADER_LEN,
    ensures
        mac@ == data@.subrange(6, 12),
{
    let mac: EthernetMac = [data[6], data[7], data[8], data[9], data[10], data[11]];
    assert(mac@ =~= data@.subrange(6, 12));
    mac
}

/// What an LLAP frame carries.
#[derive(Debug, Clone, Copy, PartialEq, Eq, Structural)]
pub enum LlapType {
    DdpShort,
    DdpLong,
    Enquiry,
    Acknowledge,
    Other,
}

/// An LLAP header.
#[derive(Debug, Clone, Copy, PartialEq, Eq, Structural)]
pub struct LlapPacket {
    pub dst_node: u8,
    pub src_node: u8,
    pub type_: LlapType,
}

/// The length of the datagram header that a frame of this type carries.
pub open spec fn datagram_header(type_: LlapType) -> Option<nat> {
    match type_ {
        LlapType::DdpShort => Some(DDP_SHORT_HEADER as nat),
        LlapType::DdpLong => Some(DDP_LONG_HEADER as nat),
        _ => None,
    }
}

/// Where a datagram that starts at `base` ends, where its header gives its
/// length as `len`: there, or at the end of the frame.
pub open spec fn datagram_end(frame_len: nat, base: nat, len: nat) -> nat {
    if base + len <= frame_len {
        base + len
    } else {
        frame_len
    }
}

/// The datagram of a Phase 1 frame, which its LLAP header and the length in
/// the datagram's own header delimit; `None` where the frame carries no
/// datagram or is too short for its header.
pub fn phase1_datagram(data: &[u8], type_: LlapType, len: usize) -> (r: Option<Vec<u8>>)
    requires
        frame_kind(data@) == EtherFrame::Phase1Llap,
        datagram_header(type_) matches Some(h) ==> h <= len,
    ensures
        match datagram_header(type_) {
            Some(h) => {
                let base = (PHASE1_HEADER_LEN + LLAP_HEADER_LEN) as nat;
                if base + h <= data@.len() {
                    r matches Some(p) && p@ == data@.subrange(
                        (base + h) as int,
                        datagram_end(data@.len(), base, len as nat) as int,
                    )
                } else {
                    r is None
                }
            },
            None => r is None,
        },
{
    let header: usize = match type_ {
        LlapType::DdpShort => DDP_SHORT_HEADER,
        LlapType::DdpLong => DDP_LONG_HEADER,
        _ => {
            return None;
        },
    };
    let base: usize = PHASE1_HEADER_LEN + LLAP_HEADER_LEN;
    let rest: usize = data.len() - base;
    if rest < header {
        return None;
    }
    let end: usize = if len <= rest { base + len } else { data.len() };
    Some(slice_bytes(data, base + header, end))
}

/// A Phase 2 frame that we send is taken for one by its receiver, who finds
/// the datagram behind the header.
pub proof fn law_phase2_frame_reads_back(our_mac: EthernetMac, mac: EthernetMac, payload: Seq<u8>)
    requires
        payload.len() + 8 <= MAX_FRAME_LENGTH_FIELD,
    ensures
        ({
            let frame = ddp_frame(our_mac, Node::EtherTalkPhase2(mac), payload);
            &&& frame_kind(frame) == EtherFrame::Phase2
            &&& frame.skip(PHASE2_HEADER_LEN as int) == payload
            &&& frame.subrange(6, 12) == our_mac@
        }),
{
    let frame = ddp_frame(our_mac, Node::EtherTalkPhase2(mac), payload);
    let n = (8 + payload.len()) as u16;
    assert(frame[12] == be16(n)[0]);
    assert(frame[13] == be16(n)[1]);
    assert(frame.skip(PHASE2_HEADER_LEN as int) =~= payload);
    assert(frame.subrange(6, 12) =~= our_mac@);
}

/// A Phase 1 frame that we send is taken for one by its receiver, who finds
/// the LLAP header and then the datagram.
pub proof fn law_phase1_frame_reads_back(our_mac: EthernetMac, mac: EthernetMac, payload: Seq<u8>)
    requires
        payload.len() > 0,
    ensures
        ({
            let frame = ddp_frame(our_mac, Node::EtherTalkPhase1(mac), payload);
            let resolution = aarp_frame(our_mac, Node::EtherTalkPhase1(mac), payload);
            &&& frame_kind(frame) == EtherFrame::Phase1Llap
            &&& frame[16] == LLAP_TYPE_DDP_LONG
            &&& frame.skip((PHASE1_HEADER_LEN + LLAP_HEADER_LEN) as int) == payload
            &&& frame.subrange(6, 12) == our_mac@
            &&& frame_kind(resolution) == EtherFrame::Phase1Aarp
            &&& resolution.skip(PHASE1_HEADER_LEN as int) == payload
        }),
{
    let frame = ddp_frame(our_mac, Node::EtherTalkPhase1(mac), payload);
    assert(frame[12] == be16(ETHERTYPE_DDP)[0]);
    assert(frame[13] == be16(ETHERTYPE_DDP)[1]);
    assert(frame.skip((PHASE1_HEADER_LEN + LLAP_HEADER_LEN) as int) =~= payload);
    assert(frame.subrange(6, 12) =~= our_mac@);
    let resolution = aarp_frame(our_mac, Node::EtherTalkPhase1(mac), payload);
    assert(resolution[12] == be16(ETHERTYPE_AARP)[0]);
    assert(resolution[13] == be16(ETHERTYPE_AARP)[1]);
    assert(resolution.skip(PHASE1_HEADER_LEN as int) =~= payload);
}

/// A Phase 1 frame starts with its destination, then its source, then what it
/// carries: DDP behind an LLAP header that names the nodes of the datagram, or
/// AARP at once.
pub proof fn law_phase1_frame_says(our_mac: EthernetMac, mac: EthernetMac, payload: Seq<u8>)
    ensures
        ({
            let f = ddp_frame(our_mac, Node::EtherTalkPhase1(mac), payload);
            &&& f.len() == 17 + payload.len()
            &&& f.take(6) == mac@
            &&& f.subrange(6, 12) == our_mac@
            &&& f[12] == 0x80 && f[13] == 0x9B
            &&& f[14] == if payload.len() > 8 {
                payload[8]
            } else {
                0
            }
            &&& f[15] == if payload.len() > 9 {
                payload[9]
            } else {
                0
            }
            &&& f[16] == 2
            &&& f.skip(17) == payload
        }),
        ({
            let f = aarp_frame(our_mac, Node::EtherTalkPhase1(mac), payload);
            &&& f.len() == 14 + payload.len()
            &&& f.take(6) == mac@
            &&& f.subrange(6, 12) == our_mac@
            &&& f[12] == 0x80 && f[13] == 0xF3
            &&& f.skip(14) == payload
        }),
{
    law_bytes_count_by_their_place(ETHERTYPE_DDP, 0);
    law_bytes_count_by_their_place(ETHERTYPE_AARP, 0);
    let f = ddp_frame(our_mac, Node::EtherTalkPhase1(mac), payload);
    assert(f.take(6) =~= mac@);
    assert(f.subrange(6, 12) =~= our_mac@);
    assert(f.skip(17) =~= payload);
    let g = aarp_frame(our_mac, Node::EtherTalkPhase1(mac), payload);
    assert(g.take(6) =~= mac@);
    assert(g.subrange(6, 12) =~= our_mac@);
    assert(g.skip(14) =~= payload);
}

/// A Phase 2 frame starts with its destination, then its source, then its length,
/// and a SNAP header that says what it carries: DDP under Apple's code, or AARP
/// under none.
pub proof fn law_phase2_frame_says(our_mac: EthernetMac, mac: EthernetMac, payload: Seq<u8>)
    requires
        payload.len() + 8 <= 65535,
    ensures
        ({
            let f = ddp_frame(our_mac, Node::EtherTalkPhase2(mac), payload);
            &&& f.len() == 22 + payload.len()
            &&& f.take(6) == mac@
            &&& f.subrange(6, 12) == our_mac@
            &&& f[12] * 256 + f[13] == 8 + payload.len()
            &&& f[14] == 0xAA && f[15] == 0xAA && f[16] == 0x03
            &&& f[17] == 0x08 && f[18] == 0x00 && f[19] == 0x07
            &&& f[20] == 0x80 && f[21] == 0x9B
            &&& f.skip(22) == payload
        }),
        ({
            let f = aarp_frame(our_mac, Node::EtherTalkPhase2(mac), payload);
            &&& f.len() == 22 + payload.len()
            &&& f.take(6) == mac@
            &&& f.subrange(6, 12) == our_mac@
            &&& f[12] * 256 + f[13] == 8 + payload.len()
            &&& f[14] == 0xAA && f[15] == 0xAA && f[16] == 0x03
            &&& f[17] == 0 && f[18] == 0 && f[19] == 0
            &&& f[20] == 0x80 && f[21] == 0xF3
            &&& f.skip(22) == payload
        }),
{
    law_bytes_count_by_their_place(ETHERTYPE_DDP, 0);
    law_bytes_count_by_their_place(ETHERTYPE_AARP, 0);
    law_bytes_count_by_their_place((8 + payload.len()) as u16, 0);
    let f = ddp_frame(our_mac, Node::EtherTalkPhase2(mac), payload);
    assert(f.take(6) =~= mac@);
    assert(f.subrange(6, 12) =~= our_mac@);
    assert(f.skip(22) =~= payload);
    let g = aarp_frame(our_mac, Node::EtherTalkPhase2(mac), payload);
    assert(g.take(6) =~= mac@);
    assert(g.subrange(6, 12) =~= our_mac@);
    assert(g.skip(22) =~= payload);
}

/// Nothing goes out on Ethernet to a node on LocalTalk.
pub proof fn law_localtalk_nodes_get_no_ethernet(our_mac: EthernetMac, node: u8, payload: Seq<u8>)
    ensures
        ddp_frame(our_mac, Node::LocalTalk(node), payload).len() == 0,
        aarp_frame(our_mac, Node::LocalTalk(node), payload).len() == 0,
{
}

/// A header of its own says the addresses, the type, and for Phase 2 the length.
pub proof fn law_headers_say(dst: EthernetMac, src: EthernetMac, oui: Seq<u8>, ethertype: u16, payload_len: nat)
    requires
        oui.len() == 3,
    ensures
        ({
            let h = eth1_header(dst, src, ethertype);
            &&& h.len() == 14
            &&& h.take(6) == dst@ && h.subrange(6, 12) == src@
            &&& h[12] * 256 + h[13] == ethertype
        }),
        ({
            let h = snap_header(dst, src, oui, ethertype, payload_len);
            &&& h.len() == 22
            &&& h.take(6) == dst@ && h.subrange(6, 12) == src@
            &&& h[12] * 256 + h[13] == (8 + payload_len) % 65536
            &&& h[14] == 0xAA && h[15] == 0xAA && h[16] == 0x03
            &&& h.subrange(17, 20) == oui
            &&& h[20] * 256 + h[21] == ethertype
        }),
{
    law_bytes_count_by_their_place(ethertype, 0);
    law_bytes_count_by_their_place(((8 + payload_len) % 0x1_0000) as u16, 0);
    let h = eth1_header(dst, src, ethertype);
    assert(h.take(6) =~= dst@);
    assert(h.subrange(6, 12) =~= src@);
    let g = snap_header(dst, src, oui, ethertype, payload_len);
    assert(g.take(6) =~= dst@);
    assert(g.subrange(6, 12) =~= src@);
    assert(g.subrange(17, 20) =~= oui);
}

/// What is written over a buffer stands at its place, and the rest of the buffer
/// stays.
pub proof fn law_overwriting_changes_its_place(buf: Seq<u8>, at: int, bytes: Seq<u8>, k: int)
    requires
        0 <= at,
        at + bytes.len() <= buf.len(),
        0 <= k < buf.len(),
    ensures
        overwritten(buf, at, bytes).len() == buf.len(),
        at <= k < at + bytes.len() ==> overwritten(buf, at, bytes)[k] == bytes[k - at],
        k < at || at + bytes.len() <= k ==> overwritten(buf, at, bytes)[k] == buf[k],
{
}

/// No frame is shorter than 60 bytes, and none grows that is not.
pub proof fn law_frames_are_at_least_sixty(len: nat)
    ensures
        len >= 60 ==> padded_len(len) == len,
        len < 60 ==> padded_len(len) == 60,
{
}

/// What a frame is, by its thirteenth and fourteenth byte: up to 1500 a length,
/// and so Phase 2; 0x80F3 is AARP and 0x809B is DDP, where there is anything behind
/// the header; anything else is nothing of ours.
pub proof fn law_frames_are_told_by_their_type(data: Seq<u8>)
    requires
        data.len() >= 14,
    ensures
        ({
            let t = data[12] * 256 + data[13];
            &&& frame_kind(data) == EtherFrame::Phase2 <==> t <= 1500
            &&& frame_kind(data) == EtherFrame::Phase1Aarp <==> t == 0x80F3 && data.len() > 14
            &&& frame_kind(data) == EtherFrame::Phase1Llap <==> t == 0x809B && data.len() > 17
        }),
{
    law_numbers_are_read_by_place(data[12], data[13], 0, 0);
}

/// A datagram has a header of 5 bytes where it is short, and of 13 where it is
/// long; it ends where its length says, or with the frame.
pub proof fn law_datagrams_have_their_headers(frame_len: nat, base: nat, len: nat)
    ensures
        datagram_header(LlapType::DdpShort) == Some(5nat),
        datagram_header(LlapType::DdpLong) == Some(13nat),
        datagram_header(LlapType::Enquiry) is None,
        datagram_header(LlapType::Acknowledge) is None,
        datagram_end(frame_len, base, len) <= frame_len,
        base + len <= frame_len ==> datagram_end(frame_len, base, len) == base + len,
        base + len > frame_len ==> datagram_end(frame_len, base, len) == frame_len,
{
}

} // verus!

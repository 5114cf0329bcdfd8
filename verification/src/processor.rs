//! The links below the datagram layer: framing what goes out, sorting what
//! comes in, the life of a serial LocalTalk adapter, and capture files.

use crate::addr::AppleTalkAddress;
use crate::addressing::{EthernetMac, Node};
use crate::ddp::{DDP_LONG_HEADER, DDP_SHORT_HEADER};
use crate::ethertalk::{
    aarp_frame, datagram_end, datagram_header, ddp_frame, lemma_frame_lens, overwritten, padded_len, EtherTalkTx,
    LlapPacket, LlapType, LLAP_HEADER_LEN, PHASE1_HEADER_LEN, PHASE2_HEADER_LEN,
};
use crate::link::{DataLinkPacket, DataLinkProtocol};
use crate::wire::{
    law_bytes_count_by_their_place, le16, le32, put_bytes, put_le16, put_le32, repeat, slice_bytes,
};
use vstd::prelude::*;

verus! {

/// The largest frame, on any link.
pub const MAX_FRAME: usize = 1500;

// ── Frames that go out ───────────────────────────────────────────────────────

/// What becomes of a packet on its way to a link.
#[derive(Debug)]
pub enum Outbound {
    /// It goes out on Ethernet as these bytes.
    Ethernet(Vec<u8>),
    /// It goes out on LocalTalk behind this header, with its payload or without.
    LocalTalk { header: LlapPacket, with_payload: bool },
    /// There is no way to send it.
    Dropped,
}

/// The LLAP header of a packet for a node on LocalTalk.
pub open spec fn llap_header(protocol: DataLinkProtocol, node: u8, src_node: u8, ddp_long: bool) -> LlapPacket {
    LlapPacket {
        dst_node: node,
        src_node,
        type_: match protocol {
            DataLinkProtocol::Ddp => if ddp_long {
                LlapType::DdpLong
            } else {
                LlapType::DdpShort
            },
            DataLinkProtocol::LlapEnq => LlapType::Enquiry,
            _ => LlapType::Acknowledge,
        },
    }
}

/// The Ethernet frame of a packet, without padding; empty where there is none.
pub open spec fn ethernet_frame(p: DataLinkPacket, our_mac: Option<EthernetMac>) -> Seq<u8> {
    match our_mac {
        Some(mac) => match p.protocol {
            DataLinkProtocol::Ddp => ddp_frame(mac, p.dest_node, p.payload@),
            DataLinkProtocol::Aarp => aarp_frame(mac, p.dest_node, p.payload@),
            _ => Seq::empty(),
        },
        None => Seq::empty(),
    }
}

/// A frame with the padding that Ethernet asks for.
pub open spec fn padded(frame: Seq<u8>) -> Seq<u8> {
    frame + repeat(0, (padded_len(frame.len()) - frame.len()) as nat)
}

/// Whether a packet and the headers of its link fit into a frame.
pub open spec fn fits_frame(p: DataLinkPacket, our_mac: Option<EthernetMac>) -> bool {
    match p.dest_node {
        Node::LocalTalk(_) => p.protocol == DataLinkProtocol::Ddp ==> LLAP_HEADER_LEN + p.payload@.len() <= MAX_FRAME,
        _ => ethernet_frame(p, our_mac).len() <= MAX_FRAME,
    }
}

/// Whether a packet and the headers of its link fit into a frame.
pub fn frame_fits(pkt: &DataLinkPacket, our_mac: Option<EthernetMac>) -> (r: bool)
    ensures
        r == fits_frame(*pkt, our_mac),
{
    let len: usize = pkt.payload.len();
    let header: usize = match pkt.dest_node {
        Node::LocalTalk(_) => match pkt.protocol {
            DataLinkProtocol::Ddp => LLAP_HEADER_LEN,
            _ => {
                return true;
            },
        },
        _ => {
            let mac = match our_mac {
                Some(mac) => mac,
                None => {
                    return true;
                },
            };
            proof {
                lemma_frame_lens(mac, pkt.dest_node, pkt.payload@);
            }
            match (pkt.dest_node, pkt.protocol) {
                (Node::EtherTalkPhase1(_), DataLinkProtocol::Ddp) => PHASE1_HEADER_LEN + LLAP_HEADER_LEN,
                (Node::EtherTalkPhase1(_), DataLinkProtocol::Aarp) => PHASE1_HEADER_LEN,
                (_, DataLinkProtocol::Ddp) | (_, DataLinkProtocol::Aarp) => PHASE2_HEADER_LEN,
                _ => {
                    return true;
                },
            }
        },
    };
    len <= MAX_FRAME - header
}

/// Decides how a packet goes out. `our_mac` is our address on Ethernet, where
/// there is such an interface.
pub fn frame_outbound(pkt: &DataLinkPacket, our_mac: Option<EthernetMac>) -> (r: Outbound)
    requires
        fits_frame(*pkt, our_mac),
    ensures
        match pkt.dest_node {
            Node::LocalTalk(node) => if pkt.protocol == DataLinkProtocol::Aarp {
                r is Dropped
            } else {
                r == (Outbound::LocalTalk {
                    header: llap_header(pkt.protocol, node, pkt.src_node_id, pkt.ddp_long),
                    with_payload: pkt.protocol == DataLinkProtocol::Ddp,
                })
            },
            _ => if our_mac is Some && (pkt.protocol == DataLinkProtocol::Ddp || pkt.protocol
                == DataLinkProtocol::Aarp) {
                r matches Outbound::Ethernet(bytes) && bytes@ == padded(ethernet_frame(*pkt, our_mac))
            } else {
                r is Dropped
            },
        },
{
    match pkt.dest_node {
        Node::LocalTalk(node) => match pkt.protocol {
            DataLinkProtocol::Aarp => Outbound::Dropped,
            DataLinkProtocol::Ddp => Outbound::LocalTalk {
                header: LlapPacket {
                    dst_node: node,
                    src_node: pkt.src_node_id,
                    type_: if pkt.ddp_long { LlapType::DdpLong } else { LlapType::DdpShort },
                },
                with_payload: true,
            },
            DataLinkProtocol::LlapEnq => Outbound::LocalTalk {
                header: LlapPacket { dst_node: node, src_node: pkt.src_node_id, type_: LlapType::Enquiry },
                with_payload: false,
            },
            DataLinkProtocol::LlapAck => Outbound::LocalTalk {
                header: LlapPacket { dst_node: node, src_node: pkt.src_node_id, type_: LlapType::Acknowledge },
                with_payload: false,
            },
        },
        _ => match our_mac {
            None => Outbound::Dropped,
            Some(mac) => {
                let tx = EtherTalkTx { our_mac: mac };
                let mut output_buf: Vec<u8> = vec![0u8; MAX_FRAME];
                let ghost zeros = output_buf@;
                proof {
                    lemma_frame_lens(mac, pkt.dest_node, pkt.payload@);
                }
                let final_size: usize = match pkt.protocol {
                    DataLinkProtocol::Ddp => tx.build_ddp_frame(pkt.dest_node, &pkt.payload, &mut output_buf),
                    DataLinkProtocol::Aarp => tx.build_aarp_frame(pkt.dest_node, &pkt.payload, &mut output_buf),
                    _ => 0,
                };
                if final_size == 0 {
                    return Outbound::Dropped;
                }
                let bytes = EtherTalkTx::sendpacket(&output_buf, final_size);
                proof {
                    let frame = ethernet_frame(*pkt, our_mac);
                    assert(output_buf@ == overwritten(zeros, 0, frame));
                    assert(bytes@ =~= padded(frame));
                }
                Outbound::Ethernet(bytes)
            },
        },
    }
}

/// The bytes of a LocalTalk frame: the header, and the payload where it goes
/// along. The checksum is the adapter's business.
pub fn localtalk_bytes(header: &[u8], payload: &[u8], with_payload: bool) -> (bytes: Vec<u8>)
    requires
        header@.len() + if with_payload {
            payload@.len()
        } else {
            0
        } <= MAX_FRAME,
    ensures
        bytes@ == if with_payload {
            header@ + payload@
        } else {
            header@
        },
{
    let mut bytes: Vec<u8> = Vec::new();
    put_bytes(&mut bytes, header);
    if with_payload {
        put_bytes(&mut bytes, payload);
    }
    assert(bytes@ =~= if with_payload {
        header@ + payload@
    } else {
        header@
    });
    bytes
}

// ── Frames that come in ──────────────────────────────────────────────────────

/// What a LocalTalk frame leads to.
#[derive(Debug)]
pub enum LocalTalkEvent {
    Ignored,
    /// A datagram, by its payload.
    Datagram(Vec<u8>),
    /// A node asks whether somebody has this number.
    Enquiry(u8),
    /// A node says that it has this number.
    Acknowledge(u8),
}

/// Whether a LocalTalk frame can hold a header at all.
pub fn long_enough(data: &[u8]) -> (r: bool)
    ensures
        r == (data@.len() >= LLAP_HEADER_LEN),
{
    data.len() >= LLAP_HEADER_LEN
}

/// Sorts a LocalTalk frame by its header. `len` is the length in the header of
/// the datagram that it carries, where there is one that can be read.
pub fn localtalk_frame(data: &[u8], llap: LlapPacket, len: Option<usize>) -> (e: LocalTalkEvent)
    requires
        data@.len() >= LLAP_HEADER_LEN,
        datagram_header(llap.type_) matches Some(h) ==> (len matches Some(n) ==> LLAP_HEADER_LEN + n <= usize::MAX
            && LLAP_HEADER_LEN + h <= datagram_end(data@.len(), LLAP_HEADER_LEN as nat, n as nat)),
    ensures
        match llap.type_ {
            LlapType::DdpShort | LlapType::DdpLong => match len {
                Some(n) => e matches LocalTalkEvent::Datagram(p) && p@ == data@.subrange(
                    LLAP_HEADER_LEN + datagram_header(llap.type_)->0,
                    datagram_end(data@.len(), LLAP_HEADER_LEN as nat, n as nat) as int,
                ),
                None => e is Ignored,
            },
            LlapType::Enquiry => e == LocalTalkEvent::Enquiry(llap.dst_node),
            LlapType::Acknowledge => e == LocalTalkEvent::Acknowledge(llap.src_node),
            LlapType::Other => e is Ignored,
        },
{
    let header: usize = match llap.type_ {
        LlapType::DdpShort => DDP_SHORT_HEADER,
        LlapType::DdpLong => DDP_LONG_HEADER,
        LlapType::Enquiry => {
            return LocalTalkEvent::Enquiry(llap.dst_node);
        },
        LlapType::Acknowledge => {
            return LocalTalkEvent::Acknowledge(llap.src_node);
        },
        LlapType::Other => {
            return LocalTalkEvent::Ignored;
        },
    };
    match len {
        None => LocalTalkEvent::Ignored,
        Some(n) => {
            let end: usize = if LLAP_HEADER_LEN + n <= data.len() { LLAP_HEADER_LEN + n } else { data.len() };
            LocalTalkEvent::Datagram(slice_bytes(data, LLAP_HEADER_LEN + header, end))
        },
    }
}

// ── The serial adapter ───────────────────────────────────────────────────────

/// The table of node numbers that an adapter answers for: one bit for each.
pub open spec fn node_table(node_id: u8) -> Seq<u8> {
    repeat(0, 32).update((node_id / 8) as int, 1u8 << (node_id % 8))
}

/// The table of node numbers that an adapter answers for, with the bit of one
/// node set.
pub fn node_bits(node_id: u8) -> (bits: Vec<u8>)
    ensures
        bits@ == node_table(node_id),
{
    let mut bits: Vec<u8> = vec![0u8; 32];
    bits.set((node_id / 8) as usize, 1u8 << (node_id % 8));
    assert(bits@ =~= node_table(node_id));
    bits
}

/// In the table of a node, the bit of that node is set and no other.
pub proof fn law_node_table_has_one_bit(node_id: u8, other: u8)
    ensures
        node_table(node_id).len() == 32,
        (((node_table(node_id)[(other / 8) as int] >> (other % 8)) & 1) == 1) == (other == node_id),
{
    let cell = node_table(node_id)[(other / 8) as int];
    if other / 8 == node_id / 8 {
        assert((((1u8 << (node_id % 8)) >> (other % 8)) & 1 == 1) == (other % 8 == node_id % 8)) by (bit_vector);
        assert(other % 8 == node_id % 8 ==> other == node_id);
    } else {
        assert(cell == 0);
        assert(((0u8 >> (other % 8)) & 1) == 0) by (bit_vector);
    }
}

/// Where the adapter is in its life.
#[derive(Debug, Clone, Copy, PartialEq, Eq, Structural)]
pub enum AdapterState {
    Opening,
    Resetting,
    SettingFeatures,
    AskingAddress,
    SettingNodes,
    Online,
    /// Online, while the node numbers are set again.
    ChangingNodes,
    /// Online, while a frame is sent.
    Sending,
}

/// What has happened to the adapter.
#[derive(Debug, Clone, Copy, PartialEq, Eq, Structural)]
pub enum AdapterEvent {
    /// What was asked for has been done.
    Done,
    /// It has failed.
    Failed,
    /// Our node number, as asked for.
    Address(u8),
    /// Our node number has changed, or is no longer known.
    AddressChanged(Option<u8>),
    /// Nobody will tell of changes any more.
    WatchEnded,
    /// A frame has to go out.
    FrameToSend,
    /// Nobody will send frames any more.
    QueueClosed,
    /// A frame has come in, or one that was damaged.
    FrameReceived,
    /// The adapter has gone away.
    Gone,
}

/// What has to be done next.
#[derive(Debug)]
pub enum AdapterAction {
    Open,
    /// Wait, and then open; `warn` where this is worth a message.
    WaitAndOpen { warn: bool },
    Reset,
    SetFeatures,
    AskAddress,
    SetNodes(Vec<u8>),
    /// Tell the others that the adapter is there, and listen.
    GoOnline,
    Listen,
    Send,
    /// Tell the others that the adapter is away, wait, and then open.
    GoOffline,
}

/// What an action is, the table of node numbers by its contents.
pub enum ActionView {
    Open,
    WaitAndOpen { warn: bool },
    Reset,
    SetFeatures,
    AskAddress,
    SetNodes(Seq<u8>),
    GoOnline,
    Listen,
    Send,
    GoOffline,
}

impl View for AdapterAction {
    type V = ActionView;

    open spec fn view(&self) -> ActionView {
        match *self {
            AdapterAction::Open => ActionView::Open,
            AdapterAction::WaitAndOpen { warn } => ActionView::WaitAndOpen { warn },
            AdapterAction::Reset => ActionView::Reset,
            AdapterAction::SetFeatures => ActionView::SetFeatures,
            AdapterAction::AskAddress => ActionView::AskAddress,
            AdapterAction::SetNodes(bits) => ActionView::SetNodes(bits@),
            AdapterAction::GoOnline => ActionView::GoOnline,
            AdapterAction::Listen => ActionView::Listen,
            AdapterAction::Send => ActionView::Send,
            AdapterAction::GoOffline => ActionView::GoOffline,
        }
    }
}

/// A serial LocalTalk adapter that may come and go.
#[derive(Debug, Clone, Copy)]
pub struct Adapter {
    pub state: AdapterState,
    /// Whether no attempt to open it has been made yet.
    pub first_connect: bool,
    /// Whether changes of our address are still told.
    pub watching: bool,
}

/// The state after an event and what has to be done next. While the adapter is
/// set up, a failure starts all over at once; while it is online, a failure
/// takes it offline.
pub open spec fn adapter_step(state: AdapterState, first_connect: bool, event: AdapterEvent) -> (
    AdapterState,
    ActionView,
) {
    match (state, event) {
        (AdapterState::Opening, AdapterEvent::Done) => (AdapterState::Resetting, ActionView::Reset),
        (AdapterState::Opening, _) => (AdapterState::Opening, ActionView::WaitAndOpen { warn: first_connect }),
        (AdapterState::Resetting, AdapterEvent::Done) => (AdapterState::SettingFeatures, ActionView::SetFeatures),
        (AdapterState::SettingFeatures, AdapterEvent::Done) => (AdapterState::AskingAddress, ActionView::AskAddress),
        (AdapterState::AskingAddress, AdapterEvent::Address(node)) => (
            AdapterState::SettingNodes,
            ActionView::SetNodes(node_table(node)),
        ),
        (AdapterState::SettingNodes, AdapterEvent::Done) => (AdapterState::Online, ActionView::GoOnline),
        (AdapterState::Online, AdapterEvent::AddressChanged(Some(node))) => (
            AdapterState::ChangingNodes,
            ActionView::SetNodes(node_table(node)),
        ),
        (AdapterState::Online, AdapterEvent::AddressChanged(None)) => (AdapterState::Online, ActionView::Listen),
        (AdapterState::Online, AdapterEvent::WatchEnded) => (AdapterState::Online, ActionView::Listen),
        (AdapterState::Online, AdapterEvent::FrameReceived) => (AdapterState::Online, ActionView::Listen),
        (AdapterState::Online, AdapterEvent::FrameToSend) => (AdapterState::Sending, ActionView::Send),
        (AdapterState::Online, _) => (AdapterState::Opening, ActionView::GoOffline),
        (AdapterState::ChangingNodes, AdapterEvent::Done) => (AdapterState::Online, ActionView::Listen),
        (AdapterState::ChangingNodes, _) => (AdapterState::Opening, ActionView::GoOffline),
        (AdapterState::Sending, AdapterEvent::Done) => (AdapterState::Online, ActionView::Listen),
        (AdapterState::Sending, _) => (AdapterState::Opening, ActionView::GoOffline),
        _ => (AdapterState::Opening, ActionView::Open),
    }
}

impl Adapter {
    /// An adapter that has to be opened.
    pub fn new() -> (a: Self)
        ensures
            a.state == AdapterState::Opening,
            a.first_connect,
            a.watching,
    {
        Adapter { state: AdapterState::Opening, first_connect: true, watching: true }
    }

    /// Takes in what has happened and says what has to be done next.
    pub fn next(&mut self, event: AdapterEvent) -> (action: AdapterAction)
        ensures
            (final(self).state, action@) == adapter_step(old(self).state, old(self).first_connect, event),
            final(self).first_connect == (old(self).first_connect && old(self).state != AdapterState::Opening),
            final(self).watching == (old(self).watching && !(old(self).state == AdapterState::Online && event
                == AdapterEvent::WatchEnded)),
    {
        match self.state {
            AdapterState::Opening => {
                let warn = self.first_connect;
                self.first_connect = false;
                match event {
                    AdapterEvent::Done => {
                        self.state = AdapterState::Resetting;
                        AdapterAction::Reset
                    },
                    _ => AdapterAction::WaitAndOpen { warn },
                }
            },
            AdapterState::Resetting => match event {
                AdapterEvent::Done => {
                    self.state = AdapterState::SettingFeatures;
                    AdapterAction::SetFeatures
                },
                _ => self.start_over(),
            },
            AdapterState::SettingFeatures => match event {
                AdapterEvent::Done => {
                    self.state = AdapterState::AskingAddress;
                    AdapterAction::AskAddress
                },
                _ => self.start_over(),
            },
            AdapterState::AskingAddress => match event {
                AdapterEvent::Address(node) => {
                    self.state = AdapterState::SettingNodes;
                    AdapterAction::SetNodes(node_bits(node))
                },
                _ => self.start_over(),
            },
            AdapterState::SettingNodes => match event {
                AdapterEvent::Done => {
                    self.state = AdapterState::Online;
                    AdapterAction::GoOnline
                },
                _ => self.start_over(),
            },
            AdapterState::Online => match event {
                AdapterEvent::AddressChanged(Some(node)) => {
                    self.state = AdapterState::ChangingNodes;
                    AdapterAction::SetNodes(node_bits(node))
                },
                AdapterEvent::AddressChanged(None) => AdapterAction::Listen,
                AdapterEvent::WatchEnded => {
                    self.watching = false;
                    AdapterAction::Listen
                },
                AdapterEvent::FrameReceived => AdapterAction::Listen,
                AdapterEvent::FrameToSend => {
                    self.state = AdapterState::Sending;
                    AdapterAction::Send
                },
                _ => self.go_offline(),
            },
            AdapterState::ChangingNodes | AdapterState::Sending => match event {
                AdapterEvent::Done => {
                    self.state = AdapterState::Online;
                    AdapterAction::Listen
                },
                _ => self.go_offline(),
            },
        }
    }

    fn start_over(&mut self) -> (action: AdapterAction)
        ensures
            action is Open,
            final(self).state == AdapterState::Opening,
            final(self).first_connect == old(self).first_connect,
            final(self).watching == old(self).watching,
    {
        self.state = AdapterState::Opening;
        AdapterAction::Open
    }

    fn go_offline(&mut self) -> (action: AdapterAction)
        ensures
            action is GoOffline,
            final(self).state == AdapterState::Opening,
            final(self).first_connect == old(self).first_connect,
            final(self).watching == old(self).watching,
    {
        self.state = AdapterState::Opening;
        AdapterAction::GoOffline
    }
}

/// Whether the others take the adapter to be there.
pub open spec fn announced(state: AdapterState) -> bool {
    state == AdapterState::Online || state == AdapterState::ChangingNodes || state == AdapterState::Sending
}

/// The others are told exactly when the adapter comes and goes, and a failure
/// always leads back to opening it.
pub proof fn law_adapter_announcements(state: AdapterState, first_connect: bool, event: AdapterEvent)
    ensures
        ({
            let (next, action) = adapter_step(state, first_connect, event);
            &&& action is GoOnline <==> !announced(state) && announced(next)
            &&& action is GoOffline <==> announced(state) && !announced(next)
            &&& event == AdapterEvent::Failed ==> next == AdapterState::Opening
        }),
{
}

// ── Capture files ────────────────────────────────────────────────────────────

/// The header of a capture file for LocalTalk frames.
pub open spec fn pcap_header() -> Seq<u8> {
    le32(0xa1b2c3d4) + le16(2) + le16(4) + repeat(0, 8) + le32(65535) + le32(114)
}

/// The header of a capture file for LocalTalk frames.
pub fn pcap_global_header() -> (bytes: Vec<u8>)
    ensures
        bytes@ == pcap_header(),
        bytes@.len() == 24,
{
    let mut bytes: Vec<u8> = Vec::new();
    put_le32(&mut bytes, 0xa1b2c3d4);
    put_le16(&mut bytes, 2);
    put_le16(&mut bytes, 4);
    put_le32(&mut bytes, 0);
    put_le32(&mut bytes, 0);
    put_le32(&mut bytes, 65535);
    put_le32(&mut bytes, 114);
    assert(bytes@ =~= pcap_header());
    bytes
}

/// The low 32 bits of a number.
pub open spec fn low32(n: nat) -> u32 {
    (n % 0x1_0000_0000) as u32
}

/// The header of a captured frame: the time in seconds and microseconds, and
/// twice the length.
pub open spec fn pcap_record(secs: u64, micros: u32, len: nat) -> Seq<u8> {
    le32(low32(secs as nat)) + le32(micros) + le32(low32(len)) + le32(low32(len))
}

/// A captured frame as the file holds it: its header and its bytes.
pub fn pcap_frame(secs: u64, micros: u32, data: &[u8]) -> (bytes: Vec<u8>)
    ensures
        bytes@ == pcap_record(secs, micros, data@.len()) + data@,
{
    let mut bytes: Vec<u8> = Vec::new();
    let len: u32 = (data.len() as u64 % 0x1_0000_0000) as u32;
    put_le32(&mut bytes, (secs % 0x1_0000_0000) as u32);
    put_le32(&mut bytes, micros);
    put_le32(&mut bytes, len);
    put_le32(&mut bytes, len);
    assert(bytes@ =~= pcap_record(secs, micros, data@.len()));
    put_bytes(&mut bytes, data);
    bytes
}

// ── Building a stack ─────────────────────────────────────────────────────────

/// Why a stack cannot be built.
#[derive(Debug, Clone, Copy, PartialEq, Eq, Structural)]
pub enum StackError {
    /// A daemon and interfaces of our own exclude each other.
    InterfacesWithDaemon,
    /// The lower half of a stack is always local.
    UnderlayFromDaemon,
}

/// Where the lower half of a stack runs.
#[derive(Debug, Clone, Copy, PartialEq, Eq, Structural)]
pub enum StackPlan {
    Local,
    Daemon,
}

/// What a stack is built from.
#[derive(Debug, Clone, Copy)]
pub struct StackConfig {
    pub ethernet: bool,
    pub localtalk: bool,
    pub daemon: bool,
    pub lt_fixed_node: Option<u8>,
}

impl StackConfig {
    /// Whether there is an interface of our own.
    pub fn has_local_transport(&self) -> (r: bool)
        ensures
            r == (self.ethernet || self.localtalk),
    {
        self.ethernet || self.localtalk
    }

    /// Where the lower half of the stack runs.
    pub fn plan(&self) -> (r: Result<StackPlan, StackError>)
        ensures
            r == if !self.daemon {
                Ok(StackPlan::Local)
            } else if self.ethernet || self.localtalk {
                Err(StackError::InterfacesWithDaemon)
            } else {
                Ok(StackPlan::Daemon)
            },
    {
        if !self.daemon {
            Ok(StackPlan::Local)
        } else if self.has_local_transport() {
            Err(StackError::InterfacesWithDaemon)
        } else {
            Ok(StackPlan::Daemon)
        }
    }

    /// Whether the lower half alone can be built.
    pub fn plan_underlay(&self) -> (r: Result<(), StackError>)
        ensures
            r == if self.daemon {
                Err(StackError::UnderlayFromDaemon)
            } else {
                Ok(())
            },
    {
        if self.daemon {
            Err(StackError::UnderlayFromDaemon)
        } else {
            Ok(())
        }
    }

    /// The address that a fixed node on LocalTalk starts with: network zero
    /// until a router tells the real one.
    pub fn localtalk_address(&self) -> (r: Option<AppleTalkAddress>)
        ensures
            r == match self.lt_fixed_node {
                Some(node) => Some(AppleTalkAddress { network_number: 0, node_number: node }),
                None => None,
            },
    {
        match self.lt_fixed_node {
            Some(node) => Some(AppleTalkAddress { network_number: 0, node_number: node }),
            None => None,
        }
    }
}

/// A frame on LocalTalk says from which node to which node it goes, and what it
/// is: a datagram with a long or a short header, an enquiry, or its answer.
pub proof fn law_localtalk_frame_says(protocol: DataLinkProtocol, node: u8, src_node: u8, ddp_long: bool)
    ensures
        ({
            let h = llap_header(protocol, node, src_node, ddp_long);
            &&& h.dst_node == node
            &&& h.src_node == src_node
            &&& protocol == DataLinkProtocol::Ddp ==> h.type_ == if ddp_long {
                LlapType::DdpLong
            } else {
                LlapType::DdpShort
            }
            &&& protocol == DataLinkProtocol::LlapEnq ==> h.type_ == LlapType::Enquiry
            &&& protocol == DataLinkProtocol::LlapAck ==> h.type_ == LlapType::Acknowledge
        }),
{
}

/// A frame on Ethernet ends with what it carries: at byte 17 or 22 for DDP, at 14
/// or 22 for AARP; without an address of our own there is none.
pub proof fn law_ethernet_frame_carries_the_payload(p: DataLinkPacket, mac: EthernetMac, to: EthernetMac)
    ensures
        ethernet_frame(p, None).len() == 0,
        p.dest_node == Node::EtherTalkPhase2(to) && (p.protocol == DataLinkProtocol::Ddp || p.protocol
            == DataLinkProtocol::Aarp) ==> ethernet_frame(p, Some(mac)).skip(22) == p.payload@ && ethernet_frame(
            p,
            Some(mac),
        ).take(6) == to@ && ethernet_frame(p, Some(mac)).subrange(6, 12) == mac@,
        p.dest_node == Node::EtherTalkPhase1(to) && p.protocol == DataLinkProtocol::Ddp ==> ethernet_frame(
            p,
            Some(mac),
        ).skip(17) == p.payload@ && ethernet_frame(p, Some(mac)).take(6) == to@,
        p.dest_node == Node::EtherTalkPhase1(to) && p.protocol == DataLinkProtocol::Aarp ==> ethernet_frame(
            p,
            Some(mac),
        ).skip(14) == p.payload@ && ethernet_frame(p, Some(mac)).take(6) == to@,
{
    let f = ethernet_frame(p, Some(mac));
    if p.dest_node == Node::EtherTalkPhase2(to) && (p.protocol == DataLinkProtocol::Ddp || p.protocol
        == DataLinkProtocol::Aarp) {
        assert(f.skip(22) =~= p.payload@);
        assert(f.take(6) =~= to@);
        assert(f.subrange(6, 12) =~= mac@);
    }
    if p.dest_node == Node::EtherTalkPhase1(to) {
        if p.protocol == DataLinkProtocol::Ddp {
            assert(f.skip(17) =~= p.payload@);
            assert(f.take(6) =~= to@);
        } else if p.protocol == DataLinkProtocol::Aarp {
            assert(f.skip(14) =~= p.payload@);
            assert(f.take(6) =~= to@);
        }
    }
}

/// A frame is filled up with zeros to sixty bytes.
pub proof fn law_short_frames_end_with_zeros(frame: Seq<u8>)
    ensures
        padded(frame).take(frame.len() as int) == frame,
        padded(frame).len() >= 60,
        frame.len() >= 60 ==> padded(frame) == frame,
        frame.len() <= 60 ==> padded(frame).len() == 60,
        forall|k: int| frame.len() <= k < padded(frame).len() ==> #[trigger] padded(frame)[k] == 0,
{
    assert(padded(frame).take(frame.len() as int) =~= frame);
    if frame.len() >= 60 {
        assert(padded(frame) =~= frame);
    }
}

/// An adapter is set up in one order: it is opened, reset, told its features,
/// asked for its address, and told its node before it goes online.
pub proof fn law_adapter_is_set_up_in_order(first_connect: bool, node: u8)
    ensures
        adapter_step(AdapterState::Opening, first_connect, AdapterEvent::Done) == (
            AdapterState::Resetting,
            ActionView::Reset,
        ),
        adapter_step(AdapterState::Resetting, first_connect, AdapterEvent::Done) == (
            AdapterState::SettingFeatures,
            ActionView::SetFeatures,
        ),
        adapter_step(AdapterState::SettingFeatures, first_connect, AdapterEvent::Done) == (
            AdapterState::AskingAddress,
            ActionView::AskAddress,
        ),
        adapter_step(AdapterState::AskingAddress, first_connect, AdapterEvent::Address(node)).0
            == AdapterState::SettingNodes,
        adapter_step(AdapterState::SettingNodes, first_connect, AdapterEvent::Done) == (
            AdapterState::Online,
            ActionView::GoOnline,
        ),
        adapter_step(AdapterState::Opening, first_connect, AdapterEvent::Failed) == (
            AdapterState::Opening,
            (ActionView::WaitAndOpen { warn: first_connect }),
        ),
        forall|s: AdapterState|
            #![trigger adapter_step(s, first_connect, AdapterEvent::Failed)]
            {
                let step = adapter_step(s, first_connect, AdapterEvent::Failed);
                &&& step.0 == AdapterState::Opening
                &&& s == AdapterState::Online || s == AdapterState::Sending || s == AdapterState::ChangingNodes
                    ==> step.1 == ActionView::GoOffline
                &&& s == AdapterState::Resetting || s == AdapterState::SettingFeatures || s == AdapterState::AskingAddress
                    || s == AdapterState::SettingNodes ==> step.1 == ActionView::Open
            },
{
}

/// An adapter that is online sends what is to be sent, takes a new address, and
/// listens otherwise; only while it is online it sends.
pub proof fn law_online_adapter_serves(first_connect: bool, node: u8, s: AdapterState, e: AdapterEvent)
    ensures
        adapter_step(AdapterState::Online, first_connect, AdapterEvent::FrameToSend) == (
            AdapterState::Sending,
            ActionView::Send,
        ),
        adapter_step(AdapterState::Online, first_connect, AdapterEvent::FrameReceived) == (
            AdapterState::Online,
            ActionView::Listen,
        ),
        adapter_step(AdapterState::Online, first_connect, AdapterEvent::WatchEnded) == (
            AdapterState::Online,
            ActionView::Listen,
        ),
        adapter_step(AdapterState::Online, first_connect, AdapterEvent::AddressChanged(None)) == (
            AdapterState::Online,
            ActionView::Listen,
        ),
        adapter_step(AdapterState::Online, first_connect, AdapterEvent::AddressChanged(Some(node))).0
            == AdapterState::ChangingNodes,
        adapter_step(AdapterState::ChangingNodes, first_connect, AdapterEvent::Done) == (
            AdapterState::Online,
            ActionView::Listen,
        ),
        adapter_step(AdapterState::Sending, first_connect, AdapterEvent::Done) == (
            AdapterState::Online,
            ActionView::Listen,
        ),
        adapter_step(s, first_connect, e).1 == ActionView::Send ==> s == AdapterState::Online && e
            == AdapterEvent::FrameToSend,
{
}

/// The nodes that an adapter is told are those that answer to the address: just
/// the bit of the node is set.
pub proof fn law_adapter_listens_for_its_node(first_connect: bool, node: u8, other: u8)
    ensures
        adapter_step(AdapterState::AskingAddress, first_connect, AdapterEvent::Address(node)).1 matches ActionView::SetNodes(
            bits,
        ) && bits.len() == 32 && ((((bits[(other / 8) as int] >> (other % 8)) & 1) == 1) == (other == node)),
        adapter_step(AdapterState::Online, first_connect, AdapterEvent::AddressChanged(Some(node))).1
            matches ActionView::SetNodes(bits) && bits.len() == 32 && ((((bits[(other / 8) as int] >> (other % 8)) & 1)
            == 1) == (other == node)),
{
    law_node_table_has_one_bit(node, other);
}

/// A capture file starts with its mark, version 2.4, no correction of the time,
/// frames of up to 65535 bytes, and the number of LocalTalk, each with its first
/// byte counting for least.
pub proof fn law_capture_file_starts_with_its_mark()
    ensures
        ({
            let h = pcap_header();
            &&& h.len() == 24
            &&& h[0] == 0xD4 && h[1] == 0xC3 && h[2] == 0xB2 && h[3] == 0xA1
            &&& h[4] == 2 && h[5] == 0 && h[6] == 4 && h[7] == 0
            &&& forall|k: int| 8 <= k < 16 ==> #[trigger] h[k] == 0
            &&& h[16] == 255 && h[17] == 255 && h[18] == 0 && h[19] == 0
            &&& h[20] == 114 && h[21] == 0 && h[22] == 0 && h[23] == 0
        }),
{
}

/// A frame in a capture file is preceded by its time, in seconds and
/// microseconds, and by its length, twice.
pub proof fn law_captured_frame_has_its_time(secs: u64, micros: u32, len: nat)
    ensures
        ({
            let r = pcap_record(secs, micros, len);
            &&& r.len() == 16
            &&& r[0] + r[1] * 256 + r[2] * 65536 + r[3] * 16777216 == secs % 0x1_0000_0000
            &&& r[4] + r[5] * 256 + r[6] * 65536 + r[7] * 16777216 == micros
            &&& r[8] + r[9] * 256 + r[10] * 65536 + r[11] * 16777216 == len % 0x1_0000_0000
            &&& r[12] + r[13] * 256 + r[14] * 65536 + r[15] * 16777216 == len % 0x1_0000_0000
        }),
{
    law_bytes_count_by_their_place(0, low32(secs as nat));
    law_bytes_count_by_their_place(0, micros);
    law_bytes_count_by_their_place(0, low32(len));
}

/// No frame is longer than 1500 bytes: a datagram fits on LocalTalk with its
/// header of 3 bytes, on Ethernet with one of 17 or 22, and an AARP packet with one
/// of 14 or 22.
pub proof fn law_frames_fit_in_1500(p: DataLinkPacket, mac: EthernetMac, to: EthernetMac, node: u8)
    ensures
        p.dest_node == Node::LocalTalk(node) && p.protocol == DataLinkProtocol::Ddp ==> (fits_frame(p, Some(mac))
            <==> p.payload@.len() <= 1497),
        p.dest_node == Node::LocalTalk(node) && p.protocol != DataLinkProtocol::Ddp ==> fits_frame(p, Some(mac)),
        p.dest_node == Node::EtherTalkPhase1(to) && p.protocol == DataLinkProtocol::Ddp ==> (fits_frame(p, Some(mac))
            <==> p.payload@.len() <= 1483),
        p.dest_node == Node::EtherTalkPhase1(to) && p.protocol == DataLinkProtocol::Aarp ==> (fits_frame(p, Some(mac))
            <==> p.payload@.len() <= 1486),
        p.dest_node == Node::EtherTalkPhase2(to) && (p.protocol == DataLinkProtocol::Ddp || p.protocol
            == DataLinkProtocol::Aarp) ==> (fits_frame(p, Some(mac)) <==> p.payload@.len() <= 1478),
{
}

/// What an adapter is to do is told by what its actions hold.
pub proof fn law_adapter_actions_are_told(a: AdapterAction)
    ensures
        match a {
            AdapterAction::Open => a@ == ActionView::Open,
            AdapterAction::WaitAndOpen { warn } => a@ is WaitAndOpen && a@->warn == warn,
            AdapterAction::Reset => a@ == ActionView::Reset,
            AdapterAction::SetFeatures => a@ == ActionView::SetFeatures,
            AdapterAction::AskAddress => a@ == ActionView::AskAddress,
            AdapterAction::SetNodes(bits) => a@ is SetNodes && a@->SetNodes_0 == bits@,
            AdapterAction::GoOnline => a@ == ActionView::GoOnline,
            AdapterAction::Listen => a@ == ActionView::Listen,
            AdapterAction::Send => a@ == ActionView::Send,
            AdapterAction::GoOffline => a@ == ActionView::GoOffline,
        },
{
}

} // verus!

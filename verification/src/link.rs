//! Packets on their way to a link.

use crate::addressing::Node;
use vstd::prelude::*;

verus! {

/// What a link frame carries.
#[derive(Debug, Clone, Copy, PartialEq, Eq, Structural)]
pub enum DataLinkProtocol {
    Ddp,
    Aarp,
    LlapEnq,
    LlapAck,
}

/// A packet on its way to a link.
#[derive(Debug)]
pub struct DataLinkPacket {
    pub dest_node: Node,
    pub protocol: DataLinkProtocol,
    pub payload: Vec<u8>,
    /// Our own LocalTalk node, zero for Ethernet destinations.
    pub src_node_id: u8,
    /// For a datagram on LocalTalk: whether its header is the long one.
    pub ddp_long: bool,
}

/// An LLAP enquiry about a node, in the node's own name.
pub fn llap_enquiry(node: u8) -> (p: DataLinkPacket)
    ensures
        p.dest_node == Node::LocalTalk(node),
        p.protocol == DataLinkProtocol::LlapEnq,
        p.payload@ == Seq::<u8>::empty(),
        p.src_node_id == node,
        !p.ddp_long,
{
    DataLinkPacket {
        dest_node: Node::LocalTalk(node),
        protocol: DataLinkProtocol::LlapEnq,
        payload: Vec::new(),
        src_node_id: node,
        ddp_long: false,
    }
}

/// An LLAP acknowledgement that a node is in use.
pub fn llap_acknowledgement(node: u8) -> (p: DataLinkPacket)
    ensures
        p.dest_node == Node::LocalTalk(node),
        p.protocol == DataLinkProtocol::LlapAck,
        p.payload@ == Seq::<u8>::empty(),
        p.src_node_id == node,
        !p.ddp_long,
{
    DataLinkPacket {
        dest_node: Node::LocalTalk(node),
        protocol: DataLinkProtocol::LlapAck,
        payload: Vec::new(),
        src_node_id: node,
        ddp_long: false,
    }
}

/// An AARP packet, already serialised, on its way to a node.
pub fn aarp_packet(dest_node: Node, payload: Vec<u8>) -> (p: DataLinkPacket)
    ensures
        p.dest_node == dest_node,
        p.protocol == DataLinkProtocol::Aarp,
        p.payload@ == payload@,
        p.src_node_id == 0,
        !p.ddp_long,
{
    DataLinkPacket { dest_node, protocol: DataLinkProtocol::Aarp, payload, src_node_id: 0, ddp_long: false }
}

} // verus!

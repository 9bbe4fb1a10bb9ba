//! The typed KRPC messages that the node handles: the five queries it
//! answers and the replies it sends and receives.
use vstd::prelude::*;
use crate::addr::{Addr, Node};
use crate::id::Id;

verus! {

/// What a query asks for.
#[derive(Debug)]
pub enum RequestKind {
    Ping,
    FindNode { target: Id },
    GetPeers { info_hash: Id },
    AnnouncePeer { info_hash: Id, port: u16, implied_port: bool, token: Vec<u8> },
    SampleInfoHashes { target: Id },
}

/// A query from another node.
#[derive(Debug)]
pub struct Request {
    pub transaction_id: Vec<u8>,
    pub requester_id: Id,
    /// The sender runs in read-only mode and must not enter routing tables.
    pub read_only: bool,
    pub kind: RequestKind,
}

/// What a `get_peers` reply carries besides its token.
#[derive(Debug)]
pub enum PeersOrNodes {
    Peers(Vec<Addr>),
    Nodes(Vec<Node>),
}

/// What a reply carries. An `announce_peer` is acknowledged with `Ping`.
#[derive(Debug)]
pub enum ResponseKind {
    Ping,
    FindNode { nodes: Vec<Node> },
    GetPeers { token: Vec<u8>, values: PeersOrNodes },
    SampleInfoHashes { interval: u64, nodes: Vec<Node>, samples: Vec<Id>, num: usize },
}

/// A reply, ours or another node's.
#[derive(Debug)]
pub struct Response {
    pub transaction_id: Vec<u8>,
    pub responder_id: Id,
    /// The address the responder saw the query come from.
    pub requester_ip: Option<Addr>,
    pub kind: ResponseKind,
}

} // verus!

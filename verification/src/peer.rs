//! A known peer, and the messages a node sends to one.
use vstd::prelude::*;
use crate::protocols::{
    spec_encode_base, spec_encode_handshake, Base, BaseView, Handshake, ProtoImpl, KIND_HANDSHAKE,
    KIND_PING, KIND_PONG,
};

verus! {

/// Who opened the connection to a peer, if there is one.
#[allow(non_camel_case_types)]
#[derive(Debug, PartialEq, Eq, Clone, Copy, Structural)]
pub enum PeerDirection {
    UNKNOWN,
    INBOUND,
    OUTBOUND,
}

/// A peer the node knows of: the port it listens on, when it was last heard
/// from (seconds since the Unix epoch), who opened the connection, and the
/// sending end of the connection, if one is open. `T` is that sending end.
#[derive(Debug)]
pub struct Peer<T> {
    pub port: u16,
    pub ts: u64,
    pub direction: PeerDirection,
    pub tx: Option<T>,
}

/// The message that announces that a node listens on `port`.
pub open spec fn spec_handshake_message(port: u16) -> Seq<u8> {
    spec_encode_base(
        BaseView {
            kind: KIND_HANDSHAKE@,
            data: spec_encode_handshake(Handshake { port: port as u32 }),
        },
    )
}

/// A ping.
pub open spec fn spec_ping_message() -> Seq<u8> {
    spec_encode_base(BaseView { kind: KIND_PING@, data: Seq::empty() })
}

/// A pong.
pub open spec fn spec_pong_message() -> Seq<u8> {
    spec_encode_base(BaseView { kind: KIND_PONG@, data: Seq::empty() })
}

/// The encoded handshake announcing `port`.
pub fn handshake_message(port: u16) -> (r: Vec<u8>)
    ensures
        r@ == spec_handshake_message(port),
{
    let data = Handshake { port: port as u32 }.to_bytes();
    Base { kind: KIND_HANDSHAKE.to_owned(), data }.to_bytes()
}

/// The encoded ping.
pub fn ping_message() -> (r: Vec<u8>)
    ensures
        r@ == spec_ping_message(),
{
    Base { kind: KIND_PING.to_owned(), data: Vec::new() }.to_bytes()
}

/// The encoded pong.
pub fn pong_message() -> (r: Vec<u8>)
    ensures
        r@ == spec_pong_message(),
{
    Base { kind: KIND_PONG.to_owned(), data: Vec::new() }.to_bytes()
}

impl<T> Peer<T> {
    /// The handshake to send this peer, announcing that this node listens
    /// on `port`; `None` when no connection to it is open.
    pub fn send_handshake(&self, port: u16) -> (r: Option<Vec<u8>>)
        ensures
            r is Some <==> self.tx is Some,
            r matches Some(msg) ==> msg@ == spec_handshake_message(port),
    {
        if self.tx.is_some() {
            Some(handshake_message(port))
        } else {
            None
        }
    }

    /// The ping to send this peer; `None` when no connection to it is open.
    pub fn send_ping(&self) -> (r: Option<Vec<u8>>)
        ensures
            r is Some <==> self.tx is Some,
            r matches Some(msg) ==> msg@ == spec_ping_message(),
    {
        if self.tx.is_some() {
            Some(ping_message())
        } else {
            None
        }
    }

    /// The pong to send this peer; `None` when no connection to it is open.
    pub fn send_pong(&self) -> (r: Option<Vec<u8>>)
        ensures
            r is Some <==> self.tx is Some,
            r matches Some(msg) ==> msg@ == spec_pong_message(),
    {
        if self.tx.is_some() {
            Some(pong_message())
        } else {
            None
        }
    }
}

} // verus!

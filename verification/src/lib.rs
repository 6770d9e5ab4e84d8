//! A small peer-to-peer node: a protobuf-framed message protocol, the
//! table of known peers, and the rules by which a node answers messages.
pub mod varint;
pub mod wire;
pub mod protocols;
pub mod peer;
pub mod utils;
pub mod node;

//! A verified codec for a length-prefixed, packet-oriented block-game
//! network protocol: variable-length integers, wire-type field codecs,
//! a typed packet catalog per connection state, and the connection
//! state machine that frames and dispatches packets.

pub mod error;
pub mod reader;
pub mod varint;
pub mod codec;
pub mod nbtio;
pub mod types;
pub mod packets;
pub mod connection;
pub mod mesh;

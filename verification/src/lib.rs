//! A binary wire-protocol codec layer: typed values to and from byte
//! sequences, with bit-exact framing rules, verified end to end.

pub mod bytes;
pub mod containers;
pub mod ident;
pub mod numbytes;
pub mod packet;
pub mod packet_default;
pub mod payload;
pub mod position;
pub mod protocol;
pub mod text;
pub mod varnum;

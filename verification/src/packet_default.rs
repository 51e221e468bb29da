use vstd::prelude::*;

use crate::bytes::OutputByteQueue;
use crate::packet::PacketWritable;
use crate::protocol::{Writable, WriteError};
use crate::varnum::{var_encode, VarInt};
use crate::text::string_wire;
use crate::numbytes::le_of;

verus! {

/// The first packet of a connection: protocol version, server address and
/// port, and the protocol state asked for next. The two integers travel as
/// VarInts.
#[derive(Clone, Debug, PartialEq)]
pub struct HandshakePacket {
    pub protocol_version: i32,
    pub server_address: String,
    pub server_port: u16,
    pub next_state: i32,
}

impl PacketWritable for HandshakePacket {
    open spec fn packet_wire(&self) -> Seq<u8> {
        var_encode((self.protocol_version as u32) as nat) + string_wire(self.server_address@)
            + le_of(self.server_port as nat, 2) + var_encode((self.next_state as u32) as nat)
    }

    fn write(&self, write: &mut OutputByteQueue) -> (r: Result<(), WriteError>) {
        let _ = VarInt(self.protocol_version).write(write);
        let _ = self.server_address.write(write);
        let _ = self.server_port.write(write);
        let _ = VarInt(self.next_state).write(write);
        proof {
            let a = var_encode((self.protocol_version as u32) as nat);
            let b = string_wire(self.server_address@);
            let c = le_of(self.server_port as nat, 2);
            let d = var_encode((self.next_state as u32) as nat);
            assert((((old(write)@ + a) + b) + c) + d =~= old(write)@ + (a + b + c + d));
        }
        Ok(())
    }
}

} // verus!

//! Reading a CONNECT packet from the very first byte of a connection.

use vstd::prelude::*;
use super::PacketError;
pub use super::connect::ConnectPacket;
use super::connect::{ConnectView, spec_read_connect};

verus! {

/// Reading a whole CONNECT packet, fixed header byte included.
pub open spec fn spec_read_connect_from_stream(stream: Seq<u8>) -> Result<ConnectView, PacketError> {
    if stream.len() == 0 {
        Err(PacketError::UnexpectedEof)
    } else {
        spec_read_connect(stream.drop_first(), stream[0])
    }
}

impl ConnectPacket {
    /// Reads a CONNECT packet from the start of `stream`, fixed header byte included.
    pub fn read_from_stream(stream: &[u8]) -> (res: Result<ConnectPacket, PacketError>)
        ensures
            match res {
                Ok(packet) => spec_read_connect_from_stream(stream@) == Ok::<ConnectView, PacketError>(packet@),
                Err(e) => spec_read_connect_from_stream(stream@) == Err::<ConnectView, PacketError>(e),
            },
    {
        if stream.len() == 0 {
            return Err(PacketError::UnexpectedEof);
        }
        let packet_type = stream[0];
        let rest = &stream[1..stream.len()];
        assert(rest@ =~= stream@.drop_first());
        ConnectPacket::read(rest, packet_type)
    }
}

} // verus!

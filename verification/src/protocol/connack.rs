//! CONNACK: the broker's answer to a CONNECT.

use vstd::prelude::*;

verus! {

/// MQTT CONNACK packet, sent by the broker to acknowledge a connection request.
///
/// Fixed header: packet type 2 with flags 0000; variable header: the
/// acknowledge flags and the return code; no payload.
#[derive(Debug, Clone, Copy)]
pub struct ConnackPacket {
    /// Whether the server holds a stored session for this client.
    pub session_present: bool,
    /// Connect return code: 0x00 accepted, 0x01 unacceptable protocol version,
    /// 0x02 identifier rejected, 0x03 server unavailable, 0x04 bad user name
    /// or password, 0x05 not authorized.
    pub return_code: u8,
}

/// The four bytes of a CONNACK: type, remaining length 2, the session-present
/// flag in bit 0 of the acknowledge flags, and the return code.
pub open spec fn connack_bytes(session_present: bool, return_code: u8) -> Seq<u8> {
    seq![0x20u8, 0x02u8, if session_present { 0x01u8 } else { 0x00u8 }, return_code]
}

impl ConnackPacket {
    /// A CONNACK that accepts the connection, with no stored session.
    pub fn accepted() -> (packet: Self)
        ensures
            !packet.session_present,
            packet.return_code == 0,
    {
        ConnackPacket { session_present: false, return_code: 0x00 }
    }

    /// A CONNACK with the given return code and session-present flag.
    pub fn with_return_code(return_code: u8, session_present: bool) -> (packet: Self)
        ensures
            packet.session_present == session_present,
            packet.return_code == return_code,
    {
        ConnackPacket { session_present, return_code }
    }

    /// The bytes that send this packet.
    pub fn encode(&self) -> (bytes: Vec<u8>)
        ensures
            bytes@ == connack_bytes(self.session_present, self.return_code),
    {
        let mut buffer: Vec<u8> = Vec::new();
        buffer.push(0x20);
        super::encode_remaining_length(&mut buffer, 2);
        let ack_flags: u8 = if self.session_present { 0x01 } else { 0x00 };
        buffer.push(ack_flags);
        buffer.push(self.return_code);
        proof {
            assert(super::remaining_length_bytes(2) == seq![2u8]);
        }
        assert(buffer@ =~= connack_bytes(self.session_present, self.return_code));
        buffer
    }
}

} // verus!

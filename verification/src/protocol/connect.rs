//! CONNECT: the first packet of every client connection.

use vstd::prelude::*;
use super::{
    PacketError, decode_remaining_length, read_u16, read_utf8_string, spec_read_string,
    spec_read_u16, spec_remaining_length,
};

verus! {

/// MQTT CONNECT packet: the fields the broker reads from it.
#[derive(Debug, Clone)]
pub struct ConnectPacket {
    pub protocol_name: String,
    pub protocol_level: u8,
    pub client_id: String,
    pub clean_session: bool,
    pub keep_alive: u16,
}

/// A CONNECT packet as a value: its strings as characters.
pub struct ConnectView {
    pub protocol_name: Seq<char>,
    pub protocol_level: u8,
    pub client_id: Seq<char>,
    pub clean_session: bool,
    pub keep_alive: u16,
}

impl View for ConnectPacket {
    type V = ConnectView;

    open spec fn view(&self) -> ConnectView {
        ConnectView {
            protocol_name: self.protocol_name@,
            protocol_level: self.protocol_level,
            client_id: self.client_id@,
            clean_session: self.clean_session,
            keep_alive: self.keep_alive,
        }
    }
}

/// Reading a CONNECT whose fixed header byte is `header` and whose remaining
/// length starts `stream`: after the remaining length (whose value is not
/// used) come the protocol name, the protocol level, the connect flags (bit 1:
/// clean session), the keep-alive interval and the client identifier.
pub open spec fn spec_read_connect(stream: Seq<u8>, header: u8) -> Result<ConnectView, PacketError> {
    if header / 16 != 1 {
        Err(PacketError::UnexpectedPacketType)
    } else {
        match spec_remaining_length(stream) {
            Err(e) => Err(e),
            Ok((length, n)) => match spec_read_string(stream, n as int) {
                Err(e) => Err(e),
                Ok((protocol_name, p)) => if p + 2 > stream.len() {
                    Err(PacketError::UnexpectedEof)
                } else {
                    match spec_read_u16(stream, p + 2) {
                        Err(e) => Err(e),
                        Ok(keep_alive) => match spec_read_string(stream, p + 4) {
                            Err(e) => Err(e),
                            Ok((client_id, q)) => Ok(ConnectView {
                                protocol_name,
                                protocol_level: stream[p],
                                client_id,
                                clean_session: (stream[p + 1] / 2) % 2 == 1,
                                keep_alive,
                            }),
                        },
                    }
                },
            },
        }
    }
}

/// What a CONNECT reads to, field by field: after the remaining length and
/// the protocol name come the protocol level byte, the connect flags byte
/// whose bit 1 alone is the clean-session flag, the big-endian keep-alive
/// interval, and the client identifier.
pub proof fn lemma_connect_fields(stream: Seq<u8>, header: u8)
    ensures
        spec_read_connect(stream, header) matches Ok(v) ==> {
            &&& header / 16 == 1
            &&& spec_remaining_length(stream) matches Ok((length, n))
            &&& spec_read_string(stream, n as int) matches Ok((name, p)) && {
                &&& v.protocol_name == name
                &&& p + 4 <= stream.len()
                &&& v.protocol_level == stream[p]
                &&& v.clean_session == (stream[p + 1] & 2u8 == 2u8)
                &&& v.keep_alive as int == stream[p + 2] as int * 256 + stream[p + 3] as int
                &&& spec_read_string(stream, p + 4) matches Ok((id, q)) && v.client_id == id
            }
        },
{
    if spec_read_connect(stream, header) is Ok {
        let (length, n) = spec_remaining_length(stream)->Ok_0;
        let (name, p) = spec_read_string(stream, n as int)->Ok_0;
        let flags = stream[p + 1];
        assert(((flags / 2) % 2 == 1) == (flags & 2u8 == 2u8)) by (bit_vector);
        let hi = stream[p + 2];
        let lo = stream[p + 3];
        assert(super::be_u16(hi, lo) as int == hi as int * 256 + lo as int) by {
            assert(hi as int * 256 + lo as int <= 65535);
        }
    }
}

impl ConnectPacket {
    /// Reads a CONNECT: `fixed_header` is the packet's first byte, already
    /// read; `stream` holds what follows it.
    pub fn read(stream: &[u8], fixed_header: u8) -> (res: Result<ConnectPacket, PacketError>)
        ensures
            match res {
                Ok(packet) => spec_read_connect(stream@, fixed_header) == Ok::<ConnectView, PacketError>(packet@),
                Err(e) => spec_read_connect(stream@, fixed_header) == Err::<ConnectView, PacketError>(e),
            },
    {
        assert(fixed_header >> 4 == fixed_header / 16) by (bit_vector);
        if (fixed_header >> 4) != 1 {
            return Err(PacketError::UnexpectedPacketType);
        }
        let (_remaining_length, used) = match decode_remaining_length(stream) {
            Ok(r) => r,
            Err(e) => return Err(e),
        };
        let (protocol_name, pos) = match read_utf8_string(stream, used) {
            Ok(r) => r,
            Err(e) => return Err(e),
        };
        if pos >= stream.len() || stream.len() - pos < 2 {
            return Err(PacketError::UnexpectedEof);
        }
        let protocol_level = stream[pos];
        let connect_flags = stream[pos + 1];
        let clean_session = (connect_flags & 0b0000_0010) != 0;
        assert((connect_flags & 2 != 0) == ((connect_flags / 2) % 2 == 1)) by (bit_vector);
        let keep_alive = match read_u16(stream, pos + 2) {
            Ok(v) => v,
            Err(e) => return Err(e),
        };
        let (client_id, _end) = match read_utf8_string(stream, pos + 4) {
            Ok(r) => r,
            Err(e) => return Err(e),
        };
        Ok(ConnectPacket { protocol_name, protocol_level, client_id, clean_session, keep_alive })
    }
}

} // verus!

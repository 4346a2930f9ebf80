//! PUBACK: the acknowledgement of a QoS 1 PUBLISH.

use vstd::prelude::*;
use super::{
    PacketError, decode_remaining_length, encode_remaining_length, lemma_remaining_length_prefix,
    push_u16, read_u16, remaining_length_bytes, spec_read_u16, spec_remaining_length, u16_bytes,
};

verus! {

/// MQTT PUBACK packet, sent in response to a PUBLISH with QoS 1.
///
/// Fixed header: packet type 4 with flags 0000; variable header: the packet
/// identifier of the PUBLISH it acknowledges; no payload.
#[derive(Debug, Clone, Copy)]
pub struct PubackPacket {
    /// Packet identifier (the one of the acknowledged PUBLISH).
    pub packet_id: u16,
}

/// The four bytes of a PUBACK for `packet_id`.
pub open spec fn puback_bytes(packet_id: u16) -> Seq<u8> {
    seq![0x40u8, 0x02u8] + u16_bytes(packet_id)
}

/// Reading a PUBACK whose fixed header byte is `header` and whose remaining
/// length starts `stream`: the packet identifier it carries.
pub open spec fn spec_read_puback(stream: Seq<u8>, header: u8) -> Result<u16, PacketError> {
    if header / 16 != 4 {
        Err(PacketError::UnexpectedPacketType)
    } else if header % 16 != 0 {
        Err(PacketError::InvalidFlags)
    } else {
        match spec_remaining_length(stream) {
            Err(e) => Err(e),
            Ok((length, n)) => if length != 2 {
                Err(PacketError::InvalidRemainingLength)
            } else {
                spec_read_u16(stream, n as int)
            },
        }
    }
}

impl PubackPacket {
    /// Reads a PUBACK: `fixed_header` is the packet's first byte, already
    /// read; `stream` holds what follows it.
    pub fn read(stream: &[u8], fixed_header: u8) -> (res: Result<PubackPacket, PacketError>)
        ensures
            match res {
                Ok(packet) => spec_read_puback(stream@, fixed_header) == Ok::<u16, PacketError>(packet.packet_id),
                Err(e) => spec_read_puback(stream@, fixed_header) == Err::<u16, PacketError>(e),
            },
    {
        let packet_type = fixed_header >> 4;
        assert(fixed_header >> 4 == fixed_header / 16) by (bit_vector);
        if packet_type != 4 {
            return Err(PacketError::UnexpectedPacketType);
        }
        let flags = fixed_header & 0x0F;
        assert(fixed_header & 0x0F == fixed_header % 16) by (bit_vector);
        if flags != 0 {
            return Err(PacketError::InvalidFlags);
        }
        let (remaining_length, used) = match decode_remaining_length(stream) {
            Ok(r) => r,
            Err(e) => return Err(e),
        };
        if remaining_length != 2 {
            return Err(PacketError::InvalidRemainingLength);
        }
        match read_u16(stream, used) {
            Ok(packet_id) => Ok(PubackPacket { packet_id }),
            Err(e) => Err(e),
        }
    }

    /// The bytes that send this packet.
    pub fn encode(&self) -> (bytes: Vec<u8>)
        ensures
            bytes@ == puback_bytes(self.packet_id),
    {
        let mut buffer: Vec<u8> = Vec::new();
        buffer.push(0x40);
        encode_remaining_length(&mut buffer, 2);
        push_u16(&mut buffer, self.packet_id);
        assert(remaining_length_bytes(2) == seq![2u8]);
        assert(buffer@ =~= puback_bytes(self.packet_id));
        buffer
    }
}

/// Reading the encoding of a PUBACK gives back its packet identifier, whatever follows it.
pub proof fn lemma_puback_roundtrip(packet_id: u16, rest: Seq<u8>)
    ensures
        spec_read_puback(puback_bytes(packet_id).drop_first() + rest, puback_bytes(packet_id)[0])
            == Ok::<u16, PacketError>(packet_id),
{
    let s = puback_bytes(packet_id).drop_first() + rest;
    assert(s =~= seq![0x02u8] + (u16_bytes(packet_id) + rest));
    assert(seq![0x02u8] =~= remaining_length_bytes(2));
    super::lemma_remaining_length_roundtrip(2, u16_bytes(packet_id) + rest);
    assert(s[1] == (packet_id / 256) as u8);
    assert(s[2] == (packet_id % 256) as u8);
}

} // verus!

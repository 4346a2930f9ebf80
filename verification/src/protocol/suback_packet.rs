//! SUBACK: the broker's answer to a SUBSCRIBE.

use vstd::prelude::*;
use super::{
    PacketError, append_bytes, encode_remaining_length, push_u16, remaining_length_bytes,
    spec_remaining_length, u16_bytes,
};

verus! {

/// MQTT SUBACK packet, sent by the broker in response to a SUBSCRIBE.
///
/// Fixed header: packet type 9 with flags 0000; variable header: the packet
/// identifier of the SUBSCRIBE; payload: one return code per subscription.
#[derive(Debug, Clone)]
pub struct SubackPacket {
    /// Packet identifier (the one of the SUBSCRIBE it answers).
    pub packet_id: u16,
    /// One return code per subscription: 0x00, 0x01 or 0x02 for success with
    /// that maximum QoS, 0x80 for failure.
    pub return_codes: Vec<u8>,
}

/// The bytes of a SUBACK for `packet_id` with `return_codes`.
pub open spec fn suback_bytes(packet_id: u16, return_codes: Seq<u8>) -> Seq<u8> {
    seq![0x90u8] + remaining_length_bytes(2 + return_codes.len()) + u16_bytes(packet_id) + return_codes
}

/// A SUBACK starts with its type byte 0x90; its remaining length reads back
/// as two plus the number of return codes; the two bytes after it are the
/// packet identifier, big-endian; the return codes follow and end the packet.
pub proof fn lemma_suback_layout(packet_id: u16, return_codes: Seq<u8>)
    requires
        return_codes.len() + 2 < 268435456,
    ensures
        suback_bytes(packet_id, return_codes)[0] == 0x90,
        spec_remaining_length(suback_bytes(packet_id, return_codes).drop_first()) matches Ok((length, n)) && {
            let b = suback_bytes(packet_id, return_codes);
            &&& length == 2 + return_codes.len()
            &&& b.len() == 1 + n + length
            &&& b[1 + n as int] as int * 256 + b[2 + n as int] as int == packet_id as int
            &&& b.subrange(3 + n as int, b.len() as int) == return_codes
        },
{
    let b = suback_bytes(packet_id, return_codes);
    let length = (2 + return_codes.len()) as nat;
    let rl = remaining_length_bytes(length);
    let id = u16_bytes(packet_id);
    assert(b.drop_first() =~= rl + (id + return_codes));
    super::lemma_remaining_length_roundtrip(length, id + return_codes);
    let n = rl.len() as int;
    assert(b[1 + n] == id[0]);
    assert(b[2 + n] == id[1]);
    assert(id[0] as int * 256 + id[1] as int == packet_id as int);
    assert(b.subrange(3 + n, b.len() as int) =~= return_codes);
}

impl SubackPacket {
    /// A SUBACK that grants all `count` subscriptions at QoS 0.
    pub fn success_qos0(packet_id: u16, count: usize) -> (packet: Self)
        ensures
            packet.packet_id == packet_id,
            packet.return_codes@ == Seq::new(count as nat, |i: int| 0x00u8),
    {
        let mut return_codes: Vec<u8> = Vec::new();
        let mut i: usize = 0;
        while i < count
            invariant
                i <= count,
                return_codes@ == Seq::new(i as nat, |j: int| 0x00u8),
            decreases count - i,
        {
            return_codes.push(0x00);
            assert(return_codes@ =~= Seq::new((i + 1) as nat, |j: int| 0x00u8));
            i = i + 1;
        }
        SubackPacket { packet_id, return_codes }
    }

    /// The bytes that send this packet.
    pub fn encode(&self) -> (bytes: Vec<u8>)
        requires
            self.return_codes.len() + 2 <= usize::MAX,
        ensures
            bytes@ == suback_bytes(self.packet_id, self.return_codes@),
    {
        let mut buffer: Vec<u8> = Vec::new();
        buffer.push(0x90);
        let remaining_length = 2 + self.return_codes.len();
        encode_remaining_length(&mut buffer, remaining_length);
        push_u16(&mut buffer, self.packet_id);
        append_bytes(&mut buffer, self.return_codes.as_slice());
        assert(buffer@ =~= suback_bytes(self.packet_id, self.return_codes@));
        buffer
    }
}

} // verus!

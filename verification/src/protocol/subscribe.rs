//! SUBSCRIBE: a client's request for the messages of some topic filters.

use vstd::prelude::*;
use super::{
    PacketError, decode_remaining_length, read_u16, read_utf8_string, spec_read_string,
    spec_read_u16, spec_remaining_length,
};

verus! {

/// MQTT SUBSCRIBE packet, sent by a client to subscribe to topic filters.
/// The broker answers with a SUBACK.
///
/// Fixed header: packet type 8 with flags 0010; variable header: the packet
/// identifier; payload: topic filters, each with its requested QoS.
#[derive(Debug, Clone)]
pub struct SubscribePacket {
    /// Packet identifier.
    pub packet_id: u16,
    /// Topic filters to subscribe to, with their requested QoS.
    pub subscriptions: Vec<Subscription>,
}

/// One topic filter of a SUBSCRIBE packet.
#[derive(Debug, Clone)]
pub struct Subscription {
    /// Topic filter, which may hold the wildcards `+` (one level) and `#` (any levels below).
    pub topic_filter: String,
    /// Requested Quality of Service level (0, 1 or 2).
    pub qos: u8,
}

/// A SUBSCRIBE packet as a value: each subscription as its filter's characters and its QoS.
pub struct SubscribeView {
    pub packet_id: u16,
    pub subscriptions: Seq<(Seq<char>, u8)>,
}

impl View for Subscription {
    type V = (Seq<char>, u8);

    open spec fn view(&self) -> (Seq<char>, u8) {
        (self.topic_filter@, self.qos)
    }
}

impl View for SubscribePacket {
    type V = SubscribeView;

    open spec fn view(&self) -> SubscribeView {
        SubscribeView {
            packet_id: self.packet_id,
            subscriptions: self.subscriptions@.map_values(|s: Subscription| s@),
        }
    }
}

/// The subscriptions that start at `pos`, when `read` bytes of the `length`
/// announced have been read: each a string then a QoS byte, until at least
/// `length` bytes have been read.
pub open spec fn spec_read_subscriptions(s: Seq<u8>, pos: int, read: int, length: int) -> Result<Seq<(Seq<char>, u8)>, PacketError>
    decreases s.len() - pos,
{
    if read >= length {
        Ok(Seq::empty())
    } else {
        match spec_read_string(s, pos) {
            Err(e) => Err(e),
            Ok((filter, p)) => if p >= s.len() {
                Err(PacketError::UnexpectedEof)
            } else if s[p] > 2 {
                Err(PacketError::InvalidQos)
            } else {
                proof {
                    super::lemma_read_string_advances(s, pos);
                }
                match spec_read_subscriptions(s, p + 1, read + (p - pos) + 1, length) {
                    Err(e) => Err(e),
                    Ok(rest) => Ok(seq![(filter, s[p])] + rest),
                }
            },
        }
    }
}

/// Reading a SUBSCRIBE whose fixed header byte is `header` and whose remaining
/// length starts `stream`.
pub open spec fn spec_read_subscribe(stream: Seq<u8>, header: u8) -> Result<SubscribeView, PacketError> {
    if header / 16 != 8 {
        Err(PacketError::UnexpectedPacketType)
    } else if header % 16 != 2 {
        Err(PacketError::InvalidFlags)
    } else {
        match spec_remaining_length(stream) {
            Err(e) => Err(e),
            Ok((length, n)) => match spec_read_u16(stream, n as int) {
                Err(e) => Err(e),
                Ok(packet_id) => match spec_read_subscriptions(stream, n as int + 2, 2, length as int) {
                    Err(e) => Err(e),
                    Ok(subscriptions) => if subscriptions.len() == 0 {
                        Err(PacketError::NoSubscriptions)
                    } else {
                        Ok(SubscribeView { packet_id, subscriptions })
                    },
                },
            },
        }
    }
}

/// The packet identifier of a SUBSCRIBE is the big-endian 16-bit value of
/// the two bytes right after the remaining length, and every filter it holds
/// asks for a QoS of at most 2.
pub proof fn lemma_subscribe_packet_id(stream: Seq<u8>, header: u8)
    ensures
        spec_read_subscribe(stream, header) matches Ok(v) ==> {
            &&& spec_remaining_length(stream) matches Ok((length, n))
            &&& n + 2 <= stream.len()
            &&& v.packet_id as int == stream[n as int] as int * 256 + stream[n + 1int] as int
            &&& v.subscriptions.len() > 0
        },
{
    if spec_read_subscribe(stream, header) is Ok {
        let (length, n) = spec_remaining_length(stream)->Ok_0;
        let hi = stream[n as int];
        let lo = stream[n + 1int];
        assert(super::be_u16(hi, lo) as int == hi as int * 256 + lo as int) by {
            assert(hi as int * 256 + lo as int <= 65535);
        }
    }
}

/// What is read after `done` has already been read.
pub open spec fn after_read(done: Seq<(Seq<char>, u8)>, r: Result<Seq<(Seq<char>, u8)>, PacketError>) -> Result<Seq<(Seq<char>, u8)>, PacketError> {
    match r {
        Ok(rest) => Ok(done + rest),
        Err(e) => Err(e),
    }
}

impl SubscribePacket {
    /// Reads a SUBSCRIBE: `fixed_header` is the packet's first byte, already
    /// read; `stream` holds what follows it.
    pub fn read(stream: &[u8], fixed_header: u8) -> (res: Result<SubscribePacket, PacketError>)
        ensures
            match res {
                Ok(packet) => spec_read_subscribe(stream@, fixed_header) == Ok::<SubscribeView, PacketError>(packet@),
                Err(e) => spec_read_subscribe(stream@, fixed_header) == Err::<SubscribeView, PacketError>(e),
            },
            res matches Ok(packet) ==> packet.subscriptions@.len() + 3 <= stream@.len(),
    {
        let packet_type = fixed_header >> 4;
        assert(fixed_header >> 4 == fixed_header / 16) by (bit_vector);
        if packet_type != 8 {
            return Err(PacketError::UnexpectedPacketType);
        }
        let flags = fixed_header & 0x0F;
        assert(fixed_header & 0x0F == fixed_header % 16) by (bit_vector);
        if flags != 0b0010 {
            return Err(PacketError::InvalidFlags);
        }
        let (remaining_length, used) = match decode_remaining_length(stream) {
            Ok(r) => r,
            Err(e) => return Err(e),
        };
        let packet_id = match read_u16(stream, used) {
            Ok(id) => id,
            Err(e) => return Err(e),
        };
        proof {
            super::lemma_remaining_length_bound(stream@);
        }
        let ghost start = used + 2;
        let mut subscriptions: Vec<Subscription> = Vec::new();
        let mut bytes_read: usize = 2;
        let mut pos: usize = used + 2;
        while bytes_read < remaining_length
            invariant
                fixed_header / 16 == 8,
                fixed_header % 16 == 2,
                spec_remaining_length(stream@) == Ok::<(nat, nat), PacketError>((remaining_length as nat, used as nat)),
                spec_read_u16(stream@, used as int) == Ok::<u16, PacketError>(packet_id),
                start == used + 2,
                pos <= stream.len(),
                subscriptions@.len() + start <= pos,
                start >= 3,
                remaining_length < 268435456,
                bytes_read <= remaining_length + 65538,
                spec_read_subscriptions(stream@, start, 2, remaining_length as int) == after_read(
                    subscriptions@.map_values(|s: Subscription| s@),
                    spec_read_subscriptions(stream@, pos as int, bytes_read as int, remaining_length as int),
                ),
            decreases stream.len() - pos,
        {
            let ghost done = subscriptions@.map_values(|s: Subscription| s@);
            let (topic_filter, after) = match read_utf8_string(stream, pos) {
                Ok(r) => r,
                Err(e) => return Err(e),
            };
            if after >= stream.len() {
                return Err(PacketError::UnexpectedEof);
            }
            let qos = stream[after];
            if qos > 2 {
                return Err(PacketError::InvalidQos);
            }
            proof {
                assert(after >= pos);
                assert(after - pos <= 65537);
            }
            let ghost entry = (topic_filter@, qos);
            bytes_read = bytes_read + (after - pos) + 1;
            pos = after + 1;
            subscriptions.push(Subscription { topic_filter, qos });
            assert(subscriptions@.map_values(|s: Subscription| s@) =~= done + seq![entry]);
            assert(done + (seq![entry] + Seq::empty()) =~= done + seq![entry]);
            proof {
                match spec_read_subscriptions(stream@, pos as int, bytes_read as int, remaining_length as int) {
                    Ok(rest) => { assert(done + (seq![entry] + rest) =~= (done + seq![entry]) + rest); },
                    Err(e) => {},
                }
            }
        }
        if subscriptions.len() == 0 {
            return Err(PacketError::NoSubscriptions);
        }
        let packet = SubscribePacket { packet_id, subscriptions };
        assert(packet@.subscriptions =~= subscriptions@.map_values(|s: Subscription| s@) + Seq::empty());
        Ok(packet)
    }
}

} // verus!

//! PUBLISH: a message on a topic, from a client to the broker or back.

use vstd::prelude::*;
use vstd::utf8::*;
use super::{
    PacketError, append_bytes, copy_bytes, decode_remaining_length, encode_remaining_length,
    push_u16, read_utf8_string, remaining_length_bytes, spec_read_string, spec_remaining_length,
    u16_bytes, be_u16,
};

verus! {

/// MQTT PUBLISH packet.
///
/// Fixed header: packet type 3 with the DUP, QoS and RETAIN flags; variable
/// header: the topic name, then the packet identifier when QoS > 0; payload:
/// the message.
#[derive(Debug)]
pub struct PublishPacket {
    /// Topic the message is published to.
    pub topic: String,
    /// Message content.
    pub payload: Vec<u8>,
    /// Quality of Service level.
    pub qos: u8,
    /// Whether the broker should retain the message for new subscribers.
    pub retain: bool,
    /// Whether this is a repeated delivery attempt.
    pub dup: bool,
    /// Packet identifier, present for QoS 1 and 2.
    pub packet_id: Option<u16>,
}

/// A PUBLISH packet as a value: the topic as characters.
pub struct PublishView {
    pub topic: Seq<char>,
    pub payload: Seq<u8>,
    pub qos: u8,
    pub retain: bool,
    pub dup: bool,
    pub packet_id: Option<u16>,
}

impl Clone for PublishPacket {
    /// A packet with the same fields.
    fn clone(&self) -> (res: Self)
        ensures
            res@ == self@,
    {
        let payload = copy_bytes(self.payload.as_slice(), 0, self.payload.len());
        assert(payload@ =~= self.payload@);
        PublishPacket {
            topic: self.topic.clone(),
            payload,
            qos: self.qos,
            retain: self.retain,
            dup: self.dup,
            packet_id: self.packet_id,
        }
    }
}

impl View for PublishPacket {
    type V = PublishView;

    open spec fn view(&self) -> PublishView {
        PublishView {
            topic: self.topic@,
            payload: self.payload@,
            qos: self.qos,
            retain: self.retain,
            dup: self.dup,
            packet_id: self.packet_id,
        }
    }
}

/// The fixed header byte of a PUBLISH: type 3, DUP in bit 3, the two QoS bits
/// in bits 2..1, RETAIN in bit 0.
pub open spec fn publish_header(p: PublishView) -> u8 {
    (0x30 + (if p.dup { 8nat } else { 0nat }) + (p.qos % 4) as nat * 2 + (if p.retain { 1nat } else { 0nat })) as u8
}

/// The remaining length a PUBLISH announces: the topic field, two bytes of
/// packet identifier when QoS > 0, and the payload.
pub open spec fn publish_remaining_length(p: PublishView) -> nat {
    2 + encode_utf8(p.topic).len() + (if p.qos > 0 { 2nat } else { 0nat }) + p.payload.len()
}

/// The bytes that send a PUBLISH. The topic's length prefix holds the low
/// 16 bits of its byte length.
pub open spec fn publish_bytes(p: PublishView) -> Seq<u8> {
    let topic = encode_utf8(p.topic);
    seq![publish_header(p)]
        + remaining_length_bytes(publish_remaining_length(p))
        + seq![((topic.len() / 256) % 256) as u8, (topic.len() % 256) as u8]
        + topic
        + (match p.packet_id {
            Some(id) => u16_bytes(id),
            None => Seq::<u8>::empty(),
        })
        + p.payload
}

/// Reading a PUBLISH whose fixed header byte is `header` and whose remaining
/// length starts `stream`. The flags come from the header; the payload is
/// what the remaining length leaves after the topic and packet identifier.
pub open spec fn spec_read_publish(stream: Seq<u8>, header: u8) -> Result<PublishView, PacketError> {
    let retain = header % 2 == 1;
    let qos = ((header / 2) % 4) as u8;
    let dup = (header / 8) % 2 == 1;
    match spec_remaining_length(stream) {
        Err(e) => Err(e),
        Ok((length, n)) => match spec_read_string(stream, n as int) {
            Err(e) => Err(e),
            Ok((topic, p)) => {
                let id_len: int = if qos > 0 { 2 } else { 0 };
                if qos > 0 && p + 2 > stream.len() {
                    Err(PacketError::UnexpectedEof)
                } else if length < (p - n) + id_len {
                    Err(PacketError::InvalidRemainingLength)
                } else if n + length > stream.len() {
                    Err(PacketError::UnexpectedEof)
                } else {
                    Ok(PublishView {
                        topic,
                        payload: stream.subrange(p + id_len, (n + length) as int),
                        qos,
                        retain,
                        dup,
                        packet_id: if qos > 0 { Some(be_u16(stream[p], stream[p + 1])) } else { None },
                    })
                }
            },
        },
    }
}

impl PublishPacket {
    /// Reads a PUBLISH: `fixed_header` is the packet's first byte, already
    /// read; `stream` holds what follows it.
    pub fn read(stream: &[u8], fixed_header: u8) -> (res: Result<PublishPacket, PacketError>)
        ensures
            match res {
                Ok(packet) => spec_read_publish(stream@, fixed_header) == Ok::<PublishView, PacketError>(packet@),
                Err(e) => spec_read_publish(stream@, fixed_header) == Err::<PublishView, PacketError>(e),
            },
    {
        let retain = (fixed_header & 0b0000_0001) != 0;
        let qos = (fixed_header & 0b0000_0110) >> 1;
        let dup = (fixed_header & 0b0000_1000) != 0;
        assert((fixed_header & 1 != 0) == (fixed_header % 2 == 1)) by (bit_vector);
        assert((fixed_header & 6) >> 1 == (fixed_header / 2) % 4) by (bit_vector);
        assert((fixed_header & 8 != 0) == ((fixed_header / 8) % 2 == 1)) by (bit_vector);
        let (remaining_length, used) = match decode_remaining_length(stream) {
            Ok(r) => r,
            Err(e) => return Err(e),
        };
        let (topic, after_topic) = match read_utf8_string(stream, used) {
            Ok(r) => r,
            Err(e) => return Err(e),
        };
        let ghost topic_end = after_topic as int;
        let mut pos = after_topic;
        let packet_id = if qos > 0 {
            if after_topic >= stream.len() || stream.len() - after_topic < 2 {
                return Err(PacketError::UnexpectedEof);
            }
            let id = (stream[after_topic] as u16) * 256 + (stream[after_topic + 1] as u16);
            pos = after_topic + 2;
            Some(id)
        } else {
            None
        };
        let topic_len = after_topic - used;
        let packet_id_len: usize = if qos > 0 { 2 } else { 0 };
        if remaining_length < topic_len + packet_id_len {
            return Err(PacketError::InvalidRemainingLength);
        }
        if used > stream.len() || stream.len() - used < remaining_length {
            return Err(PacketError::UnexpectedEof);
        }
        let payload = copy_bytes(stream, pos, used + remaining_length);
        Ok(PublishPacket { topic, payload, qos, retain, dup, packet_id })
    }

    /// The bytes that send this packet.
    pub fn encode(&self) -> (bytes: Vec<u8>)
        requires
            encode_utf8(self.topic@).len() + self.payload@.len() + 4 <= usize::MAX,
        ensures
            bytes@ == publish_bytes(self@),
    {
        let mut buffer: Vec<u8> = Vec::new();
        let mut fixed_header: u8 = 0b0011_0000;
        if self.dup {
            fixed_header = fixed_header | 0b0000_1000;
        }
        fixed_header = fixed_header | ((self.qos & 0b11) << 1);
        if self.retain {
            fixed_header = fixed_header | 0b0000_0001;
        }
        proof {
            let d: u8 = if self.dup { 8 } else { 0 };
            let r: u8 = if self.retain { 1 } else { 0 };
            let q = self.qos;
            assert((d == 0 || d == 8) && (r == 0 || r == 1) ==>
                ((0x30u8 | d) | ((q & 3) << 1)) | r == 0x30 + d + (q % 4) * 2 + r) by (bit_vector);
            assert((0x30u8 | 0) == 0x30u8) by (bit_vector);
            assert((((0x30u8 | d) | ((q & 3) << 1)) | 0) == ((0x30u8 | d) | ((q & 3) << 1))) by (bit_vector);
            assert(fixed_header == publish_header(self@));
        }
        buffer.push(fixed_header);
        let topic_bytes = self.topic.as_str().as_bytes();
        let topic_len = 2 + topic_bytes.len();
        let packet_id_len: usize = if self.qos > 0 { 2 } else { 0 };
        let payload_len = self.payload.len();
        let remaining_length = topic_len + packet_id_len + payload_len;
        encode_remaining_length(&mut buffer, remaining_length);
        let n = topic_bytes.len();
        buffer.push((n >> 8) as u8);
        buffer.push((n & 0xFF) as u8);
        proof {
            assert((n >> 8) as u8 == ((n / 256) % 256) as u8) by (bit_vector);
            assert((n & 0xFF) as u8 == (n % 256) as u8) by (bit_vector);
        }
        append_bytes(&mut buffer, topic_bytes);
        match self.packet_id {
            Some(id) => push_u16(&mut buffer, id),
            None => {},
        }
        append_bytes(&mut buffer, self.payload.as_slice());
        assert(buffer@ =~= publish_bytes(self@));
        buffer
    }
}

/// A PUBLISH that its own encoding can carry: a QoS that fits the two header
/// bits, a packet identifier exactly when QoS > 0, a topic shorter than 64 KiB
/// and a remaining length below 2^28.
pub open spec fn publish_encodable(p: PublishView) -> bool {
    &&& p.qos < 4
    &&& (p.qos > 0) == (p.packet_id is Some)
    &&& encode_utf8(p.topic).len() < 65536
    &&& publish_remaining_length(p) < 268435456
}

proof fn lemma_publish_header_flags(p: PublishView)
    requires
        p.qos < 4,
    ensures
        publish_header(p) % 2 == 1 <==> p.retain,
        ((publish_header(p) / 2) % 4) as u8 == p.qos,
        (publish_header(p) / 8) % 2 == 1 <==> p.dup,
{
    let d: nat = if p.dup { 1 } else { 0 };
    let r: nat = if p.retain { 1 } else { 0 };
    let h = publish_header(p) as nat;
    assert(h == 48 + 8 * d + 2 * (p.qos as nat) + r);
    assert(h % 2 == r);
    assert((h / 2) % 4 == p.qos);
    assert((h / 8) % 2 == d);
}

proof fn lemma_topic_field(s: Seq<u8>, n: int, text: Seq<char>)
    requires
        0 <= n,
        encode_utf8(text).len() < 65536,
        n + 2 + encode_utf8(text).len() <= s.len(),
        s[n] == ((encode_utf8(text).len() / 256) % 256) as u8,
        s[n + 1] == (encode_utf8(text).len() % 256) as u8,
        s.subrange(n + 2, n + 2 + encode_utf8(text).len()) == encode_utf8(text),
    ensures
        spec_read_string(s, n) == Ok::<(Seq<char>, int), PacketError>((text, n + 2 + encode_utf8(text).len())),
{
    broadcast use encode_utf8_valid_utf8, encode_utf8_decode_utf8;
    let tl = encode_utf8(text).len();
    assert(s[n] as int * 256 + s[n + 1] as int == tl);
}

proof fn lemma_read_publish_fields(s: Seq<u8>, header: u8, p: PublishView, length: nat, n: nat, after: int)
    requires
        p.qos < 4,
        (p.qos > 0) == (p.packet_id is Some),
        header % 2 == 1 <==> p.retain,
        ((header / 2) % 4) as u8 == p.qos,
        (header / 8) % 2 == 1 <==> p.dup,
        spec_remaining_length(s) == Ok::<(nat, nat), PacketError>((length, n)),
        spec_read_string(s, n as int) == Ok::<(Seq<char>, int), PacketError>((p.topic, after)),
        after >= n,
        length == (after - n) + (if p.qos > 0 { 2int } else { 0int }) + p.payload.len(),
        n + length <= s.len(),
        p.qos > 0 ==> be_u16(s[after], s[after + 1]) == p.packet_id->Some_0,
        s.subrange(after + (if p.qos > 0 { 2int } else { 0int }), (n + length) as int) == p.payload,
    ensures
        spec_read_publish(s, header) == Ok::<PublishView, PacketError>(p),
{
}

/// Reading the encoding of a PUBLISH gives back the same packet, whatever follows it.
#[verifier::spinoff_prover]
#[verifier::rlimit(40)]
pub proof fn lemma_publish_roundtrip(p: PublishView, rest: Seq<u8>)
    requires
        publish_encodable(p),
    ensures
        spec_read_publish(publish_bytes(p).drop_first() + rest, publish_bytes(p)[0])
            == Ok::<PublishView, PacketError>(p),
{
    let topic = encode_utf8(p.topic);
    let tl = topic.len();
    let length = publish_remaining_length(p);
    let rl = remaining_length_bytes(length);
    let id_bytes = match p.packet_id {
        Some(id) => u16_bytes(id),
        None => Seq::<u8>::empty(),
    };
    let prefix = seq![((tl / 256) % 256) as u8, (tl % 256) as u8];
    let body = prefix + topic + id_bytes + p.payload + rest;
    let s = publish_bytes(p).drop_first() + rest;
    assert(s =~= rl + body);
    super::lemma_remaining_length_roundtrip(length, body);
    let n = rl.len() as int;
    assert(publish_bytes(p)[0] == publish_header(p));
    lemma_publish_header_flags(p);
    let id_len: int = if p.qos > 0 { 2 } else { 0 };
    assert(id_bytes.len() == id_len);
    let after = n + 2 + tl;
    assert(s.len() == n + 2 + tl + id_len + p.payload.len() + rest.len());
    assert(s[n] == prefix[0] && s[n + 1] == prefix[1]);
    assert(s.subrange(n + 2, n + 2 + tl) =~= topic);
    lemma_topic_field(s, n, p.topic);
    if p.qos > 0 {
        let id = p.packet_id->Some_0;
        assert(s[after] == id_bytes[0]);
        assert(s[after + 1] == id_bytes[1]);
        assert(be_u16(s[after], s[after + 1]) == id);
    }
    assert(s.subrange(after + id_len, n + length) =~= p.payload);
    lemma_read_publish_fields(s, publish_bytes(p)[0], p, length, n as nat, after);
}

} // verus!

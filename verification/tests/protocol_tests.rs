use mailboxqtt::protocol::connack::ConnackPacket;
use mailboxqtt::protocol::connect::ConnectPacket;
use mailboxqtt::protocol::messages::{CONNACK, PINGRESP};
use mailboxqtt::protocol::puback::PubackPacket;
use mailboxqtt::protocol::publish::PublishPacket;
use mailboxqtt::protocol::suback_packet::SubackPacket;
use mailboxqtt::protocol::subscribe::SubscribePacket;
use mailboxqtt::protocol::{
    decode_remaining_length, encode_remaining_length, read_utf8_string, LengthStep, PacketError,
    RemainingLengthDecoder,
};

#[test]
fn test_encode_connack_accepted() {
    let packet = ConnackPacket::accepted();
    let encoded = packet.encode();

    // Check packet type and flags
    assert_eq!(encoded[0], 0x20); // 0010_0000

    // Check remaining length (always 2)
    assert_eq!(encoded[1], 0x02);

    // Check acknowledge flags (session present = false)
    assert_eq!(encoded[2], 0x00);

    // Check return code (connection accepted)
    assert_eq!(encoded[3], 0x00);
}

#[test]
fn test_encode_connack_with_session() {
    let packet = ConnackPacket::with_return_code(0x00, true);
    let encoded = packet.encode();

    // Check acknowledge flags (session present = true)
    assert_eq!(encoded[2], 0x01);

    // Check return code (connection accepted)
    assert_eq!(encoded[3], 0x00);
}

#[test]
fn test_encode_connack_refused() {
    let packet = ConnackPacket::with_return_code(0x05, false);
    let encoded = packet.encode();

    // Check return code (not authorized)
    assert_eq!(encoded[3], 0x05);
}

#[test]
fn connack_message_is_the_accepting_packet() {
    assert_eq!(ConnackPacket::accepted().encode(), CONNACK.to_vec());
    assert_eq!(PINGRESP, [0xD0, 0x00]);
}

#[test]
fn test_encode_puback() {
    let packet = PubackPacket { packet_id: 42 };
    let encoded = packet.encode();

    // Check packet type and flags
    assert_eq!(encoded[0], 0x40); // 0100_0000

    // Check remaining length (always 2)
    assert_eq!(encoded[1], 0x02);

    // Check packet ID
    assert_eq!(encoded[2], 0x00);
    assert_eq!(encoded[3], 0x2A); // 42
}

#[test]
fn test_read_puback() {
    // PUBACK packet with packet_id=123
    let data = vec![
        0x40, // Fixed header: PUBACK with flags 0000
        0x02, // Remaining length: 2
        0x00, 0x7B, // Packet ID: 123
    ];

    let header = data[0];
    let packet = PubackPacket::read(&data[1..], header).unwrap();

    assert_eq!(packet.packet_id, 123);
}

#[test]
fn test_read_puback_invalid_type() {
    // Wrong packet type (PUBLISH instead of PUBACK)
    let data = vec![
        0x30, // Fixed header: PUBLISH
        0x02, // Remaining length: 2
        0x00, 0x01, // Packet ID: 1
    ];

    let header = data[0];
    let result = PubackPacket::read(&data[1..], header);

    assert!(result.is_err());
    assert_eq!(result.unwrap_err(), PacketError::UnexpectedPacketType);
}

#[test]
fn test_read_puback_invalid_length() {
    // Invalid remaining length (should be 2)
    let data = vec![
        0x40, // Fixed header: PUBACK
        0x03, // Remaining length: 3 (invalid!)
        0x00, 0x01, 0x00,
    ];

    let header = data[0];
    let result = PubackPacket::read(&data[1..], header);

    assert!(result.is_err());
    assert_eq!(result.unwrap_err(), PacketError::InvalidRemainingLength);
}

#[test]
fn test_encode_decode_roundtrip() {
    let packet = PubackPacket { packet_id: 65535 };
    let encoded = packet.encode();

    let header = encoded[0];
    let decoded = PubackPacket::read(&encoded[1..], header).unwrap();

    assert_eq!(packet.packet_id, decoded.packet_id);
}

#[test]
fn puback_flags_and_truncation_are_rejected() {
    assert_eq!(PubackPacket::read(&[0x02, 0x00, 0x01], 0x41).unwrap_err(), PacketError::InvalidFlags);
    assert_eq!(PubackPacket::read(&[0x02, 0x00], 0x40).unwrap_err(), PacketError::UnexpectedEof);
    assert_eq!(PubackPacket::read(&[], 0x40).unwrap_err(), PacketError::UnexpectedEof);
}

#[test]
fn test_encode_publish_qos0() {
    let packet = PublishPacket {
        topic: "test/topic".to_owned(),
        payload: b"hello".to_vec(),
        qos: 0,
        retain: false,
        dup: false,
        packet_id: None,
    };
    let encoded = packet.encode();

    // Check packet type
    assert_eq!(encoded[0] >> 4, 3); // PUBLISH

    // Check flags (QoS 0, no retain, no dup)
    assert_eq!(encoded[0] & 0x0F, 0);
}

#[test]
fn publish_encoding_exact_bytes() {
    let packet = PublishPacket {
        topic: "a/b".to_owned(),
        payload: vec![1, 2],
        qos: 1,
        retain: true,
        dup: true,
        packet_id: Some(0x0102),
    };
    assert_eq!(
        packet.encode(),
        vec![0x3B, 9, 0x00, 0x03, b'a', b'/', b'b', 0x01, 0x02, 1, 2]
    );
}

#[test]
fn publish_roundtrip_with_trailing_bytes() {
    let packet = PublishPacket {
        topic: "sensors/täst".to_owned(),
        payload: b"payload".to_vec(),
        qos: 1,
        retain: false,
        dup: true,
        packet_id: Some(7),
    };
    let mut encoded = packet.encode();
    encoded.extend_from_slice(&[0xAA, 0xBB]);
    let decoded = PublishPacket::read(&encoded[1..], encoded[0]).unwrap();
    assert_eq!(decoded.topic, packet.topic);
    assert_eq!(decoded.payload, packet.payload);
    assert_eq!(decoded.qos, 1);
    assert!(!decoded.retain);
    assert!(decoded.dup);
    assert_eq!(decoded.packet_id, Some(7));
}

#[test]
fn publish_read_qos0_has_no_packet_id() {
    // topic "t", payload "xy", QoS 0 with retain
    let data = [0x05, 0x00, 0x01, b't', b'x', b'y'];
    let packet = PublishPacket::read(&data, 0x31).unwrap();
    assert_eq!(packet.topic, "t");
    assert_eq!(packet.payload, b"xy".to_vec());
    assert_eq!(packet.qos, 0);
    assert!(packet.retain);
    assert_eq!(packet.packet_id, None);
}

#[test]
fn publish_read_errors() {
    // remaining length shorter than the topic field
    assert_eq!(
        PublishPacket::read(&[0x02, 0x00, 0x01, b't'], 0x30).unwrap_err(),
        PacketError::InvalidRemainingLength
    );
    // payload cut short
    assert_eq!(
        PublishPacket::read(&[0x06, 0x00, 0x01, b't', b'x'], 0x30).unwrap_err(),
        PacketError::UnexpectedEof
    );
    // topic that is not UTF-8
    assert_eq!(
        PublishPacket::read(&[0x03, 0x00, 0x01, 0xFF], 0x30).unwrap_err(),
        PacketError::InvalidUtf8
    );
    // remaining length that never ends
    assert_eq!(
        PublishPacket::read(&[0x80, 0x80, 0x80, 0x80, 0x01], 0x30).unwrap_err(),
        PacketError::MalformedRemainingLength
    );
}

#[test]
fn test_encode_remaining_length() {
    let mut buffer = Vec::new();
    encode_remaining_length(&mut buffer, 127);
    assert_eq!(buffer, vec![127]);

    buffer.clear();
    encode_remaining_length(&mut buffer, 128);
    assert_eq!(buffer, vec![0x80, 0x01]);

    buffer.clear();
    encode_remaining_length(&mut buffer, 16383);
    assert_eq!(buffer, vec![0xFF, 0x7F]);
}

#[test]
fn remaining_length_roundtrip_values() {
    for value in [0usize, 1, 127, 128, 300, 16383, 16384, 2_097_151, 2_097_152, 268_435_455] {
        let mut buffer = Vec::new();
        encode_remaining_length(&mut buffer, value);
        let used = buffer.len();
        buffer.push(0x55);
        assert_eq!(decode_remaining_length(&buffer), Ok((value, used)));
    }
}

#[test]
fn remaining_length_decoding_edges() {
    assert_eq!(decode_remaining_length(&[]), Err(PacketError::UnexpectedEof));
    assert_eq!(decode_remaining_length(&[0x80, 0x80]), Err(PacketError::UnexpectedEof));
    assert_eq!(decode_remaining_length(&[0xFF, 0xFF, 0xFF, 0xFF]), Err(PacketError::MalformedRemainingLength));
    assert_eq!(decode_remaining_length(&[0xFF, 0xFF, 0xFF, 0x7F]), Ok((268_435_455, 4)));
    // non-minimal encodings are accepted
    assert_eq!(decode_remaining_length(&[0x80, 0x00]), Ok((0, 2)));
}

#[test]
fn remaining_length_decoder_byte_by_byte() {
    let mut decoder = RemainingLengthDecoder::new();
    assert_eq!(decoder.push(0xC1), LengthStep::Incomplete);
    assert_eq!(decoder.push(0x02), LengthStep::Complete(321));

    let mut decoder = RemainingLengthDecoder::new();
    assert_eq!(decoder.push(0x80), LengthStep::Incomplete);
    assert_eq!(decoder.push(0x80), LengthStep::Incomplete);
    assert_eq!(decoder.push(0x80), LengthStep::Incomplete);
    assert_eq!(decoder.push(0x80), LengthStep::Malformed);
}

#[test]
fn utf8_string_field() {
    let data = [0x00, 0x02, 0xC3, 0xA4, 0x09];
    let (text, next) = read_utf8_string(&data, 0).unwrap();
    assert_eq!(text, "ä");
    assert_eq!(next, 4);
    assert_eq!(read_utf8_string(&[0x00, 0x01, 0xC3], 0).unwrap_err(), PacketError::InvalidUtf8);
    assert_eq!(read_utf8_string(&[0x00, 0x03, b'a'], 0).unwrap_err(), PacketError::UnexpectedEof);
}

#[test]
fn test_encode_suback_single() {
    let packet = SubackPacket::success_qos0(10, 1);
    let encoded = packet.encode();

    // Check packet type and flags
    assert_eq!(encoded[0], 0x90);

    // Check remaining length (2 + 1 = 3)
    assert_eq!(encoded[1], 0x03);

    // Check packet ID
    assert_eq!(encoded[2], 0x00);
    assert_eq!(encoded[3], 0x0A); // 10

    // Check return code
    assert_eq!(encoded[4], 0x00); // Success QoS 0
}

#[test]
fn test_encode_suback_multiple() {
    let packet = SubackPacket {
        packet_id: 42,
        return_codes: vec![0x00, 0x01, 0x80],
    };
    let encoded = packet.encode();

    // Remaining length should be 2 + 3 = 5
    assert_eq!(encoded[1], 0x05);

    // Check return codes
    assert_eq!(encoded[4], 0x00); // Success QoS 0
    assert_eq!(encoded[5], 0x01); // Success QoS 1
    assert_eq!(encoded[6], 0x80); // Failure
}

#[test]
fn suback_success_codes() {
    let packet = SubackPacket::success_qos0(3, 4);
    assert_eq!(packet.return_codes, vec![0, 0, 0, 0]);
    assert_eq!(packet.encode(), vec![0x90, 6, 0x00, 0x03, 0, 0, 0, 0]);
}

#[test]
fn test_parse_subscribe_single_topic() {
    // SUBSCRIBE packet with packet_id=10, topic="test/topic", QoS=0
    let data = vec![
        0x82,       // Fixed header: SUBSCRIBE with flags 0010
        0x0F,       // Remaining length: 15
        0x00, 0x0A, // Packet ID: 10
        0x00, 0x0A, // Topic length: 10
        b't', b'e', b's', b't', b'/', b't', b'o', b'p', b'i', b'c',
        0x00,       // QoS: 0
    ];

    let header = data[0];
    let packet = SubscribePacket::read(&data[1..], header).unwrap();

    assert_eq!(packet.packet_id, 10);
    assert_eq!(packet.subscriptions.len(), 1);
    assert_eq!(packet.subscriptions[0].topic_filter, "test/topic");
    assert_eq!(packet.subscriptions[0].qos, 0);
}

#[test]
fn test_parse_subscribe_multiple_topics() {
    // SUBSCRIBE with two topics
    let data = vec![
        0x82,       // Fixed header
        0x16,       // Remaining length: 22 (2 + 2+6+1 + 2+8+1)
        0x00, 0x01, // Packet ID: 1
        0x00, 0x06, // Topic 1 length: 6
        b'h', b'o', b'm', b'e', b'/', b'+',
        0x01,       // QoS: 1
        0x00, 0x08, // Topic 2 length: 8
        b's', b'e', b'n', b's', b'o', b'r', b's', b'/',
        0x02,       // QoS: 2
    ];

    let header = data[0];
    let packet = SubscribePacket::read(&data[1..], header).unwrap();

    assert_eq!(packet.packet_id, 1);
    assert_eq!(packet.subscriptions.len(), 2);
    assert_eq!(packet.subscriptions[0].topic_filter, "home/+");
    assert_eq!(packet.subscriptions[0].qos, 1);
    assert_eq!(packet.subscriptions[1].topic_filter, "sensors/");
    assert_eq!(packet.subscriptions[1].qos, 2);
}

#[test]
fn subscribe_read_errors() {
    // wrong packet type
    assert_eq!(SubscribePacket::read(&[0x02, 0x00, 0x01], 0x92).unwrap_err(), PacketError::UnexpectedPacketType);
    // wrong flags
    assert_eq!(SubscribePacket::read(&[0x02, 0x00, 0x01], 0x80).unwrap_err(), PacketError::InvalidFlags);
    // no subscription at all
    assert_eq!(SubscribePacket::read(&[0x02, 0x00, 0x01], 0x82).unwrap_err(), PacketError::NoSubscriptions);
    // QoS 3
    assert_eq!(
        SubscribePacket::read(&[0x06, 0x00, 0x01, 0x00, 0x01, b'a', 0x03], 0x82).unwrap_err(),
        PacketError::InvalidQos
    );
    // QoS byte missing
    assert_eq!(
        SubscribePacket::read(&[0x06, 0x00, 0x01, 0x00, 0x01, b'a'], 0x82).unwrap_err(),
        PacketError::UnexpectedEof
    );
}

#[test]
fn connect_read_fields() {
    // CONNECT: protocol "MQTT", level 4, flags clean session, keep alive 60, client id "c1"
    let data = vec![
        0x10, 0x10, 0x00, 0x04, b'M', b'Q', b'T', b'T', 0x04, 0x02, 0x00, 0x3C, 0x00, 0x02, b'c', b'1',
    ];
    let packet = ConnectPacket::read(&data[1..], data[0]).unwrap();
    assert_eq!(packet.protocol_name, "MQTT");
    assert_eq!(packet.protocol_level, 4);
    assert!(packet.clean_session);
    assert_eq!(packet.keep_alive, 60);
    assert_eq!(packet.client_id, "c1");

    let same = ConnectPacket::read_from_stream(&data).unwrap();
    assert_eq!(same.client_id, "c1");

    assert_eq!(ConnectPacket::read(&data[1..], 0x20).unwrap_err(), PacketError::UnexpectedPacketType);
    assert_eq!(ConnectPacket::read_from_stream(&[]).unwrap_err(), PacketError::UnexpectedEof);
    assert_eq!(ConnectPacket::read(&data[1..10], data[0]).unwrap_err(), PacketError::UnexpectedEof);
}

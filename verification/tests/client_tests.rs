use mailboxqtt::client::tcp_writer::{TcpWriterHandle, TcpWriterMsg};
use mailboxqtt::client::{packet_kind, Client, ClientCommand, ClientHandle, PacketKind, ReceiveAction};
use mailboxqtt::protocol::PacketError;
use mailboxqtt::protocol::puback::PubackPacket;
use mailboxqtt::protocol::publish::PublishPacket;
use tokio::sync::mpsc;

fn publish(qos: u8, packet_id: Option<u16>) -> PublishPacket {
    PublishPacket {
        topic: "t".to_string(),
        payload: b"m".to_vec(),
        qos,
        retain: false,
        dup: false,
        packet_id,
    }
}

fn written(rx: &mut mpsc::UnboundedReceiver<TcpWriterMsg>) -> Option<Vec<u8>> {
    match rx.try_recv() {
        Ok(TcpWriterMsg::WritePacket(bytes)) => Some(bytes),
        Err(_) => None,
    }
}

fn acked(rx: &mut mpsc::UnboundedReceiver<ClientCommand>) -> Option<u16> {
    match rx.try_recv() {
        Ok(ClientCommand::Puback(p)) => Some(p.packet_id),
        _ => None,
    }
}

struct Fixture {
    client: Client,
    writes: mpsc::UnboundedReceiver<TcpWriterMsg>,
    publisher: ClientHandle,
    publisher_commands: mpsc::UnboundedReceiver<ClientCommand>,
}

fn fixture() -> Fixture {
    let (wtx, writes) = mpsc::unbounded_channel();
    let (ctx, _crx) = mpsc::unbounded_channel();
    let (ptx, publisher_commands) = mpsc::unbounded_channel();
    let client = Client::new("sub".to_string(), TcpWriterHandle::new(wtx), ctx, 0);
    Fixture { client, writes, publisher: ClientHandle::new("pub".to_string(), ptx), publisher_commands }
}

#[test]
fn qos0_publish_is_written_as_is() {
    let mut f = fixture();
    let packet = publish(0, None);
    let expected = packet.encode();
    let action = f.client.try_send_packet(ClientCommand::Publish((packet, f.publisher.clone())), 10);
    assert!(action.acknowledge.is_none());
    assert_eq!(action.write, Some(expected));
    assert!(f.client.handle_puback(1).is_none());
}

#[test]
fn qos1_publish_is_retained_until_acknowledged() {
    let mut f = fixture();
    let packet = publish(1, Some(9));
    let expected = packet.encode();
    let action = f.client.try_send_packet(ClientCommand::Publish((packet, f.publisher.clone())), 10);
    match action.acknowledge {
        Some((publisher, id)) => {
            assert_eq!(publisher.client_id, "pub");
            assert_eq!(id, 9);
            assert!(publisher.puback(id).is_ok());
            assert_eq!(acked(&mut f.publisher_commands), Some(9));
        }
        None => panic!("expected an acknowledgement to the publisher"),
    }
    assert_eq!(action.write, Some(expected));

    match f.client.handle_puback(9) {
        Some(publisher) => assert_eq!(publisher.client_id, "pub"),
        None => panic!("expected the packet to be waiting"),
    }
    assert!(f.client.handle_puback(9).is_none());
}

#[test]
fn invalid_qos_publish_is_ignored() {
    let mut f = fixture();
    let action = f.client.try_send_packet(ClientCommand::Publish((publish(3, Some(1)), f.publisher.clone())), 10);
    assert!(action.acknowledge.is_none());
    assert!(action.write.is_none());
    assert!(f.client.handle_puback(1).is_none());
}

#[test]
fn puback_command_is_written() {
    let mut f = fixture();
    let action = f.client.try_send_packet(ClientCommand::Puback(PubackPacket { packet_id: 5 }), 10);
    assert!(action.acknowledge.is_none());
    assert_eq!(action.write, Some(vec![0x40, 0x02, 0x00, 0x05]));
}

#[test]
fn unacknowledged_packet_is_resent_then_dropped() {
    let mut f = fixture();
    let first = f.client.try_send_packet(ClientCommand::Publish((publish(1, Some(4)), f.publisher.clone())), 0).write.unwrap();

    // not yet due
    assert!(f.client.retry_packets(5000).is_empty());

    // three resends, each marked as a duplicate
    for now in [5001u64, 10002, 15003] {
        let writes = f.client.retry_packets(now);
        assert_eq!(writes.len(), 1);
        assert_eq!(writes[0][0], first[0] | 0x08);
        assert_eq!(&writes[0][1..], &first[1..]);
    }

    // the fourth pass drops it
    assert!(f.client.retry_packets(20004).is_empty());
    assert!(f.client.handle_puback(4).is_none());
}

#[test]
fn only_due_packets_are_resent() {
    let mut f = fixture();
    f.client.try_send_packet(ClientCommand::Publish((publish(1, Some(1)), f.publisher.clone())), 0);
    f.client.try_send_packet(ClientCommand::Publish((publish(1, Some(2)), f.publisher.clone())), 3000);
    let writes = f.client.retry_packets(6000);
    assert_eq!(writes.len(), 1);
    // the second one is resent on the next pass
    assert_eq!(f.client.retry_packets(8001).len(), 1);
    assert!(f.client.retry_packets(9000).is_empty());
}

#[test]
fn retry_is_due_once_a_second() {
    let mut f = fixture();
    assert!(!f.client.retry_due(999));
    assert!(f.client.retry_due(1000));
    f.client.mark_retried(1000);
    assert!(!f.client.retry_due(1500));
    assert!(!f.client.retry_due(10));
    assert!(f.client.retry_due(2000));
}

#[test]
fn handle_names_the_client() {
    let f = fixture();
    assert_eq!(f.client.client_id(), "sub");
    assert_eq!(f.client.handle().client_id, "sub");
}

#[test]
fn packet_kinds_by_header() {
    assert_eq!(packet_kind(0x30), PacketKind::Publish);
    assert_eq!(packet_kind(0x3B), PacketKind::Publish);
    assert_eq!(packet_kind(0x40), PacketKind::Puback);
    assert_eq!(packet_kind(0x82), PacketKind::Subscribe);
    assert_eq!(packet_kind(0xC0), PacketKind::PingReq);
    assert_eq!(packet_kind(0xE0), PacketKind::Disconnect);
    assert_eq!(packet_kind(0x10), PacketKind::Unknown(1));
}

#[test]
fn received_publish_is_forwarded() {
    let mut f = fixture();
    // topic "a/b", QoS 1, packet identifier 7, payload "hi"
    let body = [0x09, 0x00, 0x03, b'a', b'/', b'b', 0x00, 0x07, b'h', b'i'];
    match f.client.receive_packet(0x32, &body) {
        Ok(ReceiveAction::Forward(p)) => {
            assert_eq!(p.topic, "a/b");
            assert_eq!(p.payload, b"hi".to_vec());
            assert_eq!(p.qos, 1);
            assert_eq!(p.packet_id, Some(7));
            assert!(!p.dup);
            assert!(!p.retain);
        }
        _ => panic!("expected a PUBLISH to forward"),
    }
}

#[test]
fn received_puback_ends_the_wait() {
    let mut f = fixture();
    f.client.try_send_packet(ClientCommand::Publish((publish(1, Some(9)), f.publisher.clone())), 10);
    match f.client.receive_packet(0x40, &[0x02, 0x00, 0x09]) {
        Ok(ReceiveAction::Acknowledged(id, Some(publisher))) => {
            assert_eq!(id, 9);
            assert_eq!(publisher.client_id, "pub");
        }
        _ => panic!("expected an acknowledgement with its publisher"),
    }
    // the packet is no longer pending
    assert!(f.client.handle_puback(9).is_none());
    assert!(matches!(f.client.receive_packet(0x40, &[0x02, 0x00, 0x09]), Ok(ReceiveAction::Acknowledged(9, None))));
}

#[test]
fn received_subscribe_is_answered_with_suback() {
    let mut f = fixture();
    // packet identifier 10, filters "x/+" (QoS 0) and "y" (QoS 1)
    let body = [0x0C, 0x00, 0x0A, 0x00, 0x03, b'x', b'/', b'+', 0x00, 0x00, 0x01, b'y', 0x01];
    match f.client.receive_packet(0x82, &body) {
        Ok(ReceiveAction::Subscribe(filters, suback)) => {
            assert_eq!(filters, vec!["x/+".to_string(), "y".to_string()]);
            assert_eq!(suback, vec![0x90, 0x04, 0x00, 0x0A, 0x00, 0x00]);
        }
        _ => panic!("expected a SUBSCRIBE"),
    }
}

#[test]
fn received_ping_and_disconnect() {
    let mut f = fixture();
    assert!(matches!(f.client.receive_packet(0xC0, &[0x00]), Ok(ReceiveAction::Pong)));
    assert!(matches!(f.client.receive_packet(0xE0, &[0x00]), Ok(ReceiveAction::Disconnect)));
}

#[test]
fn received_unknown_or_malformed_packets_are_refused() {
    let mut f = fixture();
    assert!(matches!(f.client.receive_packet(0x10, &[0x00]), Err(PacketError::UnexpectedPacketType)));
    assert!(matches!(f.client.receive_packet(0x42, &[0x02, 0x00, 0x01]), Err(PacketError::InvalidFlags)));
    assert!(matches!(f.client.receive_packet(0x82, &[0x02, 0x00, 0x01]), Err(PacketError::NoSubscriptions)));
    assert!(matches!(f.client.receive_packet(0x30, &[0x05, 0x00]), Err(PacketError::UnexpectedEof)));
}

#[test]
fn write_fails_when_the_writer_is_gone() {
    let mut f = fixture();
    assert!(f.client.write_packet(&[0xD0, 0x00]).is_ok());
    assert_eq!(written(&mut f.writes), Some(vec![0xD0, 0x00]));
    drop(f.writes);
    assert!(f.client.write_packet(&[0xD0, 0x00]).is_err());
}

#[test]
fn cloned_handle_reaches_the_same_client() {
    let mut f = fixture();
    let copy = f.publisher.clone();
    assert_eq!(copy.client_id, "pub");
    assert!(copy.puback(3).is_ok());
    assert_eq!(acked(&mut f.publisher_commands), Some(3));
}

#[test]
fn sends_on_a_closed_channel_give_the_message_back() {
    let (tx, rx) = mpsc::unbounded_channel::<ClientCommand>();
    let handle = ClientHandle::new("gone".to_string(), tx);
    drop(rx);
    match handle.puback(12) {
        Err(ClientCommand::Puback(p)) => assert_eq!(p.packet_id, 12),
        _ => panic!("expected the PUBACK back"),
    }
    match handle.publish(publish(0, None), handle.clone()) {
        Err(ClientCommand::Publish((p, s))) => {
            assert_eq!(p.topic, "t");
            assert_eq!(s.client_id, "gone");
        }
        _ => panic!("expected the PUBLISH back"),
    }
    let (wtx, wrx) = mpsc::unbounded_channel();
    let writer = TcpWriterHandle::new(wtx);
    drop(wrx);
    match writer.write_packet(&[1, 2, 3]) {
        Err(TcpWriterMsg::WritePacket(bytes)) => assert_eq!(bytes, vec![1, 2, 3]),
        Ok(()) => panic!("expected the bytes back"),
    }
}

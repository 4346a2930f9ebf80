//! Clients: the handle through which other parts of the broker reach a
//! client, and the decisions a client makes about the packets it sends and
//! receives.

use vstd::prelude::*;
use tokio::sync::mpsc::UnboundedSender;
use tokio::sync::mpsc::error::SendError;
use std::collections::HashMap;
use crate::protocol::PacketError;
use crate::protocol::puback::{PubackPacket, puback_bytes, spec_read_puback};
use crate::protocol::publish::{PublishPacket, publish_bytes, spec_read_publish};
use crate::protocol::suback_packet::{SubackPacket, suback_bytes};
use crate::protocol::subscribe::{SubscribePacket, spec_read_subscribe};
use crate::client::tcp_writer::{TcpWriterHandle, TcpWriterMsg};

pub mod tcp_writer;

verus! {

#[verifier::external_type_specification]
#[verifier::external_body]
#[verifier::reject_recursive_types(T)]
pub struct ExUnboundedSender<T>(UnboundedSender<T>);

/// Messages that control a client: which packets it has to send.
pub enum ClientCommand {
    /// Send a PUBLISH packet to this client; the handle is the publisher's.
    Publish((PublishPacket, ClientHandle)),
    /// Send a PUBACK to this client.
    Puback(PubackPacket),
}

/// `UnboundedSender::send` (tokio): queues `message` for the receiving half,
/// or, when that half is closed, hands `message` back in its `SendError`,
/// which is taken apart here. Whether the half is closed depends on another
/// task, so which of the two comes is not stated.
#[verifier::external_body]
pub(crate) fn channel_send<T>(sender: &UnboundedSender<T>, message: T) -> (res: Result<(), T>)
    ensures
        res matches Err(back) ==> back == message,
{
    match sender.send(message) {
        Ok(()) => Ok(()),
        Err(SendError(back)) => Err(back),
    }
}

/// The sending half of a client's command channel (a tokio unbounded sender).
/// A command carries handles, which carry such senders: the channel type
/// refers to itself, so it is held here whole rather than as a field.
#[verifier::external_body]
pub struct CommandSender {
    inner: UnboundedSender<ClientCommand>,
}

impl CommandSender {
    /// Wraps the sending half of a client's command channel.
    #[verifier::external_body]
    pub(crate) fn new(inner: UnboundedSender<ClientCommand>) -> Self {
        CommandSender { inner }
    }

    /// The wrapped sender.
    #[verifier::external_body]
    pub(crate) fn channel(&self) -> &UnboundedSender<ClientCommand> {
        &self.inner
    }
}

impl Clone for CommandSender {
    /// `UnboundedSender::clone` (tokio): another sender on the same channel.
    /// The clone holds the same pointer to that channel as `self`, so the
    /// two are the same value.
    #[verifier::external_body]
    fn clone(&self) -> (res: Self)
        ensures
            res == *self,
    {
        CommandSender { inner: self.inner.clone() }
    }
}

/// Handle for communicating with a client.
pub struct ClientHandle {
    pub client_id: String,
    pub sender: CommandSender,
}

impl Clone for ClientHandle {
    /// Another handle for the same client, on the same channel.
    fn clone(&self) -> (res: Self)
        ensures
            res == *self,
    {
        ClientHandle { client_id: self.client_id.clone(), sender: self.sender.clone() }
    }
}

impl ClientHandle {
    /// A handle for the client `client_id` whose commands go to `sender`.
    pub fn new(client_id: String, sender: UnboundedSender<ClientCommand>) -> (handle: Self)
        ensures
            handle.client_id@ == client_id@,
    {
        ClientHandle { client_id, sender: CommandSender::new(sender) }
    }

    /// Asks this client to send `packet`, published by `sender`. When the
    /// client's channel is closed, the command comes back.
    pub fn publish(&self, packet: PublishPacket, sender: ClientHandle) -> (res: Result<(), ClientCommand>)
        ensures
            res matches Err(back) ==> back == ClientCommand::Publish((packet, sender)),
    {
        channel_send(self.sender.channel(), ClientCommand::Publish((packet, sender)))
    }

    /// Asks this client to send a PUBACK for `packet_id`. When the client's
    /// channel is closed, the command comes back.
    pub fn puback(&self, packet_id: u16) -> (res: Result<(), ClientCommand>)
        ensures
            res matches Err(back) ==> back == ClientCommand::Puback(PubackPacket { packet_id }),
    {
        channel_send(self.sender.channel(), ClientCommand::Puback(PubackPacket { packet_id }))
    }
}

/// What a packet from a client is, by the packet type in its fixed header.
#[derive(Debug, Clone, Copy, PartialEq, Eq, Structural)]
pub enum PacketKind {
    Publish,
    Puback,
    Subscribe,
    PingReq,
    Disconnect,
    /// Any other packet type, which the broker does not accept from a client.
    Unknown(u8),
}

/// The kind of a packet with the packet type `packet_type` (3 PUBLISH, 4
/// PUBACK, 8 SUBSCRIBE, 12 PINGREQ, 14 DISCONNECT).
pub open spec fn spec_packet_kind(packet_type: u8) -> PacketKind {
    if packet_type == 3 {
        PacketKind::Publish
    } else if packet_type == 4 {
        PacketKind::Puback
    } else if packet_type == 8 {
        PacketKind::Subscribe
    } else if packet_type == 12 {
        PacketKind::PingReq
    } else if packet_type == 14 {
        PacketKind::Disconnect
    } else {
        PacketKind::Unknown(packet_type)
    }
}

/// The kind of the packet whose fixed header byte is `fixed_header`: its
/// upper four bits.
pub fn packet_kind(fixed_header: u8) -> (kind: PacketKind)
    ensures
        kind == spec_packet_kind(fixed_header / 16),
{
    let packet_type = fixed_header >> 4;
    assert(fixed_header >> 4 == fixed_header / 16) by (bit_vector);
    if packet_type == 3 {
        PacketKind::Publish
    } else if packet_type == 4 {
        PacketKind::Puback
    } else if packet_type == 8 {
        PacketKind::Subscribe
    } else if packet_type == 12 {
        PacketKind::PingReq
    } else if packet_type == 14 {
        PacketKind::Disconnect
    } else {
        PacketKind::Unknown(packet_type)
    }
}

/// How long, in milliseconds, the client waits between looks at its unacknowledged packets.
pub const RETRY_CHECK_INTERVAL_MS: u64 = 1000;

/// How long, in milliseconds, an unacknowledged packet waits before it is sent again.
pub const RETRY_INTERVAL_MS: u64 = 5000;

/// How often an unacknowledged packet is sent again before it is dropped.
pub const MAX_RETRIES: usize = 3;

/// A QoS 1 PUBLISH sent to the client and not yet acknowledged by it.
pub struct RetainedPacket {
    /// The publisher, to be told when the client acknowledges.
    pub sender: ClientHandle,
    /// The packet to send again, marked as a duplicate.
    pub packet: PublishPacket,
    /// How often it has been sent again.
    pub retry_count: usize,
    /// When it was last sent, in milliseconds.
    pub last_sent: u64,
}

/// A PUBLISH whose encoding fits in memory.
pub open spec fn publish_sendable(p: PublishPacket) -> bool {
    vstd::utf8::encode_utf8(p.topic@).len() + p.payload@.len() + 4 <= usize::MAX
}

/// Milliseconds from `since` to `now` (none when `now` is earlier).
pub open spec fn elapsed(since: u64, now: u64) -> u64 {
    if now >= since { (now - since) as u64 } else { 0 }
}

/// `r` after one more sending at `now`.
pub open spec fn resent(r: RetainedPacket, now: u64) -> RetainedPacket {
    RetainedPacket {
        sender: r.sender,
        packet: r.packet,
        retry_count: (r.retry_count + 1) as usize,
        last_sent: now,
    }
}

/// The unacknowledged packets after a retry pass at `now` that visits their
/// identifiers in `order`: a packet sent `MAX_RETRIES` times is dropped and
/// ends the pass; one sent less than `RETRY_INTERVAL_MS` ago waits; any other
/// is sent again.
pub open spec fn retry_pass(pending: Map<u16, RetainedPacket>, order: Seq<u16>, now: u64) -> Map<u16, RetainedPacket>
    decreases order.len(),
{
    if order.len() == 0 {
        pending
    } else {
        let k = order[0];
        if !pending.contains_key(k) {
            retry_pass(pending, order.drop_first(), now)
        } else if pending[k].retry_count >= MAX_RETRIES {
            pending.remove(k)
        } else if elapsed(pending[k].last_sent, now) <= RETRY_INTERVAL_MS {
            retry_pass(pending, order.drop_first(), now)
        } else {
            retry_pass(pending.insert(k, resent(pending[k], now)), order.drop_first(), now)
        }
    }
}

/// Whether the retry pass at `now` that visits `order` drops a packet, which ends it.
pub open spec fn retry_stops(pending: Map<u16, RetainedPacket>, order: Seq<u16>, now: u64) -> bool
    decreases order.len(),
{
    if order.len() == 0 {
        false
    } else {
        let k = order[0];
        if !pending.contains_key(k) {
            retry_stops(pending, order.drop_first(), now)
        } else if pending[k].retry_count >= MAX_RETRIES {
            true
        } else if elapsed(pending[k].last_sent, now) <= RETRY_INTERVAL_MS {
            retry_stops(pending, order.drop_first(), now)
        } else {
            retry_stops(pending.insert(k, resent(pending[k], now)), order.drop_first(), now)
        }
    }
}

/// The bytes that the retry pass at `now` visiting `order` writes: the
/// encoding of each packet it sends again, in the order it sends them.
pub open spec fn retry_writes(pending: Map<u16, RetainedPacket>, order: Seq<u16>, now: u64) -> Seq<Seq<u8>>
    decreases order.len(),
{
    if order.len() == 0 {
        Seq::empty()
    } else {
        let k = order[0];
        if !pending.contains_key(k) {
            retry_writes(pending, order.drop_first(), now)
        } else if pending[k].retry_count >= MAX_RETRIES {
            Seq::empty()
        } else if elapsed(pending[k].last_sent, now) <= RETRY_INTERVAL_MS {
            retry_writes(pending, order.drop_first(), now)
        } else {
            seq![publish_bytes(pending[k].packet@)]
                + retry_writes(pending.insert(k, resent(pending[k], now)), order.drop_first(), now)
        }
    }
}

/// The bytes of each vector.
pub open spec fn byte_views(v: Seq<Vec<u8>>) -> Seq<Seq<u8>> {
    v.map_values(|b: Vec<u8>| b@)
}

/// No retained packet is due, at `now`, to be sent again or dropped.
pub open spec fn nothing_due(pending: Map<u16, RetainedPacket>, now: u64) -> bool {
    forall|k: u16| #[trigger] pending.contains_key(k) ==> {
        &&& pending[k].retry_count < MAX_RETRIES
        &&& elapsed(pending[k].last_sent, now) <= RETRY_INTERVAL_MS
    }
}

/// A pass over `a` then `b` is the pass over `a` continued over `b`, unless
/// the pass over `a` already ended.
proof fn lemma_retry_pass_append(pending: Map<u16, RetainedPacket>, a: Seq<u16>, b: Seq<u16>, now: u64)
    ensures
        retry_stops(pending, a, now) ==> {
            &&& retry_pass(pending, a + b, now) == retry_pass(pending, a, now)
            &&& retry_writes(pending, a + b, now) == retry_writes(pending, a, now)
        },
        !retry_stops(pending, a, now) ==> {
            &&& retry_pass(pending, a + b, now) == retry_pass(retry_pass(pending, a, now), b, now)
            &&& retry_stops(pending, a + b, now) == retry_stops(retry_pass(pending, a, now), b, now)
            &&& retry_writes(pending, a + b, now)
                == retry_writes(pending, a, now) + retry_writes(retry_pass(pending, a, now), b, now)
        },
    decreases a.len(),
{
    if a.len() == 0 {
        assert(a + b =~= b);
        assert(Seq::<Seq<u8>>::empty() + retry_writes(pending, b, now) =~= retry_writes(pending, b, now));
    } else {
        let k = a[0];
        assert((a + b)[0] == k);
        assert((a + b).drop_first() =~= a.drop_first() + b);
        if !pending.contains_key(k) {
            lemma_retry_pass_append(pending, a.drop_first(), b, now);
        } else if pending[k].retry_count >= MAX_RETRIES {
        } else if elapsed(pending[k].last_sent, now) <= RETRY_INTERVAL_MS {
            lemma_retry_pass_append(pending, a.drop_first(), b, now);
        } else {
            let next = pending.insert(k, resent(pending[k], now));
            lemma_retry_pass_append(next, a.drop_first(), b, now);
            let x = seq![publish_bytes(pending[k].packet@)];
            if !retry_stops(next, a.drop_first(), now) {
                assert(x + (retry_writes(next, a.drop_first(), now) + retry_writes(retry_pass(next, a.drop_first(), now), b, now))
                    =~= (x + retry_writes(next, a.drop_first(), now)) + retry_writes(retry_pass(next, a.drop_first(), now), b, now));
            }
        }
    }
}

/// When no packet is due, a retry pass changes nothing and writes nothing.
pub proof fn lemma_idle_retry_pass(pending: Map<u16, RetainedPacket>, order: Seq<u16>, now: u64)
    requires
        nothing_due(pending, now),
    ensures
        retry_pass(pending, order, now) == pending,
        retry_writes(pending, order, now) == Seq::<Seq<u8>>::empty(),
    decreases order.len(),
{
    if order.len() > 0 {
        lemma_idle_retry_pass(pending, order.drop_first(), now);
    }
}

/// `order` lists every identifier of `pending` once.
pub open spec fn visits_each_once(order: Seq<u16>, pending: Map<u16, RetainedPacket>) -> bool {
    order.no_duplicates() && order.to_set() == pending.dom()
}

/// A QoS 1 packet as retained for sending again: marked as a duplicate.
pub open spec fn as_duplicate(p: PublishPacket) -> PublishPacket {
    PublishPacket { topic: p.topic, payload: p.payload, qos: p.qos, retain: p.retain, dup: true, packet_id: p.packet_id }
}

/// Every retained packet was sent again at most `MAX_RETRIES` times.
pub open spec fn retries_bounded(pending: Map<u16, RetainedPacket>) -> bool {
    forall|k: u16| #[trigger] pending.contains_key(k) ==> pending[k].retry_count <= MAX_RETRIES
}

/// A retry pass adds no packet, keeps each remaining packet's publisher and
/// content, and never counts more than `MAX_RETRIES` sendings of one packet.
pub proof fn lemma_retry_pass_bounds(pending: Map<u16, RetainedPacket>, order: Seq<u16>, now: u64)
    requires
        retries_bounded(pending),
    ensures
        retry_pass(pending, order, now).dom().subset_of(pending.dom()),
        retries_bounded(retry_pass(pending, order, now)),
        forall|k: u16| #[trigger] retry_pass(pending, order, now).contains_key(k) ==> {
            &&& retry_pass(pending, order, now)[k].packet == pending[k].packet
            &&& retry_pass(pending, order, now)[k].sender == pending[k].sender
        },
    decreases order.len(),
{
    if order.len() > 0 {
        let k = order[0];
        if !pending.contains_key(k) {
            lemma_retry_pass_bounds(pending, order.drop_first(), now);
        } else if pending[k].retry_count >= MAX_RETRIES {
        } else if elapsed(pending[k].last_sent, now) <= RETRY_INTERVAL_MS {
            lemma_retry_pass_bounds(pending, order.drop_first(), now);
        } else {
            let next = pending.insert(k, resent(pending[k], now));
            assert(next.dom() =~= pending.dom());
            lemma_retry_pass_bounds(next, order.drop_first(), now);
        }
    }
}

/// A retry pass over identifiers that each come once drops no packet that
/// was sent again fewer than `MAX_RETRIES` times: only an exhausted packet
/// leaves, and any packet the pass does not visit stays.
pub proof fn lemma_retry_pass_keeps_live(pending: Map<u16, RetainedPacket>, order: Seq<u16>, now: u64)
    requires
        order.no_duplicates(),
    ensures
        forall|k: u16| #[trigger] pending.contains_key(k)
            && (pending[k].retry_count < MAX_RETRIES || !order.contains(k))
            ==> retry_pass(pending, order, now).contains_key(k),
    decreases order.len(),
{
    if order.len() > 0 {
        let k0 = order[0];
        let rest = order.drop_first();
        assert(rest.no_duplicates()) by {
            assert forall|i: int, j: int| 0 <= i < j < rest.len() implies rest[i] != rest[j] by {
                assert(rest[i] == order[i + 1] && rest[j] == order[j + 1]);
            }
        }
        assert(!rest.contains(k0)) by {
            if rest.contains(k0) {
                let i = choose|i: int| 0 <= i < rest.len() && rest[i] == k0;
                assert(order[i + 1] == order[0]);
            }
        }
        assert forall|k: u16| !order.contains(k) implies !rest.contains(k) by {
            if rest.contains(k) {
                let i = choose|i: int| 0 <= i < rest.len() && rest[i] == k;
                assert(order[i + 1] == k);
            }
        }
        assert(order.contains(k0)) by {
            assert(order[0] == k0);
        }
        let result = retry_pass(pending, order, now);
        if !pending.contains_key(k0) {
            lemma_retry_pass_keeps_live(pending, rest, now);
            assert(result == retry_pass(pending, rest, now));
            assert forall|k: u16| #[trigger] pending.contains_key(k)
                && (pending[k].retry_count < MAX_RETRIES || !order.contains(k)) implies result.contains_key(k) by {
                if !order.contains(k) {
                    assert(!rest.contains(k));
                }
            }
        } else if pending[k0].retry_count >= MAX_RETRIES {
            assert(result == pending.remove(k0));
        } else if elapsed(pending[k0].last_sent, now) <= RETRY_INTERVAL_MS {
            lemma_retry_pass_keeps_live(pending, rest, now);
            assert(result == retry_pass(pending, rest, now));
            assert forall|k: u16| #[trigger] pending.contains_key(k)
                && (pending[k].retry_count < MAX_RETRIES || !order.contains(k)) implies result.contains_key(k) by {
                if !order.contains(k) {
                    assert(!rest.contains(k));
                }
            }
        } else {
            let next = pending.insert(k0, resent(pending[k0], now));
            lemma_retry_pass_keeps_live(next, rest, now);
            assert(result == retry_pass(next, rest, now));
            assert forall|k: u16| #[trigger] pending.contains_key(k)
                && (pending[k].retry_count < MAX_RETRIES || !order.contains(k)) implies result.contains_key(k) by {
                assert(next.contains_key(k));
                if k == k0 {
                    assert(!rest.contains(k));
                } else {
                    assert(next[k] == pending[k]);
                    if !order.contains(k) {
                        assert(!rest.contains(k));
                    }
                }
            }
        }
    }
}

/// Acknowledging a packet undoes retaining it: retaining `r` under
/// `packet_id` and then removing that identifier leaves what removing it alone leaves.
pub proof fn lemma_ack_undoes_retain(pending: Map<u16, RetainedPacket>, packet_id: u16, r: RetainedPacket)
    ensures
        pending.insert(packet_id, r).remove(packet_id) == pending.remove(packet_id),
{
    assert(pending.insert(packet_id, r).remove(packet_id) =~= pending.remove(packet_id));
}

/// What the client's task does next, after a packet from the client.
pub enum ReceiveAction {
    /// Hand this PUBLISH to the message queue, with the client as its publisher.
    Forward(PublishPacket),
    /// The client acknowledged this packet identifier, which no longer waits;
    /// tell this publisher, when there is one, with a PUBACK for it.
    Acknowledged(u16, Option<ClientHandle>),
    /// Subscribe the client to each of these topic filters, in order, then
    /// write these SUBACK bytes.
    Subscribe(Vec<String>, Vec<u8>),
    /// Write a PINGRESP.
    Pong,
    /// The client ends the connection.
    Disconnect,
}

/// The publisher of the packet waiting under `packet_id`, if one waits.
pub open spec fn publisher_of(pending: Map<u16, RetainedPacket>, packet_id: u16) -> Option<ClientHandle> {
    if pending.contains_key(packet_id) {
        Some(pending[packet_id].sender)
    } else {
        None
    }
}

/// How the client's task carries out a command: first tell a publisher that
/// a packet identifier is acknowledged, then write bytes to the client's
/// connection. Either step may be absent.
pub struct SendAction {
    /// The publisher to send a PUBACK, and the packet identifier it acknowledges.
    pub acknowledge: Option<(ClientHandle, u16)>,
    /// The bytes to write to the client's connection.
    pub write: Option<Vec<u8>>,
}

/// The topic filters of a SUBSCRIBE's subscriptions, in order.
pub open spec fn filters_of(subscriptions: Seq<(Seq<char>, u8)>) -> Seq<Seq<char>> {
    subscriptions.map_values(|s: (Seq<char>, u8)| s.0)
}

/// The characters of each string.
pub open spec fn string_views(strings: Seq<String>) -> Seq<Seq<char>> {
    strings.map_values(|s: String| s@)
}

/// What to do after a packet from the client with the fixed header byte
/// `header` and the bytes `body` after it, and the pending packets
/// `pending` then: PUBLISH, PUBACK and SUBSCRIBE are read from `body`; a
/// PUBACK ends the wait for its packet, a SUBSCRIBE is answered with a SUBACK
/// that grants every filter QoS 0; any other type than those and PINGREQ and
/// DISCONNECT is refused.
pub open spec fn receive_outcome(
    header: u8,
    body: Seq<u8>,
    pending: Map<u16, RetainedPacket>,
    res: Result<ReceiveAction, PacketError>,
    pending_after: Map<u16, RetainedPacket>,
) -> bool {
    match spec_packet_kind(header / 16) {
        PacketKind::Publish => pending_after == pending && match spec_read_publish(body, header) {
            Ok(p) => res matches Ok(ReceiveAction::Forward(q)) && q@ == p,
            Err(e) => res == Err::<ReceiveAction, PacketError>(e),
        },
        PacketKind::Puback => match spec_read_puback(body, header) {
            Ok(id) => res == Ok::<ReceiveAction, PacketError>(ReceiveAction::Acknowledged(id, publisher_of(pending, id)))
                && pending_after == pending.remove(id),
            Err(e) => res == Err::<ReceiveAction, PacketError>(e) && pending_after == pending,
        },
        PacketKind::Subscribe => pending_after == pending && match spec_read_subscribe(body, header) {
            Ok(s) => res matches Ok(ReceiveAction::Subscribe(filters, suback))
                && string_views(filters@) == filters_of(s.subscriptions)
                && suback@ == suback_bytes(s.packet_id, Seq::new(s.subscriptions.len(), |i: int| 0x00u8)),
            Err(e) => res == Err::<ReceiveAction, PacketError>(e),
        },
        PacketKind::PingReq => res == Ok::<ReceiveAction, PacketError>(ReceiveAction::Pong) && pending_after == pending,
        PacketKind::Disconnect => res == Ok::<ReceiveAction, PacketError>(ReceiveAction::Disconnect)
            && pending_after == pending,
        PacketKind::Unknown(_) => res == Err::<ReceiveAction, PacketError>(PacketError::UnexpectedPacketType)
            && pending_after == pending,
    }
}

/// The client state that the broker's decisions read and change: its
/// identifier, its connection's writer, its command channel, the QoS 1
/// packets it has not acknowledged yet and when they were last looked at.
pub struct Client {
    client_id: String,
    writer: TcpWriterHandle,
    sender: CommandSender,
    pending_acks: HashMap<u16, RetainedPacket>,
    last_retry: u64,
}

impl Client {
    #[verifier::type_invariant]
    spec fn pending_packets_sendable(self) -> bool {
        forall|k: u16| #[trigger] self.pending_acks@.contains_key(k) ==> publish_sendable(self.pending_acks@[k].packet)
    }

    /// The client's identifier.
    pub closed spec fn id(self) -> Seq<char> {
        self.client_id@
    }

    /// The packets sent with QoS 1 and not yet acknowledged, by packet identifier.
    pub closed spec fn pending(self) -> Map<u16, RetainedPacket> {
        self.pending_acks@
    }

    /// When the unacknowledged packets were last looked at, in milliseconds.
    pub closed spec fn last_retry_at(self) -> u64 {
        self.last_retry
    }

    /// The handle to the task that writes to the client's connection.
    pub closed spec fn writer(self) -> TcpWriterHandle {
        self.writer
    }

    /// The sender of the client's own command channel.
    pub closed spec fn commands(self) -> CommandSender {
        self.sender
    }

    /// A client named `client_id` that writes through `writer` and receives
    /// commands on the channel of `sender`, with nothing pending, at `now`.
    pub fn new(client_id: String, writer: TcpWriterHandle, sender: UnboundedSender<ClientCommand>, now: u64) -> (client: Client)
        ensures
            client.id() == client_id@,
            client.pending() == Map::<u16, RetainedPacket>::empty(),
            client.last_retry_at() == now,
            client.writer() == writer,
    {
        broadcast use vstd::std_specs::hash::group_hash_axioms;
        Client { client_id, writer, sender: CommandSender::new(sender), pending_acks: HashMap::new(), last_retry: now }
    }

    /// The client's identifier.
    pub fn client_id(&self) -> (id: &String)
        ensures
            id@ == self.id(),
    {
        &self.client_id
    }

    /// A handle through which others reach this client.
    pub fn handle(&self) -> (handle: ClientHandle)
        ensures
            handle.client_id@ == self.id(),
            handle.sender == self.commands(),
    {
        ClientHandle { client_id: self.client_id.clone(), sender: self.sender.clone() }
    }

    /// Asks the writer task (`writer()`) to write `bytes` to the client's connection.
    /// When the writer task is gone, the request comes back.
    pub fn write_packet(&self, bytes: &[u8]) -> (res: Result<(), TcpWriterMsg>)
        ensures
            res matches Err(back) ==> (back matches TcpWriterMsg::WritePacket(b) && b@ == bytes@),
    {
        self.writer.write_packet(bytes)
    }

    /// Whether it is time to look at the unacknowledged packets again.
    pub fn retry_due(&self, now: u64) -> (due: bool)
        ensures
            due == (elapsed(self.last_retry_at(), now) >= RETRY_CHECK_INTERVAL_MS),
    {
        let since = if now >= self.last_retry { now - self.last_retry } else { 0 };
        since >= RETRY_CHECK_INTERVAL_MS
    }

    /// Records that the unacknowledged packets were looked at, at `now`.
    pub fn mark_retried(&mut self, now: u64)
        ensures
            final(self).last_retry_at() == now,
            final(self).pending() == old(self).pending(),
            final(self).id() == old(self).id(),
            final(self).writer() == old(self).writer(),
    {
        proof {
            use_type_invariant(&*self);
        }
        self.last_retry = now;
    }

    /// Decides how to carry out a command from the client's channel: write a
    /// PUBACK, or a PUBLISH. A QoS 1 PUBLISH is first retained as
    /// unacknowledged (marked as a duplicate, not yet sent again, sent at
    /// `now`) and acknowledged to its publisher; a PUBLISH with a QoS above 2
    /// is ignored.
    pub fn try_send_packet(&mut self, command: ClientCommand, now: u64) -> (action: SendAction)
        requires
            command matches ClientCommand::Publish((p, _)) ==> {
                &&& p.qos != 2
                &&& p.qos == 1 ==> p.packet_id is Some
                &&& publish_sendable(p)
            },
        ensures
            final(self).id() == old(self).id(),
            final(self).last_retry_at() == old(self).last_retry_at(),
            final(self).writer() == old(self).writer(),
            match command {
                ClientCommand::Publish((p, s)) => if p.qos > 2 {
                    &&& action.acknowledge is None
                    &&& action.write is None
                    &&& final(self).pending() == old(self).pending()
                } else if p.qos == 1 {
                    &&& action.acknowledge == Some((s, p.packet_id->Some_0))
                    &&& action.write matches Some(bytes) && bytes@ == publish_bytes(p@)
                    &&& final(self).pending() == old(self).pending().insert(
                        p.packet_id->Some_0,
                        RetainedPacket { sender: s, packet: as_duplicate(p), retry_count: 0, last_sent: now },
                    )
                } else {
                    &&& action.acknowledge is None
                    &&& action.write matches Some(bytes) && bytes@ == publish_bytes(p@)
                    &&& final(self).pending() == old(self).pending()
                },
                ClientCommand::Puback(a) => {
                    &&& action.acknowledge is None
                    &&& action.write matches Some(bytes) && bytes@ == puback_bytes(a.packet_id)
                    &&& final(self).pending() == old(self).pending()
                },
            },
    {
        broadcast use vstd::std_specs::hash::group_hash_axioms;
        proof {
            use_type_invariant(&*self);
        }
        match command {
            ClientCommand::Publish((packet, sender)) => {
                if packet.qos > 2 {
                    return SendAction { acknowledge: None, write: None };
                }
                let bytes = packet.encode();
                if packet.qos == 1 {
                    let packet_id = match packet.packet_id {
                        Some(id) => id,
                        None => return SendAction { acknowledge: None, write: Some(bytes) },
                    };
                    let retained = RetainedPacket {
                        sender: sender.clone(),
                        packet: PublishPacket {
                            topic: packet.topic,
                            payload: packet.payload,
                            qos: packet.qos,
                            retain: packet.retain,
                            dup: true,
                            packet_id: packet.packet_id,
                        },
                        retry_count: 0,
                        last_sent: now,
                    };
                    let mut pending: HashMap<u16, RetainedPacket> = HashMap::new();
                    std::mem::swap(&mut pending, &mut self.pending_acks);
                    pending.insert(packet_id, retained);
                    self.pending_acks = pending;
                    SendAction { acknowledge: Some((sender, packet_id)), write: Some(bytes) }
                } else {
                    SendAction { acknowledge: None, write: Some(bytes) }
                }
            },
            ClientCommand::Puback(packet) => SendAction { acknowledge: None, write: Some(packet.encode()) },
        }
    }

    /// The client acknowledged the PUBLISH `packet_id`: it no longer waits.
    /// The publisher to tell, when it was waiting.
    pub fn handle_puback(&mut self, packet_id: u16) -> (publisher: Option<ClientHandle>)
        ensures
            publisher == publisher_of(old(self).pending(), packet_id),
            final(self).pending() == old(self).pending().remove(packet_id),
            final(self).id() == old(self).id(),
            final(self).last_retry_at() == old(self).last_retry_at(),
            final(self).writer() == old(self).writer(),
    {
        broadcast use vstd::std_specs::hash::group_hash_axioms;
        proof {
            use_type_invariant(&*self);
        }
        let mut pending: HashMap<u16, RetainedPacket> = HashMap::new();
        std::mem::swap(&mut pending, &mut self.pending_acks);
        let removed = pending.remove(&packet_id);
        self.pending_acks = pending;
        match removed {
            Some(retained) => Some(retained.sender),
            None => {
                assert(self.pending_acks@ =~= old(self).pending_acks@.remove(packet_id));
                None
            },
        }
    }

    /// Decides what a packet from the client asks for: `fixed_header` is its
    /// first byte and `body` what follows it (for PUBLISH, PUBACK and
    /// SUBSCRIBE the remaining length and the bytes it announces; the body of
    /// a PINGREQ or DISCONNECT is not looked at). A PUBACK ends the wait for
    /// its packet at once, as `handle_puback` does.
    pub fn receive_packet(&mut self, fixed_header: u8, body: &[u8]) -> (res: Result<ReceiveAction, PacketError>)
        ensures
            final(self).id() == old(self).id(),
            final(self).last_retry_at() == old(self).last_retry_at(),
            final(self).writer() == old(self).writer(),
            receive_outcome(fixed_header, body@, old(self).pending(), res, final(self).pending()),
    {
        match packet_kind(fixed_header) {
            PacketKind::Publish => match PublishPacket::read(body, fixed_header) {
                Ok(packet) => Ok(ReceiveAction::Forward(packet)),
                Err(e) => Err(e),
            },
            PacketKind::Puback => match PubackPacket::read(body, fixed_header) {
                Ok(packet) => {
                    let publisher = self.handle_puback(packet.packet_id);
                    Ok(ReceiveAction::Acknowledged(packet.packet_id, publisher))
                },
                Err(e) => Err(e),
            },
            PacketKind::Subscribe => match SubscribePacket::read(body, fixed_header) {
                Ok(packet) => {
                    let mut filters: Vec<String> = Vec::new();
                    let mut i: usize = 0;
                    while i < packet.subscriptions.len()
                        invariant
                            i <= packet.subscriptions@.len(),
                            string_views(filters@) == filters_of(packet@.subscriptions).take(i as int),
                        decreases packet.subscriptions@.len() - i,
                    {
                        let ghost before = filters@;
                        let filter = packet.subscriptions[i].topic_filter.clone();
                        filters.push(filter);
                        assert(string_views(filters@) =~= string_views(before).push(filter@));
                        assert(filters_of(packet@.subscriptions).take(i + 1)
                            =~= filters_of(packet@.subscriptions).take(i as int).push(filter@));
                        i = i + 1;
                    }
                    assert(filters_of(packet@.subscriptions).take(i as int) =~= filters_of(packet@.subscriptions));
                    assert(body@.len() == body.len());
                    let suback = SubackPacket::success_qos0(packet.packet_id, packet.subscriptions.len());
                    assert(suback.return_codes@.len() == packet.subscriptions@.len());
                    let bytes = suback.encode();
                    Ok(ReceiveAction::Subscribe(filters, bytes))
                },
                Err(e) => Err(e),
            },
            PacketKind::PingReq => Ok(ReceiveAction::Pong),
            PacketKind::Disconnect => Ok(ReceiveAction::Disconnect),
            PacketKind::Unknown(_) => Err(PacketError::UnexpectedPacketType),
        }
    }

    /// A retry pass at `now`: the unacknowledged packets that waited more than
    /// `RETRY_INTERVAL_MS` are to be sent again (they are already marked as
    /// duplicates); one that was sent `MAX_RETRIES` times is dropped, which
    /// ends the pass. Returns the bytes to write, in order.
    pub fn retry_packets(&mut self, now: u64) -> (writes: Vec<Vec<u8>>)
        ensures
            final(self).id() == old(self).id(),
            final(self).last_retry_at() == old(self).last_retry_at(),
            final(self).writer() == old(self).writer(),
            exists|order: Seq<u16>|
                visits_each_once(order, old(self).pending())
                && final(self).pending() == #[trigger] retry_pass(old(self).pending(), order, now)
                && byte_views(writes@) == retry_writes(old(self).pending(), order, now),
            nothing_due(old(self).pending(), now) ==> {
                &&& final(self).pending() == old(self).pending()
                &&& writes@.len() == 0
            },
    {
        broadcast use vstd::std_specs::hash::group_hash_axioms;
        proof {
            use_type_invariant(&*self);
        }
        let ghost start = self.pending_acks@;
        let ghost all_keys = vstd::std_specs::iter::IteratorSpec::remaining(&vstd::std_specs::hash::spec_keys_iter(&self.pending_acks));
        let mut keys: Vec<u16> = Vec::new();
        for k in it: self.pending_acks.keys()
            invariant
                keys@.len() == it.index(),
                it.seq() == all_keys,
                forall|i: int| 0 <= i < it.index() ==> keys@[i] == *it.seq()[i],
        {
            keys.push(*k);
        }
        assert(keys@ =~= all_keys.unref());
        assert(visits_each_once(keys@, start));
        proof {
            if nothing_due(start, now) {
                lemma_idle_retry_pass(start, keys@, now);
            }
        }
        let mut pending: HashMap<u16, RetainedPacket> = HashMap::new();
        std::mem::swap(&mut pending, &mut self.pending_acks);
        assert(pending@ == start);
        assert(keys@.take(0) =~= Seq::<u16>::empty());
        let mut writes: Vec<Vec<u8>> = Vec::new();
        assert(byte_views(writes@) =~= Seq::<Seq<u8>>::empty());
        let mut i: usize = 0;
        while i < keys.len()
            invariant
                i <= keys@.len(),
                start == old(self).pending(),
                visits_each_once(keys@, start),
                nothing_due(start, now) ==> retry_pass(start, keys@, now) == start
                    && retry_writes(start, keys@, now) == Seq::<Seq<u8>>::empty(),
                forall|k: u16| #[trigger] pending@.contains_key(k) ==> publish_sendable(pending@[k].packet),
                pending@ == retry_pass(start, keys@.take(i as int), now),
                byte_views(writes@) == retry_writes(start, keys@.take(i as int), now),
                !retry_stops(start, keys@.take(i as int), now),
                self.pending_acks@ == Map::<u16, RetainedPacket>::empty(),
                self.client_id@ == old(self).client_id@,
                self.last_retry == old(self).last_retry,
                self.writer == old(self).writer,
            decreases keys@.len() - i,
        {
            let k = keys[i];
            let ghost current = pending@;
            let ghost done = byte_views(writes@);
            proof {
                lemma_retry_pass_append(start, keys@.take(i as int), seq![k], now);
                assert(keys@.take(i + 1) =~= keys@.take(i as int) + seq![k]);
                assert(seq![k][0] == k);
                assert(seq![k].drop_first() =~= Seq::<u16>::empty());
                reveal_with_fuel(retry_pass, 2);
                reveal_with_fuel(retry_stops, 2);
                reveal_with_fuel(retry_writes, 2);
            }
            match pending.remove(&k) {
                None => {
                    assert(!current.contains_key(k));
                    assert(pending@ =~= current);
                    assert(done + Seq::<Seq<u8>>::empty() =~= done);
                },
                Some(r) => {
                    assert(current.contains_key(k) && current[k] == r);
                    assert(pending@ == current.remove(k));
                    if r.retry_count >= MAX_RETRIES {
                        self.pending_acks = pending;
                        proof {
                            assert(done + Seq::<Seq<u8>>::empty() =~= done);
                            assert(retry_stops(start, keys@.take(i + 1), now));
                            lemma_retry_pass_append(start, keys@.take(i + 1), keys@.skip(i + 1), now);
                            assert(keys@.take(i + 1) + keys@.skip(i + 1) =~= keys@);
                        }
                        return writes;
                    }
                    let since = if now >= r.last_sent { now - r.last_sent } else { 0 };
                    if since <= RETRY_INTERVAL_MS {
                        pending.insert(k, r);
                        assert(pending@ =~= current);
                        assert(done + Seq::<Seq<u8>>::empty() =~= done);
                    } else {
                        let bytes = r.packet.encode();
                        let again = RetainedPacket {
                            sender: r.sender,
                            packet: r.packet,
                            retry_count: r.retry_count + 1,
                            last_sent: now,
                        };
                        pending.insert(k, again);
                        assert(pending@ =~= current.insert(k, resent(current[k], now)));
                        let ghost written = bytes@;
                        writes.push(bytes);
                        assert(byte_views(writes@) =~= done.push(written));
                        assert(done + (seq![written] + Seq::<Seq<u8>>::empty()) =~= done.push(written));
                    }
                },
            }
            i = i + 1;
        }
        assert(keys@.take(i as int) =~= keys@);
        self.pending_acks = pending;
        writes
    }
}

} // verus!

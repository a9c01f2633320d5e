//! Reliable, ordered delivery of small messages.
//!
//! The sender gives each message the next id and keeps it until a packet that
//! carried it is confirmed by the peer; a message not confirmed is sent again
//! once the resend time has passed. The receiver keeps what arrives ahead of
//! the next id to deliver, and hands the messages out in the order of their ids,
//! each once.
use vstd::prelude::*;
use crate::ack::steps_back;
use crate::error::{DisconnectionReason, RenetError};
use crate::packet::{read_u16, AckData, Payload};
use crate::pieces::held;
use crate::wire::{
    le_u16, lemma_u16_bytes, lemma_u16_round_trip, u16_from_le, views, write_u16, WireFormat,
};

verus! {

/// A message of a reliable channel. The id counts the messages of the channel
/// and is what the peer acknowledges; it is not the sequence number of a packet.
#[derive(Clone, Debug, PartialEq, Eq)]
pub struct ReliableMessage {
    pub id: u16,
    pub payload: Payload,
}

/// A reliable message as a mathematical value.
pub struct ReliableMessageView {
    pub id: u16,
    pub payload: Seq<u8>,
}

impl View for ReliableMessage {
    type V = ReliableMessageView;

    open spec fn view(&self) -> ReliableMessageView {
        ReliableMessageView { id: self.id, payload: self.payload@ }
    }
}

/// On the wire: the id in 16 bits, then the payload as a byte string.
impl WireFormat for ReliableMessage {
    open spec fn valid(v: ReliableMessageView) -> bool {
        Payload::valid(v.payload)
    }

    open spec fn wire(v: ReliableMessageView) -> Seq<u8> {
        le_u16(v.id) + Payload::wire(v.payload)
    }

    open spec fn size(v: ReliableMessageView) -> nat {
        2 + Payload::size(v.payload)
    }

    open spec fn parse(bytes: Seq<u8>) -> Option<(ReliableMessageView, int)> {
        if bytes.len() < 2 {
            None
        } else {
            match Payload::parse(bytes.skip(2)) {
                Some((payload, n)) => Some(
                    (ReliableMessageView { id: u16_from_le(bytes), payload }, 2 + n),
                ),
                None => None,
            }
        }
    }

    proof fn lemma_size(v: ReliableMessageView) {
        Payload::lemma_size(v.payload);
    }

    proof fn lemma_parse_wire(v: ReliableMessageView, rest: Seq<u8>) {
        let bytes = Self::wire(v) + rest;
        let tail = Payload::wire(v.payload) + rest;
        lemma_u16_round_trip(v.id, tail);
        assert(bytes =~= le_u16(v.id) + tail);
        assert(bytes.skip(2) =~= tail);
        Payload::lemma_parse_wire(v.payload, rest);
    }

    proof fn lemma_wire_parse(bytes: Seq<u8>) {
        if let Some((v, n)) = Self::parse(bytes) {
            lemma_u16_bytes(bytes);
            Payload::lemma_wire_parse(bytes.skip(2));
            assert(bytes.subrange(0, n) =~= bytes.subrange(0, 2) + bytes.skip(2).subrange(
                0,
                n - 2,
            ));
        }
    }

    fn measure(&self) -> (size: usize) {
        self.payload.measure().saturating_add(2)
    }

    fn write(&self, out: &mut Vec<u8>) {
        write_u16(out, self.id);
        self.payload.write(out);
        assert(out@ =~= old(out)@ + Self::wire(self@));
    }

    fn read(src: &mut &[u8]) -> (r: Result<Self, std::io::Error>) {
        let mut cur: &[u8] = *src;
        let id = match read_u16(&mut cur) {
            Ok(id) => id,
            Err(e) => return Err(e),
        };
        let payload = match Payload::read(&mut cur) {
            Ok(payload) => payload,
            Err(e) => return Err(e),
        };
        proof {
            let n = (Payload::parse(old(src)@.skip(2))->0).1;
            Payload::lemma_wire_parse(old(src)@.skip(2));
            assert(old(src)@.skip(2).skip(n) =~= old(src)@.skip(2 + n));
        }
        *src = cur;
        Ok(ReliableMessage { id, payload })
    }
}

/// What a reliable channel is set up with.
#[derive(Clone, Copy, Debug, PartialEq, Eq)]
pub struct ReliableChannelConfig {
    pub channel_id: u8,
    /// How far the id of a new message may lie ahead of the oldest message
    /// that is not acknowledged yet.
    pub message_send_queue_size: u16,
    /// How many ids, from the next one to deliver on, the receiver holds
    /// messages for.
    pub message_receive_queue_size: u16,
    /// How many packets that carried messages are remembered until the peer
    /// confirms them.
    pub sent_packet_buffer_size: u16,
    /// The longest payload that is accepted for sending.
    pub max_message_size: u16,
    /// How many ticks pass before a message that was not acknowledged is sent
    /// again.
    pub message_resend_time: u64,
}

/// A message that waits for its acknowledgement, and the tick at which it was
/// last put into a packet.
pub struct SentMessageView {
    pub id: u16,
    pub payload: Seq<u8>,
    pub last_time_sent: Option<u64>,
}

/// A packet that carried messages of the channel, and their ids.
pub struct SentPacketView {
    pub sequence: u16,
    pub message_ids: Seq<u16>,
}

/// A reliable channel as a mathematical value.
pub struct ReliableChannelView {
    pub config: ReliableChannelConfig,
    /// The id that the next message sent will get.
    pub send_message_id: u16,
    /// The messages that wait for their acknowledgement, oldest first.
    pub messages_send: Seq<SentMessageView>,
    /// The packets that carried messages and are not confirmed yet, oldest
    /// first.
    pub packets_sent: Seq<SentPacketView>,
    /// Whether a message was refused for want of room: the connection has to
    /// end.
    pub out_of_sync: bool,
    /// The id of the next message to deliver.
    pub received_message_id: u16,
    /// What has arrived of the message `received_message_id` and of those
    /// after it, by how far their ids lie ahead.
    pub messages_received: Seq<Option<Seq<u8>>>,
}

/// The id after `id`, counted round the 16 bits.
pub open spec fn next_id(id: u16) -> u16 {
    if id == u16::MAX {
        0
    } else {
        (id + 1) as u16
    }
}

/// The packets remembered after `packet` was sent: where the buffer is full
/// the oldest makes room.
pub open spec fn remember<P>(packets: Seq<P>, packet: P, size: int) -> Seq<P> {
    if size <= 0 {
        packets
    } else if packets.len() >= size {
        packets.skip(1).push(packet)
    } else {
        packets.push(packet)
    }
}

/// The message as it travels.
pub open spec fn message_of(sent: SentMessageView) -> ReliableMessageView {
    ReliableMessageView { id: sent.id, payload: sent.payload }
}

/// Whether the messages that wait lie behind the id `next` by no more than
/// `room`, the older the further.
pub open spec fn waiting_in_order(next: u16, messages: Seq<SentMessageView>, room: int) -> bool {
    &&& forall|i: int|
        0 <= i < messages.len() ==> 1 <= steps_back(next, (#[trigger] messages[i]).id) <= room
    &&& forall|i: int, j: int|
        0 <= i < j < messages.len() ==> steps_back(next, (#[trigger] messages[j]).id)
            < steps_back(next, (#[trigger] messages[i]).id)
}

impl ReliableChannelView {
    /// The channel before anything was sent or received.
    pub open spec fn new(config: ReliableChannelConfig) -> ReliableChannelView {
        ReliableChannelView {
            config,
            send_message_id: 0,
            messages_send: Seq::empty(),
            packets_sent: Seq::empty(),
            out_of_sync: false,
            received_message_id: 0,
            messages_received: Seq::new(
                config.message_receive_queue_size as nat,
                |d: int| None::<Seq<u8>>,
            ),
        }
    }

    /// What holds of every channel: the receiver has a place for each id of
    /// its queue; no more packets are remembered than the buffer takes; the
    /// messages that wait lie behind the next id by no more than the send
    /// queue's size, the older the further, and none is longer than the limit.
    pub open spec fn wf(self) -> bool {
        &&& self.messages_received.len() == self.config.message_receive_queue_size
        &&& self.packets_sent.len() <= self.config.sent_packet_buffer_size
        &&& waiting_in_order(
            self.send_message_id,
            self.messages_send,
            self.config.message_send_queue_size as int,
        )
        &&& forall|i: int|
            0 <= i < self.messages_send.len() ==> (#[trigger] self.messages_send[i]).payload.len()
                <= self.config.max_message_size
    }

    /// Whether one more message can wait for its acknowledgement.
    pub open spec fn has_room(self) -> bool {
        if self.messages_send.len() == 0 {
            self.config.message_send_queue_size > 0
        } else {
            steps_back(self.send_message_id, self.messages_send[0].id)
                < self.config.message_send_queue_size
        }
    }

    /// The channel after a call to send `payload`, and what the caller is
    /// told. A payload over the limit is refused. A channel that is out of
    /// sync sends nothing more. A message for which there is no room is
    /// refused, and the channel is out of sync from then on. Else the message
    /// gets the next id and waits for its acknowledgement.
    pub open spec fn send(self, payload: Seq<u8>) -> (ReliableChannelView, Result<(), RenetError>) {
        if payload.len() > self.config.max_message_size {
            (self, Err(RenetError::MessageSizeAboveLimit))
        } else if self.out_of_sync {
            (
                self,
                Err(
                    RenetError::ClientDisconnected(
                        DisconnectionReason::ReliableChannelOutOfSync(self.config.channel_id),
                    ),
                ),
            )
        } else if !self.has_room() {
            (
                ReliableChannelView { out_of_sync: true, ..self },
                Err(RenetError::ChannelMaxMessagesLimit),
            )
        } else {
            (
                ReliableChannelView {
                    send_message_id: next_id(self.send_message_id),
                    messages_send: self.messages_send.push(
                        SentMessageView {
                            id: self.send_message_id,
                            payload,
                            last_time_sent: None,
                        },
                    ),
                    ..self
                },
                Ok(()),
            )
        }
    }

    /// Whether a message that waits is to go into a packet made at `now`: it
    /// was never sent, or the resend time has passed since it last was.
    pub open spec fn is_due(self, message: SentMessageView, now: u64) -> bool {
        match message.last_time_sent {
            None => true,
            Some(t) => now >= t && now - t >= self.config.message_resend_time,
        }
    }

    /// Whether a message is due at `now`, as a function of the message.
    pub open spec fn due(self, now: u64) -> spec_fn(SentMessageView) -> bool {
        |message: SentMessageView| self.is_due(message, now)
    }

    /// The messages that wait and are due at `now`, oldest first. A channel
    /// that is out of sync has none.
    pub open spec fn due_messages(self, now: u64) -> Seq<SentMessageView> {
        if self.out_of_sync {
            Seq::empty()
        } else {
            self.messages_send.filter(self.due(now))
        }
    }

    /// The messages that a packet made at `now` carries for the channel.
    pub open spec fn messages_to_send(self, now: u64) -> Seq<ReliableMessageView> {
        self.due_messages(now).map_values(|sent: SentMessageView| message_of(sent))
    }

    /// The channel after the packet `sequence` was made at `now`: the
    /// messages that went into it were last sent at `now`, and the packet is
    /// remembered with their ids. Where no message was due nothing changes.
    pub open spec fn after_sending(self, sequence: u16, now: u64) -> ReliableChannelView {
        let due = self.due_messages(now);
        if due.len() == 0 {
            self
        } else {
            ReliableChannelView {
                messages_send: self.messages_send.map_values(
                    |sent: SentMessageView|
                        if self.is_due(sent, now) {
                            SentMessageView { last_time_sent: Some(now), ..sent }
                        } else {
                            sent
                        },
                ),
                packets_sent: remember(
                    self.packets_sent,
                    SentPacketView {
                        sequence,
                        message_ids: due.map_values(|sent: SentMessageView| sent.id),
                    },
                    self.config.sent_packet_buffer_size as int,
                ),
                ..self
            }
        }
    }

    /// Whether `ack_data` confirms a remembered packet that carried the
    /// message `id`.
    pub open spec fn is_acked(self, ack_data: AckData, id: u16) -> bool {
        exists|i: int|
            0 <= i < self.packets_sent.len() && ack_data.spec_confirms(
                (#[trigger] self.packets_sent[i]).sequence,
            ) && self.packets_sent[i].message_ids.contains(id)
    }

    /// Whether a message is not acknowledged by `ack_data`, as a function of the
    /// message.
    pub open spec fn not_acked(self, ack_data: AckData) -> spec_fn(SentMessageView) -> bool {
        |sent: SentMessageView| !self.is_acked(ack_data, sent.id)
    }

    /// Whether a packet is not confirmed by `ack_data`, as a function of the
    /// packet.
    pub open spec fn not_confirmed(ack_data: AckData) -> spec_fn(SentPacketView) -> bool {
        |packet: SentPacketView| !ack_data.spec_confirms(packet.sequence)
    }

    /// The channel after ack data of the peer was taken in: the packets
    /// that it confirms are forgotten, and the messages that they carried no
    /// longer wait.
    pub open spec fn process_ack(self, ack_data: AckData) -> ReliableChannelView {
        ReliableChannelView {
            messages_send: self.messages_send.filter(self.not_acked(ack_data)),
            packets_sent: self.packets_sent.filter(Self::not_confirmed(ack_data)),
            ..self
        }
    }

    /// How far `id` lies ahead of the next message to deliver.
    pub open spec fn ahead(self, id: u16) -> int {
        steps_back(id, self.received_message_id)
    }

    /// Whether a message with this id is kept when it arrives: its id lies
    /// within the receive queue and no message with that id is held yet.
    pub open spec fn accepts(self, id: u16) -> bool {
        self.ahead(id) < self.messages_received.len() && self.messages_received[self.ahead(id)]
            is None
    }

    /// The channel after a message of the peer arrived. A message that is
    /// not accepted is dropped and leaves no trace.
    pub open spec fn receive(self, message: ReliableMessageView) -> ReliableChannelView {
        if self.accepts(message.id) {
            ReliableChannelView {
                messages_received: self.messages_received.update(
                    self.ahead(message.id),
                    Some(message.payload),
                ),
                ..self
            }
        } else {
            self
        }
    }

    /// The channel after the messages arrived one after the other.
    pub open spec fn receive_all(self, messages: Seq<ReliableMessageView>) -> ReliableChannelView
        decreases messages.len(),
    {
        if messages.len() == 0 {
            self
        } else {
            self.receive_all(messages.drop_last()).receive(messages.last())
        }
    }

    /// The channel after a call for the next message, and the message handed
    /// out: the one with the id `received_message_id`, if it has arrived.
    pub open spec fn deliver(self) -> (ReliableChannelView, Option<Seq<u8>>) {
        if self.messages_received.len() > 0 && self.messages_received[0] is Some {
            (
                ReliableChannelView {
                    received_message_id: next_id(self.received_message_id),
                    messages_received: self.messages_received.skip(1).push(None),
                    ..self
                },
                self.messages_received[0],
            )
        } else {
            (self, None)
        }
    }

    /// Whether the message `id` lies behind the next one to deliver: it was
    /// handed out already.
    pub open spec fn was_delivered(self, id: u16) -> bool {
        1 <= steps_back(self.received_message_id, id) <= 0x1_0000 - self.messages_received.len()
    }
}

/// A message that waits and is not sent again in a packet was sent less than
/// one resend time ago; one that is due goes into the packet as it is, and is
/// marked as sent at that tick. Either way it goes on waiting, with the id and
/// the payload it had.
pub proof fn lemma_retransmission(channel: ReliableChannelView, sequence: u16, now: u64, i: int)
    requires
        !channel.out_of_sync,
        0 <= i < channel.messages_send.len(),
    ensures
        ({
            let message = channel.messages_send[i];
            let after = channel.after_sending(sequence, now);
            &&& after.messages_send.len() == channel.messages_send.len()
            &&& after.messages_send[i].id == message.id
            &&& after.messages_send[i].payload == message.payload
            &&& after.config == channel.config
            &&& after.out_of_sync == channel.out_of_sync
            &&& channel.is_due(message, now) ==> channel.messages_to_send(now).contains(
                message_of(message),
            ) && after.messages_send[i].last_time_sent == Some(now)
            &&& !channel.is_due(message, now) ==> after.messages_send[i] == message
            &&& !channel.is_due(message, now) ==> (message.last_time_sent matches Some(t) && (now
                < t || now - t < channel.config.message_resend_time))
        }),
{
    let message = channel.messages_send[i];
    let due = channel.due_messages(now);
    if channel.is_due(message, now) {
        channel.messages_send.lemma_filter_contains(channel.due(now), i);
        let k = choose|k: int| 0 <= k < due.len() && due[k] == message;
        assert(channel.messages_to_send(now)[k] == message_of(message));
    } else {
        if due.len() > 0 {
        }
    }
}

/// A message leaves the channel only by an acknowledgement. After ack data
/// was taken in, the messages that wait are those that waited before and
/// went in no packet that the ack data confirms, as they were and in their
/// order.
pub proof fn lemma_only_acked_messages_leave(channel: ReliableChannelView, ack_data: AckData)
    requires
        channel.wf(),
    ensures
        channel.process_ack(ack_data).wf(),
        forall|i: int|
            0 <= i < channel.messages_send.len() && !channel.is_acked(
                ack_data,
                (#[trigger] channel.messages_send[i]).id,
            ) ==> channel.process_ack(ack_data).messages_send.contains(channel.messages_send[i]),
        forall|k: int|
            0 <= k < channel.process_ack(ack_data).messages_send.len() ==> {
                let message = #[trigger] channel.process_ack(ack_data).messages_send[k];
                channel.messages_send.contains(message) && !channel.is_acked(ack_data, message.id)
            },
{
    let keep = channel.not_acked(ack_data);
    let after = channel.process_ack(ack_data);
    lemma_filter_keeps_order(
        channel.send_message_id,
        channel.messages_send,
        channel.config.message_send_queue_size as int,
        channel.config.max_message_size as int,
        keep,
    );
    channel.packets_sent.lemma_filter_len(ReliableChannelView::not_confirmed(ack_data));
    assert forall|i: int|
        0 <= i < channel.messages_send.len() && !channel.is_acked(
            ack_data,
            (#[trigger] channel.messages_send[i]).id,
        ) implies after.messages_send.contains(channel.messages_send[i]) by {
        channel.messages_send.lemma_filter_contains(keep, i);
    }
    assert forall|k: int| 0 <= k < after.messages_send.len() implies {
        let message = #[trigger] after.messages_send[k];
        channel.messages_send.contains(message) && !channel.is_acked(ack_data, message.id)
    } by {
        channel.messages_send.lemma_filter_pred(keep, k);
    }
}

/// A channel whose send queue is full takes no further message: the call
/// fails, the channel is out of sync from then on, and every later call to
/// send fails for that reason. The messages that wait are kept.
pub proof fn lemma_full_queue(channel: ReliableChannelView, payload: Seq<u8>, later: Seq<u8>)
    requires
        !channel.out_of_sync,
        !channel.has_room(),
        payload.len() <= channel.config.max_message_size,
        later.len() <= channel.config.max_message_size,
    ensures
        channel.send(payload).1 == Err::<(), RenetError>(RenetError::ChannelMaxMessagesLimit),
        channel.send(payload).0.out_of_sync,
        channel.send(payload).0.messages_send == channel.messages_send,
        channel.send(payload).0.send(later) == (
            channel.send(payload).0,
            Err::<(), RenetError>(
                RenetError::ClientDisconnected(
                    DisconnectionReason::ReliableChannelOutOfSync(channel.config.channel_id),
                ),
            ),
        ),
{
}

/// A message handed out lies behind the next one to deliver from then on,
/// and a message that lies behind it is dropped when it arrives again: the
/// channel stays as it is, so nothing is handed out for it. A message stays
/// behind whatever else arrives, and as further messages are handed out,
/// until the ids have gone round.
pub proof fn lemma_delivered_once(
    channel: ReliableChannelView,
    duplicate: ReliableMessageView,
    other: ReliableMessageView,
)
    requires
        channel.wf(),
    ensures
        channel.deliver().1 is Some ==> channel.deliver().0.was_delivered(
            channel.received_message_id,
        ),
        channel.was_delivered(duplicate.id) ==> channel.receive(duplicate) == channel,
        channel.was_delivered(duplicate.id) ==> channel.receive(other).was_delivered(duplicate.id),
        channel.was_delivered(duplicate.id) && steps_back(
            channel.received_message_id,
            duplicate.id,
        ) + channel.messages_received.len() < 0x1_0000 ==> channel.deliver().0.was_delivered(
            duplicate.id,
        ),
{
}

/// A message that is held already is dropped when it arrives again.
pub proof fn lemma_held_once(channel: ReliableChannelView, message: ReliableMessageView)
    requires
        channel.wf(),
    ensures
        channel.receive(message).receive(message) == channel.receive(message),
{
    let once = channel.receive(message);
    if channel.accepts(message.id) {
        assert(!once.accepts(message.id));
    }
}

proof fn lemma_filter_keeps_order(
    next: u16,
    messages: Seq<SentMessageView>,
    room: int,
    limit: int,
    keep: spec_fn(SentMessageView) -> bool,
)
    requires
        waiting_in_order(next, messages, room),
        forall|i: int| 0 <= i < messages.len() ==> (#[trigger] messages[i]).payload.len() <= limit,
    ensures
        waiting_in_order(next, messages.filter(keep), room),
        forall|i: int|
            0 <= i < messages.filter(keep).len() ==> (#[trigger] messages.filter(
                keep,
            )[i]).payload.len() <= limit,
        forall|i: int|
            0 <= i < messages.filter(keep).len() ==> messages.contains(
                #[trigger] messages.filter(keep)[i],
            ),
    decreases messages.len(),
{
    reveal(Seq::filter);
    if messages.len() > 0 {
        let front = messages.drop_last();
        let last = messages.last();
        lemma_filter_keeps_order(next, front, room, limit, keep);
        let kept = front.filter(keep);
        assert forall|i: int| 0 <= i < kept.len() implies steps_back(next, last.id) < steps_back(
            next,
            (#[trigger] kept[i]).id,
        ) && messages.contains(kept[i]) by {
            assert(front.contains(kept[i]));
            let k = choose|k: int| 0 <= k < front.len() && front[k] == kept[i];
            assert(messages[k] == kept[i]);
        }
        if keep(last) {
            assert(messages[messages.len() - 1] == last);
        }
    }
}

struct MessageSend {
    message: ReliableMessage,
    last_time_sent: Option<u64>,
}

impl View for MessageSend {
    type V = SentMessageView;

    closed spec fn view(&self) -> SentMessageView {
        SentMessageView {
            id: self.message.id,
            payload: self.message.payload@,
            last_time_sent: self.last_time_sent,
        }
    }
}

struct PacketSent {
    sequence: u16,
    message_ids: Vec<u16>,
}

impl View for PacketSent {
    type V = SentPacketView;

    closed spec fn view(&self) -> SentPacketView {
        SentPacketView { sequence: self.sequence, message_ids: self.message_ids@ }
    }
}

/// The place of the message that lies `ahead` of the next one to deliver, in a
/// ring of `len` places of which `first` is that of the next one.
spec fn slot_of(first: int, ahead: int, len: int) -> int {
    if first + ahead < len {
        first + ahead
    } else {
        first + ahead - len
    }
}

/// One end of a reliable channel: what it has sent and not seen acknowledged,
/// and what it has received and not handed out.
pub struct ReliableChannel {
    config: ReliableChannelConfig,
    send_message_id: u16,
    messages_send: Vec<MessageSend>,
    packets_sent: Vec<PacketSent>,
    out_of_sync: bool,
    received_message_id: u16,
    messages_received: Vec<Option<Payload>>,
    first_slot: usize,
}

impl View for ReliableChannel {
    type V = ReliableChannelView;

    closed spec fn view(&self) -> ReliableChannelView {
        ReliableChannelView {
            config: self.config,
            send_message_id: self.send_message_id,
            messages_send: views(self.messages_send@),
            packets_sent: views(self.packets_sent@),
            out_of_sync: self.out_of_sync,
            received_message_id: self.received_message_id,
            messages_received: Seq::new(
                self.messages_received@.len(),
                |ahead: int|
                    held(
                        self.messages_received@[slot_of(
                            self.first_slot as int,
                            ahead,
                            self.messages_received@.len() as int,
                        )],
                    ),
            ),
        }
    }
}

fn contains_id(ids: &Vec<u16>, id: u16) -> (found: bool)
    ensures
        found == ids@.contains(id),
{
    let mut i: usize = 0;
    while i < ids.len()
        invariant
            i <= ids.len(),
            forall|j: int| 0 <= j < i ==> ids@[j] != id,
        decreases ids.len() - i,
    {
        if ids[i] == id {
            return true;
        }
        i += 1;
    }
    false
}

impl ReliableChannel {
    /// What holds of every channel that this module hands out.
    pub closed spec fn wf(&self) -> bool {
        &&& self@.wf()
        &&& self.first_slot < self.messages_received@.len() || self.first_slot == 0
    }

    /// A channel that has sent and received nothing yet.
    pub fn new(config: ReliableChannelConfig) -> (channel: ReliableChannel)
        ensures
            channel.wf(),
            channel@ == ReliableChannelView::new(config),
    {
        let mut messages_received: Vec<Option<Payload>> = Vec::new();
        let mut i: u16 = 0;
        while i < config.message_receive_queue_size
            invariant
                i <= config.message_receive_queue_size,
                messages_received@.len() == i,
                forall|j: int| 0 <= j < i ==> messages_received@[j] is None,
            decreases config.message_receive_queue_size - i,
        {
            messages_received.push(None);
            i += 1;
        }
        let channel = ReliableChannel {
            config,
            send_message_id: 0,
            messages_send: Vec::new(),
            packets_sent: Vec::new(),
            out_of_sync: false,
            received_message_id: 0,
            messages_received,
            first_slot: 0,
        };
        assert(channel@.messages_received =~= ReliableChannelView::new(config).messages_received);
        assert(channel@.messages_send =~= Seq::empty());
        assert(channel@.packets_sent =~= Seq::empty());
        channel
    }

    /// Whether a message was refused for want of room.
    pub fn out_of_sync(&self) -> (out_of_sync: bool)
        ensures
            out_of_sync == self@.out_of_sync,
    {
        self.out_of_sync
    }

    /// Why the connection has to end, if the channel asks for that.
    pub fn disconnect_reason(&self) -> (reason: Option<DisconnectionReason>)
        ensures
            reason == (if self@.out_of_sync {
                Some(DisconnectionReason::ReliableChannelOutOfSync(self@.config.channel_id))
            } else {
                None
            }),
    {
        if self.out_of_sync {
            Some(DisconnectionReason::ReliableChannelOutOfSync(self.config.channel_id))
        } else {
            None
        }
    }

    /// Takes a message of the application for sending.
    pub fn send_message(&mut self, payload: Payload) -> (r: Result<(), RenetError>)
        requires
            old(self).wf(),
        ensures
            final(self).wf(),
            (final(self)@, r) == old(self)@.send(payload@),
    {
        if payload.len() > self.config.max_message_size as usize {
            return Err(RenetError::MessageSizeAboveLimit);
        }
        if self.out_of_sync {
            return Err(
                RenetError::ClientDisconnected(
                    DisconnectionReason::ReliableChannelOutOfSync(self.config.channel_id),
                ),
            );
        }
        let has_room = if self.messages_send.len() == 0 {
            self.config.message_send_queue_size > 0
        } else {
            self.send_message_id.wrapping_sub(self.messages_send[0].message.id)
                < self.config.message_send_queue_size
        };
        if !has_room {
            self.out_of_sync = true;
            return Err(RenetError::ChannelMaxMessagesLimit);
        }
        let id = self.send_message_id;
        let ghost sent = SentMessageView { id, payload: payload@, last_time_sent: None };
        self.messages_send.push(
            MessageSend { message: ReliableMessage { id, payload }, last_time_sent: None },
        );
        self.send_message_id = id.wrapping_add(1);
        proof {
            let before = old(self)@.messages_send;
            let after = self@.messages_send;
            assert(after =~= before.push(sent));
            assert(self@.messages_received =~= old(self)@.messages_received);
            assert forall|i: int| 0 <= i < before.len() implies steps_back(id, before[i].id)
                < self.config.message_send_queue_size by {
                if i > 0 {
                    assert(steps_back(id, before[i].id) < steps_back(id, before[0].id));
                }
            }
            assert forall|i: int| 0 <= i < after.len() implies 1 <= steps_back(
                self.send_message_id,
                (#[trigger] after[i]).id,
            ) <= self.config.message_send_queue_size by {
                if i < before.len() {
                    assert(after[i] == before[i]);
                }
            }
            assert forall|i: int, j: int| 0 <= i < j < after.len() implies steps_back(
                self.send_message_id,
                (#[trigger] after[j]).id,
            ) < steps_back(self.send_message_id, (#[trigger] after[i]).id) by {
                assert(after[i] == before[i]);
                if j < before.len() {
                    assert(after[j] == before[j]);
                }
            }
        }
        Ok(())
    }

    /// The messages that go into the packet `sequence`, made at the tick
    /// `now`: those that were never sent and those whose resend time has
    /// passed.
    pub fn get_messages_to_send(&mut self, sequence: u16, now: u64) -> (messages: Vec<
        ReliableMessage,
    >)
        requires
            old(self).wf(),
        ensures
            final(self).wf(),
            views(messages@) == old(self)@.messages_to_send(now),
            final(self)@ == old(self)@.after_sending(sequence, now),
    {
        let mut messages: Vec<ReliableMessage> = Vec::new();
        if self.out_of_sync {
            assert(views(messages@) =~= old(self)@.messages_to_send(now));
            return messages;
        }
        let ghost before = old(self)@;
        let ghost due = before.due(now);
        let mut message_ids: Vec<u16> = Vec::new();
        let mut i: usize = 0;
        while i < self.messages_send.len()
            invariant
                i <= self.messages_send@.len(),
                before == old(self)@,
                due == before.due(now),
                !before.out_of_sync,
                self.config == old(self).config,
                self.send_message_id == old(self).send_message_id,
                self.packets_sent == old(self).packets_sent,
                self.out_of_sync == old(self).out_of_sync,
                self.received_message_id == old(self).received_message_id,
                self.messages_received == old(self).messages_received,
                self.first_slot == old(self).first_slot,
                self.messages_send@.len() == before.messages_send.len(),
                forall|j: int|
                    0 <= j < i ==> (#[trigger] self.messages_send@[j])@ == (if due(
                        before.messages_send[j],
                    ) {
                        SentMessageView { last_time_sent: Some(now), ..before.messages_send[j] }
                    } else {
                        before.messages_send[j]
                    }),
                forall|j: int|
                    i <= j < self.messages_send@.len() ==> (#[trigger] self.messages_send@[j])@
                        == before.messages_send[j],
                views(messages@) == before.messages_send.take(i as int).filter(due).map_values(
                    |sent: SentMessageView| message_of(sent),
                ),
                message_ids@ == before.messages_send.take(i as int).filter(due).map_values(
                    |sent: SentMessageView| sent.id,
                ),
            decreases self.messages_send@.len() - i,
        {
            let ghost so_far = before.messages_send.take(i as int).filter(due);
            proof {
                reveal(Seq::filter);
                assert(before.messages_send.take(i + 1).drop_last() =~= before.messages_send.take(
                    i as int,
                ));
            }
            let is_due = match self.messages_send[i].last_time_sent {
                None => true,
                Some(t) => now >= t && now - t >= self.config.message_resend_time,
            };
            if is_due {
                let ghost current = before.messages_send[i as int];
                let ghost sent_before = views(messages@);
                let ghost ids_before = message_ids@;
                assert(self.messages_send@[i as int]@ == current);
                let id = self.messages_send[i].message.id;
                let payload = self.messages_send[i].message.payload.clone();
                let message = ReliableMessage { id, payload };
                assert(message@ == message_of(current));
                messages.push(message);
                message_ids.push(id);
                self.messages_send[i].last_time_sent = Some(now);
                proof {
                    assert(views(messages@) =~= sent_before.push(message_of(current)));
                    assert(so_far.push(current).map_values(|sent: SentMessageView| message_of(sent))
                        =~= so_far.map_values(|sent: SentMessageView| message_of(sent)).push(
                        message_of(current),
                    ));
                    assert(so_far.push(current).map_values(|sent: SentMessageView| sent.id)
                        =~= so_far.map_values(|sent: SentMessageView| sent.id).push(current.id));
                }
            }
            i += 1;
        }
        assert(before.messages_send.take(i as int) =~= before.messages_send);
        if message_ids.len() > 0 && self.config.sent_packet_buffer_size > 0 {
            let ghost packets = views(self.packets_sent@);
            if self.packets_sent.len() >= self.config.sent_packet_buffer_size as usize {
                self.packets_sent.remove(0);
                assert(views(self.packets_sent@) =~= packets.skip(1));
            }
            let ghost kept = views(self.packets_sent@);
            let packet = PacketSent { sequence, message_ids };
            self.packets_sent.push(packet);
            assert(views(self.packets_sent@) =~= kept.push(packet@));
        }
        proof {
            let after = before.after_sending(sequence, now);
            assert(self@.messages_received =~= before.messages_received);
            if before.due_messages(now).len() == 0 {
                assert forall|j: int| 0 <= j < before.messages_send.len() implies !due(
                    #[trigger] before.messages_send[j],
                ) by {
                    if due(before.messages_send[j]) {
                        before.messages_send.lemma_filter_contains(due, j);
                    }
                }
                assert(self@.messages_send =~= before.messages_send);
            } else {
                assert(self@.messages_send =~= after.messages_send);
            }
            assert(self@.packets_sent =~= after.packets_sent);
        }
        messages
    }

    /// Takes in ack data of the peer: the packets that it confirms are
    /// forgotten, and the messages that they carried no longer wait.
    pub fn process_ack(&mut self, ack_data: AckData)
        requires
            old(self).wf(),
        ensures
            final(self).wf(),
            final(self)@ == old(self)@.process_ack(ack_data),
    {
        let ghost before = old(self)@;
        let ghost not_confirmed = ReliableChannelView::not_confirmed(ack_data);
        let ghost not_acked = before.not_acked(ack_data);
        let mut packets: Vec<PacketSent> = Vec::new();
        core::mem::swap(&mut self.packets_sent, &mut packets);
        assert(views(self.packets_sent@) =~= Seq::empty());
        proof {
            reveal(Seq::filter);
            assert(before.packets_sent.take(0) =~= Seq::empty());
        }
        let mut acked: Vec<u16> = Vec::new();
        for packet in it: packets
            invariant
                it.seq() == packets@,
                before == old(self)@,
                before.packets_sent == views(packets@),
                not_confirmed == ReliableChannelView::not_confirmed(ack_data),
                self.config == old(self).config,
                self.send_message_id == old(self).send_message_id,
                self.messages_send == old(self).messages_send,
                self.out_of_sync == old(self).out_of_sync,
                self.received_message_id == old(self).received_message_id,
                self.messages_received == old(self).messages_received,
                self.first_slot == old(self).first_slot,
                views(self.packets_sent@) == before.packets_sent.take(it.index() as int).filter(
                    not_confirmed,
                ),
                forall|id: u16|
                    acked@.contains(id) <==> exists|j: int|
                        0 <= j < it.index() && ack_data.spec_confirms(
                            (#[trigger] before.packets_sent[j]).sequence,
                        ) && before.packets_sent[j].message_ids.contains(id),
        {
            let ghost k = it.index() as int;
            let ghost kept = views(self.packets_sent@);
            let ghost acked_before = acked@;
            proof {
                reveal(Seq::filter);
                assert(before.packets_sent.take(k + 1).drop_last() =~= before.packets_sent.take(k));
                assert(before.packets_sent[k] == packet@);
            }
            if ack_data.confirms(packet.sequence) {
                let mut message_ids = packet.message_ids;
                let ghost ids = message_ids@;
                acked.append(&mut message_ids);
                assert forall|id: u16|
                    acked@.contains(id) <==> exists|j: int|
                        0 <= j < k + 1 && ack_data.spec_confirms(
                            (#[trigger] before.packets_sent[j]).sequence,
                        ) && before.packets_sent[j].message_ids.contains(id) by {
                    if acked@.contains(id) {
                        let at = choose|at: int| 0 <= at < acked@.len() && acked@[at] == id;
                        if at < acked_before.len() {
                            assert(acked_before[at] == id);
                            assert(acked_before.contains(id));
                        } else {
                            assert(ids[at - acked_before.len()] == id);
                            assert(before.packets_sent[k].message_ids.contains(id));
                        }
                    }
                    if exists|j: int|
                        0 <= j < k + 1 && ack_data.spec_confirms(
                            (#[trigger] before.packets_sent[j]).sequence,
                        ) && before.packets_sent[j].message_ids.contains(id) {
                        let j = choose|j: int|
                            0 <= j < k + 1 && ack_data.spec_confirms(
                                (#[trigger] before.packets_sent[j]).sequence,
                            ) && before.packets_sent[j].message_ids.contains(id);
                        if j < k {
                            assert(acked_before.contains(id));
                            let at = choose|at: int|
                                0 <= at < acked_before.len() && acked_before[at] == id;
                            assert(acked@[at] == id);
                        } else {
                            let at = choose|at: int| 0 <= at < ids.len() && ids[at] == id;
                            assert(acked@[acked_before.len() + at] == id);
                        }
                    }
                }
            } else {
                self.packets_sent.push(packet);
                assert(views(self.packets_sent@) =~= kept.push(packet@));
            }
        }
        proof {
            assert(before.packets_sent.take(packets@.len() as int) =~= before.packets_sent);
            assert forall|id: u16| acked@.contains(id) <==> before.is_acked(ack_data, id) by {}
        }
        let mut waiting: Vec<MessageSend> = Vec::new();
        core::mem::swap(&mut self.messages_send, &mut waiting);
        assert(views(self.messages_send@) =~= Seq::empty());
        proof {
            reveal(Seq::filter);
            assert(before.messages_send.take(0) =~= Seq::empty());
        }
        for sent in it: waiting
            invariant
                it.seq() == waiting@,
                before == old(self)@,
                before.messages_send == views(waiting@),
                not_acked == before.not_acked(ack_data),
                forall|id: u16| acked@.contains(id) <==> before.is_acked(ack_data, id),
                self.config == old(self).config,
                self.send_message_id == old(self).send_message_id,
                views(self.packets_sent@) == before.packets_sent.filter(
                    ReliableChannelView::not_confirmed(ack_data),
                ),
                self.out_of_sync == old(self).out_of_sync,
                self.received_message_id == old(self).received_message_id,
                self.messages_received == old(self).messages_received,
                self.first_slot == old(self).first_slot,
                views(self.messages_send@) == before.messages_send.take(it.index() as int).filter(
                    not_acked,
                ),
        {
            let ghost k = it.index() as int;
            let ghost kept = views(self.messages_send@);
            proof {
                reveal(Seq::filter);
                assert(before.messages_send.take(k + 1).drop_last() =~= before.messages_send.take(
                    k,
                ));
                assert(before.messages_send[k] == sent@);
            }
            if !contains_id(&acked, sent.message.id) {
                self.messages_send.push(sent);
                assert(views(self.messages_send@) =~= kept.push(sent@));
            }
        }
        proof {
            assert(before.messages_send.take(waiting@.len() as int) =~= before.messages_send);
            assert(self@.messages_received =~= before.messages_received);
            lemma_filter_keeps_order(
                before.send_message_id,
                before.messages_send,
                before.config.message_send_queue_size as int,
                before.config.max_message_size as int,
                not_acked,
            );
            before.packets_sent.lemma_filter_len(ReliableChannelView::not_confirmed(ack_data));
        }
    }

    /// Takes in a message of the peer.
    pub fn process_message(&mut self, message: ReliableMessage)
        requires
            old(self).wf(),
        ensures
            final(self).wf(),
            final(self)@ == old(self)@.receive(message@),
    {
        let ahead = message.id.wrapping_sub(self.received_message_id) as usize;
        let len = self.messages_received.len();
        if ahead < len {
            let slot = if self.first_slot + ahead < len {
                self.first_slot + ahead
            } else {
                self.first_slot + ahead - len
            };
            if self.messages_received[slot].is_none() {
                self.messages_received[slot] = Some(message.payload);
                assert(self@.messages_received =~= old(self)@.messages_received.update(
                    ahead as int,
                    Some(message.payload@),
                ));
                return ;
            }
        }
        assert(self@.messages_received =~= old(self)@.messages_received);
    }

    /// Takes in the messages of the peer that one packet carried, in their
    /// order.
    pub fn process_messages(&mut self, messages: Vec<ReliableMessage>)
        requires
            old(self).wf(),
        ensures
            final(self).wf(),
            final(self)@ == old(self)@.receive_all(views(messages@)),
    {
        let ghost all = views(messages@);
        assert(all.take(0) =~= Seq::empty());
        for message in it: messages
            invariant
                it.seq() == messages@,
                all == views(messages@),
                self.wf(),
                self@ == old(self)@.receive_all(all.take(it.index() as int)),
        {
            proof {
                let k = it.index() as int;
                assert(all.take(k + 1).drop_last() =~= all.take(k));
                assert(all.take(k + 1).last() == message@);
            }
            self.process_message(message);
        }
        assert(all.take(messages@.len() as int) =~= all);
    }

    /// Hands out the next message in the order of the ids, if it has
    /// arrived.
    pub fn receive_message(&mut self) -> (payload: Option<Payload>)
        requires
            old(self).wf(),
        ensures
            final(self).wf(),
            final(self)@ == old(self)@.deliver().0,
            held(payload) == old(self)@.deliver().1,
    {
        let len = self.messages_received.len();
        if len == 0 {
            return None;
        }
        let payload = self.messages_received[self.first_slot].take();
        if payload.is_some() {
            self.first_slot = if self.first_slot + 1 == len {
                0
            } else {
                self.first_slot + 1
            };
            self.received_message_id = self.received_message_id.wrapping_add(1);
            assert(self@.messages_received =~= old(self)@.messages_received.skip(1).push(None));
        } else {
            assert(self@.messages_received =~= old(self)@.messages_received);
        }
        payload
    }
}

} // verus!

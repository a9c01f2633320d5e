//! Transfer of one large message in slices.
//!
//! The sender cuts a message into slices and sends each of them until a
//! packet that carried it is confirmed; one message is under way at a time.
//! The receiver keeps the slices that arrive, each in its place, and hands
//! the message out when none is missing.
use std::collections::VecDeque;
use vstd::prelude::*;
use crate::channel::reliable::{next_id, remember};
use crate::error::{DisconnectionReason, RenetError};
use crate::packet::{read_u16, read_u32, AckData, Payload};
use crate::pieces::{
    all_received, held, is_complete, is_order, join, join_pieces, lemma_join_split,
    lemma_missing_all, lemma_missing_none, lemma_missing_one_fewer, lemma_piece_in_place, missing,
    pieces_of, places, places_hold, split, split_payload,
};
use crate::wire::{
    le_u16, le_u32, lemma_u16_bytes, lemma_u16_round_trip, lemma_u32_bytes, lemma_u32_round_trip,
    u16_from_le, u32_from_le, views, write_u16, write_u32, WireFormat,
};

verus! {

/// One slice of a block message: slice `slice_id`, counted from zero, of the
/// `num_slices` slices of the message `chunk_id`.
#[derive(Clone, Debug, PartialEq, Eq)]
pub struct SliceMessage {
    pub chunk_id: u16,
    pub slice_id: u32,
    pub num_slices: u32,
    pub payload: Payload,
}

/// A slice as a mathematical value.
pub struct SliceMessageView {
    pub chunk_id: u16,
    pub slice_id: u32,
    pub num_slices: u32,
    pub payload: Seq<u8>,
}

impl View for SliceMessage {
    type V = SliceMessageView;

    open spec fn view(&self) -> SliceMessageView {
        SliceMessageView {
            chunk_id: self.chunk_id,
            slice_id: self.slice_id,
            num_slices: self.num_slices,
            payload: self.payload@,
        }
    }
}

/// On the wire: the chunk id in 16 bits, the slice id and the number of
/// slices in 32 bits each, then the payload as a byte string.
impl WireFormat for SliceMessage {
    open spec fn valid(v: SliceMessageView) -> bool {
        Payload::valid(v.payload)
    }

    open spec fn wire(v: SliceMessageView) -> Seq<u8> {
        le_u16(v.chunk_id) + le_u32(v.slice_id) + le_u32(v.num_slices) + Payload::wire(v.payload)
    }

    open spec fn size(v: SliceMessageView) -> nat {
        2 + 4 + 4 + Payload::size(v.payload)
    }

    open spec fn parse(bytes: Seq<u8>) -> Option<(SliceMessageView, int)> {
        if bytes.len() < 10 {
            None
        } else {
            match Payload::parse(bytes.skip(10)) {
                Some((payload, n)) => Some(
                    (
                        SliceMessageView {
                            chunk_id: u16_from_le(bytes),
                            slice_id: u32_from_le(bytes.skip(2)),
                            num_slices: u32_from_le(bytes.skip(6)),
                            payload,
                        },
                        10 + n,
                    ),
                ),
                None => None,
            }
        }
    }

    proof fn lemma_size(v: SliceMessageView) {
        Payload::lemma_size(v.payload);
    }

    proof fn lemma_parse_wire(v: SliceMessageView, rest: Seq<u8>) {
        let bytes = Self::wire(v) + rest;
        let tail = Payload::wire(v.payload) + rest;
        let after_slice = le_u32(v.num_slices) + tail;
        let after_chunk = le_u32(v.slice_id) + after_slice;
        lemma_u16_round_trip(v.chunk_id, after_chunk);
        lemma_u32_round_trip(v.slice_id, after_slice);
        lemma_u32_round_trip(v.num_slices, tail);
        assert(bytes =~= le_u16(v.chunk_id) + after_chunk);
        assert(bytes.skip(2) =~= after_chunk);
        assert(bytes.skip(6) =~= after_slice);
        assert(bytes.skip(10) =~= tail);
        Payload::lemma_parse_wire(v.payload, rest);
    }

    proof fn lemma_wire_parse(bytes: Seq<u8>) {
        if let Some((v, n)) = Self::parse(bytes) {
            lemma_u16_bytes(bytes);
            lemma_u32_bytes(bytes.skip(2));
            lemma_u32_bytes(bytes.skip(6));
            Payload::lemma_wire_parse(bytes.skip(10));
            assert(bytes.subrange(0, n) =~= bytes.subrange(0, 2) + bytes.skip(2).subrange(0, 4)
                + bytes.skip(6).subrange(0, 4) + bytes.skip(10).subrange(0, n - 10));
        }
    }

    fn measure(&self) -> (size: usize) {
        self.payload.measure().saturating_add(2 + 4 + 4)
    }

    fn write(&self, out: &mut Vec<u8>) {
        write_u16(out, self.chunk_id);
        write_u32(out, self.slice_id);
        write_u32(out, self.num_slices);
        self.payload.write(out);
        assert(out@ =~= old(out)@ + Self::wire(self@));
    }

    fn read(src: &mut &[u8]) -> (r: Result<Self, std::io::Error>) {
        let mut cur: &[u8] = *src;
        let chunk_id = match read_u16(&mut cur) {
            Ok(chunk_id) => chunk_id,
            Err(e) => return Err(e),
        };
        let slice_id = match read_u32(&mut cur) {
            Ok(slice_id) => slice_id,
            Err(e) => return Err(e),
        };
        let num_slices = match read_u32(&mut cur) {
            Ok(num_slices) => num_slices,
            Err(e) => return Err(e),
        };
        assert(cur@ =~= old(src)@.skip(10));
        assert(old(src)@.skip(2).skip(4) =~= old(src)@.skip(6));
        let payload = match Payload::read(&mut cur) {
            Ok(payload) => payload,
            Err(e) => return Err(e),
        };
        proof {
            let n = (Payload::parse(old(src)@.skip(10))->0).1;
            Payload::lemma_wire_parse(old(src)@.skip(10));
            assert(old(src)@.skip(10).skip(n) =~= old(src)@.skip(10 + n));
        }
        *src = cur;
        Ok(SliceMessage { chunk_id, slice_id, num_slices, payload })
    }
}

/// What a block channel is set up with.
#[derive(Clone, Copy, Debug, PartialEq, Eq)]
pub struct BlockChannelConfig {
    pub channel_id: u8,
    /// How many bytes of a message one slice carries; the last slice of a
    /// message may carry fewer.
    pub slice_size: u16,
    /// The most slices that a message may take.
    pub max_slices: u32,
    /// The most slices that one packet carries.
    pub slices_per_packet: u32,
    /// How many ticks pass before a slice that was not acknowledged is sent
    /// again.
    pub resend_time: u64,
    /// How many packets that carried slices are remembered until the peer
    /// confirms them.
    pub sent_packet_buffer_size: u16,
}

/// A slice of the message under way: its bytes, whether the peer has
/// confirmed a packet that carried it, and the tick at which it was last put
/// into a packet.
pub struct SliceSendView {
    pub payload: Seq<u8>,
    pub acked: bool,
    pub last_time_sent: Option<u64>,
}

/// A packet that carried slices, and which ones.
pub struct SlicePacketView {
    pub sequence: u16,
    pub slice_ids: Seq<u32>,
}

/// A block channel as a mathematical value.
pub struct BlockChannelView {
    pub config: BlockChannelConfig,
    /// The id of the message under way, or of the next one where none is.
    pub chunk_id: u16,
    /// The slices of the message under way; none where no message is.
    pub slices: Seq<SliceSendView>,
    /// The packets that carried slices and are not confirmed yet, oldest
    /// first.
    pub packets_sent: Seq<SlicePacketView>,
    /// The id of the message that the peer is sending, or will send next.
    pub receive_chunk_id: u16,
    /// A place for each slice of the message that is arriving; none before
    /// its first slice has arrived.
    pub received: Seq<Option<Seq<u8>>>,
    /// The messages that have arrived in full and were not handed out yet.
    pub messages_received: Seq<Seq<u8>>,
    /// Whether the peer has sent a slice that cannot be: the connection has
    /// to end.
    pub out_of_sync: bool,
}

/// The slices of a message: its pieces, or one slice without bytes where the
/// message has none.
pub open spec fn slices_of(payload: Seq<u8>, size: int) -> Seq<Seq<u8>> {
    if payload.len() == 0 {
        seq![payload]
    } else {
        split(payload, size)
    }
}

/// The slices of a message, put together, are the message.
pub proof fn lemma_join_slices(payload: Seq<u8>, size: int)
    requires
        slices_of(payload, size).len() > 0,
    ensures
        join(slices_of(payload, size)) == payload,
{
    reveal_with_fuel(join, 2);
    if payload.len() == 0 {
        assert(seq![payload].drop_last() =~= Seq::<Seq<u8>>::empty());
        assert(join(seq![payload]) =~= payload);
    } else {
        lemma_join_split(payload, size);
    }
}

impl BlockChannelView {
    /// The channel before anything was sent or received.
    pub open spec fn new(config: BlockChannelConfig) -> BlockChannelView {
        BlockChannelView {
            config,
            chunk_id: 0,
            slices: Seq::empty(),
            packets_sent: Seq::empty(),
            receive_chunk_id: 0,
            received: Seq::empty(),
            messages_received: Seq::empty(),
            out_of_sync: false,
        }
    }

    /// What holds of every channel: no message in more slices than are
    /// allowed, and no more packets remembered than the buffer takes.
    pub open spec fn wf(self) -> bool {
        &&& self.slices.len() <= self.config.max_slices
        &&& self.received.len() <= self.config.max_slices
        &&& self.packets_sent.len() <= self.config.sent_packet_buffer_size
    }

    /// Whether a message is under way.
    pub open spec fn sending(self) -> bool {
        self.slices.len() > 0
    }

    /// The channel after a call to send `payload`, and what the caller is
    /// told. While a message is under way no other is taken. A message
    /// that cannot be cut into slices, or that takes more of them than are
    /// allowed, is refused.
    pub open spec fn send(self, payload: Seq<u8>) -> (BlockChannelView, Result<(), RenetError>) {
        let pieces = slices_of(payload, self.config.slice_size as int);
        if self.sending() {
            (self, Err(RenetError::AlreadySendingBlockMessage))
        } else if pieces.len() == 0 || pieces.len() > self.config.max_slices {
            (self, Err(RenetError::MessageSizeAboveLimit))
        } else {
            (
                BlockChannelView {
                    slices: pieces.map_values(
                        |piece: Seq<u8>|
                            SliceSendView { payload: piece, acked: false, last_time_sent: None },
                    ),
                    ..self
                },
                Ok(()),
            )
        }
    }

    /// Whether a slice is to go into a packet made at `now`: it is not
    /// acknowledged, and it was never sent or the resend time has passed
    /// since it last was.
    pub open spec fn is_due(self, slice: SliceSendView, now: u64) -> bool {
        !slice.acked && match slice.last_time_sent {
            None => true,
            Some(t) => now >= t && now - t >= self.config.resend_time,
        }
    }

    /// The slice `i` of the message under way, as it travels.
    pub open spec fn slice_message(self, i: int) -> SliceMessageView {
        SliceMessageView {
            chunk_id: self.chunk_id,
            slice_id: i as u32,
            num_slices: self.slices.len() as u32,
            payload: self.slices[i].payload,
        }
    }

    /// Those of the first `n` slices that go into a packet made at `now`,
    /// in their order: the slices that are due, as long as the packet has
    /// room.
    pub open spec fn messages_up_to(self, now: u64, n: int) -> Seq<SliceMessageView>
        decreases n,
    {
        if n <= 0 {
            Seq::empty()
        } else {
            let before = self.messages_up_to(now, n - 1);
            if self.is_due(self.slices[n - 1], now) && before.len()
                < self.config.slices_per_packet {
                before.push(self.slice_message(n - 1))
            } else {
                before
            }
        }
    }

    /// Whether the slice `i` goes into a packet made at `now`.
    pub open spec fn goes_out(self, now: u64, i: int) -> bool {
        self.is_due(self.slices[i], now) && self.messages_up_to(now, i).len()
            < self.config.slices_per_packet
    }

    /// The slices that a packet made at `now` carries for the channel.
    pub open spec fn messages_to_send(self, now: u64) -> Seq<SliceMessageView> {
        self.messages_up_to(now, self.slices.len() as int)
    }

    /// The channel after the packet `sequence` was made at `now`: the
    /// slices that went into it were last sent at `now`, and the packet is
    /// remembered with their ids. Where no slice went out nothing changes.
    pub open spec fn after_sending(self, sequence: u16, now: u64) -> BlockChannelView {
        let sent = self.messages_to_send(now);
        if sent.len() == 0 {
            self
        } else {
            BlockChannelView {
                slices: Seq::new(
                    self.slices.len(),
                    |i: int|
                        if self.goes_out(now, i) {
                            SliceSendView { last_time_sent: Some(now), ..self.slices[i] }
                        } else {
                            self.slices[i]
                        },
                ),
                packets_sent: remember(
                    self.packets_sent,
                    SlicePacketView {
                        sequence,
                        slice_ids: sent.map_values(|message: SliceMessageView| message.slice_id),
                    },
                    self.config.sent_packet_buffer_size as int,
                ),
                ..self
            }
        }
    }

    /// Whether `ack_data` confirms a remembered packet that carried the
    /// slice `slice_id`.
    pub open spec fn is_acked(self, ack_data: AckData, slice_id: int) -> bool {
        exists|i: int|
            0 <= i < self.packets_sent.len() && ack_data.spec_confirms(
                (#[trigger] self.packets_sent[i]).sequence,
            ) && self.packets_sent[i].slice_ids.contains(slice_id as u32)
    }

    /// Whether a packet is not confirmed by `ack_data`, as a function of the
    /// packet.
    pub open spec fn not_confirmed(ack_data: AckData) -> spec_fn(SlicePacketView) -> bool {
        |packet: SlicePacketView| !ack_data.spec_confirms(packet.sequence)
    }

    /// The slices after ack data of the peer was taken in.
    pub open spec fn slices_after_ack(self, ack_data: AckData) -> Seq<SliceSendView> {
        Seq::new(
            self.slices.len(),
            |i: int|
                SliceSendView {
                    acked: self.slices[i].acked || self.is_acked(ack_data, i),
                    ..self.slices[i]
                },
        )
    }

    /// Whether every slice is acknowledged.
    pub open spec fn all_acked(slices: Seq<SliceSendView>) -> bool {
        forall|i: int| 0 <= i < slices.len() ==> (#[trigger] slices[i]).acked
    }

    /// The channel after ack data of the peer was taken in: the slices
    /// that went in a packet that it confirms are acknowledged, and those
    /// packets are forgotten. With its last slice acknowledged the message
    /// is no longer under way, and the next one will have the next id.
    pub open spec fn process_ack(self, ack_data: AckData) -> BlockChannelView {
        let slices = self.slices_after_ack(ack_data);
        if self.sending() && Self::all_acked(slices) {
            BlockChannelView {
                chunk_id: next_id(self.chunk_id),
                slices: Seq::empty(),
                packets_sent: Seq::empty(),
                ..self
            }
        } else {
            BlockChannelView {
                slices,
                packets_sent: self.packets_sent.filter(Self::not_confirmed(ack_data)),
                ..self
            }
        }
    }

    /// Whether a slice of the message that is arriving cannot be: it
    /// claims no slices, or more than are allowed, or another number than the
    /// slices before it, or it lies beyond the last.
    pub open spec fn is_violation(self, slice: SliceMessageView) -> bool {
        ||| slice.num_slices == 0
        ||| slice.num_slices > self.config.max_slices
        ||| slice.slice_id >= slice.num_slices
        ||| self.received.len() > 0 && self.received.len() != slice.num_slices
    }

    /// The channel after a slice of the peer arrived. A slice of another
    /// message than the one that is arriving is dropped, and so is one
    /// that has arrived before. A slice that cannot be puts the channel out of
    /// sync, and after that every slice is dropped. With the slice that was
    /// the last one missing the message is complete and waits to be handed
    /// out.
    pub open spec fn receive(self, slice: SliceMessageView) -> BlockChannelView {
        if self.out_of_sync || slice.chunk_id != self.receive_chunk_id {
            self
        } else if self.is_violation(slice) {
            BlockChannelView { out_of_sync: true, ..self }
        } else {
            let places = if self.received.len() == 0 {
                Seq::new(slice.num_slices as nat, |i: int| None::<Seq<u8>>)
            } else {
                self.received
            };
            if places[slice.slice_id as int] is Some {
                self
            } else {
                let filled = places.update(slice.slice_id as int, Some(slice.payload));
                if is_complete(filled) {
                    BlockChannelView {
                        receive_chunk_id: next_id(self.receive_chunk_id),
                        received: Seq::empty(),
                        messages_received: self.messages_received.push(join(pieces_of(filled))),
                        ..self
                    }
                } else {
                    BlockChannelView { received: filled, ..self }
                }
            }
        }
    }

    /// The channel after the slices arrived one after the other.
    pub open spec fn receive_all(self, slices: Seq<SliceMessageView>) -> BlockChannelView
        decreases slices.len(),
    {
        if slices.len() == 0 {
            self
        } else {
            self.receive_all(slices.drop_last()).receive(slices.last())
        }
    }

    /// The channel after a call for the next message, and the message
    /// handed out: the one that has waited longest, if any waits.
    pub open spec fn deliver(self) -> (BlockChannelView, Option<Seq<u8>>) {
        if self.messages_received.len() > 0 {
            (
                BlockChannelView { messages_received: self.messages_received.skip(1), ..self },
                Some(self.messages_received[0]),
            )
        } else {
            (self, None)
        }
    }
}

/// What goes into a packet are slices that are not acknowledged, each with
/// the bytes it had when the message was cut, and no more of them than a
/// packet carries: a slice once acknowledged is never sent again. A slice
/// that is due stays behind only where the packet is full.
pub proof fn lemma_only_unacked_slices_are_sent(channel: BlockChannelView, now: u64)
    requires
        channel.wf(),
    ensures
        channel.messages_to_send(now).len() <= channel.config.slices_per_packet,
        forall|k: int|
            0 <= k < channel.messages_to_send(now).len() ==> {
                let message = #[trigger] channel.messages_to_send(now)[k];
                &&& message.slice_id < channel.slices.len()
                &&& message == channel.slice_message(message.slice_id as int)
                &&& channel.goes_out(now, message.slice_id as int)
                &&& !channel.slices[message.slice_id as int].acked
            },
        forall|i: int|
            0 <= i < channel.slices.len() && #[trigger] channel.goes_out(now, i)
                ==> channel.messages_to_send(now).contains(channel.slice_message(i)),
        forall|i: int|
            0 <= i < channel.slices.len() && channel.is_due(channel.slices[i], now)
                && !#[trigger] channel.goes_out(now, i) ==> channel.messages_to_send(now).len()
                == channel.config.slices_per_packet,
{
    lemma_messages_up_to(channel, now, channel.slices.len() as int);
    assert forall|i: int|
        0 <= i < channel.slices.len() && channel.is_due(channel.slices[i], now)
            && !#[trigger] channel.goes_out(now, i) implies channel.messages_to_send(now).len()
        == channel.config.slices_per_packet by {
        lemma_messages_grow(channel, now, i, channel.slices.len() as int);
    }
}

proof fn lemma_messages_grow(channel: BlockChannelView, now: u64, m: int, n: int)
    requires
        0 <= m <= n,
    ensures
        channel.messages_up_to(now, m).len() <= channel.messages_up_to(now, n).len(),
        channel.messages_up_to(now, n).len() <= channel.config.slices_per_packet,
    decreases n - m,
{
    if m < n {
        lemma_messages_grow(channel, now, m, n - 1);
    } else {
        lemma_messages_bound(channel, now, n);
    }
}

proof fn lemma_messages_bound(channel: BlockChannelView, now: u64, n: int)
    ensures
        channel.messages_up_to(now, n).len() <= channel.config.slices_per_packet,
    decreases n,
{
    if n > 0 {
        lemma_messages_bound(channel, now, n - 1);
    }
}

proof fn lemma_messages_up_to(channel: BlockChannelView, now: u64, n: int)
    requires
        channel.wf(),
        0 <= n <= channel.slices.len(),
    ensures
        channel.messages_up_to(now, n).len() <= n,
        channel.messages_up_to(now, n).len() <= channel.config.slices_per_packet,
        forall|k: int|
            0 <= k < channel.messages_up_to(now, n).len() ==> {
                let message = #[trigger] channel.messages_up_to(now, n)[k];
                &&& message.slice_id < n
                &&& message == channel.slice_message(message.slice_id as int)
                &&& channel.goes_out(now, message.slice_id as int)
                &&& !channel.slices[message.slice_id as int].acked
            },
        forall|i: int|
            0 <= i < n && #[trigger] channel.goes_out(now, i) ==> channel.messages_up_to(
                now,
                n,
            ).contains(channel.slice_message(i)),
    decreases n,
{
    if n > 0 {
        lemma_messages_up_to(channel, now, n - 1);
        let before = channel.messages_up_to(now, n - 1);
        let all = channel.messages_up_to(now, n);
        assert forall|i: int| 0 <= i < n && #[trigger] channel.goes_out(now, i) implies all.contains(
            channel.slice_message(i),
        ) by {
            if i < n - 1 {
                let k = choose|k: int| 0 <= k < before.len() && before[k] == channel.slice_message(i);
                assert(all[k] == channel.slice_message(i));
            } else {
                assert(all[all.len() - 1] == channel.slice_message(i));
            }
        }
    }
}

/// One step of the arrival of a message, whatever the order of its
/// slices. Let the places hold some of the slices of a message, and let
/// one of its slices arrive. If it is there already nothing changes. If it
/// was the last one missing, the message waits to be handed out, with the
/// bytes that the slices make in their order, and the next message is
/// awaited. Else the slice is kept in its place.
pub proof fn lemma_slice_arrives(
    channel: BlockChannelView,
    pieces: Seq<Seq<u8>>,
    slice: SliceMessageView,
)
    requires
        channel.wf(),
        !channel.out_of_sync,
        0 < pieces.len() <= channel.config.max_slices,
        channel.received.len() == 0 || places_hold(channel.received, pieces),
        slice.chunk_id == channel.receive_chunk_id,
        slice.num_slices == pieces.len(),
        slice.slice_id < pieces.len(),
        slice.payload == pieces[slice.slice_id as int],
    ensures
        ({
            let after = channel.receive(slice);
            let id = slice.slice_id as int;
            let places = if channel.received.len() == 0 {
                Seq::new(pieces.len(), |i: int| None::<Seq<u8>>)
            } else {
                channel.received
            };
            let filled = places.update(id, Some(slice.payload));
            &&& after.wf()
            &&& !after.out_of_sync
            &&& places[id] is Some ==> after == channel
            &&& places[id] is None && is_complete(filled) ==> after.received.len() == 0
                && after.receive_chunk_id == next_id(channel.receive_chunk_id)
                && after.messages_received == channel.messages_received.push(join(pieces))
            &&& places[id] is None && !is_complete(filled) ==> after.received == filled
                && places_hold(after.received, pieces) && after.receive_chunk_id
                == channel.receive_chunk_id && after.messages_received
                == channel.messages_received
        }),
{
    let id = slice.slice_id as int;
    let places = if channel.received.len() == 0 {
        Seq::new(pieces.len(), |i: int| None::<Seq<u8>>)
    } else {
        channel.received
    };
    assert(places_hold(places, pieces));
    lemma_piece_in_place(places, pieces, id);
}

/// The slices of a message as they travel, `chunk_id` being the id of the
/// message.
pub open spec fn slice_messages(chunk_id: u16, pieces: Seq<Seq<u8>>) -> Seq<SliceMessageView> {
    Seq::new(
        pieces.len(),
        |i: int|
            SliceMessageView {
                chunk_id,
                slice_id: i as u32,
                num_slices: pieces.len() as u32,
                payload: pieces[i],
            },
    )
}

/// The slices of a message, arriving in `order`.
pub open spec fn arriving(slices: Seq<SliceMessageView>, order: Seq<int>) -> Seq<SliceMessageView> {
    Seq::new(order.len(), |k: int| slices[order[k]])
}

spec fn partly_arrived(
    channel: BlockChannelView,
    after: BlockChannelView,
    pieces: Seq<Seq<u8>>,
    order: Seq<int>,
    k: int,
) -> bool {
    &&& after.wf()
    &&& !after.out_of_sync
    &&& after.config == channel.config
    &&& after.receive_chunk_id == channel.receive_chunk_id
    &&& after.messages_received == channel.messages_received
    &&& places_hold(after.received, pieces)
    &&& forall|i: int|
        0 <= i < pieces.len() ==> ((#[trigger] after.received[i]) is Some <==> exists|m: int|
            0 <= m < k && #[trigger] order[m] == i)
    &&& missing(after.received) == pieces.len() - k
}

proof fn lemma_arrival(
    channel: BlockChannelView,
    pieces: Seq<Seq<u8>>,
    order: Seq<int>,
    k: int,
)
    requires
        channel.wf(),
        !channel.out_of_sync,
        channel.received.len() == 0,
        0 < pieces.len() <= channel.config.max_slices,
        is_order(order, pieces.len() as int),
        1 <= k <= order.len(),
    ensures
        ({
            let slices = slice_messages(channel.receive_chunk_id, pieces);
            let after = channel.receive_all(arriving(slices, order).take(k));
            if k < order.len() {
                partly_arrived(channel, after, pieces, order, k)
            } else {
                &&& after.wf()
                &&& !after.out_of_sync
                &&& after.received.len() == 0
                &&& after.receive_chunk_id == next_id(channel.receive_chunk_id)
                &&& after.messages_received == channel.messages_received.push(join(pieces))
            }
        }),
    decreases k,
{
    let n = pieces.len() as int;
    let slices = slice_messages(channel.receive_chunk_id, pieces);
    let all = arriving(slices, order);
    let j = order[k - 1];
    let slice = all[k - 1];
    assert(all.take(k).drop_last() =~= all.take(k - 1));
    assert(all.take(k).last() == slice);
    assert(slice == slices[j]);
    assert(slice.slice_id == j);
    let before = channel.receive_all(all.take(k - 1));
    let after = before.receive(slice);
    assert(channel.receive_all(all.take(k)) == after);
    if k == 1 {
        assert(all.take(0) =~= Seq::<SliceMessageView>::empty());
        assert(before == channel);
        let empty = Seq::new(pieces.len(), |i: int| None::<Seq<u8>>);
        let filled = empty.update(j, Some(slice.payload));
        lemma_missing_all(pieces.len());
        lemma_missing_one_fewer(empty, j, slice.payload);
        lemma_missing_none(filled);
        lemma_slice_arrives(channel, pieces, slice);
        if n > 1 {
            assert forall|i: int| 0 <= i < pieces.len() implies ((
            #[trigger] after.received[i]) is Some <==> exists|m: int|
                0 <= m < k && #[trigger] order[m] == i) by {
                if i == j {
                    assert(order[0] == i);
                }
            }
        }
    } else {
        lemma_arrival(channel, pieces, order, k - 1);
        assert(before.received[j] is None) by {
            if before.received[j] is Some {
                let m = choose|m: int| 0 <= m < k - 1 && #[trigger] order[m] == j;
                assert(order[m] != order[k - 1]);
            }
        }
        let filled = before.received.update(j, Some(slice.payload));
        lemma_missing_one_fewer(before.received, j, slice.payload);
        lemma_missing_none(filled);
        lemma_slice_arrives(before, pieces, slice);
        if k < n {
            assert forall|i: int| 0 <= i < pieces.len() implies ((
            #[trigger] after.received[i]) is Some <==> exists|m: int|
                0 <= m < k && #[trigger] order[m] == i) by {
                if i == j {
                    assert(order[k - 1] == i);
                } else {
                    assert(after.received[i] == before.received[i]);
                    if before.received[i] is Some {
                        let m = choose|m: int| 0 <= m < k - 1 && #[trigger] order[m] == i;
                        assert(0 <= m < k && order[m] == i);
                    }
                    if exists|m: int| 0 <= m < k && #[trigger] order[m] == i {
                        let m = choose|m: int| 0 <= m < k && #[trigger] order[m] == i;
                        assert(m < k - 1);
                    }
                }
            }
        }
    }
}

/// The slices of a message make the message again, in whatever order they
/// arrive. Let a message be cut into slices, and let each slice arrive once
/// at a channel that awaits the message and holds nothing of it yet. Then
/// the message waits to be handed out, with the bytes it was sent with, and
/// the channel awaits the next message.
pub proof fn lemma_slices_in_any_order(
    channel: BlockChannelView,
    payload: Seq<u8>,
    size: int,
    order: Seq<int>,
)
    requires
        channel.wf(),
        !channel.out_of_sync,
        channel.received.len() == 0,
        0 < slices_of(payload, size).len() <= channel.config.max_slices,
        is_order(order, slices_of(payload, size).len() as int),
    ensures
        ({
            let slices = slice_messages(channel.receive_chunk_id, slices_of(payload, size));
            let after = channel.receive_all(arriving(slices, order));
            &&& after.wf()
            &&& !after.out_of_sync
            &&& after.received.len() == 0
            &&& after.receive_chunk_id == next_id(channel.receive_chunk_id)
            &&& after.messages_received == channel.messages_received.push(payload)
        }),
{
    let pieces = slices_of(payload, size);
    let slices = slice_messages(channel.receive_chunk_id, pieces);
    let all = arriving(slices, order);
    assert(all.take(order.len() as int) =~= all);
    lemma_join_slices(payload, size);
    lemma_arrival(channel, pieces, order, order.len() as int);
}

struct SliceSend {
    payload: Payload,
    acked: bool,
    last_time_sent: Option<u64>,
}

impl View for SliceSend {
    type V = SliceSendView;

    closed spec fn view(&self) -> SliceSendView {
        SliceSendView {
            payload: self.payload@,
            acked: self.acked,
            last_time_sent: self.last_time_sent,
        }
    }
}

struct SlicePacket {
    sequence: u16,
    slice_ids: Vec<u32>,
}

impl View for SlicePacket {
    type V = SlicePacketView;

    closed spec fn view(&self) -> SlicePacketView {
        SlicePacketView { sequence: self.sequence, slice_ids: self.slice_ids@ }
    }
}

fn contains_slice(ids: &Vec<u32>, id: u32) -> (found: bool)
    ensures
        found == ids@.contains(id),
{
    let mut i: usize = 0;
    while i < ids.len()
        invariant
            i <= ids.len(),
            forall|j: int| 0 <= j < i ==> ids@[j] != id,
        decreases ids.len() - i,
    {
        if ids[i] == id {
            return true;
        }
        i += 1;
    }
    false
}

/// One end of a block channel: the message it is sending, and the one it
/// is receiving.
pub struct BlockChannel {
    config: BlockChannelConfig,
    chunk_id: u16,
    slices: Vec<SliceSend>,
    packets_sent: Vec<SlicePacket>,
    receive_chunk_id: u16,
    received: Vec<Option<Payload>>,
    messages_received: VecDeque<Payload>,
    out_of_sync: bool,
}

impl View for BlockChannel {
    type V = BlockChannelView;

    closed spec fn view(&self) -> BlockChannelView {
        BlockChannelView {
            config: self.config,
            chunk_id: self.chunk_id,
            slices: views(self.slices@),
            packets_sent: views(self.packets_sent@),
            receive_chunk_id: self.receive_chunk_id,
            received: places(self.received@),
            messages_received: views(self.messages_received@),
            out_of_sync: self.out_of_sync,
        }
    }
}

impl BlockChannel {
    /// What holds of every channel that this module hands out.
    pub closed spec fn wf(&self) -> bool {
        self@.wf()
    }

    /// A channel that has sent and received nothing yet.
    pub fn new(config: BlockChannelConfig) -> (channel: BlockChannel)
        ensures
            channel.wf(),
            channel@ == BlockChannelView::new(config),
    {
        let channel = BlockChannel {
            config,
            chunk_id: 0,
            slices: Vec::new(),
            packets_sent: Vec::new(),
            receive_chunk_id: 0,
            received: Vec::new(),
            messages_received: VecDeque::new(),
            out_of_sync: false,
        };
        assert(channel@.slices =~= Seq::empty());
        assert(channel@.packets_sent =~= Seq::empty());
        assert(channel@.received =~= Seq::empty());
        assert(channel@.messages_received =~= Seq::empty());
        channel
    }

    /// Whether the peer has sent a slice that cannot be.
    pub fn out_of_sync(&self) -> (out_of_sync: bool)
        ensures
            out_of_sync == self@.out_of_sync,
    {
        self.out_of_sync
    }

    /// Why the connection has to end, if the channel asks for that.
    pub fn disconnect_reason(&self) -> (reason: Option<DisconnectionReason>)
        ensures
            reason == (if self@.out_of_sync {
                Some(DisconnectionReason::ReliableChannelOutOfSync(self@.config.channel_id))
            } else {
                None
            }),
    {
        if self.out_of_sync {
            Some(DisconnectionReason::ReliableChannelOutOfSync(self.config.channel_id))
        } else {
            None
        }
    }

    /// Whether a message is under way.
    pub fn sending(&self) -> (sending: bool)
        ensures
            sending == self@.sending(),
    {
        self.slices.len() > 0
    }

    /// Takes a message of the application for sending.
    pub fn send_message(&mut self, payload: Payload) -> (r: Result<(), RenetError>)
        requires
            old(self).wf(),
        ensures
            final(self).wf(),
            (final(self)@, r) == old(self)@.send(payload@),
    {
        if self.slices.len() > 0 {
            return Err(RenetError::AlreadySendingBlockMessage);
        }
        let ghost expected = slices_of(payload@, self.config.slice_size as int);
        let pieces: Vec<Payload> = if payload.len() == 0 {
            let mut pieces: Vec<Payload> = Vec::new();
            pieces.push(payload);
            assert(views(pieces@) =~= expected);
            pieces
        } else if self.config.slice_size == 0 {
            return Err(RenetError::MessageSizeAboveLimit);
        } else {
            match split_payload(
                &payload,
                self.config.slice_size as usize,
                self.config.max_slices as usize,
            ) {
                Some(pieces) => pieces,
                None => {
                    return Err(RenetError::MessageSizeAboveLimit);
                },
            }
        };
        if pieces.len() > self.config.max_slices as usize {
            return Err(RenetError::MessageSizeAboveLimit);
        }
        assert(expected.len() > 0);
        let ghost before = self@;
        let ghost fresh = |piece: Seq<u8>|
            SliceSendView { payload: piece, acked: false, last_time_sent: None };
        assert(expected.take(0).map_values(fresh) =~= views(self.slices@));
        for piece in it: pieces
            invariant
                it.seq() == pieces@,
                views(pieces@) == expected,
                fresh == (|piece: Seq<u8>|
                    SliceSendView { payload: piece, acked: false, last_time_sent: None }),
                self.config == old(self).config,
                self.chunk_id == old(self).chunk_id,
                self.packets_sent == old(self).packets_sent,
                self.receive_chunk_id == old(self).receive_chunk_id,
                self.received == old(self).received,
                self.messages_received == old(self).messages_received,
                self.out_of_sync == old(self).out_of_sync,
                views(self.slices@) == expected.take(it.index() as int).map_values(fresh),
        {
            let ghost so_far = views(self.slices@);
            let slice = SliceSend { payload: piece, acked: false, last_time_sent: None };
            assert(expected[it.index() as int] == piece@);
            self.slices.push(slice);
            assert(views(self.slices@) =~= so_far.push(slice@));
            assert(expected.take(it.index() + 1).map_values(fresh) =~= so_far.push(slice@));
        }
        assert(expected.take(pieces@.len() as int) =~= expected);
        Ok(())
    }

    /// The slices that go into the packet `sequence`, made at the tick
    /// `now`: those not acknowledged that were never sent or whose resend
    /// time has passed.
    pub fn get_messages_to_send(&mut self, sequence: u16, now: u64) -> (messages: Vec<
        SliceMessage,
    >)
        requires
            old(self).wf(),
        ensures
            final(self).wf(),
            views(messages@) == old(self)@.messages_to_send(now),
            final(self)@ == old(self)@.after_sending(sequence, now),
    {
        let ghost before = old(self)@;
        let mut messages: Vec<SliceMessage> = Vec::new();
        let mut slice_ids: Vec<u32> = Vec::new();
        let num_slices = self.slices.len();
        let mut i: usize = 0;
        assert(views(messages@) =~= before.messages_up_to(now, 0));
        assert(slice_ids@ =~= before.messages_up_to(now, 0).map_values(
            |message: SliceMessageView| message.slice_id,
        ));
        while i < num_slices
            invariant
                i <= num_slices,
                num_slices == self.slices@.len(),
                num_slices == before.slices.len(),
                num_slices <= u32::MAX,
                before == old(self)@,
                self.config == old(self).config,
                self.chunk_id == old(self).chunk_id,
                self.packets_sent == old(self).packets_sent,
                self.receive_chunk_id == old(self).receive_chunk_id,
                self.received == old(self).received,
                self.messages_received == old(self).messages_received,
                self.out_of_sync == old(self).out_of_sync,
                forall|j: int|
                    0 <= j < i ==> (#[trigger] self.slices@[j])@ == (if before.goes_out(now, j) {
                        SliceSendView { last_time_sent: Some(now), ..before.slices[j] }
                    } else {
                        before.slices[j]
                    }),
                forall|j: int|
                    i <= j < num_slices ==> (#[trigger] self.slices@[j])@ == before.slices[j],
                views(messages@) == before.messages_up_to(now, i as int),
                slice_ids@ == before.messages_up_to(now, i as int).map_values(
                    |message: SliceMessageView| message.slice_id,
                ),
            decreases num_slices - i,
        {
            let ghost current = before.slices[i as int];
            assert(self.slices@[i as int]@ == current);
            let is_due = !self.slices[i].acked && match self.slices[i].last_time_sent {
                None => true,
                Some(t) => now >= t && now - t >= self.config.resend_time,
            };
            if is_due && messages.len() < self.config.slices_per_packet as usize {
                let ghost sent_before = views(messages@);
                let ghost ids_before = slice_ids@;
                let message = SliceMessage {
                    chunk_id: self.chunk_id,
                    slice_id: i as u32,
                    num_slices: num_slices as u32,
                    payload: self.slices[i].payload.clone(),
                };
                assert(message@ == before.slice_message(i as int));
                messages.push(message);
                slice_ids.push(i as u32);
                self.slices[i].last_time_sent = Some(now);
                proof {
                    assert(views(messages@) =~= sent_before.push(before.slice_message(i as int)));
                    assert(sent_before.push(before.slice_message(i as int)).map_values(
                        |message: SliceMessageView| message.slice_id,
                    ) =~= ids_before.push(i as u32));
                }
            }
            i += 1;
        }
        if slice_ids.len() > 0 && self.config.sent_packet_buffer_size > 0 {
            let ghost packets = views(self.packets_sent@);
            if self.packets_sent.len() >= self.config.sent_packet_buffer_size as usize {
                self.packets_sent.remove(0);
                assert(views(self.packets_sent@) =~= packets.skip(1));
            }
            let ghost kept = views(self.packets_sent@);
            let packet = SlicePacket { sequence, slice_ids };
            self.packets_sent.push(packet);
            assert(views(self.packets_sent@) =~= kept.push(packet@));
        }
        proof {
            let after = before.after_sending(sequence, now);
            if before.messages_to_send(now).len() == 0 {
                lemma_only_unacked_slices_are_sent(before, now);
                assert forall|j: int| 0 <= j < num_slices implies !before.goes_out(now, j) by {
                    if before.goes_out(now, j) {
                        assert(before.messages_to_send(now).contains(before.slice_message(j)));
                    }
                }
                assert(self@.slices =~= before.slices);
            } else {
                assert(self@.slices =~= after.slices);
            }
            assert(self@.packets_sent =~= after.packets_sent);
        }
        messages
    }

    /// Takes in ack data of the peer.
    pub fn process_ack(&mut self, ack_data: AckData)
        requires
            old(self).wf(),
        ensures
            final(self).wf(),
            final(self)@ == old(self)@.process_ack(ack_data),
    {
        let ghost before = old(self)@;
        let ghost not_confirmed = BlockChannelView::not_confirmed(ack_data);
        let mut packets: Vec<SlicePacket> = Vec::new();
        core::mem::swap(&mut self.packets_sent, &mut packets);
        assert(views(self.packets_sent@) =~= Seq::empty());
        proof {
            reveal(Seq::filter);
            assert(before.packets_sent.take(0) =~= Seq::empty());
        }
        let mut acked: Vec<u32> = Vec::new();
        for packet in it: packets
            invariant
                it.seq() == packets@,
                before == old(self)@,
                before.packets_sent == views(packets@),
                not_confirmed == BlockChannelView::not_confirmed(ack_data),
                self.config == old(self).config,
                self.chunk_id == old(self).chunk_id,
                self.slices == old(self).slices,
                self.receive_chunk_id == old(self).receive_chunk_id,
                self.received == old(self).received,
                self.messages_received == old(self).messages_received,
                self.out_of_sync == old(self).out_of_sync,
                views(self.packets_sent@) == before.packets_sent.take(it.index() as int).filter(
                    not_confirmed,
                ),
                forall|id: u32|
                    acked@.contains(id) <==> exists|j: int|
                        0 <= j < it.index() && ack_data.spec_confirms(
                            (#[trigger] before.packets_sent[j]).sequence,
                        ) && before.packets_sent[j].slice_ids.contains(id),
        {
            let ghost k = it.index() as int;
            let ghost kept = views(self.packets_sent@);
            let ghost acked_before = acked@;
            proof {
                reveal(Seq::filter);
                assert(before.packets_sent.take(k + 1).drop_last() =~= before.packets_sent.take(k));
                assert(before.packets_sent[k] == packet@);
            }
            if ack_data.confirms(packet.sequence) {
                let mut slice_ids = packet.slice_ids;
                let ghost ids = slice_ids@;
                acked.append(&mut slice_ids);
                assert forall|id: u32|
                    acked@.contains(id) <==> exists|j: int|
                        0 <= j < k + 1 && ack_data.spec_confirms(
                            (#[trigger] before.packets_sent[j]).sequence,
                        ) && before.packets_sent[j].slice_ids.contains(id) by {
                    if acked@.contains(id) {
                        let at = choose|at: int| 0 <= at < acked@.len() && acked@[at] == id;
                        if at < acked_before.len() {
                            assert(acked_before[at] == id);
                            assert(acked_before.contains(id));
                        } else {
                            assert(ids[at - acked_before.len()] == id);
                            assert(before.packets_sent[k].slice_ids.contains(id));
                        }
                    }
                    if exists|j: int|
                        0 <= j < k + 1 && ack_data.spec_confirms(
                            (#[trigger] before.packets_sent[j]).sequence,
                        ) && before.packets_sent[j].slice_ids.contains(id) {
                        let j = choose|j: int|
                            0 <= j < k + 1 && ack_data.spec_confirms(
                                (#[trigger] before.packets_sent[j]).sequence,
                            ) && before.packets_sent[j].slice_ids.contains(id);
                        if j < k {
                            assert(acked_before.contains(id));
                            let at = choose|at: int|
                                0 <= at < acked_before.len() && acked_before[at] == id;
                            assert(acked@[at] == id);
                        } else {
                            let at = choose|at: int| 0 <= at < ids.len() && ids[at] == id;
                            assert(acked@[acked_before.len() + at] == id);
                        }
                    }
                }
            } else {
                self.packets_sent.push(packet);
                assert(views(self.packets_sent@) =~= kept.push(packet@));
            }
        }
        proof {
            assert(before.packets_sent.take(packets@.len() as int) =~= before.packets_sent);
            assert forall|i: int| 0 <= i < before.slices.len() implies (acked@.contains(i as u32)
                <==> before.is_acked(ack_data, i)) by {}
            before.packets_sent.lemma_filter_len(not_confirmed);
        }
        let ghost expected = before.slices_after_ack(ack_data);
        let num_slices = self.slices.len();
        let mut all_acked = true;
        let mut i: usize = 0;
        while i < num_slices
            invariant
                i <= num_slices,
                num_slices == self.slices@.len(),
                num_slices == before.slices.len(),
                num_slices <= u32::MAX,
                before == old(self)@,
                expected == before.slices_after_ack(ack_data),
                forall|j: int|
                    0 <= j < before.slices.len() ==> (acked@.contains(j as u32)
                        <==> before.is_acked(ack_data, j)),
                self.config == old(self).config,
                self.chunk_id == old(self).chunk_id,
                views(self.packets_sent@) == before.packets_sent.filter(
                    BlockChannelView::not_confirmed(ack_data),
                ),
                self.receive_chunk_id == old(self).receive_chunk_id,
                self.received == old(self).received,
                self.messages_received == old(self).messages_received,
                self.out_of_sync == old(self).out_of_sync,
                forall|j: int| 0 <= j < i ==> (#[trigger] self.slices@[j])@ == expected[j],
                forall|j: int|
                    i <= j < num_slices ==> (#[trigger] self.slices@[j])@ == before.slices[j],
                all_acked <==> forall|j: int| 0 <= j < i ==> (#[trigger] expected[j]).acked,
            decreases num_slices - i,
        {
            assert(self.slices@[i as int]@ == before.slices[i as int]);
            if !self.slices[i].acked && contains_slice(&acked, i as u32) {
                self.slices[i].acked = true;
            }
            assert(self.slices@[i as int]@ == expected[i as int]);
            if !self.slices[i].acked {
                all_acked = false;
            }
            i += 1;
        }
        if num_slices > 0 && all_acked {
            self.slices = Vec::new();
            self.packets_sent = Vec::new();
            self.chunk_id = self.chunk_id.wrapping_add(1);
            assert(self@.slices =~= Seq::empty());
            assert(self@.packets_sent =~= Seq::empty());
        } else {
            assert(self@.slices =~= expected);
        }
    }

    /// Takes in a slice of the peer.
    pub fn process_message(&mut self, slice: SliceMessage)
        requires
            old(self).wf(),
        ensures
            final(self).wf(),
            final(self)@ == old(self)@.receive(slice@),
    {
        if self.out_of_sync || slice.chunk_id != self.receive_chunk_id {
            return ;
        }
        if slice.num_slices == 0 || slice.num_slices > self.config.max_slices || slice.slice_id
            >= slice.num_slices || (self.received.len() > 0 && self.received.len()
            != slice.num_slices as usize) {
            self.out_of_sync = true;
            return ;
        }
        let ghost before = old(self)@;
        if self.received.len() == 0 {
            let mut i: u32 = 0;
            while i < slice.num_slices
                invariant
                    i <= slice.num_slices,
                    self.received@.len() == i,
                    forall|j: int| 0 <= j < i ==> self.received@[j] is None,
                    self.config == old(self).config,
                    self.chunk_id == old(self).chunk_id,
                    self.slices == old(self).slices,
                    self.packets_sent == old(self).packets_sent,
                    self.receive_chunk_id == old(self).receive_chunk_id,
                    self.messages_received == old(self).messages_received,
                    self.out_of_sync == old(self).out_of_sync,
                decreases slice.num_slices - i,
            {
                self.received.push(None);
                i += 1;
            }
        }
        let ghost room = places(self.received@);
        assert(room =~= (if before.received.len() == 0 {
            Seq::new(slice.num_slices as nat, |i: int| None::<Seq<u8>>)
        } else {
            before.received
        }));
        let id = slice.slice_id as usize;
        if self.received[id].is_some() {
            assert(room[id as int] is Some);
            return ;
        }
        assert(room[id as int] is None);
        self.received[id] = Some(slice.payload);
        let ghost filled = room.update(id as int, Some(slice.payload@));
        assert(places(self.received@) =~= filled);
        if all_received(&self.received) {
            let message = join_pieces(&self.received);
            let ghost waiting = views(self.messages_received@);
            self.messages_received.push_back(message);
            assert(views(self.messages_received@) =~= waiting.push(message@));
            self.received = Vec::new();
            self.receive_chunk_id = self.receive_chunk_id.wrapping_add(1);
            assert(self@.received =~= Seq::empty());
        }
    }

    /// Takes in the slices of the peer that one packet carried, in their
    /// order.
    pub fn process_messages(&mut self, slices: Vec<SliceMessage>)
        requires
            old(self).wf(),
        ensures
            final(self).wf(),
            final(self)@ == old(self)@.receive_all(views(slices@)),
    {
        let ghost all = views(slices@);
        assert(all.take(0) =~= Seq::empty());
        for slice in it: slices
            invariant
                it.seq() == slices@,
                all == views(slices@),
                self.wf(),
                self@ == old(self)@.receive_all(all.take(it.index() as int)),
        {
            proof {
                let k = it.index() as int;
                assert(all.take(k + 1).drop_last() =~= all.take(k));
                assert(all.take(k + 1).last() == slice@);
            }
            self.process_message(slice);
        }
        assert(all.take(slices@.len() as int) =~= all);
    }

    /// Hands out the message that has waited longest, if any waits.
    pub fn receive_message(&mut self) -> (payload: Option<Payload>)
        requires
            old(self).wf(),
        ensures
            final(self).wf(),
            final(self)@ == old(self)@.deliver().0,
            held(payload) == old(self)@.deliver().1,
    {
        let ghost waiting = views(self.messages_received@);
        let payload = self.messages_received.pop_front();
        proof {
            if payload is Some {
                assert(views(self.messages_received@) =~= waiting.skip(1));
            }
        }
        payload
    }
}

} // verus!

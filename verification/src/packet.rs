//! The packet envelope and its codec.
//!
//! A packet starts with one byte that tells its kind: 0 normal, 1 fragment,
//! 2 heartbeat, 3 disconnect. What follows is laid out as the `wire` functions
//! say. `Packet::serialize_size`, `Packet::write` and `Packet::read` are the
//! three passes over that one format.
use vstd::prelude::*;
use vstd::slice::slice_subrange;
use vstd::std_specs::convert::FromSpecImpl;
use vstd::string::StringExecFns;
use crate::channel::block::{SliceMessage, SliceMessageView};
use crate::channel::reliable::{ReliableMessage, ReliableMessageView};
use crate::error::{io_error_text, DisconnectionReason};
use crate::wire::{
    le_u16, le_u32, lemma_concat_assoc, lemma_list16_parse_wire, lemma_list16_size,
    lemma_list16_wire_parse, lemma_list8_parse_wire, lemma_list8_size, lemma_list8_wire_parse,
    lemma_skip_concat, lemma_skip_skip, lemma_take_split, lemma_u16_bytes, lemma_u16_round_trip,
    lemma_u32_bytes, lemma_u32_round_trip, list16_parse, list16_size, list16_valid, list16_wire,
    list8_parse, list8_size, list8_valid, list8_wire, measure_list16, measure_list8, read_list16,
    read_list8, saturated, u16_from_le, u32_from_le, u64_from_le, views, wire_all, write_list16,
    write_list8, write_u16, write_u32, write_u8, WireFormat,
};

verus! {

/// The bytes of a message.
pub type Payload = Vec<u8>;

/// The error of a read that found its source too short. It is what
/// `std::io::Error::from` makes of `std::io::ErrorKind::UnexpectedEof`;
/// nothing is claimed of it.
#[verifier::external_body]
pub(crate) fn unexpected_eof() -> std::io::Error {
    std::io::Error::from(std::io::ErrorKind::UnexpectedEof)
}

/// Takes the next `N` bytes from the front of `src`. Where `src` holds fewer,
/// the read fails and nothing is taken.
#[inline]
pub fn read_bytes<const N: usize>(src: &mut &[u8]) -> (r: Result<[u8; N], std::io::Error>)
    ensures
        match r {
            Ok(data) => old(src)@.len() >= N && data@ == old(src)@.take(N as int) && final(src)@
                == old(src)@.skip(N as int),
            Err(_) => old(src)@.len() < N && final(src)@ == old(src)@,
        },
{
    if src.len() < N {
        return Err(unexpected_eof());
    }
    let mut data = [0u8;N];
    let mut i: usize = 0;
    while i < N
        invariant
            i <= N <= src@.len(),
            forall|j: int| 0 <= j < i ==> data@[j] == src@[j],
        decreases N - i,
    {
        data[i] = src[i];
        i += 1;
    }
    *src = slice_subrange(*src, N, src.len());
    assert(data@ =~= old(src)@.take(N as int));
    assert(src@ =~= old(src)@.skip(N as int));
    Ok(data)
}

/// Takes one byte from the front of `src`.
#[inline]
pub fn read_u8(src: &mut &[u8]) -> (r: Result<u8, std::io::Error>)
    ensures
        match r {
            Ok(x) => old(src)@.len() >= 1 && x == old(src)@[0] && final(src)@ == old(src)@.skip(1),
            Err(_) => old(src)@.len() < 1 && final(src)@ == old(src)@,
        },
{
    match read_bytes::<1>(src) {
        Ok(buffer) => Ok(buffer[0]),
        Err(e) => Err(e),
    }
}

/// Takes a little-endian number of 16 bits from the front of `src`.
#[inline]
pub fn read_u16(src: &mut &[u8]) -> (r: Result<u16, std::io::Error>)
    ensures
        match r {
            Ok(x) => old(src)@.len() >= 2 && x == u16_from_le(old(src)@) && final(src)@
                == old(src)@.skip(2),
            Err(_) => old(src)@.len() < 2 && final(src)@ == old(src)@,
        },
{
    match read_bytes::<2>(src) {
        Ok(buffer) => Ok(buffer[0] as u16 + 256 * (buffer[1] as u16)),
        Err(e) => Err(e),
    }
}

/// Takes a little-endian number of 32 bits from the front of `src`.
#[inline]
pub fn read_u32(src: &mut &[u8]) -> (r: Result<u32, std::io::Error>)
    ensures
        match r {
            Ok(x) => old(src)@.len() >= 4 && x == u32_from_le(old(src)@) && final(src)@
                == old(src)@.skip(4),
            Err(_) => old(src)@.len() < 4 && final(src)@ == old(src)@,
        },
{
    match read_bytes::<4>(src) {
        Ok(buffer) => Ok(
            buffer[0] as u32 + 256 * (buffer[1] as u32) + 65536 * (buffer[2] as u32) + 16777216 * (
            buffer[3] as u32),
        ),
        Err(e) => Err(e),
    }
}

/// Takes a little-endian number of 64 bits from the front of `src`.
#[inline]
pub fn read_u64(src: &mut &[u8]) -> (r: Result<u64, std::io::Error>)
    ensures
        match r {
            Ok(x) => old(src)@.len() >= 8 && x == u64_from_le(old(src)@) && final(src)@
                == old(src)@.skip(8),
            Err(_) => old(src)@.len() < 8 && final(src)@ == old(src)@,
        },
{
    match read_bytes::<8>(src) {
        Ok(buffer) => {
            let low: u64 = buffer[0] as u64 + 256 * (buffer[1] as u64) + 65536 * (buffer[2] as u64)
                + 16777216 * (buffer[3] as u64);
            let high: u64 = buffer[4] as u64 + 256 * (buffer[5] as u64) + 65536 * (buffer[6] as u64)
                + 16777216 * (buffer[7] as u64);
            Ok(low + 0x1_0000_0000 * high)
        },
        Err(e) => Err(e),
    }
}

/// What a packet tells of the packets received from the peer: the sequence
/// number `ack`, and in `ack_bits` one bit for each of the 32 sequence numbers
/// before it.
#[derive(Copy, Clone, Debug, PartialEq, Eq, Structural)]
pub struct AckData {
    pub ack: u16,
    pub ack_bits: u32,
}

impl View for AckData {
    type V = AckData;

    open spec fn view(&self) -> AckData {
        *self
    }
}

/// On the wire: `ack` in 16 bits, then `ack_bits` in 32 bits.
impl WireFormat for AckData {
    open spec fn valid(v: AckData) -> bool {
        true
    }

    open spec fn wire(v: AckData) -> Seq<u8> {
        le_u16(v.ack) + le_u32(v.ack_bits)
    }

    open spec fn size(v: AckData) -> nat {
        6
    }

    open spec fn parse(bytes: Seq<u8>) -> Option<(AckData, int)> {
        if bytes.len() < 6 {
            None
        } else {
            Some((AckData { ack: u16_from_le(bytes), ack_bits: u32_from_le(bytes.skip(2)) }, 6))
        }
    }

    proof fn lemma_size(v: AckData) {
    }

    proof fn lemma_parse_wire(v: AckData, rest: Seq<u8>) {
        let bytes = Self::wire(v) + rest;
        lemma_u16_round_trip(v.ack, le_u32(v.ack_bits) + rest);
        lemma_u32_round_trip(v.ack_bits, rest);
        assert(bytes =~= le_u16(v.ack) + (le_u32(v.ack_bits) + rest));
        assert(bytes.skip(2) =~= le_u32(v.ack_bits) + rest);
    }

    proof fn lemma_wire_parse(bytes: Seq<u8>) {
        if bytes.len() >= 6 {
            lemma_u16_bytes(bytes);
            lemma_u32_bytes(bytes.skip(2));
            assert(bytes.subrange(0, 6) =~= bytes.subrange(0, 2) + bytes.skip(2).subrange(0, 4));
        }
    }

    fn measure(&self) -> (size: usize) {
        6
    }

    fn write(&self, out: &mut Vec<u8>) {
        write_u16(out, self.ack);
        write_u32(out, self.ack_bits);
        assert(out@ =~= old(out)@ + Self::wire(self@));
    }

    fn read(src: &mut &[u8]) -> (r: Result<Self, std::io::Error>) {
        let mut cur: &[u8] = *src;
        let ack = match read_u16(&mut cur) {
            Ok(ack) => ack,
            Err(e) => return Err(e),
        };
        let ack_bits = match read_u32(&mut cur) {
            Ok(ack_bits) => ack_bits,
            Err(e) => return Err(e),
        };
        assert(cur@ =~= old(src)@.skip(6));
        *src = cur;
        Ok(AckData { ack, ack_bits })
    }
}

/// The messages of one channel in a packet, as a mathematical value.
pub struct ChannelDataView<V> {
    pub channel_id: u8,
    pub messages: Seq<V>,
}

/// Whether the messages of the channel fit their prefixes, and their count
/// too.
pub open spec fn channel_valid<M: WireFormat>(v: ChannelDataView<M::V>) -> bool {
    list16_valid::<M>(v.messages)
}

/// The messages of one channel on the wire: the channel id in one byte, then
/// the list of the messages with its count in 16 bits.
pub open spec fn channel_wire<M: WireFormat>(v: ChannelDataView<M::V>) -> Seq<u8> {
    seq![v.channel_id] + list16_wire::<M>(v.messages)
}

/// The size of the messages of one channel on the wire.
pub open spec fn channel_size<M: WireFormat>(v: ChannelDataView<M::V>) -> nat {
    1 + list16_size::<M>(v.messages)
}

/// The messages of one channel at the start of `bytes`, and the number of
/// bytes they take.
pub open spec fn channel_parse<M: WireFormat>(bytes: Seq<u8>) -> Option<
    (ChannelDataView<M::V>, int),
> {
    if bytes.len() < 1 {
        None
    } else {
        match list16_parse::<M>(bytes.skip(1)) {
            Some((messages, n)) => Some(
                (ChannelDataView { channel_id: bytes[0], messages }, 1 + n),
            ),
            None => None,
        }
    }
}

/// The measured size of the messages of a channel is the length of their
/// encoding.
pub proof fn lemma_channel_size<M: WireFormat>(v: ChannelDataView<M::V>)
    ensures
        channel_wire::<M>(v).len() == channel_size::<M>(v),
{
    lemma_list16_size::<M>(v.messages);
}

/// Valid messages of a channel are read back from their encoding.
pub proof fn lemma_channel_parse_wire<M: WireFormat>(v: ChannelDataView<M::V>, rest: Seq<u8>)
    requires
        channel_valid::<M>(v),
    ensures
        channel_parse::<M>(channel_wire::<M>(v) + rest) == Some(
            (v, channel_wire::<M>(v).len() as int),
        ),
{
    let bytes = channel_wire::<M>(v) + rest;
    assert(bytes =~= seq![v.channel_id] + (list16_wire::<M>(v.messages) + rest));
    assert(bytes.skip(1) =~= list16_wire::<M>(v.messages) + rest);
    lemma_list16_parse_wire::<M>(v.messages, rest);
}

/// What is read as the messages of a channel is valid, and the bytes read are
/// its encoding.
pub proof fn lemma_channel_wire_parse<M: WireFormat>(bytes: Seq<u8>)
    ensures
        channel_parse::<M>(bytes) matches Some((v, n)) ==> channel_valid::<M>(v) && 0 <= n
            <= bytes.len() && bytes.subrange(0, n) == channel_wire::<M>(v),
{
    if let Some((v, n)) = channel_parse::<M>(bytes) {
        lemma_list16_wire_parse::<M>(bytes.skip(1));
        assert(bytes.subrange(0, n) =~= seq![bytes[0]] + bytes.skip(1).subrange(0, n - 1));
    }
}

fn measure_channel<M: WireFormat>(channel_id: u8, messages: &Vec<M>) -> (size: usize)
    ensures
        size == saturated(
            channel_size::<M>(ChannelDataView { channel_id, messages: views(messages@) }),
        ),
{
    measure_list16(messages).saturating_add(1)
}

fn write_channel<M: WireFormat>(channel_id: u8, messages: &Vec<M>, out: &mut Vec<u8>)
    ensures
        final(out)@ == old(out)@ + channel_wire::<M>(
            ChannelDataView { channel_id, messages: views(messages@) },
        ),
{
    write_u8(out, channel_id);
    write_list16(messages, out);
    assert(out@ =~= old(out)@ + channel_wire::<M>(
        ChannelDataView { channel_id, messages: views(messages@) },
    ));
}

fn read_channel<M: WireFormat>(src: &mut &[u8]) -> (r: Result<(u8, Vec<M>), std::io::Error>)
    ensures
        match r {
            Ok((channel_id, messages)) => channel_parse::<M>(old(src)@) matches Some((v, n)) && v
                == (ChannelDataView { channel_id, messages: views(messages@) }) && final(src)@
                == old(src)@.skip(n),
            Err(_) => channel_parse::<M>(old(src)@) is None && final(src)@ == old(src)@,
        },
{
    let mut cur: &[u8] = *src;
    let channel_id = match read_u8(&mut cur) {
        Ok(channel_id) => channel_id,
        Err(e) => return Err(e),
    };
    let messages = match read_list16::<M>(&mut cur) {
        Ok(messages) => messages,
        Err(e) => return Err(e),
    };
    proof {
        let n = (list16_parse::<M>(old(src)@.skip(1))->0).1;
        lemma_list16_wire_parse::<M>(old(src)@.skip(1));
        assert(old(src)@.skip(1).skip(n) =~= old(src)@.skip(1 + n));
    }
    *src = cur;
    Ok((channel_id, messages))
}

/// The messages that a packet carries for one reliable channel.
#[derive(Clone, Debug, PartialEq, Eq)]
pub struct ReliableChannelData {
    pub channel_id: u8,
    pub messages: Vec<ReliableMessage>,
}

/// The messages that a packet carries for one unreliable channel.
#[derive(Clone, Debug, PartialEq, Eq)]
pub struct UnreliableChannelData {
    pub channel_id: u8,
    pub messages: Vec<Payload>,
}

/// The slices that a packet carries for one block channel.
#[derive(Clone, Debug, PartialEq, Eq)]
pub struct BlockChannelData {
    pub channel_id: u8,
    pub messages: Vec<SliceMessage>,
}

impl View for ReliableChannelData {
    type V = ChannelDataView<ReliableMessageView>;

    open spec fn view(&self) -> Self::V {
        ChannelDataView { channel_id: self.channel_id, messages: views(self.messages@) }
    }
}

impl View for UnreliableChannelData {
    type V = ChannelDataView<Seq<u8>>;

    open spec fn view(&self) -> Self::V {
        ChannelDataView { channel_id: self.channel_id, messages: views(self.messages@) }
    }
}

impl View for BlockChannelData {
    type V = ChannelDataView<SliceMessageView>;

    open spec fn view(&self) -> Self::V {
        ChannelDataView { channel_id: self.channel_id, messages: views(self.messages@) }
    }
}

impl WireFormat for ReliableChannelData {
    open spec fn valid(v: Self::V) -> bool {
        channel_valid::<ReliableMessage>(v)
    }

    open spec fn wire(v: Self::V) -> Seq<u8> {
        channel_wire::<ReliableMessage>(v)
    }

    open spec fn size(v: Self::V) -> nat {
        channel_size::<ReliableMessage>(v)
    }

    open spec fn parse(bytes: Seq<u8>) -> Option<(Self::V, int)> {
        channel_parse::<ReliableMessage>(bytes)
    }

    proof fn lemma_size(v: Self::V) {
        lemma_channel_size::<ReliableMessage>(v);
    }

    proof fn lemma_parse_wire(v: Self::V, rest: Seq<u8>) {
        lemma_channel_parse_wire::<ReliableMessage>(v, rest);
    }

    proof fn lemma_wire_parse(bytes: Seq<u8>) {
        lemma_channel_wire_parse::<ReliableMessage>(bytes);
    }

    fn measure(&self) -> (size: usize) {
        measure_channel(self.channel_id, &self.messages)
    }

    fn write(&self, out: &mut Vec<u8>) {
        write_channel(self.channel_id, &self.messages, out);
    }

    fn read(src: &mut &[u8]) -> (r: Result<Self, std::io::Error>) {
        match read_channel::<ReliableMessage>(src) {
            Ok((channel_id, messages)) => Ok(ReliableChannelData { channel_id, messages }),
            Err(e) => Err(e),
        }
    }
}

impl WireFormat for UnreliableChannelData {
    open spec fn valid(v: Self::V) -> bool {
        channel_valid::<Payload>(v)
    }

    open spec fn wire(v: Self::V) -> Seq<u8> {
        channel_wire::<Payload>(v)
    }

    open spec fn size(v: Self::V) -> nat {
        channel_size::<Payload>(v)
    }

    open spec fn parse(bytes: Seq<u8>) -> Option<(Self::V, int)> {
        channel_parse::<Payload>(bytes)
    }

    proof fn lemma_size(v: Self::V) {
        lemma_channel_size::<Payload>(v);
    }

    proof fn lemma_parse_wire(v: Self::V, rest: Seq<u8>) {
        lemma_channel_parse_wire::<Payload>(v, rest);
    }

    proof fn lemma_wire_parse(bytes: Seq<u8>) {
        lemma_channel_wire_parse::<Payload>(bytes);
    }

    fn measure(&self) -> (size: usize) {
        measure_channel(self.channel_id, &self.messages)
    }

    fn write(&self, out: &mut Vec<u8>) {
        write_channel(self.channel_id, &self.messages, out);
    }

    fn read(src: &mut &[u8]) -> (r: Result<Self, std::io::Error>) {
        match read_channel::<Payload>(src) {
            Ok((channel_id, messages)) => Ok(UnreliableChannelData { channel_id, messages }),
            Err(e) => Err(e),
        }
    }
}

impl WireFormat for BlockChannelData {
    open spec fn valid(v: Self::V) -> bool {
        channel_valid::<SliceMessage>(v)
    }

    open spec fn wire(v: Self::V) -> Seq<u8> {
        channel_wire::<SliceMessage>(v)
    }

    open spec fn size(v: Self::V) -> nat {
        channel_size::<SliceMessage>(v)
    }

    open spec fn parse(bytes: Seq<u8>) -> Option<(Self::V, int)> {
        channel_parse::<SliceMessage>(bytes)
    }

    proof fn lemma_size(v: Self::V) {
        lemma_channel_size::<SliceMessage>(v);
    }

    proof fn lemma_parse_wire(v: Self::V, rest: Seq<u8>) {
        lemma_channel_parse_wire::<SliceMessage>(v, rest);
    }

    proof fn lemma_wire_parse(bytes: Seq<u8>) {
        lemma_channel_wire_parse::<SliceMessage>(bytes);
    }

    fn measure(&self) -> (size: usize) {
        measure_channel(self.channel_id, &self.messages)
    }

    fn write(&self, out: &mut Vec<u8>) {
        write_channel(self.channel_id, &self.messages, out);
    }

    fn read(src: &mut &[u8]) -> (r: Result<Self, std::io::Error>) {
        match read_channel::<SliceMessage>(src) {
            Ok((channel_id, messages)) => Ok(BlockChannelData { channel_id, messages }),
            Err(e) => Err(e),
        }
    }
}

/// The messages that one packet carries, by kind of channel. Within a kind
/// the channels stand in the order in which the caller gave them.
#[derive(Clone, Debug, PartialEq, Eq)]
pub struct ChannelMessages {
    pub block_channels_data: Vec<BlockChannelData>,
    pub unreliable_channels_data: Vec<UnreliableChannelData>,
    pub reliable_channels_data: Vec<ReliableChannelData>,
}

/// The messages of a packet as a mathematical value.
pub struct ChannelMessagesView {
    pub block_channels_data: Seq<ChannelDataView<SliceMessageView>>,
    pub unreliable_channels_data: Seq<ChannelDataView<Seq<u8>>>,
    pub reliable_channels_data: Seq<ChannelDataView<ReliableMessageView>>,
}

impl ChannelMessagesView {
    /// Whether no channel of any kind has a part in it.
    pub open spec fn is_empty(self) -> bool {
        self.block_channels_data.len() == 0 && self.unreliable_channels_data.len() == 0
            && self.reliable_channels_data.len() == 0
    }
}

impl View for ChannelMessages {
    type V = ChannelMessagesView;

    open spec fn view(&self) -> ChannelMessagesView {
        ChannelMessagesView {
            block_channels_data: views(self.block_channels_data@),
            unreliable_channels_data: views(self.unreliable_channels_data@),
            reliable_channels_data: views(self.reliable_channels_data@),
        }
    }
}

impl ChannelMessages {
    /// Whether no channel of any kind has a part in it.
    pub fn is_empty(&self) -> (empty: bool)
        ensures
            empty == self@.is_empty(),
    {
        self.block_channels_data.is_empty() && self.unreliable_channels_data.is_empty()
            && self.reliable_channels_data.is_empty()
    }
}

/// On the wire: the reliable channels, then the unreliable channels, then the
/// block channels, each as a list with its count in 8 bits.
impl WireFormat for ChannelMessages {
    open spec fn valid(v: ChannelMessagesView) -> bool {
        list8_valid::<ReliableChannelData>(v.reliable_channels_data) && list8_valid::<
            UnreliableChannelData,
        >(v.unreliable_channels_data) && list8_valid::<BlockChannelData>(v.block_channels_data)
    }

    open spec fn wire(v: ChannelMessagesView) -> Seq<u8> {
        list8_wire::<ReliableChannelData>(v.reliable_channels_data) + list8_wire::<
            UnreliableChannelData,
        >(v.unreliable_channels_data) + list8_wire::<BlockChannelData>(v.block_channels_data)
    }

    open spec fn size(v: ChannelMessagesView) -> nat {
        list8_size::<ReliableChannelData>(v.reliable_channels_data) + list8_size::<
            UnreliableChannelData,
        >(v.unreliable_channels_data) + list8_size::<BlockChannelData>(v.block_channels_data)
    }

    open spec fn parse(bytes: Seq<u8>) -> Option<(ChannelMessagesView, int)> {
        match list8_parse::<ReliableChannelData>(bytes) {
            Some((reliable_channels_data, a)) => match list8_parse::<UnreliableChannelData>(
                bytes.skip(a),
            ) {
                Some((unreliable_channels_data, b)) => match list8_parse::<BlockChannelData>(
                    bytes.skip(a + b),
                ) {
                    Some((block_channels_data, c)) => Some(
                        (
                            ChannelMessagesView {
                                block_channels_data,
                                unreliable_channels_data,
                                reliable_channels_data,
                            },
                            a + b + c,
                        ),
                    ),
                    None => None,
                },
                None => None,
            },
            None => None,
        }
    }

    proof fn lemma_size(v: ChannelMessagesView) {
        lemma_list8_size::<ReliableChannelData>(v.reliable_channels_data);
        lemma_list8_size::<UnreliableChannelData>(v.unreliable_channels_data);
        lemma_list8_size::<BlockChannelData>(v.block_channels_data);
    }

    proof fn lemma_parse_wire(v: ChannelMessagesView, rest: Seq<u8>) {
        let reliable = list8_wire::<ReliableChannelData>(v.reliable_channels_data);
        let unreliable = list8_wire::<UnreliableChannelData>(v.unreliable_channels_data);
        let block = list8_wire::<BlockChannelData>(v.block_channels_data);
        let bytes = Self::wire(v) + rest;
        let a = reliable.len() as int;
        let b = unreliable.len() as int;
        assert(bytes == reliable + (unreliable + (block + rest))) by {
            lemma_concat_assoc(reliable + unreliable, block, rest);
            lemma_concat_assoc(reliable, unreliable, block + rest);
        }
        assert(bytes.skip(a) == unreliable + (block + rest)) by {
            lemma_skip_concat(reliable, unreliable + (block + rest));
        }
        assert(bytes.skip(a + b) == block + rest) by {
            lemma_skip_concat(unreliable, block + rest);
            lemma_skip_skip(bytes, a, b);
        }
        lemma_list8_parse_wire::<ReliableChannelData>(
            v.reliable_channels_data,
            unreliable + (block + rest),
        );
        lemma_list8_parse_wire::<UnreliableChannelData>(v.unreliable_channels_data, block + rest);
        lemma_list8_parse_wire::<BlockChannelData>(v.block_channels_data, rest);
    }

    proof fn lemma_wire_parse(bytes: Seq<u8>) {
        if let Some((v, n)) = Self::parse(bytes) {
            lemma_list8_wire_parse::<ReliableChannelData>(bytes);
            let a = (list8_parse::<ReliableChannelData>(bytes)->0).1;
            lemma_list8_wire_parse::<UnreliableChannelData>(bytes.skip(a));
            let b = (list8_parse::<UnreliableChannelData>(bytes.skip(a))->0).1;
            lemma_list8_wire_parse::<BlockChannelData>(bytes.skip(a + b));
            let c = (list8_parse::<BlockChannelData>(bytes.skip(a + b))->0).1;
            let reliable = bytes.subrange(0, a);
            let unreliable = bytes.skip(a).subrange(0, b);
            let block = bytes.skip(a + b).subrange(0, c);
            assert(bytes.subrange(0, n) == (reliable + unreliable) + block) by {
                lemma_take_split(bytes, a, n);
                lemma_take_split(bytes.skip(a), b, n - a);
                lemma_skip_skip(bytes, a, b);
                lemma_concat_assoc(reliable, unreliable, block);
            }
        }
    }

    fn measure(&self) -> (size: usize) {
        measure_list8(&self.reliable_channels_data).saturating_add(
            measure_list8(&self.unreliable_channels_data),
        ).saturating_add(measure_list8(&self.block_channels_data))
    }

    fn write(&self, out: &mut Vec<u8>) {
        write_list8(&self.reliable_channels_data, out);
        write_list8(&self.unreliable_channels_data, out);
        write_list8(&self.block_channels_data, out);
        assert(out@ =~= old(out)@ + Self::wire(self@));
    }

    fn read(src: &mut &[u8]) -> (r: Result<Self, std::io::Error>) {
        let mut cur: &[u8] = *src;
        let reliable_channels_data = match read_list8::<ReliableChannelData>(&mut cur) {
            Ok(data) => data,
            Err(e) => return Err(e),
        };
        let ghost a = (list8_parse::<ReliableChannelData>(old(src)@)->0).1;
        proof {
            lemma_list8_wire_parse::<ReliableChannelData>(old(src)@);
        }
        let unreliable_channels_data = match read_list8::<UnreliableChannelData>(&mut cur) {
            Ok(data) => data,
            Err(e) => return Err(e),
        };
        let ghost b = (list8_parse::<UnreliableChannelData>(old(src)@.skip(a))->0).1;
        proof {
            lemma_list8_wire_parse::<UnreliableChannelData>(old(src)@.skip(a));
            assert(old(src)@.skip(a).skip(b) =~= old(src)@.skip(a + b));
        }
        let block_channels_data = match read_list8::<BlockChannelData>(&mut cur) {
            Ok(data) => data,
            Err(e) => return Err(e),
        };
        proof {
            let c = (list8_parse::<BlockChannelData>(old(src)@.skip(a + b))->0).1;
            lemma_list8_wire_parse::<BlockChannelData>(old(src)@.skip(a + b));
            assert(old(src)@.skip(a + b).skip(c) =~= old(src)@.skip(a + b + c));
        }
        *src = cur;
        Ok(ChannelMessages { block_channels_data, unreliable_channels_data, reliable_channels_data })
    }
}

/// An aggregation without channels is written as three zero counts.
pub proof fn lemma_empty_channel_messages(v: ChannelMessagesView)
    requires
        v.is_empty(),
    ensures
        ChannelMessages::valid(v),
        ChannelMessages::wire(v) == seq![0u8, 0u8, 0u8],
{
    reveal_with_fuel(wire_all, 1);
    assert(ChannelMessages::wire(v) =~= seq![0u8, 0u8, 0u8]);
}

/// A packet with the messages of the channels.
#[derive(Clone, Debug, PartialEq, Eq)]
pub struct Normal {
    pub sequence: u16,
    pub ack_data: AckData,
    pub channel_messages: ChannelMessages,
}

/// A normal packet as a mathematical value.
pub struct NormalView {
    pub sequence: u16,
    pub ack_data: AckData,
    pub channel_messages: ChannelMessagesView,
}

impl View for Normal {
    type V = NormalView;

    open spec fn view(&self) -> NormalView {
        NormalView {
            sequence: self.sequence,
            ack_data: self.ack_data,
            channel_messages: self.channel_messages@,
        }
    }
}

/// On the wire: the sequence number in 16 bits, the ack data, then the
/// messages of the channels.
impl WireFormat for Normal {
    open spec fn valid(v: NormalView) -> bool {
        ChannelMessages::valid(v.channel_messages)
    }

    open spec fn wire(v: NormalView) -> Seq<u8> {
        le_u16(v.sequence) + AckData::wire(v.ack_data) + ChannelMessages::wire(v.channel_messages)
    }

    open spec fn size(v: NormalView) -> nat {
        2 + AckData::size(v.ack_data) + ChannelMessages::size(v.channel_messages)
    }

    open spec fn parse(bytes: Seq<u8>) -> Option<(NormalView, int)> {
        if bytes.len() < 2 {
            None
        } else {
            match AckData::parse(bytes.skip(2)) {
                Some((ack_data, _)) => match ChannelMessages::parse(bytes.skip(8)) {
                    Some((channel_messages, n)) => Some(
                        (
                            NormalView { sequence: u16_from_le(bytes), ack_data, channel_messages },
                            8 + n,
                        ),
                    ),
                    None => None,
                },
                None => None,
            }
        }
    }

    proof fn lemma_size(v: NormalView) {
        AckData::lemma_size(v.ack_data);
        ChannelMessages::lemma_size(v.channel_messages);
    }

    proof fn lemma_parse_wire(v: NormalView, rest: Seq<u8>) {
        let bytes = Self::wire(v) + rest;
        let sequence = le_u16(v.sequence);
        let ack = AckData::wire(v.ack_data);
        let messages = ChannelMessages::wire(v.channel_messages);
        assert(bytes == sequence + (ack + (messages + rest))) by {
            lemma_concat_assoc(sequence + ack, messages, rest);
            lemma_concat_assoc(sequence, ack, messages + rest);
        }
        assert(bytes.skip(2) == ack + (messages + rest)) by {
            lemma_skip_concat(sequence, ack + (messages + rest));
        }
        assert(bytes.skip(8) == messages + rest) by {
            lemma_skip_concat(ack, messages + rest);
            lemma_skip_skip(bytes, 2, 6);
        }
        lemma_u16_round_trip(v.sequence, ack + (messages + rest));
        AckData::lemma_parse_wire(v.ack_data, messages + rest);
        ChannelMessages::lemma_parse_wire(v.channel_messages, rest);
    }

    proof fn lemma_wire_parse(bytes: Seq<u8>) {
        if let Some((v, n)) = Self::parse(bytes) {
            lemma_u16_bytes(bytes);
            AckData::lemma_wire_parse(bytes.skip(2));
            ChannelMessages::lemma_wire_parse(bytes.skip(8));
            let sequence = bytes.subrange(0, 2);
            let ack = bytes.skip(2).subrange(0, 6);
            let messages = bytes.skip(8).subrange(0, n - 8);
            assert(bytes.subrange(0, n) == (sequence + ack) + messages) by {
                lemma_take_split(bytes, 2, n);
                lemma_take_split(bytes.skip(2), 6, n - 2);
                lemma_skip_skip(bytes, 2, 6);
                lemma_concat_assoc(sequence, ack, messages);
            }
        }
    }

    fn measure(&self) -> (size: usize) {
        self.channel_messages.measure().saturating_add(2 + 6)
    }

    fn write(&self, out: &mut Vec<u8>) {
        write_u16(out, self.sequence);
        self.ack_data.write(out);
        self.channel_messages.write(out);
        assert(out@ =~= old(out)@ + Self::wire(self@));
    }

    fn read(src: &mut &[u8]) -> (r: Result<Self, std::io::Error>) {
        let mut cur: &[u8] = *src;
        let sequence = match read_u16(&mut cur) {
            Ok(sequence) => sequence,
            Err(e) => return Err(e),
        };
        let ack_data = match AckData::read(&mut cur) {
            Ok(ack_data) => ack_data,
            Err(e) => return Err(e),
        };
        assert(cur@ =~= old(src)@.skip(8));
        let channel_messages = match ChannelMessages::read(&mut cur) {
            Ok(channel_messages) => channel_messages,
            Err(e) => return Err(e),
        };
        proof {
            let n = (ChannelMessages::parse(old(src)@.skip(8))->0).1;
            ChannelMessages::lemma_wire_parse(old(src)@.skip(8));
            assert(old(src)@.skip(8).skip(n) =~= old(src)@.skip(8 + n));
        }
        *src = cur;
        Ok(Normal { sequence, ack_data, channel_messages })
    }
}

/// One piece of a packet that was too large for one datagram: piece
/// `fragment_id`, counted from zero, of the `num_fragments` pieces of the packet
/// `sequence`.
#[derive(Clone, Debug, PartialEq, Eq)]
pub struct Fragment {
    pub ack_data: AckData,
    pub sequence: u16,
    pub fragment_id: u8,
    pub num_fragments: u8,
    pub payload: Payload,
}

/// A fragment as a mathematical value.
pub struct FragmentView {
    pub ack_data: AckData,
    pub sequence: u16,
    pub fragment_id: u8,
    pub num_fragments: u8,
    pub payload: Seq<u8>,
}

impl View for Fragment {
    type V = FragmentView;

    open spec fn view(&self) -> FragmentView {
        FragmentView {
            ack_data: self.ack_data,
            sequence: self.sequence,
            fragment_id: self.fragment_id,
            num_fragments: self.num_fragments,
            payload: self.payload@,
        }
    }
}

/// On the wire: the sequence number in 16 bits, the ack data, the fragment id
/// and the number of fragments in one byte each, then the payload as a byte
/// string.
impl WireFormat for Fragment {
    open spec fn valid(v: FragmentView) -> bool {
        Payload::valid(v.payload)
    }

    open spec fn wire(v: FragmentView) -> Seq<u8> {
        le_u16(v.sequence) + AckData::wire(v.ack_data) + seq![v.fragment_id, v.num_fragments]
            + Payload::wire(v.payload)
    }

    open spec fn size(v: FragmentView) -> nat {
        2 + AckData::size(v.ack_data) + 2 + Payload::size(v.payload)
    }

    open spec fn parse(bytes: Seq<u8>) -> Option<(FragmentView, int)> {
        if bytes.len() < 10 {
            None
        } else {
            match AckData::parse(bytes.skip(2)) {
                Some((ack_data, _)) => match Payload::parse(bytes.skip(10)) {
                    Some((payload, n)) => Some(
                        (
                            FragmentView {
                                ack_data,
                                sequence: u16_from_le(bytes),
                                fragment_id: bytes[8],
                                num_fragments: bytes[9],
                                payload,
                            },
                            10 + n,
                        ),
                    ),
                    None => None,
                },
                None => None,
            }
        }
    }

    proof fn lemma_size(v: FragmentView) {
        AckData::lemma_size(v.ack_data);
        Payload::lemma_size(v.payload);
    }

    proof fn lemma_parse_wire(v: FragmentView, rest: Seq<u8>) {
        let bytes = Self::wire(v) + rest;
        let sequence = le_u16(v.sequence);
        let ack = AckData::wire(v.ack_data);
        let ids = seq![v.fragment_id, v.num_fragments];
        let payload = Payload::wire(v.payload);
        assert(bytes == sequence + (ack + (ids + (payload + rest)))) by {
            lemma_concat_assoc(sequence + ack + ids, payload, rest);
            lemma_concat_assoc(sequence + ack, ids, payload + rest);
            lemma_concat_assoc(sequence, ack, ids + (payload + rest));
        }
        assert(bytes.skip(2) == ack + (ids + (payload + rest))) by {
            lemma_skip_concat(sequence, ack + (ids + (payload + rest)));
        }
        assert(bytes.skip(8) == ids + (payload + rest)) by {
            lemma_skip_concat(ack, ids + (payload + rest));
            lemma_skip_skip(bytes, 2, 6);
        }
        assert(bytes.skip(10) == payload + rest) by {
            lemma_skip_concat(ids, payload + rest);
            lemma_skip_skip(bytes, 8, 2);
        }
        assert(bytes[8] == v.fragment_id && bytes[9] == v.num_fragments) by {
            assert(bytes.skip(8)[0] == ids[0]);
            assert(bytes.skip(8)[1] == ids[1]);
        }
        lemma_u16_round_trip(v.sequence, ack + (ids + (payload + rest)));
        AckData::lemma_parse_wire(v.ack_data, ids + (payload + rest));
        Payload::lemma_parse_wire(v.payload, rest);
    }

    proof fn lemma_wire_parse(bytes: Seq<u8>) {
        if let Some((v, n)) = Self::parse(bytes) {
            lemma_u16_bytes(bytes);
            AckData::lemma_wire_parse(bytes.skip(2));
            Payload::lemma_wire_parse(bytes.skip(10));
            let sequence = bytes.subrange(0, 2);
            let ack = bytes.skip(2).subrange(0, 6);
            let ids = bytes.skip(8).subrange(0, 2);
            let payload = bytes.skip(10).subrange(0, n - 10);
            assert(ids =~= seq![bytes[8], bytes[9]]);
            assert(bytes.subrange(0, n) == ((sequence + ack) + ids) + payload) by {
                lemma_take_split(bytes, 2, n);
                lemma_take_split(bytes.skip(2), 6, n - 2);
                lemma_skip_skip(bytes, 2, 6);
                lemma_take_split(bytes.skip(8), 2, n - 8);
                lemma_skip_skip(bytes, 8, 2);
                lemma_concat_assoc(ack, ids, payload);
                lemma_concat_assoc(sequence, ack, ids + payload);
                lemma_concat_assoc(sequence, ack, ids);
                lemma_concat_assoc(sequence + ack, ids, payload);
            }
        }
    }

    fn measure(&self) -> (size: usize) {
        self.payload.measure().saturating_add(2 + 6 + 2)
    }

    fn write(&self, out: &mut Vec<u8>) {
        write_u16(out, self.sequence);
        self.ack_data.write(out);
        write_u8(out, self.fragment_id);
        write_u8(out, self.num_fragments);
        self.payload.write(out);
        assert(out@ =~= old(out)@ + Self::wire(self@));
    }

    fn read(src: &mut &[u8]) -> (r: Result<Self, std::io::Error>) {
        let mut cur: &[u8] = *src;
        let sequence = match read_u16(&mut cur) {
            Ok(sequence) => sequence,
            Err(e) => return Err(e),
        };
        let ack_data = match AckData::read(&mut cur) {
            Ok(ack_data) => ack_data,
            Err(e) => return Err(e),
        };
        let fragment_id = match read_u8(&mut cur) {
            Ok(fragment_id) => fragment_id,
            Err(e) => return Err(e),
        };
        let num_fragments = match read_u8(&mut cur) {
            Ok(num_fragments) => num_fragments,
            Err(e) => return Err(e),
        };
        assert(cur@ =~= old(src)@.skip(10));
        let payload = match Payload::read(&mut cur) {
            Ok(payload) => payload,
            Err(e) => return Err(e),
        };
        proof {
            let n = (Payload::parse(old(src)@.skip(10))->0).1;
            Payload::lemma_wire_parse(old(src)@.skip(10));
            assert(old(src)@.skip(10).skip(n) =~= old(src)@.skip(10 + n));
        }
        *src = cur;
        Ok(Fragment { ack_data, sequence, fragment_id, num_fragments, payload })
    }
}

/// A packet that carries ack data and nothing else.
#[derive(Clone, Debug, PartialEq, Eq)]
pub struct HeartBeat {
    pub ack_data: AckData,
}

impl View for HeartBeat {
    type V = AckData;

    open spec fn view(&self) -> AckData {
        self.ack_data
    }
}

/// What travels in one datagram.
#[derive(Clone, Debug, PartialEq, Eq)]
pub enum Packet {
    Normal(Normal),
    Fragment(Fragment),
    Heartbeat(HeartBeat),
    Disconnect(DisconnectionReason),
}

/// A packet as a mathematical value.
pub enum PacketView {
    Normal(NormalView),
    Fragment(FragmentView),
    Heartbeat(AckData),
    Disconnect(DisconnectionReason),
}

impl View for Packet {
    type V = PacketView;

    open spec fn view(&self) -> PacketView {
        match self {
            Packet::Normal(normal) => PacketView::Normal(normal@),
            Packet::Fragment(fragment) => PacketView::Fragment(fragment@),
            Packet::Heartbeat(heartbeat) => PacketView::Heartbeat(heartbeat@),
            Packet::Disconnect(reason) => PacketView::Disconnect(*reason),
        }
    }
}

impl PacketView {
    /// Whether every payload and every list of the packet fits the prefix
    /// that frames it: no payload longer than 65535 bytes, no channel with
    /// more than 65535 messages, no kind of channel with more than 255
    /// channels.
    pub open spec fn valid(self) -> bool {
        match self {
            PacketView::Normal(normal) => Normal::valid(normal),
            PacketView::Fragment(fragment) => Fragment::valid(fragment),
            PacketView::Heartbeat(_) => true,
            PacketView::Disconnect(_) => true,
        }
    }

    /// The packet on the wire: the byte of its kind, then its body. The body
    /// of a disconnect packet is the id of the reason and the channel that the
    /// reason names, or zero where it names none.
    pub open spec fn wire(self) -> Seq<u8> {
        match self {
            PacketView::Normal(normal) => seq![0u8] + Normal::wire(normal),
            PacketView::Fragment(fragment) => seq![1u8] + Fragment::wire(fragment),
            PacketView::Heartbeat(ack_data) => seq![2u8] + AckData::wire(ack_data),
            PacketView::Disconnect(reason) => seq![3u8, reason.spec_id(), reason.wire_channel()],
        }
    }

    /// The number of bytes that the packet takes on the wire, as the
    /// measuring pass counts them.
    pub open spec fn size(self) -> nat {
        match self {
            PacketView::Normal(normal) => 1 + Normal::size(normal),
            PacketView::Fragment(fragment) => 1 + Fragment::size(fragment),
            PacketView::Heartbeat(ack_data) => 1 + AckData::size(ack_data),
            PacketView::Disconnect(_) => 3,
        }
    }
}

/// What stands at the front of a buffer.
pub enum Decoded {
    /// A packet, and the number of bytes that it takes.
    Packet(PacketView, int),
    /// The first byte is not the kind of any packet.
    InvalidPacketType,
    /// A disconnect packet whose reason id stands for no reason.
    InvalidDisconnectReason,
    /// The buffer ends before the packet does.
    Truncated,
}

/// Reads the front of `bytes` as a packet.
pub open spec fn decode(bytes: Seq<u8>) -> Decoded {
    if bytes.len() < 1 {
        Decoded::Truncated
    } else if bytes[0] == 0 {
        match Normal::parse(bytes.skip(1)) {
            Some((normal, n)) => Decoded::Packet(PacketView::Normal(normal), 1 + n),
            None => Decoded::Truncated,
        }
    } else if bytes[0] == 1 {
        match Fragment::parse(bytes.skip(1)) {
            Some((fragment, n)) => Decoded::Packet(PacketView::Fragment(fragment), 1 + n),
            None => Decoded::Truncated,
        }
    } else if bytes[0] == 2 {
        match AckData::parse(bytes.skip(1)) {
            Some((ack_data, n)) => Decoded::Packet(PacketView::Heartbeat(ack_data), 1 + n),
            None => Decoded::Truncated,
        }
    } else if bytes[0] == 3 {
        if bytes.len() < 3 {
            Decoded::Truncated
        } else {
            match DisconnectionReason::spec_try_from(bytes[1], bytes[2]) {
                Some(reason) => Decoded::Packet(PacketView::Disconnect(reason), 3),
                None => Decoded::InvalidDisconnectReason,
            }
        }
    } else {
        Decoded::InvalidPacketType
    }
}

/// The measured size of a packet is the length of its encoding.
pub proof fn lemma_size_agreement(packet: PacketView)
    ensures
        packet.wire().len() == packet.size(),
{
    match packet {
        PacketView::Normal(normal) => Normal::lemma_size(normal),
        PacketView::Fragment(fragment) => Fragment::lemma_size(fragment),
        PacketView::Heartbeat(ack_data) => AckData::lemma_size(ack_data),
        PacketView::Disconnect(_) => {},
    }
}

/// A valid packet is read back from its encoding as it was, whatever
/// follows the encoding in the buffer.
pub proof fn lemma_round_trip(packet: PacketView, rest: Seq<u8>)
    requires
        packet.valid(),
    ensures
        decode(packet.wire() + rest) == Decoded::Packet(packet, packet.wire().len() as int),
{
    let bytes = packet.wire() + rest;
    match packet {
        PacketView::Normal(normal) => {
            let body = Normal::wire(normal);
            assert(bytes.skip(1) == body + rest && bytes[0] == 0) by {
                lemma_concat_assoc(seq![0u8], body, rest);
                lemma_skip_concat(seq![0u8], body + rest);
            }
            Normal::lemma_parse_wire(normal, rest);
        },
        PacketView::Fragment(fragment) => {
            let body = Fragment::wire(fragment);
            assert(bytes.skip(1) == body + rest && bytes[0] == 1) by {
                lemma_concat_assoc(seq![1u8], body, rest);
                lemma_skip_concat(seq![1u8], body + rest);
            }
            Fragment::lemma_parse_wire(fragment, rest);
        },
        PacketView::Heartbeat(ack_data) => {
            let body = AckData::wire(ack_data);
            assert(bytes.skip(1) == body + rest && bytes[0] == 2) by {
                lemma_concat_assoc(seq![2u8], body, rest);
                lemma_skip_concat(seq![2u8], body + rest);
            }
            AckData::lemma_parse_wire(ack_data, rest);
        },
        PacketView::Disconnect(reason) => {
            crate::error::lemma_reason_round_trip(reason, 0);
        },
    }
}

/// A packet that was read is valid and takes no more than the buffer holds,
/// and the bytes that it takes are its encoding. The one exception is the
/// channel byte of a disconnect packet whose reason names no channel: it is
/// read past, whatever it holds.
pub proof fn lemma_decoded(bytes: Seq<u8>)
    ensures
        decode(bytes) matches Decoded::Packet(packet, n) ==> {
            &&& packet.valid()
            &&& 0 < n <= bytes.len()
            &&& n == packet.size()
            &&& packet.wire() == bytes.subrange(0, n) || (packet matches PacketView::Disconnect(
                reason,
            ) && reason.channel() is None && packet.wire() == bytes.subrange(0, 2).push(0))
        },
{
    if let Decoded::Packet(packet, n) = decode(bytes) {
        lemma_size_agreement(packet);
        match packet {
            PacketView::Normal(normal) => {
                Normal::lemma_wire_parse(bytes.skip(1));
                assert(bytes.subrange(0, n) =~= seq![0u8] + bytes.skip(1).subrange(0, n - 1));
            },
            PacketView::Fragment(fragment) => {
                Fragment::lemma_wire_parse(bytes.skip(1));
                assert(bytes.subrange(0, n) =~= seq![1u8] + bytes.skip(1).subrange(0, n - 1));
            },
            PacketView::Heartbeat(ack_data) => {
                AckData::lemma_wire_parse(bytes.skip(1));
                assert(bytes.subrange(0, n) =~= seq![2u8] + bytes.skip(1).subrange(0, n - 1));
            },
            PacketView::Disconnect(reason) => {
                crate::error::lemma_try_from(bytes[1], bytes[2]);
                if reason.channel() is None {
                    assert(packet.wire() =~= bytes.subrange(0, 2).push(0));
                } else {
                    assert(packet.wire() =~= bytes.subrange(0, 3));
                }
            },
        }
    }
}

/// Reading a packet looks at no byte beyond it: whatever follows the bytes
/// that the packet takes, the same packet is read.
pub proof fn lemma_no_over_read(bytes: Seq<u8>, other: Seq<u8>)
    ensures
        decode(bytes) matches Decoded::Packet(packet, n) ==> decode(bytes.subrange(0, n) + other)
            == decode(bytes),
{
    if let Decoded::Packet(packet, n) = decode(bytes) {
        lemma_decoded(bytes);
        let front = bytes.subrange(0, n);
        match packet {
            PacketView::Disconnect(reason) => {
                assert((front + other)[0] == bytes[0]);
                assert((front + other)[1] == bytes[1]);
                assert((front + other)[2] == bytes[2]);
            },
            _ => {
                lemma_round_trip(packet, other);
            },
        }
    }
}

/// Why the front of a buffer could not be read as a packet.
#[derive(Debug)]
pub enum PacketError {
    InvalidPacketType,
    InvalidDisconnectReason,
    IoError(std::io::Error),
}

impl PacketError {
    /// The text that describes the error, where the library words it. An
    /// error of `std::io` words itself.
    pub open spec fn message(&self) -> Option<Seq<char>> {
        match self {
            PacketError::InvalidPacketType => Some("invalid packet type"@),
            PacketError::InvalidDisconnectReason => Some("invalid disconnect reason id"@),
            PacketError::IoError(_) => None,
        }
    }

    /// The text that describes the value.
    pub fn to_string(&self) -> (text: String)
        ensures
            self.message() matches Some(message) ==> text@ == message,
    {
        match self {
            PacketError::InvalidPacketType => String::from_str("invalid packet type"),
            PacketError::InvalidDisconnectReason => String::from_str(
                "invalid disconnect reason id",
            ),
            PacketError::IoError(io_err) => io_error_text(io_err),
        }
    }
}

impl From<std::io::Error> for PacketError {
    fn from(inner: std::io::Error) -> (error: Self) {
        PacketError::IoError(inner)
    }
}

impl FromSpecImpl<std::io::Error> for PacketError {
    open spec fn obeys_from_spec() -> bool {
        true
    }

    open spec fn from_spec(inner: std::io::Error) -> Self {
        PacketError::IoError(inner)
    }
}

impl Packet {
    /// The number of bytes that `write` appends for this packet; where the
    /// number does not fit in `usize`, the largest `usize`.
    pub fn serialize_size(&self) -> (size: usize)
        ensures
            size == saturated(self@.size()),
    {
        match self {
            Packet::Normal(normal) => normal.measure().saturating_add(1),
            Packet::Fragment(fragment) => fragment.measure().saturating_add(1),
            Packet::Heartbeat(_) => 7,
            Packet::Disconnect(_) => 3,
        }
    }

    /// Appends the encoding of the packet to `out`. A length that does not
    /// fit its prefix is written by its low bits; such a packet is not read
    /// back as it was.
    pub fn write(&self, out: &mut Vec<u8>) -> (r: Result<(), std::io::Error>)
        ensures
            r is Ok,
            final(out)@ == old(out)@ + self@.wire(),
    {
        match self {
            Packet::Normal(normal) => {
                write_u8(out, 0);
                normal.write(out);
            },
            Packet::Fragment(fragment) => {
                write_u8(out, 1);
                fragment.write(out);
            },
            Packet::Heartbeat(heartbeat) => {
                write_u8(out, 2);
                heartbeat.ack_data.write(out);
            },
            Packet::Disconnect(reason) => {
                write_u8(out, 3);
                write_u8(out, reason.id());
                match reason {
                    DisconnectionReason::InvalidChannelId(channel_id) => {
                        write_u8(out, *channel_id);
                    },
                    DisconnectionReason::MismatchingChannelType(channel_id) => {
                        write_u8(out, *channel_id);
                    },
                    DisconnectionReason::ReliableChannelOutOfSync(channel_id) => {
                        write_u8(out, *channel_id);
                    },
                    _ => {
                        write_u8(out, 0);
                    },
                };
            },
        }
        assert(out@ =~= old(out)@ + self@.wire());
        Ok(())
    }

    /// Takes one packet from the front of `src`. Where the read fails
    /// nothing is taken.
    pub fn read(src: &mut &[u8]) -> (r: Result<Packet, PacketError>)
        ensures
            match r {
                Ok(packet) => decode(old(src)@) == Decoded::Packet(
                    packet@,
                    old(src)@.len() - final(src)@.len(),
                ) && final(src)@ == old(src)@.skip(old(src)@.len() - final(src)@.len()),
                Err(PacketError::InvalidPacketType) => decode(old(src)@) is InvalidPacketType
                    && final(src)@ == old(src)@,
                Err(PacketError::InvalidDisconnectReason) => decode(old(src)@)
                    is InvalidDisconnectReason && final(src)@ == old(src)@,
                Err(PacketError::IoError(_)) => decode(old(src)@) is Truncated && final(src)@
                    == old(src)@,
            },
    {
        proof {
            lemma_decoded(src@);
        }
        let mut cur: &[u8] = *src;
        let packet_type = match read_u8(&mut cur) {
            Ok(packet_type) => packet_type,
            Err(e) => return Err(PacketError::from(e)),
        };
        match packet_type {
            0 => match Normal::read(&mut cur) {
                Ok(normal) => {
                    proof {
                        let n = (Normal::parse(old(src)@.skip(1))->0).1;
                        assert(old(src)@.skip(1).skip(n) =~= old(src)@.skip(1 + n));
                    }
                    *src = cur;
                    Ok(Packet::Normal(normal))
                },
                Err(e) => Err(PacketError::from(e)),
            },
            1 => match Fragment::read(&mut cur) {
                Ok(fragment) => {
                    proof {
                        let n = (Fragment::parse(old(src)@.skip(1))->0).1;
                        assert(old(src)@.skip(1).skip(n) =~= old(src)@.skip(1 + n));
                    }
                    *src = cur;
                    Ok(Packet::Fragment(fragment))
                },
                Err(e) => Err(PacketError::from(e)),
            },
            2 => match AckData::read(&mut cur) {
                Ok(ack_data) => {
                    proof {
                        assert(old(src)@.skip(1).skip(6) =~= old(src)@.skip(7));
                    }
                    *src = cur;
                    Ok(Packet::Heartbeat(HeartBeat { ack_data }))
                },
                Err(e) => Err(PacketError::from(e)),
            },
            3 => {
                let reason_id = match read_u8(&mut cur) {
                    Ok(reason_id) => reason_id,
                    Err(e) => return Err(PacketError::from(e)),
                };
                let channel_id = match read_u8(&mut cur) {
                    Ok(channel_id) => channel_id,
                    Err(e) => return Err(PacketError::from(e)),
                };
                match DisconnectionReason::try_from(reason_id, channel_id) {
                    Some(reason) => {
                        proof {
                            assert(cur@ =~= old(src)@.skip(3));
                        }
                        *src = cur;
                        Ok(Packet::Disconnect(reason))
                    },
                    None => Err(PacketError::InvalidDisconnectReason),
                }
            },
            _ => Err(PacketError::InvalidPacketType),
        }
    }
}

impl From<Normal> for Packet {
    fn from(value: Normal) -> (packet: Self) {
        Packet::Normal(value)
    }
}

impl FromSpecImpl<Normal> for Packet {
    open spec fn obeys_from_spec() -> bool {
        true
    }

    open spec fn from_spec(value: Normal) -> Self {
        Packet::Normal(value)
    }
}

impl From<Fragment> for Packet {
    fn from(value: Fragment) -> (packet: Self) {
        Packet::Fragment(value)
    }
}

impl FromSpecImpl<Fragment> for Packet {
    open spec fn obeys_from_spec() -> bool {
        true
    }

    open spec fn from_spec(value: Fragment) -> Self {
        Packet::Fragment(value)
    }
}

impl From<HeartBeat> for Packet {
    fn from(value: HeartBeat) -> (packet: Self) {
        Packet::Heartbeat(value)
    }
}

impl FromSpecImpl<HeartBeat> for Packet {
    open spec fn obeys_from_spec() -> bool {
        true
    }

    open spec fn from_spec(value: HeartBeat) -> Self {
        Packet::Heartbeat(value)
    }
}

impl From<DisconnectionReason> for Packet {
    fn from(value: DisconnectionReason) -> (packet: Self) {
        Packet::Disconnect(value)
    }
}

impl FromSpecImpl<DisconnectionReason> for Packet {
    open spec fn obeys_from_spec() -> bool {
        true
    }

    open spec fn from_spec(value: DisconnectionReason) -> Self {
        Packet::Disconnect(value)
    }
}

/// The bytes of a disconnect packet with the given reason, for ending a
/// connection without going through a channel.
pub fn disconnect_packet(reason: DisconnectionReason) -> (r: Result<Payload, PacketError>)
    ensures
        r matches Ok(bytes) && bytes@ == PacketView::Disconnect(reason).wire(),
{
    let packet = Packet::Disconnect(reason);
    let mut bytes: Vec<u8> = Vec::new();
    match packet.write(&mut bytes) {
        Ok(()) => Ok(bytes),
        Err(e) => Err(PacketError::from(e)),
    }
}

} // verus!

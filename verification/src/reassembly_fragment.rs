//! Packets too large for one datagram: cutting them into fragments and
//! putting the fragments together again.
//!
//! What is cut is the encoding of the messages of a normal packet. Each
//! fragment repeats the sequence number and the ack data of the packet and
//! says which piece it is of how many. The receiver keeps the pieces of a
//! bounded number of packets; a packet whose pieces are all there is decoded
//! and handed out, once.
use vstd::prelude::*;
use vstd::std_specs::convert::FromSpecImpl;
use vstd::string::StringExecFns;
use crate::error::io_error_text;
use crate::packet::{
    read_u8, AckData, ChannelMessages, ChannelMessagesView, Fragment, FragmentView, Normal,
    NormalView, Packet, PacketView, Payload,
};
use crate::pieces::{
    all_received, is_complete, is_order, join, join_pieces, lemma_join_split, lemma_missing_all,
    lemma_missing_none, lemma_missing_one_fewer, missing, pieces_of, places, places_hold, split,
    split_payload,
};
use crate::wire::{views, WireFormat};

verus! {

/// What can go wrong with fragments. The rest of the crate knows the type as
/// `FragmentError`.
#[derive(Debug)]
pub enum RenetError {
    MaximumFragmentsExceeded,
    CouldNotFindFragment,
    InvalidNumberFragment,
    FragmentAlreadyProcessed,
    InvalidHeaderType,
    IOError(std::io::Error),
}

/// What can go wrong with fragments.
pub type FragmentError = RenetError;

impl RenetError {
    /// The text that describes the error, where the library words it. An
    /// error of `std::io` words itself.
    pub open spec fn message(&self) -> Option<Seq<char>> {
        match self {
            RenetError::MaximumFragmentsExceeded => Some(
                "the packet has more fragments than are allowed"@,
            ),
            RenetError::CouldNotFindFragment => Some("the fragment could not be found"@),
            RenetError::InvalidNumberFragment => Some(
                "the number of fragments differs from that of the fragments received before"@,
            ),
            RenetError::FragmentAlreadyProcessed => Some("the fragment was already processed"@),
            RenetError::InvalidHeaderType => Some("the buffer does not hold a fragment"@),
            RenetError::IOError(_) => None,
        }
    }

    /// The text that describes the value.
    pub fn to_string(&self) -> (text: String)
        ensures
            self.message() matches Some(message) ==> text@ == message,
    {
        match self {
            RenetError::MaximumFragmentsExceeded => String::from_str(
                "the packet has more fragments than are allowed",
            ),
            RenetError::CouldNotFindFragment => String::from_str("the fragment could not be found"),
            RenetError::InvalidNumberFragment => String::from_str(
                "the number of fragments differs from that of the fragments received before",
            ),
            RenetError::FragmentAlreadyProcessed => String::from_str(
                "the fragment was already processed",
            ),
            RenetError::InvalidHeaderType => String::from_str("the buffer does not hold a fragment"),
            RenetError::IOError(io_err) => io_error_text(io_err),
        }
    }
}

impl From<std::io::Error> for RenetError {
    fn from(inner: std::io::Error) -> (error: RenetError) {
        RenetError::IOError(inner)
    }
}

impl FromSpecImpl<std::io::Error> for RenetError {
    open spec fn obeys_from_spec() -> bool {
        true
    }

    open spec fn from_spec(inner: std::io::Error) -> Self {
        RenetError::IOError(inner)
    }
}

/// What the cutting and the reassembly of packets are set up with.
#[derive(Clone, Copy, Debug, PartialEq, Eq)]
pub struct FragmentConfig {
    /// A normal packet that takes more bytes than this is cut into
    /// fragments.
    pub fragment_above: usize,
    /// How many bytes of the messages one fragment carries; the last
    /// fragment of a packet may carry fewer.
    pub fragment_size: u16,
    /// How many packets can be in reassembly at one time.
    pub reassembly_buffer_size: usize,
    /// The most fragments that a packet may be cut into.
    pub max_fragments: u8,
}

/// The fragments that carry `payload`, the encoded messages of the packet
/// `sequence`, in pieces of `size` bytes.
pub open spec fn fragments_of(sequence: u16, ack_data: AckData, payload: Seq<u8>, size: int) -> Seq<
    FragmentView,
> {
    let pieces = split(payload, size);
    Seq::new(
        pieces.len(),
        |i: int|
            FragmentView {
                ack_data,
                sequence,
                fragment_id: i as u8,
                num_fragments: pieces.len() as u8,
                payload: pieces[i],
            },
    )
}

/// Wraps the pieces of the encoded messages of the packet `sequence` into
/// fragments.
fn fragments_from(pieces: Vec<Payload>, sequence: u16, ack_data: AckData) -> (fragments: Vec<
    Fragment,
>)
    requires
        pieces@.len() <= u8::MAX,
    ensures
        views(fragments@) == Seq::new(
            pieces@.len(),
            |i: int|
                FragmentView {
                    ack_data,
                    sequence,
                    fragment_id: i as u8,
                    num_fragments: pieces@.len() as u8,
                    payload: pieces@[i]@,
                },
        ),
{
    let num_fragments = pieces.len() as u8;
    let ghost expected = Seq::new(
        pieces@.len(),
        |i: int|
            FragmentView {
                ack_data,
                sequence,
                fragment_id: i as u8,
                num_fragments: pieces@.len() as u8,
                payload: pieces@[i]@,
            },
    );
    let mut fragments: Vec<Fragment> = Vec::with_capacity(pieces.len());
    assert(expected.take(0) =~= Seq::empty());
    for piece in it: pieces
        invariant
            it.seq() == pieces@,
            pieces@.len() <= u8::MAX,
            num_fragments == pieces@.len(),
            expected == Seq::new(
                pieces@.len(),
                |i: int|
                    FragmentView {
                        ack_data,
                        sequence,
                        fragment_id: i as u8,
                        num_fragments: pieces@.len() as u8,
                        payload: pieces@[i]@,
                    },
            ),
            fragments@.len() == it.index(),
            views(fragments@) == expected.take(it.index() as int),
    {
        let ghost so_far = views(fragments@);
        let fragment_id = fragments.len() as u8;
        let fragment = Fragment { ack_data, sequence, fragment_id, num_fragments, payload: piece };
        assert(fragment@ == expected[it.index() as int]);
        fragments.push(fragment);
        assert(views(fragments@) =~= so_far.push(fragment@));
        assert(expected.take(it.index() + 1) =~= expected.take(it.index() as int).push(
            expected[it.index() as int],
        ));
    }
    assert(expected.take(pieces@.len() as int) =~= expected);
    fragments
}

/// Cuts the messages of the packet `sequence` into fragments of
/// `config.fragment_size` bytes. Where that takes more fragments than
/// `config.max_fragments`, or the fragments are to hold no bytes, nothing is
/// built.
pub fn build_fragments(
    channel_messages: &ChannelMessages,
    sequence: u16,
    ack_data: AckData,
    config: &FragmentConfig,
) -> (r: Result<Vec<Fragment>, FragmentError>)
    ensures
        ({
            let payload = ChannelMessages::wire(channel_messages@);
            let size = config.fragment_size as int;
            match r {
                Ok(fragments) => size > 0 && split(payload, size).len() <= config.max_fragments
                    && views(fragments@) == fragments_of(sequence, ack_data, payload, size),
                Err(e) => e is MaximumFragmentsExceeded && (size == 0 || split(payload, size).len()
                    > config.max_fragments),
            }
        }),
{
    if config.fragment_size == 0 {
        return Err(RenetError::MaximumFragmentsExceeded);
    }
    let mut payload: Vec<u8> = Vec::new();
    channel_messages.write(&mut payload);
    assert(payload@ =~= ChannelMessages::wire(channel_messages@));
    match split_payload(&payload, config.fragment_size as usize, config.max_fragments as usize) {
        Some(pieces) => {
            let fragments = fragments_from(pieces, sequence, ack_data);
            assert(views(fragments@) =~= fragments_of(
                sequence,
                ack_data,
                payload@,
                config.fragment_size as int,
            ));
            Ok(fragments)
        },
        None => Err(RenetError::MaximumFragmentsExceeded),
    }
}

/// The packets that carry a normal packet over the wire: the packet
/// itself where it takes no more than `config.fragment_above` bytes, else
/// the fragments that its messages are cut into.
pub open spec fn packets_of(normal: NormalView, config: FragmentConfig) -> Seq<PacketView> {
    if PacketView::Normal(normal).size() <= config.fragment_above {
        seq![PacketView::Normal(normal)]
    } else {
        fragments_of(
            normal.sequence,
            normal.ack_data,
            ChannelMessages::wire(normal.channel_messages),
            config.fragment_size as int,
        ).map_values(|fragment: FragmentView| PacketView::Fragment(fragment))
    }
}

/// Makes the packets that carry `normal` over the wire. A packet that
/// has to be cut and cannot be, for the number or the size of the fragments
/// allowed, gives no packets.
pub fn build_packets(normal: Normal, config: &FragmentConfig) -> (r: Result<
    Vec<Packet>,
    FragmentError,
>)
    ensures
        ({
            let payload = ChannelMessages::wire(normal@.channel_messages);
            let size = config.fragment_size as int;
            let fits = PacketView::Normal(normal@).size() <= config.fragment_above;
            match r {
                Ok(packets) => (fits || (size > 0 && split(payload, size).len()
                    <= config.max_fragments)) && views(packets@) == packets_of(normal@, *config),
                Err(e) => e is MaximumFragmentsExceeded && !fits && (size == 0 || split(
                    payload,
                    size,
                ).len() > config.max_fragments),
            }
        }),
{
    let mut payload: Vec<u8> = Vec::new();
    normal.channel_messages.write(&mut payload);
    proof {
        assert(payload@ =~= ChannelMessages::wire(normal@.channel_messages));
        ChannelMessages::lemma_size(normal@.channel_messages);
    }
    if config.fragment_above >= 9 && payload.len() <= config.fragment_above - 9 {
        let mut packets: Vec<Packet> = Vec::new();
        let packet = Packet::Normal(normal);
        packets.push(packet);
        assert(views(packets@) =~= seq![packet@]);
        return Ok(packets);
    }
    if config.fragment_size == 0 {
        return Err(RenetError::MaximumFragmentsExceeded);
    }
    match split_payload(&payload, config.fragment_size as usize, config.max_fragments as usize) {
        Some(pieces) => {
            let fragments = fragments_from(pieces, normal.sequence, normal.ack_data);
            let ghost expected = fragments_of(
                normal.sequence,
                normal.ack_data,
                payload@,
                config.fragment_size as int,
            );
            assert(views(fragments@) =~= expected);
            let mut packets: Vec<Packet> = Vec::with_capacity(fragments.len());
            assert(expected.take(0).map_values(
                |fragment: FragmentView| PacketView::Fragment(fragment),
            ) =~= Seq::empty());
            for fragment in it: fragments
                invariant
                    it.seq() == fragments@,
                    views(fragments@) == expected,
                    views(packets@) == expected.take(it.index() as int).map_values(
                        |fragment: FragmentView| PacketView::Fragment(fragment),
                    ),
            {
                let ghost so_far = views(packets@);
                let packet = Packet::Fragment(fragment);
                assert(expected[it.index() as int] == fragment@);
                packets.push(packet);
                assert(views(packets@) =~= so_far.push(packet@));
                assert(expected.take(it.index() + 1).map_values(
                    |fragment: FragmentView| PacketView::Fragment(fragment),
                ) =~= so_far.push(packet@));
            }
            assert(expected.take(fragments@.len() as int) =~= expected);
            Ok(packets)
        },
        None => Err(RenetError::MaximumFragmentsExceeded),
    }
}

/// The pieces received of one packet, as a mathematical value: a place for
/// each of the `num_fragments_total` pieces, empty until the piece arrives.
pub struct ReassemblyFragmentView {
    pub sequence: u16,
    pub num_fragments_total: u8,
    pub fragments: Seq<Option<Seq<u8>>>,
}

/// The packets in reassembly, oldest first.
pub struct ReassemblyView {
    pub config: FragmentConfig,
    pub entries: Seq<ReassemblyFragmentView>,
}

/// What came of a fragment that was handed in.
pub enum Handled {
    /// The piece was kept; others are missing still.
    Stored,
    /// The piece was the last one missing: these are the messages of the
    /// packet.
    Complete(ChannelMessagesView),
    /// More fragments than are allowed, or a piece beyond the last.
    MaximumFragmentsExceeded,
    /// There is no room to keep any piece.
    CouldNotFindFragment,
    /// Another number of fragments than the pieces kept of the packet tell.
    InvalidNumberFragment,
    /// The piece was received before.
    FragmentAlreadyProcessed,
    /// The buffer is not a fragment: it is empty or starts with another
    /// kind of packet.
    InvalidHeaderType,
    /// The fragment, or the packet that the pieces make, ends too early.
    Truncated,
}

/// What the caller is told, as a mathematical value.
pub open spec fn handled(r: Result<Option<ChannelMessages>, FragmentError>) -> Handled {
    match r {
        Ok(None) => Handled::Stored,
        Ok(Some(messages)) => Handled::Complete(messages@),
        Err(RenetError::MaximumFragmentsExceeded) => Handled::MaximumFragmentsExceeded,
        Err(RenetError::CouldNotFindFragment) => Handled::CouldNotFindFragment,
        Err(RenetError::InvalidNumberFragment) => Handled::InvalidNumberFragment,
        Err(RenetError::FragmentAlreadyProcessed) => Handled::FragmentAlreadyProcessed,
        Err(RenetError::InvalidHeaderType) => Handled::InvalidHeaderType,
        Err(RenetError::IOError(_)) => Handled::Truncated,
    }
}

impl ReassemblyView {
    /// The buffer before any fragment was handed in.
    pub open spec fn new(config: FragmentConfig) -> ReassemblyView {
        ReassemblyView { config, entries: Seq::empty() }
    }

    /// What holds of every reassembly buffer: it keeps no more packets than
    /// it was set up for, no packet twice, and for each packet a place for
    /// each of its pieces.
    pub open spec fn wf(self) -> bool {
        &&& self.entries.len() <= self.config.reassembly_buffer_size
        &&& forall|i: int, j: int|
            0 <= i < j < self.entries.len() ==> (#[trigger] self.entries[i]).sequence
                != (#[trigger] self.entries[j]).sequence
        &&& forall|i: int|
            0 <= i < self.entries.len() ==> (#[trigger] self.entries[i]).fragments.len()
                == self.entries[i].num_fragments_total
    }

    /// Whether pieces of the packet `sequence` are kept.
    pub open spec fn has(self, sequence: u16) -> bool {
        exists|i: int|
            0 <= i < self.entries.len() && (#[trigger] self.entries[i]).sequence == sequence
    }

    /// Where the pieces of the packet `sequence` are kept.
    pub open spec fn position(self, sequence: u16) -> int {
        choose|i: int|
            0 <= i < self.entries.len() && (#[trigger] self.entries[i]).sequence == sequence
    }

    /// The buffer with room for one more packet: where it is full the oldest
    /// packet in reassembly is given up.
    pub open spec fn with_room(self) -> ReassemblyView {
        if self.entries.len() >= self.config.reassembly_buffer_size {
            ReassemblyView { entries: self.entries.skip(1), ..self }
        } else {
            self
        }
    }

    /// The buffer after the piece of `fragment` was put in its place in the
    /// entry `at`. Where no piece is missing any more, the pieces are put
    /// together and decoded as the messages of a packet, and the entry is
    /// given up.
    pub open spec fn store(self, at: int, fragment: FragmentView) -> (ReassemblyView, Handled) {
        let entry = self.entries[at];
        let fragments = entry.fragments.update(fragment.fragment_id as int, Some(fragment.payload));
        if is_complete(fragments) {
            (
                ReassemblyView { entries: self.entries.remove(at), ..self },
                match ChannelMessages::parse(join(pieces_of(fragments))) {
                    Some((messages, _)) => Handled::Complete(messages),
                    None => Handled::Truncated,
                },
            )
        } else {
            (
                ReassemblyView {
                    entries: self.entries.update(at, ReassemblyFragmentView { fragments, ..entry }),
                    ..self
                },
                Handled::Stored,
            )
        }
    }

    /// The buffer after a fragment was handed in, and what came of it. A
    /// fragment that is refused leaves the buffer as it was.
    pub open spec fn handle(self, fragment: FragmentView) -> (ReassemblyView, Handled) {
        if fragment.num_fragments > self.config.max_fragments {
            (self, Handled::MaximumFragmentsExceeded)
        } else if self.has(fragment.sequence) {
            let at = self.position(fragment.sequence);
            if self.entries[at].num_fragments_total != fragment.num_fragments {
                (self, Handled::InvalidNumberFragment)
            } else if fragment.fragment_id >= fragment.num_fragments {
                (self, Handled::MaximumFragmentsExceeded)
            } else if self.entries[at].fragments[fragment.fragment_id as int] is Some {
                (self, Handled::FragmentAlreadyProcessed)
            } else {
                self.store(at, fragment)
            }
        } else if fragment.fragment_id >= fragment.num_fragments {
            (self, Handled::MaximumFragmentsExceeded)
        } else if self.config.reassembly_buffer_size == 0 {
            (self, Handled::CouldNotFindFragment)
        } else {
            let room = self.with_room();
            let entry = ReassemblyFragmentView {
                sequence: fragment.sequence,
                num_fragments_total: fragment.num_fragments,
                fragments: Seq::new(fragment.num_fragments as nat, |i: int| None::<Seq<u8>>),
            };
            (ReassemblyView { entries: room.entries.push(entry), ..room }).store(
                room.entries.len() as int,
                fragment,
            )
        }
    }

    /// The buffer after the fragments were handed in one after the other,
    /// and what came of each.
    pub open spec fn handle_all(self, fragments: Seq<FragmentView>) -> (ReassemblyView, Seq<Handled>)
        decreases fragments.len(),
    {
        if fragments.len() == 0 {
            (self, Seq::empty())
        } else {
            let (before, outcomes) = self.handle_all(fragments.drop_last());
            let (after, handled) = before.handle(fragments.last());
            (after, outcomes.push(handled))
        }
    }

    /// The buffer after the bytes of a datagram were handed in, and what
    /// came of it.
    pub open spec fn handle_payload(self, bytes: Seq<u8>) -> (ReassemblyView, Handled) {
        if bytes.len() == 0 || bytes[0] != 1 {
            (self, Handled::InvalidHeaderType)
        } else {
            match Fragment::parse(bytes.skip(1)) {
                Some((fragment, _)) => self.handle(fragment),
                None => (self, Handled::Truncated),
            }
        }
    }
}

/// Whether what an entry holds are pieces of the given list, each in its
/// place.
pub open spec fn holds_pieces_of(entry: ReassemblyFragmentView, pieces: Seq<Seq<u8>>) -> bool {
    places_hold(entry.fragments, pieces) && entry.num_fragments_total == pieces.len()
}

/// One step of a reassembly, whatever the order in which the pieces
/// arrive. Let an entry hold some of the pieces of a packet, and let one of
/// the pieces be handed in. If the entry holds it already, it is refused and
/// nothing changes. If it was the last one missing, the packet is handed out
/// as the pieces, put together in their order, decode, and the entry is given
/// up. Else the piece is kept in its place, beside those that were there.
pub proof fn lemma_reassembly_step(
    buffer: ReassemblyView,
    pieces: Seq<Seq<u8>>,
    fragment: FragmentView,
)
    requires
        buffer.wf(),
        buffer.has(fragment.sequence),
        holds_pieces_of(buffer.entries[buffer.position(fragment.sequence)], pieces),
        fragment.num_fragments == pieces.len(),
        fragment.num_fragments <= buffer.config.max_fragments,
        fragment.fragment_id < pieces.len(),
        fragment.payload == pieces[fragment.fragment_id as int],
    ensures
        ({
            let at = buffer.position(fragment.sequence);
            let entry = buffer.entries[at];
            let id = fragment.fragment_id as int;
            let (after, handled) = buffer.handle(fragment);
            &&& after.wf()
            &&& entry.fragments[id] is Some ==> handled is FragmentAlreadyProcessed && after
                == buffer
            &&& entry.fragments[id] is None && is_complete(
                entry.fragments.update(id, Some(fragment.payload)),
            )
                ==> !after.has(fragment.sequence) && handled == (match ChannelMessages::parse(
                join(pieces),
            ) {
                Some((messages, _)) => Handled::Complete(messages),
                None => Handled::Truncated,
            })
            &&& entry.fragments[id] is None && !is_complete(
                entry.fragments.update(id, Some(fragment.payload)),
            ) ==> handled is Stored && after.has(fragment.sequence) && after.position(
                fragment.sequence,
            ) == at && holds_pieces_of(after.entries[at], pieces) && after.entries[at].fragments
                == entry.fragments.update(id, Some(fragment.payload))
        }),
{
    let at = buffer.position(fragment.sequence);
    let entry = buffer.entries[at];
    let id = fragment.fragment_id as int;
    let (after, handled) = buffer.handle(fragment);
    let fragments = entry.fragments.update(id, Some(fragment.payload));
    if entry.fragments[id] is None {
        if is_complete(fragments) {
            assert(pieces_of(fragments) =~= pieces) by {
                assert forall|i: int| 0 <= i < pieces.len() implies pieces_of(fragments)[i]
                    == pieces[i] by {
                    assert(fragments[i] is Some);
                    if i != id {
                        assert(entry.fragments[i] == fragments[i]);
                    }
                }
            }
            assert(!after.has(fragment.sequence)) by {
                if after.has(fragment.sequence) {
                    let k = after.position(fragment.sequence);
                    if k < at {
                        assert(buffer.entries[k].sequence == fragment.sequence);
                    } else {
                        assert(buffer.entries[k + 1].sequence == fragment.sequence);
                    }
                }
            }
        } else {
            assert(after.entries[at].sequence == fragment.sequence);
            assert(after.has(fragment.sequence));
            let k = after.position(fragment.sequence);
            if k != at {
                assert(buffer.entries[k].sequence == fragment.sequence);
            }
        }
    }
}

/// The first piece of a packet that is not in reassembly yet takes a new
/// entry, the youngest of the buffer; a packet of one piece is handed out at
/// once.
pub proof fn lemma_reassembly_start(
    buffer: ReassemblyView,
    pieces: Seq<Seq<u8>>,
    fragment: FragmentView,
)
    requires
        buffer.wf(),
        !buffer.has(fragment.sequence),
        buffer.config.reassembly_buffer_size > 0,
        fragment.num_fragments == pieces.len(),
        fragment.num_fragments <= buffer.config.max_fragments,
        fragment.fragment_id < pieces.len(),
        fragment.payload == pieces[fragment.fragment_id as int],
    ensures
        ({
            let (after, handled) = buffer.handle(fragment);
            &&& after.wf()
            &&& pieces.len() == 1 ==> !after.has(fragment.sequence) && handled == (
            match ChannelMessages::parse(join(pieces)) {
                Some((messages, _)) => Handled::Complete(messages),
                None => Handled::Truncated,
            })
            &&& pieces.len() > 1 ==> handled is Stored && after.has(fragment.sequence)
                && holds_pieces_of(after.entries[after.position(fragment.sequence)], pieces)
                && after.entries[after.position(fragment.sequence)].fragments == Seq::new(
                pieces.len(),
                |i: int| None::<Seq<u8>>,
            ).update(fragment.fragment_id as int, Some(fragment.payload))
        }),
{
    let room = buffer.with_room();
    let id = fragment.fragment_id as int;
    let empty = Seq::new(fragment.num_fragments as nat, |i: int| None::<Seq<u8>>);
    let fragments = empty.update(id, Some(fragment.payload));
    let entry = ReassemblyFragmentView {
        sequence: fragment.sequence,
        num_fragments_total: fragment.num_fragments,
        fragments: empty,
    };
    let grown = ReassemblyView { entries: room.entries.push(entry), ..room };
    let at = room.entries.len() as int;
    let (after, handled) = buffer.handle(fragment);
    assert(after == grown.store(at, fragment).0);
    assert forall|i: int| 0 <= i < room.entries.len() implies (#[trigger] room.entries[i]).sequence
        != fragment.sequence by {
        if buffer.entries.len() >= buffer.config.reassembly_buffer_size {
            assert(room.entries[i] == buffer.entries[i + 1]);
        } else {
            assert(room.entries[i] == buffer.entries[i]);
        }
    }
    assert forall|i: int, j: int| 0 <= i < j < room.entries.len() implies (
    #[trigger] room.entries[i]).sequence != (#[trigger] room.entries[j]).sequence by {
        if buffer.entries.len() >= buffer.config.reassembly_buffer_size {
            assert(room.entries[i] == buffer.entries[i + 1]);
            assert(room.entries[j] == buffer.entries[j + 1]);
        }
    }
    if pieces.len() == 1 {
        assert(is_complete(fragments));
        assert(pieces_of(fragments) =~= pieces);
        assert(grown.entries.remove(at) =~= room.entries);
        assert(!after.has(fragment.sequence));
    } else {
        let other = if id == 0 {
            1int
        } else {
            0int
        };
        assert(fragments[other] is None);
        assert(!is_complete(fragments));
        assert(after.entries[at].sequence == fragment.sequence);
        assert(after.has(fragment.sequence));
        let k = after.position(fragment.sequence);
        if k != at {
            assert(room.entries[k].sequence == fragment.sequence);
        }
    }
}

/// What the pieces of a payload make when they are put together and decoded.
pub open spec fn reassembled(payload: Seq<u8>) -> Handled {
    match ChannelMessages::parse(payload) {
        Some((messages, _)) => Handled::Complete(messages),
        None => Handled::Truncated,
    }
}

/// The fragments of a packet, handed in `order`.
pub open spec fn arriving(fragments: Seq<FragmentView>, order: Seq<int>) -> Seq<FragmentView> {
    Seq::new(order.len(), |k: int| fragments[order[k]])
}

/// Whether the first `k` fragments of a packet have arrived in `order` and
/// nothing else has come of them than that they are kept.
spec fn partly_arrived(
    buffer: ReassemblyView,
    after: ReassemblyView,
    outcomes: Seq<Handled>,
    sequence: u16,
    pieces: Seq<Seq<u8>>,
    order: Seq<int>,
    k: int,
) -> bool {
    &&& after.wf()
    &&& after.config == buffer.config
    &&& after.has(sequence)
    &&& holds_pieces_of(after.entries[after.position(sequence)], pieces)
    &&& forall|i: int|
        0 <= i < pieces.len() ==> ((#[trigger] after.entries[after.position(
            sequence,
        )].fragments[i]) is Some <==> exists|m: int| 0 <= m < k && #[trigger] order[m] == i)
    &&& missing(after.entries[after.position(sequence)].fragments) == pieces.len() - k
    &&& outcomes.len() == k
    &&& forall|m: int| 0 <= m < k ==> (#[trigger] outcomes[m]) is Stored
}

proof fn lemma_arrival(
    buffer: ReassemblyView,
    sequence: u16,
    ack_data: AckData,
    payload: Seq<u8>,
    size: int,
    order: Seq<int>,
    k: int,
)
    requires
        buffer.wf(),
        !buffer.has(sequence),
        buffer.config.reassembly_buffer_size > 0,
        size > 0,
        0 < split(payload, size).len() <= buffer.config.max_fragments,
        is_order(order, split(payload, size).len() as int),
        1 <= k <= order.len(),
    ensures
        ({
            let pieces = split(payload, size);
            let fragments = fragments_of(sequence, ack_data, payload, size);
            let (after, outcomes) = buffer.handle_all(arriving(fragments, order).take(k));
            if k < order.len() {
                partly_arrived(buffer, after, outcomes, sequence, pieces, order, k)
            } else {
                &&& after.wf()
                &&& !after.has(sequence)
                &&& outcomes.len() == k
                &&& forall|m: int| 0 <= m < k - 1 ==> (#[trigger] outcomes[m]) is Stored
                &&& outcomes[k - 1] == reassembled(payload)
            }
        }),
    decreases k,
{
    let pieces = split(payload, size);
    let n = pieces.len() as int;
    let fragments = fragments_of(sequence, ack_data, payload, size);
    let all = arriving(fragments, order);
    let j = order[k - 1];
    let fragment = all[k - 1];
    assert(all.take(k).drop_last() =~= all.take(k - 1));
    assert(all.take(k).last() == fragment);
    assert(fragment == fragments[j]);
    assert(fragment.payload == pieces[j]);
    assert(fragment.fragment_id == j);
    assert(fragment.num_fragments == n);
    lemma_join_split(payload, size);
    let (before, earlier) = buffer.handle_all(all.take(k - 1));
    let (after, handled) = before.handle(fragment);
    let outcomes = earlier.push(handled);
    assert(buffer.handle_all(all.take(k)) == (after, outcomes));
    if k == 1 {
        assert(all.take(0) =~= Seq::<FragmentView>::empty());
        assert(before == buffer);
        lemma_reassembly_start(buffer, pieces, fragment);
        if n > 1 {
            let empty = Seq::new(pieces.len(), |i: int| None::<Seq<u8>>);
            lemma_missing_all(pieces.len());
            lemma_missing_one_fewer(empty, j, fragment.payload);
            let at = after.position(sequence);
            assert forall|i: int| 0 <= i < pieces.len() implies ((
            #[trigger] after.entries[at].fragments[i]) is Some <==> exists|m: int|
                0 <= m < k && #[trigger] order[m] == i) by {
                if i == j {
                    assert(order[0] == i);
                }
            }
            lemma_handle_wf(buffer, fragment);
        }
    } else {
        lemma_arrival(buffer, sequence, ack_data, payload, size, order, k - 1);
        let at = before.position(sequence);
        let entry = before.entries[at];
        assert(entry.fragments[j] is None) by {
            if entry.fragments[j] is Some {
                let m = choose|m: int| 0 <= m < k - 1 && #[trigger] order[m] == j;
                assert(order[m] != order[k - 1]);
            }
        }
        let filled = entry.fragments.update(j, Some(fragment.payload));
        lemma_missing_one_fewer(entry.fragments, j, fragment.payload);
        lemma_missing_none(filled);
        lemma_reassembly_step(before, pieces, fragment);
        if k < n {
            assert forall|i: int| 0 <= i < pieces.len() implies ((
            #[trigger] after.entries[at].fragments[i]) is Some <==> exists|m: int|
                0 <= m < k && #[trigger] order[m] == i) by {
                if i == j {
                    assert(order[k - 1] == i);
                } else {
                    assert(after.entries[at].fragments[i] == entry.fragments[i]);
                    if entry.fragments[i] is Some {
                        let m = choose|m: int| 0 <= m < k - 1 && #[trigger] order[m] == i;
                        assert(0 <= m < k && order[m] == i);
                    }
                    if exists|m: int| 0 <= m < k && #[trigger] order[m] == i {
                        let m = choose|m: int| 0 <= m < k && #[trigger] order[m] == i;
                        assert(m < k - 1);
                    }
                }
            }
            assert forall|m: int| 0 <= m < k implies (#[trigger] outcomes[m]) is Stored by {
                if m < k - 1 {
                    assert(outcomes[m] == earlier[m]);
                }
            }
        } else {
            assert forall|m: int| 0 <= m < k - 1 implies (#[trigger] outcomes[m]) is Stored by {
                assert(outcomes[m] == earlier[m]);
            }
        }
    }
}

/// The fragments of a packet make the packet again, in whatever order they
/// arrive. Let the messages of a packet be cut into fragments, and let
/// each fragment be handed once to a buffer that holds nothing of the packet
/// yet. Then each fragment but the last to arrive is kept, and with the last
/// the messages are handed out, as the payload decodes; after that the buffer
/// holds nothing of the packet.
pub proof fn lemma_reassembly_in_any_order(
    buffer: ReassemblyView,
    sequence: u16,
    ack_data: AckData,
    payload: Seq<u8>,
    size: int,
    order: Seq<int>,
)
    requires
        buffer.wf(),
        !buffer.has(sequence),
        buffer.config.reassembly_buffer_size > 0,
        size > 0,
        0 < split(payload, size).len() <= buffer.config.max_fragments,
        is_order(order, split(payload, size).len() as int),
    ensures
        ({
            let fragments = fragments_of(sequence, ack_data, payload, size);
            let (after, outcomes) = buffer.handle_all(arriving(fragments, order));
            &&& after.wf()
            &&& !after.has(sequence)
            &&& outcomes.len() == order.len()
            &&& forall|m: int| 0 <= m < order.len() - 1 ==> (#[trigger] outcomes[m]) is Stored
            &&& outcomes[order.len() - 1] == reassembled(payload)
        }),
{
    let fragments = fragments_of(sequence, ack_data, payload, size);
    let all = arriving(fragments, order);
    assert(all.take(order.len() as int) =~= all);
    lemma_arrival(buffer, sequence, ack_data, payload, size, order, order.len() as int);
}

/// Messages that fit their prefixes come out of the reassembly as they went
/// into the cutting.
pub proof fn lemma_reassembled_messages(messages: ChannelMessagesView)
    requires
        ChannelMessages::valid(messages),
    ensures
        reassembled(ChannelMessages::wire(messages)) == Handled::Complete(messages),
{
    ChannelMessages::lemma_parse_wire(messages, Seq::empty());
    assert(ChannelMessages::wire(messages) + Seq::<u8>::empty() =~= ChannelMessages::wire(messages));
}

/// The buffer stays well formed whatever is handed in.
pub proof fn lemma_handle_wf(buffer: ReassemblyView, fragment: FragmentView)
    requires
        buffer.wf(),
    ensures
        buffer.handle(fragment).0.wf(),
        buffer.handle(fragment).0.config == buffer.config,
{
    let (after, handled) = buffer.handle(fragment);
    if fragment.num_fragments > buffer.config.max_fragments {
    } else if buffer.has(fragment.sequence) {
        let at = buffer.position(fragment.sequence);
        if after != buffer {
            lemma_store_wf(buffer, at, fragment);
        }
    } else if fragment.fragment_id >= fragment.num_fragments {
    } else if buffer.config.reassembly_buffer_size == 0 {
    } else {
        let room = buffer.with_room();
        let entry = ReassemblyFragmentView {
            sequence: fragment.sequence,
            num_fragments_total: fragment.num_fragments,
            fragments: Seq::new(fragment.num_fragments as nat, |i: int| None::<Seq<u8>>),
        };
        let grown = ReassemblyView { entries: room.entries.push(entry), ..room };
        assert forall|i: int| 0 <= i < room.entries.len() implies (
        #[trigger] room.entries[i]).sequence != fragment.sequence by {
            if buffer.entries.len() >= buffer.config.reassembly_buffer_size {
                assert(room.entries[i] == buffer.entries[i + 1]);
            } else {
                assert(room.entries[i] == buffer.entries[i]);
            }
        }
        assert forall|i: int, j: int| 0 <= i < j < room.entries.len() implies (
        #[trigger] room.entries[i]).sequence != (#[trigger] room.entries[j]).sequence by {
            if buffer.entries.len() >= buffer.config.reassembly_buffer_size {
                assert(room.entries[i] == buffer.entries[i + 1]);
                assert(room.entries[j] == buffer.entries[j + 1]);
            }
        }
        assert(grown.wf());
        lemma_store_wf(grown, room.entries.len() as int, fragment);
    }
}

proof fn lemma_store_wf(buffer: ReassemblyView, at: int, fragment: FragmentView)
    requires
        buffer.wf(),
        0 <= at < buffer.entries.len(),
        fragment.fragment_id < buffer.entries[at].fragments.len(),
    ensures
        buffer.store(at, fragment).0.wf(),
        buffer.store(at, fragment).0.config == buffer.config,
{
    let after = buffer.store(at, fragment).0;
    let entry = buffer.entries[at];
    let fragments = entry.fragments.update(fragment.fragment_id as int, Some(fragment.payload));
    if is_complete(fragments) {
        assert forall|i: int, j: int| 0 <= i < j < after.entries.len() implies (
        #[trigger] after.entries[i]).sequence != (#[trigger] after.entries[j]).sequence by {
            let a = if i < at {
                i
            } else {
                i + 1
            };
            let b = if j < at {
                j
            } else {
                j + 1
            };
            assert(after.entries[i] == buffer.entries[a]);
            assert(after.entries[j] == buffer.entries[b]);
        }
        assert forall|i: int| 0 <= i < after.entries.len() implies (
        #[trigger] after.entries[i]).fragments.len() == after.entries[i].num_fragments_total by {
            let a = if i < at {
                i
            } else {
                i + 1
            };
            assert(after.entries[i] == buffer.entries[a]);
        }
    } else {
        assert forall|i: int, j: int| 0 <= i < j < after.entries.len() implies (
        #[trigger] after.entries[i]).sequence != (#[trigger] after.entries[j]).sequence by {
            assert(after.entries[i].sequence == buffer.entries[i].sequence);
            assert(after.entries[j].sequence == buffer.entries[j].sequence);
        }
        assert forall|i: int| 0 <= i < after.entries.len() implies (
        #[trigger] after.entries[i]).fragments.len() == after.entries[i].num_fragments_total by {
            if i != at {
                assert(after.entries[i] == buffer.entries[i]);
            }
        }
    }
}

struct ReassemblyFragment {
    sequence: u16,
    num_fragments_total: u8,
    fragments: Vec<Option<Payload>>,
}

impl View for ReassemblyFragment {
    type V = ReassemblyFragmentView;

    closed spec fn view(&self) -> ReassemblyFragmentView {
        ReassemblyFragmentView {
            sequence: self.sequence,
            num_fragments_total: self.num_fragments_total,
            fragments: places(self.fragments@),
        }
    }
}

/// The packets whose fragments have arrived in part.
pub struct ReassemblyBuffer {
    config: FragmentConfig,
    entries: Vec<ReassemblyFragment>,
}

impl View for ReassemblyBuffer {
    type V = ReassemblyView;

    closed spec fn view(&self) -> ReassemblyView {
        ReassemblyView { config: self.config, entries: views(self.entries@) }
    }
}

impl ReassemblyBuffer {
    /// What holds of every buffer that this module hands out.
    pub closed spec fn wf(&self) -> bool {
        self@.wf()
    }

    /// A buffer that holds nothing yet.
    pub fn new(config: FragmentConfig) -> (buffer: ReassemblyBuffer)
        ensures
            buffer.wf(),
            buffer@ == ReassemblyView::new(config),
    {
        let buffer = ReassemblyBuffer { config, entries: Vec::new() };
        assert(buffer@.entries =~= Seq::empty());
        buffer
    }

    fn find(&self, sequence: u16) -> (at: Option<usize>)
        requires
            self.wf(),
        ensures
            match at {
                Some(at) => self@.has(sequence) && self@.position(sequence) == at && at
                    < self.entries@.len(),
                None => !self@.has(sequence),
            },
    {
        let mut i: usize = 0;
        while i < self.entries.len()
            invariant
                self.wf(),
                i <= self.entries@.len(),
                forall|j: int| 0 <= j < i ==> (#[trigger] self@.entries[j]).sequence != sequence,
            decreases self.entries@.len() - i,
        {
            if self.entries[i].sequence == sequence {
                proof {
                    assert(self@.entries[i as int].sequence == sequence);
                    let k = self@.position(sequence);
                    if k != i {
                        assert(self@.entries[k].sequence == self@.entries[i as int].sequence);
                    }
                }
                return Some(i);
            }
            i += 1;
        }
        None
    }

    fn store(&mut self, at: usize, fragment: Fragment) -> (r: Result<
        Option<ChannelMessages>,
        FragmentError,
    >)
        requires
            old(self).wf(),
            at < old(self).entries@.len(),
            fragment.fragment_id < old(self)@.entries[at as int].fragments.len(),
        ensures
            final(self).wf(),
            (final(self)@, handled(r)) == old(self)@.store(at as int, fragment@),
    {
        proof {
            lemma_store_wf(self@, at as int, fragment@);
        }
        let ghost before = self@;
        let ghost entry = before.entries[at as int];
        let ghost fragments = entry.fragments.update(
            fragment.fragment_id as int,
            Some(fragment.payload@),
        );
        self.entries[at].fragments[fragment.fragment_id as usize] = Some(fragment.payload);
        assert(places(self.entries@[at as int].fragments@) =~= fragments);
        assert(self@.entries =~= before.entries.update(
            at as int,
            ReassemblyFragmentView { fragments, ..entry },
        ));
        if all_received(&self.entries[at].fragments) {
            let done = self.entries.remove(at);
            assert(self@.entries =~= before.entries.remove(at as int));
            let bytes = join_pieces(&done.fragments);
            let mut src = bytes.as_slice();
            match ChannelMessages::read(&mut src) {
                Ok(messages) => Ok(Some(messages)),
                Err(e) => Err(FragmentError::from(e)),
            }
        } else {
            Ok(None)
        }
    }

    /// Takes in a fragment. The messages of its packet are handed out with
    /// the last piece that was missing.
    pub fn handle_fragment(&mut self, fragment: Fragment) -> (r: Result<
        Option<ChannelMessages>,
        FragmentError,
    >)
        requires
            old(self).wf(),
        ensures
            final(self).wf(),
            (final(self)@, handled(r)) == old(self)@.handle(fragment@),
    {
        proof {
            lemma_handle_wf(self@, fragment@);
        }
        if fragment.num_fragments > self.config.max_fragments {
            return Err(RenetError::MaximumFragmentsExceeded);
        }
        match self.find(fragment.sequence) {
            Some(at) => {
                if self.entries[at].num_fragments_total != fragment.num_fragments {
                    return Err(RenetError::InvalidNumberFragment);
                }
                if fragment.fragment_id >= fragment.num_fragments {
                    return Err(RenetError::MaximumFragmentsExceeded);
                }
                if self.entries[at].fragments[fragment.fragment_id as usize].is_some() {
                    assert(self@.entries[at as int].fragments[fragment.fragment_id as int]
                        is Some);
                    return Err(RenetError::FragmentAlreadyProcessed);
                }
                assert(self@.entries[at as int].fragments[fragment.fragment_id as int] is None);
                self.store(at, fragment)
            },
            None => {
                if fragment.fragment_id >= fragment.num_fragments {
                    return Err(RenetError::MaximumFragmentsExceeded);
                }
                if self.config.reassembly_buffer_size == 0 {
                    return Err(RenetError::CouldNotFindFragment);
                }
                let ghost before = self@;
                let ghost room = before.with_room();
                if self.entries.len() >= self.config.reassembly_buffer_size {
                    self.entries.remove(0);
                    assert(self@.entries =~= before.entries.skip(1));
                }
                assert(self@ == room);
                let mut fragments: Vec<Option<Payload>> = Vec::new();
                let mut i: u8 = 0;
                while i < fragment.num_fragments
                    invariant
                        i <= fragment.num_fragments,
                        fragments@.len() == i,
                        forall|j: int| 0 <= j < i ==> fragments@[j] is None,
                    decreases fragment.num_fragments - i,
                {
                    fragments.push(None);
                    i += 1;
                }
                let entry = ReassemblyFragment {
                    sequence: fragment.sequence,
                    num_fragments_total: fragment.num_fragments,
                    fragments,
                };
                assert(entry@.fragments =~= Seq::new(
                    fragment.num_fragments as nat,
                    |i: int| None::<Seq<u8>>,
                ));
                self.entries.push(entry);
                let at = self.entries.len() - 1;
                proof {
                    assert(self@.entries =~= room.entries.push(entry@));
                    let grown = ReassemblyView { entries: room.entries.push(entry@), ..room };
                    assert(self@ == grown);
                    assert forall|i: int| 0 <= i < room.entries.len() implies (
                    #[trigger] room.entries[i]).sequence != fragment.sequence by {
                        if before.entries.len() >= before.config.reassembly_buffer_size {
                            assert(room.entries[i] == before.entries[i + 1]);
                        } else {
                            assert(room.entries[i] == before.entries[i]);
                        }
                    }
                    assert forall|i: int, j: int|
                        0 <= i < j < room.entries.len() implies (#[trigger] room.entries[i]).sequence
                        != (#[trigger] room.entries[j]).sequence by {
                        if before.entries.len() >= before.config.reassembly_buffer_size {
                            assert(room.entries[i] == before.entries[i + 1]);
                            assert(room.entries[j] == before.entries[j + 1]);
                        }
                    }
                    assert(grown.wf());
                }
                self.store(at, fragment)
            },
        }
    }

    /// Takes in the bytes of a datagram that is to hold a fragment.
    pub fn handle_payload(&mut self, buffer: &[u8]) -> (r: Result<
        Option<ChannelMessages>,
        FragmentError,
    >)
        requires
            old(self).wf(),
        ensures
            final(self).wf(),
            (final(self)@, handled(r)) == old(self)@.handle_payload(buffer@),
    {
        let mut src: &[u8] = buffer;
        match read_u8(&mut src) {
            Ok(1) => {},
            _ => {
                return Err(RenetError::InvalidHeaderType);
            },
        }
        match Fragment::read(&mut src) {
            Ok(fragment) => self.handle_fragment(fragment),
            Err(e) => Err(FragmentError::from(e)),
        }
    }
}

} // verus!

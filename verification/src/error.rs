//! Reasons for ending a connection, and the errors reported to the caller.
use vstd::prelude::*;
use vstd::std_specs::convert::FromSpecImpl;
use vstd::string::StringExecFns;
use crate::packet::PacketError;
use crate::reassembly_fragment::FragmentError;

verus! {

/// The error type of `std::io`. Nothing is known of a value of it here but
/// that it is one.
#[verifier::external_type_specification]
#[verifier::external_body]
pub struct ExIoError(std::io::Error);

/// The text that an error of `std::io` gives of itself, by `to_string`. It
/// depends on the error and on the platform: nothing is claimed of it.
#[verifier::external_body]
pub(crate) fn io_error_text(error: &std::io::Error) -> String {
    error.to_string()
}

/// Why a connection was ended. The numeric id of each variant and the channel
/// carried by the last three are part of the wire format.
#[derive(Clone, Copy, Debug, PartialEq, Eq, Structural)]
pub enum DisconnectionReason {
    /// Server has exceeded maximum players capacity
    MaxConnections,
    TimedOut,
    DisconnectedByServer,
    DisconnectedByClient,
    ClientAlreadyConnected,
    InvalidChannelId(u8),
    MismatchingChannelType(u8),
    ReliableChannelOutOfSync(u8),
}

impl DisconnectionReason {
    /// The id that stands for the variant on the wire.
    pub open spec fn spec_id(&self) -> u8 {
        match self {
            DisconnectionReason::MaxConnections => 0,
            DisconnectionReason::TimedOut => 1,
            DisconnectionReason::DisconnectedByServer => 2,
            DisconnectionReason::DisconnectedByClient => 3,
            DisconnectionReason::ClientAlreadyConnected => 4,
            DisconnectionReason::InvalidChannelId(_) => 5,
            DisconnectionReason::MismatchingChannelType(_) => 6,
            DisconnectionReason::ReliableChannelOutOfSync(_) => 7,
        }
    }

    /// The channel that the reason names, if it names one.
    pub open spec fn channel(&self) -> Option<u8> {
        match self {
            DisconnectionReason::InvalidChannelId(c) => Some(*c),
            DisconnectionReason::MismatchingChannelType(c) => Some(*c),
            DisconnectionReason::ReliableChannelOutOfSync(c) => Some(*c),
            _ => None,
        }
    }

    /// The channel byte that follows the id on the wire: the channel of the
    /// reason, or zero where it names none.
    pub open spec fn wire_channel(&self) -> u8 {
        match self.channel() {
            Some(c) => c,
            None => 0,
        }
    }

    /// The id that stands for the variant on the wire.
    #[verifier::when_used_as_spec(spec_id)]
    pub fn id(&self) -> (id: u8)
        ensures
            id == self.spec_id(),
            id <= 7,
    {
        match self {
            DisconnectionReason::MaxConnections => 0,
            DisconnectionReason::TimedOut => 1,
            DisconnectionReason::DisconnectedByServer => 2,
            DisconnectionReason::DisconnectedByClient => 3,
            DisconnectionReason::ClientAlreadyConnected => 4,
            DisconnectionReason::InvalidChannelId(_) => 5,
            DisconnectionReason::MismatchingChannelType(_) => 6,
            DisconnectionReason::ReliableChannelOutOfSync(_) => 7,
        }
    }

    /// The reason with the given id, carrying `channel_id` where the variant
    /// has a channel. Ids above 7 stand for no reason.
    pub open spec fn spec_try_from(id: u8, channel_id: u8) -> Option<DisconnectionReason> {
        if id == 0 {
            Some(DisconnectionReason::MaxConnections)
        } else if id == 1 {
            Some(DisconnectionReason::TimedOut)
        } else if id == 2 {
            Some(DisconnectionReason::DisconnectedByServer)
        } else if id == 3 {
            Some(DisconnectionReason::DisconnectedByClient)
        } else if id == 4 {
            Some(DisconnectionReason::ClientAlreadyConnected)
        } else if id == 5 {
            Some(DisconnectionReason::InvalidChannelId(channel_id))
        } else if id == 6 {
            Some(DisconnectionReason::MismatchingChannelType(channel_id))
        } else if id == 7 {
            Some(DisconnectionReason::ReliableChannelOutOfSync(channel_id))
        } else {
            None
        }
    }

    /// The reason that `id` stands for, with `channel_id` where the reason names a
    /// channel.
    pub fn try_from(id: u8, channel_id: u8) -> (reason: Option<DisconnectionReason>)
        ensures
            reason == DisconnectionReason::spec_try_from(id, channel_id),
    {
        let reason = match id {
            0 => DisconnectionReason::MaxConnections,
            1 => DisconnectionReason::TimedOut,
            2 => DisconnectionReason::DisconnectedByServer,
            3 => DisconnectionReason::DisconnectedByClient,
            4 => DisconnectionReason::ClientAlreadyConnected,
            5 => DisconnectionReason::InvalidChannelId(channel_id),
            6 => DisconnectionReason::MismatchingChannelType(channel_id),
            7 => DisconnectionReason::ReliableChannelOutOfSync(channel_id),
            _ => return None,
        };
        Some(reason)
    }

    /// The text that describes the reason.
    pub open spec fn message(&self) -> Seq<char> {
        match self {
            DisconnectionReason::MaxConnections => "server has reached the limit of connections"@,
            DisconnectionReason::TimedOut => "connection has timed out"@,
            DisconnectionReason::DisconnectedByServer => "connection terminated by server"@,
            DisconnectionReason::DisconnectedByClient => "connection terminated by client"@,
            DisconnectionReason::ClientAlreadyConnected => "connection with same id alredy exists"@,
            DisconnectionReason::InvalidChannelId(id) => "received message with invalid channel "@
                + decimal(*id as nat),
            DisconnectionReason::MismatchingChannelType(id) => "received message from channel "@
                + decimal(*id as nat) + " with mismatching channel type"@,
            DisconnectionReason::ReliableChannelOutOfSync(id) => "reliable channel "@ + decimal(
                *id as nat,
            ) + " is out of sync"@,
        }
    }

    /// The text that describes the value.
    pub fn to_string(&self) -> (text: String)
        ensures
            text@ == self.message(),
    {
        match self {
            DisconnectionReason::MaxConnections => String::from_str(
                "server has reached the limit of connections",
            ),
            DisconnectionReason::TimedOut => String::from_str("connection has timed out"),
            DisconnectionReason::DisconnectedByServer => String::from_str(
                "connection terminated by server",
            ),
            DisconnectionReason::DisconnectedByClient => String::from_str(
                "connection terminated by client",
            ),
            DisconnectionReason::ClientAlreadyConnected => String::from_str(
                "connection with same id alredy exists",
            ),
            DisconnectionReason::InvalidChannelId(id) => {
                let mut text = String::from_str("received message with invalid channel ");
                push_decimal(&mut text, *id);
                text
            },
            DisconnectionReason::MismatchingChannelType(id) => {
                let mut text = String::from_str("received message from channel ");
                push_decimal(&mut text, *id);
                text.append(" with mismatching channel type");
                text
            },
            DisconnectionReason::ReliableChannelOutOfSync(id) => {
                let mut text = String::from_str("reliable channel ");
                push_decimal(&mut text, *id);
                text.append(" is out of sync");
                text
            },
        }
    }
}

/// A reason is found again from its id and its channel byte; where it names
/// no channel, whatever the channel byte holds.
pub proof fn lemma_reason_round_trip(reason: DisconnectionReason, channel_id: u8)
    ensures
        reason.spec_id() <= 7,
        DisconnectionReason::spec_try_from(reason.spec_id(), reason.wire_channel()) == Some(
            reason,
        ),
        reason.channel() is None ==> DisconnectionReason::spec_try_from(
            reason.spec_id(),
            channel_id,
        ) == Some(reason),
{
}

/// The ids 0 to 7 stand for a reason each, no other id does, and the reason
/// found has the id asked for and, where it names a channel, the channel
/// given.
pub proof fn lemma_try_from(id: u8, channel_id: u8)
    ensures
        DisconnectionReason::spec_try_from(id, channel_id) is Some <==> id <= 7,
        DisconnectionReason::spec_try_from(id, channel_id) matches Some(reason) ==> reason.spec_id()
            == id && (reason.channel() matches Some(c) ==> c == channel_id),
{
}

/// The character of a decimal digit.
pub open spec fn digit(d: nat) -> char
    recommends
        d < 10,
{
    if d == 0 {
        '0'
    } else if d == 1 {
        '1'
    } else if d == 2 {
        '2'
    } else if d == 3 {
        '3'
    } else if d == 4 {
        '4'
    } else if d == 5 {
        '5'
    } else if d == 6 {
        '6'
    } else if d == 7 {
        '7'
    } else if d == 8 {
        '8'
    } else {
        '9'
    }
}

/// The decimal digits of a number, without leading zeros.
pub open spec fn decimal(n: nat) -> Seq<char>
    decreases n,
{
    if n < 10 {
        seq![digit(n)]
    } else {
        decimal(n / 10).push(digit(n % 10))
    }
}

fn digit_str(d: u8) -> (text: &'static str)
    requires
        d < 10,
    ensures
        text@ == seq![digit(d as nat)],
{
    proof {
        reveal_strlit("0");
        reveal_strlit("1");
        reveal_strlit("2");
        reveal_strlit("3");
        reveal_strlit("4");
        reveal_strlit("5");
        reveal_strlit("6");
        reveal_strlit("7");
        reveal_strlit("8");
        reveal_strlit("9");
    }
    let text = match d {
        0 => "0",
        1 => "1",
        2 => "2",
        3 => "3",
        4 => "4",
        5 => "5",
        6 => "6",
        7 => "7",
        8 => "8",
        _ => "9",
    };
    assert(text@ =~= seq![digit(d as nat)]);
    text
}

/// Appends the decimal digits of `n` to `text`.
pub fn push_decimal(text: &mut String, n: u8)
    ensures
        final(text)@ == old(text)@ + decimal(n as nat),
{
    reveal_with_fuel(decimal, 3);
    if n >= 100 {
        text.append(digit_str(n / 100));
    }
    if n >= 10 {
        text.append(digit_str(n / 10 % 10));
    }
    text.append(digit_str(n % 10));
    assert(text@ =~= old(text)@ + decimal(n as nat));
}

/// What the caller of the connection is told when a call fails.
#[derive(Debug)]
pub enum RenetError {
    MessageSizeAboveLimit,
    ChannelMaxMessagesLimit,
    AlreadySendingBlockMessage,
    ClientDisconnected(DisconnectionReason),
    ClientNotFound,
    FragmentError(FragmentError),
    PacketError(PacketError),
    IoError(std::io::Error),
}

impl RenetError {
    /// The text that describes the error, where the library words it. An
    /// error of `std::io` words itself.
    pub open spec fn message(&self) -> Option<Seq<char>> {
        match self {
            RenetError::MessageSizeAboveLimit => Some("the message is above the limit size"@),
            RenetError::ChannelMaxMessagesLimit => Some(
                "the channel has reached the maximum messages"@,
            ),
            RenetError::AlreadySendingBlockMessage => Some(
                "the connection is already sending a block message"@,
            ),
            RenetError::ClientNotFound => Some("client with given id was not found"@),
            RenetError::ClientDisconnected(reason) => Some(
                "client is disconnected: "@ + reason.message(),
            ),
            RenetError::PacketError(packet_err) => packet_err.message(),
            RenetError::FragmentError(fragment_err) => fragment_err.message(),
            RenetError::IoError(_) => None,
        }
    }

    /// The text that describes the value.
    pub fn to_string(&self) -> (text: String)
        ensures
            self.message() matches Some(message) ==> text@ == message,
    {
        match self {
            RenetError::MessageSizeAboveLimit => String::from_str(
                "the message is above the limit size",
            ),
            RenetError::ChannelMaxMessagesLimit => String::from_str(
                "the channel has reached the maximum messages",
            ),
            RenetError::AlreadySendingBlockMessage => String::from_str(
                "the connection is already sending a block message",
            ),
            RenetError::ClientNotFound => String::from_str("client with given id was not found"),
            RenetError::ClientDisconnected(reason) => {
                let mut text = String::from_str("client is disconnected: ");
                let reason_text = reason.to_string();
                text.append(reason_text.as_str());
                text
            },
            RenetError::PacketError(packet_err) => packet_err.to_string(),
            RenetError::FragmentError(fragment_err) => fragment_err.to_string(),
            RenetError::IoError(io_err) => io_error_text(io_err),
        }
    }
}

impl From<PacketError> for RenetError {
    fn from(inner: PacketError) -> (error: Self) {
        RenetError::PacketError(inner)
    }
}

impl FromSpecImpl<PacketError> for RenetError {
    open spec fn obeys_from_spec() -> bool {
        true
    }

    open spec fn from_spec(inner: PacketError) -> Self {
        RenetError::PacketError(inner)
    }
}

impl From<FragmentError> for RenetError {
    fn from(inner: FragmentError) -> (error: Self) {
        RenetError::FragmentError(inner)
    }
}

impl FromSpecImpl<FragmentError> for RenetError {
    open spec fn obeys_from_spec() -> bool {
        true
    }

    open spec fn from_spec(inner: FragmentError) -> Self {
        RenetError::FragmentError(inner)
    }
}

impl From<std::io::Error> for RenetError {
    fn from(inner: std::io::Error) -> (error: Self) {
        RenetError::IoError(inner)
    }
}

impl FromSpecImpl<std::io::Error> for RenetError {
    open spec fn obeys_from_spec() -> bool {
        true
    }

    open spec fn from_spec(inner: std::io::Error) -> Self {
        RenetError::IoError(inner)
    }
}

} // verus!

use renet::error::{DisconnectionReason, RenetError};
use renet::packet::PacketError;
use renet::reassembly_fragment::FragmentError;

fn all_reasons(channel: u8) -> Vec<DisconnectionReason> {
    vec![
        DisconnectionReason::MaxConnections,
        DisconnectionReason::TimedOut,
        DisconnectionReason::DisconnectedByServer,
        DisconnectionReason::DisconnectedByClient,
        DisconnectionReason::ClientAlreadyConnected,
        DisconnectionReason::InvalidChannelId(channel),
        DisconnectionReason::MismatchingChannelType(channel),
        DisconnectionReason::ReliableChannelOutOfSync(channel),
    ]
}

#[test]
fn reason_ids_are_zero_to_seven_in_order() {
    let ids: Vec<u8> = all_reasons(9).iter().map(|reason| reason.id()).collect();
    assert_eq!(ids, vec![0, 1, 2, 3, 4, 5, 6, 7]);
}

#[test]
fn reason_is_found_again_from_its_id() {
    for channel in [0u8, 1, 77, 255] {
        for reason in all_reasons(channel) {
            assert_eq!(DisconnectionReason::try_from(reason.id(), channel), Some(reason));
        }
    }
}

#[test]
fn reason_without_channel_ignores_the_channel_given() {
    assert_eq!(DisconnectionReason::try_from(0, 200), Some(DisconnectionReason::MaxConnections));
    assert_eq!(
        DisconnectionReason::try_from(4, 1),
        Some(DisconnectionReason::ClientAlreadyConnected)
    );
    assert_eq!(
        DisconnectionReason::try_from(6, 1),
        Some(DisconnectionReason::MismatchingChannelType(1))
    );
}

#[test]
fn ids_above_seven_are_no_reason() {
    for id in 8..=255u8 {
        assert_eq!(DisconnectionReason::try_from(id, 0), None);
    }
}

#[test]
fn reason_texts() {
    assert_eq!(
        DisconnectionReason::MaxConnections.to_string(),
        "server has reached the limit of connections"
    );
    assert_eq!(DisconnectionReason::TimedOut.to_string(), "connection has timed out");
    assert_eq!(
        DisconnectionReason::DisconnectedByServer.to_string(),
        "connection terminated by server"
    );
    assert_eq!(
        DisconnectionReason::DisconnectedByClient.to_string(),
        "connection terminated by client"
    );
    assert_eq!(
        DisconnectionReason::ClientAlreadyConnected.to_string(),
        "connection with same id alredy exists"
    );
    assert_eq!(
        DisconnectionReason::InvalidChannelId(7).to_string(),
        "received message with invalid channel 7"
    );
    assert_eq!(
        DisconnectionReason::MismatchingChannelType(42).to_string(),
        "received message from channel 42 with mismatching channel type"
    );
    assert_eq!(
        DisconnectionReason::ReliableChannelOutOfSync(255).to_string(),
        "reliable channel 255 is out of sync"
    );
}

#[test]
fn channel_numbers_are_written_in_decimal() {
    for id in 0..=255u8 {
        assert_eq!(
            DisconnectionReason::InvalidChannelId(id).to_string(),
            format!("received message with invalid channel {}", id)
        );
    }
}

#[test]
fn error_texts() {
    assert_eq!(RenetError::MessageSizeAboveLimit.to_string(), "the message is above the limit size");
    assert_eq!(
        RenetError::ChannelMaxMessagesLimit.to_string(),
        "the channel has reached the maximum messages"
    );
    assert_eq!(
        RenetError::AlreadySendingBlockMessage.to_string(),
        "the connection is already sending a block message"
    );
    assert_eq!(RenetError::ClientNotFound.to_string(), "client with given id was not found");
    assert_eq!(
        RenetError::ClientDisconnected(DisconnectionReason::ReliableChannelOutOfSync(100))
            .to_string(),
        "client is disconnected: reliable channel 100 is out of sync"
    );
    assert_eq!(
        RenetError::PacketError(PacketError::InvalidPacketType).to_string(),
        "invalid packet type"
    );
    assert_eq!(
        RenetError::PacketError(PacketError::InvalidDisconnectReason).to_string(),
        "invalid disconnect reason id"
    );
    assert_eq!(
        RenetError::FragmentError(FragmentError::FragmentAlreadyProcessed).to_string(),
        FragmentError::FragmentAlreadyProcessed.to_string()
    );
}

#[test]
fn packet_error_texts() {
    assert_eq!(PacketError::InvalidPacketType.to_string(), "invalid packet type");
    assert_eq!(PacketError::InvalidDisconnectReason.to_string(), "invalid disconnect reason id");
}

#[test]
fn an_io_error_words_itself() {
    let text = std::io::Error::new(std::io::ErrorKind::Other, "boom").to_string();
    let make = || std::io::Error::new(std::io::ErrorKind::Other, "boom");
    assert_eq!(text, "boom");
    assert_eq!(PacketError::IoError(make()).to_string(), text);
    assert_eq!(RenetError::IoError(make()).to_string(), text);
    assert_eq!(RenetError::PacketError(PacketError::IoError(make())).to_string(), text);
    assert_eq!(FragmentError::IOError(make()).to_string(), text);
}

#[test]
fn errors_wrap_what_they_come_from() {
    let make = || std::io::Error::new(std::io::ErrorKind::Other, "boom");
    assert!(matches!(PacketError::from(make()), PacketError::IoError(_)));
    assert!(matches!(RenetError::from(make()), RenetError::IoError(_)));
    assert!(matches!(FragmentError::from(make()), FragmentError::IOError(_)));
    assert!(matches!(
        RenetError::from(PacketError::InvalidPacketType),
        RenetError::PacketError(PacketError::InvalidPacketType)
    ));
    assert!(matches!(
        RenetError::from(FragmentError::InvalidHeaderType),
        RenetError::FragmentError(FragmentError::InvalidHeaderType)
    ));
}

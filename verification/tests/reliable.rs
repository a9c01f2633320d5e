use renet::channel::reliable::{ReliableChannel, ReliableChannelConfig, ReliableMessage};
use renet::error::{DisconnectionReason, RenetError};
use renet::packet::AckData;

fn config() -> ReliableChannelConfig {
    ReliableChannelConfig {
        channel_id: 0,
        message_send_queue_size: 8,
        message_receive_queue_size: 8,
        sent_packet_buffer_size: 16,
        max_message_size: 100,
        message_resend_time: 10,
    }
}

fn message(id: u16, payload: &[u8]) -> ReliableMessage {
    ReliableMessage { id, payload: payload.to_vec() }
}

#[test]
fn two_messages_sent_and_acked_leave_nothing_waiting() {
    let mut channel = ReliableChannel::new(config());
    channel.send_message(b"a".to_vec()).unwrap();
    assert_eq!(channel.get_messages_to_send(0, 0), vec![message(0, b"a")]);
    channel.send_message(b"b".to_vec()).unwrap();
    assert_eq!(channel.get_messages_to_send(1, 1), vec![message(1, b"b")]);
    channel.process_ack(AckData { ack: 1, ack_bits: 1 });
    assert_eq!(channel.get_messages_to_send(2, 1_000), vec![]);
    assert_eq!(channel.get_messages_to_send(3, 2_000), vec![]);
    assert!(!channel.out_of_sync());
}

#[test]
fn one_packet_carries_all_messages_that_are_due() {
    let mut channel = ReliableChannel::new(config());
    channel.send_message(b"a".to_vec()).unwrap();
    channel.send_message(b"b".to_vec()).unwrap();
    assert_eq!(channel.get_messages_to_send(0, 5), vec![message(0, b"a"), message(1, b"b")]);
    channel.process_ack(AckData::new(0));
    assert_eq!(channel.get_messages_to_send(1, 100), vec![]);
}

#[test]
fn unacked_message_is_sent_again_once_per_resend_time() {
    let mut channel = ReliableChannel::new(config());
    channel.send_message(b"again".to_vec()).unwrap();
    let mut sequence = 0u16;
    let mut times_sent = 0;
    for now in 0..=100u64 {
        let sent = channel.get_messages_to_send(sequence, now);
        sequence += 1;
        if now % 10 == 0 {
            assert_eq!(sent, vec![message(0, b"again")]);
            times_sent += 1;
        } else {
            assert_eq!(sent, vec![]);
        }
    }
    assert_eq!(times_sent, 11);
}

#[test]
fn resend_waits_for_the_full_resend_time() {
    let mut channel = ReliableChannel::new(config());
    channel.send_message(vec![1]).unwrap();
    assert_eq!(channel.get_messages_to_send(0, 100).len(), 1);
    assert_eq!(channel.get_messages_to_send(1, 109).len(), 0);
    assert_eq!(channel.get_messages_to_send(2, 99).len(), 0);
    assert_eq!(channel.get_messages_to_send(3, 110).len(), 1);
    assert_eq!(channel.get_messages_to_send(4, 119).len(), 0);
    assert_eq!(channel.get_messages_to_send(5, u64::MAX).len(), 1);
}

#[test]
fn ack_of_one_packet_leaves_the_messages_of_others_waiting() {
    let mut channel = ReliableChannel::new(config());
    channel.send_message(vec![1]).unwrap();
    assert_eq!(channel.get_messages_to_send(7, 0), vec![message(0, &[1])]);
    channel.send_message(vec![2]).unwrap();
    assert_eq!(channel.get_messages_to_send(8, 1), vec![message(1, &[2])]);
    channel.send_message(vec![3]).unwrap();
    assert_eq!(channel.get_messages_to_send(9, 2), vec![message(2, &[3])]);
    channel.process_ack(AckData::new(8));
    assert_eq!(
        channel.get_messages_to_send(10, 50),
        vec![message(0, &[1]), message(2, &[3])]
    );
}

#[test]
fn ack_of_any_packet_that_carried_the_message_frees_it() {
    let mut channel = ReliableChannel::new(config());
    channel.send_message(vec![1]).unwrap();
    assert_eq!(channel.get_messages_to_send(0, 0).len(), 1);
    assert_eq!(channel.get_messages_to_send(1, 10).len(), 1);
    assert_eq!(channel.get_messages_to_send(2, 20).len(), 1);
    channel.process_ack(AckData::new(1));
    assert_eq!(channel.get_messages_to_send(3, 30).len(), 0);
}

#[test]
fn ack_for_unknown_packet_changes_nothing() {
    let mut channel = ReliableChannel::new(config());
    channel.send_message(vec![1]).unwrap();
    assert_eq!(channel.get_messages_to_send(5, 0).len(), 1);
    channel.process_ack(AckData { ack: 4, ack_bits: u32::MAX });
    channel.process_ack(AckData { ack: 38, ack_bits: u32::MAX });
    assert_eq!(channel.get_messages_to_send(6, 10), vec![message(0, &[1])]);
    channel.process_ack(AckData { ack: 37, ack_bits: 1 << 31 });
    assert_eq!(channel.get_messages_to_send(7, 20), vec![]);
}

#[test]
fn full_send_queue_puts_the_channel_out_of_sync() {
    let mut channel = ReliableChannel::new(config());
    for i in 0..8u8 {
        channel.send_message(vec![i]).unwrap();
    }
    assert!(!channel.out_of_sync());
    assert_eq!(channel.disconnect_reason(), None);
    assert!(matches!(channel.send_message(vec![8]), Err(RenetError::ChannelMaxMessagesLimit)));
    assert!(channel.out_of_sync());
    assert_eq!(
        channel.disconnect_reason(),
        Some(DisconnectionReason::ReliableChannelOutOfSync(0))
    );
    assert!(matches!(
        channel.send_message(vec![9]),
        Err(RenetError::ClientDisconnected(DisconnectionReason::ReliableChannelOutOfSync(0)))
    ));
    assert_eq!(channel.get_messages_to_send(0, 0), vec![]);
}

#[test]
fn acks_make_room_in_the_send_queue() {
    let mut channel = ReliableChannel::new(config());
    let mut sequence = 0u16;
    for round in 0..20_000u32 {
        for i in 0..4u8 {
            channel.send_message(vec![i, round as u8]).unwrap();
        }
        let sent = channel.get_messages_to_send(sequence, round as u64);
        assert_eq!(sent.len(), 4);
        assert_eq!(sent[0].id, (round * 4) as u16);
        assert_eq!(sent[3].payload, vec![3, round as u8]);
        channel.process_ack(AckData::new(sequence));
        sequence = sequence.wrapping_add(1);
    }
    assert!(!channel.out_of_sync());
}

#[test]
fn oldest_unacked_message_bounds_the_queue() {
    let mut channel = ReliableChannel::new(config());
    channel.send_message(vec![0]).unwrap();
    assert_eq!(channel.get_messages_to_send(0, 0).len(), 1);
    for i in 1..8u16 {
        channel.send_message(vec![i as u8]).unwrap();
        assert_eq!(channel.get_messages_to_send(i, 0).len(), 1);
        channel.process_ack(AckData::new(i));
    }
    assert!(matches!(channel.send_message(vec![8]), Err(RenetError::ChannelMaxMessagesLimit)));
    assert!(channel.out_of_sync());
}

#[test]
fn message_above_the_limit_is_refused() {
    let mut channel = ReliableChannel::new(config());
    assert!(matches!(
        channel.send_message(vec![0; 101]),
        Err(RenetError::MessageSizeAboveLimit)
    ));
    assert!(!channel.out_of_sync());
    channel.send_message(vec![0; 100]).unwrap();
    let sent = channel.get_messages_to_send(0, 0);
    assert_eq!(sent, vec![message(0, &[0; 100])]);
}

#[test]
fn send_queue_of_no_size_takes_no_message() {
    let mut channel =
        ReliableChannel::new(ReliableChannelConfig { message_send_queue_size: 0, ..config() });
    assert!(matches!(channel.send_message(vec![1]), Err(RenetError::ChannelMaxMessagesLimit)));
    assert_eq!(
        channel.disconnect_reason(),
        Some(DisconnectionReason::ReliableChannelOutOfSync(0))
    );
}

#[test]
fn forgotten_packet_no_longer_frees_its_messages() {
    let mut channel =
        ReliableChannel::new(ReliableChannelConfig { sent_packet_buffer_size: 2, ..config() });
    channel.send_message(vec![1]).unwrap();
    assert_eq!(channel.get_messages_to_send(0, 0).len(), 1);
    assert_eq!(channel.get_messages_to_send(1, 10).len(), 1);
    assert_eq!(channel.get_messages_to_send(2, 20).len(), 1);
    channel.process_ack(AckData::new(0));
    assert_eq!(channel.get_messages_to_send(3, 30), vec![message(0, &[1])]);
    channel.process_ack(AckData::new(2));
    assert_eq!(channel.get_messages_to_send(4, 40), vec![]);
}

#[test]
fn messages_are_delivered_in_the_order_of_their_ids() {
    let mut channel = ReliableChannel::new(config());
    assert_eq!(channel.receive_message(), None);
    channel.process_messages(vec![message(2, b"c"), message(1, b"b")]);
    assert_eq!(channel.receive_message(), None);
    channel.process_message(message(0, b"a"));
    assert_eq!(channel.receive_message(), Some(b"a".to_vec()));
    assert_eq!(channel.receive_message(), Some(b"b".to_vec()));
    assert_eq!(channel.receive_message(), Some(b"c".to_vec()));
    assert_eq!(channel.receive_message(), None);
}

#[test]
fn delivered_message_is_not_delivered_again() {
    let mut channel = ReliableChannel::new(config());
    channel.process_message(message(0, b"once"));
    assert_eq!(channel.receive_message(), Some(b"once".to_vec()));
    channel.process_message(message(0, b"once"));
    assert_eq!(channel.receive_message(), None);
    channel.process_messages(vec![message(0, b"once"), message(1, b"next"), message(0, b"once")]);
    assert_eq!(channel.receive_message(), Some(b"next".to_vec()));
    assert_eq!(channel.receive_message(), None);
    channel.process_message(message(1, b"next"));
    channel.process_message(message(0, b"once"));
    assert_eq!(channel.receive_message(), None);
}

#[test]
fn message_held_already_keeps_its_first_payload() {
    let mut channel = ReliableChannel::new(config());
    channel.process_message(message(1, b"first"));
    channel.process_message(message(1, b"second"));
    channel.process_message(message(0, b"zero"));
    assert_eq!(channel.receive_message(), Some(b"zero".to_vec()));
    assert_eq!(channel.receive_message(), Some(b"first".to_vec()));
    assert_eq!(channel.receive_message(), None);
}

#[test]
fn message_beyond_the_receive_queue_is_dropped() {
    let mut channel = ReliableChannel::new(config());
    channel.process_message(message(8, b"far"));
    channel.process_message(message(7, b"near"));
    for id in 0..7u16 {
        channel.process_message(message(id, &[id as u8]));
    }
    for id in 0..7u16 {
        assert_eq!(channel.receive_message(), Some(vec![id as u8]));
    }
    assert_eq!(channel.receive_message(), Some(b"near".to_vec()));
    assert_eq!(channel.receive_message(), None);
    channel.process_message(message(8, b"far"));
    assert_eq!(channel.receive_message(), Some(b"far".to_vec()));
}

#[test]
fn receive_queue_goes_round_many_times() {
    let mut channel = ReliableChannel::new(ReliableChannelConfig {
        message_receive_queue_size: 5,
        ..config()
    });
    let mut next = 0u16;
    for round in 0..30_000u32 {
        let first = next;
        channel.process_message(message(first.wrapping_add(2), &[2, round as u8]));
        channel.process_message(message(first.wrapping_add(1), &[1, round as u8]));
        channel.process_message(message(first.wrapping_sub(1), &[9, 9]));
        channel.process_message(message(first, &[0, round as u8]));
        for i in 0..3u8 {
            assert_eq!(channel.receive_message(), Some(vec![i, round as u8]));
        }
        assert_eq!(channel.receive_message(), None);
        next = next.wrapping_add(3);
    }
}

#[test]
fn receive_queue_of_no_size_keeps_nothing() {
    let mut channel =
        ReliableChannel::new(ReliableChannelConfig { message_receive_queue_size: 0, ..config() });
    channel.process_message(message(0, b"a"));
    assert_eq!(channel.receive_message(), None);
}

#[test]
fn two_ends_exchange_messages_over_a_lossy_link() {
    let mut sender = ReliableChannel::new(config());
    let mut receiver = ReliableChannel::new(config());
    let mut received_packets: Option<AckData> = None;
    let mut delivered: Vec<Vec<u8>> = vec![];
    let mut next_payload = 0u8;
    for tick in 0..400u64 {
        if tick % 3 == 0 && next_payload < 50 {
            if sender.send_message(vec![next_payload]).is_ok() {
                next_payload += 1;
            }
        }
        let sequence = tick as u16;
        let messages = sender.get_messages_to_send(sequence, tick);
        let lost = tick % 4 == 1;
        if !lost {
            receiver.process_messages(messages);
            match received_packets.as_mut() {
                Some(ack_data) => ack_data.record(sequence),
                None => received_packets = Some(AckData::new(sequence)),
            }
        }
        while let Some(payload) = receiver.receive_message() {
            delivered.push(payload);
        }
        if tick % 2 == 0 {
            if let Some(ack_data) = received_packets {
                sender.process_ack(ack_data);
            }
        }
    }
    assert!(!sender.out_of_sync());
    let expected: Vec<Vec<u8>> = (0..50u8).map(|i| vec![i]).collect();
    assert_eq!(delivered, expected);
}

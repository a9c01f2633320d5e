use renet::channel::block::{BlockChannel, BlockChannelConfig, SliceMessage};
use renet::error::{DisconnectionReason, RenetError};
use renet::packet::AckData;

fn config() -> BlockChannelConfig {
    BlockChannelConfig {
        channel_id: 2,
        slice_size: 10,
        max_slices: 64,
        slices_per_packet: 1,
        resend_time: 100,
        sent_packet_buffer_size: 256,
    }
}

fn payload(len: usize) -> Vec<u8> {
    (0..len).map(|i| (i * 7 % 251) as u8).collect()
}

fn slice(chunk_id: u16, slice_id: u32, num_slices: u32, payload: &[u8]) -> SliceMessage {
    SliceMessage { chunk_id, slice_id, num_slices, payload: payload.to_vec() }
}

#[test]
fn only_the_dropped_slices_are_sent_again() {
    let message = payload(95);
    let mut sender = BlockChannel::new(config());
    let mut receiver = BlockChannel::new(config());
    sender.send_message(message.clone()).unwrap();
    let mut acks = AckData::new(0);
    for sequence in 0..10u16 {
        let slices = sender.get_messages_to_send(sequence, sequence as u64);
        assert_eq!(slices.len(), 1);
        assert_eq!(slices[0].slice_id, sequence as u32);
        assert_eq!(slices[0].num_slices, 10);
        assert_eq!(slices[0].chunk_id, 0);
        let start = sequence as usize * 10;
        assert_eq!(slices[0].payload, message[start..(start + 10).min(95)].to_vec());
        if sequence != 3 && sequence != 7 {
            receiver.process_messages(slices);
            acks.record(sequence);
        }
    }
    assert_eq!(receiver.receive_message(), None);
    sender.process_ack(acks);
    assert!(sender.sending());
    assert_eq!(sender.get_messages_to_send(10, 50), vec![]);
    let again = sender.get_messages_to_send(11, 103);
    assert_eq!(again, vec![slice(0, 3, 10, &message[30..40])]);
    let again_later = sender.get_messages_to_send(12, 107);
    assert_eq!(again_later, vec![slice(0, 7, 10, &message[70..80])]);
    assert_eq!(sender.get_messages_to_send(13, 108), vec![]);
    receiver.process_messages(again);
    assert_eq!(receiver.receive_message(), None);
    receiver.process_messages(again_later);
    assert_eq!(receiver.receive_message(), Some(message));
    assert_eq!(receiver.receive_message(), None);
    acks.record(11);
    acks.record(12);
    sender.process_ack(acks);
    assert!(!sender.sending());
    assert_eq!(sender.get_messages_to_send(14, 1_000), vec![]);
}

#[test]
fn a_packet_carries_no_more_slices_than_it_may() {
    let message = payload(95);
    let mut sender = BlockChannel::new(BlockChannelConfig { slices_per_packet: 4, ..config() });
    sender.send_message(message.clone()).unwrap();
    let first = sender.get_messages_to_send(0, 0);
    let second = sender.get_messages_to_send(1, 0);
    let third = sender.get_messages_to_send(2, 0);
    let ids = |slices: &Vec<SliceMessage>| slices.iter().map(|s| s.slice_id).collect::<Vec<u32>>();
    assert_eq!(ids(&first), vec![0, 1, 2, 3]);
    assert_eq!(ids(&second), vec![4, 5, 6, 7]);
    assert_eq!(ids(&third), vec![8, 9]);
    assert_eq!(third[1].payload, message[90..95].to_vec());
    assert_eq!(sender.get_messages_to_send(3, 99), vec![]);
    sender.process_ack(AckData::new(1));
    assert_eq!(ids(&sender.get_messages_to_send(4, 100)), vec![0, 1, 2, 3]);
    assert_eq!(ids(&sender.get_messages_to_send(5, 100)), vec![8, 9]);
    let none = BlockChannelConfig { slices_per_packet: 0, ..config() };
    let mut silent = BlockChannel::new(none);
    silent.send_message(message).unwrap();
    assert_eq!(silent.get_messages_to_send(0, 0), vec![]);
}

#[test]
fn one_message_at_a_time() {
    let mut sender = BlockChannel::new(config());
    assert!(!sender.sending());
    sender.send_message(payload(25)).unwrap();
    assert!(sender.sending());
    assert!(matches!(
        sender.send_message(payload(5)),
        Err(RenetError::AlreadySendingBlockMessage)
    ));
    for sequence in 0..3u16 {
        assert_eq!(sender.get_messages_to_send(sequence, 0).len(), 1);
    }
    sender.process_ack(AckData { ack: 2, ack_bits: 0b1 });
    assert!(sender.sending());
    assert!(matches!(
        sender.send_message(payload(5)),
        Err(RenetError::AlreadySendingBlockMessage)
    ));
    sender.process_ack(AckData::new(0));
    assert!(!sender.sending());
    sender.send_message(payload(5)).unwrap();
    let next = sender.get_messages_to_send(3, 0);
    assert_eq!(next, vec![slice(1, 0, 1, &payload(5))]);
}

#[test]
fn message_of_too_many_slices_is_refused() {
    let mut sender = BlockChannel::new(config());
    assert!(matches!(sender.send_message(payload(641)), Err(RenetError::MessageSizeAboveLimit)));
    assert!(!sender.sending());
    sender.send_message(payload(640)).unwrap();
    assert!(sender.sending());
    let mut sender = BlockChannel::new(BlockChannelConfig { slice_size: 0, ..config() });
    assert!(matches!(sender.send_message(payload(1)), Err(RenetError::MessageSizeAboveLimit)));
    sender.send_message(vec![]).unwrap();
    let mut sender = BlockChannel::new(BlockChannelConfig { max_slices: 0, ..config() });
    assert!(matches!(sender.send_message(vec![]), Err(RenetError::MessageSizeAboveLimit)));
}

#[test]
fn message_without_bytes_travels_in_one_slice() {
    let mut sender = BlockChannel::new(config());
    let mut receiver = BlockChannel::new(config());
    sender.send_message(vec![]).unwrap();
    let slices = sender.get_messages_to_send(0, 0);
    assert_eq!(slices, vec![slice(0, 0, 1, &[])]);
    receiver.process_messages(slices);
    assert_eq!(receiver.receive_message(), Some(vec![]));
    sender.process_ack(AckData::new(0));
    assert!(!sender.sending());
}

#[test]
fn slices_in_any_order_make_the_message() {
    let message = payload(47);
    let mut sender = BlockChannel::new(BlockChannelConfig { slices_per_packet: 10, ..config() });
    sender.send_message(message.clone()).unwrap();
    let slices = sender.get_messages_to_send(0, 0);
    assert_eq!(slices.len(), 5);
    let mut receiver = BlockChannel::new(config());
    for i in [4usize, 1, 3, 1, 0, 4] {
        receiver.process_message(slices[i].clone());
        assert_eq!(receiver.receive_message(), None);
    }
    receiver.process_message(slices[2].clone());
    assert_eq!(receiver.receive_message(), Some(message));
    assert!(!receiver.out_of_sync());
}

#[test]
fn slices_of_a_message_that_is_done_are_dropped() {
    let mut receiver = BlockChannel::new(config());
    receiver.process_message(slice(0, 0, 1, &[1, 2]));
    receiver.process_message(slice(0, 0, 1, &[1, 2]));
    receiver.process_message(slice(0, 0, 2, &[1, 2]));
    receiver.process_message(slice(5, 0, 1, &[9]));
    assert!(!receiver.out_of_sync());
    assert_eq!(receiver.receive_message(), Some(vec![1, 2]));
    assert_eq!(receiver.receive_message(), None);
    receiver.process_message(slice(1, 1, 2, &[4]));
    receiver.process_message(slice(0, 1, 2, &[7]));
    receiver.process_message(slice(1, 0, 2, &[3]));
    assert_eq!(receiver.receive_message(), Some(vec![3, 4]));
}

#[test]
fn another_number_of_slices_puts_the_channel_out_of_sync() {
    let mut receiver = BlockChannel::new(config());
    receiver.process_message(slice(0, 0, 3, &[1]));
    assert_eq!(receiver.disconnect_reason(), None);
    receiver.process_message(slice(0, 1, 4, &[2]));
    assert!(receiver.out_of_sync());
    assert_eq!(
        receiver.disconnect_reason(),
        Some(DisconnectionReason::ReliableChannelOutOfSync(2))
    );
    receiver.process_message(slice(0, 1, 3, &[2]));
    receiver.process_message(slice(0, 2, 3, &[3]));
    assert_eq!(receiver.receive_message(), None);
}

#[test]
fn slices_that_cannot_be_put_the_channel_out_of_sync() {
    let cases = [slice(0, 0, 0, &[]), slice(0, 3, 3, &[1]), slice(0, 0, 65, &[1])];
    for case in cases {
        let mut receiver = BlockChannel::new(config());
        receiver.process_message(case);
        assert!(receiver.out_of_sync());
    }
    let mut receiver = BlockChannel::new(config());
    receiver.process_message(slice(0, 63, 64, &[1]));
    assert!(!receiver.out_of_sync());
}

#[test]
fn messages_wait_in_the_order_in_which_they_were_completed() {
    let mut receiver = BlockChannel::new(config());
    receiver.process_messages(vec![
        slice(0, 0, 1, &[1]),
        slice(1, 1, 2, &[3]),
        slice(1, 0, 2, &[2]),
        slice(2, 0, 1, &[4]),
    ]);
    assert_eq!(receiver.receive_message(), Some(vec![1]));
    assert_eq!(receiver.receive_message(), Some(vec![2, 3]));
    assert_eq!(receiver.receive_message(), Some(vec![4]));
    assert_eq!(receiver.receive_message(), None);
}

#[test]
fn many_messages_one_after_the_other_over_a_lossy_link() {
    let mut sender = BlockChannel::new(BlockChannelConfig {
        slices_per_packet: 3,
        resend_time: 7,
        ..config()
    });
    let mut receiver = BlockChannel::new(config());
    let mut acks: Option<AckData> = None;
    let mut delivered = vec![];
    let mut sent = 0usize;
    let mut tick = 0u64;
    while delivered.len() < 40 && tick < 100_000 {
        if !sender.sending() && sent < 40 {
            sender.send_message(payload(sent * 13)).unwrap();
            sent += 1;
        }
        let sequence = tick as u16;
        let slices = sender.get_messages_to_send(sequence, tick);
        if tick % 5 != 2 {
            receiver.process_messages(slices);
            match acks.as_mut() {
                Some(ack_data) => ack_data.record(sequence),
                None => acks = Some(AckData::new(sequence)),
            }
        }
        while let Some(message) = receiver.receive_message() {
            delivered.push(message);
        }
        if let Some(ack_data) = acks {
            sender.process_ack(ack_data);
        }
        tick += 1;
    }
    assert!(!receiver.out_of_sync());
    assert_eq!((delivered.len(), sent, tick < 100_000), (40, 40, true));
    for (i, message) in delivered.iter().enumerate() {
        assert_eq!((i, message.len()), (i, i * 13));
        assert_eq!((i, message == &payload(i * 13)), (i, true));
    }
}

use renet::channel::reliable::ReliableMessage;
use renet::packet::{
    AckData, ChannelMessages, Fragment, Normal, Packet, ReliableChannelData,
    UnreliableChannelData,
};
use renet::reassembly_fragment::{
    build_fragments, build_packets, FragmentConfig, FragmentError, ReassemblyBuffer,
};

fn config() -> FragmentConfig {
    FragmentConfig {
        fragment_above: 40,
        fragment_size: 10,
        reassembly_buffer_size: 4,
        max_fragments: 32,
    }
}

fn messages(len: usize) -> ChannelMessages {
    ChannelMessages {
        reliable_channels_data: vec![ReliableChannelData {
            channel_id: 1,
            messages: vec![ReliableMessage { id: 9, payload: vec![1, 2, 3] }],
        }],
        unreliable_channels_data: vec![UnreliableChannelData {
            channel_id: 2,
            messages: vec![(0..len).map(|i| i as u8).collect()],
        }],
        block_channels_data: vec![],
    }
}

fn encoded(messages: &ChannelMessages) -> Vec<u8> {
    let packet = Packet::Normal(Normal {
        sequence: 0,
        ack_data: AckData { ack: 0, ack_bits: 0 },
        channel_messages: messages.clone(),
    });
    let mut bytes = vec![];
    packet.write(&mut bytes).unwrap();
    bytes[9..].to_vec()
}

fn fragments(len: usize, sequence: u16) -> Vec<Fragment> {
    build_fragments(&messages(len), sequence, AckData { ack: 3, ack_bits: 5 }, &config()).unwrap()
}

#[test]
fn fragments_are_the_pieces_of_the_encoded_messages() {
    let all = messages(30);
    let bytes = encoded(&all);
    assert_eq!(bytes.len(), 48);
    let built = fragments(30, 77);
    assert_eq!(built.len(), 5);
    for (i, fragment) in built.iter().enumerate() {
        assert_eq!(fragment.sequence, 77);
        assert_eq!(fragment.ack_data, AckData { ack: 3, ack_bits: 5 });
        assert_eq!(fragment.fragment_id, i as u8);
        assert_eq!(fragment.num_fragments, 5);
    }
    assert_eq!(built[0].payload, bytes[0..10].to_vec());
    assert_eq!(built[3].payload, bytes[30..40].to_vec());
    assert_eq!(built[4].payload, bytes[40..48].to_vec());
    let joined: Vec<u8> = built.iter().flat_map(|f| f.payload.clone()).collect();
    assert_eq!(joined, bytes);
}

#[test]
fn payload_of_exact_multiple_has_no_short_fragment() {
    let built = fragments(22, 0);
    assert_eq!(encoded(&messages(22)).len(), 40);
    assert_eq!(built.len(), 4);
    assert!(built.iter().all(|f| f.payload.len() == 10));
    let built = fragments(23, 0);
    assert_eq!(built.len(), 5);
    assert_eq!(built[4].payload.len(), 1);
}

#[test]
fn too_many_fragments_are_not_built() {
    let small = FragmentConfig { max_fragments: 4, ..config() };
    let ack = AckData { ack: 0, ack_bits: 0 };
    assert_eq!(build_fragments(&messages(22), 0, ack, &small).unwrap().len(), 4);
    assert!(matches!(
        build_fragments(&messages(23), 0, ack, &small),
        Err(FragmentError::MaximumFragmentsExceeded)
    ));
    let none = FragmentConfig { fragment_size: 0, ..config() };
    assert!(matches!(
        build_fragments(&messages(1), 0, ack, &none),
        Err(FragmentError::MaximumFragmentsExceeded)
    ));
    let most = FragmentConfig { fragment_size: 1, max_fragments: 255, ..config() };
    assert_eq!(build_fragments(&messages(237), 0, ack, &most).unwrap().len(), 255);
    assert!(matches!(
        build_fragments(&messages(238), 0, ack, &most),
        Err(FragmentError::MaximumFragmentsExceeded)
    ));
}

#[test]
fn fragments_out_of_order_with_a_duplicate_reassemble_once() {
    let all = messages(30);
    let built = fragments(30, 11);
    let mut buffer = ReassemblyBuffer::new(config());
    assert_eq!(buffer.handle_fragment(built[3].clone()).unwrap(), None);
    assert_eq!(buffer.handle_fragment(built[0].clone()).unwrap(), None);
    assert!(matches!(
        buffer.handle_fragment(built[3].clone()),
        Err(FragmentError::FragmentAlreadyProcessed)
    ));
    assert_eq!(buffer.handle_fragment(built[4].clone()).unwrap(), None);
    let beyond = Fragment { fragment_id: 5, ..built[1].clone() };
    assert!(matches!(
        buffer.handle_fragment(beyond),
        Err(FragmentError::MaximumFragmentsExceeded)
    ));
    assert_eq!(buffer.handle_fragment(built[1].clone()).unwrap(), None);
    assert_eq!(buffer.handle_fragment(built[2].clone()).unwrap(), Some(all));
    assert_eq!(buffer.handle_fragment(built[2].clone()).unwrap(), None);
}

#[test]
fn every_order_of_three_fragments_reassembles() {
    let all = messages(10);
    let built = fragments(10, 5);
    assert_eq!(built.len(), 3);
    let orders = [[0, 1, 2], [0, 2, 1], [1, 0, 2], [1, 2, 0], [2, 0, 1], [2, 1, 0]];
    for order in orders {
        let mut buffer = ReassemblyBuffer::new(config());
        assert_eq!(buffer.handle_fragment(built[order[0]].clone()).unwrap(), None);
        assert_eq!(buffer.handle_fragment(built[order[1]].clone()).unwrap(), None);
        assert_eq!(buffer.handle_fragment(built[order[2]].clone()).unwrap(), Some(all.clone()));
    }
}

#[test]
fn packet_of_one_fragment_is_handed_out_at_once() {
    let all = messages(0);
    let built = fragments(0, 1);
    assert_eq!(built.len(), 2);
    let one = FragmentConfig { fragment_size: 100, ..config() };
    let built =
        build_fragments(&all, 1, AckData { ack: 0, ack_bits: 0 }, &one).unwrap();
    assert_eq!(built.len(), 1);
    let mut buffer = ReassemblyBuffer::new(one);
    assert_eq!(buffer.handle_fragment(built[0].clone()).unwrap(), Some(all.clone()));
    assert_eq!(buffer.handle_fragment(built[0].clone()).unwrap(), Some(all));
}

#[test]
fn fragment_with_another_total_is_refused() {
    let built = fragments(30, 11);
    let mut buffer = ReassemblyBuffer::new(config());
    assert_eq!(buffer.handle_fragment(built[0].clone()).unwrap(), None);
    let other = Fragment { num_fragments: 6, ..built[1].clone() };
    assert!(matches!(buffer.handle_fragment(other), Err(FragmentError::InvalidNumberFragment)));
    let other = Fragment { num_fragments: 6, fragment_id: 200, ..built[1].clone() };
    assert!(matches!(buffer.handle_fragment(other), Err(FragmentError::InvalidNumberFragment)));
    for fragment in built[1..4].iter() {
        assert_eq!(buffer.handle_fragment(fragment.clone()).unwrap(), None);
    }
    assert_eq!(buffer.handle_fragment(built[4].clone()).unwrap(), Some(messages(30)));
}

#[test]
fn more_fragments_than_allowed_are_refused() {
    let mut buffer = ReassemblyBuffer::new(config());
    let fragment = Fragment {
        sequence: 1,
        ack_data: AckData { ack: 0, ack_bits: 0 },
        fragment_id: 0,
        num_fragments: 33,
        payload: vec![1],
    };
    assert!(matches!(
        buffer.handle_fragment(fragment.clone()),
        Err(FragmentError::MaximumFragmentsExceeded)
    ));
    let allowed = Fragment { num_fragments: 32, ..fragment.clone() };
    assert_eq!(buffer.handle_fragment(allowed).unwrap(), None);
    let none = Fragment { num_fragments: 0, sequence: 2, ..fragment };
    assert!(matches!(
        buffer.handle_fragment(none),
        Err(FragmentError::MaximumFragmentsExceeded)
    ));
}

#[test]
fn buffer_without_room_finds_no_place() {
    let built = fragments(30, 11);
    let mut buffer =
        ReassemblyBuffer::new(FragmentConfig { reassembly_buffer_size: 0, ..config() });
    assert!(matches!(
        buffer.handle_fragment(built[0].clone()),
        Err(FragmentError::CouldNotFindFragment)
    ));
}

#[test]
fn oldest_reassembly_makes_room_for_a_new_packet() {
    let mut buffer = ReassemblyBuffer::new(config());
    for sequence in 0..4u16 {
        let built = fragments(30, sequence);
        assert_eq!(buffer.handle_fragment(built[0].clone()).unwrap(), None);
    }
    let newest = fragments(30, 4);
    assert_eq!(buffer.handle_fragment(newest[0].clone()).unwrap(), None);
    let oldest = fragments(30, 0);
    for fragment in oldest[1..].iter() {
        assert_eq!(buffer.handle_fragment(fragment.clone()).unwrap(), None);
    }
    assert_eq!(buffer.handle_fragment(oldest[0].clone()).unwrap(), Some(messages(30)));
    let second = fragments(30, 2);
    for fragment in second[1..4].iter() {
        assert_eq!(buffer.handle_fragment(fragment.clone()).unwrap(), None);
    }
    assert_eq!(buffer.handle_fragment(second[4].clone()).unwrap(), Some(messages(30)));
}

#[test]
fn two_packets_reassemble_side_by_side() {
    let first = fragments(30, 1);
    let second = build_fragments(&messages(12), 2, AckData { ack: 0, ack_bits: 0 }, &config())
        .unwrap();
    assert_eq!(second.len(), 3);
    let mut buffer = ReassemblyBuffer::new(config());
    assert_eq!(buffer.handle_fragment(first[0].clone()).unwrap(), None);
    assert_eq!(buffer.handle_fragment(second[2].clone()).unwrap(), None);
    assert_eq!(buffer.handle_fragment(first[4].clone()).unwrap(), None);
    assert_eq!(buffer.handle_fragment(second[0].clone()).unwrap(), None);
    assert_eq!(buffer.handle_fragment(first[2].clone()).unwrap(), None);
    assert_eq!(buffer.handle_fragment(second[1].clone()).unwrap(), Some(messages(12)));
    assert_eq!(buffer.handle_fragment(first[1].clone()).unwrap(), None);
    assert_eq!(buffer.handle_fragment(first[3].clone()).unwrap(), Some(messages(30)));
}

#[test]
fn pieces_that_do_not_make_a_packet_are_truncated() {
    let mut buffer = ReassemblyBuffer::new(config());
    let fragment = Fragment {
        sequence: 1,
        ack_data: AckData { ack: 0, ack_bits: 0 },
        fragment_id: 0,
        num_fragments: 1,
        payload: vec![1, 5],
    };
    match buffer.handle_fragment(fragment) {
        Err(FragmentError::IOError(e)) => assert_eq!(e.kind(), std::io::ErrorKind::UnexpectedEof),
        other => panic!("{:?}", other),
    }
}

#[test]
fn buffer_that_is_no_fragment_has_an_invalid_header() {
    let mut buffer = ReassemblyBuffer::new(config());
    assert!(matches!(buffer.handle_payload(&[]), Err(FragmentError::InvalidHeaderType)));
    assert!(matches!(
        buffer.handle_payload(&[0, 0, 0, 0, 0, 0, 0, 0, 0, 0, 0, 0]),
        Err(FragmentError::InvalidHeaderType)
    ));
    assert!(matches!(
        buffer.handle_payload(&[2, 0, 0, 0, 0, 0, 0]),
        Err(FragmentError::InvalidHeaderType)
    ));
    assert!(matches!(buffer.handle_payload(&[3, 1, 0]), Err(FragmentError::InvalidHeaderType)));
    assert!(matches!(buffer.handle_payload(&[9, 1, 0]), Err(FragmentError::InvalidHeaderType)));
    assert!(matches!(buffer.handle_payload(&[1, 0, 0, 0]), Err(FragmentError::IOError(_))));
}

#[test]
fn fragments_travel_as_bytes() {
    let all = messages(30);
    let built = fragments(30, 300);
    let mut buffer = ReassemblyBuffer::new(config());
    let mut result = None;
    for fragment in built.into_iter().rev() {
        let mut bytes = vec![];
        Packet::Fragment(fragment).write(&mut bytes).unwrap();
        assert_eq!(result, None);
        result = buffer.handle_payload(&bytes).unwrap();
    }
    assert_eq!(result, Some(all));
}

#[test]
fn small_packet_is_sent_whole_and_large_one_in_fragments() {
    let small = Normal {
        sequence: 8,
        ack_data: AckData { ack: 1, ack_bits: 2 },
        channel_messages: messages(15),
    };
    let mut bytes = vec![];
    Packet::Normal(small.clone()).write(&mut bytes).unwrap();
    assert_eq!(bytes.len(), 42);
    assert!(matches!(build_packets(small.clone(), &config()), Ok(ref p) if p.len() == 4));
    let wide = FragmentConfig { fragment_above: 42, ..config() };
    assert_eq!(build_packets(small.clone(), &wide).unwrap(), vec![Packet::Normal(small.clone())]);
    let narrow = FragmentConfig { fragment_above: 41, ..config() };
    let packets = build_packets(small.clone(), &narrow).unwrap();
    let expected: Vec<Packet> = build_fragments(
        &small.channel_messages,
        8,
        AckData { ack: 1, ack_bits: 2 },
        &narrow,
    )
    .unwrap()
    .into_iter()
    .map(Packet::Fragment)
    .collect();
    assert_eq!(packets, expected);
    let tight = FragmentConfig { fragment_above: 0, max_fragments: 2, ..config() };
    assert!(matches!(
        build_packets(small, &tight),
        Err(FragmentError::MaximumFragmentsExceeded)
    ));
}

use renet::channel::block::SliceMessage;
use renet::channel::reliable::ReliableMessage;
use renet::packet::{AckData, UnreliableChannelData};
use renet::pieces::{all_received, join_pieces, split_payload};
use renet::wire::{
    low16, low8, measure_all, measure_list16, measure_list8, read_list16, read_list8, read_n,
    write_all, write_bytes, write_list16, write_list8, write_u16, write_u32, write_u8, WireFormat,
};

#[test]
fn integers_are_written_low_byte_first() {
    let mut out = vec![9];
    write_u8(&mut out, 0xab);
    write_u16(&mut out, 0x0102);
    write_u32(&mut out, 0x0304_0506);
    write_bytes(&mut out, &[7, 8]);
    assert_eq!(out, vec![9, 0xab, 2, 1, 6, 5, 4, 3, 7, 8]);
    let mut out = vec![];
    write_u16(&mut out, u16::MAX);
    write_u32(&mut out, u32::MAX);
    write_u16(&mut out, 0);
    write_u32(&mut out, 0);
    assert_eq!(out, vec![255, 255, 255, 255, 255, 255, 0, 0, 0, 0, 0, 0]);
}

#[test]
fn prefixes_hold_the_low_bits_of_a_length() {
    assert_eq!(low16(0), 0);
    assert_eq!(low16(65535), 65535);
    assert_eq!(low16(65536), 0);
    assert_eq!(low16(65536 + 513), 513);
    assert_eq!(low8(255), 255);
    assert_eq!(low8(256), 0);
    assert_eq!(low8(1000), 232);
}

#[test]
fn payload_is_framed_by_its_length() {
    let payload: Vec<u8> = vec![5, 6, 7];
    let mut out = vec![];
    payload.write(&mut out);
    assert_eq!(out, vec![3, 0, 5, 6, 7]);
    assert_eq!(payload.measure(), 5);
    out.push(99);
    let mut src = out.as_slice();
    assert_eq!(<Vec<u8> as WireFormat>::read(&mut src).unwrap(), payload);
    assert_eq!(src, &[99]);
    let mut short = &out[..4];
    assert!(<Vec<u8> as WireFormat>::read(&mut short).is_err());
    assert_eq!(short.len(), 4);
    let empty: Vec<u8> = vec![];
    assert_eq!(empty.measure(), 2);
}

#[test]
fn records_are_measured_written_and_read_alike() {
    let reliable = ReliableMessage { id: 0x0a0b, payload: vec![1, 2] };
    let mut out = vec![];
    reliable.write(&mut out);
    assert_eq!(out, vec![0x0b, 0x0a, 2, 0, 1, 2]);
    assert_eq!(reliable.measure(), 6);
    assert_eq!(ReliableMessage::read(&mut out.as_slice()).unwrap(), reliable);

    let slice = SliceMessage { chunk_id: 1, slice_id: 2, num_slices: 3, payload: vec![4] };
    let mut out = vec![];
    slice.write(&mut out);
    assert_eq!(out, vec![1, 0, 2, 0, 0, 0, 3, 0, 0, 0, 1, 0, 4]);
    assert_eq!(slice.measure(), 13);
    assert_eq!(SliceMessage::read(&mut out.as_slice()).unwrap(), slice);

    let ack_data = AckData { ack: 258, ack_bits: 1 };
    let mut out = vec![];
    ack_data.write(&mut out);
    assert_eq!(out, vec![2, 1, 1, 0, 0, 0]);
    assert_eq!(ack_data.measure(), 6);
    assert_eq!(AckData::read(&mut out.as_slice()).unwrap(), ack_data);

    let channel = UnreliableChannelData { channel_id: 7, messages: vec![vec![1], vec![]] };
    let mut out = vec![];
    channel.write(&mut out);
    assert_eq!(out, vec![7, 2, 0, 1, 0, 1, 0, 0]);
    assert_eq!(channel.measure(), 8);
    assert_eq!(UnreliableChannelData::read(&mut out.as_slice()).unwrap(), channel);
}

#[test]
fn lists_carry_their_count() {
    let items: Vec<Vec<u8>> = vec![vec![1], vec![2, 3]];
    let mut plain = vec![];
    write_all(&items, &mut plain);
    assert_eq!(plain, vec![1, 0, 1, 2, 0, 2, 3]);
    assert_eq!(measure_all(&items), 7);
    let mut wide = vec![];
    write_list16(&items, &mut wide);
    assert_eq!(wide, vec![2, 0, 1, 0, 1, 2, 0, 2, 3]);
    assert_eq!(measure_list16(&items), 9);
    let mut narrow = vec![];
    write_list8(&items, &mut narrow);
    assert_eq!(narrow, vec![2, 1, 0, 1, 2, 0, 2, 3]);
    assert_eq!(measure_list8(&items), 8);

    assert_eq!(read_n::<Vec<u8>>(&mut plain.as_slice(), 2).unwrap(), items);
    assert_eq!(read_n::<Vec<u8>>(&mut plain.as_slice(), 1).unwrap(), vec![vec![1]]);
    let mut src = plain.as_slice();
    assert!(read_n::<Vec<u8>>(&mut src, 3).is_err());
    assert_eq!(src.len(), 7);
    assert_eq!(read_list16::<Vec<u8>>(&mut wide.as_slice()).unwrap(), items);
    assert_eq!(read_list8::<Vec<u8>>(&mut narrow.as_slice()).unwrap(), items);
    assert!(read_list16::<Vec<u8>>(&mut &wide[..8]).is_err());
    assert!(read_list8::<Vec<u8>>(&mut &narrow[..0]).is_err());
    let none: Vec<Vec<u8>> = vec![];
    assert_eq!(read_list8::<Vec<u8>>(&mut [0u8].as_slice()).unwrap(), none);
}

#[test]
fn payloads_are_cut_into_pieces_and_joined_again() {
    let payload: Vec<u8> = (0..25).collect();
    let pieces = split_payload(&payload, 10, 3).unwrap();
    assert_eq!(pieces, vec![(0..10).collect::<Vec<u8>>(), (10..20).collect(), (20..25).collect()]);
    assert_eq!(split_payload(&payload, 10, 2), None);
    assert_eq!(split_payload(&payload, 25, 1).unwrap(), vec![payload.clone()]);
    assert_eq!(split_payload(&payload, 100, 1).unwrap(), vec![payload.clone()]);
    assert_eq!(split_payload(&payload, 1, 25).unwrap().len(), 25);
    assert_eq!(split_payload(&payload, 0, 5).unwrap().len(), 0);
    assert_eq!(split_payload(&vec![], 10, 0).unwrap().len(), 0);

    let mut places: Vec<Option<Vec<u8>>> = pieces.into_iter().map(Some).collect();
    assert!(all_received(&places));
    assert_eq!(join_pieces(&places), payload);
    places[1] = None;
    assert!(!all_received(&places));
    assert_eq!(join_pieces(&places).len(), 15);
    assert!(all_received(&vec![]));
    assert_eq!(join_pieces(&vec![]), Vec::<u8>::new());
}

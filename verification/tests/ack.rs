use renet::packet::AckData;

fn confirmed(ack_data: &AckData) -> Vec<u16> {
    let mut all = vec![];
    for sequence in 0..=u16::MAX {
        if ack_data.confirms(sequence) {
            all.push(sequence);
        }
    }
    all
}

fn steps_back(ack: u16, sequence: u16) -> u16 {
    ack.wrapping_sub(sequence)
}

#[test]
fn ack_100_with_bits_0_2_5_confirms_four_packets() {
    let ack_data = AckData { ack: 100, ack_bits: (1 << 0) | (1 << 2) | (1 << 5) };
    assert_eq!(confirmed(&ack_data), vec![94, 97, 99, 100]);
    let mut others = 0;
    for back in 0..=32u16 {
        let sequence = 100 - back;
        if ![100, 99, 97, 94].contains(&sequence) {
            assert!(!ack_data.confirms(sequence));
            others += 1;
        }
    }
    assert_eq!(others, 29);
}

#[test]
fn ack_without_bits_confirms_itself_only() {
    assert_eq!(confirmed(&AckData { ack: 7, ack_bits: 0 }), vec![7]);
    assert_eq!(confirmed(&AckData::new(65535)), vec![65535]);
    assert_eq!(AckData::new(12), AckData { ack: 12, ack_bits: 0 });
}

#[test]
fn ack_bits_count_round_the_sequence_space() {
    let ack_data = AckData { ack: 1, ack_bits: 0b111 };
    assert_eq!(confirmed(&ack_data), vec![0, 1, 65534, 65535]);
}

#[test]
fn highest_bit_is_32_steps_back() {
    let ack_data = AckData { ack: 1000, ack_bits: 1 << 31 };
    assert_eq!(confirmed(&ack_data), vec![968, 1000]);
    let all = AckData { ack: 40, ack_bits: u32::MAX };
    assert_eq!(confirmed(&all), (8..=40).collect::<Vec<u16>>());
    assert!(!all.confirms(7));
    assert!(!all.confirms(41));
}

#[test]
fn record_newer_sequence_moves_the_bits() {
    let mut ack_data = AckData::new(10);
    ack_data.record(11);
    assert_eq!(ack_data, AckData { ack: 11, ack_bits: 0b1 });
    ack_data.record(13);
    assert_eq!(ack_data, AckData { ack: 13, ack_bits: 0b110 });
    assert_eq!(confirmed(&ack_data), vec![10, 11, 13]);
}

#[test]
fn record_older_sequence_sets_its_bit() {
    let mut ack_data = AckData::new(50);
    ack_data.record(47);
    assert_eq!(ack_data, AckData { ack: 50, ack_bits: 0b100 });
    ack_data.record(18);
    assert_eq!(ack_data, AckData { ack: 50, ack_bits: 0b100 | (1 << 31) });
    ack_data.record(17);
    assert_eq!(ack_data, AckData { ack: 50, ack_bits: 0b100 | (1 << 31) });
    ack_data.record(50);
    assert_eq!(ack_data, AckData { ack: 50, ack_bits: 0b100 | (1 << 31) });
}

#[test]
fn record_far_ahead_forgets_what_was_before() {
    let mut ack_data = AckData { ack: 5, ack_bits: u32::MAX };
    ack_data.record(37);
    assert_eq!(ack_data, AckData { ack: 37, ack_bits: 1 << 31 });
    let mut ack_data = AckData { ack: 5, ack_bits: u32::MAX };
    ack_data.record(38);
    assert_eq!(ack_data, AckData { ack: 38, ack_bits: 0 });
    let mut ack_data = AckData { ack: 5, ack_bits: u32::MAX };
    ack_data.record(36);
    assert_eq!(ack_data, AckData { ack: 36, ack_bits: 0xC000_0000 });
}

#[test]
fn record_across_the_wrap() {
    let mut ack_data = AckData::new(65534);
    ack_data.record(1);
    assert_eq!(ack_data, AckData { ack: 1, ack_bits: 0b100 });
    ack_data.record(65535);
    assert_eq!(confirmed(&ack_data), vec![1, 65534, 65535]);
    ack_data.record(0);
    assert_eq!(ack_data, AckData { ack: 1, ack_bits: 0b111 });
}

#[test]
fn record_half_the_range_ahead_counts_as_older() {
    let mut ack_data = AckData::new(0);
    ack_data.record(0x8000);
    assert_eq!(ack_data, AckData::new(0));
    ack_data.record(0x7fff);
    assert_eq!(ack_data, AckData::new(0x7fff));
}

#[test]
fn record_keeps_what_lies_within_reach() {
    let starts = [
        AckData { ack: 100, ack_bits: 0 },
        AckData { ack: 100, ack_bits: 0b1011 },
        AckData { ack: 3, ack_bits: 0x8000_0001 },
        AckData { ack: 65530, ack_bits: u32::MAX },
    ];
    for start in starts {
        for delta in [0u16, 1, 2, 5, 31, 32, 33, 34, 100, 0x7fff, 0x8000, 0xffff, 0xffe0, 0xffdf] {
            let sequence = start.ack.wrapping_add(delta);
            let mut after = start;
            after.record(sequence);
            let newer = 1 <= delta && delta < 0x8000;
            assert_eq!(after.ack, if newer { sequence } else { start.ack });
            for s in 0..=u16::MAX {
                let expected =
                    (s == sequence || start.confirms(s)) && steps_back(after.ack, s) <= 32;
                assert_eq!(after.confirms(s), expected);
            }
        }
    }
}

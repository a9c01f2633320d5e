//! Acknowledgement of packets by their sequence numbers.
//!
//! Sequence numbers count round 16 bits. Ack data names one sequence number,
//! `ack`, and holds one bit for each of the 32 numbers before it: bit 0 for
//! `ack - 1`, bit 31 for `ack - 32`.
use vstd::prelude::*;
use crate::packet::AckData;

verus! {

/// How many steps `sequence` lies before `ack`, counted round the 16 bits:
/// from 0, for `ack` itself, to 65535, for `ack + 1`.
pub open spec fn steps_back(ack: u16, sequence: u16) -> int {
    if ack >= sequence {
        ack - sequence
    } else {
        ack - sequence + 0x1_0000
    }
}

/// Whether `sequence` is ahead of `ack` by less than half the range.
pub open spec fn is_newer(sequence: u16, ack: u16) -> bool {
    1 <= steps_back(sequence, ack) < 0x8000
}

/// Whether bit `i` of `bits` is set, bit 0 being the lowest.
pub open spec fn bit_is_set(bits: u32, i: int) -> bool {
    (bits >> (i as u32)) & 1 == 1
}

proof fn lemma_no_bit_of_zero(i: u32)
    by (bit_vector)
    requires
        i < 32,
    ensures
        (0u32 >> i) & 1 != 1,
{
}

proof fn lemma_top_bit(i: u32)
    by (bit_vector)
    requires
        i < 32,
    ensures
        ((1u32 << 31) >> i) & 1 == 1 <==> i == 31,
{
}

proof fn lemma_bit_after_set(bits: u32, k: u32, i: u32)
    by (bit_vector)
    requires
        k < 32,
        i < 32,
    ensures
        ((bits | (1u32 << k)) >> i) & 1 == 1 <==> i == k || (bits >> i) & 1 == 1,
{
}

proof fn lemma_bit_after_shift(bits: u32, d: u32, k: u32, i: u32, j: u32)
    by (bit_vector)
    requires
        d < 32,
        k + 1 == d,
        i < 32,
        j < 32,
        i >= d ==> j + d == i,
    ensures
        (((bits << d) | (1u32 << k)) >> i) & 1 == 1 <==> i == k || (i >= d && (bits >> j) & 1 == 1),
{
}

impl AckData {
    /// Whether the ack data tells that the packet `sequence` was received:
    /// it is `ack` itself, or one of the 32 before it whose bit is set.
    pub open spec fn spec_confirms(&self, sequence: u16) -> bool {
        let back = steps_back(self.ack, sequence);
        back == 0 || (1 <= back <= 32 && bit_is_set(self.ack_bits, back - 1))
    }

    /// Whether the ack data tells that the packet `sequence` was received.
    #[verifier::when_used_as_spec(spec_confirms)]
    pub fn confirms(&self, sequence: u16) -> (confirmed: bool)
        ensures
            confirmed == self.spec_confirms(sequence),
    {
        let back: u16 = self.ack.wrapping_sub(sequence);
        if back == 0 {
            true
        } else if back <= 32 {
            let shift: u32 = (back - 1) as u32;
            (self.ack_bits >> shift) & 1 == 1
        } else {
            false
        }
    }

    /// Ack data that confirms `sequence` and no other packet.
    pub fn new(sequence: u16) -> (ack_data: AckData)
        ensures
            ack_data == (AckData { ack: sequence, ack_bits: 0 }),
            forall|s: u16| ack_data.spec_confirms(s) <==> s == sequence,
    {
        let ack_data = AckData { ack: sequence, ack_bits: 0 };
        assert forall|s: u16| ack_data.spec_confirms(s) <==> s == sequence by {
            let back = steps_back(sequence, s);
            if 1 <= back <= 32 {
                lemma_no_bit_of_zero((back - 1) as u32);
            }
        }
        ack_data
    }

    /// Takes note that the packet `sequence` was received. Where it is newer
    /// than `ack` it becomes `ack`, and the bits move up to make room. What
    /// is confirmed afterwards is what was confirmed before and `sequence`, as
    /// far as it lies within 32 steps of the new `ack`.
    pub fn record(&mut self, sequence: u16)
        ensures
            final(self).ack == (if is_newer(sequence, old(self).ack) {
                sequence
            } else {
                old(self).ack
            }),
            forall|s: u16|
                final(self).spec_confirms(s) <==> (s == sequence || old(self).spec_confirms(s))
                    && steps_back(final(self).ack, s) <= 32,
    {
        let ahead: u16 = sequence.wrapping_sub(self.ack);
        if ahead == 0 {
        } else if ahead < 0x8000 {
            let bits: u32 = self.ack_bits;
            if ahead > 32 {
                self.ack_bits = 0;
            } else if ahead == 32 {
                self.ack_bits = 1u32 << 31;
            } else {
                self.ack_bits = (bits << (ahead as u32)) | (1u32 << ((ahead - 1) as u32));
            }
            self.ack = sequence;
            assert forall|s: u16|
                self.spec_confirms(s) <==> (s == sequence || old(self).spec_confirms(s))
                    && steps_back(self.ack, s) <= 32 by {
                let back = steps_back(sequence, s);
                if 1 <= back <= 32 {
                    let i = (back - 1) as u32;
                    if ahead > 32 {
                        lemma_no_bit_of_zero(i);
                    } else if ahead == 32 {
                        lemma_top_bit(i);
                    } else {
                        let j = if i >= ahead { (i - ahead) as u32 } else { 0u32 };
                        lemma_bit_after_shift(bits, ahead as u32, (ahead - 1) as u32, i, j);
                    }
                }
            }
        } else {
            let back: u16 = self.ack.wrapping_sub(sequence);
            if back <= 32 {
                let bits: u32 = self.ack_bits;
                self.ack_bits = bits | (1u32 << ((back - 1) as u32));
                assert forall|s: u16|
                    self.spec_confirms(s) <==> (s == sequence || old(self).spec_confirms(s))
                        && steps_back(self.ack, s) <= 32 by {
                    let b = steps_back(self.ack, s);
                    if 1 <= b <= 32 {
                        lemma_bit_after_set(bits, (back - 1) as u32, (b - 1) as u32);
                    }
                }
            }
        }
    }
}

} // verus!

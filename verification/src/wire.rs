//! The wire format: how integers, byte strings and lists of records are laid
//! out, stated once as functions on byte sequences and met by the three passes
//! that measure, write and read.
//!
//! All integers are little-endian and of fixed width. A byte string is framed by
//! its length in 16 bits; a list of records by its count, in 8 or 16 bits,
//! followed by the records.
use vstd::arithmetic::div_mod::lemma_fundamental_div_mod_converse;
use vstd::prelude::*;
use vstd::slice::{slice_subrange, slice_to_vec};
use crate::packet::{read_u16, read_u8, unexpected_eof, Payload};

verus! {

/// The two bytes of `x`, low byte first.
pub open spec fn le_u16(x: u16) -> Seq<u8> {
    seq![(x % 256) as u8, (x / 256) as u8]
}

/// The four bytes of `x`, low byte first.
pub open spec fn le_u32(x: u32) -> Seq<u8> {
    seq![
        (x % 256) as u8,
        (x / 256 % 256) as u8,
        (x / 65536 % 256) as u8,
        (x / 16777216) as u8,
    ]
}

/// The eight bytes of `x`, low byte first.
pub open spec fn le_u64(x: u64) -> Seq<u8> {
    le_u32((x % 0x1_0000_0000) as u32) + le_u32((x / 0x1_0000_0000) as u32)
}

/// The number that the first two bytes of `bytes` hold.
pub open spec fn u16_from_le(bytes: Seq<u8>) -> u16
    recommends
        bytes.len() >= 2,
{
    (bytes[0] + 256 * bytes[1]) as u16
}

/// The number that the first four bytes of `bytes` hold.
pub open spec fn u32_from_le(bytes: Seq<u8>) -> u32
    recommends
        bytes.len() >= 4,
{
    (bytes[0] + 256 * bytes[1] + 65536 * bytes[2] + 16777216 * bytes[3]) as u32
}

/// The number that the first eight bytes of `bytes` hold.
pub open spec fn u64_from_le(bytes: Seq<u8>) -> u64
    recommends
        bytes.len() >= 8,
{
    (u32_from_le(bytes) + 0x1_0000_0000 * u32_from_le(bytes.skip(4))) as u64
}

/// The low 16 bits of a length: what a 16-bit prefix holds of it.
pub open spec fn count16(n: nat) -> u16 {
    (n % 0x1_0000) as u16
}

/// The low 8 bits of a count: what an 8-bit prefix holds of it.
pub open spec fn count8(n: nat) -> u8 {
    (n % 0x100) as u8
}

/// What follows the first part of a concatenation is its second part.
pub proof fn lemma_skip_concat(a: Seq<u8>, b: Seq<u8>)
    ensures
        (a + b).skip(a.len() as int) == b,
        (a + b).subrange(0, a.len() as int) == a,
{
    assert((a + b).skip(a.len() as int) =~= b);
    assert((a + b).subrange(0, a.len() as int) =~= a);
}

/// Concatenation may be bracketed either way.
pub proof fn lemma_concat_assoc(a: Seq<u8>, b: Seq<u8>, c: Seq<u8>)
    ensures
        (a + b) + c == a + (b + c),
{
    assert((a + b) + c =~= a + (b + c));
}

/// Skipping twice is skipping the sum.
pub proof fn lemma_skip_skip(bytes: Seq<u8>, a: int, b: int)
    requires
        0 <= a,
        0 <= b,
        a + b <= bytes.len(),
    ensures
        bytes.skip(a).skip(b) == bytes.skip(a + b),
{
    assert(bytes.skip(a).skip(b) =~= bytes.skip(a + b));
}

/// The first `n` bytes are the first `a` of them and the `n - a` that follow.
pub proof fn lemma_take_split(bytes: Seq<u8>, a: int, n: int)
    requires
        0 <= a <= n <= bytes.len(),
    ensures
        bytes.subrange(0, n) == bytes.subrange(0, a) + bytes.skip(a).subrange(0, n - a),
{
    assert(bytes.subrange(0, n) =~= bytes.subrange(0, a) + bytes.skip(a).subrange(0, n - a));
}

/// Reading back what was written gives the number again, whatever follows.
pub proof fn lemma_u16_round_trip(x: u16, rest: Seq<u8>)
    ensures
        le_u16(x).len() == 2,
        u16_from_le(le_u16(x) + rest) == x,
{
}

/// The first two bytes are the encoding of the number they hold.
pub proof fn lemma_u16_bytes(bytes: Seq<u8>)
    requires
        bytes.len() >= 2,
    ensures
        le_u16(u16_from_le(bytes)) == bytes.subrange(0, 2),
{
    let x = bytes[0] + 256 * bytes[1];
    lemma_fundamental_div_mod_converse(x, 256, bytes[1] as int, bytes[0] as int);
    assert(le_u16(u16_from_le(bytes)) =~= bytes.subrange(0, 2));
}

/// Reading back what was written gives the number again, whatever follows.
pub proof fn lemma_u32_round_trip(x: u32, rest: Seq<u8>)
    ensures
        le_u32(x).len() == 4,
        u32_from_le(le_u32(x) + rest) == x,
{
    let q1 = x as int / 256;
    let q2 = q1 / 256;
    let q3 = q2 / 256;
    lemma_fundamental_div_mod_converse(x as int, 65536, q2, (q1 % 256) * 256 + x % 256);
    lemma_fundamental_div_mod_converse(
        x as int,
        16777216,
        q3,
        (q2 % 256) * 65536 + (q1 % 256) * 256 + x % 256,
    );
}

/// The first four bytes are the encoding of the number they hold.
pub proof fn lemma_u32_bytes(bytes: Seq<u8>)
    requires
        bytes.len() >= 4,
    ensures
        le_u32(u32_from_le(bytes)) == bytes.subrange(0, 4),
{
    let b0 = bytes[0] as int;
    let b1 = bytes[1] as int;
    let b2 = bytes[2] as int;
    let b3 = bytes[3] as int;
    let x = b0 + 256 * b1 + 65536 * b2 + 16777216 * b3;
    lemma_fundamental_div_mod_converse(x, 256, b1 + 256 * b2 + 65536 * b3, b0);
    lemma_fundamental_div_mod_converse(b1 + 256 * b2 + 65536 * b3, 256, b2 + 256 * b3, b1);
    lemma_fundamental_div_mod_converse(x, 65536, b2 + 256 * b3, b0 + 256 * b1);
    lemma_fundamental_div_mod_converse(b2 + 256 * b3, 256, b3, b2);
    lemma_fundamental_div_mod_converse(x, 16777216, b3, b0 + 256 * b1 + 65536 * b2);
    assert(le_u32(u32_from_le(bytes)) =~= bytes.subrange(0, 4));
}

/// Reading back what was written gives the number again, whatever follows.
pub proof fn lemma_u64_round_trip(x: u64, rest: Seq<u8>)
    ensures
        le_u64(x).len() == 8,
        u64_from_le(le_u64(x) + rest) == x,
{
    let low = (x % 0x1_0000_0000) as u32;
    let high = (x / 0x1_0000_0000) as u32;
    let bytes = le_u64(x) + rest;
    lemma_u32_round_trip(low, le_u32(high) + rest);
    lemma_u32_round_trip(high, rest);
    assert(bytes =~= le_u32(low) + (le_u32(high) + rest));
    assert(bytes.skip(4) =~= le_u32(high) + rest);
}

/// The first eight bytes are the encoding of the number they hold.
pub proof fn lemma_u64_bytes(bytes: Seq<u8>)
    requires
        bytes.len() >= 8,
    ensures
        le_u64(u64_from_le(bytes)) == bytes.subrange(0, 8),
{
    lemma_u32_bytes(bytes);
    lemma_u32_bytes(bytes.skip(4));
    let low = u32_from_le(bytes);
    let high = u32_from_le(bytes.skip(4));
    let x = low + 0x1_0000_0000 * high;
    lemma_fundamental_div_mod_converse(x, 0x1_0000_0000, high as int, low as int);
    assert(bytes.subrange(0, 8) =~= bytes.subrange(0, 4) + bytes.skip(4).subrange(0, 4));
}

/// Appends one byte.
pub fn write_u8(out: &mut Vec<u8>, x: u8)
    ensures
        final(out)@ == old(out)@ + seq![x],
{
    out.push(x);
    assert(out@ =~= old(out)@ + seq![x]);
}

/// Appends the two bytes of `x`, low byte first.
pub fn write_u16(out: &mut Vec<u8>, x: u16)
    ensures
        final(out)@ == old(out)@ + le_u16(x),
{
    out.push((x % 256) as u8);
    out.push((x / 256) as u8);
    assert(out@ =~= old(out)@ + le_u16(x));
}

/// Appends the four bytes of `x`, low byte first.
pub fn write_u32(out: &mut Vec<u8>, x: u32)
    ensures
        final(out)@ == old(out)@ + le_u32(x),
{
    out.push((x % 256) as u8);
    out.push((x / 256 % 256) as u8);
    out.push((x / 65536 % 256) as u8);
    out.push((x / 16777216) as u8);
    assert(out@ =~= old(out)@ + le_u32(x));
}

/// Appends `bytes` as they are.
pub fn write_bytes(out: &mut Vec<u8>, bytes: &[u8])
    ensures
        final(out)@ == old(out)@ + bytes@,
{
    out.extend_from_slice(bytes);
    assert(out@ =~= old(out)@ + bytes@);
}

/// What a 16-bit prefix holds of a length.
pub fn low16(n: usize) -> (low: u16)
    ensures
        low == count16(n as nat),
{
    let low: u16 = #[verifier::truncate]
    (n as u16);
    assert(n as u16 == n % 0x1_0000) by (bit_vector);
    low
}

/// What an 8-bit prefix holds of a count.
pub fn low8(n: usize) -> (low: u8)
    ensures
        low == count8(n as nat),
{
    let low: u8 = #[verifier::truncate]
    (n as u8);
    assert(n as u8 == n % 0x100) by (bit_vector);
    low
}

/// The number `n`, or the largest `usize` where `n` is larger.
pub open spec fn saturated(n: nat) -> usize {
    if n <= usize::MAX {
        n as usize
    } else {
        usize::MAX
    }
}

/// A record with a place in the wire format.
///
/// `wire` is the format itself. `size` is what the measuring pass computes and
/// `parse` what the reading pass computes; the three lemmas say that they
/// agree with `wire`. A value is `valid` when every length in it fits the prefix
/// that frames it: such a value is read back as it was written.
pub trait WireFormat: Sized + View {
    spec fn valid(v: Self::V) -> bool;

    spec fn wire(v: Self::V) -> Seq<u8>;

    spec fn size(v: Self::V) -> nat;

    /// The record at the start of `bytes` and the number of bytes it takes, or
    /// `None` where `bytes` ends too early.
    spec fn parse(bytes: Seq<u8>) -> Option<(Self::V, int)>;

    /// The measured size is the length of the encoding.
    proof fn lemma_size(v: Self::V)
        ensures
            Self::wire(v).len() == Self::size(v),
    ;

    /// A valid record is read back from its encoding, whatever follows it.
    proof fn lemma_parse_wire(v: Self::V, rest: Seq<u8>)
        requires
            Self::valid(v),
        ensures
            Self::parse(Self::wire(v) + rest) == Some((v, Self::wire(v).len() as int)),
    ;

    /// What is read is valid, and the bytes read are its encoding.
    proof fn lemma_wire_parse(bytes: Seq<u8>)
        ensures
            Self::parse(bytes) matches Some((v, n)) ==> Self::valid(v) && 0 <= n <= bytes.len()
                && bytes.subrange(0, n) == Self::wire(v),
    ;

    /// The size of the record; where it does not fit in `usize`, the
    /// largest `usize`.
    fn measure(&self) -> (size: usize)
        ensures
            size == saturated(Self::size(self@)),
    ;

    fn write(&self, out: &mut Vec<u8>)
        ensures
            final(out)@ == old(out)@ + Self::wire(self@),
    ;

    /// Takes one record from the front of `src`. Where `src` ends too early
    /// nothing is taken.
    fn read(src: &mut &[u8]) -> (r: Result<Self, std::io::Error>)
        ensures
            match r {
                Ok(value) => Self::parse(old(src)@) matches Some((v, n)) && v == value@
                    && final(src)@ == old(src)@.skip(n),
                Err(_) => Self::parse(old(src)@) is None && final(src)@ == old(src)@,
            },
    ;
}

/// The models of the values of a list.
pub open spec fn views<T: View>(items: Seq<T>) -> Seq<T::V> {
    items.map_values(|item: T| item@)
}

/// Whether every record of the list is valid.
pub open spec fn all_valid<T: WireFormat>(vs: Seq<T::V>) -> bool {
    forall|i: int| 0 <= i < vs.len() ==> T::valid(#[trigger] vs[i])
}

/// The encodings of the records of a list, one after the other.
#[verifier::opaque]
pub open spec fn wire_all<T: WireFormat>(vs: Seq<T::V>) -> Seq<u8>
    decreases vs.len(),
{
    if vs.len() == 0 {
        Seq::empty()
    } else {
        wire_all::<T>(vs.drop_last()) + T::wire(vs.last())
    }
}

/// The sizes of the records of a list, added up.
#[verifier::opaque]
pub open spec fn size_all<T: WireFormat>(vs: Seq<T::V>) -> nat
    decreases vs.len(),
{
    if vs.len() == 0 {
        0
    } else {
        size_all::<T>(vs.drop_last()) + T::size(vs.last())
    }
}

/// The first `n` records of `bytes` and the number of bytes they take, or
/// `None` where `bytes` ends before the last of them does.
#[verifier::opaque]
pub open spec fn parse_n<T: WireFormat>(bytes: Seq<u8>, n: nat) -> Option<(Seq<T::V>, int)>
    decreases n,
{
    if n == 0 {
        Some((Seq::empty(), 0))
    } else {
        match parse_n::<T>(bytes, (n - 1) as nat) {
            Some((vs, m)) => match T::parse(bytes.skip(m)) {
                Some((v, k)) => Some((vs.push(v), m + k)),
                None => None,
            },
            None => None,
        }
    }
}

/// The sizes of the records add up to the length of their encodings.
pub proof fn lemma_size_all<T: WireFormat>(vs: Seq<T::V>)
    ensures
        wire_all::<T>(vs).len() == size_all::<T>(vs),
    decreases vs.len(),
{
    reveal_with_fuel(wire_all, 2);
    reveal_with_fuel(size_all, 2);
    if vs.len() > 0 {
        lemma_size_all::<T>(vs.drop_last());
        T::lemma_size(vs.last());
    }
}

/// Valid records are read back from their encodings, whatever follows.
pub proof fn lemma_parse_n_wire<T: WireFormat>(vs: Seq<T::V>, rest: Seq<u8>)
    requires
        all_valid::<T>(vs),
    ensures
        parse_n::<T>(wire_all::<T>(vs) + rest, vs.len()) == Some(
            (vs, wire_all::<T>(vs).len() as int),
        ),
    decreases vs.len(),
{
    reveal_with_fuel(wire_all, 2);
    reveal_with_fuel(parse_n, 2);
    if vs.len() > 0 {
        let front = vs.drop_last();
        let last = vs.last();
        let bytes = wire_all::<T>(vs) + rest;
        let m = wire_all::<T>(front).len() as int;
        lemma_parse_n_wire::<T>(front, T::wire(last) + rest);
        assert(bytes =~= wire_all::<T>(front) + (T::wire(last) + rest));
        assert(bytes.skip(m) =~= T::wire(last) + rest);
        T::lemma_parse_wire(last, rest);
        assert(front.push(last) =~= vs);
    } else {
        assert(vs =~= Seq::empty());
    }
}

/// The records read are valid and as many as were asked for, and the bytes
/// read are their encodings.
pub proof fn lemma_wire_parse_n<T: WireFormat>(bytes: Seq<u8>, n: nat)
    ensures
        parse_n::<T>(bytes, n) matches Some((vs, m)) ==> vs.len() == n && all_valid::<T>(vs) && 0
            <= m <= bytes.len() && bytes.subrange(0, m) == wire_all::<T>(vs),
    decreases n,
{
    reveal_with_fuel(wire_all, 2);
    reveal_with_fuel(parse_n, 2);
    if n > 0 {
        lemma_wire_parse_n::<T>(bytes, (n - 1) as nat);
        if let Some((vs, m)) = parse_n::<T>(bytes, (n - 1) as nat) {
            T::lemma_wire_parse(bytes.skip(m));
            if let Some((v, k)) = T::parse(bytes.skip(m)) {
                let all = vs.push(v);
                assert(all.drop_last() =~= vs);
                assert(bytes.subrange(0, m + k) =~= bytes.subrange(0, m) + bytes.skip(m).subrange(
                    0,
                    k,
                ));
            }
        }
    } else {
        assert(bytes.subrange(0, 0) =~= Seq::<u8>::empty());
    }
}

/// Where the first records cannot be read, no longer list can.
pub proof fn lemma_parse_n_none<T: WireFormat>(bytes: Seq<u8>, i: nat, n: nat)
    requires
        i <= n,
        parse_n::<T>(bytes, i) is None,
    ensures
        parse_n::<T>(bytes, n) is None,
    decreases n,
{
    reveal_with_fuel(parse_n, 2);
    if i < n {
        lemma_parse_n_none::<T>(bytes, i, (n - 1) as nat);
    }
}

/// The size of the records of a list; where it does not fit in `usize`, the
/// largest `usize`.
pub fn measure_all<T: WireFormat>(items: &Vec<T>) -> (size: usize)
    ensures
        size == saturated(size_all::<T>(views(items@))),
{
    proof {
        reveal_with_fuel(size_all, 2);
    }
    let ghost vs = views(items@);
    let mut size: usize = 0;
    let mut i: usize = 0;
    while i < items.len()
        invariant
            i <= items.len(),
            vs == views(items@),
            size == saturated(size_all::<T>(vs.take(i as int))),
        decreases items.len() - i,
    {
        proof {
            reveal_with_fuel(size_all, 2);
            assert(vs.take(i + 1).drop_last() =~= vs.take(i as int));
        }
        size = size.saturating_add(items[i].measure());
        i += 1;
    }
    assert(vs.take(i as int) =~= vs);
    size
}

/// Appends the encodings of the records of a list, one after the other.
pub fn write_all<T: WireFormat>(items: &Vec<T>, out: &mut Vec<u8>)
    ensures
        final(out)@ == old(out)@ + wire_all::<T>(views(items@)),
{
    proof {
        reveal_with_fuel(wire_all, 2);
    }
    let ghost vs = views(items@);
    let mut i: usize = 0;
    while i < items.len()
        invariant
            i <= items.len(),
            vs == views(items@),
            out@ == old(out)@ + wire_all::<T>(vs.take(i as int)),
        decreases items.len() - i,
    {
        let ghost before = out@;
        items[i].write(out);
        proof {
            reveal_with_fuel(wire_all, 2);
            assert(vs.take(i + 1).drop_last() =~= vs.take(i as int));
            assert(out@ =~= old(out)@ + wire_all::<T>(vs.take(i + 1)));
        }
        i += 1;
    }
    assert(vs.take(i as int) =~= vs);
}

/// Takes `n` records from the front of `src`, or none of them where `src`
/// ends too early.
pub fn read_n<T: WireFormat>(src: &mut &[u8], n: usize) -> (r: Result<Vec<T>, std::io::Error>)
    ensures
        match r {
            Ok(items) => parse_n::<T>(old(src)@, n as nat) matches Some((vs, m)) && vs == views(
                items@,
            ) && final(src)@ == old(src)@.skip(m),
            Err(_) => parse_n::<T>(old(src)@, n as nat) is None && final(src)@ == old(src)@,
        },
{
    proof {
        reveal_with_fuel(parse_n, 2);
    }
    let mut cur: &[u8] = *src;
    let mut items: Vec<T> = Vec::with_capacity(n);
    let ghost mut taken: int = 0;
    let mut i: usize = 0;
    while i < n
        invariant
            i <= n,
            items@.len() == i,
            parse_n::<T>(old(src)@, i as nat) == Some((views(items@), taken)),
            0 <= taken <= old(src)@.len(),
            cur@ == old(src)@.skip(taken),
            src@ == old(src)@,
        decreases n - i,
    {
        let ghost before = views(items@);
        proof {
            reveal_with_fuel(parse_n, 2);
        }
        match T::read(&mut cur) {
            Ok(item) => {
                proof {
                    T::lemma_wire_parse(old(src)@.skip(taken));
                    let k = (T::parse(old(src)@.skip(taken))->0).1;
                    assert(old(src)@.skip(taken).skip(k) =~= old(src)@.skip(taken + k));
                    taken = taken + k;
                }
                items.push(item);
                assert(views(items@) =~= before.push(item@));
            },
            Err(e) => {
                proof {
                    lemma_parse_n_none::<T>(old(src)@, (i + 1) as nat, n as nat);
                }
                return Err(e);
            },
        }
        i += 1;
    }
    *src = cur;
    Ok(items)
}

/// A list of at most 65535 records: the count in 16 bits, then the records.
pub open spec fn list16_valid<T: WireFormat>(vs: Seq<T::V>) -> bool {
    vs.len() <= u16::MAX && all_valid::<T>(vs)
}

/// The list on the wire: its count in 16 bits, by its low bits where it does
/// not fit, then the records.
pub open spec fn list16_wire<T: WireFormat>(vs: Seq<T::V>) -> Seq<u8> {
    le_u16(count16(vs.len())) + wire_all::<T>(vs)
}

/// The size of the list on the wire.
pub open spec fn list16_size<T: WireFormat>(vs: Seq<T::V>) -> nat {
    2 + size_all::<T>(vs)
}

/// The list at the start of `bytes`, and the number of bytes it takes.
pub open spec fn list16_parse<T: WireFormat>(bytes: Seq<u8>) -> Option<(Seq<T::V>, int)> {
    if bytes.len() < 2 {
        None
    } else {
        match parse_n::<T>(bytes.skip(2), u16_from_le(bytes) as nat) {
            Some((vs, m)) => Some((vs, 2 + m)),
            None => None,
        }
    }
}

/// The measured size of a list is the length of its encoding.
pub proof fn lemma_list16_size<T: WireFormat>(vs: Seq<T::V>)
    ensures
        list16_wire::<T>(vs).len() == list16_size::<T>(vs),
{
    lemma_size_all::<T>(vs);
}

/// A valid list is read back from its encoding, whatever follows.
pub proof fn lemma_list16_parse_wire<T: WireFormat>(vs: Seq<T::V>, rest: Seq<u8>)
    requires
        list16_valid::<T>(vs),
    ensures
        list16_parse::<T>(list16_wire::<T>(vs) + rest) == Some(
            (vs, list16_wire::<T>(vs).len() as int),
        ),
{
    let bytes = list16_wire::<T>(vs) + rest;
    lemma_u16_round_trip(count16(vs.len()), wire_all::<T>(vs) + rest);
    assert(bytes =~= le_u16(count16(vs.len())) + (wire_all::<T>(vs) + rest));
    assert(bytes.skip(2) =~= wire_all::<T>(vs) + rest);
    lemma_parse_n_wire::<T>(vs, rest);
}

/// A list that is read is valid, and the bytes read are its encoding.
pub proof fn lemma_list16_wire_parse<T: WireFormat>(bytes: Seq<u8>)
    ensures
        list16_parse::<T>(bytes) matches Some((vs, n)) ==> list16_valid::<T>(vs) && 0 <= n
            <= bytes.len() && bytes.subrange(0, n) == list16_wire::<T>(vs),
{
    if let Some((vs, n)) = list16_parse::<T>(bytes) {
        lemma_u16_bytes(bytes);
        lemma_wire_parse_n::<T>(bytes.skip(2), u16_from_le(bytes) as nat);
        assert(bytes.subrange(0, n) =~= bytes.subrange(0, 2) + bytes.skip(2).subrange(0, n - 2));
    }
}

/// The size of the list on the wire; where it does not fit in `usize`, the
/// largest `usize`.
pub fn measure_list16<T: WireFormat>(items: &Vec<T>) -> (size: usize)
    ensures
        size == saturated(list16_size::<T>(views(items@))),
{
    measure_all(items).saturating_add(2)
}

/// Appends the encoding of the list.
pub fn write_list16<T: WireFormat>(items: &Vec<T>, out: &mut Vec<u8>)
    ensures
        final(out)@ == old(out)@ + list16_wire::<T>(views(items@)),
{
    write_u16(out, low16(items.len()));
    write_all(items, out);
    assert(out@ =~= old(out)@ + list16_wire::<T>(views(items@)));
}

/// Takes a list from the front of `src`, or nothing where `src` ends too
/// early.
pub fn read_list16<T: WireFormat>(src: &mut &[u8]) -> (r: Result<Vec<T>, std::io::Error>)
    ensures
        match r {
            Ok(items) => list16_parse::<T>(old(src)@) matches Some((vs, n)) && vs == views(items@)
                && final(src)@ == old(src)@.skip(n),
            Err(_) => list16_parse::<T>(old(src)@) is None && final(src)@ == old(src)@,
        },
{
    let mut cur: &[u8] = *src;
    let n = match read_u16(&mut cur) {
        Ok(n) => n as usize,
        Err(e) => return Err(e),
    };
    let items = match read_n::<T>(&mut cur, n) {
        Ok(items) => items,
        Err(e) => return Err(e),
    };
    proof {
        let m = (parse_n::<T>(old(src)@.skip(2), n as nat)->0).1;
        lemma_wire_parse_n::<T>(old(src)@.skip(2), n as nat);
        assert(old(src)@.skip(2).skip(m) =~= old(src)@.skip(2 + m));
    }
    *src = cur;
    Ok(items)
}

/// A list of at most 255 records: the count in 8 bits, then the records.
pub open spec fn list8_valid<T: WireFormat>(vs: Seq<T::V>) -> bool {
    vs.len() <= u8::MAX && all_valid::<T>(vs)
}

/// The list on the wire: its count in 8 bits, by its low bits where it does
/// not fit, then the records.
pub open spec fn list8_wire<T: WireFormat>(vs: Seq<T::V>) -> Seq<u8> {
    seq![count8(vs.len())] + wire_all::<T>(vs)
}

/// The size of the list on the wire.
pub open spec fn list8_size<T: WireFormat>(vs: Seq<T::V>) -> nat {
    1 + size_all::<T>(vs)
}

/// The list at the start of `bytes`, and the number of bytes it takes.
pub open spec fn list8_parse<T: WireFormat>(bytes: Seq<u8>) -> Option<(Seq<T::V>, int)> {
    if bytes.len() < 1 {
        None
    } else {
        match parse_n::<T>(bytes.skip(1), bytes[0] as nat) {
            Some((vs, m)) => Some((vs, 1 + m)),
            None => None,
        }
    }
}

/// The measured size of a list is the length of its encoding.
pub proof fn lemma_list8_size<T: WireFormat>(vs: Seq<T::V>)
    ensures
        list8_wire::<T>(vs).len() == list8_size::<T>(vs),
{
    lemma_size_all::<T>(vs);
}

/// A valid list is read back from its encoding, whatever follows.
pub proof fn lemma_list8_parse_wire<T: WireFormat>(vs: Seq<T::V>, rest: Seq<u8>)
    requires
        list8_valid::<T>(vs),
    ensures
        list8_parse::<T>(list8_wire::<T>(vs) + rest) == Some(
            (vs, list8_wire::<T>(vs).len() as int),
        ),
{
    let bytes = list8_wire::<T>(vs) + rest;
    assert(bytes =~= seq![count8(vs.len())] + (wire_all::<T>(vs) + rest));
    assert(bytes.skip(1) =~= wire_all::<T>(vs) + rest);
    lemma_parse_n_wire::<T>(vs, rest);
}

/// A list that is read is valid, and the bytes read are its encoding.
pub proof fn lemma_list8_wire_parse<T: WireFormat>(bytes: Seq<u8>)
    ensures
        list8_parse::<T>(bytes) matches Some((vs, n)) ==> list8_valid::<T>(vs) && 0 <= n
            <= bytes.len() && bytes.subrange(0, n) == list8_wire::<T>(vs),
{
    if let Some((vs, n)) = list8_parse::<T>(bytes) {
        lemma_wire_parse_n::<T>(bytes.skip(1), bytes[0] as nat);
        assert(bytes.subrange(0, n) =~= seq![bytes[0]] + bytes.skip(1).subrange(0, n - 1));
    }
}

/// The size of the list on the wire; where it does not fit in `usize`, the
/// largest `usize`.
pub fn measure_list8<T: WireFormat>(items: &Vec<T>) -> (size: usize)
    ensures
        size == saturated(list8_size::<T>(views(items@))),
{
    measure_all(items).saturating_add(1)
}

/// Appends the encoding of the list.
pub fn write_list8<T: WireFormat>(items: &Vec<T>, out: &mut Vec<u8>)
    ensures
        final(out)@ == old(out)@ + list8_wire::<T>(views(items@)),
{
    write_u8(out, low8(items.len()));
    write_all(items, out);
    assert(out@ =~= old(out)@ + list8_wire::<T>(views(items@)));
}

/// Takes a list from the front of `src`, or nothing where `src` ends too
/// early.
pub fn read_list8<T: WireFormat>(src: &mut &[u8]) -> (r: Result<Vec<T>, std::io::Error>)
    ensures
        match r {
            Ok(items) => list8_parse::<T>(old(src)@) matches Some((vs, n)) && vs == views(items@)
                && final(src)@ == old(src)@.skip(n),
            Err(_) => list8_parse::<T>(old(src)@) is None && final(src)@ == old(src)@,
        },
{
    let mut cur: &[u8] = *src;
    let n = match read_u8(&mut cur) {
        Ok(n) => n as usize,
        Err(e) => return Err(e),
    };
    let items = match read_n::<T>(&mut cur, n) {
        Ok(items) => items,
        Err(e) => return Err(e),
    };
    proof {
        let m = (parse_n::<T>(old(src)@.skip(1), n as nat)->0).1;
        lemma_wire_parse_n::<T>(old(src)@.skip(1), n as nat);
        assert(old(src)@.skip(1).skip(m) =~= old(src)@.skip(1 + m));
    }
    *src = cur;
    Ok(items)
}

/// A byte string: its length in 16 bits, then the bytes. It is valid when the
/// length fits in 16 bits.
impl WireFormat for Payload {
    open spec fn valid(v: Seq<u8>) -> bool {
        v.len() <= u16::MAX
    }

    open spec fn wire(v: Seq<u8>) -> Seq<u8> {
        le_u16(count16(v.len())) + v
    }

    open spec fn size(v: Seq<u8>) -> nat {
        2 + v.len()
    }

    open spec fn parse(bytes: Seq<u8>) -> Option<(Seq<u8>, int)> {
        if bytes.len() < 2 {
            None
        } else {
            let n = u16_from_le(bytes) as int;
            if bytes.len() < 2 + n {
                None
            } else {
                Some((bytes.subrange(2, 2 + n), 2 + n))
            }
        }
    }

    proof fn lemma_size(v: Seq<u8>) {
    }

    proof fn lemma_parse_wire(v: Seq<u8>, rest: Seq<u8>) {
        let bytes = Self::wire(v) + rest;
        lemma_u16_round_trip(count16(v.len()), v + rest);
        assert(bytes =~= le_u16(count16(v.len())) + (v + rest));
        assert(bytes.subrange(2, 2 + v.len() as int) =~= v);
    }

    proof fn lemma_wire_parse(bytes: Seq<u8>) {
        if let Some((v, n)) = Self::parse(bytes) {
            lemma_u16_bytes(bytes);
            assert(bytes.subrange(0, n) =~= bytes.subrange(0, 2) + v);
        }
    }

    fn measure(&self) -> (size: usize) {
        self.len().saturating_add(2)
    }

    fn write(&self, out: &mut Vec<u8>) {
        write_u16(out, low16(self.len()));
        write_bytes(out, self.as_slice());
        assert(out@ =~= old(out)@ + Self::wire(self@));
    }

    fn read(src: &mut &[u8]) -> (r: Result<Self, std::io::Error>) {
        let mut cur: &[u8] = *src;
        let n = match read_u16(&mut cur) {
            Ok(n) => n as usize,
            Err(e) => return Err(e),
        };
        if cur.len() < n {
            return Err(unexpected_eof());
        }
        let payload = slice_to_vec(slice_subrange(cur, 0, n));
        *src = slice_subrange(cur, n, cur.len());
        assert(payload@ =~= old(src)@.subrange(2, 2 + n));
        assert(src@ =~= old(src)@.skip(2 + n));
        Ok(payload)
    }
}

} // verus!

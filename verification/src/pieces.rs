//! Byte strings in pieces: cutting a payload into pieces of a given size,
//! keeping the pieces that have arrived each in its place, and putting them
//! together again.
use vstd::prelude::*;
use vstd::slice::{slice_subrange, slice_to_vec};
use crate::packet::Payload;
use crate::wire::{views, write_bytes};

verus! {

/// What a place holds, as a mathematical value.
pub open spec fn held(slot: Option<Payload>) -> Option<Seq<u8>> {
    match slot {
        Some(payload) => Some(payload@),
        None => None,
    }
}

/// The places of a list of pieces, as mathematical values.
pub open spec fn places(fragments: Seq<Option<Payload>>) -> Seq<Option<Seq<u8>>> {
    fragments.map_values(|fragment: Option<Payload>| held(fragment))
}

/// Whether every place holds its piece.
pub open spec fn is_complete(fragments: Seq<Option<Seq<u8>>>) -> bool {
    forall|i: int| 0 <= i < fragments.len() ==> (#[trigger] fragments[i]) is Some
}

/// The pieces that the places hold; an empty place counts as a piece without
/// bytes.
pub open spec fn pieces_of(fragments: Seq<Option<Seq<u8>>>) -> Seq<Seq<u8>> {
    fragments.map_values(
        |fragment: Option<Seq<u8>>|
            match fragment {
                Some(piece) => piece,
                None => Seq::empty(),
            },
    )
}

/// How many places are empty.
pub open spec fn missing(places: Seq<Option<Seq<u8>>>) -> nat
    decreases places.len(),
{
    if places.len() == 0 {
        0
    } else {
        missing(places.drop_last()) + (if places.last() is None {
            1nat
        } else {
            0nat
        })
    }
}

/// Of `n` empty places, `n` are empty.
pub proof fn lemma_missing_all(n: nat)
    ensures
        missing(Seq::new(n, |i: int| None::<Seq<u8>>)) == n,
    decreases n,
{
    if n > 0 {
        lemma_missing_all((n - 1) as nat);
        assert(Seq::new(n, |i: int| None::<Seq<u8>>).drop_last() =~= Seq::new(
            (n - 1) as nat,
            |i: int| None::<Seq<u8>>,
        ));
    }
}

/// A piece put into an empty place leaves one place fewer empty.
pub proof fn lemma_missing_one_fewer(places: Seq<Option<Seq<u8>>>, i: int, piece: Seq<u8>)
    requires
        0 <= i < places.len(),
        places[i] is None,
    ensures
        missing(places.update(i, Some(piece))) + 1 == missing(places),
    decreases places.len(),
{
    let filled = places.update(i, Some(piece));
    if i == places.len() - 1 {
        assert(filled.drop_last() =~= places.drop_last());
    } else {
        lemma_missing_one_fewer(places.drop_last(), i, piece);
        assert(filled.drop_last() =~= places.drop_last().update(i, Some(piece)));
    }
}

/// No place is empty where none is missing, and the other way round.
pub proof fn lemma_missing_none(places: Seq<Option<Seq<u8>>>)
    ensures
        is_complete(places) <==> missing(places) == 0,
    decreases places.len(),
{
    if places.len() > 0 {
        let front = places.drop_last();
        lemma_missing_none(front);
        if is_complete(places) {
            assert forall|i: int| 0 <= i < front.len() implies (#[trigger] front[i]) is Some by {
                assert(places[i] is Some);
            }
            assert(places[places.len() - 1] is Some);
        }
        if missing(places) == 0 {
            assert forall|i: int| 0 <= i < places.len() implies (#[trigger] places[i]) is Some by {
                if i < front.len() {
                    assert(front[i] is Some);
                }
            }
        }
    }
}

/// Whether `order` names each of the numbers below `n` once.
pub open spec fn is_order(order: Seq<int>, n: int) -> bool {
    &&& order.len() == n
    &&& forall|k: int| 0 <= k < order.len() ==> 0 <= #[trigger] order[k] < n
    &&& forall|k: int, m: int| 0 <= k < m < order.len() ==> order[k] != order[m]
}

/// Whether what the places hold are pieces of the given list, each in its
/// place.
pub open spec fn places_hold(places: Seq<Option<Seq<u8>>>, pieces: Seq<Seq<u8>>) -> bool {
    &&& places.len() == pieces.len()
    &&& forall|i: int|
        0 <= i < pieces.len() ==> ((#[trigger] places[i]) matches Some(piece) ==> piece
            == pieces[i])
}

/// A piece put in its place leaves the places holding pieces of the list;
/// once no place is empty, they hold the list itself.
pub proof fn lemma_piece_in_place(places: Seq<Option<Seq<u8>>>, pieces: Seq<Seq<u8>>, i: int)
    requires
        places_hold(places, pieces),
        0 <= i < pieces.len(),
    ensures
        places_hold(places.update(i, Some(pieces[i])), pieces),
        is_complete(places.update(i, Some(pieces[i]))) ==> pieces_of(
            places.update(i, Some(pieces[i])),
        ) == pieces,
{
    let filled = places.update(i, Some(pieces[i]));
    assert forall|k: int| 0 <= k < pieces.len() implies ((#[trigger] filled[k]) matches Some(
        piece,
    ) ==> piece == pieces[k]) by {
        if k != i {
            assert(filled[k] == places[k]);
        }
    }
    if is_complete(filled) {
        assert forall|k: int| 0 <= k < pieces.len() implies pieces_of(filled)[k] == pieces[k] by {
            assert(filled[k] is Some);
        }
        assert(pieces_of(filled) =~= pieces);
    }
}

/// The pieces of `payload`, each of `size` bytes but the last, which holds
/// what is left. An empty payload has no pieces, and no payload can be cut
/// into pieces of no size.
pub open spec fn split(payload: Seq<u8>, size: int) -> Seq<Seq<u8>>
    decreases payload.len(),
{
    if payload.len() == 0 || size <= 0 {
        Seq::empty()
    } else if payload.len() <= size {
        seq![payload]
    } else {
        seq![payload.take(size)] + split(payload.skip(size), size)
    }
}

/// The pieces put together in their order.
pub open spec fn join(pieces: Seq<Seq<u8>>) -> Seq<u8>
    decreases pieces.len(),
{
    if pieces.len() == 0 {
        Seq::empty()
    } else {
        join(pieces.drop_last()) + pieces.last()
    }
}

/// A piece put before others ends up before what the others make.
pub proof fn lemma_join_first(first: Seq<u8>, rest: Seq<Seq<u8>>)
    ensures
        join(seq![first] + rest) == first + join(rest),
    decreases rest.len(),
{
    reveal_with_fuel(join, 2);
    let all = seq![first] + rest;
    if rest.len() == 0 {
        assert(all.drop_last() =~= Seq::<Seq<u8>>::empty());
        assert(all.last() == first);
        assert(join(all) =~= first + join(rest));
    } else {
        lemma_join_first(first, rest.drop_last());
        assert(all.drop_last() =~= seq![first] + rest.drop_last());
        assert(all.last() == rest.last());
        assert(join(all) =~= first + join(rest));
    }
}

/// The pieces of a payload, put together, are the payload; each piece holds
/// at least one byte and at most `size` bytes.
pub proof fn lemma_join_split(payload: Seq<u8>, size: int)
    requires
        size > 0,
    ensures
        join(split(payload, size)) == payload,
        forall|i: int|
            0 <= i < split(payload, size).len() ==> 1 <= (#[trigger] split(payload, size)[i]).len()
                <= size,
    decreases payload.len(),
{
    reveal_with_fuel(join, 2);
    if payload.len() == 0 {
    } else if payload.len() <= size {
        assert(seq![payload].drop_last() =~= Seq::<Seq<u8>>::empty());
        assert(seq![payload].last() == payload);
        assert(join(seq![payload]) =~= payload);
    } else {
        let rest = split(payload.skip(size), size);
        lemma_join_split(payload.skip(size), size);
        lemma_join_first(payload.take(size), rest);
        assert(payload.take(size) + payload.skip(size) =~= payload);
        assert forall|i: int| 0 <= i < split(payload, size).len() implies 1 <= (#[trigger] split(
            payload,
            size,
        )[i]).len() <= size by {
            if i > 0 {
                assert(split(payload, size)[i] == rest[i - 1]);
            }
        }
    }
}

/// Cuts `payload` into pieces of `size` bytes, or stops where more than
/// `most` pieces would be needed.
pub fn split_payload(payload: &Vec<u8>, size: usize, most: usize) -> (pieces: Option<Vec<Payload>>)
    ensures
        match pieces {
            Some(pieces) => pieces@.len() <= most && views(pieces@) == split(payload@, size as int),
            None => split(payload@, size as int).len() > most,
        },
{
    let mut pieces: Vec<Payload> = Vec::new();
    if size == 0 {
        assert(views(pieces@) =~= split(payload@, 0));
        return Some(pieces);
    }
    let mut offset: usize = 0;
    proof {
        assert(payload@.skip(0) =~= payload@);
        assert(views(pieces@) + split(payload@, size as int) =~= split(payload@, size as int));
    }
    while offset < payload.len()
        invariant
            size > 0,
            offset <= payload@.len(),
            pieces@.len() <= most,
            split(payload@, size as int) == views(pieces@) + split(
                payload@.skip(offset as int),
                size as int,
            ),
        decreases payload@.len() - offset,
    {
        let ghost done = views(pieces@);
        let ghost left = payload@.skip(offset as int);
        if pieces.len() >= most {
            return None;
        }
        let end = if payload.len() - offset <= size {
            payload.len()
        } else {
            offset + size
        };
        let piece = slice_to_vec(slice_subrange(payload.as_slice(), offset, end));
        pieces.push(piece);
        proof {
            assert(views(pieces@) =~= done.push(piece@));
            if left.len() <= size {
                assert(piece@ =~= left);
                assert(payload@.skip(end as int) =~= Seq::<u8>::empty());
                assert(done + seq![left] =~= views(pieces@) + split(
                    payload@.skip(end as int),
                    size as int,
                ));
            } else {
                assert(piece@ =~= left.take(size as int));
                assert(left.skip(size as int) =~= payload@.skip(end as int));
                assert(done + (seq![left.take(size as int)] + split(
                    left.skip(size as int),
                    size as int,
                )) =~= views(pieces@) + split(payload@.skip(end as int), size as int));
            }
        }
        offset = end;
    }
    assert(split(payload@, size as int) =~= views(pieces@));
    Some(pieces)
}

/// Whether every place holds its piece.
pub fn all_received(fragments: &Vec<Option<Payload>>) -> (complete: bool)
    ensures
        complete == is_complete(places(fragments@)),
{
    let mut i: usize = 0;
    while i < fragments.len()
        invariant
            i <= fragments.len(),
            forall|j: int| 0 <= j < i ==> (#[trigger] places(fragments@)[j]) is Some,
        decreases fragments.len() - i,
    {
        if fragments[i].is_none() {
            assert(places(fragments@)[i as int] is None);
            return false;
        }
        i += 1;
    }
    true
}

/// The pieces put together in their order; an empty place counts as a piece
/// without bytes.
pub fn join_pieces(fragments: &Vec<Option<Payload>>) -> (bytes: Vec<u8>)
    ensures
        bytes@ == join(pieces_of(places(fragments@))),
{
    let ghost pieces = pieces_of(places(fragments@));
    let mut bytes: Vec<u8> = Vec::new();
    let mut i: usize = 0;
    assert(pieces.take(0) =~= Seq::empty());
    while i < fragments.len()
        invariant
            i <= fragments.len(),
            pieces == pieces_of(places(fragments@)),
            bytes@ == join(pieces.take(i as int)),
        decreases fragments.len() - i,
    {
        proof {
            assert(pieces.take(i + 1).drop_last() =~= pieces.take(i as int));
            assert(pieces.take(i + 1).last() == pieces[i as int]);
        }
        match &fragments[i] {
            Some(piece) => {
                write_bytes(&mut bytes, piece.as_slice());
            },
            None => {
                assert(bytes@ + pieces[i as int] =~= bytes@);
            },
        }
        i += 1;
    }
    assert(pieces.take(i as int) =~= pieces);
    bytes
}

} // verus!

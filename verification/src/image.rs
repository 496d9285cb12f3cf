//! The destination file as mathematics: which octet stands at which offset,
//! for the offsets that have been written.  The program that drives the
//! engine performs the writes; this module says what they add up to.

use crate::reassembly::{continues, runs, Piece, Write};
use vstd::prelude::*;

verus! {

/// The image after `data` has been written from `offset` on.  What stood
/// there before is replaced; the rest stays.
pub open spec fn write_at(image: Map<int, u8>, offset: int, data: Seq<u8>) -> Map<int, u8> {
    Map::new(
        |at: int| image.dom().contains(at) || offset <= at < offset + data.len(),
        |at: int|
            if offset <= at < offset + data.len() {
                data[at - offset]
            } else {
                image[at]
            },
    )
}

/// The image after the writes of a list, performed first to last.
pub open spec fn apply(image: Map<int, u8>, writes: Seq<Write>) -> Map<int, u8>
    decreases writes.len(),
{
    if writes.len() == 0 {
        image
    } else {
        write_at(apply(image, writes.drop_last()), writes.last().offset, writes.last().data)
    }
}

/// The image after a part has been written to its place.
pub open spec fn place(image: Map<int, u8>, piece: Piece, part_size: nat) -> Map<int, u8> {
    write_at(image, piece.id * part_size, piece.data)
}

/// The image after each part of a list has been written to its place, first
/// to last.
pub open spec fn place_all(image: Map<int, u8>, parts: Seq<Piece>, part_size: nat) -> Map<int, u8>
    decreases parts.len(),
{
    if parts.len() == 0 {
        image
    } else {
        place(place_all(image, parts.drop_last(), part_size), parts.last(), part_size)
    }
}

/// The image of a file that holds exactly the octets of `source`.
pub open spec fn image_of(source: Seq<u8>) -> Map<int, u8> {
    Map::new(|at: int| 0 <= at < source.len(), |at: int| source[at])
}

/// Parts with different ids have places that do not overlap, as long as no
/// part is longer than a part may be.
pub proof fn lemma_places_apart(lower: int, higher: int, part_size: nat)
    requires
        0 <= lower < higher,
    ensures
        lower * part_size + part_size <= higher * part_size,
{
    assert(lower * part_size + part_size <= higher * part_size) by (nonlinear_arith)
        requires
            0 <= lower < higher,
            part_size >= 0,
    ;
}

/// One write of two stretches of octets is as good as two writes, the second
/// right behind the first.
pub proof fn lemma_write_split(image: Map<int, u8>, offset: int, head: Seq<u8>, tail: Seq<u8>)
    ensures
        write_at(image, offset, head + tail) == write_at(
            write_at(image, offset, head),
            offset + head.len(),
            tail,
        ),
{
    assert(write_at(image, offset, head + tail) =~= write_at(
        write_at(image, offset, head),
        offset + head.len(),
        tail,
    ));
}

/// Writing the same octets to the same place twice is as good as once.
pub proof fn lemma_write_twice(image: Map<int, u8>, offset: int, data: Seq<u8>)
    ensures
        write_at(write_at(image, offset, data), offset, data) == write_at(image, offset, data),
{
    assert(write_at(write_at(image, offset, data), offset, data) =~= write_at(image, offset, data));
}

/// Where the last write of a flush ends: behind the last part of the buffer.
proof fn lemma_runs_end(buffer: Seq<Piece>, part_size: nat)
    requires
        buffer.len() > 0,
    ensures
        runs(buffer, part_size).len() > 0,
        runs(buffer, part_size).last().offset + runs(buffer, part_size).last().data.len()
            == buffer.last().id * part_size + buffer.last().data.len(),
    decreases buffer.len(),
{
    if buffer.len() > 1 {
        lemma_runs_end(buffer.drop_last(), part_size);
        let previous = buffer[buffer.len() - 2];
        let next = buffer.last();
        assert(buffer.drop_last().last() == previous);
        if continues(previous, next, part_size) {
            assert(next.id * part_size == previous.id * part_size + part_size)
                by (nonlinear_arith)
                requires
                    next.id == previous.id + 1,
            ;
        }
    }
}

/// The writes of a flush put every part of the buffer in its place: joining
/// neighbours into one write changes how often the file is written, not
/// what is written where.
pub proof fn lemma_flush_places_parts(image: Map<int, u8>, buffer: Seq<Piece>, part_size: nat)
    ensures
        apply(image, runs(buffer, part_size)) == place_all(image, buffer, part_size),
    decreases buffer.len(),
{
    if buffer.len() == 0 {
    } else if buffer.len() == 1 {
        let only = runs(buffer, part_size);
        assert(only.drop_last() =~= Seq::<Write>::empty());
        assert(buffer.drop_last() =~= Seq::<Piece>::empty());
        assert(apply(image, only.drop_last()) == image);
        assert(place_all(image, buffer.drop_last(), part_size) == image);
    } else {
        let shorter = buffer.drop_last();
        let before = runs(shorter, part_size);
        let previous = buffer[buffer.len() - 2];
        let next = buffer.last();
        lemma_flush_places_parts(image, shorter, part_size);
        lemma_runs_end(shorter, part_size);
        assert(shorter.last() == previous);
        if continues(previous, next, part_size) {
            let run = before.last();
            let joined = Write { offset: run.offset, data: run.data + next.data };
            let out = before.drop_last().push(joined);
            assert(out.drop_last() =~= before.drop_last());
            assert(out.last() == joined);
            let under = apply(image, before.drop_last());
            lemma_write_split(under, run.offset, run.data, next.data);
            assert(next.id * part_size == previous.id * part_size + part_size)
                by (nonlinear_arith)
                requires
                    next.id == previous.id + 1,
            ;
            assert(apply(image, before) == write_at(under, run.offset, run.data));
        } else {
            let fresh = Write { offset: next.id * part_size, data: next.data };
            let out = before.push(fresh);
            assert(out.drop_last() =~= before);
            assert(out.last() == fresh);
        }
    }
}

/// Two parts with different ids can be written in either order, as long as
/// the one with the lower id is no longer than a part may be.
pub proof fn lemma_place_commutes(
    image: Map<int, u8>,
    lower: Piece,
    higher: Piece,
    part_size: nat,
)
    requires
        lower.id < higher.id,
        lower.data.len() <= part_size,
    ensures
        place(place(image, lower, part_size), higher, part_size) == place(
            place(image, higher, part_size),
            lower,
            part_size,
        ),
{
    lemma_places_apart(lower.id as int, higher.id as int, part_size);
    assert(place(place(image, lower, part_size), higher, part_size) =~= place(
        place(image, higher, part_size),
        lower,
        part_size,
    ));
}

/// A part may enter a list of parts before parts with greater ids: the file
/// is the same as if it had been written after them.
pub proof fn lemma_place_inserted(
    image: Map<int, u8>,
    parts: Seq<Piece>,
    piece: Piece,
    at: int,
    part_size: nat,
)
    requires
        0 <= at <= parts.len(),
        piece.data.len() <= part_size,
        forall|j: int| at <= j < parts.len() ==> parts[j].id > piece.id,
    ensures
        place_all(image, parts.insert(at, piece), part_size) == place(
            place_all(image, parts, part_size),
            piece,
            part_size,
        ),
    decreases parts.len() - at,
{
    let longer = parts.insert(at, piece);
    if at == parts.len() {
        assert(longer.drop_last() =~= parts);
    } else {
        let shorter = parts.drop_last();
        let last = parts.last();
        assert(longer.drop_last() =~= shorter.insert(at, piece));
        assert(longer.last() == last);
        assert forall|j: int| at <= j < shorter.len() implies shorter[j].id > piece.id by {
            assert(shorter[j] == parts[j]);
        }
        lemma_place_inserted(image, shorter, piece, at, part_size);
        lemma_place_commutes(place_all(image, shorter, part_size), piece, last, part_size);
    }
}

} // verus!

//! What the writer makes of the parts that arrive, whatever their order and
//! however often each arrives.

use crate::image::{
    apply, image_of, lemma_flush_places_parts, lemma_place_commutes, lemma_place_inserted,
    lemma_write_twice, place, place_all,
};
use crate::parts::{
    ids_below, lemma_ids_below, lemma_offset_in_part, lemma_part_in_file, part_of, parts_of,
};
use crate::reassembly::{
    insert_sorted, insertion_point, lemma_insert_sorted, lemma_insertion_point, runs, Piece,
    Write, WriterView,
};
use vstd::prelude::*;
use vstd::set_lib::{lemma_len_subset, lemma_subset_equality};

verus! {

/// The file as it will be once the parts that wait in the buffer are
/// written too.
pub open spec fn settled(image: Map<int, u8>, writer: WriterView) -> Map<int, u8> {
    apply(image, runs(writer.buffer, writer.part_size))
}

/// A part that arrives is written to its place: once the buffer is flushed,
/// the file is what it would have been before, with the octets of the part
/// at offset `id * part_size`.  So the file is made by the parts in the order
/// of their arrival, whatever waits in the buffer and whenever it is flushed.
/// A complete writer leaves the file as it is.
pub proof fn lemma_accept_places(writer: WriterView, image: Map<int, u8>, piece: Piece)
    requires
        writer.wf(),
        piece.data.len() <= writer.part_size,
    ensures
        ({
            let (after, writes) = writer.accept(piece);
            settled(apply(image, writes), after) == if writer.complete() {
                settled(image, writer)
            } else {
                place(settled(image, writer), piece, writer.part_size)
            }
        }),
{
    let size = writer.part_size;
    let (after, writes) = writer.accept(piece);
    if !writer.complete() {
        let held = insert_sorted(writer.buffer, piece);
        lemma_insertion_point(writer.buffer, piece.id);
        lemma_place_inserted(
            image,
            writer.buffer,
            piece,
            insertion_point(writer.buffer, piece.id),
            size,
        );
        lemma_flush_places_parts(image, writer.buffer, size);
        lemma_flush_places_parts(image, held, size);
        if held.len() >= writer.capacity || writer.seen.insert(piece.id).len() >= writer.total {
            assert(after.buffer =~= Seq::<Piece>::empty());
            assert(settled(apply(image, writes), after) == apply(image, writes));
        } else {
            assert(writes =~= Seq::<Write>::empty());
            assert(apply(image, writes) == image);
        }
    }
}

/// The writer stays well-formed over every part that is no longer than a
/// part may be.
pub proof fn lemma_accept_wf(writer: WriterView, piece: Piece)
    requires
        writer.wf(),
        piece.data.len() <= writer.part_size,
    ensures
        writer.accept(piece).0.wf(),
        writer.complete() ==> writer.accept(piece).0.complete(),
        writer.accept(piece).0.complete() || writer.accept(piece).0.seen.contains(piece.id),
        forall|id: u32| writer.seen.contains(id) ==> writer.accept(piece).0.seen.contains(id),
{
    if !writer.complete() {
        let at = insertion_point(writer.buffer, piece.id);
        let held = insert_sorted(writer.buffer, piece);
        let seen = writer.seen.insert(piece.id);
        lemma_insertion_point(writer.buffer, piece.id);
        lemma_insert_sorted(writer.buffer, piece);
        assert forall|i: int| 0 <= i < held.len() implies (#[trigger] held[i]).data.len()
            <= writer.part_size && seen.contains(held[i].id) by {
            if i != at {
                let old = if i < at {
                    i
                } else {
                    i - 1
                };
                assert(held[i] == writer.buffer[old]);
            }
        }
    }
}

/// The writer and the file after the parts of a list have arrived, first to
/// last, and every write that the writer asked for has been performed.
pub open spec fn deliver(writer: WriterView, image: Map<int, u8>, arrivals: Seq<Piece>) -> (
    WriterView,
    Map<int, u8>,
)
    decreases arrivals.len(),
{
    if arrivals.len() == 0 {
        (writer, image)
    } else {
        let (before, written) = deliver(writer, image, arrivals.drop_last());
        let (after, writes) = before.accept(arrivals.last());
        (after, apply(written, writes))
    }
}

/// True if no part of the list is longer than a part may be.
pub open spec fn all_fit(parts: Seq<Piece>, part_size: nat) -> bool {
    forall|k: int| 0 <= k < parts.len() ==> (#[trigger] parts[k]).data.len() <= part_size
}

/// The writer stays well-formed over any arrivals; it never forgets a part
/// it has seen, and once complete it stays complete.
pub proof fn lemma_deliver_wf(writer: WriterView, image: Map<int, u8>, arrivals: Seq<Piece>)
    requires
        writer.wf(),
        all_fit(arrivals, writer.part_size),
    ensures
        deliver(writer, image, arrivals).0.wf(),
        deliver(writer, image, arrivals).0.part_size == writer.part_size,
        writer.complete() ==> deliver(writer, image, arrivals).0.complete(),
        forall|id: u32|
            writer.seen.contains(id) ==> deliver(writer, image, arrivals).0.seen.contains(id),
    decreases arrivals.len(),
{
    if arrivals.len() > 0 {
        let earlier = arrivals.drop_last();
        assert(all_fit(earlier, writer.part_size)) by {
            assert forall|k: int| 0 <= k < earlier.len() implies (#[trigger] earlier[k]).data.len()
                <= writer.part_size by {
                assert(earlier[k] == arrivals[k]);
            }
        }
        lemma_deliver_wf(writer, image, earlier);
        lemma_accept_wf(deliver(writer, image, earlier).0, arrivals.last());
    }
}

/// As long as the file is not complete, it is made by the parts in the order
/// of their arrival: once the buffer is flushed, the file is what writing
/// each part that has arrived to its place, first to last, makes of it.
pub proof fn lemma_deliver_places(writer: WriterView, image: Map<int, u8>, arrivals: Seq<Piece>)
    requires
        writer.wf(),
        all_fit(arrivals, writer.part_size),
        !deliver(writer, image, arrivals).0.complete(),
    ensures
        settled(deliver(writer, image, arrivals).1, deliver(writer, image, arrivals).0)
            == place_all(settled(image, writer), arrivals, writer.part_size),
    decreases arrivals.len(),
{
    if arrivals.len() > 0 {
        let earlier = arrivals.drop_last();
        assert(all_fit(earlier, writer.part_size)) by {
            assert forall|k: int| 0 <= k < earlier.len() implies (#[trigger] earlier[k]).data.len()
                <= writer.part_size by {
                assert(earlier[k] == arrivals[k]);
            }
        }
        let (before, written) = deliver(writer, image, earlier);
        lemma_deliver_wf(writer, image, earlier);
        lemma_accept_wf(before, arrivals.last());
        lemma_deliver_places(writer, image, earlier);
        lemma_accept_places(before, written, arrivals.last());
    }
}

/// Where a part stands in the file, later parts leave it standing, unless
/// one of them has its id and other octets.
proof fn lemma_placed_part_stays(
    image: Map<int, u8>,
    later: Seq<Piece>,
    piece: Piece,
    part_size: nat,
)
    requires
        place(image, piece, part_size) == image,
        piece.data.len() <= part_size,
        all_fit(later, part_size),
        forall|k: int|
            0 <= k < later.len() && (#[trigger] later[k]).id == piece.id ==> later[k].data
                == piece.data,
    ensures
        place(place_all(image, later, part_size), piece, part_size) == place_all(
            image,
            later,
            part_size,
        ),
    decreases later.len(),
{
    if later.len() > 0 {
        let shorter = later.drop_last();
        let last = later.last();
        assert forall|k: int| 0 <= k < shorter.len() implies (#[trigger] shorter[k]).data.len()
            <= part_size && (shorter[k].id == piece.id ==> shorter[k].data == piece.data) by {
            assert(shorter[k] == later[k]);
        }
        lemma_placed_part_stays(image, shorter, piece, part_size);
        let under = place_all(image, shorter, part_size);
        if last.id == piece.id {
            assert(last == piece);
            lemma_write_twice(under, piece.id * part_size, piece.data);
        } else if last.id < piece.id {
            lemma_place_commutes(under, last, piece, part_size);
        } else {
            lemma_place_commutes(under, piece, last, part_size);
        }
    }
}

/// Delivering a part again leaves the file as it is, whatever has arrived
/// since it was delivered first, as long as every part came with the octets
/// it came with before: the writer has seen the same parts, and every octet
/// of the file, written or still waiting in the buffer, is the same.
pub proof fn lemma_same_part_again(
    writer: WriterView,
    image: Map<int, u8>,
    piece: Piece,
    between: Seq<Piece>,
)
    requires
        writer.wf(),
        piece.data.len() <= writer.part_size,
        all_fit(between, writer.part_size),
        forall|k: int|
            0 <= k < between.len() && (#[trigger] between[k]).id == piece.id ==> between[k].data
                == piece.data,
    ensures
        ({
            let (first, writes) = writer.accept(piece);
            let (once, file) = deliver(first, apply(image, writes), between);
            let (twice, more) = once.accept(piece);
            &&& twice.seen == once.seen
            &&& twice.complete() == once.complete()
            &&& settled(apply(file, more), twice) == settled(file, once)
        }),
{
    let size = writer.part_size;
    let (first, writes) = writer.accept(piece);
    let started = apply(image, writes);
    let (once, file) = deliver(first, started, between);
    lemma_accept_wf(writer, piece);
    lemma_deliver_wf(first, started, between);
    if !once.complete() {
        assert(once.seen.insert(piece.id) =~= once.seen);
        lemma_accept_places(writer, image, piece);
        lemma_deliver_places(first, started, between);
        lemma_accept_places(once, file, piece);
        let base = settled(started, first);
        lemma_write_twice(settled(image, writer), piece.id * size, piece.data);
        lemma_placed_part_stays(base, between, piece, size);
    }
}

/// True if `piece` is one of the parts that `source` is cut into.
pub open spec fn cut_from(piece: Piece, source: Seq<u8>, part_size: nat) -> bool {
    &&& piece.id < parts_of(source.len(), part_size)
    &&& piece.data == part_of(source, part_size, piece.id as int)
}

/// True if `at` is an offset of the file that belongs to part `id`.
pub open spec fn in_part(id: u32, at: int, part_size: nat, length: nat) -> bool {
    id * part_size <= at < id * part_size + part_size && at < length
}

/// True if the list holds a part with this id.
pub open spec fn has_part(parts: Seq<Piece>, id: u32) -> bool {
    exists|i: int| 0 <= i < parts.len() && (#[trigger] parts[i]).id == id
}

/// True if the image holds nothing but octets of `source`, each at its offset.
pub open spec fn agrees(image: Map<int, u8>, source: Seq<u8>) -> bool {
    forall|at: int| #[trigger]
        image.dom().contains(at) ==> 0 <= at < source.len() && image[at] == source[at]
}

/// What holds while parts of `source` arrive: the file holds octets of the
/// source only, the buffer holds parts of the source only, and every part
/// that has arrived is either written or waits in the buffer.
pub open spec fn on_course(writer: WriterView, image: Map<int, u8>, source: Seq<u8>) -> bool {
    &&& writer.wf()
    &&& writer.total == parts_of(source.len(), writer.part_size)
    &&& agrees(image, source)
    &&& forall|i: int|
        0 <= i < writer.buffer.len() ==> cut_from(
            #[trigger] writer.buffer[i],
            source,
            writer.part_size,
        )
    &&& forall|id: u32| #[trigger] writer.seen.contains(id) ==> id < writer.total
    &&& forall|id: u32, at: int|
        writer.seen.contains(id) && #[trigger] in_part(id, at, writer.part_size, source.len())
            ==> image.dom().contains(at) || has_part(writer.buffer, id)
}

/// Writing parts of the source to their places brings octets of the source
/// into the file, and all octets of those parts.
proof fn lemma_place_parts_of_source(
    image: Map<int, u8>,
    parts: Seq<Piece>,
    source: Seq<u8>,
    part_size: nat,
)
    requires
        part_size >= 1,
        agrees(image, source),
        forall|i: int| 0 <= i < parts.len() ==> cut_from(#[trigger] parts[i], source, part_size),
    ensures
        agrees(place_all(image, parts, part_size), source),
        forall|at: int|
            image.dom().contains(at) ==> place_all(image, parts, part_size).dom().contains(at),
        forall|i: int, at: int|
            0 <= i < parts.len() && #[trigger] in_part(
                parts[i].id,
                at,
                part_size,
                source.len(),
            ) ==> place_all(image, parts, part_size).dom().contains(at),
    decreases parts.len(),
{
    if parts.len() > 0 {
        let shorter = parts.drop_last();
        let last = parts.last();
        let under = place_all(image, shorter, part_size);
        let out = place_all(image, parts, part_size);
        assert forall|i: int| 0 <= i < shorter.len() implies cut_from(
            #[trigger] shorter[i],
            source,
            part_size,
        ) by {
            assert(shorter[i] == parts[i]);
        }
        lemma_place_parts_of_source(image, shorter, source, part_size);
        assert(cut_from(last, source, part_size));
        lemma_part_in_file(source.len(), part_size, last.id as int);
        assert forall|at: int| #[trigger] out.dom().contains(at) implies 0 <= at < source.len()
            && out[at] == source[at] by {
            if !under.dom().contains(at) {
                assert(last.id * part_size <= at < last.id * part_size + last.data.len());
            }
        }
        assert forall|i: int, at: int|
            0 <= i < parts.len() && #[trigger] in_part(
                parts[i].id,
                at,
                part_size,
                source.len(),
            ) implies out.dom().contains(at) by {
            if i < shorter.len() {
                assert(shorter[i] == parts[i]);
                assert(under.dom().contains(at));
            } else {
                assert(last.id * part_size <= at < last.id * part_size + last.data.len());
            }
        }
    }
}

/// One more part of the source keeps the writer and the file on course.
proof fn lemma_accept_on_course(
    writer: WriterView,
    image: Map<int, u8>,
    source: Seq<u8>,
    piece: Piece,
)
    requires
        on_course(writer, image, source),
        cut_from(piece, source, writer.part_size),
    ensures
        on_course(writer.accept(piece).0, apply(image, writer.accept(piece).1), source),
{
    let size = writer.part_size;
    let (after, writes) = writer.accept(piece);
    let written = apply(image, writes);
    lemma_part_in_file(source.len(), size, piece.id as int);
    lemma_accept_wf(writer, piece);
    if !writer.complete() {
        let at = insertion_point(writer.buffer, piece.id);
        let held = insert_sorted(writer.buffer, piece);
        let seen = writer.seen.insert(piece.id);
        lemma_insertion_point(writer.buffer, piece.id);
        assert forall|i: int| 0 <= i < held.len() implies cut_from(
            #[trigger] held[i],
            source,
            size,
        ) by {
            if i != at {
                let old = if i < at {
                    i
                } else {
                    i - 1
                };
                assert(held[i] == writer.buffer[old]);
            }
        }
        assert forall|id: u32| seen.contains(id) implies has_part(held, id) || !has_part(
            writer.buffer,
            id,
        ) by {
            if has_part(writer.buffer, id) {
                let old = choose|k: int|
                    0 <= k < writer.buffer.len() && (#[trigger] writer.buffer[k]).id == id;
                let new = if old < at {
                    old
                } else {
                    old + 1
                };
                assert(held[new].id == id);
            }
        }
        assert(held[at].id == piece.id);
        assert(has_part(held, piece.id));
        if held.len() >= writer.capacity || seen.len() >= writer.total {
            lemma_flush_places_parts(image, held, size);
            lemma_place_parts_of_source(image, held, source, size);
            assert forall|id: u32, at: int|
                after.seen.contains(id) && #[trigger] in_part(
                    id,
                    at,
                    size,
                    source.len(),
                ) implies written.dom().contains(at) by {
                if has_part(held, id) {
                    let k = choose|k: int| 0 <= k < held.len() && (#[trigger] held[k]).id == id;
                    assert(in_part(held[k].id, at, size, source.len()));
                } else {
                    assert(writer.seen.contains(id));
                    assert(image.dom().contains(at));
                }
            }
        } else {
            assert(written == image);
            assert forall|id: u32, at: int|
                after.seen.contains(id) && #[trigger] in_part(
                    id,
                    at,
                    size,
                    source.len(),
                ) implies written.dom().contains(at) || has_part(after.buffer, id) by {
                if id != piece.id {
                    assert(writer.seen.contains(id));
                }
            }
        }
    }
}

/// Parts of the source, in any order and however often, keep the writer and
/// the file on course; and the writer has seen every part that has arrived,
/// unless the file was complete before.
proof fn lemma_deliver_on_course(
    writer: WriterView,
    image: Map<int, u8>,
    source: Seq<u8>,
    arrivals: Seq<Piece>,
)
    requires
        on_course(writer, image, source),
        forall|k: int|
            0 <= k < arrivals.len() ==> cut_from(#[trigger] arrivals[k], source, writer.part_size),
    ensures
        on_course(deliver(writer, image, arrivals).0, deliver(writer, image, arrivals).1, source),
        deliver(writer, image, arrivals).0.part_size == writer.part_size,
        deliver(writer, image, arrivals).0.complete() || forall|k: int|
            0 <= k < arrivals.len() ==> deliver(writer, image, arrivals).0.seen.contains(
                (#[trigger] arrivals[k]).id,
            ),
    decreases arrivals.len(),
{
    if arrivals.len() > 0 {
        let earlier = arrivals.drop_last();
        let last = arrivals.last();
        assert forall|k: int| 0 <= k < earlier.len() implies cut_from(
            #[trigger] earlier[k],
            source,
            writer.part_size,
        ) by {
            assert(earlier[k] == arrivals[k]);
        }
        lemma_deliver_on_course(writer, image, source, earlier);
        let (before, written) = deliver(writer, image, earlier);
        assert(cut_from(last, source, before.part_size));
        lemma_part_in_file(source.len(), before.part_size, last.id as int);
        lemma_accept_on_course(before, written, source, last);
        lemma_accept_wf(before, last);
        let after = before.accept(last).0;
        if !after.complete() {
            assert forall|k: int| 0 <= k < arrivals.len() implies after.seen.contains(
                (#[trigger] arrivals[k]).id,
            ) by {
                if k < earlier.len() {
                    assert(earlier[k] == arrivals[k]);
                    assert(before.seen.contains(earlier[k].id));
                }
            }
        }
    }
}

/// The parts of a file may arrive in any order, and any of them more than
/// once: when each of them has arrived, the writer reports the file
/// complete, nothing waits in its buffer, and the destination file holds the
/// octets of the source, all of them and no others.
pub proof fn lemma_any_order(writer: WriterView, source: Seq<u8>, arrivals: Seq<Piece>)
    requires
        writer.wf(),
        writer.seen == Set::<u32>::empty(),
        writer.total == parts_of(source.len(), writer.part_size),
        forall|k: int|
            0 <= k < arrivals.len() ==> cut_from(#[trigger] arrivals[k], source, writer.part_size),
        forall|id: u32| id < writer.total ==> #[trigger] has_part(arrivals, id),
    ensures
        deliver(writer, Map::empty(), arrivals).0.complete(),
        deliver(writer, Map::empty(), arrivals).0.buffer.len() == 0,
        deliver(writer, Map::empty(), arrivals).1 == image_of(source),
{
    let size = writer.part_size;
    let blank = Map::<int, u8>::empty();
    assert(on_course(writer, blank, source));
    lemma_deliver_on_course(writer, blank, source, arrivals);
    let (end, image) = deliver(writer, blank, arrivals);
    let all = ids_below(end.total);
    lemma_ids_below(end.total);
    if !end.complete() {
        assert forall|id: u32| all.contains(id) implies end.seen.contains(id) by {
            assert(has_part(arrivals, id));
            let k = choose|k: int| 0 <= k < arrivals.len() && (#[trigger] arrivals[k]).id == id;
            assert(end.seen.contains(arrivals[k].id));
        }
        assert(all.subset_of(end.seen));
        lemma_len_subset(all, end.seen);
    }
    assert(end.seen.subset_of(all));
    lemma_len_subset(end.seen, all);
    lemma_subset_equality(end.seen, all);
    assert forall|at: int| 0 <= at < source.len() implies image.dom().contains(at) by {
        lemma_offset_in_part(source.len(), size, at);
        let id = (at / (size as int)) as u32;
        assert(all.contains(id));
        assert(in_part(id, at, size, source.len()));
        assert(!has_part(end.buffer, id));
    }
    assert(image =~= image_of(source));
}

} // verus!

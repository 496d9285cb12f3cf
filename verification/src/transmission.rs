//! What the sender makes of a file, however the file is read: the blocks may
//! be long or short, the parts that leave are the same.

use crate::delivery::cut_from;
use crate::parts::{ids_below, lemma_ids_below, lemma_part_in_file, part_of, parts_of};
use crate::protocol::{decode, encode_part, lemma_round_trip, MessageView};
use crate::reassembly::Piece;
use crate::sender::{is_part_frame, lemma_part_frame, SenderView};
use vstd::arithmetic::div_mod::{lemma_fundamental_div_mod, lemma_fundamental_div_mod_converse};
use vstd::prelude::*;

verus! {

/// The octets of a list of blocks, one block after the other.
pub open spec fn joined(blocks: Seq<Seq<u8>>) -> Seq<u8>
    decreases blocks.len(),
{
    if blocks.len() == 0 {
        Seq::empty()
    } else {
        joined(blocks.drop_last()) + blocks.last()
    }
}

/// The sender after the blocks of a list have been fed to it, first to last,
/// and the frames it has transmitted.
pub open spec fn feed_all(sender: SenderView, blocks: Seq<Seq<u8>>) -> (
    SenderView,
    Seq<Seq<u8>>,
)
    decreases blocks.len(),
{
    if blocks.len() == 0 {
        (sender, Seq::empty())
    } else {
        let (before, frames) = feed_all(sender, blocks.drop_last());
        let (after, more) = before.feed(blocks.last());
        (after, frames + more)
    }
}

/// True if the sender had an id for every part on the way through the blocks.
pub open spec fn fed_in_bounds(sender: SenderView, blocks: Seq<Seq<u8>>) -> bool
    decreases blocks.len(),
{
    if blocks.len() == 0 {
        true
    } else {
        &&& fed_in_bounds(sender, blocks.drop_last())
        &&& feed_all(sender, blocks.drop_last()).0.has_ids_for(blocks.last().len())
    }
}

/// The sender at the end of a file that was read in these blocks, and the
/// frames it has transmitted.
pub open spec fn transmit(sender: SenderView, blocks: Seq<Seq<u8>>) -> (
    SenderView,
    Seq<Seq<u8>>,
) {
    let (fed, frames) = feed_all(sender, blocks);
    let (done, last) = fed.finish();
    (
        done,
        match last {
            Some(frame) => frames.push(frame),
            None => frames,
        },
    )
}

/// True if the sender has sent nothing yet.
pub open spec fn fresh(sender: SenderView) -> bool {
    &&& sender.wf()
    &&& sender.next_id == 0
    &&& sender.pending.len() == 0
    &&& sender.unacked == Set::<u32>::empty()
    &&& sender.cache == Map::<u32, Seq<u8>>::empty()
}

/// The frames of the parts that `source` is cut into, in the order of their ids.
pub open spec fn part_frames(source: Seq<u8>, part_size: nat) -> Seq<Seq<u8>> {
    Seq::new(
        parts_of(source.len(), part_size),
        |id: int| encode_part(id as u32, part_of(source, part_size, id)),
    )
}

/// The cache that holds each of the first `n` frames of a list under its index.
pub open spec fn cache_of(frames: Seq<Seq<u8>>, n: nat) -> Map<u32, Seq<u8>> {
    Map::new(|id: u32| id < n, |id: u32| frames[id as int])
}

/// After any number of blocks the sender has sent the full parts of what it
/// was fed, in the order of their ids starting at 0, and holds the rest.
proof fn lemma_feed_all(sender: SenderView, blocks: Seq<Seq<u8>>)
    requires
        fresh(sender),
        joined(blocks).len() / sender.part_size <= u32::MAX,
    ensures
        ({
            let (fed, frames) = feed_all(sender, blocks);
            let source = joined(blocks);
            let size = sender.part_size;
            let full = source.len() / size;
            &&& fed.wf()
            &&& fed.part_size == size
            &&& fed.next_id == full
            &&& full * size <= source.len()
            &&& fed.pending == source.subrange((full * size) as int, source.len() as int)
            &&& frames.len() == full
            &&& forall|i: int|
                0 <= i < full ==> #[trigger] frames[i] == encode_part(
                    i as u32,
                    source.subrange(i * size, i * size + size),
                )
            &&& fed.unacked == ids_below(full)
            &&& fed.cache == cache_of(frames, full)
            &&& fed_in_bounds(sender, blocks)
        }),
    decreases blocks.len(),
{
    let size = sender.part_size;
    if blocks.len() == 0 {
        let (fed, frames) = feed_all(sender, blocks);
        assert(joined(blocks).len() == 0);
        assert(0nat / size == 0) by (nonlinear_arith)
            requires
                size >= 1,
        ;
        assert(0 * size == 0) by (nonlinear_arith);
        assert(fed.pending =~= joined(blocks).subrange(0, 0));
        assert(fed.unacked =~= ids_below(0));
        assert(fed.cache =~= cache_of(frames, 0));
    } else {
        let earlier = blocks.drop_last();
        let block = blocks.last();
        let old_source = joined(earlier);
        let source = joined(blocks);
        assert(source == old_source + block);
        let old_full = old_source.len() / size;
        let full = source.len() / size;
        assert(old_full <= full) by (nonlinear_arith)
            requires
                old_full == old_source.len() / size,
                full == source.len() / size,
                old_source.len() <= source.len(),
                size >= 1,
        ;
        lemma_feed_all(sender, earlier);
        let (before, sent) = feed_all(sender, earlier);
        let (after, more) = before.feed(block);
        let backlog = before.backlog(block);
        let added = before.completed(block);
        let base = old_full * size;
        lemma_fundamental_div_mod(backlog.len() as int, size as int);
        let rest = backlog.len() % size;
        assert((old_full + added) * size == base + size * added) by (nonlinear_arith)
            requires
                base == old_full * size,
        ;
        lemma_fundamental_div_mod_converse(
            source.len() as int,
            size as int,
            (old_full + added) as int,
            rest as int,
        );
        assert(full == old_full + added);
        assert(added * size == size * added) by (nonlinear_arith);
        assert(full * size == base + size * added);
        assert(source.len() == base + backlog.len());
        assert(full * size <= source.len());
        assert forall|k: int| 0 <= k < backlog.len() implies backlog[k] == source[base + k] by {
            if k < before.pending.len() {
                assert(backlog[k] == old_source[base + k]);
            }
        }
        assert(after.pending =~= source.subrange((full * size) as int, source.len() as int));
        let frames = sent + more;
        assert forall|i: int| 0 <= i < full implies #[trigger] frames[i] == encode_part(
            i as u32,
            source.subrange(i * size, i * size + size),
        ) by {
            if i < old_full {
                assert(i * size + size <= base) by (nonlinear_arith)
                    requires
                        0 <= i < old_full,
                        base == old_full * size,
                ;
                assert(old_source.subrange(i * size, i * size + size) =~= source.subrange(
                    i * size,
                    i * size + size,
                ));
            } else {
                let j = i - old_full;
                assert(frames[i] == more[j]);
                assert(j * size + size <= added * size) by (nonlinear_arith)
                    requires
                        0 <= j < added,
                        size >= 0,
                ;
                assert(added * size == size * added) by (nonlinear_arith);
                assert(i * size == base + j * size) by (nonlinear_arith)
                    requires
                        i == old_full + j,
                        base == old_full * size,
                ;
                assert((j + 1) * size == j * size + size) by (nonlinear_arith);
                assert(backlog.subrange(j * size, (j + 1) * size) =~= source.subrange(
                    i * size,
                    i * size + size,
                ));
            }
        }
        assert(after.unacked =~= ids_below(full));
        lemma_ids_below(full);
        assert(after.cache =~= cache_of(frames, full));
        assert(after.cache.dom() =~= after.unacked);
        assert forall|id: u32| after.cache.dom().contains(id) implies is_part_frame(
            #[trigger] after.cache[id],
            id,
            size,
        ) by {
            assert(after.cache[id] == frames[id as int]);
            assert(id * size + size <= full * size) by (nonlinear_arith)
                requires
                    0 <= id < full,
                    size >= 0,
            ;
            assert(full * size <= source.len());
            lemma_part_frame(id, source.subrange(id * size, id * size + size), size);
        }
    }
}

/// However the file is read, the sender transmits the frames of its parts:
/// each part once, in the order of the ids from 0 on, every part a full one
/// but the last.  It then holds each of them as unconfirmed, and it never
/// lacks an id, provided that the parts of the file can be counted in 32 bits.
pub proof fn lemma_transmit(sender: SenderView, blocks: Seq<Seq<u8>>)
    requires
        fresh(sender),
        parts_of(joined(blocks).len(), sender.part_size) <= u32::MAX,
    ensures
        ({
            let source = joined(blocks);
            let total = parts_of(source.len(), sender.part_size);
            let fed = feed_all(sender, blocks).0;
            let (done, frames) = transmit(sender, blocks);
            &&& fed_in_bounds(sender, blocks)
            &&& fed.wf()
            &&& fed.pending.len() > 0 ==> fed.next_id < u32::MAX
            &&& frames == part_frames(source, sender.part_size)
            &&& done.wf()
            &&& done.next_id == total
            &&& done.pending.len() == 0
            &&& done.unacked == ids_below(total)
            &&& done.cache == cache_of(frames, total)
        }),
{
    let size = sender.part_size;
    let source = joined(blocks);
    let total = parts_of(source.len(), size);
    let full = source.len() / size;
    lemma_fundamental_div_mod(source.len() as int, size as int);
    lemma_feed_all(sender, blocks);
    let (fed, sent) = feed_all(sender, blocks);
    let (done, frames) = transmit(sender, blocks);
    assert(full * size == size * full) by (nonlinear_arith);
    assert(fed.pending.len() == source.len() % size);
    lemma_ids_below(total);
    assert forall|id: int| 0 <= id < total implies #[trigger] frames[id] == encode_part(
        id as u32,
        part_of(source, size, id),
    ) by {
        lemma_part_in_file(source.len(), size, id);
        if id < full {
            assert(id * size + size <= full * size) by (nonlinear_arith)
                requires
                    0 <= id < full,
                    size >= 0,
            ;
            assert(frames[id] == sent[id]);
        } else {
            assert(part_of(source, size, id) =~= fed.pending);
        }
    }
    assert(frames =~= part_frames(source, size));
    assert(done.unacked =~= ids_below(total));
    assert(done.cache =~= cache_of(frames, total));
    assert(done.cache.dom() =~= done.unacked);
    assert forall|id: u32| done.cache.dom().contains(id) implies is_part_frame(
        #[trigger] done.cache[id],
        id,
        size,
    ) by {
        assert(done.cache[id] == frames[id as int]);
        lemma_part_in_file(source.len(), size, id as int);
        lemma_part_frame(id, part_of(source, size, id as int), size);
    }
}

/// Each frame that the sender transmits for a file decodes to one part of
/// that file: the part with the id that the frame carries, no longer than a
/// part may be.
pub proof fn lemma_frames_carry_parts(source: Seq<u8>, part_size: nat, id: int)
    requires
        1 <= part_size,
        0 <= id < parts_of(source.len(), part_size) <= u32::MAX,
    ensures
        decode(part_frames(source, part_size)[id]) == Some(
            MessageView::Part { id: id as u32, data: part_of(source, part_size, id) },
        ),
        cut_from(
            Piece { id: id as u32, data: part_of(source, part_size, id) },
            source,
            part_size,
        ),
        part_of(source, part_size, id).len() <= part_size,
{
    lemma_part_in_file(source.len(), part_size, id);
    lemma_round_trip(MessageView::Part { id: id as u32, data: part_of(source, part_size, id) });
}

} // verus!

//! The sending peer: it cuts the file into parts, keeps every part it has
//! sent until the receiver confirms it, polls for the parts that are not
//! confirmed, and resends the ones the receiver misses.

use crate::config::Config;
use crate::id_set::{increasing, member_of, IdSet};
use crate::protocol::{
    decode, encode_id_list, encode_part, frames_view, id_count_fits, id_list_frame, BufferError,
    MarshallError, Message, MessageView, LIST_HEADER, PART_HEADER, TAG_PART, TAG_SYNC,
};
use crate::bytes::{be_at, be_bytes, lemma_be_value_of_bytes};
use std::collections::HashMap;
use vstd::arithmetic::div_mod::{lemma_fundamental_div_mod, lemma_fundamental_div_mod_converse};
use vstd::pervasive::unreached;
use vstd::prelude::*;
use vstd::slice::slice_subrange;

verus! {

broadcast use vstd::std_specs::hash::group_hash_axioms;

/// Writes the frame of part `part_id` with the chunk `data` to the front of
/// `packet`.  The length of `packet` and the octets behind the frame stay as
/// they were.  A chunk longer than `part_size` is refused, and `packet`
/// stays as it was.
pub fn make_parts_packet(data: &[u8], part_id: u32, packet: &mut [u8], part_size: usize) -> (result:
    Result<(), BufferError>)
    requires
        data@.len() <= part_size ==> old(packet)@.len() >= PART_HEADER + data@.len(),
    ensures
        match result {
            Ok(()) => {
                &&& data@.len() <= part_size
                &&& final(packet)@.len() == old(packet)@.len()
                &&& final(packet)@.subrange(0, PART_HEADER + data@.len()) == encode_part(
                    part_id,
                    data@,
                )
                &&& final(packet)@.subrange(
                    PART_HEADER + data@.len(),
                    old(packet)@.len() as int,
                ) == old(packet)@.subrange(PART_HEADER + data@.len(), old(packet)@.len() as int)
            },
            Err(error) => {
                &&& data@.len() > part_size
                &&& error == BufferError::DoesNotFit
                &&& final(packet)@ == old(packet)@
            },
        },
{
    if data.len() > part_size {
        return Err(BufferError::DoesNotFit);
    }
    let ghost before = packet@;
    let length = packet.len();
    packet[0] = TAG_PART;
    packet[1] = (part_id / 0x100_0000) as u8;
    packet[2] = (part_id / 0x1_0000 % 0x100) as u8;
    packet[3] = (part_id / 0x100 % 0x100) as u8;
    packet[4] = (part_id % 0x100) as u8;
    let mut i: usize = 0;
    while i < data.len()
        invariant
            i <= data@.len(),
            packet@.len() == before.len(),
            length == before.len(),
            length >= PART_HEADER + data@.len(),
            packet@.subrange(0, PART_HEADER + i) == encode_part(part_id, data@.take(i as int)),
            packet@.subrange(PART_HEADER + i, before.len() as int) == before.subrange(
                PART_HEADER + i,
                before.len() as int,
            ),
        decreases data.len() - i,
    {
        let ghost held = packet@;
        packet[PART_HEADER + i] = data[i];
        proof {
            assert(packet@.subrange(0, PART_HEADER + i + 1) =~= held.subrange(
                0,
                PART_HEADER + i,
            ).push(data@[i as int]));
            assert(encode_part(part_id, data@.take(i + 1)) =~= encode_part(
                part_id,
                data@.take(i as int),
            ).push(data@[i as int]));
            assert(packet@.subrange(PART_HEADER + i + 1, before.len() as int) =~= held.subrange(
                PART_HEADER + i,
                before.len() as int,
            ).subrange(1, before.len() - PART_HEADER - i));
            assert(before.subrange(PART_HEADER + i + 1, before.len() as int) =~= before.subrange(
                PART_HEADER + i,
                before.len() as int,
            ).subrange(1, before.len() - PART_HEADER - i));
        }
        i += 1;
    }
    proof {
        assert(data@.take(data@.len() as int) =~= data@);
    }
    Ok(())
}

/// True if `frame` is the frame of a part with this id, no longer than a
/// part may be.
pub open spec fn is_part_frame(frame: Seq<u8>, id: u32, part_size: nat) -> bool {
    &&& PART_HEADER <= frame.len() <= PART_HEADER + part_size
    &&& frame[0] == TAG_PART
    &&& be_at(frame, 1) == id
}

/// The frame of a part of at most `part_size` octets is a part frame.
pub proof fn lemma_part_frame(id: u32, data: Seq<u8>, part_size: nat)
    requires
        data.len() <= part_size,
    ensures
        is_part_frame(encode_part(id, data), id, part_size),
{
    lemma_be_value_of_bytes(id);
    assert(encode_part(id, data).subrange(1, 5) =~= be_bytes(id));
}

/// What a sender holds, as mathematical values.
pub struct SenderView {
    /// The length of every part but the last.
    pub part_size: nat,
    /// The number of parts sent so far, which is the id of the next part.
    pub next_id: nat,
    /// The octets taken from the file that fill no part yet.
    pub pending: Seq<u8>,
    /// The ids of the parts that are sent and not confirmed.
    pub unacked: Set<u32>,
    /// The frame of each part that is sent and not confirmed.
    pub cache: Map<u32, Seq<u8>>,
}

impl SenderView {
    /// What holds of every sender.  A part is in the cache exactly as long
    /// as it is unconfirmed, and the cache holds under each id the frame of
    /// the part with that id.
    pub open spec fn wf(self) -> bool {
        &&& 1 <= self.part_size
        &&& PART_HEADER + self.part_size <= u32::MAX
        &&& self.next_id <= u32::MAX
        &&& self.pending.len() < self.part_size
        &&& self.unacked.finite()
        &&& self.cache.dom() == self.unacked
        &&& forall|id: u32| self.unacked.contains(id) ==> id < self.next_id
        &&& forall|id: u32|
            self.cache.dom().contains(id) ==> is_part_frame(
                #[trigger] self.cache[id],
                id,
                self.part_size,
            )
    }

    /// The octets that wait to be sent once `block` has been taken.
    pub open spec fn backlog(self, block: Seq<u8>) -> Seq<u8> {
        self.pending + block
    }

    /// The number of parts that `block` completes.
    pub open spec fn completed(self, block: Seq<u8>) -> nat {
        self.backlog(block).len() / self.part_size
    }

    /// The frame of the `i`-th part that `block` completes.
    pub open spec fn frame(self, block: Seq<u8>, i: int) -> Seq<u8> {
        encode_part(
            (self.next_id + i) as u32,
            self.backlog(block).subrange(i * self.part_size, (i + 1) * self.part_size),
        )
    }

    /// True if the ids that are left suffice for the parts that a block of
    /// `octets` octets completes.  Ids are 32 bits wide, and the number of
    /// parts must fit in 32 bits too.
    pub open spec fn has_ids_for(self, octets: nat) -> bool {
        self.next_id + (self.pending.len() + octets) / self.part_size <= u32::MAX
    }

    /// The sender after it has taken `block` from the file, and the frames
    /// to transmit.  Every part that the block completes is sent under the
    /// next free id and kept as unconfirmed.
    pub open spec fn feed(self, block: Seq<u8>) -> (SenderView, Seq<Seq<u8>>) {
        let n = self.completed(block);
        let first = self.next_id;
        (
            SenderView {
                next_id: first + n,
                pending: self.backlog(block).subrange(
                    (n * self.part_size) as int,
                    self.backlog(block).len() as int,
                ),
                unacked: self.unacked.union(Set::new(|id: u32| first <= id < first + n)),
                cache: self.cache.union_prefer_right(
                    Map::new(
                        |id: u32| first <= id < first + n,
                        |id: u32| self.frame(block, id - first),
                    ),
                ),
                ..self
            },
            Seq::new(n, |i: int| self.frame(block, i)),
        )
    }

    /// The sender at the end of the file, and the frame to transmit if
    /// octets are left over: they make the last, shorter part.
    pub open spec fn finish(self) -> (SenderView, Option<Seq<u8>>) {
        if self.pending.len() == 0 {
            (self, None)
        } else {
            let id = self.next_id as u32;
            let frame = encode_part(id, self.pending);
            (
                SenderView {
                    next_id: self.next_id + 1,
                    pending: Seq::empty(),
                    unacked: self.unacked.insert(id),
                    cache: self.cache.insert(id, frame),
                    ..self
                },
                Some(frame),
            )
        }
    }

    /// The sender after the receiver has confirmed `ids`: they are
    /// unconfirmed no longer, and their frames are dropped.
    pub open spec fn acknowledge(self, ids: Set<u32>) -> SenderView {
        SenderView {
            unacked: self.unacked.difference(ids),
            cache: self.cache.remove_keys(ids),
            ..self
        }
    }

    /// The frames to send again when the receiver misses `ids`: the kept
    /// frame of each id that has one, in the order of the list.
    pub open spec fn retransmit(self, ids: Seq<u32>) -> Seq<Seq<u8>> {
        ids.filter(member_of(self.cache.dom())).map_values(|id: u32| self.cache[id])
    }
}

/// What a datagram from the receiver made the sender do.
#[derive(Debug)]
pub enum Feedback {
    /// Parts were confirmed.
    Acked,
    /// Parts were missed: these frames are to be sent again.
    Resend { frames: Vec<Vec<u8>> },
    /// A message that a sender has no use for.  It is dropped.
    Unexpected { message: Message },
    /// Octets that are no frame.  They are dropped.
    Malformed { error: MarshallError },
}

/// The sending peer.
pub struct Sender {
    part_size: usize,
    next_id: u32,
    pending: Vec<u8>,
    unacked: IdSet,
    cache: HashMap<u32, Vec<u8>>,
}

impl View for Sender {
    type V = SenderView;

    closed spec fn view(&self) -> SenderView {
        SenderView {
            part_size: self.part_size as nat,
            next_id: self.next_id as nat,
            pending: self.pending@,
            unacked: self.unacked@,
            cache: self.cache@.map_values(|frame: Vec<u8>| frame@),
        }
    }
}

impl Sender {
    /// True if the unconfirmed ids are stored in order.
    pub closed spec fn unacked_in_order(&self) -> bool {
        self.unacked.wf()
    }

    /// The invariant of the sender.
    pub open spec fn wf(&self) -> bool {
        self.unacked_in_order() && self@.wf()
    }

    /// The unconfirmed ids in the order in which a poll lists them.
    pub closed spec fn poll_list(&self) -> Seq<u32> {
        self.unacked.ascending()
    }

    /// A poll lists every unconfirmed id once, least first.
    pub proof fn lemma_poll_list(&self)
        requires
            self.wf(),
        ensures
            increasing(self.poll_list()),
            self.poll_list().no_duplicates(),
            self.poll_list().to_set() == self@.unacked,
            self.poll_list().len() == self@.unacked.len(),
    {
        self.unacked.lemma_ascending();
    }

    /// A sender that has sent nothing.
    pub fn new(config: &Config) -> (sender: Self)
        requires
            config.wf(),
        ensures
            sender.wf(),
            sender@ == (SenderView {
                part_size: config.spec_part_size(),
                next_id: 0,
                pending: Seq::empty(),
                unacked: Set::empty(),
                cache: Map::empty(),
            }),
    {
        let sender = Sender {
            part_size: config.part_size(),
            next_id: 0,
            pending: Vec::new(),
            unacked: IdSet::new(),
            cache: HashMap::new(),
        };
        proof {
            assert(sender@.cache =~= Map::<u32, Seq<u8>>::empty());
            assert(sender@.cache.dom() =~= sender@.unacked);
        }
        sender
    }

    /// Tells whether the ids that are left suffice for a block of `length`
    /// octets.
    pub fn has_ids_for(&self, length: usize) -> (enough: bool)
        requires
            self.wf(),
        ensures
            enough == self@.has_ids_for(length as nat),
    {
        let size = self.part_size as u128;
        let backlog = self.pending.len() as u128 + length as u128;
        backlog / size <= (u32::MAX - self.next_id) as u128
    }

    /// Takes the next block of the file and returns the frames to transmit,
    /// in this order.  Octets that fill no part wait for the next block.
    pub fn feed(&mut self, block: &[u8]) -> (frames: Vec<Vec<u8>>)
        requires
            old(self).wf(),
            old(self)@.has_ids_for(block@.len()),
        ensures
            final(self).wf(),
            (final(self)@, frames_view(frames@)) == old(self)@.feed(block@),
    {
        let ghost start = self@;
        let ghost all = start.backlog(block@);
        let size = self.part_size;
        let mut frames: Vec<Vec<u8>> = Vec::new();
        let mut pos: usize = 0;
        let ghost mut base: int = 0;
        proof {
            assert(frames@.len() * size == 0) by (nonlinear_arith)
                requires
                    frames@.len() == 0,
            ;
            assert(self.pending@ =~= all.subrange(0, self.pending@.len() as int));
            assert(self@.unacked =~= start.unacked.union(
                Set::new(|id: u32| start.next_id <= id < start.next_id + 0),
            ));
            assert(self@.cache =~= start.cache.union_prefer_right(
                Map::new(
                    |id: u32| start.next_id <= id < start.next_id + 0,
                    |id: u32| start.frame(block@, id - start.next_id),
                ),
            ));
        }
        while block.len() - pos >= size - self.pending.len()
            invariant
                self.unacked.wf(),
                start.wf(),
                self.part_size == size,
                size == start.part_size,
                PART_HEADER + size <= u32::MAX,
                all == start.backlog(block@),
                start.has_ids_for(block@.len()),
                pos <= block.len(),
                self.pending@.len() < size,
                base == frames@.len() * size,
                base + self.pending@.len() == start.pending.len() + pos,
                self.pending@ == all.subrange(base, base + self.pending@.len()),
                self.next_id == start.next_id + frames@.len(),
                self@.cache.dom() == self@.unacked,
                forall|id: u32| self@.unacked.contains(id) ==> id < self.next_id,
                forall|id: u32|
                    self@.cache.dom().contains(id) ==> is_part_frame(
                        #[trigger] self@.cache[id],
                        id,
                        size as nat,
                    ),
                forall|i: int|
                    0 <= i < frames@.len() ==> (#[trigger] frames@[i])@ == start.frame(block@, i),
                self@.unacked == start.unacked.union(
                    Set::new(|id: u32| start.next_id <= id < start.next_id + frames@.len()),
                ),
                self@.cache == start.cache.union_prefer_right(
                    Map::new(
                        |id: u32| start.next_id <= id < start.next_id + frames@.len(),
                        |id: u32| start.frame(block@, id - start.next_id),
                    ),
                ),
            decreases block.len() - pos,
        {
            let ghost sent = frames@.len() as int;
            let ghost held = self.pending@;
            let ghost kept = self@.cache;
            let ghost waiting = self@.unacked;
            let take = size - self.pending.len();
            self.pending.extend_from_slice(slice_subrange(block, pos, pos + take));
            proof {
                assert((sent + 1) * size == base + size) by (nonlinear_arith)
                    requires
                        base == sent * size,
                ;
                assert(base + size <= all.len());
                assert(sent + 1 <= (all.len() as int) / (size as int)) by (nonlinear_arith)
                    requires
                        (sent + 1) * size <= all.len(),
                        size >= 1,
                ;
                assert(self.pending@ =~= all.subrange(base, base + size));
            }
            let id = self.next_id;
            let mut packet: Vec<u8> = vec![0u8; PART_HEADER + size];
            match make_parts_packet(self.pending.as_slice(), id, packet.as_mut_slice(), size) {
                Ok(()) => {},
                Err(_) => {
                    unreached::<()>();
                },
            }
            proof {
                assert(packet@ =~= packet@.subrange(0, PART_HEADER + size));
                assert(packet@ == start.frame(block@, sent));
                lemma_part_frame(id, self.pending@, size as nat);
            }
            self.cache.insert(id, packet.clone());
            self.unacked.insert(id);
            frames.push(packet);
            self.next_id = id + 1;
            self.pending.clear();
            pos = pos + take;
            proof {
                base = base + size;
                assert(self.pending@ =~= all.subrange(base, base));
                assert(self@.unacked =~= start.unacked.union(
                    Set::new(|id: u32| start.next_id <= id < start.next_id + frames@.len()),
                ));
                assert(self@.cache =~= kept.insert(id, packet@));
                assert(self@.cache =~= start.cache.union_prefer_right(
                    Map::new(
                        |id: u32| start.next_id <= id < start.next_id + frames@.len(),
                        |id: u32| start.frame(block@, id - start.next_id),
                    ),
                ));
            }
        }
        let ghost held = self.pending@;
        self.pending.extend_from_slice(slice_subrange(block, pos, block.len()));
        proof {
            let sent = frames@.len() as int;
            assert(self.pending@ =~= all.subrange(base, all.len() as int));
            lemma_fundamental_div_mod_converse(
                all.len() as int,
                size as int,
                sent,
                self.pending@.len() as int,
            );
            assert(sent == start.completed(block@));
            assert(frames_view(frames@) =~= start.feed(block@).1);
            self.unacked.lemma_ascending();
        }
        frames
    }

    /// Tells whether the file can end here: either no octets are left over,
    /// or an id is left for the part they make.
    pub fn can_finish(&self) -> (possible: bool)
        requires
            self.wf(),
        ensures
            possible == (self@.pending.len() > 0 ==> self@.next_id < u32::MAX),
    {
        self.pending.len() == 0 || self.next_id < u32::MAX
    }

    /// Ends the file: the octets that are left over, if any, make the last
    /// part.  Returns its frame to transmit.
    pub fn finish(&mut self) -> (frame: Option<Vec<u8>>)
        requires
            old(self).wf(),
            old(self)@.pending.len() > 0 ==> old(self)@.next_id < u32::MAX,
        ensures
            final(self).wf(),
            final(self)@ == old(self)@.finish().0,
            match frame {
                Some(frame) => old(self)@.finish().1 == Some(frame@),
                None => old(self)@.finish().1 is None,
            },
    {
        if self.pending.len() == 0 {
            return None;
        }
        let ghost kept = self@.cache;
        let id = self.next_id;
        let mut packet: Vec<u8> = vec![0u8; PART_HEADER + self.pending.len()];
        match make_parts_packet(
            self.pending.as_slice(),
            id,
            packet.as_mut_slice(),
            self.part_size,
        ) {
            Ok(()) => {},
            Err(_) => {
                unreached::<()>();
            },
        }
        proof {
            assert(packet@ =~= packet@.subrange(0, PART_HEADER + self.pending@.len()));
            lemma_part_frame(id, self.pending@, self.part_size as nat);
        }
        self.cache.insert(id, packet.clone());
        self.unacked.insert(id);
        self.next_id = id + 1;
        self.pending.clear();
        proof {
            assert(self@.pending =~= Seq::<u8>::empty());
            assert(self@.cache =~= kept.insert(id, packet@));
            assert(self@.cache.dom() =~= self@.unacked);
        }
        Some(packet)
    }

    /// Tells whether the transfer is over for the sender.  `sent_all` says
    /// that the file has been fed to its end; the transfer is over when,
    /// besides, no octet waits to be sent and no part waits to be confirmed.
    pub fn is_done(&self, sent_all: bool) -> (done: bool)
        requires
            self.wf(),
        ensures
            done == (sent_all && self@.pending.len() == 0 && self@.unacked.len() == 0),
    {
        sent_all && self.pending.len() == 0 && self.unacked.len() == 0
    }

    /// The number of parts that are sent and not confirmed.
    pub fn outstanding(&self) -> (count: usize)
        requires
            self.wf(),
        ensures
            count == self@.unacked.len(),
    {
        self.unacked.len()
    }

    /// The ids that are sent and not confirmed, least first.
    pub fn unconfirmed(&self) -> (ids: Vec<u32>)
        requires
            self.wf(),
        ensures
            ids@ == self.poll_list(),
    {
        self.unacked.to_vec()
    }

    /// Tells whether a poll for the unconfirmed ids has a frame.
    pub fn can_poll(&self) -> (fits: bool)
        requires
            self.wf(),
        ensures
            fits == id_count_fits(self@.unacked.len()),
    {
        let n = self.unacked.len();
        n <= u32::MAX as usize && n <= (usize::MAX - LIST_HEADER) / 4
    }

    /// The frame of the next poll: one Sync message that lists every
    /// unconfirmed id.  With nothing unconfirmed the list is empty, and the
    /// poll is sent all the same.
    pub fn sync_frame(&self) -> (frame: Vec<u8>)
        requires
            self.wf(),
            id_count_fits(self@.unacked.len()),
        ensures
            frame@ == encode_id_list(TAG_SYNC, self.poll_list()),
    {
        proof {
            self.lemma_poll_list();
        }
        let ids = self.unacked.to_vec();
        id_list_frame(TAG_SYNC, &ids)
    }

    /// Takes an Ack: every listed id leaves the unconfirmed set and the
    /// cache.  An id that is not unconfirmed, or listed twice, is passed over.
    pub fn acknowledge(&mut self, ids: &Vec<u32>)
        requires
            old(self).wf(),
        ensures
            final(self).wf(),
            final(self)@ == old(self)@.acknowledge(ids@.to_set()),
            forall|i: int|
                0 <= i < ids@.len() ==> !final(self)@.unacked.contains(#[trigger] ids@[i])
                    && !final(self)@.cache.dom().contains(ids@[i]),
    {
        let ghost start = self@;
        let mut i: usize = 0;
        proof {
            assert(ids@.take(0).to_set() =~= Set::<u32>::empty());
            assert(self@.unacked =~= start.unacked.difference(ids@.take(0).to_set()));
            assert(self@.cache =~= start.cache.remove_keys(ids@.take(0).to_set()));
        }
        while i < ids.len()
            invariant
                i <= ids.len(),
                self.wf(),
                start.wf(),
                self@ == start.acknowledge(ids@.take(i as int).to_set()),
            decreases ids.len() - i,
        {
            let id = ids[i];
            let ghost kept = self@.cache;
            self.unacked.remove(id);
            self.cache.remove(&id);
            proof {
                let before = ids@.take(i as int).to_set();
                let after = ids@.take(i + 1).to_set();
                assert(ids@.take(i + 1) =~= ids@.take(i as int).push(id));
                assert(after =~= before.insert(id)) by {
                    ids@.take(i as int).lemma_push_to_set_commute(id);
                }
                assert(self@.cache =~= kept.remove(id));
                assert(self@.unacked =~= start.unacked.difference(after));
                assert(self@.cache =~= start.cache.remove_keys(after));
                assert(self@.cache.dom() =~= self@.unacked);
            }
            i += 1;
        }
        proof {
            assert(ids@.take(ids.len() as int) =~= ids@);
            assert forall|k: int| 0 <= k < ids@.len() implies !self@.unacked.contains(
                #[trigger] ids@[k],
            ) && !self@.cache.dom().contains(ids@[k]) by {
                assert(ids@.contains(ids@[k]));
            }
        }
    }

    /// The frames to send again for a Loss, in the order of its list.  Each
    /// is the frame that was sent before, octet for octet.  An id without a
    /// kept frame is passed over.
    pub fn retransmit(&self, ids: &Vec<u32>) -> (frames: Vec<Vec<u8>>)
        requires
            self.wf(),
        ensures
            frames_view(frames@) == self@.retransmit(ids@),
    {
        let ghost view = self@;
        let ghost known = member_of(view.cache.dom());
        let ghost kept = |id: u32| view.cache[id];
        let mut frames: Vec<Vec<u8>> = Vec::new();
        let mut i: usize = 0;
        proof {
            assert(ids@.take(0) =~= Seq::<u32>::empty());
            assert(ids@.take(0).filter(known) =~= Seq::<u32>::empty()) by {
                ids@.take(0).lemma_filter_len(known);
            }
            assert(frames_view(frames@) =~= ids@.take(0).filter(known).map_values(kept));
        }
        while i < ids.len()
            invariant
                i <= ids.len(),
                self.wf(),
                view == self@,
                known == member_of(view.cache.dom()),
                kept == (|id: u32| view.cache[id]),
                frames_view(frames@) == ids@.take(i as int).filter(known).map_values(kept),
            decreases ids.len() - i,
        {
            let id = ids[i];
            let ghost done = frames_view(frames@);
            proof {
                let seen = ids@.take(i as int);
                assert(ids@.take(i + 1) =~= seen.push(id));
                seen.lemma_filter_push(id, known);
            }
            match self.cache.get(&id) {
                Some(frame) => {
                    let copy = frame.clone();
                    proof {
                        assert(copy@ =~= frame@);
                        assert(view.cache[id] == frame@);
                    }
                    frames.push(copy);
                    proof {
                        let chosen = ids@.take(i as int).filter(known);
                        assert(frames_view(frames@) =~= done.push(kept(id)));
                        assert(chosen.push(id).map_values(kept) =~= chosen.map_values(kept).push(
                            kept(id),
                        ));
                    }
                },
                None => {},
            }
            i += 1;
        }
        proof {
            assert(ids@.take(ids.len() as int) =~= ids@);
        }
        frames
    }

    /// Takes one datagram from the receiver.  An Ack is applied, a Loss is
    /// answered with the frames to send again, anything else is handed back
    /// to be logged and changes nothing.
    pub fn on_datagram(&mut self, data: &[u8]) -> (feedback: Feedback)
        requires
            old(self).wf(),
        ensures
            final(self).wf(),
            match decode(data@) {
                Some(MessageView::Ack { ids }) => {
                    &&& feedback is Acked
                    &&& final(self)@ == old(self)@.acknowledge(ids.to_set())
                },
                Some(MessageView::Loss { ids }) => {
                    &&& feedback matches Feedback::Resend { frames }
                    &&& frames_view(frames@) == old(self)@.retransmit(ids)
                    &&& final(self)@ == old(self)@
                },
                Some(other) => {
                    &&& feedback matches Feedback::Unexpected { message }
                    &&& message@ == other
                    &&& final(self)@ == old(self)@
                },
                None => {
                    &&& feedback matches Feedback::Malformed { error }
                    &&& error == MarshallError::UnableToDeserialize
                    &&& final(self)@ == old(self)@
                },
            },
    {
        match Message::parse(data) {
            Ok(Message::Ack { ids }) => {
                self.acknowledge(&ids);
                Feedback::Acked
            },
            Ok(Message::Loss { ids }) => {
                let frames = self.retransmit(&ids);
                Feedback::Resend { frames }
            },
            Ok(message) => Feedback::Unexpected { message },
            Err(error) => Feedback::Malformed { error },
        }
    }
}

/// Once the receiver has confirmed parts, a report that it misses them is
/// answered with nothing: their frames are gone from the cache, and no
/// frame is sent for them again.
pub proof fn lemma_loss_after_ack(sender: SenderView, confirmed: Set<u32>, missed: Seq<u32>)
    requires
        forall|i: int| 0 <= i < missed.len() ==> confirmed.contains(#[trigger] missed[i]),
    ensures
        forall|i: int|
            0 <= i < missed.len() ==> {
                &&& !sender.acknowledge(confirmed).unacked.contains(#[trigger] missed[i])
                &&& !sender.acknowledge(confirmed).cache.dom().contains(missed[i])
            },
        sender.acknowledge(confirmed).retransmit(missed) == Seq::<Seq<u8>>::empty(),
{
    let after = sender.acknowledge(confirmed);
    let kept = member_of(after.cache.dom());
    let chosen = missed.filter(kept);
    if chosen.len() > 0 {
        missed.lemma_filter_pred(kept, 0);
        missed.lemma_filter_contains_rev(kept, chosen[0]);
        let k = choose|k: int| 0 <= k < missed.len() && missed[k] == chosen[0];
        assert(confirmed.contains(missed[k]));
    }
    assert(after.retransmit(missed) =~= Seq::<Seq<u8>>::empty());
}

/// No part frame is longer than the path carries: a frame that the sender
/// transmits for a block is a tag, an id and a full part, the frame of the
/// last part of the file is no longer, and neither is a frame that is sent
/// again.
pub proof fn lemma_frames_fit(sender: SenderView, block: Seq<u8>, missed: Seq<u32>)
    requires
        sender.wf(),
    ensures
        forall|i: int|
            0 <= i < sender.feed(block).1.len() ==> (#[trigger] sender.feed(block).1[i]).len()
                == PART_HEADER + sender.part_size,
        sender.finish().1 matches Some(frame) ==> frame.len() <= PART_HEADER + sender.part_size,
        forall|i: int|
            0 <= i < sender.retransmit(missed).len() ==> (#[trigger] sender.retransmit(
                missed,
            )[i]).len() <= PART_HEADER + sender.part_size,
{
    let size = sender.part_size;
    let backlog = sender.backlog(block);
    let count = sender.completed(block);
    lemma_fundamental_div_mod(backlog.len() as int, size as int);
    assert forall|i: int| 0 <= i < sender.feed(block).1.len() implies (
    #[trigger] sender.feed(block).1[i]).len() == PART_HEADER + size by {
        assert((i + 1) * size <= count * size) by (nonlinear_arith)
            requires
                0 <= i < count,
                size >= 0,
        ;
        assert(count * size == size * count) by (nonlinear_arith);
        assert(i * size + size == (i + 1) * size) by (nonlinear_arith);
    }
    let kept = member_of(sender.cache.dom());
    assert forall|i: int| 0 <= i < sender.retransmit(missed).len() implies (
    #[trigger] sender.retransmit(missed)[i]).len() <= PART_HEADER + size by {
        missed.lemma_filter_pred(kept, i);
        let id = missed.filter(kept)[i];
        assert(is_part_frame(sender.cache[id], id, size));
    }
}

} // verus!

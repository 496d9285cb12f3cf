//! The receiving peer's listener: it sorts incoming datagrams into parts for
//! the writer and polls to answer, and remembers which parts have arrived.

use crate::id_set::{member_of, missing_from, IdSet};
use crate::protocol::{
    decode, encode_id_list, frames_view, id_count_fits, id_list_frame, MarshallError, Message,
    MessageView, LIST_HEADER, PART_HEADER, TAG_ACK, TAG_LOSS,
};
use vstd::prelude::*;

verus! {

/// The frames that answer a poll: an Ack frame where parts are confirmed,
/// then a Loss frame where parts are missed.  An empty list is not sent.
pub open spec fn reply_frames(ack: Seq<u32>, loss: Seq<u32>) -> Seq<Seq<u8>> {
    let confirmed = if ack.len() > 0 {
        seq![encode_id_list(TAG_ACK, ack)]
    } else {
        Seq::<Seq<u8>>::empty()
    };
    let missed = if loss.len() > 0 {
        seq![encode_id_list(TAG_LOSS, loss)]
    } else {
        Seq::<Seq<u8>>::empty()
    };
    confirmed + missed
}

/// The answer to a poll: the polled ids that have arrived, and those that
/// have not.
#[derive(Debug)]
pub struct Sync {
    pub ack: Vec<u32>,
    pub loss: Vec<u32>,
}

impl Sync {
    /// An answer that confirms `ack` and misses `loss`.
    pub fn new(ack: Vec<u32>, loss: Vec<u32>) -> (sync: Self)
        ensures
            sync.ack == ack,
            sync.loss == loss,
    {
        Sync { ack, loss }
    }

    /// Splits the polled ids into those that are in `received` and those
    /// that are not.  Each list keeps the order of the poll.
    pub fn partition(received: &IdSet, ids: &Vec<u32>) -> (sync: Self)
        requires
            received.wf(),
        ensures
            sync.ack@ == ids@.filter(member_of(received@)),
            sync.loss@ == ids@.filter(missing_from(received@)),
            sync.ack@.to_set() == ids@.to_set().intersect(received@),
            sync.loss@.to_set() == ids@.to_set().difference(received@),
            sync.ack@.to_set().union(sync.loss@.to_set()) == ids@.to_set(),
            sync.ack@.to_set().disjoint(sync.loss@.to_set()),
            sync.ack@.len() + sync.loss@.len() == ids@.len(),
    {
        let mut ack: Vec<u32> = Vec::new();
        let mut loss: Vec<u32> = Vec::new();
        let mut i: usize = 0;
        while i < ids.len()
            invariant
                i <= ids.len(),
                received.wf(),
                ack@ == ids@.take(i as int).filter(member_of(received@)),
                loss@ == ids@.take(i as int).filter(missing_from(received@)),
                ack@.len() + loss@.len() == i,
            decreases ids.len() - i,
        {
            let id = ids[i];
            proof {
                let seen = ids@.take(i as int);
                assert(ids@.take(i + 1) =~= seen.push(id));
                seen.lemma_filter_push(id, member_of(received@));
                seen.lemma_filter_push(id, missing_from(received@));
            }
            if received.contains(id) {
                ack.push(id);
            } else {
                loss.push(id);
            }
            i += 1;
        }
        proof {
            assert(ids@.take(ids.len() as int) =~= ids@);
            lemma_partition(ids@, received@);
        }
        Sync { ack, loss }
    }

    /// Tells whether both lists have a frame.  The answer to a poll that
    /// arrived in a frame always has.
    pub fn fits(&self) -> (yes: bool)
        ensures
            yes == (id_count_fits(self.ack@.len()) && id_count_fits(self.loss@.len())),
    {
        let most = (usize::MAX - LIST_HEADER) / 4;
        self.ack.len() <= u32::MAX as usize && self.ack.len() <= most && self.loss.len()
            <= u32::MAX as usize && self.loss.len() <= most
    }

    /// The frames to send for this answer.
    pub fn frames(&self) -> (frames: Vec<Vec<u8>>)
        requires
            id_count_fits(self.ack@.len()),
            id_count_fits(self.loss@.len()),
        ensures
            frames_view(frames@) == reply_frames(self.ack@, self.loss@),
    {
        let mut frames: Vec<Vec<u8>> = Vec::new();
        if self.ack.len() > 0 {
            frames.push(id_list_frame(TAG_ACK, &self.ack));
        }
        if self.loss.len() > 0 {
            frames.push(id_list_frame(TAG_LOSS, &self.loss));
        }
        proof {
            assert(frames_view(frames@) =~= reply_frames(self.ack@, self.loss@));
        }
        frames
    }
}

/// What a datagram asks of the receiving peer.
#[derive(Debug)]
pub enum Incoming {
    /// A part of the file, to be handed to the writer.  `finished` tells
    /// whether every part of the file has now arrived.
    Part { id: u32, data: Vec<u8>, finished: bool },
    /// A poll of the sender, with the answer to send back.
    Poll { reply: Sync },
    /// A message that a receiver has no use for.  It is dropped.
    Unexpected { message: Message },
    /// Octets that are no frame.  They are dropped.
    Malformed { error: MarshallError },
}

/// The listener of the receiving peer.
pub struct Listener {
    total: u32,
    received: IdSet,
}

impl Listener {
    /// The invariant of the listener.
    pub closed spec fn wf(&self) -> bool {
        self.received.wf()
    }

    /// The number of parts that the sender announced.
    pub closed spec fn total(&self) -> u32 {
        self.total
    }

    /// The ids of the parts that have arrived.
    pub closed spec fn received(&self) -> Set<u32> {
        self.received@
    }

    /// True once as many different parts have arrived as were announced.
    pub open spec fn finished(&self) -> bool {
        self.received().len() >= self.total()
    }

    /// A listener for a file of `total` parts, none of which has arrived.
    pub fn new(total: u32) -> (listener: Self)
        ensures
            listener.wf(),
            listener.total() == total,
            listener.received() == Set::<u32>::empty(),
    {
        Listener { total, received: IdSet::new() }
    }

    /// Tells whether every part has arrived.
    pub fn is_finished(&self) -> (done: bool)
        requires
            self.wf(),
        ensures
            done == self.finished(),
    {
        self.received.len() >= self.total as usize
    }

    /// Tells whether the receiver may stop listening once it has sent
    /// `reply`: every part has arrived, and the answer misses none, so the
    /// sender learns from it that nothing is left to send again.
    pub fn may_stop(&self, reply: &Sync) -> (stop: bool)
        requires
            self.wf(),
        ensures
            stop == (self.finished() && reply.loss@.len() == 0),
    {
        self.received.len() >= self.total as usize && reply.loss.len() == 0
    }

    /// The parts that have arrived.
    pub fn arrived(&self) -> (set: &IdSet)
        requires
            self.wf(),
        ensures
            set.wf(),
            set@ == self.received(),
    {
        &self.received
    }

    /// Takes one datagram.  A part is recorded as arrived, however often it
    /// arrives; a poll is answered from the parts recorded so far; anything
    /// else is handed back to be logged, and changes nothing.
    pub fn on_datagram(&mut self, data: &[u8]) -> (event: Incoming)
        requires
            old(self).wf(),
        ensures
            final(self).wf(),
            final(self).total() == old(self).total(),
            match decode(data@) {
                Some(MessageView::Part { id, data: chunk }) => {
                    &&& event matches Incoming::Part { id: got, data: held, finished }
                    &&& got == id
                    &&& held@ == chunk
                    &&& chunk.len() == data@.len() - PART_HEADER
                    &&& finished == final(self).finished()
                    &&& final(self).received() == old(self).received().insert(id)
                },
                Some(MessageView::Sync { ids }) => {
                    &&& event matches Incoming::Poll { reply }
                    &&& reply.ack@ == ids.filter(member_of(old(self).received()))
                    &&& reply.loss@ == ids.filter(missing_from(old(self).received()))
                    &&& id_count_fits(reply.ack@.len())
                    &&& id_count_fits(reply.loss@.len())
                    &&& final(self).received() == old(self).received()
                },
                Some(other) => {
                    &&& event matches Incoming::Unexpected { message }
                    &&& message@ == other
                    &&& final(self).received() == old(self).received()
                },
                None => {
                    &&& event matches Incoming::Malformed { error }
                    &&& error == MarshallError::UnableToDeserialize
                    &&& final(self).received() == old(self).received()
                },
            },
    {
        match Message::parse(data) {
            Ok(Message::Part { id, data: chunk }) => {
                self.received.insert(id);
                let finished = self.received.len() >= self.total as usize;
                Incoming::Part { id, data: chunk, finished }
            },
            Ok(Message::Sync { ids }) => {
                let reply = Sync::partition(&self.received, &ids);
                proof {
                    assert(LIST_HEADER + 4 * ids@.len() <= data.len());
                }
                Incoming::Poll { reply }
            },
            Ok(message) => Incoming::Unexpected { message },
            Err(error) => Incoming::Malformed { error },
        }
    }
}

/// Splitting a poll by membership in `known` loses no id and invents none:
/// the confirmed ids are the polled ids that are known, the missed ids are
/// the polled ids that are not, together they are the polled ids, and no id
/// is in both.
pub proof fn lemma_partition(polled: Seq<u32>, known: Set<u32>)
    ensures
        polled.filter(member_of(known)).to_set() == polled.to_set().intersect(known),
        polled.filter(missing_from(known)).to_set() == polled.to_set().difference(known),
        polled.filter(member_of(known)).to_set().union(
            polled.filter(missing_from(known)).to_set(),
        ) == polled.to_set(),
        polled.filter(member_of(known)).to_set().disjoint(
            polled.filter(missing_from(known)).to_set(),
        ),
{
    let ack = polled.filter(member_of(known));
    let loss = polled.filter(missing_from(known));
    assert forall|id: u32| ack.contains(id) <==> (polled.contains(id) && known.contains(id)) by {
        if ack.contains(id) {
            let k = choose|k: int| 0 <= k < ack.len() && ack[k] == id;
            polled.lemma_filter_pred(member_of(known), k);
            polled.lemma_filter_contains_rev(member_of(known), id);
        }
        if polled.contains(id) && known.contains(id) {
            let k = choose|k: int| 0 <= k < polled.len() && polled[k] == id;
            polled.lemma_filter_contains(member_of(known), k);
        }
    }
    assert forall|id: u32| loss.contains(id) <==> (polled.contains(id) && !known.contains(id)) by {
        if loss.contains(id) {
            let k = choose|k: int| 0 <= k < loss.len() && loss[k] == id;
            polled.lemma_filter_pred(missing_from(known), k);
            polled.lemma_filter_contains_rev(missing_from(known), id);
        }
        if polled.contains(id) && !known.contains(id) {
            let k = choose|k: int| 0 <= k < polled.len() && polled[k] == id;
            polled.lemma_filter_contains(missing_from(known), k);
        }
    }
    assert(ack.to_set() =~= polled.to_set().intersect(known));
    assert(loss.to_set() =~= polled.to_set().difference(known));
    assert(ack.to_set().union(loss.to_set()) =~= polled.to_set());
}

} // verus!

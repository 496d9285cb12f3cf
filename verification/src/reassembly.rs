//! The receiving peer's writer: it collects the parts that arrive, in any
//! order and however often, and turns them into positioned writes on the
//! destination file.
//!
//! Part `id` belongs at offset `id * part_size`.  Parts wait in a buffer,
//! ordered by id, until the buffer is full or the last missing part has
//! arrived.  Then the buffer is flushed: neighbours in the buffer whose
//! octets are neighbours in the file leave as one write.

use crate::config::Config;
use crate::id_set::IdSet;
use crate::protocol::BufferError;
use vstd::prelude::*;

verus! {

/// A part of the file, as mathematical values.
pub struct Piece {
    pub id: u32,
    pub data: Seq<u8>,
}

/// A positioned write, as mathematical values: `data` goes to the octets
/// from `offset` on.
pub struct Write {
    pub offset: int,
    pub data: Seq<u8>,
}

/// A part of the file that waits to be written.
#[derive(Debug)]
pub struct Chunk {
    pub id: u32,
    pub data: Vec<u8>,
}

impl View for Chunk {
    type V = Piece;

    open spec fn view(&self) -> Piece {
        Piece { id: self.id, data: self.data@ }
    }
}

/// A positioned write on the destination file.
#[derive(Debug, PartialEq, Eq)]
pub struct WriteOp {
    pub offset: u64,
    pub data: Vec<u8>,
}

impl View for WriteOp {
    type V = Write;

    open spec fn view(&self) -> Write {
        Write { offset: self.offset as int, data: self.data@ }
    }
}

/// The parts of a buffer, as mathematical values.
pub open spec fn pieces(buffer: Seq<Chunk>) -> Seq<Piece> {
    buffer.map_values(|chunk: Chunk| chunk@)
}

/// The writes of a list, as mathematical values.
pub open spec fn writes_view(writes: Seq<WriteOp>) -> Seq<Write> {
    writes.map_values(|write: WriteOp| write@)
}

/// True if the ids never decrease along the buffer.
pub open spec fn sorted(buffer: Seq<Piece>) -> bool {
    forall|i: int, j: int| 0 <= i < j < buffer.len() ==> buffer[i].id <= buffer[j].id
}

/// Where a part with this id enters the buffer: behind the last part whose
/// id is not greater, so that parts with one id stay in the order of their
/// arrival.
pub open spec fn insertion_point(buffer: Seq<Piece>, id: u32) -> int
    decreases buffer.len(),
{
    if buffer.len() == 0 || buffer.last().id <= id {
        buffer.len() as int
    } else {
        insertion_point(buffer.drop_last(), id)
    }
}

/// The buffer after a part has entered it.
pub open spec fn insert_sorted(buffer: Seq<Piece>, piece: Piece) -> Seq<Piece> {
    buffer.insert(insertion_point(buffer, piece.id), piece)
}

/// True if `next` can leave in one write with `previous`: it is the part
/// after it, and `previous` fills its place in the file to the last octet.
pub open spec fn continues(previous: Piece, next: Piece, part_size: nat) -> bool {
    next.id == previous.id + 1 && previous.data.len() == part_size
}

/// The writes that flush a buffer.  Each part starts a new write at its own
/// offset unless it continues the part before it, in which case its octets
/// are appended to the write of that part.
pub open spec fn runs(buffer: Seq<Piece>, part_size: nat) -> Seq<Write>
    decreases buffer.len(),
{
    if buffer.len() == 0 {
        Seq::empty()
    } else if buffer.len() == 1 {
        seq![Write { offset: buffer[0].id * part_size, data: buffer[0].data }]
    } else {
        let before = runs(buffer.drop_last(), part_size);
        let previous = buffer[buffer.len() - 2];
        let next = buffer.last();
        if continues(previous, next, part_size) {
            before.drop_last().push(
                Write { offset: before.last().offset, data: before.last().data + next.data },
            )
        } else {
            before.push(Write { offset: next.id * part_size, data: next.data })
        }
    }
}

/// What a writer holds, as mathematical values.
pub struct WriterView {
    /// The length of every part but the last.
    pub part_size: nat,
    /// The number of parts at which the buffer is flushed.
    pub capacity: nat,
    /// The number of parts of the file.
    pub total: nat,
    /// The ids of the parts that have arrived.
    pub seen: Set<u32>,
    /// The parts that have arrived and are not written yet.
    pub buffer: Seq<Piece>,
}

impl WriterView {
    /// True once as many different parts have arrived as the file has.
    pub open spec fn complete(self) -> bool {
        self.seen.len() >= self.total
    }

    /// What holds of every writer.
    pub open spec fn wf(self) -> bool {
        &&& 1 <= self.part_size < u32::MAX
        &&& 1 <= self.capacity
        &&& self.total <= u32::MAX
        &&& self.seen.finite()
        &&& self.buffer.len() < self.capacity
        &&& sorted(self.buffer)
        &&& forall|i: int|
            0 <= i < self.buffer.len() ==> (#[trigger] self.buffer[i]).data.len() <= self.part_size
        &&& forall|i: int|
            0 <= i < self.buffer.len() ==> self.seen.contains((#[trigger] self.buffer[i]).id)
        &&& self.complete() ==> self.buffer.len() == 0
    }

    /// The writer after a part has arrived, and the writes to perform.
    ///
    /// A complete writer ignores the part.  Otherwise the part is counted,
    /// unless its id has been seen before, and enters the buffer; if that
    /// fills the buffer or completes the file, the buffer is flushed.
    pub open spec fn accept(self, piece: Piece) -> (WriterView, Seq<Write>) {
        if self.complete() {
            (self, Seq::empty())
        } else {
            let seen = self.seen.insert(piece.id);
            let buffer = insert_sorted(self.buffer, piece);
            if buffer.len() >= self.capacity || seen.len() >= self.total {
                (
                    WriterView { seen, buffer: Seq::empty(), ..self },
                    runs(buffer, self.part_size),
                )
            } else {
                (WriterView { seen, buffer, ..self }, Seq::empty())
            }
        }
    }
}

/// Where a part enters a sorted buffer, all parts before it have an id that
/// is not greater and all parts behind it a greater one; the buffer stays
/// sorted.
pub proof fn lemma_insertion_point(buffer: Seq<Piece>, id: u32)
    requires
        sorted(buffer),
    ensures
        0 <= insertion_point(buffer, id) <= buffer.len(),
        forall|i: int| 0 <= i < insertion_point(buffer, id) ==> buffer[i].id <= id,
        forall|i: int| insertion_point(buffer, id) <= i < buffer.len() ==> buffer[i].id > id,
    decreases buffer.len(),
{
    if buffer.len() == 0 {
    } else if buffer.last().id <= id {
        assert forall|i: int| 0 <= i < buffer.len() implies buffer[i].id <= id by {
            if i < buffer.len() - 1 {
                assert(buffer[i].id <= buffer[buffer.len() - 1].id);
            }
        }
    } else {
        let shorter = buffer.drop_last();
        assert(sorted(shorter)) by {
            assert forall|i: int, j: int| 0 <= i < j < shorter.len() implies shorter[i].id
                <= shorter[j].id by {
                assert(buffer[i].id <= buffer[j].id);
            }
        }
        lemma_insertion_point(shorter, id);
        assert forall|i: int| 0 <= i < insertion_point(buffer, id) implies buffer[i].id <= id by {
            assert(shorter[i].id <= id);
        }
        assert forall|i: int| insertion_point(buffer, id) <= i < buffer.len() implies buffer[i].id
            > id by {
            if i < buffer.len() - 1 {
                assert(shorter[i].id > id);
            }
        }
    }
}

/// A sorted buffer is sorted after a part has entered it.
pub proof fn lemma_insert_sorted(buffer: Seq<Piece>, piece: Piece)
    requires
        sorted(buffer),
    ensures
        sorted(insert_sorted(buffer, piece)),
        insert_sorted(buffer, piece).len() == buffer.len() + 1,
{
    lemma_insertion_point(buffer, piece.id);
    let at = insertion_point(buffer, piece.id);
    let after = insert_sorted(buffer, piece);
    assert forall|i: int, j: int| 0 <= i < j < after.len() implies after[i].id <= after[j].id by {
        let oi = if i < at { i } else { i - 1 };
        let oj = if j < at { j } else { j - 1 };
        if i != at && j != at {
            assert(buffer[oi].id <= buffer[oj].id);
        }
    }
}

/// The offset of part `id`.
fn offset_of(id: u32, part_size: usize) -> (offset: u64)
    requires
        part_size < u32::MAX,
    ensures
        offset == id * part_size,
{
    assert(id * part_size <= u64::MAX) by (nonlinear_arith)
        requires
            id <= 0xffff_ffff,
            part_size < 0xffff_ffff,
    ;
    id as u64 * part_size as u64
}

/// The writes that flush `buffer`.
pub fn flush(buffer: &Vec<Chunk>, part_size: usize) -> (writes: Vec<WriteOp>)
    requires
        1 <= part_size < u32::MAX,
    ensures
        writes_view(writes@) == runs(pieces(buffer@), part_size as nat),
{
    let mut writes: Vec<WriteOp> = Vec::new();
    if buffer.len() == 0 {
        proof {
            assert(writes_view(writes@) =~= Seq::<Write>::empty());
        }
        return writes;
    }
    let ghost all = pieces(buffer@);
    let mut offset: u64 = offset_of(buffer[0].id, part_size);
    let mut slab: Vec<u8> = Vec::new();
    slab.extend_from_slice(buffer[0].data.as_slice());
    proof {
        assert(slab@ =~= all[0].data);
        assert(all.take(1).len() == 1);
        assert(writes_view(writes@).push(Write { offset: offset as int, data: slab@ }) =~= runs(
            all.take(1),
            part_size as nat,
        ));
    }
    let mut i: usize = 1;
    while i < buffer.len()
        invariant
            1 <= i <= buffer.len(),
            1 <= part_size < u32::MAX,
            all == pieces(buffer@),
            writes_view(writes@).push(Write { offset: offset as int, data: slab@ }) == runs(
                all.take(i as int),
                part_size as nat,
            ),
        decreases buffer.len() - i,
    {
        let ghost done = writes_view(writes@);
        let ghost run = Write { offset: offset as int, data: slab@ };
        let previous = &buffer[i - 1];
        let next = &buffer[i];
        proof {
            assert(all.take(i + 1).drop_last() =~= all.take(i as int));
            assert(all.take(i + 1)[i - 1] == previous@);
            assert(all.take(i + 1).last() == next@);
            assert(done.push(run).drop_last() =~= done);
        }
        if previous.id < u32::MAX && next.id == previous.id + 1 && previous.data.len()
            == part_size {
            let ghost head = slab@;
            slab.extend_from_slice(next.data.as_slice());
            proof {
                assert(slab@ =~= head + next.data@);
            }
        } else {
            writes.push(WriteOp { offset, data: slab });
            offset = offset_of(next.id, part_size);
            slab = Vec::new();
            slab.extend_from_slice(next.data.as_slice());
            proof {
                assert(slab@ =~= next.data@);
                assert(writes_view(writes@) =~= done.push(run));
            }
        }
        i += 1;
    }
    let ghost done = writes_view(writes@);
    let ghost run = Write { offset: offset as int, data: slab@ };
    writes.push(WriteOp { offset, data: slab });
    proof {
        assert(all.take(buffer.len() as int) =~= all);
        assert(writes_view(writes@) =~= done.push(run));
    }
    writes
}

/// The writer of the receiving peer.
pub struct Writer {
    part_size: usize,
    capacity: usize,
    total: u32,
    seen: IdSet,
    buffer: Vec<Chunk>,
}

impl View for Writer {
    type V = WriterView;

    closed spec fn view(&self) -> WriterView {
        WriterView {
            part_size: self.part_size as nat,
            capacity: self.capacity as nat,
            total: self.total as nat,
            seen: self.seen@,
            buffer: pieces(self.buffer@),
        }
    }
}

impl Writer {
    /// True if the ids of the parts that have arrived are stored in order.
    pub closed spec fn seen_in_order(&self) -> bool {
        self.seen.wf()
    }

    /// The invariant of the writer.
    pub open spec fn wf(&self) -> bool {
        self.seen_in_order() && self@.wf()
    }

    /// A writer for a file of `total` parts, none of which has arrived.
    pub fn new(config: &Config, total: u32) -> (writer: Self)
        requires
            config.wf(),
        ensures
            writer.wf(),
            writer@ == (WriterView {
                part_size: config.spec_part_size(),
                capacity: config.batch as nat,
                total: total as nat,
                seen: Set::empty(),
                buffer: Seq::empty(),
            }),
    {
        let writer = Writer {
            part_size: config.part_size(),
            capacity: config.batch,
            total,
            seen: IdSet::new(),
            buffer: Vec::new(),
        };
        proof {
            assert(pieces(writer.buffer@) =~= Seq::<Piece>::empty());
        }
        writer
    }

    /// Tells whether every part of the file has arrived.  All of them are
    /// then written: the part that completed the file flushed the buffer.
    pub fn is_complete(&self) -> (done: bool)
        requires
            self.wf(),
        ensures
            done == self@.complete(),
    {
        self.seen.len() >= self.total as usize
    }

    /// Takes one part and returns the writes to perform now, in this order.
    ///
    /// A chunk longer than a part may be is refused, and changes nothing.
    pub fn accept(&mut self, id: u32, data: Vec<u8>) -> (result: Result<Vec<WriteOp>, BufferError>)
        requires
            old(self).wf(),
        ensures
            final(self).wf(),
            match result {
                Ok(writes) => {
                    &&& data@.len() <= old(self)@.part_size
                    &&& (final(self)@, writes_view(writes@)) == old(self)@.accept(
                        Piece { id, data: data@ },
                    )
                },
                Err(error) => {
                    &&& data@.len() > old(self)@.part_size
                    &&& error == BufferError::DoesNotFit
                    &&& final(self)@ == old(self)@
                },
            },
    {
        if data.len() > self.part_size {
            return Err(BufferError::DoesNotFit);
        }
        if self.seen.len() >= self.total as usize {
            let writes: Vec<WriteOp> = Vec::new();
            proof {
                assert(writes_view(writes@) =~= Seq::<Write>::empty());
            }
            return Ok(writes);
        }
        let ghost before = pieces(self.buffer@);
        let ghost piece = Piece { id, data: data@ };
        let mut at: usize = self.buffer.len();
        proof {
            assert(before.take(at as int) =~= before);
        }
        while at > 0 && self.buffer[at - 1].id > id
            invariant
                at <= self.buffer@.len(),
                before == pieces(self.buffer@),
                insertion_point(before, id) == insertion_point(before.take(at as int), id),
            decreases at,
        {
            proof {
                assert(before.take(at as int).drop_last() =~= before.take(at - 1));
            }
            at -= 1;
        }
        proof {
            assert(insertion_point(before, id) == at);
            lemma_insert_sorted(before, piece);
        }
        self.seen.insert(id);
        self.buffer.insert(at, Chunk { id, data });
        proof {
            let after = insert_sorted(before, piece);
            assert(pieces(self.buffer@) =~= after);
            assert forall|i: int| 0 <= i < after.len() implies (#[trigger] after[i]).data.len()
                <= self.part_size && self.seen@.contains(after[i].id) by {
                if i != at {
                    let oi = if i < at { i } else { i - 1 };
                    assert(after[i] == before[oi]);
                }
            }
        }
        if self.buffer.len() >= self.capacity || self.seen.len() >= self.total as usize {
            let writes = flush(&self.buffer, self.part_size);
            self.buffer = Vec::new();
            proof {
                assert(pieces(self.buffer@) =~= Seq::<Piece>::empty());
            }
            Ok(writes)
        } else {
            let writes: Vec<WriteOp> = Vec::new();
            proof {
                assert(writes_view(writes@) =~= Seq::<Write>::empty());
            }
            Ok(writes)
        }
    }
}

} // verus!

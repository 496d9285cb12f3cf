//! The wire format: six messages, each a tag octet followed by its payload.
//!
//! | tag | message | payload                                              |
//! |-----|---------|------------------------------------------------------|
//! | 0   | Send    | part count, filename length, filename (UTF-8)        |
//! | 1   | Accept  | nothing                                              |
//! | 2   | Part    | part id, then the chunk up to the end of the frame   |
//! | 3   | Sync    | count, then that many ids                            |
//! | 4   | Ack     | count, then that many ids                            |
//! | 5   | Loss    | count, then that many ids                            |
//!
//! Every integer is 32 bits wide and big-endian.  Octets after the payload
//! of a Send, Accept, Sync, Ack or Loss frame are ignored.

use crate::bytes::{be_at, be_bytes, lemma_be_value_of_bytes, push_u32, read_u32_at};
use vstd::prelude::*;
use vstd::slice::{slice_subrange, slice_to_vec};
use vstd::utf8::{
    decode_utf8, encode_utf8, encode_utf8_decode_utf8, encode_utf8_valid_utf8, valid_utf8,
};

verus! {

pub const TAG_SEND: u8 = 0;

pub const TAG_ACCEPT: u8 = 1;

pub const TAG_PART: u8 = 2;

pub const TAG_SYNC: u8 = 3;

pub const TAG_ACK: u8 = 4;

pub const TAG_LOSS: u8 = 5;

/// Octets of a Part frame that precede the chunk: the tag and the id.
pub const PART_HEADER: usize = 5;

/// Octets of a Sync, Ack or Loss frame that precede the ids: the tag and the
/// count.
pub const LIST_HEADER: usize = 5;

/// Octets of a Send frame that precede the filename: the tag, the part
/// count and the length of the filename.
pub const SEND_HEADER: usize = 9;

/// Why a frame could not be turned into a message, or a message into a frame.
#[derive(Debug, Clone, Copy, PartialEq, Eq, Structural)]
pub enum MarshallError {
    /// The frame is empty, carries an unknown tag, or ends before its payload does.
    UnableToDeserialize,
    /// The message has no frame within the limit.
    OutOfSpace,
}

impl MarshallError {
    /// A sentence for the log.
    pub fn describe(&self) -> (text: &'static str)
        ensures
            text@ == match *self {
                MarshallError::UnableToDeserialize => "Could not deserialize the data."@,
                MarshallError::OutOfSpace => "Buffer too small"@,
            },
    {
        match self {
            MarshallError::UnableToDeserialize => "Could not deserialize the data.",
            MarshallError::OutOfSpace => "Buffer too small",
        }
    }
}

/// Why a chunk could not be framed.
#[derive(Debug, Clone, Copy, PartialEq, Eq, Structural)]
pub enum BufferError {
    Unknown,
    /// The chunk is longer than a part may be.
    DoesNotFit,
    EOF,
}

impl BufferError {
    /// A sentence for the log.
    pub fn describe(&self) -> (text: &'static str)
        ensures
            text@ == match *self {
                BufferError::Unknown => "unknown"@,
                BufferError::DoesNotFit => "Too much data for the packet size"@,
                BufferError::EOF => "Reached EOF"@,
            },
    {
        match self {
            BufferError::Unknown => "unknown",
            BufferError::DoesNotFit => "Too much data for the packet size",
            BufferError::EOF => "Reached EOF",
        }
    }
}

/// A message of the protocol.
#[derive(Debug, PartialEq, Eq)]
pub enum Message {
    /// The sender announces a file and the number of parts it will arrive in.
    Send { filename: String, parts: u32 },
    /// The receiver accepts the announced transfer.
    Accept,
    /// One chunk of the file.
    Part { id: u32, data: Vec<u8> },
    /// The sender asks which of these parts have arrived.
    Sync { ids: Vec<u32> },
    /// The receiver confirms these parts.
    Ack { ids: Vec<u32> },
    /// The receiver misses these parts.
    Loss { ids: Vec<u32> },
}

impl Clone for Message {
    fn clone(&self) -> (copy: Self)
        ensures
            copy@ == self@,
    {
        match self {
            Message::Send { filename, parts } => Message::Send {
                filename: filename.clone(),
                parts: *parts,
            },
            Message::Accept => Message::Accept,
            Message::Part { id, data } => Message::Part { id: *id, data: data.clone() },
            Message::Sync { ids } => Message::Sync { ids: ids.clone() },
            Message::Ack { ids } => Message::Ack { ids: ids.clone() },
            Message::Loss { ids } => Message::Loss { ids: ids.clone() },
        }
    }
}

/// What a message holds, as mathematical values.
pub enum MessageView {
    Send { filename: Seq<char>, parts: u32 },
    Accept,
    Part { id: u32, data: Seq<u8> },
    Sync { ids: Seq<u32> },
    Ack { ids: Seq<u32> },
    Loss { ids: Seq<u32> },
}

impl View for Message {
    type V = MessageView;

    open spec fn view(&self) -> MessageView {
        match *self {
            Message::Send { filename, parts } => MessageView::Send { filename: filename@, parts },
            Message::Accept => MessageView::Accept,
            Message::Part { id, data } => MessageView::Part { id, data: data@ },
            Message::Sync { ids } => MessageView::Sync { ids: ids@ },
            Message::Ack { ids } => MessageView::Ack { ids: ids@ },
            Message::Loss { ids } => MessageView::Loss { ids: ids@ },
        }
    }
}

/// The frames of a list, each as the octets it holds.
pub open spec fn frames_view(frames: Seq<Vec<u8>>) -> Seq<Seq<u8>> {
    frames.map_values(|frame: Vec<u8>| frame@)
}

/// The text that `String::from_utf8_lossy` makes of octets that are not
/// valid UTF-8.
pub uninterp spec fn utf8_replaced(bytes: Seq<u8>) -> Seq<char>;

/// The text that a filename field denotes: the decoded text where the octets
/// are valid UTF-8, the text with replacement characters where they are not.
pub open spec fn lossy_text(bytes: Seq<u8>) -> Seq<char> {
    if valid_utf8(bytes) {
        decode_utf8(bytes)
    } else {
        utf8_replaced(bytes)
    }
}

/// The ids of a list, each as four octets, one after the other.
pub open spec fn encode_ids(ids: Seq<u32>) -> Seq<u8> {
    Seq::new(4 * ids.len(), |k: int| be_bytes(ids[k / 4])[k % 4])
}

/// The `n` ids stored in `b` from offset `at` on.
pub open spec fn decode_ids(b: Seq<u8>, at: int, n: nat) -> Seq<u32> {
    Seq::new(n, |i: int| be_at(b, at + 4 * i))
}

/// The frame of a Sync, Ack or Loss message.
pub open spec fn encode_id_list(tag: u8, ids: Seq<u32>) -> Seq<u8> {
    seq![tag] + be_bytes(ids.len() as u32) + encode_ids(ids)
}

/// The frame of a Part message.
pub open spec fn encode_part(id: u32, data: Seq<u8>) -> Seq<u8> {
    seq![TAG_PART] + be_bytes(id) + data
}

/// True if a list of `n` ids has a frame: the count fits its field, and the
/// frame fits in memory.
pub open spec fn id_count_fits(n: nat) -> bool {
    n <= u32::MAX && LIST_HEADER + 4 * n <= usize::MAX
}

/// True if the message has a frame: its length fields can hold the lengths.
pub open spec fn has_frame(m: MessageView) -> bool {
    match m {
        MessageView::Send { filename, parts } => encode_utf8(filename).len() <= u32::MAX,
        MessageView::Accept => true,
        MessageView::Part { id, data } => true,
        MessageView::Sync { ids } => ids.len() <= u32::MAX,
        MessageView::Ack { ids } => ids.len() <= u32::MAX,
        MessageView::Loss { ids } => ids.len() <= u32::MAX,
    }
}

/// True if the message has a frame, and the frame fits in memory.
pub open spec fn encodable(m: MessageView) -> bool {
    has_frame(m) && encode(m).len() <= usize::MAX
}

/// The frame of a message.
pub open spec fn encode(m: MessageView) -> Seq<u8> {
    match m {
        MessageView::Send { filename, parts } => {
            let name = encode_utf8(filename);
            seq![TAG_SEND] + be_bytes(parts) + be_bytes(name.len() as u32) + name
        },
        MessageView::Accept => seq![TAG_ACCEPT],
        MessageView::Part { id, data } => encode_part(id, data),
        MessageView::Sync { ids } => encode_id_list(TAG_SYNC, ids),
        MessageView::Ack { ids } => encode_id_list(TAG_ACK, ids),
        MessageView::Loss { ids } => encode_id_list(TAG_LOSS, ids),
    }
}

/// The id list of a Sync, Ack or Loss frame, or `None` if the frame ends
/// before the list does.
pub open spec fn decode_id_list(b: Seq<u8>) -> Option<Seq<u32>> {
    if b.len() < LIST_HEADER || b.len() < LIST_HEADER + 4 * be_at(b, 1) {
        None
    } else {
        Some(decode_ids(b, LIST_HEADER as int, be_at(b, 1) as nat))
    }
}

/// The message that a frame denotes, or `None` if it denotes none.
pub open spec fn decode(b: Seq<u8>) -> Option<MessageView> {
    if b.len() == 0 {
        None
    } else if b[0] == TAG_SEND {
        if b.len() < SEND_HEADER || b.len() < SEND_HEADER + be_at(b, 5) {
            None
        } else {
            Some(
                MessageView::Send {
                    filename: lossy_text(b.subrange(SEND_HEADER as int, SEND_HEADER + be_at(b, 5))),
                    parts: be_at(b, 1),
                },
            )
        }
    } else if b[0] == TAG_ACCEPT {
        Some(MessageView::Accept)
    } else if b[0] == TAG_PART {
        if b.len() < PART_HEADER {
            None
        } else {
            Some(
                MessageView::Part {
                    id: be_at(b, 1),
                    data: b.subrange(PART_HEADER as int, b.len() as int),
                },
            )
        }
    } else if b[0] == TAG_SYNC {
        match decode_id_list(b) {
            Some(ids) => Some(MessageView::Sync { ids }),
            None => None,
        }
    } else if b[0] == TAG_ACK {
        match decode_id_list(b) {
            Some(ids) => Some(MessageView::Ack { ids }),
            None => None,
        }
    } else if b[0] == TAG_LOSS {
        match decode_id_list(b) {
            Some(ids) => Some(MessageView::Loss { ids }),
            None => None,
        }
    } else {
        None
    }
}

/// `String::from_utf8_lossy`: the text of `bytes`.  Valid UTF-8 comes back as
/// the text it encodes; of other input the contract only names the result.
#[verifier::external_body]
fn text_from_utf8_lossy(bytes: &[u8]) -> (text: String)
    ensures
        valid_utf8(bytes@) ==> text@ == decode_utf8(bytes@),
        !valid_utf8(bytes@) ==> text@ == utf8_replaced(bytes@),
{
    String::from_utf8_lossy(bytes).into_owned()
}

/// Appends the ids of a list to `out`, four octets each.
fn push_ids(out: &mut Vec<u8>, ids: &Vec<u32>)
    ensures
        final(out)@ == old(out)@ + encode_ids(ids@),
{
    let ghost before = out@;
    let mut i: usize = 0;
    while i < ids.len()
        invariant
            i <= ids.len(),
            out@ == before + encode_ids(ids@.take(i as int)),
        decreases ids.len() - i,
    {
        push_u32(out, ids[i]);
        proof {
            let shorter = encode_ids(ids@.take(i as int));
            let longer = encode_ids(ids@.take(i + 1));
            assert(shorter + be_bytes(ids@[i as int]) =~= longer);
            assert(out@ =~= before + longer);
        }
        i += 1;
    }
    proof {
        assert(ids@.take(ids.len() as int) =~= ids@);
    }
}

/// The frame of a Sync, Ack or Loss message with these ids.
pub fn id_list_frame(tag: u8, ids: &Vec<u32>) -> (frame: Vec<u8>)
    requires
        id_count_fits(ids@.len()),
    ensures
        frame@ == encode_id_list(tag, ids@),
{
    let mut frame: Vec<u8> = Vec::with_capacity(LIST_HEADER + 4 * ids.len());
    frame.push(tag);
    push_u32(&mut frame, ids.len() as u32);
    push_ids(&mut frame, ids);
    frame
}

/// The id list of a Sync, Ack or Loss frame.
fn parse_id_list(data: &[u8]) -> (ids: Option<Vec<u32>>)
    ensures
        match ids {
            Some(ids) => decode_id_list(data@) == Some(ids@),
            None => decode_id_list(data@) is None,
        },
{
    if data.len() < LIST_HEADER {
        return None;
    }
    let count = read_u32_at(data, 1);
    if (data.len() - LIST_HEADER) / 4 < count as usize {
        return None;
    }
    let count = count as usize;
    let mut ids: Vec<u32> = Vec::with_capacity(count);
    let mut i: usize = 0;
    while i < count
        invariant
            i <= count,
            LIST_HEADER + 4 * count <= data.len(),
            ids@ == decode_ids(data@, LIST_HEADER as int, i as nat),
        decreases count - i,
    {
        let id = read_u32_at(data, LIST_HEADER + 4 * i);
        ids.push(id);
        i += 1;
        proof {
            assert(ids@ =~= decode_ids(data@, LIST_HEADER as int, i as nat));
        }
    }
    Some(ids)
}

impl Message {
    /// True if the message has a frame that fits in memory.  Every message
    /// has one unless a list or a filename is too long for its 32-bit length
    /// field, or the frame too long for the machine.
    pub open spec fn encodable(&self) -> bool {
        encodable(self@)
    }

    /// Tells whether the message has a frame.
    pub fn is_encodable(&self) -> (yes: bool)
        ensures
            yes == self.encodable(),
    {
        match self {
            Message::Send { filename, parts } => {
                let n = filename.as_str().as_bytes().len();
                n <= u32::MAX as usize && n <= usize::MAX - SEND_HEADER
            },
            Message::Accept => true,
            Message::Part { id, data } => data.len() <= usize::MAX - PART_HEADER,
            Message::Sync { ids } => ids.len() <= u32::MAX as usize && ids.len() <= (usize::MAX
                - LIST_HEADER) / 4,
            Message::Ack { ids } => ids.len() <= u32::MAX as usize && ids.len() <= (usize::MAX
                - LIST_HEADER) / 4,
            Message::Loss { ids } => ids.len() <= u32::MAX as usize && ids.len() <= (usize::MAX
                - LIST_HEADER) / 4,
        }
    }

    /// Decodes a frame.  It succeeds exactly on the frames that denote a
    /// message, and never looks past the end of `data`.
    pub fn parse(data: &[u8]) -> (parsed: Result<Self, MarshallError>)
        ensures
            match parsed {
                Ok(message) => decode(data@) == Some(message@),
                Err(error) => decode(data@) is None && error == MarshallError::UnableToDeserialize,
            },
    {
        if data.len() == 0 {
            return Err(MarshallError::UnableToDeserialize);
        }
        let tag = data[0];
        if tag == TAG_SEND {
            if data.len() < SEND_HEADER {
                return Err(MarshallError::UnableToDeserialize);
            }
            let parts = read_u32_at(data, 1);
            let length = read_u32_at(data, 5);
            if data.len() - SEND_HEADER < length as usize {
                return Err(MarshallError::UnableToDeserialize);
            }
            let name = slice_subrange(data, SEND_HEADER, SEND_HEADER + length as usize);
            let filename = text_from_utf8_lossy(name);
            Ok(Message::Send { filename, parts })
        } else if tag == TAG_ACCEPT {
            Ok(Message::Accept)
        } else if tag == TAG_PART {
            if data.len() < PART_HEADER {
                return Err(MarshallError::UnableToDeserialize);
            }
            let id = read_u32_at(data, 1);
            let chunk = slice_to_vec(slice_subrange(data, PART_HEADER, data.len()));
            Ok(Message::Part { id, data: chunk })
        } else if tag == TAG_SYNC {
            match parse_id_list(data) {
                Some(ids) => Ok(Message::Sync { ids }),
                None => Err(MarshallError::UnableToDeserialize),
            }
        } else if tag == TAG_ACK {
            match parse_id_list(data) {
                Some(ids) => Ok(Message::Ack { ids }),
                None => Err(MarshallError::UnableToDeserialize),
            }
        } else if tag == TAG_LOSS {
            match parse_id_list(data) {
                Some(ids) => Ok(Message::Loss { ids }),
                None => Err(MarshallError::UnableToDeserialize),
            }
        } else {
            Err(MarshallError::UnableToDeserialize)
        }
    }

    /// The length of the frame, or `None` if the message has no frame or
    /// the length of the frame is more than the machine can count.
    fn frame_length(&self) -> (length: Option<usize>)
        ensures
            match length {
                Some(n) => self.encodable() && n == encode(self@).len(),
                None => !self.encodable(),
            },
    {
        if !self.is_encodable() {
            return None;
        }
        match self {
            Message::Send { filename, parts } => Some(
                SEND_HEADER + filename.as_str().as_bytes().len(),
            ),
            Message::Accept => Some(1),
            Message::Part { id, data } => Some(PART_HEADER + data.len()),
            Message::Sync { ids } => Some(LIST_HEADER + 4 * ids.len()),
            Message::Ack { ids } => Some(LIST_HEADER + 4 * ids.len()),
            Message::Loss { ids } => Some(LIST_HEADER + 4 * ids.len()),
        }
    }

    /// Encodes the message as a frame of at most `limit` octets, such as the
    /// path can carry.  A message without a frame, or with a longer one, is
    /// refused.
    pub fn serialize_within(&self, limit: usize) -> (result: Result<Vec<u8>, MarshallError>)
        ensures
            match result {
                Ok(frame) => {
                    &&& has_frame(self@)
                    &&& frame@ == encode(self@)
                    &&& frame@.len() <= limit
                },
                Err(error) => {
                    &&& error == MarshallError::OutOfSpace
                    &&& !has_frame(self@) || encode(self@).len() > limit
                },
            },
    {
        match self.frame_length() {
            Some(length) => {
                if length <= limit {
                    Ok(self.serialize())
                } else {
                    Err(MarshallError::OutOfSpace)
                }
            },
            None => Err(MarshallError::OutOfSpace),
        }
    }

    /// Encodes the message as a frame.
    pub fn serialize(&self) -> (frame: Vec<u8>)
        requires
            self.encodable(),
        ensures
            frame@ == encode(self@),
    {
        match self {
            Message::Send { filename, parts } => {
                let name = filename.as_str().as_bytes();
                let mut frame: Vec<u8> = Vec::with_capacity(SEND_HEADER + name.len());
                frame.push(TAG_SEND);
                push_u32(&mut frame, *parts);
                push_u32(&mut frame, name.len() as u32);
                let ghost head = frame@;
                frame.extend_from_slice(name);
                proof {
                    assert(frame@ =~= head + name@);
                }
                frame
            },
            Message::Accept => {
                let mut frame: Vec<u8> = Vec::with_capacity(1);
                frame.push(TAG_ACCEPT);
                frame
            },
            Message::Part { id, data } => {
                let mut frame: Vec<u8> = Vec::with_capacity(PART_HEADER + data.len());
                frame.push(TAG_PART);
                push_u32(&mut frame, *id);
                let ghost head = frame@;
                frame.extend_from_slice(data.as_slice());
                proof {
                    assert(frame@ =~= head + data@);
                }
                frame
            },
            Message::Sync { ids } => id_list_frame(TAG_SYNC, ids),
            Message::Ack { ids } => id_list_frame(TAG_ACK, ids),
            Message::Loss { ids } => id_list_frame(TAG_LOSS, ids),
        }
    }
}

/// The id list of a frame that `encode_id_list` built is the list it was built from.
proof fn lemma_id_list_round_trip(tag: u8, ids: Seq<u32>)
    requires
        ids.len() <= u32::MAX,
    ensures
        encode_id_list(tag, ids).len() == 5 + 4 * ids.len(),
        encode_id_list(tag, ids)[0] == tag,
        be_at(encode_id_list(tag, ids), 1) == ids.len(),
        decode_id_list(encode_id_list(tag, ids)) == Some(ids),
{
    let b = encode_id_list(tag, ids);
    let n = ids.len() as u32;
    lemma_be_value_of_bytes(n);
    assert(b.subrange(1, 5) =~= be_bytes(n));
    assert forall|i: int| 0 <= i < ids.len() implies be_at(b, 5 + 4 * i) == ids[i] by {
        lemma_be_value_of_bytes(ids[i]);
        assert(b.subrange(5 + 4 * i, 5 + 4 * i + 4) =~= be_bytes(ids[i]));
    }
    assert(decode_ids(b, 5, ids.len()) =~= ids);
}

/// Decoding the frame of a message gives the message back, whatever its
/// variant and whatever its fields hold, an empty id list and an empty
/// filename included.
pub proof fn lemma_round_trip(m: MessageView)
    requires
        has_frame(m),
    ensures
        decode(encode(m)) == Some(m),
{
    let b = encode(m);
    match m {
        MessageView::Send { filename, parts } => {
            let name = encode_utf8(filename);
            let n = name.len() as u32;
            lemma_be_value_of_bytes(parts);
            lemma_be_value_of_bytes(n);
            assert(b.subrange(1, 5) =~= be_bytes(parts));
            assert(b.subrange(5, 9) =~= be_bytes(n));
            assert(b.subrange(9, 9 + n) =~= name);
            encode_utf8_valid_utf8(filename);
            encode_utf8_decode_utf8(filename);
        },
        MessageView::Accept => {},
        MessageView::Part { id, data } => {
            lemma_be_value_of_bytes(id);
            assert(b.subrange(1, 5) =~= be_bytes(id));
            assert(b.subrange(5, b.len() as int) =~= data);
        },
        MessageView::Sync { ids } => {
            lemma_id_list_round_trip(TAG_SYNC, ids);
        },
        MessageView::Ack { ids } => {
            lemma_id_list_round_trip(TAG_ACK, ids);
        },
        MessageView::Loss { ids } => {
            lemma_id_list_round_trip(TAG_LOSS, ids);
        },
    }
}

/// A frame cut short never decodes to a message it does not hold.  Every
/// proper prefix of the frame of a message is rejected, with one exception:
/// a Part frame cut after its header is a Part frame still, with the same id
/// and the chunk cut short.
pub proof fn lemma_truncated_frame(m: MessageView, n: int)
    requires
        has_frame(m),
        0 <= n < encode(m).len(),
    ensures
        decode(encode(m).take(n)) == match m {
            MessageView::Part { id, data } => if n >= PART_HEADER {
                Some(MessageView::Part { id, data: data.take(n - PART_HEADER) })
            } else {
                None
            },
            _ => None,
        },
{
    let b = encode(m);
    let p = b.take(n);
    if n > 0 {
        assert(p[0] == b[0]);
    }
    match m {
        MessageView::Send { filename, parts } => {
            let name = encode_utf8(filename);
            let len = name.len() as u32;
            if n >= 9 {
                lemma_be_value_of_bytes(len);
                assert(p.subrange(5, 9) =~= be_bytes(len));
            }
        },
        MessageView::Accept => {},
        MessageView::Part { id, data } => {
            if n >= 5 {
                lemma_be_value_of_bytes(id);
                assert(p.subrange(1, 5) =~= be_bytes(id));
                assert(p.subrange(5, p.len() as int) =~= data.take(n - 5));
            }
        },
        MessageView::Sync { ids } => {
            lemma_truncated_id_list(TAG_SYNC, ids, n);
        },
        MessageView::Ack { ids } => {
            lemma_truncated_id_list(TAG_ACK, ids, n);
        },
        MessageView::Loss { ids } => {
            lemma_truncated_id_list(TAG_LOSS, ids, n);
        },
    }
}

/// A proper prefix of an id-list frame holds no id list.
proof fn lemma_truncated_id_list(tag: u8, ids: Seq<u32>, n: int)
    requires
        ids.len() <= u32::MAX,
        0 <= n < encode_id_list(tag, ids).len(),
    ensures
        decode_id_list(encode_id_list(tag, ids).take(n)) is None,
{
    let b = encode_id_list(tag, ids);
    let p = b.take(n);
    if n >= 5 {
        let count = ids.len() as u32;
        lemma_be_value_of_bytes(count);
        assert(p.subrange(1, 5) =~= be_bytes(count));
    }
}

} // verus!

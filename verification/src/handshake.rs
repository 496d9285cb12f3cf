//! The opening of a transfer: the sender announces the file and the number
//! of its parts, and sends no part before the receiver has accepted.

use crate::config::Config;
use crate::parts::{part_count, parts_of};
use crate::protocol::{decode, encodable, encode, Message, MessageView};
use vstd::prelude::*;

verus! {

/// How often the sender announces a file before it gives up.
pub const ANNOUNCEMENTS: u32 = 50;

/// Tells whether the sender announces the file once more, after `sent`
/// announcements that no acceptance has answered.
pub fn announces_again(sent: u32) -> (again: bool)
    ensures
        again == (sent < ANNOUNCEMENTS),
{
    sent < ANNOUNCEMENTS
}

/// The announcement of a file of `length` octets: its frame, and the number
/// of parts that it announces.  There is none if the file has more parts
/// than a 32-bit count can hold, or if the name is too long for a frame.
pub fn announce(filename: &str, length: u64, config: &Config) -> (announcement: Option<
    (Vec<u8>, u32),
>)
    requires
        config.wf(),
    ensures
        match announcement {
            Some((frame, total)) => {
                &&& total == parts_of(length as nat, config.spec_part_size())
                &&& encodable(MessageView::Send { filename: filename@, parts: total })
                &&& frame@ == encode(MessageView::Send { filename: filename@, parts: total })
            },
            None => {
                ||| parts_of(length as nat, config.spec_part_size()) > u32::MAX
                ||| !encodable(MessageView::Send { filename: filename@, parts: 0 })
            },
        },
{
    match part_count(length, config.part_size()) {
        Some(total) => {
            let message = Message::Send { filename: filename.to_owned(), parts: total };
            if message.is_encodable() {
                Some((message.serialize(), total))
            } else {
                None
            }
        },
        None => None,
    }
}

/// The name and the number of parts that a datagram announces, if it is an
/// announcement.
pub fn announced(data: &[u8]) -> (announcement: Option<(String, u32)>)
    ensures
        match announcement {
            Some((filename, total)) => decode(data@) == Some(
                MessageView::Send { filename: filename@, parts: total },
            ),
            None => !(decode(data@) matches Some(MessageView::Send { .. })),
        },
{
    match Message::parse(data) {
        Ok(Message::Send { filename, parts }) => Some((filename, parts)),
        _ => None,
    }
}

/// The frame by which the receiver accepts an announced transfer.
pub fn acceptance() -> (frame: Vec<u8>)
    ensures
        frame@ == encode(MessageView::Accept),
{
    Message::Accept.serialize()
}

/// Tells whether a datagram accepts the announced transfer.
pub fn accepts(data: &[u8]) -> (yes: bool)
    ensures
        yes == (decode(data@) == Some(MessageView::Accept)),
{
    match Message::parse(data) {
        Ok(Message::Accept) => true,
        _ => false,
    }
}

} // verus!

use sanic::config::Config;
use sanic::parts::part_count;
use sanic::protocol::{BufferError, MarshallError, Message};
use sanic::sender::{make_parts_packet, Feedback, Sender};

fn config(part_size: usize) -> Config {
    Config { mtu: part_size + 5, batch: 100, sync_interval_ms: 200, block_size: 1 << 20 }
}

fn part(id: u32, data: &[u8]) -> Vec<u8> {
    Message::Part { id, data: data.to_vec() }.serialize()
}

#[test]
fn packet_is_the_part_frame() {
    let mut packet = vec![7u8; 8];
    assert_eq!(make_parts_packet(&[10, 20, 30], 0x0a0b_0c0d, &mut packet, 3), Ok(()));
    assert_eq!(packet, vec![2u8, 0x0a, 0x0b, 0x0c, 0x0d, 10, 20, 30]);
    assert_eq!(Message::parse(&packet), Ok(Message::Part { id: 0x0a0b_0c0d, data: vec![10, 20, 30] }));
}

#[test]
fn packet_keeps_its_length_and_what_is_behind_the_frame() {
    let mut packet = [0u8; 8];
    assert_eq!(make_parts_packet(&[0xAA, 0xBB], 0x0102_0304, &mut packet, 1495), Ok(()));
    assert_eq!(packet, [2u8, 1, 2, 3, 4, 0xAA, 0xBB, 0]);
    let mut filled = vec![9u8; 12];
    assert_eq!(make_parts_packet(&[5, 6, 7], 1, &mut filled, 3), Ok(()));
    assert_eq!(filled, vec![2u8, 0, 0, 0, 1, 5, 6, 7, 9, 9, 9, 9]);
}

#[test]
fn packet_of_an_empty_chunk_is_the_header() {
    let mut packet = vec![8u8; 6];
    assert_eq!(make_parts_packet(&[], 1, &mut packet, 1495), Ok(()));
    assert_eq!(packet, vec![2u8, 0, 0, 0, 1, 8]);
    let mut exact = [0u8; 5];
    assert_eq!(make_parts_packet(&[], 0xffff_ffff, &mut exact, 0), Ok(()));
    assert_eq!(exact, [2u8, 255, 255, 255, 255]);
}

#[test]
fn chunk_that_is_too_long_does_not_fit() {
    let mut packet = vec![1u8, 2, 3];
    assert_eq!(make_parts_packet(&[0; 1496], 0, &mut packet, 1495), Err(BufferError::DoesNotFit));
    assert_eq!(packet, vec![1u8, 2, 3]);
    let mut frame = vec![0u8; 1500];
    assert_eq!(make_parts_packet(&[3; 1495], 0, &mut frame, 1495), Ok(()));
    assert_eq!(frame.len(), 1500);
    assert_eq!(&frame[..5], &[2u8, 0, 0, 0, 0]);
    assert!(frame[5..].iter().all(|octet| *octet == 3));
}

#[test]
fn part_count_rounds_up() {
    assert_eq!(part_count(0, 1000), Some(0));
    assert_eq!(part_count(1, 1000), Some(1));
    assert_eq!(part_count(1000, 1000), Some(1));
    assert_eq!(part_count(1001, 1000), Some(2));
    assert_eq!(part_count(10_000, 1000), Some(10));
    assert_eq!(part_count(8 * 1024 * 1024, 1495), Some(5612));
    assert_eq!(part_count(u32::MAX as u64, 1), Some(u32::MAX));
    assert_eq!(part_count(u32::MAX as u64 + 1, 1), None);
    assert_eq!(part_count(u64::MAX, 1495), None);
}

#[test]
fn block_is_cut_into_parts_with_increasing_ids() {
    let mut sender = Sender::new(&config(4));
    let block: Vec<u8> = (1..=10).collect();
    assert!(sender.has_ids_for(block.len()));
    let frames = sender.feed(&block);
    assert_eq!(frames, vec![part(0, &[1, 2, 3, 4]), part(1, &[5, 6, 7, 8])]);
    assert_eq!(sender.unconfirmed(), vec![0, 1]);
    assert!(sender.can_finish());
    assert_eq!(sender.finish(), Some(part(2, &[9, 10])));
    assert_eq!(sender.unconfirmed(), vec![0, 1, 2]);
    assert_eq!(sender.finish(), None);
}

#[test]
fn parts_do_not_depend_on_how_the_file_is_read() {
    let source: Vec<u8> = (0..=255u8).cycle().take(1000).collect();
    let mut whole = Sender::new(&config(64));
    let mut expected = whole.feed(&source);
    expected.extend(whole.finish());
    assert_eq!(expected.len(), 16);
    for block_size in [1usize, 3, 63, 64, 65, 128, 500, 999, 1000, 5000] {
        let mut sender = Sender::new(&config(64));
        let mut frames = Vec::new();
        for block in source.chunks(block_size) {
            assert!(sender.has_ids_for(block.len()));
            frames.extend(sender.feed(block));
        }
        frames.extend(sender.finish());
        assert_eq!(frames, expected);
    }
    for (id, frame) in expected.iter().enumerate() {
        let start = id * 64;
        let end = (start + 64).min(source.len());
        assert_eq!(frame, &part(id as u32, &source[start..end]));
    }
}

#[test]
fn file_of_whole_parts_has_no_short_part() {
    let mut sender = Sender::new(&config(5));
    assert_eq!(sender.feed(&[0; 15]).len(), 3);
    assert_eq!(sender.finish(), None);
    let mut empty = Sender::new(&config(5));
    assert_eq!(empty.feed(&[]), Vec::<Vec<u8>>::new());
    assert_eq!(empty.finish(), None);
    assert_eq!(empty.unconfirmed(), Vec::<u32>::new());
}

#[test]
fn poll_lists_what_is_unconfirmed() {
    let mut sender = Sender::new(&config(1));
    assert!(sender.can_poll());
    assert_eq!(sender.sync_frame(), vec![3u8, 0, 0, 0, 0]);
    sender.feed(&[10, 11, 12]);
    assert_eq!(sender.sync_frame(), Message::Sync { ids: vec![0, 1, 2] }.serialize());
    sender.acknowledge(&vec![1]);
    assert_eq!(sender.sync_frame(), Message::Sync { ids: vec![0, 2] }.serialize());
}

#[test]
fn ack_evicts_and_is_idempotent() {
    let mut sender = Sender::new(&config(2));
    sender.feed(&[1, 2, 3, 4, 5, 6, 7, 8]);
    assert_eq!(sender.unconfirmed(), vec![0, 1, 2, 3]);
    sender.acknowledge(&vec![2, 0, 2, 99]);
    assert_eq!(sender.unconfirmed(), vec![1, 3]);
    sender.acknowledge(&vec![2, 0]);
    assert_eq!(sender.unconfirmed(), vec![1, 3]);
    assert_eq!(sender.retransmit(&vec![0, 2]), Vec::<Vec<u8>>::new());
    assert_eq!(sender.retransmit(&vec![0, 1, 2, 3]), vec![part(1, &[3, 4]), part(3, &[7, 8])]);
}

#[test]
fn loss_is_answered_with_the_frames_sent_before() {
    let mut sender = Sender::new(&config(3));
    let sent = sender.feed(&[9, 8, 7, 6, 5, 4, 3, 2, 1]);
    assert_eq!(sender.retransmit(&vec![2, 0]), vec![sent[2].clone(), sent[0].clone()]);
    assert_eq!(sender.retransmit(&vec![1, 1]), vec![sent[1].clone(), sent[1].clone()]);
    assert_eq!(sender.retransmit(&vec![3, 77]), Vec::<Vec<u8>>::new());
    assert_eq!(sender.unconfirmed(), vec![0, 1, 2]);
}

#[test]
fn sender_takes_ack_and_loss_datagrams() {
    let mut sender = Sender::new(&config(2));
    let sent = sender.feed(&[1, 2, 3, 4, 5, 6]);
    match sender.on_datagram(&Message::Ack { ids: vec![1] }.serialize()) {
        Feedback::Acked => {}
        other => panic!("unexpected {:?}", other),
    }
    assert_eq!(sender.unconfirmed(), vec![0, 2]);
    match sender.on_datagram(&Message::Loss { ids: vec![0, 1, 2] }.serialize()) {
        Feedback::Resend { frames } => assert_eq!(frames, vec![sent[0].clone(), sent[2].clone()]),
        other => panic!("unexpected {:?}", other),
    }
    assert_eq!(sender.unconfirmed(), vec![0, 2]);
    match sender.on_datagram(&Message::Loss { ids: vec![1] }.serialize()) {
        Feedback::Resend { frames } => assert!(frames.is_empty()),
        other => panic!("unexpected {:?}", other),
    }
}

#[test]
fn sender_hands_back_what_it_has_no_use_for() {
    let mut sender = Sender::new(&config(2));
    sender.feed(&[1, 2]);
    match sender.on_datagram(&Message::Sync { ids: vec![0] }.serialize()) {
        Feedback::Unexpected { message } => assert_eq!(message, Message::Sync { ids: vec![0] }),
        other => panic!("unexpected {:?}", other),
    }
    match sender.on_datagram(&[4u8, 0, 0, 0, 2, 0, 0, 0, 0]) {
        Feedback::Malformed { error } => assert_eq!(error, MarshallError::UnableToDeserialize),
        other => panic!("unexpected {:?}", other),
    }
    assert_eq!(sender.unconfirmed(), vec![0]);
}

#[test]
fn sender_knows_when_ids_run_out() {
    let sender = Sender::new(&config(1));
    assert!(sender.has_ids_for(0));
    assert!(sender.has_ids_for(u32::MAX as usize));
    if usize::MAX as u64 > u32::MAX as u64 {
        assert!(!sender.has_ids_for(u32::MAX as usize + 1));
        assert!(!sender.has_ids_for(usize::MAX));
    }
    let wide = Sender::new(&config(1495));
    assert!(wide.has_ids_for(8 * 1024 * 1024));
    assert!(wide.can_finish());
    assert!(wide.can_poll());
    assert_eq!(wide.outstanding(), 0);
}

#[test]
fn sender_is_done_when_nothing_waits() {
    let mut sender = Sender::new(&config(2));
    assert!(!sender.is_done(false));
    assert!(sender.is_done(true));
    sender.feed(&[1, 2, 3]);
    assert!(!sender.is_done(true));
    sender.acknowledge(&vec![0]);
    assert!(!sender.is_done(true));
    assert_eq!(sender.finish(), Some(part(1, &[3])));
    assert!(!sender.is_done(true));
    sender.acknowledge(&vec![1]);
    assert!(!sender.is_done(false));
    assert!(sender.is_done(true));
}

use sanic::config::Config;
use sanic::parts::part_count;
use sanic::protocol::Message;
use sanic::reassembly::{WriteOp, Writer};
use sanic::receiver::{Incoming, Listener};
use sanic::sender::{Feedback, Sender};

fn perform(file: &mut Vec<u8>, writes: &[WriteOp]) {
    for write in writes {
        let start = write.offset as usize;
        let end = start + write.data.len();
        if file.len() < end {
            file.resize(end, 0);
        }
        file[start..end].copy_from_slice(&write.data);
    }
}

struct Receiver {
    listener: Listener,
    writer: Writer,
    file: Vec<u8>,
}

impl Receiver {
    fn new(config: &Config, total: u32) -> Self {
        Receiver { listener: Listener::new(total), writer: Writer::new(config, total), file: Vec::new() }
    }

    fn take(&mut self, datagram: &[u8]) -> Vec<Vec<u8>> {
        match self.listener.on_datagram(datagram) {
            Incoming::Part { id, data, .. } => {
                let writes = self.writer.accept(id, data).unwrap();
                perform(&mut self.file, &writes);
                Vec::new()
            }
            Incoming::Poll { reply } => reply.frames(),
            other => panic!("unexpected {:?}", other),
        }
    }
}

#[test]
fn ten_thousand_octets_with_every_other_part_lost() {
    let config = Config { mtu: 1005, batch: 100, sync_interval_ms: 200, block_size: 4096 };
    assert!(config.is_valid());
    assert_eq!(config.part_size(), 1000);
    let source: Vec<u8> = (0..10_000u32).map(|i| (i * 7 + i / 256) as u8).collect();
    let total = part_count(source.len() as u64, config.part_size()).unwrap();
    assert_eq!(total, 10);

    let mut sender = Sender::new(&config);
    let mut sent: Vec<Vec<u8>> = Vec::new();
    for block in source.chunks(config.block_size) {
        assert!(sender.has_ids_for(block.len()));
        sent.extend(sender.feed(block));
    }
    assert!(sender.can_finish());
    sent.extend(sender.finish());
    assert_eq!(sent.len(), 10);
    for (id, frame) in sent.iter().enumerate() {
        let chunk = source[id * 1000..(id + 1) * 1000].to_vec();
        assert_eq!(Message::parse(frame), Ok(Message::Part { id: id as u32, data: chunk }));
    }
    assert_eq!(sender.unconfirmed(), (0..10).collect::<Vec<u32>>());

    let mut receiver = Receiver::new(&config, total);
    for frame in sent.iter().step_by(2) {
        assert!(receiver.take(frame).is_empty());
    }
    assert!(!receiver.listener.is_finished());
    assert!(!receiver.writer.is_complete());

    assert!(sender.can_poll());
    let poll = sender.sync_frame();
    assert_eq!(Message::parse(&poll), Ok(Message::Sync { ids: (0..10).collect() }));
    let replies = receiver.take(&poll);
    assert_eq!(
        replies,
        vec![
            Message::Ack { ids: vec![0, 2, 4, 6, 8] }.serialize(),
            Message::Loss { ids: vec![1, 3, 5, 7, 9] }.serialize(),
        ]
    );

    let mut resent: Vec<Vec<u8>> = Vec::new();
    for reply in &replies {
        match sender.on_datagram(reply) {
            Feedback::Acked => {}
            Feedback::Resend { frames } => resent.extend(frames),
            other => panic!("unexpected {:?}", other),
        }
    }
    assert_eq!(sender.unconfirmed(), vec![1, 3, 5, 7, 9]);
    assert_eq!(resent.len(), 5);
    for (k, frame) in resent.iter().enumerate() {
        assert_eq!(frame, &sent[2 * k + 1]);
    }

    for frame in resent.iter().rev() {
        assert!(receiver.take(frame).is_empty());
    }
    assert!(receiver.listener.is_finished());
    assert!(receiver.writer.is_complete());
    assert_eq!(receiver.file, source);

    let replies = receiver.take(&sender.sync_frame());
    assert_eq!(replies, vec![Message::Ack { ids: vec![1, 3, 5, 7, 9] }.serialize()]);
    for reply in &replies {
        sender.on_datagram(reply);
    }
    assert_eq!(sender.unconfirmed(), Vec::<u32>::new());
    assert_eq!(sender.sync_frame(), Message::Sync { ids: vec![] }.serialize());
}

#[test]
fn lossy_reordering_path_delivers_the_file() {
    let config = Config { mtu: 37, batch: 5, sync_interval_ms: 200, block_size: 100 };
    let source: Vec<u8> = (0..3001u32).map(|i| (i % 251) as u8).collect();
    let total = part_count(source.len() as u64, config.part_size()).unwrap();
    assert_eq!(total, 94);
    let mut sender = Sender::new(&config);
    let mut receiver = Receiver::new(&config, total);
    let mut state: u32 = 2024;
    let mut in_flight: Vec<Vec<u8>> = Vec::new();
    for block in source.chunks(config.block_size) {
        in_flight.extend(sender.feed(block));
    }
    in_flight.extend(sender.finish());
    let mut rounds = 0;
    while !receiver.writer.is_complete() {
        rounds += 1;
        assert!(rounds < 200);
        in_flight.reverse();
        for frame in in_flight.drain(..) {
            state = state.wrapping_mul(1103515245).wrapping_add(12345);
            if (state >> 16) % 3 == 0 {
                continue;
            }
            receiver.take(&frame);
            if (state >> 20) % 4 == 0 {
                receiver.take(&frame);
            }
        }
        for reply in receiver.take(&sender.sync_frame()) {
            if let Feedback::Resend { frames } = sender.on_datagram(&reply) {
                in_flight.extend(frames);
            }
        }
    }
    assert_eq!(receiver.file, source);
    assert!(receiver.listener.is_finished());
}

use sanic::config::Config;
use sanic::protocol::BufferError;
use sanic::reassembly::{flush, Chunk, WriteOp, Writer};

fn config(part_size: usize, batch: usize) -> Config {
    Config { mtu: part_size + 5, batch, sync_interval_ms: 200, block_size: 1 << 20 }
}

fn perform(file: &mut Vec<u8>, writes: &[WriteOp]) {
    for write in writes {
        let start = write.offset as usize;
        let end = start + write.data.len();
        if file.len() < end {
            file.resize(end, 0);
        }
        file[start..end].copy_from_slice(&write.data);
    }
}

fn chunk(id: u32, data: &[u8]) -> Chunk {
    Chunk { id, data: data.to_vec() }
}

#[test]
fn flush_of_nothing_writes_nothing() {
    assert_eq!(flush(&vec![], 4), vec![]);
}

#[test]
fn flush_joins_neighbours() {
    let buffer = vec![chunk(2, &[1, 2, 3, 4]), chunk(3, &[5, 6, 7, 8]), chunk(4, &[9])];
    assert_eq!(flush(&buffer, 4), vec![WriteOp { offset: 8, data: vec![1, 2, 3, 4, 5, 6, 7, 8, 9] }]);
}

#[test]
fn flush_starts_a_new_write_at_a_gap() {
    let buffer = vec![chunk(0, &[1, 2]), chunk(1, &[3, 4]), chunk(3, &[7, 8]), chunk(7, &[9])];
    assert_eq!(
        flush(&buffer, 2),
        vec![
            WriteOp { offset: 0, data: vec![1, 2, 3, 4] },
            WriteOp { offset: 6, data: vec![7, 8] },
            WriteOp { offset: 14, data: vec![9] },
        ]
    );
}

#[test]
fn flush_writes_the_last_part_of_the_buffer() {
    let buffer = vec![chunk(5, &[1, 1, 1]), chunk(9, &[2, 2, 2])];
    let writes = flush(&buffer, 3);
    assert_eq!(writes.last(), Some(&WriteOp { offset: 27, data: vec![2, 2, 2] }));
    let single = flush(&vec![chunk(6, &[4])], 3);
    assert_eq!(single, vec![WriteOp { offset: 18, data: vec![4] }]);
}

#[test]
fn flush_does_not_join_behind_a_short_part() {
    let buffer = vec![chunk(0, &[1, 2, 3]), chunk(1, &[4, 5, 6, 7])];
    assert_eq!(
        flush(&buffer, 4),
        vec![WriteOp { offset: 0, data: vec![1, 2, 3] }, WriteOp { offset: 4, data: vec![4, 5, 6, 7] }]
    );
}

#[test]
fn flush_writes_a_repeated_part_twice() {
    let buffer = vec![chunk(1, &[1, 2]), chunk(1, &[1, 2]), chunk(2, &[3, 4])];
    assert_eq!(
        flush(&buffer, 2),
        vec![WriteOp { offset: 2, data: vec![1, 2] }, WriteOp { offset: 2, data: vec![1, 2, 3, 4] }]
    );
}

#[test]
fn offsets_use_all_64_bits() {
    let buffer = vec![chunk(u32::MAX, &[1])];
    assert_eq!(
        flush(&buffer, 1495),
        vec![WriteOp { offset: 4294967295u64 * 1495, data: vec![1] }]
    );
}

#[test]
fn writer_keeps_parts_until_the_batch_is_full() {
    let mut writer = Writer::new(&config(2, 3), 100);
    assert_eq!(writer.accept(4, vec![9, 9]), Ok(vec![]));
    assert_eq!(writer.accept(2, vec![5, 5]), Ok(vec![]));
    assert_eq!(
        writer.accept(3, vec![7, 7]),
        Ok(vec![WriteOp { offset: 4, data: vec![5, 5, 7, 7, 9, 9] }])
    );
    assert_eq!(writer.accept(0, vec![1, 1]), Ok(vec![]));
    assert!(!writer.is_complete());
}

#[test]
fn writer_flushes_when_the_file_is_complete() {
    let mut writer = Writer::new(&config(2, 100), 3);
    assert_eq!(writer.accept(2, vec![5]), Ok(vec![]));
    assert_eq!(writer.accept(0, vec![1, 2]), Ok(vec![]));
    assert!(!writer.is_complete());
    assert_eq!(writer.accept(1, vec![3, 4]), Ok(vec![WriteOp { offset: 0, data: vec![1, 2, 3, 4, 5] }]));
    assert!(writer.is_complete());
}

#[test]
fn writer_ignores_parts_once_complete() {
    let mut writer = Writer::new(&config(2, 100), 1);
    assert_eq!(writer.accept(0, vec![1]), Ok(vec![WriteOp { offset: 0, data: vec![1] }]));
    assert!(writer.is_complete());
    assert_eq!(writer.accept(0, vec![1]), Ok(vec![]));
    assert_eq!(writer.accept(5, vec![1]), Ok(vec![]));
    assert!(writer.is_complete());
}

#[test]
fn writer_for_an_empty_file_is_complete() {
    let mut writer = Writer::new(&config(1495, 100), 0);
    assert!(writer.is_complete());
    assert_eq!(writer.accept(0, vec![1]), Ok(vec![]));
}

#[test]
fn writer_does_not_count_a_part_twice() {
    let mut writer = Writer::new(&config(2, 100), 2);
    assert_eq!(writer.accept(0, vec![1, 2]), Ok(vec![]));
    assert_eq!(writer.accept(0, vec![1, 2]), Ok(vec![]));
    assert_eq!(writer.accept(0, vec![1, 2]), Ok(vec![]));
    assert!(!writer.is_complete());
    let writes = writer.accept(1, vec![3]).unwrap();
    assert!(writer.is_complete());
    let mut file = Vec::new();
    perform(&mut file, &writes);
    assert_eq!(file, vec![1, 2, 3]);
}

#[test]
fn writer_refuses_a_chunk_that_is_too_long() {
    let mut writer = Writer::new(&config(2, 100), 2);
    assert_eq!(writer.accept(0, vec![1, 2, 3]), Err(BufferError::DoesNotFit));
    assert!(!writer.is_complete());
    assert_eq!(writer.accept(1, vec![3]), Ok(vec![]));
    assert_eq!(writer.accept(0, vec![1, 2]), Ok(vec![WriteOp { offset: 0, data: vec![1, 2, 3] }]));
}

#[test]
fn same_part_twice_gives_the_same_file() {
    let deliveries: Vec<(u32, Vec<u8>)> =
        vec![(3, vec![7, 8]), (0, vec![1, 2]), (1, vec![3, 4]), (2, vec![5, 6]), (4, vec![9])];
    for batch in 1..7usize {
        for repeated in 0..deliveries.len() {
            let mut once = Writer::new(&config(2, batch), 5);
            let mut twice = Writer::new(&config(2, batch), 5);
            let mut file_once = Vec::new();
            let mut file_twice = Vec::new();
            for (step, (id, data)) in deliveries.iter().enumerate() {
                perform(&mut file_once, &once.accept(*id, data.clone()).unwrap());
                perform(&mut file_twice, &twice.accept(*id, data.clone()).unwrap());
                if step == repeated {
                    perform(&mut file_twice, &twice.accept(*id, data.clone()).unwrap());
                }
            }
            assert!(once.is_complete());
            assert!(twice.is_complete());
            assert_eq!(file_once, vec![1, 2, 3, 4, 5, 6, 7, 8, 9]);
            assert_eq!(file_twice, file_once);
        }
    }
}

fn permutations(items: Vec<u32>) -> Vec<Vec<u32>> {
    if items.len() <= 1 {
        return vec![items];
    }
    let mut all = Vec::new();
    for i in 0..items.len() {
        let mut rest = items.clone();
        let first = rest.remove(i);
        for mut tail in permutations(rest) {
            let mut order = vec![first];
            order.append(&mut tail);
            all.push(order);
        }
    }
    all
}

#[test]
fn any_order_gives_the_source() {
    let source: Vec<u8> = (0..23u8).collect();
    let part_size = 5;
    let parts: Vec<Vec<u8>> = source.chunks(part_size).map(|c| c.to_vec()).collect();
    assert_eq!(parts.len(), 5);
    for batch in [1usize, 2, 3, 100] {
        for order in permutations(vec![0, 1, 2, 3, 4]) {
            let mut writer = Writer::new(&config(part_size, batch), 5);
            let mut file = Vec::new();
            for (step, id) in order.iter().enumerate() {
                assert!(!writer.is_complete());
                let writes = writer.accept(*id, parts[*id as usize].clone()).unwrap();
                perform(&mut file, &writes);
                assert_eq!(writer.is_complete(), step == 4);
            }
            assert_eq!(file, source);
        }
    }
}

#[test]
fn any_order_with_repeats_gives_the_source() {
    let source: Vec<u8> = (0..=255u8).cycle().take(1000).collect();
    let part_size = 64;
    let parts: Vec<Vec<u8>> = source.chunks(part_size).map(|c| c.to_vec()).collect();
    let total = parts.len() as u32;
    assert_eq!(total, 16);
    let mut order: Vec<u32> = Vec::new();
    let mut state: u32 = 12345;
    let mut missing = total;
    let mut seen = vec![false; total as usize];
    while missing > 0 {
        state = state.wrapping_mul(1103515245).wrapping_add(12345);
        let id = (state >> 16) % total;
        order.push(id);
        if !seen[id as usize] {
            seen[id as usize] = true;
            missing -= 1;
        }
    }
    assert!(order.len() > total as usize);
    for batch in [1usize, 4, 7, 100] {
        let mut writer = Writer::new(&config(part_size, batch), total);
        let mut file = Vec::new();
        for id in &order {
            perform(&mut file, &writer.accept(*id, parts[*id as usize].clone()).unwrap());
        }
        assert!(writer.is_complete());
        assert_eq!(file, source);
    }
}

use sanic::config::Config;

#[test]
fn default_settings() {
    let config = Config::default();
    assert_eq!(config.mtu, 1500);
    assert_eq!(config.batch, 100);
    assert_eq!(config.sync_interval_ms, 200);
    assert_eq!(config.block_size, 8 * 1024 * 1024);
    assert!(config.is_valid());
    assert_eq!(config.part_size(), 1495);
}

#[test]
fn part_size_is_what_the_header_leaves() {
    let config = Config { mtu: 1005, batch: 1, sync_interval_ms: 1, block_size: 1 };
    assert!(config.is_valid());
    assert_eq!(config.part_size(), 1000);
    let smallest = Config { mtu: 6, batch: 1, sync_interval_ms: 0, block_size: 1 };
    assert!(smallest.is_valid());
    assert_eq!(smallest.part_size(), 1);
}

#[test]
fn settings_without_room_for_a_part_are_invalid() {
    let base = Config::default();
    assert!(!Config { mtu: 5, ..base }.is_valid());
    assert!(!Config { mtu: 0, ..base }.is_valid());
    assert!(!Config { batch: 0, ..base }.is_valid());
    assert!(!Config { block_size: 0, ..base }.is_valid());
    assert!(Config { mtu: u32::MAX as usize, ..base }.is_valid());
    assert!(!Config { mtu: u32::MAX as usize + 1, ..base }.is_valid());
}

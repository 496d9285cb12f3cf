use sanic::config::Config;
use sanic::handshake::{acceptance, accepts, announce, announced, announces_again, ANNOUNCEMENTS};
use sanic::protocol::Message;

#[test]
fn announcement_counts_the_parts() {
    let config = Config { mtu: 1005, ..Config::default() };
    let (frame, total) = announce("photo.jpg", 10_000, &config).unwrap();
    assert_eq!(total, 10);
    assert_eq!(Message::parse(&frame), Ok(Message::Send { filename: String::from("photo.jpg"), parts: 10 }));
    assert_eq!(announced(&frame), Some((String::from("photo.jpg"), 10)));
    let (_, total) = announce("photo.jpg", 10_001, &config).unwrap();
    assert_eq!(total, 11);
    let (frame, total) = announce("", 0, &config).unwrap();
    assert_eq!(total, 0);
    assert_eq!(frame, vec![0u8, 0, 0, 0, 0, 0, 0, 0, 0]);
}

#[test]
fn file_with_too_many_parts_is_not_announced() {
    let config = Config { mtu: 6, ..Config::default() };
    assert!(announce("big", u32::MAX as u64, &config).is_some());
    assert!(announce("big", u32::MAX as u64 + 1, &config).is_none());
    assert!(announce("big", u64::MAX, &Config::default()).is_none());
}

#[test]
fn only_an_announcement_announces() {
    assert_eq!(announced(&Message::Accept.serialize()), None);
    assert_eq!(announced(&Message::Part { id: 0, data: vec![0] }.serialize()), None);
    assert_eq!(announced(&[]), None);
    assert_eq!(announced(&[0u8, 0, 0, 0, 1, 0, 0, 0, 9, b'x']), None);
}

#[test]
fn only_an_acceptance_accepts() {
    assert_eq!(acceptance(), vec![1u8]);
    assert!(accepts(&acceptance()));
    assert!(accepts(&[1u8, 0, 0]));
    assert!(!accepts(&[]));
    assert!(!accepts(&[0u8]));
    assert!(!accepts(&Message::Ack { ids: vec![] }.serialize()));
}

#[test]
fn announcement_is_repeated_fifty_times() {
    assert_eq!(ANNOUNCEMENTS, 50);
    assert!(announces_again(0));
    assert!(announces_again(49));
    assert!(!announces_again(50));
    assert!(!announces_again(u32::MAX));
}

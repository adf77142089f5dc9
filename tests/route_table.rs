use rdht::errors::Error;
use rdht::server::route_table::{Insert, Key, NetAddr, Node, RouteTable};
use sha1::{Digest, Sha1};

fn key_with_first_byte(first: u8, last: u8) -> Key {
    let mut bytes = [0u8; 20];
    bytes[0] = first;
    bytes[19] = last;
    Key::from_bytes(&bytes).unwrap()
}

fn addr() -> NetAddr {
    NetAddr::new([10, 0, 0, 1], 6881)
}

#[test]
fn test_sha1() {
    let digest: [u8; 20] = Sha1::new().finalize().into();
    assert_eq!(Key::new().data(), digest);
    assert_eq!(digest[0], 0xda);
    assert_eq!(digest[19], 0x09);
}

#[test]
fn test_route_table_insert() -> Result<(), Error> {
    let mut table = RouteTable::new("127.0.0.1:7891", 0)?;
    let id = "12345678900987654321";
    assert_eq!(table.put(Node::new(id.as_bytes(), "127.0.0.1:8921")?, 0), Insert::Added);
    let node = table
        .get(&Key::from_bytes(id.as_bytes())?)
        .expect("should get node from the table");
    assert_eq!(node.id().data(), *b"12345678900987654321");
    assert_eq!(*node.addr(), NetAddr::new([127, 0, 0, 1], 8921));
    Ok(())
}

#[test]
fn same_id_replaces() {
    let mut table = RouteTable::new("127.0.0.1:7891", 0).unwrap();
    let id = key_with_first_byte(0x80, 1);
    let a = Node::from_parts(id, NetAddr::new([1, 2, 3, 4], 1));
    let b = Node::from_parts(id, NetAddr::new([5, 6, 7, 8], 2));
    assert_eq!(table.put(a, 1), Insert::Added);
    assert_eq!(table.put(b, 2), Insert::Replaced);
    assert_eq!(table.len(), 1);
    assert_eq!(table.get(&id).unwrap().addr().port, 2);
}

#[test]
fn ninth_contact_off_the_local_path_is_rejected() {
    let me = Node::from_parts(key_with_first_byte(0x00, 0), addr());
    let mut table = RouteTable::with_self(me, 0);
    // eight contacts whose first bit differs from the local id's
    for i in 0..8u8 {
        let n = Node::from_parts(key_with_first_byte(0x80, i), addr());
        assert_eq!(table.put(n, 0), Insert::Added);
    }
    // the ninth fills the root, which splits; its side (first bit 1) is full
    // with the first eight, off the local path, and cannot split
    let ninth = Node::from_parts(key_with_first_byte(0x80, 100), addr());
    assert_eq!(table.put(ninth, 0), Insert::Rejected);
    assert_eq!(table.len(), 8);
    for i in 0..8u8 {
        assert!(table.get(&key_with_first_byte(0x80, i)).is_some());
    }
    assert!(table.get(&key_with_first_byte(0x80, 100)).is_none());
    // once more: the bucket is full and off the path, nothing changes
    assert_eq!(table.put(ninth, 0), Insert::Rejected);
    assert_eq!(table.len(), 8);
    // a contact on the local side still fits
    let near = Node::from_parts(key_with_first_byte(0x01, 7), addr());
    assert_eq!(table.put(near, 0), Insert::Added);
    assert_eq!(table.len(), 9);
}

#[test]
fn local_path_splits() {
    let me = Node::from_parts(key_with_first_byte(0x00, 0), addr());
    let mut table = RouteTable::with_self(me, 0);
    // twenty contacts all on the local side of the first bits
    for i in 0..20u8 {
        let n = Node::from_parts(key_with_first_byte(i, i), addr());
        let r = table.put(n, 0);
        assert!(r == Insert::Added || r == Insert::Rejected);
    }
    assert!(table.len() > 8);
    assert!(table.get(&key_with_first_byte(0, 0)).is_some());
}

#[test]
fn key_bits() {
    let k = key_with_first_byte(0b1010_0000, 0b0000_0001);
    assert_eq!(k.bit(0), 1);
    assert_eq!(k.bit(1), 0);
    assert_eq!(k.bit(2), 1);
    assert_eq!(k.bit(3), 0);
    assert_eq!(k.bit(159), 1);
    assert_eq!(k.bit(158), 0);
    assert!(k.same(&k));
    assert!(!k.same(&key_with_first_byte(0, 1)));
}

#[test]
fn bad_inputs() {
    assert_eq!(
        Key::from_bytes(b"short"),
        Err(Error::InvalidKey(b"short".to_vec()))
    );
    assert_eq!(
        Node::new(b"12345678900987654321", "127.0.0.1"),
        Err(Error::InvalidNetAddr("127.0.0.1".to_string()))
    );
    assert!(NetAddr::parse("256.0.0.1:80").is_err());
    assert!(NetAddr::parse("1.2.3.4:65536").is_err());
    assert!(NetAddr::parse("01.2.3.4:80").is_err());
    assert!(NetAddr::parse("1.2.3.4:80x").is_err());
    assert_eq!(
        NetAddr::parse("192.168.0.255:65535"),
        Ok(NetAddr::new([192, 168, 0, 255], 65535))
    );
    assert!(matches!(
        RouteTable::new("localhost:80", 0),
        Err(Error::InvalidNetAddr(_))
    ));
}

#[test]
fn stale_buckets_by_age() {
    let me = Node::from_parts(key_with_first_byte(0x00, 0), addr());
    let mut table = RouteTable::with_self(me, 0);
    assert_eq!(table.stale_buckets(900), Vec::<Vec<u8>>::new());
    assert_eq!(table.stale_buckets(901), vec![Vec::<u8>::new()]);
    // fill and split the root: left (bit 1) and right (bit 0) leaves
    for i in 0..8u8 {
        let n = Node::from_parts(key_with_first_byte(0x80, i), addr());
        assert_eq!(table.put(n, 1000), Insert::Added);
    }
    let near = Node::from_parts(key_with_first_byte(0x01, 1), addr());
    assert_eq!(table.put(near, 2000), Insert::Added);
    // the left leaf last changed at 1000, the right one at 2000
    assert_eq!(table.stale_buckets(2500), vec![vec![1u8]]);
    assert_eq!(table.stale_buckets(3000), vec![vec![1u8], vec![0u8]]);
    assert_eq!(table.stale_buckets(1500), Vec::<Vec<u8>>::new());
}

#[test]
fn closest_contacts_come_nearest_first() {
    let me = Node::from_parts(key_with_first_byte(0x00, 0), addr());
    let mut table = RouteTable::with_self(me, 0);
    for first in [0x40u8, 0x10, 0x80, 0x11, 0x03] {
        let n = Node::from_parts(key_with_first_byte(first, 0), addr());
        assert_eq!(table.put(n, 0), Insert::Added);
    }
    let target = key_with_first_byte(0x10, 0);
    let firsts: Vec<u8> = table
        .get_closest(&target, 3)
        .iter()
        .map(|n| n.id().data()[0])
        .collect();
    // distances from 0x10: 0x10 -> 0, 0x11 -> 1, 0x03 -> 0x13, 0x40 -> 0x50, 0x80 -> 0x90
    assert_eq!(firsts, vec![0x10, 0x11, 0x03]);
    assert_eq!(table.get_closest(&target, 10).len(), 5);
    assert_eq!(table.get_closest(&target, 0).len(), 0);
}

#[test]
fn contacts_are_equal_by_id() {
    let id = key_with_first_byte(0x42, 7);
    let a = Node::from_parts(id, NetAddr::new([1, 1, 1, 1], 1));
    let b = Node::from_parts(id, NetAddr::new([2, 2, 2, 2], 2));
    let c = Node::from_parts(key_with_first_byte(0x42, 8), NetAddr::new([1, 1, 1, 1], 1));
    assert!(a == b);
    assert!(a != c);
}

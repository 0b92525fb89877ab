use remule::clientcredit;
use remule::known2;
use remule::nodes;

fn v2_entry(
    uid: u128,
    ip: [u8; 4],
    udp: u16,
    tcp: u16,
    contact_version: u8,
    key: (u32, u32),
    verified: u8,
) -> Vec<u8> {
    let mut v = Vec::new();
    v.extend_from_slice(&uid.to_le_bytes());
    v.extend_from_slice(&ip);
    v.extend_from_slice(&udp.to_le_bytes());
    v.extend_from_slice(&tcp.to_le_bytes());
    v.push(contact_version);
    v.extend_from_slice(&key.0.to_le_bytes());
    v.extend_from_slice(&key.1.to_le_bytes());
    v.push(verified);
    v
}

#[test]
fn nodes_v2_parse() {
    // The first contact of a version-2 nodes.dat: the wire carries the
    // IPv4 address 190.215.228.231 as the dword [231, 228, 215, 190].
    let mut buf = Vec::new();
    buf.extend_from_slice(&0u32.to_le_bytes()); // zero: versioned layout
    buf.extend_from_slice(&2u32.to_le_bytes()); // version 2
    buf.extend_from_slice(&1u32.to_le_bytes()); // one contact
    buf.extend_from_slice(&v2_entry(
        92080831125886507272668723008887820410u128,
        [231, 228, 215, 190],
        4672,
        4662,
        8,
        (1182285559, 1289133357),
        1,
    ));

    let n = nodes::parse(&buf).unwrap();
    assert_eq!(n.version, 2);
    assert_eq!(n.is_bootstrap, false);
    assert_eq!(n.contacts.len(), 1);
    let c = &n.contacts[0];
    assert_eq!(c.uid, 92080831125886507272668723008887820410u128);
    assert_eq!(c.ip, u32::from_le_bytes([231, 228, 215, 190]));
    assert_eq!(c.udp_port, 4672);
    assert_eq!(c.tcp_port, 4662);
    assert_eq!(c.contact_version, Some(8));
    assert_eq!(c.by_type, None);
    assert_eq!(c.kad_udp_key, Some((1182285559, 1289133357)));
    assert_eq!(c.verified, Some(1));
}

#[test]
fn nodes_consumes_every_byte() {
    let mut buf = Vec::new();
    buf.extend_from_slice(&0u32.to_le_bytes());
    buf.extend_from_slice(&2u32.to_le_bytes());
    buf.extend_from_slice(&1u32.to_le_bytes());
    buf.extend_from_slice(&v2_entry(1, [1, 2, 3, 4], 10, 11, 8, (5, 6), 1));

    assert!(nodes::parse(&buf).is_ok());

    // One trailing byte is rejected, never silently ignored.
    let mut spare = buf.clone();
    spare.push(0xAB);
    assert_eq!(
        nodes::parse(&spare).unwrap_err(),
        nodes::Error::SpareBytes { count: 1 }
    );

    // A buffer that ends inside a record is rejected.
    let short = &buf[..buf.len() - 1];
    assert_eq!(
        nodes::parse(short).unwrap_err(),
        nodes::Error::ShortBuffer { need: 34, have: 33 }
    );
}

#[test]
fn nodes_version_zero_legacy() {
    // A nonzero first word is the legacy layout's contact count.
    let mut buf = Vec::new();
    buf.extend_from_slice(&1u32.to_le_bytes());
    let mut entry = Vec::new();
    entry.extend_from_slice(&7u128.to_le_bytes());
    entry.extend_from_slice(&[9, 9, 9, 9]);
    entry.extend_from_slice(&100u16.to_le_bytes());
    entry.extend_from_slice(&200u16.to_le_bytes());
    entry.push(3); // by_type in version 0
    buf.extend_from_slice(&entry);

    let n = nodes::parse(&buf).unwrap();
    assert_eq!(n.version, 0);
    assert_eq!(n.contacts.len(), 1);
    assert_eq!(n.contacts[0].by_type, Some(3));
    assert_eq!(n.contacts[0].contact_version, None);
    assert_eq!(n.contacts[0].kad_udp_key, None);
}

#[test]
fn nodes_unknown_version() {
    let mut buf = Vec::new();
    buf.extend_from_slice(&0u32.to_le_bytes());
    buf.extend_from_slice(&9u32.to_le_bytes());
    assert_eq!(
        nodes::parse(&buf).unwrap_err(),
        nodes::Error::UnknownVersion { version: 9 }
    );
}

#[test]
fn nodes_bootstrap_edition() {
    // Version 3, bootstrap edition 1: compact 25-byte records.
    let mut buf = Vec::new();
    buf.extend_from_slice(&0u32.to_le_bytes());
    buf.extend_from_slice(&3u32.to_le_bytes());
    buf.extend_from_slice(&1u32.to_le_bytes()); // bootstrap edition
    buf.extend_from_slice(&1u32.to_le_bytes()); // one contact
    let mut entry = Vec::new();
    entry.extend_from_slice(&55u128.to_le_bytes());
    entry.extend_from_slice(&[1, 2, 3, 4]);
    entry.extend_from_slice(&10u16.to_le_bytes());
    entry.extend_from_slice(&11u16.to_le_bytes());
    entry.push(8);
    buf.extend_from_slice(&entry);

    let n = nodes::parse(&buf).unwrap();
    assert_eq!(n.version, 3);
    assert!(n.is_bootstrap);
    assert_eq!(n.contacts.len(), 1);
    assert_eq!(n.contacts[0].uid, 55);
    assert_eq!(n.contacts[0].contact_version, Some(8));
    assert_eq!(n.contacts[0].kad_udp_key, None);
}

#[test]
fn parse_bootstrap_block() {
    let mut buf = Vec::new();
    buf.extend_from_slice(&1u32.to_le_bytes());
    let mut entry = Vec::new();
    entry.extend_from_slice(&66u128.to_le_bytes());
    entry.extend_from_slice(&[4, 3, 2, 1]);
    entry.extend_from_slice(&20u16.to_le_bytes());
    entry.extend_from_slice(&21u16.to_le_bytes());
    entry.push(9);
    buf.extend_from_slice(&entry);

    let contacts = nodes::parse_bootstrap(&buf).unwrap();
    assert_eq!(contacts.len(), 1);
    // The full 16-byte id is read.
    assert_eq!(contacts[0].uid, 66);
    assert_eq!(contacts[0].udp_port, 20);

    let mut bad = buf.clone();
    bad.push(0);
    assert_eq!(
        nodes::parse_bootstrap(&bad).unwrap_err(),
        nodes::Error::SizeMismatch { need: 25, have: 26 }
    );
}

#[test]
fn known2_parse_one_tree() {
    let mut buf = vec![0x02u8];
    buf.extend_from_slice(&[0xAA; 20]); // root
    buf.extend_from_slice(&2u32.to_le_bytes());
    buf.extend_from_slice(&[0x01; 20]); // first child
    buf.extend_from_slice(&[0x02; 20]); // second child

    let trees = known2::parse(&buf).unwrap();
    assert_eq!(trees.len(), 1);
    assert_eq!(trees[0].root.data, vec![0xAA; 20]);
    assert_eq!(trees[0].children.len(), 2);
    assert_eq!(trees[0].children[0].data, vec![0x01; 20]);
    assert_eq!(trees[0].children[1].data, vec![0x02; 20]);

    // Trailing bytes where a tree entry was expected are an error.
    let mut spare = buf.clone();
    spare.push(0x00);
    assert_eq!(
        known2::parse(&spare).unwrap_err(),
        known2::Error::SpareBytes { need: 24, have: 1 }
    );
}

#[test]
fn known2_errors() {
    assert_eq!(
        known2::parse(&[]).unwrap_err(),
        known2::Error::ShortBuffer { need: 1, have: 0 }
    );
    assert_eq!(
        known2::parse(&[0x03]).unwrap_err(),
        known2::Error::UnknownVersion { version: 3 }
    );
    // A declared child that is missing is an error.
    let mut buf = vec![0x02u8];
    buf.extend_from_slice(&[0xAA; 20]);
    buf.extend_from_slice(&2u32.to_le_bytes());
    buf.extend_from_slice(&[0x01; 20]);
    assert_eq!(
        known2::parse(&buf).unwrap_err(),
        known2::Error::ShortBuffer { need: 40, have: 20 }
    );
}

fn credit_record_29(key: [u8; 16], up: (u32, u32), down: (u32, u32), last_seen: u32) -> Vec<u8> {
    let mut v = Vec::new();
    v.extend_from_slice(&key);
    v.extend_from_slice(&up.1.to_le_bytes()); // uploaded_lo
    v.extend_from_slice(&down.1.to_le_bytes()); // downloaded_lo
    v.extend_from_slice(&last_seen.to_le_bytes());
    v.extend_from_slice(&up.0.to_le_bytes()); // uploaded_hi
    v.extend_from_slice(&down.0.to_le_bytes()); // downloaded_hi
    v.extend_from_slice(&0u16.to_le_bytes()); // reserved
    v.extend_from_slice(&[0u8; 4]); // padding up to the 42-byte record
    v
}

#[test]
fn clients_met_legacy() {
    let mut buf = vec![0x11u8];
    buf.extend_from_slice(&1u32.to_le_bytes());
    buf.extend_from_slice(&credit_record_29([7; 16], (1, 5), (0, 9), 1600000000));

    let credits = clientcredit::parse(&buf).unwrap();
    assert_eq!(credits.len(), 1);
    let c = &credits[0];
    assert_eq!(c.key, vec![7u8; 16]);
    assert_eq!(c.uploaded, (1u64 << 32) + 5);
    assert_eq!(c.downloaded, 9);
    assert_eq!(c.last_seen, 1600000000);
    assert!(c.secure_ident.is_empty());
}

#[test]
fn clients_met_extended() {
    let mut record = credit_record_29([1; 16], (0, 2), (0, 3), 42);
    record.push(3); // key_size
    let mut ident = [0u8; 80];
    ident[0] = 9;
    ident[1] = 8;
    ident[2] = 7;
    record.extend_from_slice(&ident);

    let mut buf = vec![0x12u8];
    buf.extend_from_slice(&1u32.to_le_bytes());
    buf.extend_from_slice(&record);

    let credits = clientcredit::parse(&buf).unwrap();
    assert_eq!(credits.len(), 1);
    assert_eq!(credits[0].secure_ident, vec![9u8, 8, 7]);
}

#[test]
fn clients_met_errors() {
    assert_eq!(
        clientcredit::parse(&[]).unwrap_err(),
        clientcredit::Error::ShortBuffer { need: 1, have: 0 }
    );
    assert_eq!(
        clientcredit::parse(&[0x13]).unwrap_err(),
        clientcredit::Error::UnknownVersion { version: 0x13 }
    );
    let mut buf = vec![0x11u8];
    buf.extend_from_slice(&1u32.to_le_bytes());
    buf.extend_from_slice(&[0u8; 41]); // one byte short of a record
    assert_eq!(
        clientcredit::parse(&buf).unwrap_err(),
        clientcredit::Error::ShortBuffer { need: 42, have: 41 }
    );
    let mut buf = vec![0x11u8];
    buf.extend_from_slice(&1u32.to_le_bytes());
    buf.extend_from_slice(&[0u8; 43]); // one byte over
    assert_eq!(
        clientcredit::parse(&buf).unwrap_err(),
        clientcredit::Error::SpareBytes { count: 1 }
    );
}

use remule::engine;
use remule::store::MigrationStep;
use remule::store::SchemaVersion;
use remule::store::Store;
use remule::store;
use remule::udp_proto::BootstrapResp;
use remule::udp_proto::Kind;
use remule::udp_proto::Operation;
use remule::udp_proto::Packet;

fn contact_bytes(id: u128, ip: [u8; 4], udp: u16, tcp: u16, version: u8) -> Vec<u8> {
    let mut v = Vec::new();
    v.extend_from_slice(&id.to_le_bytes());
    v.extend_from_slice(&ip);
    v.extend_from_slice(&udp.to_le_bytes());
    v.extend_from_slice(&tcp.to_le_bytes());
    v.push(version);
    v
}

#[test]
fn migration_order() {
    assert_eq!(
        store::migration_steps(SchemaVersion::V1),
        vec![MigrationStep::V1ToV2, MigrationStep::V2ToV3]
    );
    assert_eq!(
        store::migration_steps(SchemaVersion::V2),
        vec![MigrationStep::V2ToV3]
    );
    assert!(store::migration_steps(SchemaVersion::V3).is_empty());
}

#[test]
fn unix_millis_conversions() {
    assert_eq!(store::unix_millis_round_trip(0), 0);
    assert_eq!(store::unix_millis_round_trip(1999), 1999);
    assert_eq!(store::unix_millis_round_trip(1700000000123), 1700000000123);
    assert_eq!(store::millis_to_duration_parts(1999), (1, 999000000));
    assert_eq!(store::duration_parts_to_millis(1, 999000000), Some(1999));
    assert_eq!(store::duration_parts_to_millis(u64::MAX, 0), None);
}

#[test]
fn peer_identity_is_unique() {
    let mut s = Store::new();
    let (new1, id1) = s.insert_peer(42, 7, 4672);
    assert!(new1);
    let (new2, id2) = s.insert_peer(42, 7, 4672);
    assert!(!new2);
    assert_eq!(id1, id2);
    let (new3, id3) = s.insert_peer(42, 7, 4673);
    assert!(new3);
    assert_ne!(id1, id3);
    assert_eq!(s.peers_copy().len(), 2);
}

#[test]
fn peers_sweep_order() {
    let mut s = Store::new();
    let (_, p1) = s.insert_peer(1, 1, 1);
    let (_, p2) = s.insert_peer(2, 2, 2);
    let (_, _p3) = s.insert_peer(3, 3, 3);
    assert!(s.mark_peer_sent(p2, 100));
    assert!(s.mark_peer_sent(p1, 50));

    let sweep = s.peers();
    assert_eq!(sweep.len(), 3);
    // Never-sent peers first, then oldest send first.
    assert_eq!(sweep[0].last_send_time, None);
    assert_eq!(sweep[0].kad_id, 3);
    assert_eq!(sweep[1].last_send_time, Some(50));
    assert_eq!(sweep[2].last_send_time, Some(100));
}

#[test]
fn mark_peer_sent_missing_id() {
    let mut s = Store::new();
    assert!(!s.mark_peer_sent(999, 10));
    assert!(s.peers_copy().is_empty());
}

#[test]
fn send_recorded_only_after_success() {
    let mut s = Store::new();
    let (_, pid) = s.insert_peer(5, 5, 5);

    // A failed send changes nothing.
    assert!(!engine::record_send_outcome(&mut s, pid, 77, false));
    assert_eq!(s.peers_copy()[0].last_send_time, None);

    // A successful send is recorded.
    assert!(engine::record_send_outcome(&mut s, pid, 77, true));
    assert_eq!(s.peers_copy()[0].last_send_time, Some(77));
}

fn kad_datagram(client_id: u128, client_port: u16, contacts: &[Vec<u8>]) -> Vec<u8> {
    let mut v = vec![0xE4u8, 0x09];
    v.extend_from_slice(&client_id.to_le_bytes());
    v.extend_from_slice(&client_port.to_le_bytes());
    v.push(8);
    v.extend_from_slice(&(contacts.len() as u16).to_le_bytes());
    for c in contacts {
        v.extend_from_slice(c);
    }
    v
}

fn parse_resp(datagram: &[u8]) -> BootstrapResp<'_> {
    let p = Packet::from_slice(datagram).unwrap();
    assert_eq!(p.kind().is_ok(), true);
    // Re-parse the payload directly: the response view borrows the
    // datagram, not the packet.
    BootstrapResp::from_slice(&datagram[2..]).unwrap()
}

#[test]
fn ingest_bootstrap_resp_records_report() {
    let client_id = 0xABCDu128;
    let c1 = contact_bytes(11, [4, 3, 2, 1], 1000, 1001, 8);
    let c2 = contact_bytes(22, [8, 7, 6, 5], 2000, 2001, 9);
    let datagram = kad_datagram(client_id, 6929, &[c1, c2]);

    // The receive path dispatches on the proto byte and opcode.
    let p = Packet::from_slice(&datagram).unwrap();
    let Kind::Kad(kp) = p.kind().unwrap();
    match kp.operation().unwrap() {
        Some(Operation::BootstrapResp(resp)) => {
            assert_eq!(resp.client_id(), client_id);
            assert_eq!(resp.num_contacts(), 2);
        }
        _ => panic!("expected a bootstrap response"),
    }

    let resp = parse_resp(&datagram);
    let src_ip = u32::from_le_bytes([4, 3, 2, 1]); // 1.2.3.4 on the wire
    let mut s = Store::new();
    let stats = engine::ingest_bootstrap_resp(&mut s, &resp, src_ip, 4242, 1700000000000).unwrap();

    // The claimed port differs from the source port; the response is
    // accepted anyway and the mismatch only reported.
    assert!(stats.port_mismatch);
    assert_eq!(stats.total_contacts, 2);
    assert!(stats.source_was_new);

    // The source peer is stored under the datagram's source address.
    let peers = s.peers_copy();
    assert!(peers
        .iter()
        .any(|p| p.kad_id == client_id && p.ip == src_ip && p.udp_port == 4242));

    // One report, rooted at the source peer.
    let reports = s.reports_copy();
    assert_eq!(reports.len(), 1);
    assert_eq!(reports[0].id, stats.report_id);
    assert_eq!(reports[0].source_peer, stats.source_peer_id);
    assert_eq!(reports[0].recv_time, 1700000000000);

    // The reporter's own row first (no TCP port), then both contacts
    // with their full fields.
    let rcs = s.report_contacts_copy();
    assert_eq!(rcs.len(), 3);
    assert_eq!(rcs[0].report_id, stats.report_id);
    assert_eq!(rcs[0].tcp_port, None);
    assert_eq!(rcs[0].contact_version, None);
    assert_eq!(rcs[1].tcp_port, Some(1001));
    assert_eq!(rcs[1].contact_version, Some(8));
    assert_eq!(rcs[2].tcp_port, Some(2001));
    assert_eq!(rcs[2].contact_version, Some(9));

    // The reporter's own row uses the claimed UDP port, 6929.
    let self_peer = peers
        .iter()
        .find(|p| p.id == rcs[0].reported_peer_id)
        .unwrap();
    assert_eq!(self_peer.kad_id, client_id);
    assert_eq!(self_peer.udp_port, 6929);

    let named1 = peers
        .iter()
        .find(|p| p.id == rcs[1].reported_peer_id)
        .unwrap();
    assert_eq!(named1.kad_id, 11);
    assert_eq!(named1.udp_port, 1000);
}

#[test]
fn ingest_accepts_empty_response() {
    // A response naming no contacts is accepted, and the reporter's
    // self-report is still recorded.
    let datagram = kad_datagram(5, 4242, &[]);
    let resp = parse_resp(&datagram);
    let mut s = Store::new();
    let stats = engine::ingest_bootstrap_resp(&mut s, &resp, 9, 4242, 123).unwrap();
    assert!(!stats.port_mismatch);
    assert_eq!(stats.total_contacts, 0);
    assert_eq!(s.reports_copy().len(), 1);
    assert_eq!(s.report_contacts_copy().len(), 1);
    assert_eq!(s.report_contacts_copy()[0].tcp_port, None);
}

#[test]
fn ingest_rejects_bad_contact_block() {
    // Declares two contacts but carries only one: rejected, and the
    // store is left unchanged.
    let c1 = contact_bytes(11, [4, 3, 2, 1], 1000, 1001, 8);
    let mut datagram = kad_datagram(5, 4242, &[c1]);
    // Overwrite num_contacts with 2.
    let off = 2 + 16 + 2 + 1;
    datagram[off] = 2;
    let resp = parse_resp(&datagram);
    let mut s = Store::new();
    assert!(engine::ingest_bootstrap_resp(&mut s, &resp, 9, 4242, 123).is_err());
    assert!(s.peers_copy().is_empty());
    assert!(s.reports_copy().is_empty());
    assert!(s.report_contacts_copy().is_empty());
}

#[test]
fn contact_conversions() {
    let c = remule::nodes::Contact {
        uid: 9,
        ip: 10,
        udp_port: 11,
        tcp_port: 12,
        contact_version: Some(8),
        by_type: None,
        kad_udp_key: Some((13, 14)),
        verified: Some(1),
    };
    let info = engine::contact_from_nodes(&c);
    assert_eq!(info.kad_id, 9);
    assert_eq!(info.ip, 10);
    assert_eq!(info.udp_port, 11);
    assert_eq!(info.tcp_port, Some(12));
    assert_eq!(info.version, Some(8));
    assert_eq!(info.kad_udp_key_key, Some(13));
    assert_eq!(info.kad_udp_key_ip, Some(14));
    assert_eq!(info.verified, Some(1));
}

#[test]
fn legacy_peers_seeded_grouped_with_max_send() {
    // Two legacy rows with the same identity collapse to one seeded
    // row carrying the greatest last_send; distinct identities and
    // never-sent rows survive verbatim.
    let legacy = vec![
        store::LegacyPeerRow {
            kad_id: 1,
            ip: 10,
            udp_port: 100,
            last_send: Some(5),
        },
        store::LegacyPeerRow {
            kad_id: 1,
            ip: 10,
            udp_port: 100,
            last_send: Some(9),
        },
        store::LegacyPeerRow {
            kad_id: 2,
            ip: 20,
            udp_port: 200,
            last_send: None,
        },
    ];
    let seeded = store::seed_peers_from_legacy(&legacy, 1);
    assert_eq!(seeded.len(), 2);
    assert_eq!(seeded[0].id, 1);
    assert_eq!(seeded[0].kad_id, 1);
    assert_eq!(seeded[0].last_send_time, Some(9));
    assert_eq!(seeded[1].id, 2);
    assert_eq!(seeded[1].kad_id, 2);
    assert_eq!(seeded[1].last_send_time, None);
}

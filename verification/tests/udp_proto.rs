use remule::udp_proto::Error;
use remule::udp_proto::KadOpCode;
use remule::udp_proto::Kind;
use remule::udp_proto::Operation;
use remule::udp_proto::OperationBuf;
use remule::udp_proto::Packet;
use remule::udp_proto::Req;
use remule::udp_proto::Res;
use remule::udp_proto::SearchRes;
use remule::udp_proto::Tag;
use remule::udp_proto::TagBuf;
use remule::udp_proto::TagList;
use remule::udp_proto::TagType;
use remule::udp_proto::TagValueBuf;
use remule::udp_proto::UdpProto;
use remule::udp_proto::BootstrapResp;
use remule::udp_proto::Keys;
use std::io::Write;

fn contact_bytes(id: u128, ip: [u8; 4], udp: u16, tcp: u16, version: u8) -> Vec<u8> {
    let mut v = Vec::new();
    v.extend_from_slice(&id.to_le_bytes());
    v.extend_from_slice(&ip);
    v.extend_from_slice(&udp.to_le_bytes());
    v.extend_from_slice(&tcp.to_le_bytes());
    v.push(version);
    v
}

fn bootstrap_resp_payload(id: u128, port: u16, version: u8, contacts: &[Vec<u8>]) -> Vec<u8> {
    let mut v = Vec::new();
    v.extend_from_slice(&id.to_le_bytes());
    v.extend_from_slice(&port.to_le_bytes());
    v.push(version);
    v.extend_from_slice(&(contacts.len() as u16).to_le_bytes());
    for c in contacts {
        v.extend_from_slice(c);
    }
    v
}

#[test]
fn tag_basic() {
    let v = [0x09u8, 1, 0, b'a', 5, 0xff, 0xee];
    let a = Tag::from_slice(&v).unwrap();
    let b = (
        TagBuf {
            name: vec![b'a'],
            value: TagValueBuf::Uint8(5),
        },
        &[0xffu8, 0xee][..],
    );
    assert!(b.0.matches_tag(&a.0));
    assert_eq!(a.1, b.1);
}

#[test]
fn tag_fields() {
    let v = [0x09u8, 1, 0, b'a', 5, 0xff, 0xee];
    let (tag, rem) = Tag::from_slice(&v).unwrap();
    assert_eq!(tag.name(), &[b'a'][..]);
    assert_eq!(tag.tag_type(), TagType::Uint8);
    assert_eq!(tag.value_bytes(), &[5u8][..]);
    assert_eq!(rem, &[0xffu8, 0xee][..]);
}

#[test]
fn tag_string_value() {
    let v = [0x02u8, 1, 0, b'n', 2, 0, b'h', b'i', 0x55];
    let (tag, rem) = Tag::from_slice(&v).unwrap();
    assert_eq!(tag.tag_type(), TagType::String_);
    assert_eq!(tag.value_bytes(), &[2u8, 0, b'h', b'i'][..]);
    assert_eq!(rem, &[0x55u8][..]);
}

#[test]
fn tag_errors() {
    assert_eq!(
        Tag::from_slice(&[0x09u8, 1]).unwrap_err(),
        Error::TagSizeMismatch { have: 2, need: 3 }
    );
    assert_eq!(
        Tag::from_slice(&[0x09u8, 5, 0, b'a']).unwrap_err(),
        Error::TagSizeMismatchName {
            have: 4,
            need: 8,
            name_len: 5
        }
    );
    assert_eq!(
        Tag::from_slice(&[0x00u8, 0, 0]).unwrap_err(),
        Error::TagInvalid { value: 0 }
    );
    // `Bool` is a recognized tag type byte, but no size is defined for
    // it, so the tag is rejected.
    assert_eq!(
        Tag::from_slice(&[0x05u8, 0, 0, 1]).unwrap_err(),
        Error::TagInvalid { value: 5 }
    );
    assert_eq!(
        Tag::from_slice(&[0x02u8, 1, 0, b'n', 2]).unwrap_err(),
        Error::TagSizeMismatchForString { need: 6, have: 5 }
    );
    assert_eq!(
        Tag::from_slice(&[0x02u8, 1, 0, b'n', 2, 0, b'h']).unwrap_err(),
        Error::TagSizeMismatchContent { have: 7, need: 8 }
    );
    assert_eq!(
        Tag::from_slice(&[0x0Bu8, 0, 0, 1, 2, 3]).unwrap_err(),
        Error::TagSizeMismatchContent { have: 6, need: 11 }
    );
}

#[test]
fn taglist_count_is_four_byte_field() {
    // The count is stored in a four-byte little-endian field.
    let v = [1u8, 0, 0, 0, 0x09, 1, 0, b'a', 5, 0xAA];
    let (tl, rem) = TagList::from_slice(&v).unwrap();
    assert_eq!(tl.count(), 1);
    assert_eq!(rem, &[0xAAu8][..]);
    let tags = tl.tag_vec();
    assert_eq!(tags.len(), 1);
    assert_eq!(tags[0].name(), &[b'a'][..]);
}

#[test]
fn taglist_iter_yields_each_tag() {
    let v = [
        2u8, 0, 0, 0, // count
        0x09, 1, 0, b'a', 5, // Uint8 tag
        0x08, 1, 0, b'b', 0x34, 0x12, // Uint16 tag
    ];
    let (tl, rem) = TagList::from_slice(&v).unwrap();
    assert_eq!(tl.count(), 2);
    assert!(rem.is_empty());
    let mut it = tl.iter();
    let t1 = it.next().unwrap().unwrap();
    assert_eq!(t1.name(), &[b'a'][..]);
    let t2 = it.next().unwrap().unwrap();
    assert_eq!(t2.name(), &[b'b'][..]);
    let buf = TagBuf {
        name: vec![b'b'],
        value: TagValueBuf::Uint16(0x1234),
    };
    assert!(buf.matches_tag(&t2));
    assert!(it.next().is_none());
}

#[test]
fn taglist_errors() {
    assert_eq!(
        TagList::from_slice(&[1u8, 0, 0]).unwrap_err(),
        Error::TagListTooShort { need: 4, have: 3 }
    );
    assert_eq!(
        TagList::from_slice(&[1u8, 0, 0, 0, 0x09, 1]).unwrap_err(),
        Error::TagSizeMismatch { have: 2, need: 3 }
    );
}

#[test]
fn packet_too_short() {
    assert_eq!(Packet::from_slice(&[]).unwrap_err(), Error::PacketTooShort);
}

#[test]
fn packet_proto_dispatch() {
    let p = Packet::from_slice(&[0xC5u8, 0x00]).unwrap();
    assert_eq!(p.udp_proto(), Some(UdpProto::Emule));
    assert!(!p.is_packed());
    assert_eq!(
        p.kind().unwrap_err(),
        Error::UnhandledUdpProto {
            udp_proto: UdpProto::Emule
        }
    );

    let p = Packet::from_slice(&[0x77u8, 0x00]).unwrap();
    assert_eq!(p.udp_proto(), None);
    assert_eq!(p.kind().unwrap_err(), Error::UnrecognizedUdpProto);
}

#[test]
fn packet_decrypt_stub() {
    let keys = Keys {
        kad_id: &[0u8; 16],
        user_hash: &[0u8; 16],
        source_key: None,
    };
    let mut p = Packet::from_slice(&[0xE4u8, 0x01]).unwrap();
    assert!(p.decrypt(&keys).is_ok());
    let mut p = Packet::from_slice(&[0x77u8]).unwrap();
    assert_eq!(p.decrypt(&keys).unwrap_err(), Error::UnrecognizedUdpProto);
}

#[test]
fn bootstrap_req_encoding() {
    let mut out = Vec::new();
    OperationBuf::BootstrapReq.write_to(&mut out).unwrap();
    assert_eq!(out, vec![0xE4u8, 0x01]);

    let mut out = vec![0x42u8];
    assert_eq!(
        OperationBuf::Pong { recv_port: 4672 }.write_to(&mut out),
        Err(Error::OperationNotImplemented)
    );
    assert_eq!(out, vec![0x42u8]);
}

#[test]
fn bootstrap_req_frame_parses_back() {
    let mut out = Vec::new();
    OperationBuf::BootstrapReq.write_to(&mut out).unwrap();
    let p = Packet::from_slice(&out).unwrap();
    assert_eq!(p.udp_proto(), Some(UdpProto::KademliaHeader));
    let Kind::Kad(kp) = p.kind().unwrap();
    assert_eq!(kp.opcode(), Some(KadOpCode::BootstrapReq));
}

#[test]
fn packed_packet_inflates() {
    let inner = bootstrap_resp_payload(7, 4672, 8, &[]);
    let mut enc = flate2::write::ZlibEncoder::new(Vec::new(), flate2::Compression::default());
    enc.write_all(&inner).unwrap();
    let compressed = enc.finish().unwrap();

    let mut datagram = vec![0xE5u8, 0x09];
    datagram.extend_from_slice(&compressed);

    let p = Packet::from_slice(&datagram).unwrap();
    assert!(p.is_packed());
    let Kind::Kad(kp) = p.kind().unwrap();
    assert_eq!(kp.opcode(), Some(KadOpCode::BootstrapResp));
    match kp.operation().unwrap() {
        Some(Operation::BootstrapResp(resp)) => {
            assert_eq!(resp.client_id(), 7);
            assert_eq!(resp.client_port(), 4672);
            assert_eq!(resp.num_contacts(), 0);
        }
        other => panic!("expected a bootstrap response, got {:?}", other.is_some()),
    }
}

#[test]
fn packed_packet_bad_stream() {
    let p = Packet::from_slice(&[0xE5u8, 0x09, 0xFF, 0xFF, 0xFF]).unwrap();
    assert_eq!(p.kind().unwrap_err(), Error::KadPackedDecompress);
}

#[test]
fn truncated_datagram_never_panics() {
    // A 1024-byte receive buffer filled with junk after a Kad header:
    // the codec parses what it can or reports a shape error.
    let mut datagram = vec![0xE4u8, 0x09];
    datagram.resize(1024, 0x5A);
    let p = Packet::from_slice(&datagram).unwrap();
    let Kind::Kad(kp) = p.kind().unwrap();
    // The header parses eagerly; the junk contact block is rejected
    // when the contacts are asked for.
    match kp.operation().unwrap() {
        Some(Operation::BootstrapResp(resp)) => {
            assert!(resp.contacts().is_err());
        }
        _ => panic!("expected a bootstrap response header"),
    }

    let mut junk = vec![0xE5u8];
    junk.resize(1024, 0xA5);
    let p = Packet::from_slice(&junk).unwrap();
    assert!(p.kind().is_err());
}

#[test]
fn bootstrap_resp_contacts_roundtrip() {
    let c1 = contact_bytes(11, [4, 3, 2, 1], 1000, 1001, 8);
    let c2 = contact_bytes(22, [8, 7, 6, 5], 2000, 2001, 9);
    let payload = bootstrap_resp_payload(99, 6929, 8, &[c1, c2]);
    let resp = BootstrapResp::from_slice(&payload).unwrap();
    assert_eq!(resp.client_id(), 99);
    assert_eq!(resp.client_port(), 6929);
    assert_eq!(resp.client_version(), 8);
    assert_eq!(resp.num_contacts(), 2);

    // Iterating the contact block yields exactly `num_contacts` items.
    let contacts = resp.contacts().unwrap();
    assert_eq!(contacts.remaining(), 2);
    let items = contacts.contact_vec();
    assert_eq!(items.len(), 2);
    assert_eq!(items[0].client_id(), 11);
    assert_eq!(items[0].raw_ip_addr(), u32::from_le_bytes([4, 3, 2, 1]));
    assert_eq!(items[0].udp_port(), 1000);
    assert_eq!(items[0].tcp_port(), 1001);
    assert_eq!(items[0].version(), 8);
    assert_eq!(items[1].client_id(), 22);

    let mut contacts = resp.contacts().unwrap();
    let first = contacts.next().unwrap();
    assert_eq!(first.client_id(), 11);
    let second = contacts.next().unwrap();
    assert_eq!(second.client_id(), 22);
    assert!(contacts.next().is_none());
}

#[test]
fn bootstrap_resp_errors() {
    let short = [0u8; 20];
    assert_eq!(
        BootstrapResp::from_slice(&short).unwrap_err(),
        Error::BootstrapRespTooShort { have: 20, need: 21 }
    );

    let mut payload = bootstrap_resp_payload(99, 6929, 8, &[]);
    payload.push(0xAB);
    let resp = BootstrapResp::from_slice(&payload).unwrap();
    assert_eq!(
        resp.contacts().unwrap_err(),
        Error::BootstrapRespContactsSizeMismatch { need: 0, have: 1 }
    );
}

#[test]
fn req_parse() {
    let mut v = vec![3u8];
    v.extend_from_slice(&500u128.to_le_bytes());
    v.extend_from_slice(&600u128.to_le_bytes());
    let req = Req::from_slice(&v).unwrap();
    assert_eq!(req.type_(), 3);
    assert_eq!(req.target(), 500);
    assert_eq!(req.check(), 600);

    assert_eq!(
        Req::from_slice(&v[..30]).unwrap_err(),
        Error::ReqSizeMismatch { have: 30, need: 33 }
    );
}

#[test]
fn res_parse() {
    let mut v = Vec::new();
    v.extend_from_slice(&42u128.to_le_bytes());
    v.push(1);
    v.extend_from_slice(&contact_bytes(77, [1, 1, 1, 1], 10, 11, 8));
    let res = Res::from_slice(&v).unwrap();
    assert_eq!(res.target(), 42);
    assert_eq!(res.num_contacts(), 1);
    let mut contacts = res.contacts();
    assert_eq!(contacts.remaining(), 1);
    let c = contacts.next().unwrap();
    assert_eq!(c.client_id(), 77);
    assert_eq!(c.udp_port(), 10);
    assert_eq!(c.tcp_port(), 11);
    assert_eq!(c.version(), 8);
    assert!(contacts.next().is_none());

    // Residue after the declared contacts is an error.
    let mut bad = v.clone();
    bad.push(0);
    assert_eq!(
        Res::from_slice(&bad).unwrap_err(),
        Error::ResSizeMismatch { have: 43, need: 42 }
    );
}

#[test]
fn search_res_parse() {
    let mut result = Vec::new();
    result.extend_from_slice(&1234u128.to_le_bytes());
    result.extend_from_slice(&[1u8, 0, 0, 0]); // one tag
    result.extend_from_slice(&[0x09u8, 1, 0, b'a', 5]);

    let mut v = Vec::new();
    v.extend_from_slice(&111u128.to_le_bytes());
    v.extend_from_slice(&222u128.to_le_bytes());
    v.extend_from_slice(&1u16.to_le_bytes());
    v.extend_from_slice(&result);

    let sr = SearchRes::from_slice(&v).unwrap();
    assert_eq!(sr.source_id(), 111);
    assert_eq!(sr.target_id(), 222);
    assert_eq!(sr.result_ct(), 1);

    let (mut results, rem) = sr.results().unwrap();
    assert!(rem.is_empty());
    let r = results.next().unwrap();
    assert_eq!(r.id(), 1234);
    let tags = r.tags();
    assert_eq!(tags.count(), 1);
    assert_eq!(tags.tag_vec()[0].name(), &[b'a'][..]);
    assert!(results.next().is_none());

    // A declared result that is missing is an error at construction.
    let truncated = &v[..40];
    assert!(SearchRes::from_slice(truncated).is_err());
}

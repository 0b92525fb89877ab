//! The collection engine's decisions: what one inbound bootstrap
//! response adds to the store, and when a send may be recorded.
//!
//! The engine's loops live at the network edge; everything they decide
//! is here, as functions from parsed packets and plain values to store
//! rows. A response from address `A` is recorded as one report rooted
//! at the sending peer, with one contact row for the reporter itself
//! and one for every contact the response names.

use crate::store::Store;
use crate::udp_proto::BootstrapResp;
use crate::udp_proto::BootstrapRespContact;
use crate::udp_proto::Error;
use vstd::bytes::*;
use vstd::prelude::*;

verus! {

/// A contact as the store records it: the peer's identity, and the
/// optional fields a report may know about it.
#[derive(Clone, Copy, Debug, PartialEq, Eq)]
pub struct ContactInfo {
    pub kad_id: u128,
    /// IPv4 address, as the little-endian dword on the wire.
    pub ip: u32,
    pub udp_port: u16,
    /// Not known for the reporter itself: a response does not name the
    /// sender's TCP port.
    pub tcp_port: Option<u16>,
    /// Present in bootstrap contacts and `nodes.dat` records.
    pub version: Option<u8>,
    /// Present only when imported from a `nodes.dat` record.
    pub kad_udp_key_key: Option<u32>,
    /// Present only when imported from a `nodes.dat` record.
    pub kad_udp_key_ip: Option<u32>,
    /// Present only when imported from a `nodes.dat` record.
    pub verified: Option<u8>,
}

/// The contact at index `i` of a bootstrap response payload `s`
/// (starting after the 21-byte fixed header).
pub open spec fn spec_resp_contact(s: Seq<u8>, i: int) -> ContactInfo {
    let e = s.subrange(21 + 25 * i, 21 + 25 * (i + 1));
    ContactInfo {
        kad_id: spec_u128_from_le_bytes(e.subrange(0, 16)),
        ip: spec_u32_from_le_bytes(e.subrange(16, 20)),
        udp_port: spec_u16_from_le_bytes(e.subrange(20, 22)),
        tcp_port: Some(spec_u16_from_le_bytes(e.subrange(22, 24))),
        version: Some(e[24]),
        kad_udp_key_key: None,
        kad_udp_key_ip: None,
        verified: None,
    }
}

/// The reporter's own contact row for a response with the given
/// identity: the address the datagram came from, the UDP port the
/// response claims, and no TCP port or version.
pub open spec fn spec_self_contact(client_id: u128, src_ip: u32, client_port: u16) -> ContactInfo {
    ContactInfo {
        kad_id: client_id,
        ip: src_ip,
        udp_port: client_port,
        tcp_port: None,
        version: None,
        kad_udp_key_key: None,
        kad_udp_key_ip: None,
        verified: None,
    }
}

/// The store contact of one wire contact record.
pub fn contact_from_bootstrap(c: &BootstrapRespContact) -> (r: ContactInfo)
    requires
        c@.len() == 25,
    ensures
        r.kad_id == spec_u128_from_le_bytes(c@.subrange(0, 16)),
        r.ip == spec_u32_from_le_bytes(c@.subrange(16, 20)),
        r.udp_port == spec_u16_from_le_bytes(c@.subrange(20, 22)),
        r.tcp_port == Some(spec_u16_from_le_bytes(c@.subrange(22, 24))),
        r.version == Some(c@[24]),
        r.kad_udp_key_key is None && r.kad_udp_key_ip is None && r.verified is None,
{
    ContactInfo {
        kad_id: c.client_id(),
        ip: c.raw_ip_addr(),
        udp_port: c.udp_port(),
        tcp_port: Some(c.tcp_port()),
        version: Some(c.version()),
        kad_udp_key_key: None,
        kad_udp_key_ip: None,
        verified: None,
    }
}

/// The store contact of one `nodes.dat` record.
pub fn contact_from_nodes(c: &crate::nodes::Contact) -> (r: ContactInfo)
    ensures
        r.kad_id == c.uid,
        r.ip == c.ip,
        r.udp_port == c.udp_port,
        r.tcp_port == Some(c.tcp_port),
        r.version == c.contact_version,
        r.kad_udp_key_key == (match c.kad_udp_key {
            Some(k) => Some(k.0),
            None => None::<u32>,
        }),
        r.kad_udp_key_ip == (match c.kad_udp_key {
            Some(k) => Some(k.1),
            None => None::<u32>,
        }),
        r.verified == c.verified,
{
    let (kad_udp_key_key, kad_udp_key_ip) = match c.kad_udp_key {
        Some((k, i)) => (Some(k), Some(i)),
        None => (None, None),
    };
    ContactInfo {
        kad_id: c.uid,
        ip: c.ip,
        udp_port: c.udp_port,
        tcp_port: Some(c.tcp_port),
        version: c.contact_version,
        kad_udp_key_key,
        kad_udp_key_ip,
        verified: c.verified,
    }
}

/// Everything the store must record for one accepted bootstrap
/// response: the source peer, whether the claimed port disagreed with
/// the datagram's source port, and the contact rows in order — the
/// reporter's own row first, then every named contact.
pub struct IngestPlan {
    pub source_kad_id: u128,
    pub source_ip: u32,
    pub source_udp_port: u16,
    /// The response's `client_port` differed from the source port of
    /// the datagram. The response is still accepted; this is only
    /// logged.
    pub port_mismatch: bool,
    pub contacts: Vec<ContactInfo>,
}

/// Decide what a bootstrap response received from `src_ip:src_port`
/// adds to the store. Fails only when the response's contact block is
/// not exactly `num_contacts` records; a response naming no contacts is
/// accepted, and its reporter is still recorded.
pub fn bootstrap_resp_plan(resp: &BootstrapResp, src_ip: u32, src_port: u16) -> (r: Result<
    IngestPlan,
    Error,
>)
    requires
        resp@.len() >= 21,
    ensures
        ({
            let n = spec_u16_from_le_bytes(resp@.subrange(19, 21)) as int;
            match r {
                Ok(plan) => {
                    &&& resp@.len() - 21 == 25 * n
                    &&& plan.source_kad_id == spec_u128_from_le_bytes(resp@.subrange(0, 16))
                    &&& plan.source_ip == src_ip
                    &&& plan.source_udp_port == src_port
                    &&& plan.port_mismatch == (spec_u16_from_le_bytes(resp@.subrange(16, 18))
                        != src_port)
                    &&& plan.contacts@.len() == 1 + n
                    &&& plan.contacts@[0] == spec_self_contact(
                        spec_u128_from_le_bytes(resp@.subrange(0, 16)),
                        src_ip,
                        spec_u16_from_le_bytes(resp@.subrange(16, 18)),
                    )
                    &&& forall|i: int|
                        0 <= i < n ==> #[trigger] plan.contacts@[1 + i] == spec_resp_contact(
                            resp@,
                            i,
                        )
                },
                Err(e) => resp@.len() - 21 != 25 * n && e == (
                Error::BootstrapRespContactsSizeMismatch {
                    need: (25 * n) as usize,
                    have: (resp@.len() - 21) as usize,
                }),
            }
        }),
{
    let client_id = resp.client_id();
    let client_port = resp.client_port();
    let mut block = resp.contacts()?;
    let ghost block_seq = block@;
    let mut contacts: Vec<ContactInfo> = Vec::new();
    contacts.push(
        ContactInfo {
            kad_id: client_id,
            ip: src_ip,
            udp_port: client_port,
            tcp_port: None,
            version: None,
            kad_udp_key_key: None,
            kad_udp_key_ip: None,
            verified: None,
        },
    );
    while block.remaining() > 0
        invariant
            resp@.len() >= 21,
            block_seq == resp@.subrange(21, resp@.len() as int),
            block@.len() % 25 == 0,
            contacts@.len() >= 1,
            contacts@[0] == spec_self_contact(
                spec_u128_from_le_bytes(resp@.subrange(0, 16)),
                src_ip,
                spec_u16_from_le_bytes(resp@.subrange(16, 18)),
            ),
            (contacts@.len() - 1) * 25 + block@.len() == block_seq.len(),
            block@ == block_seq.subrange(25 * (contacts@.len() - 1), block_seq.len() as int),
            forall|i: int|
                0 <= i < contacts@.len() - 1 ==> #[trigger] contacts@[1 + i] == spec_resp_contact(
                    resp@,
                    i,
                ),
        decreases block@.len(),
    {
        let ghost done = contacts@.len() - 1;
        match block.next() {
            Some(c) => {
                let info = contact_from_bootstrap(&c);
                proof {
                    let e = resp@.subrange(21 + 25 * done, 21 + 25 * (done + 1));
                    assert(c@ =~= e);
                    assert(e.subrange(0, 16) =~= c@.subrange(0, 16));
                    assert(e.subrange(16, 20) =~= c@.subrange(16, 20));
                    assert(e.subrange(20, 22) =~= c@.subrange(20, 22));
                    assert(e.subrange(22, 24) =~= c@.subrange(22, 24));
                    assert(info == spec_resp_contact(resp@, done));
                    assert(block@ =~= block_seq.subrange(25 * (done + 1), block_seq.len() as int));
                }
                contacts.push(info);
            },
            None => {
                proof {
                    assert(false);
                }
            },
        }
    }
    proof {
        let n = spec_u16_from_le_bytes(resp@.subrange(19, 21)) as int;
        assert(block@.len() == 0);
        assert(block_seq.len() == 25 * n);
        assert(contacts@.len() - 1 == n) by (nonlinear_arith)
            requires
                (contacts@.len() - 1) * 25 == 25 * n,
        ;
    }
    Ok(
        IngestPlan {
            source_kad_id: client_id,
            source_ip: src_ip,
            source_udp_port: src_port,
            port_mismatch: client_port != src_port,
            contacts,
        },
    )
}

/// What one ingest reported: the new report's id, the source peer's
/// row id, whether the source peer and how many named contacts were
/// new, and whether the claimed port disagreed with the source port.
#[derive(Clone, Copy, Debug, PartialEq, Eq)]
pub struct IngestStats {
    pub report_id: i64,
    pub source_peer_id: i64,
    pub source_was_new: bool,
    pub new_contacts: u64,
    pub total_contacts: u64,
    pub port_mismatch: bool,
}

/// Room one ingest needs below the id headroom: two rows for the
/// source peer and its report, and at most two per contact row.
pub const INGEST_ID_ROOM: i64 = 0x40000;

/// Record one accepted bootstrap response received from
/// `src_ip:src_port` at `recv_time`: insert the source peer if new,
/// root one report at it, and add one contact row for the reporter
/// itself (with no TCP port or version) and one for every contact the
/// response names. Fails only when the contact block is not exactly
/// `num_contacts` records, leaving the store unchanged; a response
/// with no contacts still records the reporter's own row.
pub fn ingest_bootstrap_resp(
    store: &mut Store,
    resp: &BootstrapResp,
    src_ip: u32,
    src_port: u16,
    recv_time: i64,
) -> (r: Result<IngestStats, Error>)
    requires
        old(store).wf(),
        old(store).spec_next_id() + INGEST_ID_ROOM < crate::store::ID_HEADROOM,
        resp@.len() >= 21,
    ensures
        final(store).wf(),
        ({
            let n = spec_u16_from_le_bytes(resp@.subrange(19, 21)) as int;
            let client_id = spec_u128_from_le_bytes(resp@.subrange(0, 16));
            let client_port = spec_u16_from_le_bytes(resp@.subrange(16, 18));
            match r {
                Ok(st) => {
                    &&& resp@.len() - 21 == 25 * n
                    &&& st.port_mismatch == (client_port != src_port)
                    &&& st.total_contacts == n
                    &&& st.source_was_new == !old(store).spec_has_peer_key(
                        client_id,
                        src_ip,
                        src_port,
                    )
                    &&& final(store).spec_has_peer_key(client_id, src_ip, src_port)
                    &&& final(store).spec_reports() == old(store).spec_reports() + seq![
                        crate::store::ReportRow {
                            id: st.report_id,
                            source_peer: st.source_peer_id,
                            recv_time,
                        },
                    ]
                    &&& final(store).spec_report_contacts().len() == old(store).spec_report_contacts().len() + 1 + n
                    &&& forall|i: int|
                        0 <= i < old(store).spec_report_contacts().len() ==> #[trigger] final(store).spec_report_contacts()[i] == old(store).spec_report_contacts()[i]
                    &&& forall|k: int|
                        0 <= k < 1 + n ==> rc_matches(
                            *final(store),
                            #[trigger] final(store).spec_report_contacts()[old(store).spec_report_contacts().len() + k],
                            st.report_id,
                            if k == 0 {
                                spec_self_contact(client_id, src_ip, client_port)
                            } else {
                                spec_resp_contact(resp@, k - 1)
                            },
                        )
                },
                Err(e) => {
                    &&& resp@.len() - 21 != 25 * n
                    &&& e == (Error::BootstrapRespContactsSizeMismatch {
                        need: (25 * n) as usize,
                        have: (resp@.len() - 21) as usize,
                    })
                    &&& final(store).spec_peers() == old(store).spec_peers()
                    &&& final(store).spec_reports() == old(store).spec_reports()
                    &&& final(store).spec_report_contacts() == old(store).spec_report_contacts()
                },
            }
        }),
{
    let plan = match bootstrap_resp_plan(resp, src_ip, src_port) {
        Ok(plan) => plan,
        Err(e) => {
            return Err(e);
        },
    };
    let (source_was_new, source_peer_id) = store.insert_peer(
        plan.source_kad_id,
        plan.source_ip,
        plan.source_udp_port,
    );
    let report_id = store.insert_report(source_peer_id, recv_time);
    let ghost base = old(store).spec_report_contacts().len() as int;
    let ghost n = spec_u16_from_le_bytes(resp@.subrange(19, 21)) as int;
    let ghost client_id = spec_u128_from_le_bytes(resp@.subrange(0, 16));
    let ghost client_port = spec_u16_from_le_bytes(resp@.subrange(16, 18));
    let mut new_contacts: u64 = 0;
    let mut k: usize = 0;
    while k < plan.contacts.len()
        invariant
            store.wf(),
            store.spec_has_report_id(report_id),
            old(store).spec_next_id() + INGEST_ID_ROOM < crate::store::ID_HEADROOM,
            store.spec_next_id() <= old(store).spec_next_id() + 2 + 2 * k,
            k <= plan.contacts@.len(),
            plan.contacts@.len() == 1 + n,
            n <= 0xffff,
            new_contacts <= k,
            plan.contacts@[0] == spec_self_contact(client_id, src_ip, client_port),
            forall|i: int|
                0 <= i < n ==> #[trigger] plan.contacts@[1 + i] == spec_resp_contact(resp@, i),
            store.spec_has_peer_key(client_id, src_ip, src_port),
            store.spec_reports() == old(store).spec_reports() + seq![
                crate::store::ReportRow {
                    id: report_id,
                    source_peer: source_peer_id,
                    recv_time,
                },
            ],
            base == old(store).spec_report_contacts().len(),
            store.spec_report_contacts().len() == base + k,
            forall|i: int|
                0 <= i < base ==> #[trigger] store.spec_report_contacts()[i] == old(store).spec_report_contacts()[i],
            forall|j: int|
                0 <= j < k ==> rc_matches(
                    *store,
                    #[trigger] store.spec_report_contacts()[base + j],
                    report_id,
                    plan.contacts@[j],
                ),
        decreases plan.contacts@.len() - k,
    {
        let ghost pre = *store;
        let c = plan.contacts[k];
        let was_new = store.insert_report_contact(
            report_id,
            c.kad_id,
            c.ip,
            c.udp_port,
            c.tcp_port,
            c.version,
            c.verified,
        );
        if was_new && k > 0 {
            new_contacts = new_contacts + 1;
        }
        proof {
            assert(store.spec_report_contacts().len() == base + k + 1);
            assert forall|j: int| 0 <= j < k + 1 implies rc_matches(
                *store,
                #[trigger] store.spec_report_contacts()[base + j],
                report_id,
                plan.contacts@[j],
            ) by {
                if j < k {
                    assert(pre.spec_report_contacts().len() == base + k);
                    assert(base + j < pre.spec_report_contacts().len());
                    assert(store.spec_report_contacts()[base + j]
                        == pre.spec_report_contacts()[base + j]);
                    assert(rc_matches(
                        pre,
                        pre.spec_report_contacts()[base + j],
                        report_id,
                        plan.contacts@[j],
                    ));
                    let w = choose|w: int|
                        0 <= w < pre.spec_peers().len() && (#[trigger] pre.spec_peers()[w]).id
                            == pre.spec_report_contacts()[base + j].reported_peer_id
                            && pre.spec_peers()[w].kad_id == plan.contacts@[j].kad_id
                            && pre.spec_peers()[w].ip == plan.contacts@[j].ip
                            && pre.spec_peers()[w].udp_port == plan.contacts@[j].udp_port;
                    assert((#[trigger] store.spec_peers()[w]) == pre.spec_peers()[w]);
                } else {
                    assert(store.spec_report_contacts().last() == store.spec_report_contacts()[base
                        + j]);
                }
            }
            let w0 = choose|w0: int|
                0 <= w0 < pre.spec_peers().len() && (#[trigger] pre.spec_peers()[w0]).kad_id
                    == client_id && pre.spec_peers()[w0].ip == src_ip
                    && pre.spec_peers()[w0].udp_port == src_port;
            assert((#[trigger] store.spec_peers()[w0]) == pre.spec_peers()[w0]);
        }
        k = k + 1;
    }
    proof {
        assert forall|kk: int| 1 <= kk < 1 + n implies #[trigger] plan.contacts@[kk]
            == spec_resp_contact(resp@, kk - 1) by {
            assert(plan.contacts@[1 + (kk - 1)] == spec_resp_contact(resp@, kk - 1));
        }
    }
    Ok(
        IngestStats {
            report_id,
            source_peer_id,
            source_was_new,
            new_contacts,
            total_contacts: (plan.contacts.len() - 1) as u64,
            port_mismatch: plan.port_mismatch,
        },
    )
}

/// Whether a report-contact row records exactly `c` under report
/// `report_id`: the optional fields verbatim, and a peer row carrying
/// the contact's identity.
pub open spec fn rc_matches(
    store: Store,
    rc: crate::store::ReportContactRow,
    report_id: i64,
    c: ContactInfo,
) -> bool {
    &&& rc.report_id == report_id
    &&& rc.tcp_port == c.tcp_port
    &&& rc.contact_version == c.version
    &&& rc.verified == c.verified
    &&& exists|j: int|
        0 <= j < store.spec_peers().len() && (#[trigger] store.spec_peers()[j]).id
            == rc.reported_peer_id && store.spec_peers()[j].kad_id == c.kad_id
            && store.spec_peers()[j].ip == c.ip && store.spec_peers()[j].udp_port == c.udp_port
}

/// Record the outcome of one `BootstrapReq` send during the sweep: a
/// peer's `last_send_time` is set only when the send to it succeeded,
/// so the store never records a send that did not leave the socket
/// layer. A failed send changes nothing; the sender backs off and goes
/// on.
pub fn record_send_outcome(store: &mut Store, peer_id: i64, now: i64, send_ok: bool) -> (r: bool)
    requires
        old(store).wf(),
    ensures
        final(store).wf(),
        final(store).spec_reports() == old(store).spec_reports(),
        final(store).spec_report_contacts() == old(store).spec_report_contacts(),
        final(store).spec_next_id() == old(store).spec_next_id(),
        r == (send_ok && old(store).spec_has_peer_id(peer_id)),
        !send_ok ==> final(store).spec_peers() == old(store).spec_peers(),
        send_ok ==> final(store).spec_peers().len() == old(store).spec_peers().len() && forall|
            k: int,
        |
            0 <= k < old(store).spec_peers().len() ==> #[trigger] final(store).spec_peers()[k] == (
            if old(store).spec_peers()[k].id == peer_id {
                crate::store::PeerRow {
                    last_send_time: Some(now),
                    ..old(store).spec_peers()[k]
                }
            } else {
                old(store).spec_peers()[k]
            }),
{
    if send_ok {
        store.mark_peer_sent(peer_id, now)
    } else {
        false
    }
}

} // verus!

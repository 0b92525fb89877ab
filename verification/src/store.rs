//! The peer store: peers, reports and reported contacts, with a
//! versioned schema.
//!
//! This module is the semantics of the durable store. A `Store` value
//! holds the three tables as rows; every operation states exactly which
//! rows it adds or updates, and the uniqueness of `(kad_id, ip,
//! udp_port)` across the peer table is an invariant every operation
//! preserves. The database front end performs the same operations as
//! SQL statements.

use vstd::multiset::Multiset;
use vstd::prelude::*;

verus! {

/// The schema versions a store on disk may be at.
#[derive(Clone, Copy, Debug, PartialEq, Eq, Structural)]
pub enum SchemaVersion {
    V1,
    V2,
    V3,
}

/// One forward migration the opener applies. There is no downgrade
/// path.
#[derive(Clone, Copy, Debug, PartialEq, Eq, Structural)]
pub enum MigrationStep {
    /// Add the `last_recv` column on the legacy `peers` table and
    /// rename `last_heard` to `last_report`.
    V1ToV2,
    /// Create the normalized `peer`, `report` and `report_contact`
    /// tables, seed `peer` from the legacy table grouping on
    /// `(kad_id, ip, udp_port)` with the greatest `last_send`, and drop
    /// the legacy table.
    V2ToV3,
}

/// The version a migration step starts from.
pub open spec fn spec_step_source(step: MigrationStep) -> SchemaVersion {
    match step {
        MigrationStep::V1ToV2 => SchemaVersion::V1,
        MigrationStep::V2ToV3 => SchemaVersion::V2,
    }
}

/// The version a migration step ends at.
pub open spec fn spec_step_target(step: MigrationStep) -> SchemaVersion {
    match step {
        MigrationStep::V1ToV2 => SchemaVersion::V2,
        MigrationStep::V2ToV3 => SchemaVersion::V3,
    }
}

/// The migrations that bring a store at `from` to the current version,
/// in the order they are applied.
pub open spec fn spec_migration_steps(from: SchemaVersion) -> Seq<MigrationStep> {
    match from {
        SchemaVersion::V1 => seq![MigrationStep::V1ToV2, MigrationStep::V2ToV3],
        SchemaVersion::V2 => seq![MigrationStep::V2ToV3],
        SchemaVersion::V3 => Seq::empty(),
    }
}

/// The migrations to run when opening a store found at `from`, oldest
/// first.
pub fn migration_steps(from: SchemaVersion) -> (r: Vec<MigrationStep>)
    ensures
        r@ == spec_migration_steps(from),
{
    let mut steps: Vec<MigrationStep> = Vec::new();
    match from {
        SchemaVersion::V1 => {
            steps.push(MigrationStep::V1ToV2);
            steps.push(MigrationStep::V2ToV3);
            proof {
                assert(steps@ =~= spec_migration_steps(SchemaVersion::V1));
            }
        },
        SchemaVersion::V2 => {
            steps.push(MigrationStep::V2ToV3);
            proof {
                assert(steps@ =~= spec_migration_steps(SchemaVersion::V2));
            }
        },
        SchemaVersion::V3 => {
            proof {
                assert(steps@ =~= spec_migration_steps(SchemaVersion::V3));
            }
        },
    }
    steps
}

/// Migrations chain: each step starts where the previous one ended,
/// the first starts at the store's version, and the last ends at the
/// current version, so applying them in order always reaches it.
pub proof fn lemma_migrations_reach_current(from: SchemaVersion)
    ensures
        ({
            let steps = spec_migration_steps(from);
            &&& (steps.len() > 0 ==> spec_step_source(steps[0]) == from)
            &&& (steps.len() == 0 ==> from == SchemaVersion::V3)
            &&& forall|i: int|
                0 < i < steps.len() ==> spec_step_source(#[trigger] steps[i]) == spec_step_target(
                    steps[i - 1],
                )
            &&& (steps.len() > 0 ==> spec_step_target(steps[steps.len() - 1])
                == SchemaVersion::V3)
        }),
{
}

/// Milliseconds since the Unix epoch, split into the whole seconds and
/// the nanoseconds of a duration. Both sides of the conversion use
/// milliseconds.
pub fn millis_to_duration_parts(ms: i64) -> (r: (u64, u32))
    requires
        ms >= 0,
    ensures
        r.0 == ms / 1000,
        r.1 == (ms % 1000) * 1000000,
        r.0 * 1000 + r.1 as int / 1000000 == ms,
{
    let secs = (ms / 1000) as u64;
    let sub_ms = (ms % 1000) as u32;
    proof {
        assert(secs * 1000 + sub_ms == ms) by (nonlinear_arith)
            requires
                ms >= 0,
                secs == ms / 1000,
                sub_ms == ms % 1000,
        ;
        assert((sub_ms * 1000000) as int / 1000000 == sub_ms) by (nonlinear_arith)
            requires
                0 <= sub_ms < 1000,
        ;
    }
    (secs, sub_ms * 1000000)
}

/// The milliseconds since the Unix epoch of a duration given as whole
/// seconds and nanoseconds, or `None` when they do not fit the store's
/// signed 64-bit timestamp column.
pub fn duration_parts_to_millis(secs: u64, nanos: u32) -> (r: Option<i64>)
    requires
        nanos < 1000000000,
    ensures
        match r {
            Some(ms) => ms == secs * 1000 + nanos / 1000000,
            None => secs * 1000 + nanos as int / 1000000 > i64::MAX,
        },
{
    if secs > (i64::MAX as u64) / 1000 {
        proof {
            assert(secs * 1000 > i64::MAX) by (nonlinear_arith)
                requires
                    secs > (i64::MAX as u64) / 1000,
            ;
        }
        return None;
    }
    let base = secs * 1000;
    let sub = (nanos / 1000000) as u64;
    proof {
        assert(base <= ((i64::MAX as u64) / 1000) * 1000 <= i64::MAX) by (nonlinear_arith)
            requires
                base == secs * 1000,
                secs <= (i64::MAX as u64) / 1000,
        ;
        assert(sub < 1000);
    }
    if base > (i64::MAX as u64) - sub {
        return None;
    }
    Some((base + sub) as i64)
}

/// Converting a store timestamp to a duration and back returns the
/// same timestamp: the store reads the milliseconds it wrote.
pub fn unix_millis_round_trip(ms: i64) -> (r: i64)
    requires
        ms >= 0,
    ensures
        r == ms,
{
    let (secs, nanos) = millis_to_duration_parts(ms);
    proof {
        assert(nanos < 1000000000);
        assert(secs * 1000 + nanos as int / 1000000 == ms);
    }
    match duration_parts_to_millis(secs, nanos) {
        Some(r) => r,
        None => {
            proof {
                assert(false);
            }
            0
        },
    }
}

/// One row of the `peer` table.
#[derive(Clone, Copy, Debug, PartialEq, Eq)]
pub struct PeerRow {
    pub id: i64,
    pub kad_id: u128,
    /// IPv4 address, as the little-endian dword on the wire.
    pub ip: u32,
    pub udp_port: u16,
    /// Milliseconds since the Unix epoch of the last send to this
    /// peer, if any.
    pub last_send_time: Option<i64>,
}

/// One row of the `report` table: one accepted inbound bootstrap
/// response.
#[derive(Clone, Copy, Debug, PartialEq, Eq)]
pub struct ReportRow {
    pub id: i64,
    pub source_peer: i64,
    /// Milliseconds since the Unix epoch at which the response was
    /// received.
    pub recv_time: i64,
}

/// One row of the `report_contact` table: one contact named by a
/// report, or the reporter itself.
#[derive(Clone, Copy, Debug, PartialEq, Eq)]
pub struct ReportContactRow {
    pub id: i64,
    pub report_id: i64,
    pub reported_peer_id: i64,
    pub tcp_port: Option<u16>,
    pub contact_version: Option<u8>,
    pub verified: Option<u8>,
}

/// Whether two peer rows name the same peer.
pub open spec fn spec_peer_key_eq(a: PeerRow, b: PeerRow) -> bool {
    a.kad_id == b.kad_id && a.ip == b.ip && a.udp_port == b.udp_port
}

/// The greatest row id an operation may allocate from, leaving room
/// for every row one ingest can add.
pub const ID_HEADROOM: i64 = 0x4000000000000000;

/// The store: the three tables and the next fresh row id.
pub struct Store {
    peers: Vec<PeerRow>,
    reports: Vec<ReportRow>,
    report_contacts: Vec<ReportContactRow>,
    next_id: i64,
}

impl Store {
    /// The rows of the `peer` table, in insertion order.
    pub closed spec fn spec_peers(&self) -> Seq<PeerRow> {
        self.peers@
    }

    /// The rows of the `report` table, in insertion order.
    pub closed spec fn spec_reports(&self) -> Seq<ReportRow> {
        self.reports@
    }

    /// The rows of the `report_contact` table, in insertion order.
    pub closed spec fn spec_report_contacts(&self) -> Seq<ReportContactRow> {
        self.report_contacts@
    }

    /// The next fresh row id.
    pub closed spec fn spec_next_id(&self) -> int {
        self.next_id as int
    }

    /// Whether a peer row with this id exists.
    pub open spec fn spec_has_peer_id(&self, id: i64) -> bool {
        exists|j: int| 0 <= j < self.spec_peers().len() && (#[trigger] self.spec_peers()[j]).id == id
    }

    /// Whether a report row with this id exists.
    pub open spec fn spec_has_report_id(&self, id: i64) -> bool {
        exists|j: int|
            0 <= j < self.spec_reports().len() && (#[trigger] self.spec_reports()[j]).id == id
    }

    /// Whether a peer with this identity exists.
    pub open spec fn spec_has_peer_key(&self, kad_id: u128, ip: u32, udp_port: u16) -> bool {
        exists|j: int|
            0 <= j < self.spec_peers().len() && (#[trigger] self.spec_peers()[j]).kad_id == kad_id
                && self.spec_peers()[j].ip == ip && self.spec_peers()[j].udp_port == udp_port
    }

    /// The store's invariant: `(kad_id, ip, udp_port)` is unique across
    /// the peer table, row ids are unique per table and below the next
    /// fresh id, and reports and report contacts reference rows that
    /// exist.
    pub open spec fn wf(&self) -> bool {
        &&& forall|i: int, j: int|
            0 <= i < j < self.spec_peers().len() ==> !spec_peer_key_eq(
                #[trigger] self.spec_peers()[i],
                #[trigger] self.spec_peers()[j],
            )
        &&& forall|i: int, j: int|
            0 <= i < j < self.spec_peers().len() ==> (#[trigger] self.spec_peers()[i]).id != (
            #[trigger] self.spec_peers()[j]).id
        &&& forall|i: int, j: int|
            0 <= i < j < self.spec_reports().len() ==> (#[trigger] self.spec_reports()[i]).id != (
            #[trigger] self.spec_reports()[j]).id
        &&& forall|i: int, j: int|
            0 <= i < j < self.spec_report_contacts().len() ==> (
            #[trigger] self.spec_report_contacts()[i]).id != (
            #[trigger] self.spec_report_contacts()[j]).id
        &&& forall|i: int|
            0 <= i < self.spec_peers().len() ==> (#[trigger] self.spec_peers()[i]).id
                < self.spec_next_id()
        &&& forall|i: int|
            0 <= i < self.spec_reports().len() ==> (#[trigger] self.spec_reports()[i]).id
                < self.spec_next_id()
        &&& forall|i: int|
            0 <= i < self.spec_report_contacts().len() ==> (
            #[trigger] self.spec_report_contacts()[i]).id < self.spec_next_id()
        &&& forall|i: int|
            0 <= i < self.spec_reports().len() ==> self.spec_has_peer_id(
                (#[trigger] self.spec_reports()[i]).source_peer,
            )
        &&& forall|i: int|
            0 <= i < self.spec_report_contacts().len() ==> self.spec_has_report_id(
                (#[trigger] self.spec_report_contacts()[i]).report_id,
            ) && self.spec_has_peer_id(self.spec_report_contacts()[i].reported_peer_id)
    }

    /// An empty store at the current schema version.
    pub fn new() -> (r: Store)
        ensures
            r.wf(),
            r.spec_peers().len() == 0,
            r.spec_reports().len() == 0,
            r.spec_report_contacts().len() == 0,
            r.spec_next_id() == 1,
    {
        Store { peers: Vec::new(), reports: Vec::new(), report_contacts: Vec::new(), next_id: 1 }
    }

    /// The index of the peer row with this identity, if any.
    fn find_peer(&self, kad_id: u128, ip: u32, udp_port: u16) -> (r: Option<usize>)
        ensures
            match r {
                Some(j) => j < self.spec_peers().len() && self.spec_peers()[j as int].kad_id
                    == kad_id && self.spec_peers()[j as int].ip == ip
                    && self.spec_peers()[j as int].udp_port == udp_port,
                None => !self.spec_has_peer_key(kad_id, ip, udp_port),
            },
    {
        let mut j: usize = 0;
        while j < self.peers.len()
            invariant
                j <= self.peers@.len(),
                forall|k: int|
                    0 <= k < j ==> !((#[trigger] self.peers@[k]).kad_id == kad_id
                        && self.peers@[k].ip == ip && self.peers@[k].udp_port == udp_port),
            decreases self.peers@.len() - j,
        {
            let p = &self.peers[j];
            if p.kad_id == kad_id && p.ip == ip && p.udp_port == udp_port {
                return Some(j);
            }
            j = j + 1;
        }
        None
    }

    /// Insert the peer if its identity is new, and return whether it
    /// was new together with its row id: insert-or-ignore on the
    /// uniqueness constraint, then fetch the id.
    pub fn insert_peer(&mut self, kad_id: u128, ip: u32, udp_port: u16) -> (r: (bool, i64))
        requires
            old(self).wf(),
            old(self).spec_next_id() < ID_HEADROOM,
        ensures
            final(self).wf(),
            final(self).spec_reports() == old(self).spec_reports(),
            final(self).spec_report_contacts() == old(self).spec_report_contacts(),
            final(self).spec_has_peer_key(kad_id, ip, udp_port),
            r.0 == !old(self).spec_has_peer_key(kad_id, ip, udp_port),
            if r.0 {
                final(self).spec_peers() == old(self).spec_peers() + seq![
                    PeerRow { id: r.1, kad_id, ip, udp_port, last_send_time: None },
                ] && r.1 == old(self).spec_next_id() && final(self).spec_next_id() == old(
                    self,
                ).spec_next_id() + 1
            } else {
                final(self).spec_peers() == old(self).spec_peers() && final(self).spec_next_id()
                    == old(self).spec_next_id() && exists|j: int|
                    0 <= j < old(self).spec_peers().len() && (#[trigger] old(self).spec_peers()[j]).id
                        == r.1 && old(self).spec_peers()[j].kad_id == kad_id && old(
                        self,
                    ).spec_peers()[j].ip == ip && old(self).spec_peers()[j].udp_port == udp_port
            },
    {
        match self.find_peer(kad_id, ip, udp_port) {
            Some(j) => {
                let id = self.peers[j].id;
                (false, id)
            },
            None => {
                let id = self.next_id;
                let row = PeerRow { id, kad_id, ip, udp_port, last_send_time: None };
                self.peers.push(row);
                self.next_id = self.next_id + 1;
                proof {
                    let oldp = old(self).spec_peers();
                    let newp = self.peers@;
                    assert(newp == oldp.push(row));
                    assert(newp[newp.len() - 1] == row);
                    assert forall|i: int, j: int| 0 <= i < j < newp.len() implies !spec_peer_key_eq(
                        #[trigger] newp[i],
                        #[trigger] newp[j],
                    ) by {
                        if j == newp.len() - 1 {
                            assert(newp[i] == oldp[i]);
                            if spec_peer_key_eq(newp[i], newp[j]) {
                                assert((#[trigger] oldp[i]).kad_id == kad_id && oldp[i].ip == ip
                                    && oldp[i].udp_port == udp_port);
                                assert(old(self).spec_has_peer_key(kad_id, ip, udp_port));
                            }
                        } else {
                            assert(newp[i] == oldp[i]);
                            assert(newp[j] == oldp[j]);
                        }
                    }
                    assert forall|i: int, j: int| 0 <= i < j < newp.len() implies (
                    #[trigger] newp[i]).id != (#[trigger] newp[j]).id by {
                        if j == newp.len() - 1 {
                            assert(newp[i] == oldp[i]);
                        } else {
                            assert(newp[i] == oldp[i]);
                            assert(newp[j] == oldp[j]);
                        }
                    }
                    assert(self.spec_reports() == old(self).spec_reports());
                    assert(self.spec_report_contacts() == old(self).spec_report_contacts());
                    assert forall|i: int|
                        0 <= i < self.spec_reports().len() implies self.spec_has_peer_id(
                        (#[trigger] self.spec_reports()[i]).source_peer,
                    ) by {
                        let pid = self.spec_reports()[i].source_peer;
                        assert(old(self).spec_reports()[i] == self.spec_reports()[i]);
                        assert(old(self).spec_has_peer_id(pid));
                        let j = choose|j: int|
                            0 <= j < oldp.len() && (#[trigger] oldp[j]).id == pid;
                        assert((#[trigger] newp[j]).id == pid);
                    }
                    assert forall|i: int|
                        0 <= i < self.spec_report_contacts().len() implies self.spec_has_report_id(
                        (#[trigger] self.spec_report_contacts()[i]).report_id,
                    ) && self.spec_has_peer_id(self.spec_report_contacts()[i].reported_peer_id) by {
                        let pid = self.spec_report_contacts()[i].reported_peer_id;
                        assert(old(self).spec_report_contacts()[i]
                            == self.spec_report_contacts()[i]);
                        assert(old(self).spec_has_peer_id(pid));
                        let j = choose|j: int|
                            0 <= j < oldp.len() && (#[trigger] oldp[j]).id == pid;
                        assert((#[trigger] newp[j]).id == pid);
                        assert(old(self).spec_has_report_id(
                            self.spec_report_contacts()[i].report_id,
                        ));
                        let w = choose|w: int|
                            0 <= w < old(self).spec_reports().len() && (#[trigger] old(
                                self,
                            ).spec_reports()[w]).id == self.spec_report_contacts()[i].report_id;
                        assert((#[trigger] self.spec_reports()[w]).id
                            == self.spec_report_contacts()[i].report_id);
                    }
                    assert((#[trigger] newp[newp.len() - 1]).kad_id == kad_id);
                }
                (true, id)
            },
        }
    }

    /// Record one accepted inbound response as a report rooted at the
    /// source peer, and return the new report's id.
    pub fn insert_report(&mut self, source: i64, recv_time: i64) -> (r: i64)
        requires
            old(self).wf(),
            old(self).spec_has_peer_id(source),
            old(self).spec_next_id() < ID_HEADROOM,
        ensures
            final(self).wf(),
            final(self).spec_peers() == old(self).spec_peers(),
            final(self).spec_report_contacts() == old(self).spec_report_contacts(),
            final(self).spec_reports() == old(self).spec_reports() + seq![
                ReportRow { id: r, source_peer: source, recv_time },
            ],
            r == old(self).spec_next_id(),
            final(self).spec_next_id() == old(self).spec_next_id() + 1,
            final(self).spec_has_report_id(r),
    {
        let id = self.next_id;
        let row = ReportRow { id, source_peer: source, recv_time };
        self.reports.push(row);
        self.next_id = self.next_id + 1;
        proof {
            let oldr = old(self).spec_reports();
            let newr = self.reports@;
            assert(newr == oldr.push(row));
            assert(newr[newr.len() - 1] == row);
            assert forall|k: int| 0 <= k < oldr.len() implies #[trigger] newr[k] == oldr[k] by {
                assert(newr[k] == oldr.push(row)[k]);
            }
            assert forall|i: int, j: int| 0 <= i < j < newr.len() implies (#[trigger] newr[i]).id
                != (#[trigger] newr[j]).id by {
                if j == newr.len() - 1 {
                    assert(newr[i] == oldr[i]);
                } else {
                    assert(newr[i] == oldr[i]);
                    assert(newr[j] == oldr[j]);
                }
            }
            assert forall|i: int|
                0 <= i < newr.len() implies self.spec_has_peer_id(
                (#[trigger] newr[i]).source_peer,
            ) by {
                if i < newr.len() - 1 {
                    assert(newr[i] == oldr[i]);
                    assert(old(self).spec_has_peer_id(oldr[i].source_peer));
                }
            }
            assert forall|i: int|
                0 <= i < self.spec_report_contacts().len() implies self.spec_has_report_id(
                (#[trigger] self.spec_report_contacts()[i]).report_id,
            ) && self.spec_has_peer_id(self.spec_report_contacts()[i].reported_peer_id) by {
                let rid = self.spec_report_contacts()[i].report_id;
                assert(old(self).spec_report_contacts()[i] == self.spec_report_contacts()[i]);
                assert(old(self).spec_has_report_id(rid));
                let j = choose|j: int|
                    0 <= j < old(self).spec_reports().len() && (#[trigger] old(
                        self,
                    ).spec_reports()[j]).id == rid;
                assert(0 <= j < oldr.len());
                assert(oldr[j].id == rid);
                assert(newr[j] == oldr[j]);
                assert(0 <= j < self.spec_reports().len());
                assert(self.spec_reports()[j].id == rid);
                assert(self.spec_has_report_id(rid));
                assert(old(self).spec_has_peer_id(
                    self.spec_report_contacts()[i].reported_peer_id,
                ));
            }
        }
        id
    }

    /// Record one contact named by a report: insert the reported peer
    /// if its identity is new, then link the report to it. Returns
    /// whether the peer was new, so the engine can count discoveries.
    pub fn insert_report_contact(
        &mut self,
        report: i64,
        kad_id: u128,
        ip: u32,
        udp_port: u16,
        tcp_port: Option<u16>,
        contact_version: Option<u8>,
        verified: Option<u8>,
    ) -> (r: bool)
        requires
            old(self).wf(),
            old(self).spec_has_report_id(report),
            old(self).spec_next_id() < ID_HEADROOM - 1,
        ensures
            final(self).wf(),
            final(self).spec_reports() == old(self).spec_reports(),
            r == !old(self).spec_has_peer_key(kad_id, ip, udp_port),
            old(self).spec_peers().len() <= final(self).spec_peers().len() <= old(
                self,
            ).spec_peers().len() + 1,
            forall|i: int|
                0 <= i < old(self).spec_peers().len() ==> #[trigger] final(self).spec_peers()[i]
                    == old(self).spec_peers()[i],
            final(self).spec_has_peer_key(kad_id, ip, udp_port),
            final(self).spec_report_contacts().len() == old(self).spec_report_contacts().len() + 1,
            forall|i: int|
                0 <= i < old(self).spec_report_contacts().len() ==> #[trigger] final(self).spec_report_contacts()[i] == old(self).spec_report_contacts()[i],
            ({
                let rc = final(self).spec_report_contacts().last();
                &&& rc.report_id == report
                &&& rc.tcp_port == tcp_port
                &&& rc.contact_version == contact_version
                &&& rc.verified == verified
                &&& exists|j: int|
                    0 <= j < final(self).spec_peers().len() && (#[trigger] final(self).spec_peers()[j]).id == rc.reported_peer_id && final(self).spec_peers()[j].kad_id
                        == kad_id && final(self).spec_peers()[j].ip == ip && final(self).spec_peers()[j].udp_port == udp_port
            }),
            old(self).spec_next_id() <= final(self).spec_next_id() <= old(self).spec_next_id() + 2,
    {
        let (was_new, peer_id) = self.insert_peer(kad_id, ip, udp_port);
        let ghost mid = *self;
        let id = self.next_id;
        let row = ReportContactRow {
            id,
            report_id: report,
            reported_peer_id: peer_id,
            tcp_port,
            contact_version,
            verified,
        };
        self.report_contacts.push(row);
        self.next_id = self.next_id + 1;
        proof {
            let oldc = mid.spec_report_contacts();
            let newc = self.report_contacts@;
            assert(newc == oldc.push(row));
            assert(newc[newc.len() - 1] == row);
            assert(newc.last() == row);
            assert(mid.spec_has_peer_id(peer_id));
            assert forall|i: int, j: int| 0 <= i < j < newc.len() implies (#[trigger] newc[i]).id
                != (#[trigger] newc[j]).id by {
                if j == newc.len() - 1 {
                    assert(newc[i] == oldc[i]);
                } else {
                    assert(newc[i] == oldc[i]);
                    assert(newc[j] == oldc[j]);
                }
            }
            assert(self.spec_reports() == mid.spec_reports());
            assert(self.spec_peers() == mid.spec_peers());
            assert(mid.spec_reports() == old(self).spec_reports());
            assert forall|i: int|
                0 <= i < newc.len() implies self.spec_has_report_id(
                (#[trigger] newc[i]).report_id,
            ) && self.spec_has_peer_id(newc[i].reported_peer_id) by {
                if i < newc.len() - 1 {
                    assert(newc[i] == oldc[i]);
                    assert(mid.spec_report_contacts()[i] == newc[i]);
                    assert(mid.spec_has_report_id(oldc[i].report_id));
                    assert(mid.spec_has_peer_id(oldc[i].reported_peer_id));
                    let w = choose|w: int|
                        0 <= w < mid.spec_reports().len() && (#[trigger] mid.spec_reports()[w]).id
                            == oldc[i].report_id;
                    assert((#[trigger] self.spec_reports()[w]).id == oldc[i].report_id);
                    let v = choose|v: int|
                        0 <= v < mid.spec_peers().len() && (#[trigger] mid.spec_peers()[v]).id
                            == oldc[i].reported_peer_id;
                    assert((#[trigger] self.spec_peers()[v]).id == oldc[i].reported_peer_id);
                } else {
                    assert(old(self).spec_has_report_id(report));
                    let w = choose|w: int|
                        0 <= w < old(self).spec_reports().len() && (#[trigger] old(
                            self,
                        ).spec_reports()[w]).id == report;
                    assert((#[trigger] self.spec_reports()[w]).id == report);
                    assert(mid.spec_has_peer_id(peer_id));
                    let v = choose|v: int|
                        0 <= v < mid.spec_peers().len() && (#[trigger] mid.spec_peers()[v]).id
                            == peer_id;
                    assert((#[trigger] self.spec_peers()[v]).id == peer_id);
                }
            }
        }
        was_new
    }

    /// Set the peer's last send time to `now`, after a send to it
    /// succeeded. A missing id updates nothing.
    pub fn mark_peer_sent(&mut self, id: i64, now: i64) -> (r: bool)
        requires
            old(self).wf(),
        ensures
            final(self).wf(),
            final(self).spec_reports() == old(self).spec_reports(),
            final(self).spec_report_contacts() == old(self).spec_report_contacts(),
            final(self).spec_next_id() == old(self).spec_next_id(),
            r == old(self).spec_has_peer_id(id),
            final(self).spec_peers().len() == old(self).spec_peers().len(),
            forall|k: int|
                0 <= k < old(self).spec_peers().len() ==> #[trigger] final(self).spec_peers()[k]
                    == (if old(self).spec_peers()[k].id == id {
                    PeerRow { last_send_time: Some(now), ..old(self).spec_peers()[k] }
                } else {
                    old(self).spec_peers()[k]
                }),
    {
        let mut j: usize = 0;
        while j < self.peers.len()
            invariant
                j <= self.peers@.len(),
                self.peers@.len() == old(self).spec_peers().len(),
                self.reports@ == old(self).spec_reports(),
                self.report_contacts@ == old(self).spec_report_contacts(),
                self.next_id == old(self).spec_next_id(),
                old(self).wf(),
                forall|k: int| 0 <= k < j ==> (#[trigger] old(self).spec_peers()[k]).id != id,
                forall|k: int| 0 <= k < self.peers@.len() ==> #[trigger] self.peers@[k] == old(
                    self,
                ).spec_peers()[k],
            decreases self.peers@.len() - j,
        {
            if self.peers[j].id == id {
                let updated = PeerRow { last_send_time: Some(now), ..self.peers[j] };
                let ghost pre = self.peers@;
                self.peers.set(j, updated);
                proof {
                    let oldp = old(self).spec_peers();
                    let newp = self.peers@;
                    assert(newp == pre.update(j as int, updated));
                    assert forall|k: int| 0 <= k < newp.len() implies #[trigger] newp[k] == (
                    if oldp[k].id == id {
                        PeerRow { last_send_time: Some(now), ..oldp[k] }
                    } else {
                        oldp[k]
                    }) by {
                        if k != j {
                            assert(newp[k] == oldp[k]);
                            if oldp[k].id == id {
                                assert(oldp[j as int].id == id);
                                assert(false);
                            }
                        }
                    }
                    assert forall|i: int, j2: int| 0 <= i < j2 < newp.len() implies
                        !spec_peer_key_eq(#[trigger] newp[i], #[trigger] newp[j2]) && (
                    newp[i]).id != (newp[j2]).id by {
                        assert(newp[i].kad_id == oldp[i].kad_id && newp[i].ip == oldp[i].ip
                            && newp[i].udp_port == oldp[i].udp_port && newp[i].id == oldp[i].id);
                        assert(newp[j2].kad_id == oldp[j2].kad_id && newp[j2].ip == oldp[j2].ip
                            && newp[j2].udp_port == oldp[j2].udp_port && newp[j2].id
                            == oldp[j2].id);
                    }
                    assert forall|i: int|
                        0 <= i < self.spec_reports().len() implies self.spec_has_peer_id(
                        (#[trigger] self.spec_reports()[i]).source_peer,
                    ) by {
                        let pid = self.spec_reports()[i].source_peer;
                        assert(old(self).spec_has_peer_id(pid));
                        let w = choose|w: int|
                            0 <= w < oldp.len() && (#[trigger] oldp[w]).id == pid;
                        assert((#[trigger] newp[w]).id == pid);
                    }
                    assert forall|i: int|
                        0 <= i < self.spec_report_contacts().len() implies self.spec_has_report_id(
                        (#[trigger] self.spec_report_contacts()[i]).report_id,
                    ) && self.spec_has_peer_id(self.spec_report_contacts()[i].reported_peer_id) by {
                        let pid = self.spec_report_contacts()[i].reported_peer_id;
                        assert(old(self).spec_has_peer_id(pid));
                        let w = choose|w: int|
                            0 <= w < oldp.len() && (#[trigger] oldp[w]).id == pid;
                        assert((#[trigger] newp[w]).id == pid);
                        assert(old(self).spec_has_report_id(
                            self.spec_report_contacts()[i].report_id,
                        ));
                    }
                    assert(old(self).spec_peers()[j as int].id == id);
                    assert(old(self).spec_has_peer_id(id));
                }
                return true;
            }
            j = j + 1;
        }
        proof {
            assert(self.peers@ =~= old(self).spec_peers());
            assert(self.spec_peers() == old(self).spec_peers());
            assert(self.spec_reports() == old(self).spec_reports());
            assert(self.spec_report_contacts() == old(self).spec_report_contacts());
            if old(self).spec_has_peer_id(id) {
                let w = choose|w: int|
                    0 <= w < old(self).spec_peers().len() && (#[trigger] old(
                        self,
                    ).spec_peers()[w]).id == id;
                assert(false);
            }
            assert(self.wf());
            assert forall|k: int| 0 <= k < old(self).spec_peers().len() implies
                #[trigger] self.spec_peers()[k] == (if old(self).spec_peers()[k].id == id {
                PeerRow { last_send_time: Some(now), ..old(self).spec_peers()[k] }
            } else {
                old(self).spec_peers()[k]
            }) by {
                assert(old(self).spec_peers()[k].id != id);
            }
        }
        false
    }

    /// The peers in the order the sender sweeps them: by last send
    /// time, never-sent peers first, and no peer left out or added.
    pub fn peers(&self) -> (r: Vec<PeerRow>)
        requires
            self.wf(),
        ensures
            r@.to_multiset() == self.spec_peers().to_multiset(),
            r@.len() == self.spec_peers().len(),
            forall|i: int, j: int|
                0 <= i < j < r@.len() ==> spec_send_time_le(
                    (#[trigger] r@[i]).last_send_time,
                    (#[trigger] r@[j]).last_send_time,
                ),
    {
        broadcast use vstd::seq_lib::group_to_multiset_ensures;

        let mut work: Vec<PeerRow> = self.peers_copy();
        let mut out: Vec<PeerRow> = Vec::new();
        proof {
            assert(out@.to_multiset().add(work@.to_multiset()) =~= self.spec_peers().to_multiset());
        }
        while work.len() > 0
            invariant
                out@.to_multiset().add(work@.to_multiset()) == self.spec_peers().to_multiset(),
                out@.len() + work@.len() == self.spec_peers().len(),
                forall|i: int, j: int|
                    0 <= i < j < out@.len() ==> spec_send_time_le(
                        (#[trigger] out@[i]).last_send_time,
                        (#[trigger] out@[j]).last_send_time,
                    ),
                forall|i: int, j: int|
                    0 <= i < out@.len() && 0 <= j < work@.len() ==> spec_send_time_le(
                        (#[trigger] out@[i]).last_send_time,
                        (#[trigger] work@[j]).last_send_time,
                    ),
            decreases work@.len(),
        {
            let mut m: usize = 0;
            let mut j: usize = 1;
            while j < work.len()
                invariant
                    m < j <= work@.len(),
                    work@.len() > 0,
                    forall|k: int|
                        0 <= k < j ==> spec_send_time_le(
                            work@[m as int].last_send_time,
                            (#[trigger] work@[k]).last_send_time,
                        ),
                decreases work@.len() - j,
            {
                if !send_time_le(work[m].last_send_time, work[j].last_send_time) {
                    proof {
                        lemma_send_time_total(
                            work@[m as int].last_send_time,
                            work@[j as int].last_send_time,
                        );
                        assert forall|k: int| 0 <= k < j + 1 implies spec_send_time_le(
                            work@[j as int].last_send_time,
                            (#[trigger] work@[k]).last_send_time,
                        ) by {
                            if k < j {
                                lemma_send_time_trans(
                                    work@[j as int].last_send_time,
                                    work@[m as int].last_send_time,
                                    work@[k].last_send_time,
                                );
                            } else {
                                lemma_send_time_total(
                                    work@[j as int].last_send_time,
                                    work@[j as int].last_send_time,
                                );
                            }
                        }
                    }
                    m = j;
                }
                j = j + 1;
            }
            let ghost pre = work@;
            let ghost preout = out@;
            let x = work.remove(m);
            proof {
                broadcast use vstd::seq_lib::group_to_multiset_ensures;
                broadcast use vstd::multiset::group_multiset_axioms;

                assert(work@ == pre.remove(m as int));
                assert(pre.remove(m as int).to_multiset() =~= pre.to_multiset().remove(
                    pre[m as int],
                ));
                assert(x == pre[m as int]);
                assert(pre.to_multiset().count(x) > 0);
                assert(preout.push(x).to_multiset() =~= preout.to_multiset().insert(x));
                assert(preout.push(x).to_multiset().add(work@.to_multiset())
                    =~= self.spec_peers().to_multiset());
                assert forall|jj: int| 0 <= jj < work@.len() implies spec_send_time_le(
                    x.last_send_time,
                    (#[trigger] work@[jj]).last_send_time,
                ) by {
                    if jj < m {
                        assert(work@[jj] == pre[jj]);
                    } else {
                        assert(work@[jj] == pre[jj + 1]);
                    }
                }
            }
            out.push(x);
        }
        proof {
            assert(work@.to_multiset() =~= Multiset::<PeerRow>::empty());
            assert(out@.to_multiset().add(work@.to_multiset()) =~= out@.to_multiset());
        }
        out
    }

    /// A copy of the report table's rows, in insertion order.
    pub fn reports_copy(&self) -> (r: Vec<ReportRow>)
        ensures
            r@ == self.spec_reports(),
    {
        let mut out: Vec<ReportRow> = Vec::new();
        let mut j: usize = 0;
        while j < self.reports.len()
            invariant
                j <= self.reports@.len(),
                out@ == self.reports@.subrange(0, j as int),
            decreases self.reports@.len() - j,
        {
            out.push(self.reports[j]);
            proof {
                assert(out@ =~= self.reports@.subrange(0, j + 1));
            }
            j = j + 1;
        }
        proof {
            assert(out@ =~= self.reports@);
        }
        out
    }

    /// A copy of the report-contact table's rows, in insertion order.
    pub fn report_contacts_copy(&self) -> (r: Vec<ReportContactRow>)
        ensures
            r@ == self.spec_report_contacts(),
    {
        let mut out: Vec<ReportContactRow> = Vec::new();
        let mut j: usize = 0;
        while j < self.report_contacts.len()
            invariant
                j <= self.report_contacts@.len(),
                out@ == self.report_contacts@.subrange(0, j as int),
            decreases self.report_contacts@.len() - j,
        {
            out.push(self.report_contacts[j]);
            proof {
                assert(out@ =~= self.report_contacts@.subrange(0, j + 1));
            }
            j = j + 1;
        }
        proof {
            assert(out@ =~= self.report_contacts@);
        }
        out
    }

    /// A copy of the peer table's rows, in insertion order.
    pub fn peers_copy(&self) -> (r: Vec<PeerRow>)
        ensures
            r@ == self.spec_peers(),
    {
        let mut out: Vec<PeerRow> = Vec::new();
        let mut j: usize = 0;
        while j < self.peers.len()
            invariant
                j <= self.peers@.len(),
                out@ == self.peers@.subrange(0, j as int),
            decreases self.peers@.len() - j,
        {
            out.push(self.peers[j]);
            proof {
                assert(out@ =~= self.peers@.subrange(0, j + 1));
            }
            j = j + 1;
        }
        proof {
            assert(out@ =~= self.peers@);
        }
        out
    }
}

/// One row of the legacy `peers` table, as the migration to the
/// normalized schema reads it.
#[derive(Clone, Copy, Debug, PartialEq, Eq)]
pub struct LegacyPeerRow {
    pub kad_id: u128,
    /// IPv4 address, as the little-endian dword on the wire.
    pub ip: u32,
    pub udp_port: u16,
    pub last_send: Option<i64>,
}

/// Whether a legacy row and a peer row name the same peer.
pub open spec fn spec_legacy_key_eq(a: LegacyPeerRow, b: PeerRow) -> bool {
    a.kad_id == b.kad_id && a.ip == b.ip && a.udp_port == b.udp_port
}

/// What seeding has established once the first `i` legacy rows are
/// folded into `out`: identities are unique, ids are consecutive from
/// `first_id`, every folded row's identity is present, each present
/// identity carries the greatest `last_send` seen for it, and every
/// present row's send time comes from some folded row of its identity.
#[verifier::opaque]
pub open spec fn spec_seed_inv(
    legacy: Seq<LegacyPeerRow>,
    out: Seq<PeerRow>,
    i: int,
    first_id: i64,
) -> bool {
    &&& out.len() <= i
    &&& forall|a: int, b: int|
        0 <= a < b < out.len() ==> !spec_peer_key_eq(#[trigger] out[a], #[trigger] out[b])
    &&& forall|j: int| 0 <= j < out.len() ==> (#[trigger] out[j]).id == first_id + j
    &&& forall|a: int|
        0 <= a < i ==> exists|j: int|
            0 <= j < out.len() && spec_legacy_key_eq(#[trigger] legacy[a], #[trigger] out[j])
    &&& forall|a: int, j: int|
        0 <= a < i && 0 <= j < out.len() && spec_legacy_key_eq(
            #[trigger] legacy[a],
            #[trigger] out[j],
        ) ==> spec_send_time_le(legacy[a].last_send, out[j].last_send_time)
    &&& forall|j: int|
        0 <= j < out.len() ==> exists|a: int|
            0 <= a < i && spec_legacy_key_eq(#[trigger] legacy[a], #[trigger] out[j])
                && legacy[a].last_send == out[j].last_send_time
}

/// Folding a legacy row whose identity is already seeded keeps the
/// invariant: only that row's send time can grow, to the greater of
/// the two.
#[verifier::rlimit(100)]
#[verifier::spinoff_prover]
proof fn lemma_seed_update(
    legacy: Seq<LegacyPeerRow>,
    pre: Seq<PeerRow>,
    post: Seq<PeerRow>,
    i: int,
    j: int,
    first_id: i64,
)
    requires
        0 <= i < legacy.len(),
        spec_seed_inv(legacy, pre, i, first_id),
        0 <= j < pre.len(),
        spec_legacy_key_eq(legacy[i], pre[j]),
        post == pre.update(
            j,
            PeerRow {
                last_send_time: if spec_send_time_le(
                    legacy[i].last_send,
                    pre[j].last_send_time,
                ) {
                    pre[j].last_send_time
                } else {
                    legacy[i].last_send
                },
                ..pre[j]
            },
        ),
    ensures
        spec_seed_inv(legacy, post, i + 1, first_id),
{
    reveal(spec_seed_inv);
    lemma_send_time_total(legacy[i].last_send, pre[j].last_send_time);
    assert forall|a: int, b: int| 0 <= a < b < post.len() implies !spec_peer_key_eq(
        #[trigger] post[a],
        #[trigger] post[b],
    ) by {
        assert(post[a].kad_id == pre[a].kad_id && post[a].ip == pre[a].ip && post[a].udp_port
            == pre[a].udp_port);
        assert(post[b].kad_id == pre[b].kad_id && post[b].ip == pre[b].ip && post[b].udp_port
            == pre[b].udp_port);
    }
    assert forall|a: int| 0 <= a < i + 1 implies exists|jj: int|
        0 <= jj < post.len() && spec_legacy_key_eq(#[trigger] legacy[a], #[trigger] post[jj]) by {
        if a < i {
            let w = choose|w: int|
                0 <= w < pre.len() && spec_legacy_key_eq(legacy[a], #[trigger] pre[w]);
            assert(spec_legacy_key_eq(legacy[a], post[w]));
        } else {
            assert(spec_legacy_key_eq(legacy[a], post[j]));
        }
    }
    assert forall|a: int, jj: int|
        0 <= a < i + 1 && 0 <= jj < post.len() && spec_legacy_key_eq(
            #[trigger] legacy[a],
            #[trigger] post[jj],
        ) implies spec_send_time_le(legacy[a].last_send, post[jj].last_send_time) by {
        if jj != j {
            assert(post[jj] == pre[jj]);
            if a == i {
                assert(spec_legacy_key_eq(legacy[i], pre[jj]));
                assert(spec_peer_key_eq(pre[j], pre[jj]));
                assert(false);
            }
        } else {
            if a < i {
                assert(spec_legacy_key_eq(legacy[a], pre[j]));
                lemma_send_time_trans(
                    legacy[a].last_send,
                    pre[j].last_send_time,
                    post[j].last_send_time,
                );
            }
        }
    }
    assert forall|jj: int| 0 <= jj < post.len() implies exists|a: int|
        0 <= a < i + 1 && spec_legacy_key_eq(#[trigger] legacy[a], #[trigger] post[jj])
            && legacy[a].last_send == post[jj].last_send_time by {
        if jj == j {
            if spec_send_time_le(legacy[i].last_send, pre[j].last_send_time) {
                let a = choose|a: int|
                    0 <= a < i && spec_legacy_key_eq(#[trigger] legacy[a], pre[j]) && legacy[a].last_send
                        == pre[j].last_send_time;
                assert(spec_legacy_key_eq(legacy[a], post[j]));
                assert(legacy[a].last_send == post[j].last_send_time);
            } else {
                assert(spec_legacy_key_eq(legacy[i], post[j]));
                assert(legacy[i].last_send == post[j].last_send_time);
            }
        } else {
            assert(post[jj] == pre[jj]);
            let a = choose|a: int|
                0 <= a < i && spec_legacy_key_eq(#[trigger] legacy[a], pre[jj]) && legacy[a].last_send
                    == pre[jj].last_send_time;
            assert(spec_legacy_key_eq(legacy[a], post[jj]));
        }
    }
}

/// Folding a legacy row with a fresh identity keeps the invariant: the
/// new row carries that identity and its send time verbatim.
#[verifier::rlimit(100)]
#[verifier::spinoff_prover]
proof fn lemma_seed_push(
    legacy: Seq<LegacyPeerRow>,
    pre: Seq<PeerRow>,
    post: Seq<PeerRow>,
    i: int,
    first_id: i64,
)
    requires
        0 <= i < legacy.len(),
        0 <= first_id,
        first_id + pre.len() <= i64::MAX,
        spec_seed_inv(legacy, pre, i, first_id),
        forall|k: int| 0 <= k < pre.len() ==> !spec_legacy_key_eq(legacy[i], #[trigger] pre[k]),
        post == pre.push(
            PeerRow {
                id: (first_id + pre.len()) as i64,
                kad_id: legacy[i].kad_id,
                ip: legacy[i].ip,
                udp_port: legacy[i].udp_port,
                last_send_time: legacy[i].last_send,
            },
        ),
    ensures
        spec_seed_inv(legacy, post, i + 1, first_id),
{
    reveal(spec_seed_inv);
    let newj = pre.len() as int;
    assert forall|a: int, b: int| 0 <= a < b < post.len() implies !spec_peer_key_eq(
        #[trigger] post[a],
        #[trigger] post[b],
    ) by {
        if b == newj {
            assert(post[a] == pre[a]);
            if spec_peer_key_eq(post[a], post[b]) {
                assert(spec_legacy_key_eq(legacy[i], pre[a]));
                assert(false);
            }
        } else {
            assert(post[a] == pre[a]);
            assert(post[b] == pre[b]);
        }
    }
    assert forall|a: int| 0 <= a < i + 1 implies exists|jj: int|
        0 <= jj < post.len() && spec_legacy_key_eq(#[trigger] legacy[a], #[trigger] post[jj]) by {
        if a < i {
            let w = choose|w: int|
                0 <= w < pre.len() && spec_legacy_key_eq(legacy[a], #[trigger] pre[w]);
            assert(spec_legacy_key_eq(legacy[a], post[w]));
        } else {
            assert(spec_legacy_key_eq(legacy[a], post[newj]));
        }
    }
    assert forall|a: int, jj: int|
        0 <= a < i + 1 && 0 <= jj < post.len() && spec_legacy_key_eq(
            #[trigger] legacy[a],
            #[trigger] post[jj],
        ) implies spec_send_time_le(legacy[a].last_send, post[jj].last_send_time) by {
        if jj < newj {
            assert(post[jj] == pre[jj]);
            if a == i {
                assert(spec_legacy_key_eq(legacy[i], pre[jj]));
                assert(false);
            }
        } else {
            if a < i {
                let w = choose|w: int|
                    0 <= w < pre.len() && spec_legacy_key_eq(legacy[a], #[trigger] pre[w]);
                assert(spec_legacy_key_eq(legacy[i], pre[w]));
                assert(false);
            } else {
                lemma_send_time_total(legacy[a].last_send, legacy[a].last_send);
            }
        }
    }
    assert forall|jj: int| 0 <= jj < post.len() implies exists|a: int|
        0 <= a < i + 1 && spec_legacy_key_eq(#[trigger] legacy[a], #[trigger] post[jj])
            && legacy[a].last_send == post[jj].last_send_time by {
        if jj == newj {
            assert(spec_legacy_key_eq(legacy[i], post[newj]));
            assert(legacy[i].last_send == post[newj].last_send_time);
        } else {
            assert(post[jj] == pre[jj]);
            let a = choose|a: int|
                0 <= a < i && spec_legacy_key_eq(#[trigger] legacy[a], pre[jj]) && legacy[a].last_send
                    == pre[jj].last_send_time;
            assert(spec_legacy_key_eq(legacy[a], post[jj]));
        }
    }
}

/// The index of the seeded row that already carries this legacy row's
/// identity, if any.
fn find_seeded(out: &Vec<PeerRow>, row: LegacyPeerRow) -> (r: Option<usize>)
    ensures
        match r {
            Some(j) => j < out@.len() && spec_legacy_key_eq(row, out@[j as int]),
            None => forall|k: int|
                0 <= k < out@.len() ==> !spec_legacy_key_eq(row, #[trigger] out@[k]),
        },
{
    let mut j: usize = 0;
    while j < out.len()
        invariant
            j <= out@.len(),
            forall|k: int| 0 <= k < j ==> !spec_legacy_key_eq(row, #[trigger] out@[k]),
        decreases out@.len() - j,
    {
        if out[j].kad_id == row.kad_id && out[j].ip == row.ip && out[j].udp_port == row.udp_port {
            return Some(j);
        }
        j = j + 1;
    }
    None
}

/// Seed the normalized `peer` table from the legacy `peers` table:
/// group the legacy rows on `(kad_id, ip, udp_port)`, keep one row per
/// identity with the greatest `last_send`, and assign fresh ids from
/// `first_id` on. No identity is lost and none is invented.
pub fn seed_peers_from_legacy(legacy: &Vec<LegacyPeerRow>, first_id: i64) -> (r: Vec<PeerRow>)
    requires
        first_id >= 0,
        first_id + legacy@.len() < ID_HEADROOM,
    ensures
        r@.len() <= legacy@.len(),
        spec_seed_inv(legacy@, r@, legacy@.len() as int, first_id),
{
    let mut out: Vec<PeerRow> = Vec::new();
    let mut i: usize = 0;
    proof {
        reveal(spec_seed_inv);
        assert(spec_seed_inv(legacy@, out@, 0, first_id));
    }
    while i < legacy.len()
        invariant
            i <= legacy@.len(),
            out@.len() <= i,
            first_id >= 0,
            first_id + legacy@.len() < ID_HEADROOM,
            spec_seed_inv(legacy@, out@, i as int, first_id),
        decreases legacy@.len() - i,
    {
        let row = legacy[i];
        let ghost pre = out@;
        match find_seeded(&out, row) {
            Some(j) => {
                let new_last = if send_time_le(row.last_send, out[j].last_send_time) {
                    out[j].last_send_time
                } else {
                    row.last_send
                };
                let updated = PeerRow { last_send_time: new_last, ..out[j] };
                out.set(j, updated);
                proof {
                    lemma_seed_update(legacy@, pre, out@, i as int, j as int, first_id);
                }
            },
            None => {
                let id = first_id + (out.len() as i64);
                out.push(
                    PeerRow {
                        id,
                        kad_id: row.kad_id,
                        ip: row.ip,
                        udp_port: row.udp_port,
                        last_send_time: row.last_send,
                    },
                );
                proof {
                    lemma_seed_push(legacy@, pre, out@, i as int, first_id);
                }
            },
        }
        i = i + 1;
    }
    out
}

/// The sender's sweep order on last send times: a never-sent peer
/// comes before every sent one, and sent peers come oldest first.
pub open spec fn spec_send_time_le(a: Option<i64>, b: Option<i64>) -> bool {
    match (a, b) {
        (Option::None, _) => true,
        (Option::Some(_), Option::None) => false,
        (Option::Some(x), Option::Some(y)) => x <= y,
    }
}

/// Compare two last send times in sweep order.
pub fn send_time_le(a: Option<i64>, b: Option<i64>) -> (r: bool)
    ensures
        r == spec_send_time_le(a, b),
{
    match (a, b) {
        (Option::None, _) => true,
        (Option::Some(_), Option::None) => false,
        (Option::Some(x), Option::Some(y)) => x <= y,
    }
}

/// The sweep order is total.
proof fn lemma_send_time_total(a: Option<i64>, b: Option<i64>)
    ensures
        spec_send_time_le(a, b) || spec_send_time_le(b, a),
{
}

/// The sweep order is transitive.
proof fn lemma_send_time_trans(a: Option<i64>, b: Option<i64>, c: Option<i64>)
    requires
        spec_send_time_le(a, b),
        spec_send_time_le(b, c),
    ensures
        spec_send_time_le(a, c),
{
}

} // verus!

//! Codec for the Kad UDP packet family.
//!
//! A received datagram starts with a proto byte that selects the packet
//! family; a Kad payload starts with an opcode byte. Every decoded wire
//! structure is a view over the bytes of the datagram, validated at
//! construction so that field accessors cannot fail.

use std::io::Read;
use vstd::bytes::*;
use vstd::prelude::*;
use vstd::slice::*;

verus! {

/// Errors raised while decoding a datagram. Every length check that
/// fails names how many bytes were needed and how many were present.
#[derive(Clone, Copy, Debug, PartialEq, Eq, Structural)]
pub enum Error {
    /// The zlib stream of a packed packet did not inflate.
    KadPackedDecompress,
    /// A tag's typed content did not fit the buffer.
    TagSizeMismatchContent { need: usize, have: usize },
    /// The contact block of a bootstrap response was not exactly
    /// `num_contacts` fixed-size records.
    BootstrapRespContactsSizeMismatch { need: usize, have: usize },
    /// A string tag's length prefix did not fit the buffer.
    TagSizeMismatchForString { need: usize, have: usize },
    /// The tag type byte is not a decodable tag type.
    TagInvalid { value: u8 },
    /// A tag's name did not fit the buffer.
    TagSizeMismatchName { have: usize, need: usize, name_len: usize },
    /// A tag's fixed header did not fit the buffer.
    TagSizeMismatch { have: usize, need: usize },
    /// A tag list's count field did not fit the buffer.
    TagListTooShort { have: usize, need: usize },
    /// A fixed-size contact of a `Res` did not fit the buffer.
    ResContactSizeMismatch { have: usize, need: usize },
    /// A `Res` was not exactly its header plus its contacts.
    ResSizeMismatch { have: usize, need: usize },
    /// A `Req` was not exactly its fixed size.
    ReqSizeMismatch { have: usize, need: usize },
    /// A recognized proto byte that the crate does not decode.
    UnhandledUdpProto { udp_proto: UdpProto },
    /// A datagram with no bytes at all.
    PacketTooShort,
    /// An unrecognized proto byte (possibly an obfuscated packet).
    UnrecognizedUdpProto,
    /// A Kad payload with no opcode byte.
    KadPacketTooShort,
    /// A bootstrap response shorter than its fixed header.
    BootstrapRespTooShort { have: usize, need: usize },
    /// A `SearchRes` shorter than its fixed header, or whose results
    /// region does not parse.
    SearchResTooShort { have: usize, need: usize },
    /// An operation whose wire encoding this crate does not emit yet.
    OperationNotImplemented,
}

/// The first byte of an eMule/Kad UDP packet may be one of these, which
/// establishes the content of the packet. Any other first byte may be
/// an encrypted/obfuscated packet.
#[derive(Clone, Copy, Debug, PartialEq, Eq, Structural)]
pub enum UdpProto {
    Emule,
    /// Inflate `[2..]` and process as `KademliaHeader`; the opcode byte
    /// at `[1]` is carried over uncompressed.
    KademliaPacked,
    /// A Kad opcode follows; `Operation` represents the contents.
    KademliaHeader,
    UdpReserved1,
    UdpReserved2,
    Packed,
}

/// The proto byte of each packet family.
pub open spec fn spec_udp_proto_byte(p: UdpProto) -> u8 {
    match p {
        UdpProto::Emule => 0xC5,
        UdpProto::KademliaPacked => 0xE5,
        UdpProto::KademliaHeader => 0xE4,
        UdpProto::UdpReserved1 => 0xA3,
        UdpProto::UdpReserved2 => 0xB2,
        UdpProto::Packed => 0xD4,
    }
}

/// The packet family a first byte selects, if any.
pub open spec fn spec_udp_proto_from_u8(b: u8) -> Option<UdpProto> {
    if b == 0xC5 {
        Some(UdpProto::Emule)
    } else if b == 0xE5 {
        Some(UdpProto::KademliaPacked)
    } else if b == 0xE4 {
        Some(UdpProto::KademliaHeader)
    } else if b == 0xA3 {
        Some(UdpProto::UdpReserved1)
    } else if b == 0xB2 {
        Some(UdpProto::UdpReserved2)
    } else if b == 0xD4 {
        Some(UdpProto::Packed)
    } else {
        None
    }
}

/// Decode a proto byte.
pub fn udp_proto_from_u8(b: u8) -> (r: Option<UdpProto>)
    ensures
        r == spec_udp_proto_from_u8(b),
{
    match b {
        0xC5 => Some(UdpProto::Emule),
        0xE5 => Some(UdpProto::KademliaPacked),
        0xE4 => Some(UdpProto::KademliaHeader),
        0xA3 => Some(UdpProto::UdpReserved1),
        0xB2 => Some(UdpProto::UdpReserved2),
        0xD4 => Some(UdpProto::Packed),
        _ => None,
    }
}

/// Encode a packet family as its proto byte.
pub fn udp_proto_to_u8(p: UdpProto) -> (r: u8)
    ensures
        r == spec_udp_proto_byte(p),
{
    match p {
        UdpProto::Emule => 0xC5,
        UdpProto::KademliaPacked => 0xE5,
        UdpProto::KademliaHeader => 0xE4,
        UdpProto::UdpReserved1 => 0xA3,
        UdpProto::UdpReserved2 => 0xB2,
        UdpProto::Packed => 0xD4,
    }
}

/// A complete UDP packet as received over the network.
#[derive(Debug)]
pub struct Packet<'a> {
    raw: &'a [u8],
}

/// Key material for the obfuscation scheme. Decryption is not
/// implemented; the fields document what a future implementation needs.
#[derive(Debug)]
pub struct Keys<'a> {
    pub kad_id: &'a [u8],
    pub user_hash: &'a [u8],
    pub source_key: Option<&'a [u8]>,
}

impl<'a> Packet<'a> {
    /// The bytes of the datagram this packet views.
    pub closed spec fn view(&self) -> Seq<u8> {
        self.raw@
    }

    /// Wrap a received datagram. Fails with `PacketTooShort` on an
    /// empty buffer; succeeds on any other.
    pub fn from_slice(raw: &'a [u8]) -> (r: Result<Self, Error>)
        ensures
            match r {
                Ok(p) => raw@.len() >= 1 && p@ == raw@,
                Err(e) => raw@.len() == 0 && e == Error::PacketTooShort,
            },
    {
        if raw.len() < 1 {
            return Err(Error::PacketTooShort);
        }
        Ok(Packet { raw })
    }

    /// The packet family selected by the first byte, if recognized.
    pub fn udp_proto(&self) -> (r: Option<UdpProto>)
        requires
            self@.len() >= 1,
        ensures
            r == spec_udp_proto_from_u8(self@[0]),
    {
        udp_proto_from_u8(*slice_index_get(self.raw, 0))
    }

    /// Whether the packet is a zlib-packed Kad packet.
    pub fn is_packed(&self) -> (r: bool)
        requires
            self@.len() >= 1,
        ensures
            r == (spec_udp_proto_from_u8(self@[0]) == Some(UdpProto::KademliaPacked)),
    {
        if let Some(UdpProto::KademliaPacked) = self.udp_proto() {
            true
        } else {
            false
        }
    }

    /// The Kad payload of the packet.
    ///
    /// A `KademliaHeader` packet carries it in the clear after the proto
    /// byte. A `KademliaPacked` packet carries the opcode verbatim at
    /// `[1]` followed by a zlib stream, which is inflated here. Other
    /// recognized families are not decoded; an unrecognized first byte
    /// may be an obfuscated packet.
    pub fn kind(&self) -> (r: Result<Kind, Error>)
        requires
            self@.len() >= 1,
        ensures
            match r {
                Ok(k) => match k {
                    Kind::Kad(kp) => kp@.len() >= 1 && match spec_udp_proto_from_u8(self@[0]) {
                        Some(UdpProto::KademliaHeader) => kp@ == self@.subrange(
                            1,
                            self@.len() as int,
                        ),
                        Some(UdpProto::KademliaPacked) => self@.len() >= 2 && zlib_inflated(
                            self@.subrange(2, self@.len() as int),
                        ) == Some(kp@.subrange(1, kp@.len() as int)) && kp@[0] == self@[1],
                        _ => false,
                    },
                },
                Err(e) => match spec_udp_proto_from_u8(self@[0]) {
                    Some(UdpProto::KademliaHeader) => self@.len() == 1 && e
                        == Error::KadPacketTooShort,
                    Some(UdpProto::KademliaPacked) => if self@.len() < 2 {
                        e == Error::PacketTooShort
                    } else {
                        zlib_inflated(self@.subrange(2, self@.len() as int)) is None && e
                            == Error::KadPackedDecompress
                    },
                    Some(p) => e == (Error::UnhandledUdpProto { udp_proto: p }),
                    None => e == Error::UnrecognizedUdpProto,
                },
            },
    {
        match self.udp_proto() {
            Some(UdpProto::KademliaHeader) => {
                let payload = slice_subrange(self.raw, 1, self.raw.len());
                Ok(Kind::Kad(KadPacket::from_slice(payload)?))
            },
            Some(UdpProto::KademliaPacked) => {
                if self.raw.len() < 2 {
                    return Err(Error::PacketTooShort);
                }
                let packed = slice_subrange(self.raw, 2, self.raw.len());
                let inflated = match inflate_zlib(packed) {
                    Ok(v) => v,
                    Err(_) => {
                        return Err(Error::KadPackedDecompress);
                    },
                };
                let mut out: Vec<u8> = Vec::new();
                out.push(*slice_index_get(self.raw, 1));
                let mut inflated = inflated;
                out.append(&mut inflated);
                proof {
                    assert(out@.subrange(1, out@.len() as int) =~= zlib_inflated(
                        self@.subrange(2, self@.len() as int),
                    ).unwrap());
                }
                match KadPacket::from_vec(out) {
                    Ok(kp) => Ok(Kind::Kad(kp)),
                    Err(_) => {
                        proof {
                            assert(false);
                        }
                        Err(Error::KadPacketTooShort)
                    },
                }
            },
            None => Err(Error::UnrecognizedUdpProto),
            Some(udp_proto) => Err(Error::UnhandledUdpProto { udp_proto }),
        }
    }

    /// Remove the obfuscation of the packet in place.
    ///
    /// Obfuscated packets are RC4-encrypted under MD5-derived keys.
    /// Decryption is not implemented: a packet whose proto byte is
    /// recognized is returned unchanged, and any other packet is
    /// rejected as unrecognized.
    pub fn decrypt(&mut self, _keys: &Keys) -> (r: Result<(), Error>)
        requires
            old(self)@.len() >= 1,
        ensures
            final(self)@ == old(self)@,
            match r {
                Ok(()) => spec_udp_proto_from_u8(old(self)@[0]) is Some,
                Err(e) => spec_udp_proto_from_u8(old(self)@[0]) is None && e
                    == Error::UnrecognizedUdpProto,
            },
    {
        match self.udp_proto() {
            None => Err(Error::UnrecognizedUdpProto),
            Some(_v) => Ok(()),
        }
    }
}

/// The content of a packet, by packet family. Only Kad packets are
/// decoded.
#[derive(Debug)]
pub enum Kind {
    Kad(KadPacket),
}

/// What `flate2` inflates a zlib stream to: a pure function of the
/// input bytes, `None` when the stream is invalid.
pub uninterp spec fn zlib_inflated(s: Seq<u8>) -> Option<Seq<u8>>;

/// Relies on `flate2::bufread::ZlibDecoder`: inflating a byte slice is
/// deterministic, yielding the decoded stream or an error for an
/// invalid stream.
#[verifier::external_body]
fn inflate_zlib(s: &[u8]) -> (r: Result<Vec<u8>, ()>)
    ensures
        match r {
            Ok(v) => zlib_inflated(s@) == Some(v@),
            Err(()) => zlib_inflated(s@) is None,
        },
{
    let mut z = flate2::bufread::ZlibDecoder::new(s);
    let mut out = Vec::new();
    match z.read_to_end(&mut out) {
        Ok(_) => Ok(out),
        Err(_) => Err(()),
    }
}

/// If `UdpProto::KademliaHeader` selects the packet, this is the next
/// byte.
#[derive(Clone, Copy, Debug, PartialEq, Eq, PartialOrd, Ord, Structural)]
pub enum KadOpCode {
    BootstrapReqV0,
    BootstrapReq,
    BootstrapResV0,
    BootstrapResp,
    HelloReqV0,
    HelloReq,
    HelloResV0,
    HelloRes,
    ReqV0,
    Req,
    HelloResAck,
    ResV0,
    Res,
    SearchReqV1,
    SearchNotesReqV1,
    SearchKeyReq,
    SearchSourceReq,
    SearchNotesReq,
    SearchResV1,
    SearchNotesResV1,
    SearchRes,
    PublishReqV1,
    PublishNotesReqV0,
    PublishKeyReq,
    PublishSourceReq,
    PublishNotesReq,
    PublishResV1,
    PublishNotesResV0,
    PublishRes,
    PublishResAck,
    FirewalledReqV1,
    FindBuddyReqV1,
    CallbackReqV1,
    Firewalled2ReqV1,
    FirewalledResV1,
    FirewalledAckResV1,
    FindBuddyResV1,
    Ping,
    Pong,
    FirewallUdp,
}

/// The wire byte of each Kad opcode.
pub open spec fn spec_kad_opcode_byte(op: KadOpCode) -> u8 {
    match op {
        KadOpCode::BootstrapReqV0 => 0x00,
        KadOpCode::BootstrapReq => 0x01,
        KadOpCode::BootstrapResV0 => 0x08,
        KadOpCode::BootstrapResp => 0x09,
        KadOpCode::HelloReqV0 => 0x10,
        KadOpCode::HelloReq => 0x11,
        KadOpCode::HelloResV0 => 0x18,
        KadOpCode::HelloRes => 0x19,
        KadOpCode::ReqV0 => 0x20,
        KadOpCode::Req => 0x21,
        KadOpCode::HelloResAck => 0x22,
        KadOpCode::ResV0 => 0x28,
        KadOpCode::Res => 0x29,
        KadOpCode::SearchReqV1 => 0x30,
        KadOpCode::SearchNotesReqV1 => 0x32,
        KadOpCode::SearchKeyReq => 0x33,
        KadOpCode::SearchSourceReq => 0x34,
        KadOpCode::SearchNotesReq => 0x35,
        KadOpCode::SearchResV1 => 0x38,
        KadOpCode::SearchNotesResV1 => 0x3A,
        KadOpCode::SearchRes => 0x3B,
        KadOpCode::PublishReqV1 => 0x40,
        KadOpCode::PublishNotesReqV0 => 0x42,
        KadOpCode::PublishKeyReq => 0x43,
        KadOpCode::PublishSourceReq => 0x44,
        KadOpCode::PublishNotesReq => 0x45,
        KadOpCode::PublishResV1 => 0x48,
        KadOpCode::PublishNotesResV0 => 0x4A,
        KadOpCode::PublishRes => 0x4B,
        KadOpCode::PublishResAck => 0x4C,
        KadOpCode::FirewalledReqV1 => 0x50,
        KadOpCode::FindBuddyReqV1 => 0x51,
        KadOpCode::CallbackReqV1 => 0x52,
        KadOpCode::Firewalled2ReqV1 => 0x53,
        KadOpCode::FirewalledResV1 => 0x58,
        KadOpCode::FirewalledAckResV1 => 0x59,
        KadOpCode::FindBuddyResV1 => 0x5A,
        KadOpCode::Ping => 0x60,
        KadOpCode::Pong => 0x61,
        KadOpCode::FirewallUdp => 0x62,
    }
}

/// The Kad opcode a byte selects, if any.
pub open spec fn spec_kad_opcode_from_u8(b: u8) -> Option<KadOpCode> {
    if b == 0x00 {
        Some(KadOpCode::BootstrapReqV0)
    } else if b == 0x01 {
        Some(KadOpCode::BootstrapReq)
    } else if b == 0x08 {
        Some(KadOpCode::BootstrapResV0)
    } else if b == 0x09 {
        Some(KadOpCode::BootstrapResp)
    } else if b == 0x10 {
        Some(KadOpCode::HelloReqV0)
    } else if b == 0x11 {
        Some(KadOpCode::HelloReq)
    } else if b == 0x18 {
        Some(KadOpCode::HelloResV0)
    } else if b == 0x19 {
        Some(KadOpCode::HelloRes)
    } else if b == 0x20 {
        Some(KadOpCode::ReqV0)
    } else if b == 0x21 {
        Some(KadOpCode::Req)
    } else if b == 0x22 {
        Some(KadOpCode::HelloResAck)
    } else if b == 0x28 {
        Some(KadOpCode::ResV0)
    } else if b == 0x29 {
        Some(KadOpCode::Res)
    } else if b == 0x30 {
        Some(KadOpCode::SearchReqV1)
    } else if b == 0x32 {
        Some(KadOpCode::SearchNotesReqV1)
    } else if b == 0x33 {
        Some(KadOpCode::SearchKeyReq)
    } else if b == 0x34 {
        Some(KadOpCode::SearchSourceReq)
    } else if b == 0x35 {
        Some(KadOpCode::SearchNotesReq)
    } else if b == 0x38 {
        Some(KadOpCode::SearchResV1)
    } else if b == 0x3A {
        Some(KadOpCode::SearchNotesResV1)
    } else if b == 0x3B {
        Some(KadOpCode::SearchRes)
    } else if b == 0x40 {
        Some(KadOpCode::PublishReqV1)
    } else if b == 0x42 {
        Some(KadOpCode::PublishNotesReqV0)
    } else if b == 0x43 {
        Some(KadOpCode::PublishKeyReq)
    } else if b == 0x44 {
        Some(KadOpCode::PublishSourceReq)
    } else if b == 0x45 {
        Some(KadOpCode::PublishNotesReq)
    } else if b == 0x48 {
        Some(KadOpCode::PublishResV1)
    } else if b == 0x4A {
        Some(KadOpCode::PublishNotesResV0)
    } else if b == 0x4B {
        Some(KadOpCode::PublishRes)
    } else if b == 0x4C {
        Some(KadOpCode::PublishResAck)
    } else if b == 0x50 {
        Some(KadOpCode::FirewalledReqV1)
    } else if b == 0x51 {
        Some(KadOpCode::FindBuddyReqV1)
    } else if b == 0x52 {
        Some(KadOpCode::CallbackReqV1)
    } else if b == 0x53 {
        Some(KadOpCode::Firewalled2ReqV1)
    } else if b == 0x58 {
        Some(KadOpCode::FirewalledResV1)
    } else if b == 0x59 {
        Some(KadOpCode::FirewalledAckResV1)
    } else if b == 0x5A {
        Some(KadOpCode::FindBuddyResV1)
    } else if b == 0x60 {
        Some(KadOpCode::Ping)
    } else if b == 0x61 {
        Some(KadOpCode::Pong)
    } else if b == 0x62 {
        Some(KadOpCode::FirewallUdp)
    } else {
        None
    }
}

/// Decode a Kad opcode byte.
pub fn kad_opcode_from_u8(b: u8) -> (r: Option<KadOpCode>)
    ensures
        r == spec_kad_opcode_from_u8(b),
{
    match b {
        0x00 => Some(KadOpCode::BootstrapReqV0),
        0x01 => Some(KadOpCode::BootstrapReq),
        0x08 => Some(KadOpCode::BootstrapResV0),
        0x09 => Some(KadOpCode::BootstrapResp),
        0x10 => Some(KadOpCode::HelloReqV0),
        0x11 => Some(KadOpCode::HelloReq),
        0x18 => Some(KadOpCode::HelloResV0),
        0x19 => Some(KadOpCode::HelloRes),
        0x20 => Some(KadOpCode::ReqV0),
        0x21 => Some(KadOpCode::Req),
        0x22 => Some(KadOpCode::HelloResAck),
        0x28 => Some(KadOpCode::ResV0),
        0x29 => Some(KadOpCode::Res),
        0x30 => Some(KadOpCode::SearchReqV1),
        0x32 => Some(KadOpCode::SearchNotesReqV1),
        0x33 => Some(KadOpCode::SearchKeyReq),
        0x34 => Some(KadOpCode::SearchSourceReq),
        0x35 => Some(KadOpCode::SearchNotesReq),
        0x38 => Some(KadOpCode::SearchResV1),
        0x3A => Some(KadOpCode::SearchNotesResV1),
        0x3B => Some(KadOpCode::SearchRes),
        0x40 => Some(KadOpCode::PublishReqV1),
        0x42 => Some(KadOpCode::PublishNotesReqV0),
        0x43 => Some(KadOpCode::PublishKeyReq),
        0x44 => Some(KadOpCode::PublishSourceReq),
        0x45 => Some(KadOpCode::PublishNotesReq),
        0x48 => Some(KadOpCode::PublishResV1),
        0x4A => Some(KadOpCode::PublishNotesResV0),
        0x4B => Some(KadOpCode::PublishRes),
        0x4C => Some(KadOpCode::PublishResAck),
        0x50 => Some(KadOpCode::FirewalledReqV1),
        0x51 => Some(KadOpCode::FindBuddyReqV1),
        0x52 => Some(KadOpCode::CallbackReqV1),
        0x53 => Some(KadOpCode::Firewalled2ReqV1),
        0x58 => Some(KadOpCode::FirewalledResV1),
        0x59 => Some(KadOpCode::FirewalledAckResV1),
        0x5A => Some(KadOpCode::FindBuddyResV1),
        0x60 => Some(KadOpCode::Ping),
        0x61 => Some(KadOpCode::Pong),
        0x62 => Some(KadOpCode::FirewallUdp),
        _ => None,
    }
}

/// Encode a Kad opcode as its wire byte.
pub fn kad_opcode_to_u8(op: KadOpCode) -> (r: u8)
    ensures
        r == spec_kad_opcode_byte(op),
{
    match op {
        KadOpCode::BootstrapReqV0 => 0x00,
        KadOpCode::BootstrapReq => 0x01,
        KadOpCode::BootstrapResV0 => 0x08,
        KadOpCode::BootstrapResp => 0x09,
        KadOpCode::HelloReqV0 => 0x10,
        KadOpCode::HelloReq => 0x11,
        KadOpCode::HelloResV0 => 0x18,
        KadOpCode::HelloRes => 0x19,
        KadOpCode::ReqV0 => 0x20,
        KadOpCode::Req => 0x21,
        KadOpCode::HelloResAck => 0x22,
        KadOpCode::ResV0 => 0x28,
        KadOpCode::Res => 0x29,
        KadOpCode::SearchReqV1 => 0x30,
        KadOpCode::SearchNotesReqV1 => 0x32,
        KadOpCode::SearchKeyReq => 0x33,
        KadOpCode::SearchSourceReq => 0x34,
        KadOpCode::SearchNotesReq => 0x35,
        KadOpCode::SearchResV1 => 0x38,
        KadOpCode::SearchNotesResV1 => 0x3A,
        KadOpCode::SearchRes => 0x3B,
        KadOpCode::PublishReqV1 => 0x40,
        KadOpCode::PublishNotesReqV0 => 0x42,
        KadOpCode::PublishKeyReq => 0x43,
        KadOpCode::PublishSourceReq => 0x44,
        KadOpCode::PublishNotesReq => 0x45,
        KadOpCode::PublishResV1 => 0x48,
        KadOpCode::PublishNotesResV0 => 0x4A,
        KadOpCode::PublishRes => 0x4B,
        KadOpCode::PublishResAck => 0x4C,
        KadOpCode::FirewalledReqV1 => 0x50,
        KadOpCode::FindBuddyReqV1 => 0x51,
        KadOpCode::CallbackReqV1 => 0x52,
        KadOpCode::Firewalled2ReqV1 => 0x53,
        KadOpCode::FirewalledResV1 => 0x58,
        KadOpCode::FirewalledAckResV1 => 0x59,
        KadOpCode::FindBuddyResV1 => 0x5A,
        KadOpCode::Ping => 0x60,
        KadOpCode::Pong => 0x61,
        KadOpCode::FirewallUdp => 0x62,
    }
}

/// If `UdpProto::Emule` selects the packet, this is the next byte.
#[derive(Clone, Copy, Debug, PartialEq, Eq, PartialOrd, Ord, Structural)]
pub enum EmuleOpCode {
    ReAskCallBackUdp,
}

/// The eMule opcode a byte selects, if any.
pub open spec fn spec_emule_opcode_from_u8(b: u8) -> Option<EmuleOpCode> {
    if b == 0x00 {
        Some(EmuleOpCode::ReAskCallBackUdp)
    } else {
        None
    }
}

/// Decode an eMule opcode byte.
pub fn emule_opcode_from_u8(b: u8) -> (r: Option<EmuleOpCode>)
    ensures
        r == spec_emule_opcode_from_u8(b),
{
    match b {
        0x00 => Some(EmuleOpCode::ReAskCallBackUdp),
        _ => None,
    }
}

/// A Kad payload: the opcode byte followed by the operation's data.
/// Owns its bytes, since a packed packet's payload is inflated into a
/// fresh buffer.
#[derive(Debug)]
pub struct KadPacket {
    raw: Vec<u8>,
}

impl KadPacket {
    /// The bytes of the payload, opcode byte first.
    pub closed spec fn view(&self) -> Seq<u8> {
        self.raw@
    }

    /// Wrap an owned Kad payload. Fails with `KadPacketTooShort` on an
    /// empty buffer.
    pub fn from_vec(raw: Vec<u8>) -> (r: Result<Self, Error>)
        ensures
            match r {
                Ok(p) => raw@.len() >= 1 && p@ == raw@,
                Err(e) => raw@.len() == 0 && e == Error::KadPacketTooShort,
            },
    {
        if raw.len() < 1 {
            return Err(Error::KadPacketTooShort);
        }
        Ok(KadPacket { raw })
    }

    /// Wrap a borrowed Kad payload, copying it. Fails with
    /// `KadPacketTooShort` on an empty buffer.
    pub fn from_slice(raw: &[u8]) -> (r: Result<Self, Error>)
        ensures
            match r {
                Ok(p) => raw@.len() >= 1 && p@ == raw@,
                Err(e) => raw@.len() == 0 && e == Error::KadPacketTooShort,
            },
    {
        if raw.len() < 1 {
            return Err(Error::KadPacketTooShort);
        }
        Ok(KadPacket { raw: slice_to_vec(raw) })
    }

    /// The Kad opcode selected by the first payload byte, if recognized.
    pub fn opcode(&self) -> (r: Option<KadOpCode>)
        requires
            self@.len() >= 1,
        ensures
            r == spec_kad_opcode_from_u8(self@[0]),
    {
        kad_opcode_from_u8(*slice_index_get(self.raw.as_slice(), 0))
    }
}

/// A response providing the responder's identity and a number of
/// arbitrary contacts.
///
/// Layout: `client_id(u128_le) | client_port(u16_le) |
/// client_version(u8) | num_contacts(u16_le) | contacts`, each contact
/// a fixed 25 bytes. Construction checks only the fixed header; the
/// contact block is validated by `contacts`.
#[derive(Debug)]
pub struct BootstrapResp<'a> {
    raw: &'a [u8],
}

/// The fixed header size of a bootstrap response.
pub const BOOTSTRAP_RESP_HEADER: usize = 21;

/// The fixed size of one wire contact record.
pub const CONTACT_SIZE: usize = 25;

impl<'a> BootstrapResp<'a> {
    /// The bytes of the response this view covers.
    pub closed spec fn view(&self) -> Seq<u8> {
        self.raw@
    }

    /// Wrap a bootstrap response payload. Fails with
    /// `BootstrapRespTooShort` when the fixed header does not fit.
    pub fn from_slice(raw: &'a [u8]) -> (r: Result<Self, Error>)
        ensures
            match r {
                Ok(b) => raw@.len() >= BOOTSTRAP_RESP_HEADER && b@ == raw@,
                Err(e) => raw@.len() < BOOTSTRAP_RESP_HEADER && e == (
                Error::BootstrapRespTooShort { have: raw@.len() as usize, need: 21 }),
            },
    {
        let need = 16 + 2 + 1 + 2;
        if raw.len() < need {
            return Err(Error::BootstrapRespTooShort { have: raw.len(), need });
        }
        Ok(BootstrapResp { raw })
    }

    /// Kad ID of the client that sent this bootstrap response.
    pub fn client_id(&self) -> (r: u128)
        requires
            self@.len() >= BOOTSTRAP_RESP_HEADER,
        ensures
            r == spec_u128_from_le_bytes(self@.subrange(0, 16)),
    {
        crate::bytes::read_u128_le(self.raw, 0)
    }

    /// Configured UDP port of the client that sent this response.
    pub fn client_port(&self) -> (r: u16)
        requires
            self@.len() >= BOOTSTRAP_RESP_HEADER,
        ensures
            r == spec_u16_from_le_bytes(self@.subrange(16, 18)),
    {
        crate::bytes::read_u16_le(self.raw, 16)
    }

    /// Protocol version of the client that sent this response.
    pub fn client_version(&self) -> (r: u8)
        requires
            self@.len() >= BOOTSTRAP_RESP_HEADER,
        ensures
            r == self@[18],
    {
        crate::bytes::read_u8(self.raw, 16 + 2)
    }

    /// How many contacts the response declares.
    pub fn num_contacts(&self) -> (r: u16)
        requires
            self@.len() >= BOOTSTRAP_RESP_HEADER,
        ensures
            r == spec_u16_from_le_bytes(self@.subrange(19, 21)),
    {
        crate::bytes::read_u16_le(self.raw, 16 + 2 + 1)
    }

    /// The declared contacts. Fails with
    /// `BootstrapRespContactsSizeMismatch` unless the contact block is
    /// exactly `num_contacts` fixed-size records.
    pub fn contacts(&self) -> (r: Result<BootstrapRespContacts<'a>, Error>)
        requires
            self@.len() >= BOOTSTRAP_RESP_HEADER,
        ensures
            match r {
                Ok(c) => c@ == self@.subrange(21, self@.len() as int) && c@.len() == 25
                    * spec_u16_from_le_bytes(self@.subrange(19, 21)),
                Err(e) => self@.len() - 21 != 25 * spec_u16_from_le_bytes(self@.subrange(19, 21))
                    && e == (Error::BootstrapRespContactsSizeMismatch {
                    need: (25 * spec_u16_from_le_bytes(self@.subrange(19, 21))) as usize,
                    have: (self@.len() - 21) as usize,
                }),
            },
    {
        let rest = slice_subrange(self.raw, 16 + 2 + 1 + 2, self.raw.len());
        BootstrapRespContacts::from_slice(self.num_contacts(), rest)
    }
}

/// The contact block of a bootstrap response: a run of fixed-size
/// contact records, consumed front to back.
#[derive(Debug)]
pub struct BootstrapRespContacts<'a> {
    raw: &'a [u8],
}

impl<'a> BootstrapRespContacts<'a> {
    /// The bytes not yet consumed.
    pub closed spec fn view(&self) -> Seq<u8> {
        self.raw@
    }

    /// Wrap a contact block declared to hold `num` contacts. Fails with
    /// `BootstrapRespContactsSizeMismatch` unless the block is exactly
    /// `num` records long.
    pub fn from_slice(num: u16, raw: &'a [u8]) -> (r: Result<Self, Error>)
        ensures
            match r {
                Ok(c) => raw@.len() == 25 * num && c@ == raw@,
                Err(e) => raw@.len() != 25 * num && e == (
                Error::BootstrapRespContactsSizeMismatch {
                    need: (25 * num) as usize,
                    have: raw@.len() as usize,
                }),
            },
    {
        let each_size: usize = 16 + 4 + 2 + 2 + 1;
        let need_size = each_size * (num as usize);
        if raw.len() != need_size {
            return Err(Error::BootstrapRespContactsSizeMismatch {
                need: need_size,
                have: raw.len(),
            });
        }
        Ok(BootstrapRespContacts { raw })
    }

    /// How many whole records remain.
    pub fn remaining(&self) -> (r: usize)
        requires
            self@.len() % 25 == 0,
        ensures
            r == self@.len() / 25,
    {
        self.raw.len() / 25
    }

    /// Take the next contact record off the front, or `None` when the
    /// block is exhausted.
    pub fn next(&mut self) -> (r: Option<BootstrapRespContact<'a>>)
        requires
            old(self)@.len() % 25 == 0,
        ensures
            match r {
                Some(c) => old(self)@.len() >= 25 && c@ == old(self)@.subrange(0, 25)
                    && final(self)@ == old(self)@.subrange(25, old(self)@.len() as int)
                    && final(self)@.len() % 25 == 0,
                None => old(self)@.len() == 0 && final(self)@ == old(self)@,
            },
    {
        if self.raw.len() > 0 {
            let (c, rem) = BootstrapRespContact::from_slice(self.raw);
            self.raw = rem;
            Some(c)
        } else {
            None
        }
    }

    /// All remaining contacts, in wire order.
    pub fn contact_vec(&self) -> (r: Vec<BootstrapRespContact<'a>>)
        requires
            self@.len() % 25 == 0,
        ensures
            r@.len() == self@.len() / 25,
            forall|i: int|
                0 <= i < r@.len() ==> #[trigger] r@[i]@ == self@.subrange(25 * i, 25 * i + 25),
    {
        let mut rest = BootstrapRespContacts { raw: self.raw };
        let mut out: Vec<BootstrapRespContact<'a>> = Vec::new();
        while rest.raw.len() >= 25
            invariant
                rest@.len() % 25 == 0,
                out@.len() * 25 + rest@.len() == self@.len(),
                rest@ == self@.subrange(25 * out@.len() as int, self@.len() as int),
                forall|i: int|
                    0 <= i < out@.len() ==> #[trigger] out@[i]@ == self@.subrange(
                        25 * i,
                        25 * i + 25,
                    ),
            decreases rest@.len(),
        {
            let ghost done = out@.len() as int;
            match rest.next() {
                Some(c) => {
                    proof {
                        assert(c@ =~= self@.subrange(25 * done, 25 * done + 25));
                        assert(rest@ =~= self@.subrange(25 * (done + 1), self@.len() as int));
                    }
                    out.push(c);
                },
                None => {
                    proof {
                        assert(false);
                    }
                },
            }
        }
        proof {
            assert(rest@.len() == 0);
            assert(out@.len() * 25 == self@.len());
            assert(out@.len() == self@.len() / 25);
        }
        out
    }
}

/// One fixed-size wire contact: `client_id(u128_le) | ipv4(u32_le) |
/// udp_port(u16_le) | tcp_port(u16_le) | version(u8)`.
#[derive(Debug)]
pub struct BootstrapRespContact<'a> {
    raw: &'a [u8],
}

impl<'a> BootstrapRespContact<'a> {
    /// The 25 bytes of the record.
    pub closed spec fn view(&self) -> Seq<u8> {
        self.raw@
    }

    /// Split the first contact record off `raw`.
    pub fn from_slice(raw: &'a [u8]) -> (r: (Self, &'a [u8]))
        requires
            raw@.len() >= 25,
        ensures
            r.0@ == raw@.subrange(0, 25),
            r.1@ == raw@.subrange(25, raw@.len() as int),
    {
        let n = 16 + 4 + 2 + 2 + 1;
        let head = slice_subrange(raw, 0, n);
        let rem = slice_subrange(raw, n, raw.len());
        (BootstrapRespContact { raw: head }, rem)
    }

    /// Kad ID of the contact.
    pub fn client_id(&self) -> (r: u128)
        requires
            self@.len() == 25,
        ensures
            r == spec_u128_from_le_bytes(self@.subrange(0, 16)),
    {
        crate::bytes::read_u128_le(self.raw, 0)
    }

    /// IPv4 address of the contact, as the little-endian dword on the
    /// wire.
    pub fn raw_ip_addr(&self) -> (r: u32)
        requires
            self@.len() == 25,
        ensures
            r == spec_u32_from_le_bytes(self@.subrange(16, 20)),
    {
        crate::bytes::read_u32_le(self.raw, 16)
    }

    /// UDP port of the contact.
    pub fn udp_port(&self) -> (r: u16)
        requires
            self@.len() == 25,
        ensures
            r == spec_u16_from_le_bytes(self@.subrange(20, 22)),
    {
        crate::bytes::read_u16_le(self.raw, 16 + 4)
    }

    /// TCP port of the contact.
    pub fn tcp_port(&self) -> (r: u16)
        requires
            self@.len() == 25,
        ensures
            r == spec_u16_from_le_bytes(self@.subrange(22, 24)),
    {
        crate::bytes::read_u16_le(self.raw, 16 + 4 + 2)
    }

    /// Protocol version of the contact.
    pub fn version(&self) -> (r: u8)
        requires
            self@.len() == 25,
        ensures
            r == self@[24],
    {
        crate::bytes::read_u8(self.raw, 16 + 4 + 2 + 2)
    }
}

/// Every well-formed contact block yields exactly the declared number
/// of contacts: a block validated against `num` records is consumed in
/// records of 25 bytes, so exactly `num` remain at the start.
pub proof fn lemma_bootstrap_contacts_yield_num(block: Seq<u8>, num: u16)
    requires
        block.len() == 25 * num,
    ensures
        block.len() % 25 == 0,
        block.len() / 25 == num,
{
}

/// A request for the nodes nearby a given node ID.
///
/// Layout: `type(u8) | target(u128_le) | check(u128_le)`, exactly 33
/// bytes.
#[derive(Clone, Debug)]
pub struct Req<'a> {
    raw: &'a [u8],
}

impl<'a> Req<'a> {
    /// The 33 bytes of the request.
    pub closed spec fn view(&self) -> Seq<u8> {
        self.raw@
    }

    /// Wrap a request payload. Fails with `ReqSizeMismatch` unless the
    /// payload is exactly the fixed size.
    pub fn from_slice(raw: &'a [u8]) -> (r: Result<Self, Error>)
        ensures
            match r {
                Ok(q) => raw@.len() == 33 && q@ == raw@,
                Err(e) => raw@.len() != 33 && e == (Error::ReqSizeMismatch {
                    have: raw@.len() as usize,
                    need: 33,
                }),
            },
    {
        let need = 1 + 16 + 16;
        if raw.len() != need {
            return Err(Error::ReqSizeMismatch { have: raw.len(), need });
        }
        Ok(Req { raw })
    }

    /// The request type.
    pub fn type_(&self) -> (r: u8)
        requires
            self@.len() == 33,
        ensures
            r == self@[0],
    {
        crate::bytes::read_u8(self.raw, 0)
    }

    /// The node ID being searched for.
    pub fn target(&self) -> (r: u128)
        requires
            self@.len() == 33,
        ensures
            r == spec_u128_from_le_bytes(self@.subrange(1, 17)),
    {
        crate::bytes::read_u128_le(self.raw, 1)
    }

    /// The receiver only processes the request if this matches its own
    /// node ID.
    pub fn check(&self) -> (r: u128)
        requires
            self@.len() == 33,
        ensures
            r == spec_u128_from_le_bytes(self@.subrange(17, 33)),
    {
        crate::bytes::read_u128_le(self.raw, 17)
    }
}

/// A response to a `Req`.
///
/// Layout: `target(u128_le) | num_contacts(u8) | contacts`, each
/// contact a fixed 25 bytes. Construction validates the whole buffer,
/// so iterating the contacts cannot fail.
#[derive(Clone, Debug)]
pub struct Res<'a> {
    raw: &'a [u8],
}

impl<'a> Res<'a> {
    /// The bytes of the response.
    pub closed spec fn view(&self) -> Seq<u8> {
        self.raw@
    }

    /// Wrap a response payload. Fails with `ResSizeMismatch` unless the
    /// payload is exactly its header plus the declared contact records.
    pub fn from_slice(raw: &'a [u8]) -> (r: Result<Self, Error>)
        ensures
            match r {
                Ok(v) => raw@.len() == 17 + 25 * raw@[16] && v@ == raw@,
                Err(e) => if raw@.len() < 17 {
                    e == (Error::ResSizeMismatch { have: raw@.len() as usize, need: 17 })
                } else {
                    raw@.len() != 17 + 25 * raw@[16] && e == (Error::ResSizeMismatch {
                        have: raw@.len() as usize,
                        need: (17 + 25 * raw@[16]) as usize,
                    })
                },
            },
    {
        if raw.len() < 17 {
            return Err(Error::ResSizeMismatch { have: raw.len(), need: 17 });
        }
        let num = crate::bytes::read_u8(raw, 16);
        let need = 17 + 25 * (num as usize);
        if raw.len() != need {
            return Err(Error::ResSizeMismatch { have: raw.len(), need });
        }
        Ok(Res { raw })
    }

    /// The node ID the original request searched for.
    pub fn target(&self) -> (r: u128)
        requires
            self@.len() >= 17,
        ensures
            r == spec_u128_from_le_bytes(self@.subrange(0, 16)),
    {
        crate::bytes::read_u128_le(self.raw, 0)
    }

    /// How many contacts the response declares.
    pub fn num_contacts(&self) -> (r: u8)
        requires
            self@.len() >= 17,
        ensures
            r == self@[16],
    {
        crate::bytes::read_u8(self.raw, 16)
    }

    /// The contact records, validated at construction.
    pub fn contacts(&self) -> (r: ResContacts<'a>)
        requires
            self@.len() == 17 + 25 * self@[16],
        ensures
            r@ == self@.subrange(17, self@.len() as int),
            r@.len() == 25 * self@[16],
            r@.len() % 25 == 0,
    {
        ResContacts::from_slice(slice_subrange(self.raw, 17, self.raw.len()))
    }
}

/// The contact block of a `Res`: a run of fixed-size contact records,
/// consumed front to back.
#[derive(Clone, Debug)]
pub struct ResContacts<'a> {
    raw: &'a [u8],
}

impl<'a> ResContacts<'a> {
    /// The bytes not yet consumed.
    pub closed spec fn view(&self) -> Seq<u8> {
        self.raw@
    }

    /// Wrap a contact block.
    pub fn from_slice(raw: &'a [u8]) -> (r: Self)
        ensures
            r@ == raw@,
    {
        ResContacts { raw }
    }

    /// How many whole records remain.
    pub fn remaining(&self) -> (r: usize)
        requires
            self@.len() % 25 == 0,
        ensures
            r == self@.len() / 25,
    {
        self.raw.len() / 25
    }

    /// Take the next contact record off the front, or `None` when the
    /// block is exhausted.
    pub fn next(&mut self) -> (r: Option<ResContact<'a>>)
        requires
            old(self)@.len() % 25 == 0,
        ensures
            match r {
                Some(c) => old(self)@.len() >= 25 && c@ == old(self)@.subrange(0, 25)
                    && final(self)@ == old(self)@.subrange(25, old(self)@.len() as int)
                    && final(self)@.len() % 25 == 0,
                None => old(self)@.len() == 0 && final(self)@ == old(self)@,
            },
    {
        if self.raw.len() == 0 {
            return None;
        }
        match ResContact::from_slice(self.raw) {
            Ok((c, rem)) => {
                self.raw = rem;
                Some(c)
            },
            Err(_) => {
                proof {
                    assert(false);
                }
                None
            },
        }
    }
}

/// One fixed-size contact of a `Res`; same layout as a bootstrap
/// response contact.
#[derive(Clone, Debug)]
pub struct ResContact<'a> {
    raw: &'a [u8],
}

impl<'a> ResContact<'a> {
    /// The 25 bytes of the record.
    pub closed spec fn view(&self) -> Seq<u8> {
        self.raw@
    }

    /// Split the first contact record off `raw`. Fails with
    /// `ResContactSizeMismatch` when fewer than 25 bytes remain.
    pub fn from_slice(raw: &'a [u8]) -> (r: Result<(Self, &'a [u8]), Error>)
        ensures
            match r {
                Ok((c, rem)) => raw@.len() >= 25 && c@ == raw@.subrange(0, 25) && rem@
                    == raw@.subrange(25, raw@.len() as int),
                Err(e) => raw@.len() < 25 && e == (Error::ResContactSizeMismatch {
                    have: raw@.len() as usize,
                    need: 25,
                }),
            },
    {
        let need = 16 + 4 + 2 + 2 + 1;
        if raw.len() < need {
            return Err(Error::ResContactSizeMismatch { have: raw.len(), need });
        }
        let head = slice_subrange(raw, 0, need);
        let rem = slice_subrange(raw, need, raw.len());
        Ok((ResContact { raw: head }, rem))
    }

    /// Kad ID of the contact.
    pub fn client_id(&self) -> (r: u128)
        requires
            self@.len() == 25,
        ensures
            r == spec_u128_from_le_bytes(self@.subrange(0, 16)),
    {
        crate::bytes::read_u128_le(self.raw, 0)
    }

    /// IPv4 address of the contact, as the little-endian dword on the
    /// wire.
    pub fn raw_ip_addr(&self) -> (r: u32)
        requires
            self@.len() == 25,
        ensures
            r == spec_u32_from_le_bytes(self@.subrange(16, 20)),
    {
        crate::bytes::read_u32_le(self.raw, 16)
    }

    /// UDP port of the contact.
    pub fn udp_port(&self) -> (r: u16)
        requires
            self@.len() == 25,
        ensures
            r == spec_u16_from_le_bytes(self@.subrange(20, 22)),
    {
        crate::bytes::read_u16_le(self.raw, 16 + 4)
    }

    /// TCP port of the contact.
    pub fn tcp_port(&self) -> (r: u16)
        requires
            self@.len() == 25,
        ensures
            r == spec_u16_from_le_bytes(self@.subrange(22, 24)),
    {
        crate::bytes::read_u16_le(self.raw, 16 + 4 + 2)
    }

    /// Protocol version of the contact.
    pub fn version(&self) -> (r: u8)
        requires
            self@.len() == 25,
        ensures
            r == self@[24],
    {
        crate::bytes::read_u8(self.raw, 16 + 4 + 2 + 2)
    }
}

/// The type byte of a tag, which determines the size and meaning of
/// its value.
///
/// `Hash`, `String_` and the integer widths are decodable. `Bool`,
/// `BoolArray`, `Blob` and `Bsob` are recognized values of the byte,
/// but no size is defined for them here, so a tag carrying one is
/// rejected by `Tag::from_slice`.
#[derive(Clone, Copy, Debug, PartialEq, Eq, PartialOrd, Ord, Structural)]
pub enum TagType {
    Hash,
    String_,
    Uint32,
    Float32,
    Bool,
    BoolArray,
    Blob,
    Uint16,
    Uint8,
    Bsob,
    Uint64,
}

/// The tag type a byte selects, if any.
pub open spec fn spec_tag_type_from_u8(b: u8) -> Option<TagType> {
    if b == 0x01 {
        Some(TagType::Hash)
    } else if b == 0x02 {
        Some(TagType::String_)
    } else if b == 0x03 {
        Some(TagType::Uint32)
    } else if b == 0x04 {
        Some(TagType::Float32)
    } else if b == 0x05 {
        Some(TagType::Bool)
    } else if b == 0x06 {
        Some(TagType::BoolArray)
    } else if b == 0x07 {
        Some(TagType::Blob)
    } else if b == 0x08 {
        Some(TagType::Uint16)
    } else if b == 0x09 {
        Some(TagType::Uint8)
    } else if b == 0x0A {
        Some(TagType::Bsob)
    } else if b == 0x0B {
        Some(TagType::Uint64)
    } else {
        None
    }
}

/// Decode a tag type byte.
pub fn tag_type_from_u8(b: u8) -> (r: Option<TagType>)
    ensures
        r == spec_tag_type_from_u8(b),
{
    match b {
        0x01 => Some(TagType::Hash),
        0x02 => Some(TagType::String_),
        0x03 => Some(TagType::Uint32),
        0x04 => Some(TagType::Float32),
        0x05 => Some(TagType::Bool),
        0x06 => Some(TagType::BoolArray),
        0x07 => Some(TagType::Blob),
        0x08 => Some(TagType::Uint16),
        0x09 => Some(TagType::Uint8),
        0x0A => Some(TagType::Bsob),
        0x0B => Some(TagType::Uint64),
        _ => None,
    }
}

/// The fixed value size of a tag type, or `None` for `String_` (whose
/// value carries its own length prefix) and for the types with no
/// decodable size.
pub open spec fn spec_tag_fixed_content(t: TagType) -> Option<int> {
    match t {
        TagType::Hash => Some(16),
        TagType::Uint64 => Some(8),
        TagType::Uint32 => Some(4),
        TagType::Uint16 => Some(2),
        TagType::Uint8 => Some(1),
        TagType::Float32 => Some(4),
        TagType::String_ => None,
        TagType::Bool => None,
        TagType::BoolArray => None,
        TagType::Blob => None,
        TagType::Bsob => None,
    }
}

/// The name length field of a tag: the little-endian `u16` at `[1..3]`.
pub open spec fn spec_tag_name_len(s: Seq<u8>) -> int
    recommends
        s.len() >= 3,
{
    spec_u16_from_le_bytes(s.subrange(1, 3)) as int
}

/// What parsing one tag off the front of `s` yields: the total size of
/// the tag, or the exact error `Tag::from_slice` reports.
///
/// Layout: `type(u8) | name_len(u16_le) | name | value`, where the
/// value is `s_len(u16_le) | bytes` for a string tag and a fixed size
/// for the other decodable types.
pub open spec fn spec_tag_parse(s: Seq<u8>) -> Result<int, Error> {
    if s.len() < 3 {
        Err(Error::TagSizeMismatch { have: s.len() as usize, need: 3 })
    } else {
        let name_len = spec_tag_name_len(s);
        if s.len() < 3 + name_len {
            Err(
                Error::TagSizeMismatchName {
                    have: s.len() as usize,
                    need: (3 + name_len) as usize,
                    name_len: name_len as usize,
                },
            )
        } else {
            match spec_tag_type_from_u8(s[0]) {
                None => Err(Error::TagInvalid { value: s[0] }),
                Some(TagType::String_) => {
                    if s.len() < 3 + name_len + 2 {
                        Err(
                            Error::TagSizeMismatchForString {
                                need: (3 + name_len + 2) as usize,
                                have: s.len() as usize,
                            },
                        )
                    } else {
                        let s_len = spec_u16_from_le_bytes(
                            s.subrange(3 + name_len, 5 + name_len),
                        ) as int;
                        if s.len() < 5 + name_len + s_len {
                            Err(
                                Error::TagSizeMismatchContent {
                                    have: s.len() as usize,
                                    need: (5 + name_len + s_len) as usize,
                                },
                            )
                        } else {
                            Ok(5 + name_len + s_len)
                        }
                    }
                },
                Some(t) => match spec_tag_fixed_content(t) {
                    Some(content) => {
                        if s.len() < 3 + name_len + content {
                            Err(
                                Error::TagSizeMismatchContent {
                                    have: s.len() as usize,
                                    need: (3 + name_len + content) as usize,
                                },
                            )
                        } else {
                            Ok(3 + name_len + content)
                        }
                    },
                    None => Err(Error::TagInvalid { value: s[0] }),
                },
            }
        }
    }
}

/// Parsing a tag reads only the bytes of the tag itself: any buffer
/// that holds the same first `n` bytes parses to the same tag.
proof fn lemma_tag_parse_agrees(s1: Seq<u8>, s2: Seq<u8>, n: int)
    requires
        spec_tag_parse(s1) == Ok::<int, Error>(n),
        n <= s2.len(),
        forall|i: int| 0 <= i < n ==> #[trigger] s2[i] == s1[i],
    ensures
        spec_tag_parse(s2) == Ok::<int, Error>(n),
{
    assert(3 <= n && n <= s1.len());
    assert(s2.subrange(1, 3) =~= s1.subrange(1, 3));
    let name_len = spec_tag_name_len(s1);
    if spec_tag_type_from_u8(s1[0]) == Some(TagType::String_) {
        assert(s2.subrange(3 + name_len, 5 + name_len) =~= s1.subrange(3 + name_len, 5 + name_len));
    }
}

/// One tag of a tag list, validated at construction: `type(u8) |
/// name_len(u16_le) | name | value`.
#[derive(Debug)]
pub struct Tag<'a> {
    raw: &'a [u8],
}

impl<'a> Tag<'a> {
    /// The bytes of the tag, exactly as long as the tag itself.
    pub closed spec fn view(&self) -> Seq<u8> {
        self.raw@
    }

    /// The tag's bytes are a whole, valid tag.
    pub open spec fn wf(&self) -> bool {
        spec_tag_parse(self@) == Ok::<int, Error>(self@.len() as int)
    }

    /// Split the first tag off `raw`, or report exactly why it does
    /// not parse.
    pub fn from_slice(raw: &'a [u8]) -> (r: Result<(Self, &'a [u8]), Error>)
        ensures
            match r {
                Ok((tag, rem)) => spec_tag_parse(raw@) == Ok::<int, Error>(tag@.len() as int)
                    && tag.wf() && tag@ == raw@.subrange(0, tag@.len() as int) && rem@
                    == raw@.subrange(tag@.len() as int, raw@.len() as int),
                Err(e) => spec_tag_parse(raw@) == Err::<int, Error>(e),
            },
    {
        if raw.len() < 3 {
            return Err(Error::TagSizeMismatch { need: 3, have: raw.len() });
        }
        let name_len = crate::bytes::read_u16_le(raw, 1) as usize;
        let need_name = 3 + name_len;
        if raw.len() < need_name {
            return Err(Error::TagSizeMismatchName { need: need_name, have: raw.len(), name_len });
        }
        let type_byte = crate::bytes::read_u8(raw, 0);
        let tag_type = match tag_type_from_u8(type_byte) {
            Some(v) => v,
            None => {
                return Err(Error::TagInvalid { value: type_byte });
            },
        };
        let content: usize = match tag_type {
            TagType::Hash => 16,
            TagType::String_ => {
                let need_s = need_name + 2;
                if raw.len() < need_s {
                    return Err(Error::TagSizeMismatchForString { need: need_s, have: raw.len() });
                }
                let s_len = crate::bytes::read_u16_le(raw, need_name) as usize;
                2 + s_len
            },
            TagType::Uint64 => 8,
            TagType::Uint32 => 4,
            TagType::Uint16 => 2,
            TagType::Uint8 => 1,
            TagType::Float32 => 4,
            _ => {
                return Err(Error::TagInvalid { value: type_byte });
            },
        };
        let need_total = need_name + content;
        if raw.len() < need_total {
            return Err(Error::TagSizeMismatchContent { have: raw.len(), need: need_total });
        }
        let head = slice_subrange(raw, 0, need_total);
        let rem = slice_subrange(raw, need_total, raw.len());
        proof {
            assert(forall|i: int| 0 <= i < need_total ==> #[trigger] head@[i] == raw@[i]);
            lemma_tag_parse_agrees(raw@, head@, need_total as int);
        }
        Ok((Tag { raw: head }, rem))
    }

    /// The tag's name length in bytes.
    fn name_len(&self) -> (r: usize)
        requires
            self.wf(),
        ensures
            r == spec_tag_name_len(self@),
    {
        crate::bytes::read_u16_le(self.raw, 1) as usize
    }

    /// The tag's name; not necessarily text.
    pub fn name(&self) -> (r: &'a [u8])
        requires
            self.wf(),
        ensures
            r@ == self@.subrange(3, 3 + spec_tag_name_len(self@)),
    {
        let name_len = self.name_len();
        slice_subrange(self.raw, 3, 3 + name_len)
    }

    /// The tag's type.
    pub fn tag_type(&self) -> (r: TagType)
        requires
            self.wf(),
        ensures
            Some(r) == spec_tag_type_from_u8(self@[0]),
    {
        match tag_type_from_u8(crate::bytes::read_u8(self.raw, 0)) {
            Some(t) => t,
            None => {
                proof {
                    assert(false);
                }
                TagType::Uint8
            },
        }
    }

    /// The bytes of the tag's value: a fixed-size integer or hash, or
    /// the length-prefixed bytes of a string tag.
    pub fn value_bytes(&self) -> (r: &'a [u8])
        requires
            self.wf(),
        ensures
            r@ == self@.subrange(3 + spec_tag_name_len(self@), self@.len() as int),
    {
        let name_len = self.name_len();
        slice_subrange(self.raw, 3 + name_len, self.raw.len())
    }
}

/// What parsing `n` consecutive tags off the front of `s` yields: the
/// total size consumed, or the error of the first tag that fails.
pub open spec fn spec_tags_parse(s: Seq<u8>, n: nat) -> Result<int, Error>
    decreases n,
{
    if n == 0 {
        Ok(0)
    } else {
        match spec_tag_parse(s) {
            Err(e) => Err(e),
            Ok(t) => match spec_tags_parse(s.subrange(t, s.len() as int), (n - 1) as nat) {
                Err(e) => Err(e),
                Ok(rest) => Ok(t + rest),
            },
        }
    }
}

/// What parsing a whole tag list off the front of `s` yields: the size
/// of the count field plus all its tags, or the exact error reported.
///
/// Layout: `count(u32_le) | Tag[count]`.
pub open spec fn spec_taglist_parse(s: Seq<u8>) -> Result<int, Error> {
    if s.len() < 4 {
        Err(Error::TagListTooShort { need: 4, have: s.len() as usize })
    } else {
        match spec_tags_parse(
            s.subrange(4, s.len() as int),
            spec_u32_from_le_bytes(s.subrange(0, 4)) as nat,
        ) {
            Err(e) => Err(e),
            Ok(t) => Ok(4 + t),
        }
    }
}

/// A run of parsed tags never reaches past the end of the buffer, and
/// never runs backwards.
proof fn lemma_tags_parse_bounds(s: Seq<u8>, n: nat, t: int)
    requires
        spec_tags_parse(s, n) == Ok::<int, Error>(t),
    ensures
        0 <= t <= s.len(),
    decreases n,
{
    if n > 0 {
        let t1 = spec_tag_parse(s)->Ok_0;
        lemma_tags_parse_bounds(s.subrange(t1, s.len() as int), (n - 1) as nat, t - t1);
    }
}

/// Parsing a run of tags reads only the bytes it consumes: any buffer
/// that holds the same first `t` bytes parses to the same run.
proof fn lemma_tags_parse_agrees(s1: Seq<u8>, s2: Seq<u8>, n: nat, t: int)
    requires
        spec_tags_parse(s1, n) == Ok::<int, Error>(t),
        t <= s2.len(),
        forall|i: int| 0 <= i < t ==> #[trigger] s2[i] == s1[i],
    ensures
        spec_tags_parse(s2, n) == Ok::<int, Error>(t),
    decreases n,
{
    if n > 0 {
        let t1 = spec_tag_parse(s1)->Ok_0;
        let r1 = s1.subrange(t1, s1.len() as int);
        lemma_tags_parse_bounds(r1, (n - 1) as nat, t - t1);
        lemma_tag_parse_agrees(s1, s2, t1);
        let r2 = s2.subrange(t1, s2.len() as int);
        assert forall|i: int| 0 <= i < t - t1 implies #[trigger] r2[i] == r1[i] by {
            assert(r2[i] == s2[t1 + i]);
            assert(r1[i] == s1[t1 + i]);
        }
        lemma_tags_parse_agrees(r1, r2, (n - 1) as nat, t - t1);
    }
}

/// The size of each tag in a run, in order; empty past the first tag
/// that fails to parse.
pub open spec fn spec_tag_sizes(s: Seq<u8>, n: nat) -> Seq<int>
    decreases n,
{
    if n == 0 {
        Seq::empty()
    } else {
        match spec_tag_parse(s) {
            Err(_) => Seq::empty(),
            Ok(t) => seq![t] + spec_tag_sizes(s.subrange(t, s.len() as int), (n - 1) as nat),
        }
    }
}

/// The sum of a sequence of sizes.
pub open spec fn spec_sum(s: Seq<int>) -> int
    decreases s.len(),
{
    if s.len() == 0 {
        0
    } else {
        s[0] + spec_sum(s.subrange(1, s.len() as int))
    }
}

/// For every tag list that parses, the parsed tag sizes sum to exactly
/// the size of the declared tag-bytes region: there is one size per
/// declared tag, and their sum is the number of bytes the run consumed.
pub proof fn lemma_tag_sizes_sum(s: Seq<u8>, n: nat, t: int)
    requires
        spec_tags_parse(s, n) == Ok::<int, Error>(t),
    ensures
        spec_tag_sizes(s, n).len() == n,
        spec_sum(spec_tag_sizes(s, n)) == t,
    decreases n,
{
    if n == 0 {
    } else {
        let t1 = spec_tag_parse(s)->Ok_0;
        let rest = s.subrange(t1, s.len() as int);
        lemma_tag_sizes_sum(rest, (n - 1) as nat, t - t1);
        let sizes = spec_tag_sizes(s, n);
        let tail = spec_tag_sizes(rest, (n - 1) as nat);
        assert(sizes == seq![t1] + tail);
        assert(sizes[0] == t1);
        assert(sizes.subrange(1, sizes.len() as int) =~= tail);
    }
}

/// A tag list: `count(u32_le)` followed by that many variable-size
/// tags, validated in full at construction.
#[derive(Clone, Debug)]
pub struct TagList<'a> {
    raw: &'a [u8],
}

impl<'a> TagList<'a> {
    /// The bytes of the list, exactly as long as the list itself.
    pub closed spec fn view(&self) -> Seq<u8> {
        self.raw@
    }

    /// The list's bytes are a whole, valid tag list.
    pub open spec fn wf(&self) -> bool {
        spec_taglist_parse(self@) == Ok::<int, Error>(self@.len() as int)
    }

    /// Split the first whole tag list off `raw`, validating every tag,
    /// or report exactly why it does not parse.
    #[verifier::rlimit(50)]
    pub fn from_slice(raw: &'a [u8]) -> (r: Result<(Self, &'a [u8]), Error>)
        ensures
            match r {
                Ok((tl, rem)) => spec_taglist_parse(raw@) == Ok::<int, Error>(tl@.len() as int)
                    && tl.wf() && tl@ == raw@.subrange(0, tl@.len() as int) && rem@
                    == raw@.subrange(tl@.len() as int, raw@.len() as int),
                Err(e) => spec_taglist_parse(raw@) == Err::<int, Error>(e),
            },
    {
        if raw.len() < 4 {
            return Err(Error::TagListTooShort { need: 4, have: raw.len() });
        }
        let count = crate::bytes::read_u32_le(raw, 0);
        let ghost body = raw@.subrange(4, raw@.len() as int);
        let mut ct: u32 = count;
        let mut off: usize = 4;
        while ct > 0
            invariant
                4 <= off <= raw.len(),
                ct <= count,
                raw@.len() >= 4,
                count == spec_u32_from_le_bytes(raw@.subrange(0, 4)),
                body == raw@.subrange(4, raw@.len() as int),
                spec_tags_parse(body, count as nat) == (match spec_tags_parse(
                    raw@.subrange(off as int, raw@.len() as int),
                    ct as nat,
                ) {
                    Ok(t) => Ok::<int, Error>(off - 4 + t),
                    Err(e) => Err::<int, Error>(e),
                }),
            decreases ct,
        {
            let cur = slice_subrange(raw, off, raw.len());
            let ghost cur_seq = cur@;
            match Tag::from_slice(cur) {
                Err(e) => {
                    proof {
                        let cur2 = raw@.subrange(off as int, raw@.len() as int);
                        assert(spec_tag_parse(cur2) == Err::<int, Error>(e));
                        assert(spec_tags_parse(cur2, ct as nat) == Err::<int, Error>(e));
                        assert(spec_taglist_parse(raw@) == Err::<int, Error>(e));
                    }
                    return Err(e);
                },
                Ok((tag, _rest)) => {
                    let tag_len = tag.raw.len();
                    proof {
                        let t1 = tag_len as int;
                        let inner = cur_seq.subrange(t1, cur_seq.len() as int);
                        assert(inner =~= raw@.subrange(off + t1, raw@.len() as int));
                    }
                    off = off + tag_len;
                    ct = ct - 1;
                },
            }
        }
        let head = slice_subrange(raw, 0, off);
        let rem = slice_subrange(raw, off, raw.len());
        proof {
            assert(spec_taglist_parse(raw@) == Ok::<int, Error>(off as int));
            let hd = head@;
            assert(hd.subrange(0, 4) =~= raw@.subrange(0, 4));
            assert forall|i: int| 0 <= i < off - 4 implies #[trigger] hd.subrange(4, hd.len() as int)[i]
                == body[i] by {
                assert(hd.subrange(4, hd.len() as int)[i] == hd[4 + i]);
                assert(hd[4 + i] == raw@[4 + i]);
                assert(body[i] == raw@[4 + i]);
            }
            lemma_tags_parse_agrees(
                body,
                hd.subrange(4, hd.len() as int),
                count as nat,
                off - 4,
            );
        }
        Ok((TagList { raw: head }, rem))
    }

    /// The number of tags the list declares.
    pub fn count(&self) -> (r: u32)
        requires
            self.wf(),
        ensures
            r == spec_u32_from_le_bytes(self@.subrange(0, 4)),
    {
        crate::bytes::read_u32_le(self.raw, 0)
    }

    /// The bytes of the tags, after the count field.
    fn item_bytes(&self) -> (r: &'a [u8])
        requires
            self@.len() >= 4,
        ensures
            r@ == self@.subrange(4, self@.len() as int),
    {
        slice_subrange(self.raw, 4, self.raw.len())
    }

    /// An iterator over the list's tags. On a validated list it yields
    /// exactly `count` tags and never an error.
    pub fn iter(&self) -> (r: TagListIter<'a>)
        requires
            self.wf(),
        ensures
            r@ == self@.subrange(4, self@.len() as int),
    {
        TagListIter::from_slice(self.item_bytes())
    }

    /// All tags of the list, in order.
    pub fn tag_vec(&self) -> (r: Vec<Tag<'a>>)
        requires
            self.wf(),
        ensures
            r@.len() == spec_u32_from_le_bytes(self@.subrange(0, 4)),
            forall|i: int| 0 <= i < r@.len() ==> (#[trigger] r@[i]).wf(),
    {
        let count = self.count();
        let mut it = self.iter();
        let mut out: Vec<Tag<'a>> = Vec::new();
        let ghost body = self@.subrange(4, self@.len() as int);
        while out.len() < count as usize
            invariant
                out@.len() <= count,
                spec_tags_parse(it@, (count - out@.len()) as nat) == Ok::<int, Error>(
                    it@.len() as int,
                ),
                forall|i: int| 0 <= i < out@.len() ==> (#[trigger] out@[i]).wf(),
            decreases count - out@.len(),
        {
            let ghost pre = it@;
            let ghost remaining = (count - out@.len()) as nat;
            match it.next() {
                Some(Ok(tag)) => {
                    proof {
                        let t1 = tag@.len() as int;
                        lemma_tags_parse_bounds(
                            pre.subrange(t1, pre.len() as int),
                            (remaining - 1) as nat,
                            pre.len() - t1,
                        );
                    }
                    out.push(tag);
                },
                Some(Err(_)) => {
                    proof {
                        assert(false);
                    }
                },
                None => {
                    proof {
                        assert(false);
                    }
                },
            }
        }
        out
    }
}

/// An iterator over the tags of a tag-bytes region, consumed front to
/// back. It is separate from `TagList` because the count prefix would
/// otherwise interfere.
#[derive(Debug)]
pub struct TagListIter<'a> {
    raw: &'a [u8],
}

impl<'a> TagListIter<'a> {
    /// The bytes not yet consumed.
    pub closed spec fn view(&self) -> Seq<u8> {
        self.raw@
    }

    /// Wrap a tag-bytes region (without a count prefix).
    pub fn from_slice(raw: &'a [u8]) -> (r: Self)
        ensures
            r@ == raw@,
    {
        Self { raw }
    }

    /// Parse the next tag off the front. Yields `None` once the region
    /// is exhausted, and the parse error of the first bad tag.
    pub fn next(&mut self) -> (r: Option<Result<Tag<'a>, Error>>)
        ensures
            match r {
                None => old(self)@.len() == 0 && final(self)@ == old(self)@,
                Some(Ok(tag)) => tag.wf() && spec_tag_parse(old(self)@) == Ok::<int, Error>(
                    tag@.len() as int,
                ) && tag@ == old(self)@.subrange(0, tag@.len() as int) && final(self)@ == old(
                    self,
                )@.subrange(tag@.len() as int, old(self)@.len() as int),
                Some(Err(e)) => spec_tag_parse(old(self)@) == Err::<int, Error>(e) && final(self)@
                    == old(self)@,
            },
    {
        if self.raw.len() == 0 {
            return None;
        }
        match Tag::from_slice(self.raw) {
            Ok((tag, rem)) => {
                self.raw = rem;
                Some(Ok(tag))
            },
            Err(e) => Some(Err(e)),
        }
    }
}

/// A tag list parsed off the front of a buffer spans at least its
/// count field and never reaches past the end.
proof fn lemma_taglist_parse_bounds(s: Seq<u8>, t: int)
    requires
        spec_taglist_parse(s) == Ok::<int, Error>(t),
    ensures
        4 <= t <= s.len(),
{
    let n = spec_u32_from_le_bytes(s.subrange(0, 4)) as nat;
    lemma_tags_parse_bounds(s.subrange(4, s.len() as int), n, t - 4);
}

/// Parsing a tag list reads only the bytes it consumes.
proof fn lemma_taglist_parse_agrees(s1: Seq<u8>, s2: Seq<u8>, t: int)
    requires
        spec_taglist_parse(s1) == Ok::<int, Error>(t),
        t <= s2.len(),
        forall|i: int| 0 <= i < t ==> #[trigger] s2[i] == s1[i],
    ensures
        spec_taglist_parse(s2) == Ok::<int, Error>(t),
{
    lemma_taglist_parse_bounds(s1, t);
    assert(s2.subrange(0, 4) =~= s1.subrange(0, 4));
    let b1 = s1.subrange(4, s1.len() as int);
    let b2 = s2.subrange(4, s2.len() as int);
    let n = spec_u32_from_le_bytes(s1.subrange(0, 4)) as nat;
    assert forall|i: int| 0 <= i < t - 4 implies #[trigger] b2[i] == b1[i] by {
        assert(b2[i] == s2[4 + i]);
        assert(b1[i] == s1[4 + i]);
    }
    lemma_tags_parse_agrees(b1, b2, n, t - 4);
}

/// What parsing one search result off the front of `s` yields: the
/// total size of the result, or the error reported.
///
/// Layout: `id(u128_le) | TagList`.
pub open spec fn spec_search_result_parse(s: Seq<u8>) -> Result<int, Error> {
    if s.len() < 16 {
        Err(Error::SearchResTooShort { have: s.len() as usize, need: 16 })
    } else {
        match spec_taglist_parse(s.subrange(16, s.len() as int)) {
            Err(e) => Err(e),
            Ok(t) => Ok(16 + t),
        }
    }
}

/// A search result parsed off the front of a buffer spans at least its
/// id and tag-list count and never reaches past the end.
proof fn lemma_search_result_parse_bounds(s: Seq<u8>, t: int)
    requires
        spec_search_result_parse(s) == Ok::<int, Error>(t),
    ensures
        20 <= t <= s.len(),
{
    lemma_taglist_parse_bounds(s.subrange(16, s.len() as int), t - 16);
}

/// Parsing a search result reads only the bytes it consumes.
proof fn lemma_search_result_parse_agrees(s1: Seq<u8>, s2: Seq<u8>, t: int)
    requires
        spec_search_result_parse(s1) == Ok::<int, Error>(t),
        t <= s2.len(),
        forall|i: int| 0 <= i < t ==> #[trigger] s2[i] == s1[i],
    ensures
        spec_search_result_parse(s2) == Ok::<int, Error>(t),
{
    lemma_search_result_parse_bounds(s1, t);
    let b1 = s1.subrange(16, s1.len() as int);
    let b2 = s2.subrange(16, s2.len() as int);
    assert forall|i: int| 0 <= i < t - 16 implies #[trigger] b2[i] == b1[i] by {
        assert(b2[i] == s2[16 + i]);
        assert(b1[i] == s1[16 + i]);
    }
    lemma_taglist_parse_agrees(b1, b2, t - 16);
}

/// What parsing `n` consecutive search results off the front of `s`
/// yields: the total size consumed, or the error of the first result
/// that fails.
pub open spec fn spec_search_results_parse(s: Seq<u8>, n: nat) -> Result<int, Error>
    decreases n,
{
    if n == 0 {
        Ok(0)
    } else {
        match spec_search_result_parse(s) {
            Err(e) => Err(e),
            Ok(t) => match spec_search_results_parse(
                s.subrange(t, s.len() as int),
                (n - 1) as nat,
            ) {
                Err(e) => Err(e),
                Ok(rest) => Ok(t + rest),
            },
        }
    }
}

/// A run of parsed search results never reaches past the end of the
/// buffer, and never runs backwards.
proof fn lemma_search_results_parse_bounds(s: Seq<u8>, n: nat, t: int)
    requires
        spec_search_results_parse(s, n) == Ok::<int, Error>(t),
    ensures
        0 <= t <= s.len(),
    decreases n,
{
    if n > 0 {
        let t1 = spec_search_result_parse(s)->Ok_0;
        lemma_search_result_parse_bounds(s, t1);
        lemma_search_results_parse_bounds(s.subrange(t1, s.len() as int), (n - 1) as nat, t - t1);
    }
}

/// Parsing a run of search results reads only the bytes it consumes.
proof fn lemma_search_results_parse_agrees(s1: Seq<u8>, s2: Seq<u8>, n: nat, t: int)
    requires
        spec_search_results_parse(s1, n) == Ok::<int, Error>(t),
        t <= s2.len(),
        forall|i: int| 0 <= i < t ==> #[trigger] s2[i] == s1[i],
    ensures
        spec_search_results_parse(s2, n) == Ok::<int, Error>(t),
    decreases n,
{
    if n > 0 {
        let t1 = spec_search_result_parse(s1)->Ok_0;
        lemma_search_result_parse_bounds(s1, t1);
        let r1 = s1.subrange(t1, s1.len() as int);
        lemma_search_results_parse_bounds(r1, (n - 1) as nat, t - t1);
        lemma_search_result_parse_agrees(s1, s2, t1);
        let r2 = s2.subrange(t1, s2.len() as int);
        assert forall|i: int| 0 <= i < t - t1 implies #[trigger] r2[i] == r1[i] by {
            assert(r2[i] == s2[t1 + i]);
            assert(r1[i] == s1[t1 + i]);
        }
        lemma_search_results_parse_agrees(r1, r2, (n - 1) as nat, t - t1);
    }
}

/// One search result: `id(u128_le) | TagList`, validated in full at
/// construction.
#[derive(Clone, Debug)]
pub struct SearchResult<'a> {
    raw: &'a [u8],
}

impl<'a> SearchResult<'a> {
    /// The bytes of the result, exactly as long as the result itself.
    pub closed spec fn view(&self) -> Seq<u8> {
        self.raw@
    }

    /// The result's bytes are a whole, valid search result.
    pub open spec fn wf(&self) -> bool {
        spec_search_result_parse(self@) == Ok::<int, Error>(self@.len() as int)
    }

    /// Split the first search result off `raw`, or report exactly why
    /// it does not parse.
    pub fn from_slice(raw: &'a [u8]) -> (r: Result<(Self, &'a [u8]), Error>)
        ensures
            match r {
                Ok((res, rem)) => spec_search_result_parse(raw@) == Ok::<int, Error>(
                    res@.len() as int,
                ) && res.wf() && res@ == raw@.subrange(0, res@.len() as int) && rem@
                    == raw@.subrange(res@.len() as int, raw@.len() as int),
                Err(e) => spec_search_result_parse(raw@) == Err::<int, Error>(e),
            },
    {
        if raw.len() < 16 {
            return Err(Error::SearchResTooShort { have: raw.len(), need: 16 });
        }
        let tail = slice_subrange(raw, 16, raw.len());
        match TagList::from_slice(tail) {
            Err(e) => Err(e),
            Ok((tl, _rem)) => {
                proof {
                    lemma_taglist_parse_bounds(tail@, tl@.len() as int);
                }
                let total = 16 + tl.raw.len();
                let head = slice_subrange(raw, 0, total);
                let rem = slice_subrange(raw, total, raw.len());
                proof {
                    assert(forall|i: int| 0 <= i < total ==> #[trigger] head@[i] == raw@[i]);
                    lemma_search_result_parse_agrees(raw@, head@, total as int);
                }
                Ok((SearchResult { raw: head }, rem))
            },
        }
    }

    /// The ID this result was published under.
    pub fn id(&self) -> (r: u128)
        requires
            self.wf(),
        ensures
            r == spec_u128_from_le_bytes(self@.subrange(0, 16)),
    {
        proof {
            lemma_search_result_parse_bounds(self@, self@.len() as int);
        }
        crate::bytes::read_u128_le(self.raw, 0)
    }

    /// The result's tags, validated at construction.
    pub fn tags(&self) -> (r: TagList<'a>)
        requires
            self.wf(),
        ensures
            r@ == self@.subrange(16, self@.len() as int),
            r.wf(),
    {
        proof {
            lemma_search_result_parse_bounds(self@, self@.len() as int);
        }
        let tail = slice_subrange(self.raw, 16, self.raw.len());
        match TagList::from_slice(tail) {
            Ok((tl, _rem)) => {
                proof {
                    assert(tl@ =~= self@.subrange(16, self@.len() as int));
                }
                tl
            },
            Err(_) => {
                proof {
                    assert(false);
                }
                TagList { raw: tail }
            },
        }
    }
}

/// The results region of a `SearchRes`: a run of variable-size search
/// results, consumed front to back. The number of results left is
/// carried as ghost state so that iteration after validation cannot
/// fail.
#[derive(Clone)]
pub struct SearchResults<'a> {
    raw: &'a [u8],
    remaining: Ghost<nat>,
}

impl<'a> SearchResults<'a> {
    /// The bytes not yet consumed.
    pub closed spec fn view(&self) -> Seq<u8> {
        self.raw@
    }

    /// How many results are left in the region.
    pub closed spec fn spec_remaining(&self) -> nat {
        self.remaining@
    }

    /// The remaining bytes are exactly the remaining results.
    pub open spec fn wf(&self) -> bool {
        spec_search_results_parse(self@, self.spec_remaining()) == Ok::<int, Error>(
            self@.len() as int,
        )
    }

    /// Split a run of `num` search results off `raw`, validating every
    /// result and tag, or report exactly why the run does not parse.
    pub fn from_slice(num: u16, raw: &'a [u8]) -> (r: Result<(Self, &'a [u8]), Error>)
        ensures
            match r {
                Ok((sr, rem)) => spec_search_results_parse(raw@, num as nat) == Ok::<int, Error>(
                    sr@.len() as int,
                ) && sr.wf() && sr.spec_remaining() == num as nat && sr@ == raw@.subrange(
                    0,
                    sr@.len() as int,
                ) && rem@ == raw@.subrange(sr@.len() as int, raw@.len() as int),
                Err(e) => spec_search_results_parse(raw@, num as nat) == Err::<int, Error>(e),
            },
    {
        let mut ct: u16 = num;
        let mut off: usize = 0;
        proof {
            assert(raw@.subrange(0, raw@.len() as int) =~= raw@);
        }
        while ct > 0
            invariant
                off <= raw.len(),
                ct <= num,
                spec_search_results_parse(raw@, num as nat) == (match spec_search_results_parse(
                    raw@.subrange(off as int, raw@.len() as int),
                    ct as nat,
                ) {
                    Ok(t) => Ok::<int, Error>(off + t),
                    Err(e) => Err::<int, Error>(e),
                }),
            decreases ct,
        {
            let cur = slice_subrange(raw, off, raw.len());
            match SearchResult::from_slice(cur) {
                Err(e) => {
                    proof {
                        let cur2 = raw@.subrange(off as int, raw@.len() as int);
                        assert(spec_search_result_parse(cur2) == Err::<int, Error>(e));
                        assert(spec_search_results_parse(cur2, ct as nat) == Err::<int, Error>(e));
                    }
                    return Err(e);
                },
                Ok((res, _rest)) => {
                    let res_len = res.raw.len();
                    proof {
                        let t1 = res_len as int;
                        let cur2 = raw@.subrange(off as int, raw@.len() as int);
                        lemma_search_result_parse_bounds(cur2, t1);
                        assert(cur2.subrange(t1, cur2.len() as int) =~= raw@.subrange(
                            off + t1,
                            raw@.len() as int,
                        ));
                    }
                    off = off + res_len;
                    ct = ct - 1;
                },
            }
        }
        let head = slice_subrange(raw, 0, off);
        let rem = slice_subrange(raw, off, raw.len());
        proof {
            assert(spec_search_results_parse(raw@, num as nat) == Ok::<int, Error>(off as int));
            assert(forall|i: int| 0 <= i < off ==> #[trigger] head@[i] == raw@[i]);
            lemma_search_results_parse_agrees(raw@, head@, num as nat, off as int);
        }
        Ok((SearchResults { raw: head, remaining: Ghost(num as nat) }, rem))
    }

    /// Take the next search result off the front, or `None` when the
    /// run is exhausted.
    pub fn next(&mut self) -> (r: Option<SearchResult<'a>>)
        requires
            old(self).wf(),
        ensures
            final(self).wf(),
            match r {
                Some(res) => old(self).spec_remaining() > 0 && res.wf()
                    && res@ == old(self)@.subrange(0, res@.len() as int)
                    && final(self)@ == old(self)@.subrange(res@.len() as int, old(self)@.len() as int)
                    && final(self).spec_remaining() == old(self).spec_remaining() - 1,
                None => old(self).spec_remaining() == 0 && old(self)@.len() == 0
                    && final(self)@ == old(self)@
                    && final(self).spec_remaining() == old(self).spec_remaining(),
            },
    {
        if self.raw.len() == 0 {
            proof {
                if self.remaining@ > 0 {
                    let t1 = spec_search_result_parse(self.raw@)->Ok_0;
                }
            }
            return None;
        }
        proof {
            assert(self.remaining@ > 0);
        }
        match SearchResult::from_slice(self.raw) {
            Ok((res, rem)) => {
                proof {
                    let t1 = res@.len() as int;
                    lemma_search_results_parse_bounds(
                        self.raw@.subrange(t1, self.raw@.len() as int),
                        (self.remaining@ - 1) as nat,
                        self.raw@.len() - t1,
                    );
                }
                self.raw = rem;
                self.remaining = Ghost((self.remaining@ - 1) as nat);
                Some(res)
            },
            Err(_) => {
                proof {
                    assert(false);
                }
                None
            },
        }
    }
}

/// A response to a keyword or source search.
///
/// Layout: `source_id(u128_le) | target_id(u128_le) | result_ct(u16_le)
/// | SearchResult[result_ct]`, each result variable-size. Construction
/// validates the whole results region, so iterating it cannot fail.
#[derive(Clone, Debug)]
pub struct SearchRes<'a> {
    raw: &'a [u8],
}

impl<'a> SearchRes<'a> {
    /// The bytes of the response, including any residue after the
    /// declared results.
    pub closed spec fn view(&self) -> Seq<u8> {
        self.raw@
    }

    /// The header is whole and the declared results parse.
    pub open spec fn wf(&self) -> bool {
        &&& self@.len() >= 34
    &&& spec_search_results_parse(
        self@.subrange(34, self@.len() as int),
        spec_u16_from_le_bytes(self@.subrange(32, 34)) as nat,
    ) is Ok
    }

    /// Wrap a search response payload, validating the header and every
    /// declared result.
    pub fn from_slice(raw: &'a [u8]) -> (r: Result<Self, Error>)
        ensures
            match r {
                Ok(v) => v@ == raw@ && v.wf(),
                Err(e) => if raw@.len() < 34 {
                    e == (Error::SearchResTooShort { have: raw@.len() as usize, need: 34 })
                } else {
                    spec_search_results_parse(
                        raw@.subrange(34, raw@.len() as int),
                        spec_u16_from_le_bytes(raw@.subrange(32, 34)) as nat,
                    ) == Err::<int, Error>(e)
                },
            },
    {
        if raw.len() < 34 {
            return Err(Error::SearchResTooShort { have: raw.len(), need: 34 });
        }
        let ct = crate::bytes::read_u16_le(raw, 32);
        let tail = slice_subrange(raw, 34, raw.len());
        match SearchResults::from_slice(ct, tail) {
            Ok(_) => Ok(SearchRes { raw }),
            Err(e) => Err(e),
        }
    }

    /// Kad ID of the node that sent the response.
    pub fn source_id(&self) -> (r: u128)
        requires
            self@.len() >= 34,
        ensures
            r == spec_u128_from_le_bytes(self@.subrange(0, 16)),
    {
        crate::bytes::read_u128_le(self.raw, 0)
    }

    /// The ID that was searched for.
    pub fn target_id(&self) -> (r: u128)
        requires
            self@.len() >= 34,
        ensures
            r == spec_u128_from_le_bytes(self@.subrange(16, 32)),
    {
        crate::bytes::read_u128_le(self.raw, 16)
    }

    /// How many results the response declares.
    pub fn result_ct(&self) -> (r: u16)
        requires
            self@.len() >= 34,
        ensures
            r == spec_u16_from_le_bytes(self@.subrange(32, 34)),
    {
        crate::bytes::read_u16_le(self.raw, 32)
    }

    /// The declared results and the residue after them. On a validated
    /// response this cannot fail.
    pub fn results(&self) -> (r: Result<(SearchResults<'a>, &'a [u8]), Error>)
        requires
            self.wf(),
        ensures
            match r {
                Ok((sr, rem)) => sr.wf() && sr.spec_remaining() == spec_u16_from_le_bytes(
                    self@.subrange(32, 34),
                ) as nat && sr@ == self@.subrange(34, 34 + sr@.len() as int) && rem@
                    == self@.subrange(34 + sr@.len() as int, self@.len() as int),
                Err(_) => false,
            },
    {
        let ct = self.result_ct();
        let tail = slice_subrange(self.raw, 34, self.raw.len());
        match SearchResults::from_slice(ct, tail) {
            Ok((sr, rem)) => {
                proof {
                    let t = sr@.len() as int;
                    lemma_search_results_parse_bounds(tail@, ct as nat, t);
                    assert(sr@ =~= self@.subrange(34, 34 + t));
                    assert(rem@ =~= self@.subrange(34 + t, self@.len() as int));
                }
                Ok((sr, rem))
            },
            Err(e) => {
                proof {
                    assert(false);
                }
                Err(e)
            },
        }
    }
}

/// A fully decoded operation: a Kad opcode with its associated data.
/// Only the operations the collection engine consumes are decoded.
#[derive(Debug)]
pub enum Operation<'a> {
    BootstrapResp(BootstrapResp<'a>),
    Req(Req<'a>),
    Res(Res<'a>),
    SearchRes(SearchRes<'a>),
}

impl KadPacket {
    /// Decode the payload's operation: `Ok(Some(..))` for a decoded
    /// operation, `Ok(None)` for any other opcode (which is not a parse
    /// error), and `Err(..)` when a decoded opcode's payload is
    /// malformed.
    pub fn operation<'s>(&'s self) -> (r: Result<Option<Operation<'s>>, Error>)
        requires
            self@.len() >= 1,
        ensures
            ({
                let payload = self@.subrange(1, self@.len() as int);
                match r {
                    Ok(Some(op)) => match op {
                        Operation::BootstrapResp(b) => spec_kad_opcode_from_u8(self@[0]) == Some(
                            KadOpCode::BootstrapResp,
                        ) && b@ == payload && payload.len() >= 21,
                        Operation::Req(q) => spec_kad_opcode_from_u8(self@[0]) == Some(
                            KadOpCode::Req,
                        ) && q@ == payload && payload.len() == 33,
                        _ => false,
                    },
                    Ok(None) => spec_kad_opcode_from_u8(self@[0]) != Some(KadOpCode::BootstrapResp)
                        && spec_kad_opcode_from_u8(self@[0]) != Some(KadOpCode::Req),
                    Err(e) => (spec_kad_opcode_from_u8(self@[0]) == Some(KadOpCode::BootstrapResp)
                        && payload.len() < 21 && e == (Error::BootstrapRespTooShort {
                        have: payload.len() as usize,
                        need: 21,
                    })) || (spec_kad_opcode_from_u8(self@[0]) == Some(KadOpCode::Req)
                        && payload.len() != 33 && e == (Error::ReqSizeMismatch {
                        have: payload.len() as usize,
                        need: 33,
                    })),
                }
            }),
    {
        let payload = slice_subrange(self.raw.as_slice(), 1, self.raw.len());
        match self.opcode() {
            Some(KadOpCode::BootstrapResp) => match BootstrapResp::from_slice(payload) {
                Ok(b) => Ok(Some(Operation::BootstrapResp(b))),
                Err(e) => Err(e),
            },
            Some(KadOpCode::Req) => match Req::from_slice(payload) {
                Ok(q) => Ok(Some(Operation::Req(q))),
                Err(e) => Err(e),
            },
            _ => Ok(None),
        }
    }
}

/// An owned, non-parsing operation that the crate can emit.
#[derive(Clone, Copy, Debug, PartialEq, Eq)]
pub enum OperationBuf {
    BootstrapReq,
    Pong {
        /// UDP port the `Ping` was received from.
        recv_port: u16,
    },
    /// `KADEMLIA2_HELLO_RES`; in the flow that finds a node's ID by its
    /// address, this form is sent as a hello request.
    HelloRes(Details),
    PublishSourceReq {
        target_id: u128,
        contact_id: u128,
    },
    FindBuddyReqV1 {
        buddy_id: u128,
        src_client_hash: u128,
        /// Our port, for the reply.
        src_client_port: u16,
    },
}

impl OperationBuf {
    /// Emit the wire encoding into `w`: the proto byte, the opcode
    /// byte, then the operation's data. Only `BootstrapReq` is encoded
    /// so far; every other operation reports `OperationNotImplemented`
    /// and leaves `w` unchanged. No encryption or compression is
    /// applied.
    pub fn write_to(&self, w: &mut Vec<u8>) -> (r: Result<(), Error>)
        ensures
            match self {
                OperationBuf::BootstrapReq => r is Ok && final(w)@ == old(w)@ + seq![
                    spec_udp_proto_byte(UdpProto::KademliaHeader),
                    spec_kad_opcode_byte(KadOpCode::BootstrapReq),
                ],
                _ => r == Err::<(), Error>(Error::OperationNotImplemented) && final(w)@ == old(
                    w,
                )@,
            },
    {
        match self {
            OperationBuf::BootstrapReq => {
                w.push(udp_proto_to_u8(UdpProto::KademliaHeader));
                w.push(kad_opcode_to_u8(KadOpCode::BootstrapReq));
                proof {
                    assert(w@ =~= old(w)@ + seq![
                        spec_udp_proto_byte(UdpProto::KademliaHeader),
                        spec_kad_opcode_byte(KadOpCode::BootstrapReq),
                    ]);
                }
                Ok(())
            },
            _ => Err(Error::OperationNotImplemented),
        }
    }
}

/// The frame `OperationBuf::BootstrapReq` emits decodes back to the
/// operation it encodes: its first byte selects the plaintext Kad
/// family and its second byte is the bootstrap-request opcode.
pub proof fn lemma_bootstrap_req_round_trip(b: Seq<u8>)
    requires
        b == seq![
            spec_udp_proto_byte(UdpProto::KademliaHeader),
            spec_kad_opcode_byte(KadOpCode::BootstrapReq),
        ],
    ensures
        b.len() == 2,
        spec_udp_proto_from_u8(b[0]) == Some(UdpProto::KademliaHeader),
        spec_kad_opcode_from_u8(b[1]) == Some(KadOpCode::BootstrapReq),
{
}

/// The body of a hello response.
#[derive(Clone, Copy, Debug, PartialEq, Eq)]
pub struct Details {
    pub src_kad_id: u128,
    pub src_port: u16,
    pub kad_version: u8,
    /// The sender's internal port, included depending on configuration.
    pub src_port_internal: Option<u16>,
    /// Carried in a miscellaneous-options bitfield when the sender's
    /// Kad version is new enough.
    pub udp_firewalled: Option<bool>,
    pub tcp_firewalled: Option<bool>,
    pub req_ack: Option<bool>,
}

/// An owned tag, used to state what a parsed `Tag` holds.
#[derive(Debug, PartialEq, Eq)]
pub struct TagBuf {
    pub name: Vec<u8>,
    pub value: TagValueBuf,
}

/// An owned integer tag value.
#[derive(Debug, Clone, Copy, PartialEq, Eq, Structural)]
pub enum TagValueBuf {
    Uint8(u8),
    Uint16(u16),
    Uint32(u32),
    Uint64(u64),
}

impl TagValueBuf {
    /// Whether this value is what a tag with type byte `ty` and value
    /// bytes `vb` carries.
    pub open spec fn spec_matches(self, ty: u8, vb: Seq<u8>) -> bool {
        match self {
            TagValueBuf::Uint8(x) => spec_tag_type_from_u8(ty) == Some(TagType::Uint8) && vb
                == seq![x],
            TagValueBuf::Uint16(x) => spec_tag_type_from_u8(ty) == Some(TagType::Uint16)
                && vb.len() == 2 && spec_u16_from_le_bytes(vb) == x,
            TagValueBuf::Uint32(x) => spec_tag_type_from_u8(ty) == Some(TagType::Uint32)
                && vb.len() == 4 && spec_u32_from_le_bytes(vb) == x,
            TagValueBuf::Uint64(x) => spec_tag_type_from_u8(ty) == Some(TagType::Uint64)
                && vb.len() == 8 && spec_u64_from_le_bytes(vb) == x,
        }
    }
}

impl TagBuf {
    /// Whether this owned tag states exactly what `tag` holds: the same
    /// name, and a value of the same type and content.
    pub fn matches_tag(&self, tag: &Tag) -> (r: bool)
        requires
            tag.wf(),
        ensures
            r == (self.name@ == tag@.subrange(3, 3 + spec_tag_name_len(tag@))
                && self.value.spec_matches(
                tag@[0],
                tag@.subrange(3 + spec_tag_name_len(tag@), tag@.len() as int),
            )),
    {
        if !crate::bytes::slice_eq(self.name.as_slice(), tag.name()) {
            return false;
        }
        let vb = tag.value_bytes();
        let ghost vbs = tag@.subrange(3 + spec_tag_name_len(tag@), tag@.len() as int);
        match self.value {
            TagValueBuf::Uint8(x) => {
                if !matches!(tag.tag_type(), TagType::Uint8) {
                    return false;
                }
                proof {
                    assert(vbs.len() == 1);
                }
                let b = crate::bytes::read_u8(vb, 0);
                proof {
                    assert((vbs == seq![x]) == (vbs[0] == x)) by {
                        if vbs[0] == x {
                            assert(vbs =~= seq![x]);
                        }
                    }
                }
                b == x
            },
            TagValueBuf::Uint16(x) => {
                if !matches!(tag.tag_type(), TagType::Uint16) {
                    return false;
                }
                proof {
                    assert(vbs.len() == 2);
                    assert(vbs.subrange(0, 2) =~= vbs);
                }
                crate::bytes::read_u16_le(vb, 0) == x
            },
            TagValueBuf::Uint32(x) => {
                if !matches!(tag.tag_type(), TagType::Uint32) {
                    return false;
                }
                proof {
                    assert(vbs.len() == 4);
                    assert(vbs.subrange(0, 4) =~= vbs);
                }
                crate::bytes::read_u32_le(vb, 0) == x
            },
            TagValueBuf::Uint64(x) => {
                if !matches!(tag.tag_type(), TagType::Uint64) {
                    return false;
                }
                proof {
                    assert(vbs.len() == 8);
                    assert(vbs.subrange(0, 8) =~= vbs);
                }
                crate::bytes::read_u64_le(vb, 0) == x
            },
        }
    }
}

} // verus!

//! Parser for the `nodes.dat` contact file.
//!
//! Three layouts, keyed by a header preamble: a legacy layout whose
//! first word is a nonzero contact count, versioned layouts whose first
//! word is zero, and a bootstrap edition of version 3 with compact
//! 25-byte records. The parser consumes every byte; trailing bytes are
//! an error.

use vstd::bytes::*;
use vstd::prelude::*;
use vstd::slice::*;

verus! {

/// Errors raised while parsing a `nodes.dat` buffer.
#[derive(Clone, Copy, Debug, PartialEq, Eq, Structural)]
pub enum Error {
    /// A field or record needed more bytes than remained.
    ShortBuffer { need: usize, have: usize },
    /// Bytes were left over after every declared record.
    SpareBytes { count: usize },
    /// A version this parser does not know.
    UnknownVersion { version: u32 },
    /// The bootstrap layout's record block was not exactly the declared
    /// number of records.
    SizeMismatch { need: usize, have: usize },
}

/// One contact of a `nodes.dat` file.
#[derive(Clone, Copy, Debug, PartialEq, Eq)]
pub struct Contact {
    pub uid: u128,
    /// IPv4 address, as the little-endian dword on the wire.
    pub ip: u32,
    pub udp_port: u16,
    pub tcp_port: u16,
    /// Present from version 1 on, and in bootstrap records.
    pub contact_version: Option<u8>,
    /// Present only in version 0.
    pub by_type: Option<u8>,
    /// Present from version 2 on: `(key, ip)` of the contact's UDP key.
    pub kad_udp_key: Option<(u32, u32)>,
    /// Present from version 2 on.
    pub verified: Option<u8>,
}

/// A parsed `nodes.dat` file.
#[derive(Debug)]
pub struct Nodes {
    pub version: u32,
    pub is_bootstrap: bool,
    pub contacts: Vec<Contact>,
}

/// The size of one contact record: 25 bytes of identity and ports,
/// plus the UDP key and verified flag from version 2 on. Bootstrap
/// records are always 25 bytes.
pub open spec fn spec_entry_size(version: u32, bootstrap: bool) -> int {
    if !bootstrap && version >= 2 {
        34
    } else {
        25
    }
}

/// The contact stored in one record `e` of a file of the given layout.
pub open spec fn spec_contact_fields(e: Seq<u8>, version: u32, bootstrap: bool) -> Contact {
    Contact {
        uid: spec_u128_from_le_bytes(e.subrange(0, 16)),
        ip: spec_u32_from_le_bytes(e.subrange(16, 20)),
        udp_port: spec_u16_from_le_bytes(e.subrange(20, 22)),
        tcp_port: spec_u16_from_le_bytes(e.subrange(22, 24)),
        contact_version: if bootstrap || version >= 1 {
            Some(e[24])
        } else {
            None
        },
        by_type: if !bootstrap && version == 0 {
            Some(e[24])
        } else {
            None
        },
        kad_udp_key: if !bootstrap && version >= 2 {
            Some(
                (
                    spec_u32_from_le_bytes(e.subrange(25, 29)),
                    spec_u32_from_le_bytes(e.subrange(29, 33)),
                ),
            )
        } else {
            None
        },
        verified: if !bootstrap && version >= 2 {
            Some(e[33])
        } else {
            None
        },
    }
}

/// What the header preamble of `s` declares: `(version, is_bootstrap,
/// header size, contact count)`, or the error reported.
pub open spec fn spec_nodes_header(s: Seq<u8>) -> Result<(u32, bool, int, nat), Error> {
    if s.len() < 4 {
        Err(Error::ShortBuffer { need: 4, have: s.len() as usize })
    } else {
        let count0 = spec_u32_from_le_bytes(s.subrange(0, 4));
        if count0 != 0 {
            Ok((0u32, false, 4, count0 as nat))
        } else if s.len() < 8 {
            Err(Error::ShortBuffer { need: 8, have: s.len() as usize })
        } else {
            let version = spec_u32_from_le_bytes(s.subrange(4, 8));
            if version > 3 {
                Err(Error::UnknownVersion { version })
            } else if version == 3 {
                if s.len() < 12 {
                    Err(Error::ShortBuffer { need: 12, have: s.len() as usize })
                } else {
                    let edition = spec_u32_from_le_bytes(s.subrange(8, 12));
                    if s.len() < 16 {
                        Err(Error::ShortBuffer { need: 16, have: s.len() as usize })
                    } else {
                        Ok(
                            (
                                3u32,
                                edition == 1,
                                16,
                                spec_u32_from_le_bytes(s.subrange(12, 16)) as nat,
                            ),
                        )
                    }
                }
            } else {
                if s.len() < 12 {
                    Err(Error::ShortBuffer { need: 12, have: s.len() as usize })
                } else {
                    Ok((version, false, 12, spec_u32_from_le_bytes(s.subrange(8, 12)) as nat))
                }
            }
        }
    }
}

/// Read the contact record at `off`.
fn read_contact(s: &[u8], off: usize, version: u32, bootstrap: bool) -> (r: Contact)
    requires
        off + spec_entry_size(version, bootstrap) <= s.len(),
    ensures
        r == spec_contact_fields(
            s@.subrange(off as int, off + spec_entry_size(version, bootstrap)),
            version,
            bootstrap,
        ),
{
    let ghost size = spec_entry_size(version, bootstrap);
    let ghost e = s@.subrange(off as int, off as int + size);
    proof {
        assert(e.subrange(0, 16) =~= s@.subrange(off as int, off + 16));
        assert(e.subrange(16, 20) =~= s@.subrange(off + 16, off + 20));
        assert(e.subrange(20, 22) =~= s@.subrange(off + 20, off + 22));
        assert(e.subrange(22, 24) =~= s@.subrange(off + 22, off + 24));
    }
    let uid = crate::bytes::read_u128_le(s, off);
    let ip = crate::bytes::read_u32_le(s, off + 16);
    let udp_port = crate::bytes::read_u16_le(s, off + 20);
    let tcp_port = crate::bytes::read_u16_le(s, off + 22);
    let fifth = crate::bytes::read_u8(s, off + 24);
    let mut contact_version: Option<u8> = None;
    let mut by_type: Option<u8> = None;
    if bootstrap || version >= 1 {
        contact_version = Some(fifth);
    } else {
        by_type = Some(fifth);
    }
    let mut kad_udp_key: Option<(u32, u32)> = None;
    let mut verified: Option<u8> = None;
    if !bootstrap && version >= 2 {
        proof {
            assert(e.subrange(25, 29) =~= s@.subrange(off + 25, off + 29));
            assert(e.subrange(29, 33) =~= s@.subrange(off + 29, off + 33));
        }
        let dw_key = crate::bytes::read_u32_le(s, off + 25);
        let dw_ip = crate::bytes::read_u32_le(s, off + 29);
        kad_udp_key = Some((dw_key, dw_ip));
        verified = Some(crate::bytes::read_u8(s, off + 33));
    }
    Contact { uid, ip, udp_port, tcp_port, contact_version, by_type, kad_udp_key, verified }
}

/// Parse a whole `nodes.dat` buffer.
///
/// On success the parser has consumed exactly the whole buffer: the
/// header as its preamble declares, then one record per declared
/// contact. A buffer with bytes left over is rejected with
/// `SpareBytes`, and one that ends inside a record with `ShortBuffer`.
pub fn parse(inp: &[u8]) -> (r: Result<Nodes, Error>)
    ensures
        match r {
            Ok(nodes) => {
                let h = spec_nodes_header(inp@)->Ok_0;
                let size = spec_entry_size(h.0, h.1);
                &&& spec_nodes_header(inp@) is Ok
                &&& nodes.version == h.0
                &&& nodes.is_bootstrap == h.1
                &&& nodes.contacts@.len() == h.3
                &&& inp@.len() == h.2 + h.3 * size
                &&& forall|i: int|
                    0 <= i < h.3 ==> #[trigger] nodes.contacts@[i] == spec_contact_fields(
                        inp@.subrange(h.2 + i * size, h.2 + (i + 1) * size),
                        h.0,
                        h.1,
                    )
            },
            Err(e) => match spec_nodes_header(inp@) {
                Err(he) => e == he,
                Ok(h) => {
                    let size = spec_entry_size(h.0, h.1);
                    if inp@.len() < h.2 + h.3 * size {
                        e == (Error::ShortBuffer {
                            need: size as usize,
                            have: ((inp@.len() - h.2) % size) as usize,
                        })
                    } else {
                        inp@.len() > h.2 + h.3 * size && e == (Error::SpareBytes {
                            count: (inp@.len() - h.2 - h.3 * size) as usize,
                        })
                    }
                },
            },
        },
{
    if inp.len() < 4 {
        return Err(Error::ShortBuffer { need: 4, have: inp.len() });
    }
    let count0 = crate::bytes::read_u32_le(inp, 0);
    let version: u32;
    let bootstrap: bool;
    let hdr: usize;
    let count: u32;
    if count0 != 0 {
        version = 0;
        bootstrap = false;
        hdr = 4;
        count = count0;
    } else {
        if inp.len() < 8 {
            return Err(Error::ShortBuffer { need: 8, have: inp.len() });
        }
        let v = crate::bytes::read_u32_le(inp, 4);
        if v > 3 {
            return Err(Error::UnknownVersion { version: v });
        }
        if v == 3 {
            if inp.len() < 12 {
                return Err(Error::ShortBuffer { need: 12, have: inp.len() });
            }
            let edition = crate::bytes::read_u32_le(inp, 8);
            if inp.len() < 16 {
                return Err(Error::ShortBuffer { need: 16, have: inp.len() });
            }
            version = 3;
            bootstrap = edition == 1;
            hdr = 16;
            count = crate::bytes::read_u32_le(inp, 12);
        } else {
            if inp.len() < 12 {
                return Err(Error::ShortBuffer { need: 12, have: inp.len() });
            }
            version = v;
            bootstrap = false;
            hdr = 12;
            count = crate::bytes::read_u32_le(inp, 8);
        }
    }
    let ghost size = spec_entry_size(version, bootstrap);
    let entry_size: usize = if !bootstrap && version >= 2 {
        34
    } else {
        25
    };
    let mut contacts: Vec<Contact> = Vec::new();
    let mut off: usize = hdr;
    while contacts.len() < count as usize
        invariant
            spec_nodes_header(inp@) == Ok::<(u32, bool, int, nat), Error>(
                (version, bootstrap, hdr as int, count as nat),
            ),
            entry_size == spec_entry_size(version, bootstrap),
            size == spec_entry_size(version, bootstrap),
            contacts@.len() <= count,
            off == hdr + contacts@.len() * size,
            off <= inp.len(),
            forall|i: int|
                0 <= i < contacts@.len() ==> #[trigger] contacts@[i] == spec_contact_fields(
                    inp@.subrange(hdr + i * size, hdr + (i + 1) * size),
                    version,
                    bootstrap,
                ),
        decreases count - contacts.len(),
    {
        if inp.len() - off < entry_size {
            proof {
                let k = contacts@.len() as int;
                let rem = inp@.len() - hdr - k * size;
                assert(0 <= rem < size);
                vstd::arithmetic::div_mod::lemma_fundamental_div_mod_converse(
                    inp@.len() - hdr,
                    size,
                    k,
                    rem,
                );
                assert((inp@.len() - hdr) % size == rem);
                assert(inp@.len() < hdr + count * size) by (nonlinear_arith)
                    requires
                        inp@.len() - hdr == k * size + rem,
                        k < count,
                        0 <= rem < size,
                ;
            }
            return Err(Error::ShortBuffer { need: entry_size, have: inp.len() - off });
        }
        let ghost done = contacts@.len() as int;
        let c = read_contact(inp, off, version, bootstrap);
        contacts.push(c);
        off = off + entry_size;
        proof {
            assert(off == hdr + (done + 1) * size) by (nonlinear_arith)
                requires
                    off == hdr + done * size + size,
            ;
        }
    }
    if off != inp.len() {
        proof {
            assert(inp@.len() - (hdr + count * size) > 0) by (nonlinear_arith)
                requires
                    off == hdr + count as int * size,
                    off < inp@.len(),
                ;
        }
        return Err(Error::SpareBytes { count: inp.len() - off });
    }
    Ok(Nodes { version, is_bootstrap: bootstrap, contacts })
}

/// Parse the record block of a bootstrap-edition `nodes.dat` whose
/// preamble (the zero word, version and edition) has already been
/// consumed: a `u32_le` count followed by exactly that many 25-byte
/// records.
pub fn parse_bootstrap(inp: &[u8]) -> (r: Result<Vec<Contact>, Error>)
    ensures
        match r {
            Ok(contacts) => {
                let count = spec_u32_from_le_bytes(inp@.subrange(0, 4));
                &&& inp@.len() >= 4
                &&& inp@.len() - 4 == 25 * count
                &&& contacts@.len() == count
                &&& forall|i: int|
                    0 <= i < count ==> #[trigger] contacts@[i] == spec_contact_fields(
                        inp@.subrange(4 + i * 25, 4 + (i + 1) * 25),
                        3u32,
                        true,
                    )
            },
            Err(e) => if inp@.len() < 4 {
                e == (Error::ShortBuffer { need: 4, have: inp@.len() as usize })
            } else {
                let count = spec_u32_from_le_bytes(inp@.subrange(0, 4));
                inp@.len() - 4 != 25 * count && e == (Error::SizeMismatch {
                    need: (25 * count) as usize,
                    have: (inp@.len() - 4) as usize,
                })
            },
        },
{
    if inp.len() < 4 {
        return Err(Error::ShortBuffer { need: 4, have: inp.len() });
    }
    let count = crate::bytes::read_u32_le(inp, 0);
    let need64: u64 = (count as u64) * 25;
    if (inp.len() - 4) as u64 != need64 {
        return Err(Error::SizeMismatch { need: need64 as usize, have: inp.len() - 4 });
    }
    let mut contacts: Vec<Contact> = Vec::new();
    let mut off: usize = 4;
    while contacts.len() < count as usize
        invariant
            inp@.len() - 4 == 25 * count,
            contacts@.len() <= count,
            off == 4 + contacts@.len() * 25,
            off <= inp.len(),
            forall|i: int|
                0 <= i < contacts@.len() ==> #[trigger] contacts@[i] == spec_contact_fields(
                    inp@.subrange(4 + i * 25, 4 + (i + 1) * 25),
                    3u32,
                    true,
                ),
        decreases count - contacts.len(),
    {
        proof {
            let k = contacts@.len() as int;
            assert(off + 25 <= inp@.len()) by (nonlinear_arith)
                requires
                    off == 4 + k * 25,
                    k < count,
                    inp@.len() - 4 == 25 * (count as int),
            ;
        }
        let ghost done = contacts@.len() as int;
        let c = read_contact(inp, off, 3, true);
        contacts.push(c);
        off = off + 25;
        proof {
            assert(off == 4 + (done + 1) * 25) by (nonlinear_arith)
                requires
                    off == 4 + done * 25 + 25,
            ;
        }
    }
    proof {
        assert(off == inp@.len()) by (nonlinear_arith)
            requires
                off == 4 + count as int * 25,
                inp@.len() - 4 == 25 * (count as int),
        ;
    }
    Ok(contacts)
}

} // verus!

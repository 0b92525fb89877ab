//! Parser for the `clients.met` credit file.
//!
//! A one-byte version selects the record size: the legacy version
//! carries 42-byte records, the extended version adds a key-size byte
//! and an 80-byte public-key buffer. A `u32_le` count follows the
//! version, then exactly that many fixed-size records.

use vstd::bytes::*;
use vstd::prelude::*;
use vstd::slice::*;

verus! {

/// The extended credit-file version, with public keys.
pub const CREDITFILE_VERSION: u8 = 0x12;

/// The legacy credit-file version.
pub const CREDITFILE_VERSION_29: u8 = 0x11;

/// Errors raised while parsing a `clients.met` buffer.
#[derive(Clone, Copy, Debug, PartialEq, Eq, Structural)]
pub enum Error {
    /// The version byte, the count, or the records needed more bytes
    /// than remained.
    ShortBuffer { need: usize, have: usize },
    /// Bytes were left over after every declared record.
    SpareBytes { count: usize },
    /// A credit-file version this parser does not know.
    UnknownVersion { version: u8 },
}

/// One client's credit record, with the 64-bit transfer counters
/// assembled from their low and high words.
#[derive(Clone, Debug, PartialEq, Eq)]
pub struct ClientCredit {
    /// The client's 16-byte hash.
    pub key: Vec<u8>,
    pub downloaded: u64,
    pub uploaded: u64,
    /// Seconds since the Unix epoch, as the 32-bit field on disk.
    pub last_seen: u32,
    /// The meaningful prefix of the public-key buffer; empty in the
    /// legacy version.
    pub secure_ident: Vec<u8>,
}

/// The mathematical content of a `ClientCredit`.
pub struct ClientCreditView {
    pub key: Seq<u8>,
    pub downloaded: u64,
    pub uploaded: u64,
    pub last_seen: u32,
    pub secure_ident: Seq<u8>,
}

impl ClientCredit {
    /// The record's content.
    pub open spec fn view(&self) -> ClientCreditView {
        ClientCreditView {
            key: self.key@,
            downloaded: self.downloaded,
            uploaded: self.uploaded,
            last_seen: self.last_seen,
            secure_ident: self.secure_ident@,
        }
    }
}

/// The record size of each credit-file version.
pub open spec fn spec_credit_entry_size(extended: bool) -> int {
    if extended {
        123
    } else {
        42
    }
}

/// The credit stored in one record `e`.
///
/// Layout: `key[16] | uploaded_lo(u32_le) | downloaded_lo(u32_le) |
/// last_seen(u32_le) | uploaded_hi(u32_le) | downloaded_hi(u32_le) |
/// reserved(u16)`, and in the extended version additionally
/// `key_size(u8) | public_key[80]`, of which the first `key_size`
/// bytes (at most 80) are the meaningful ident.
pub open spec fn spec_credit_fields(e: Seq<u8>, extended: bool) -> ClientCreditView {
    ClientCreditView {
        key: e.subrange(0, 16),
        uploaded: ((spec_u32_from_le_bytes(e.subrange(28, 32)) as int) * 0x100000000
            + spec_u32_from_le_bytes(e.subrange(16, 20)) as int) as u64,
        downloaded: ((spec_u32_from_le_bytes(e.subrange(32, 36)) as int) * 0x100000000
            + spec_u32_from_le_bytes(e.subrange(20, 24)) as int) as u64,
        last_seen: spec_u32_from_le_bytes(e.subrange(24, 28)),
        secure_ident: if extended {
            let ksz = if e[42] > 80 {
                80
            } else {
                e[42] as int
            };
            e.subrange(43, 43 + ksz)
        } else {
            Seq::empty()
        },
    }
}

/// Read the credit record at `off`.
fn read_credit(s: &[u8], off: usize, extended: bool) -> (r: ClientCredit)
    requires
        off + spec_credit_entry_size(extended) <= s.len(),
    ensures
        r@ == spec_credit_fields(
            s@.subrange(off as int, off + spec_credit_entry_size(extended)),
            extended,
        ),
{
    let ghost size = spec_credit_entry_size(extended);
    let ghost e = s@.subrange(off as int, off as int + size);
    proof {
        assert(e.subrange(0, 16) =~= s@.subrange(off as int, off + 16));
        assert(e.subrange(16, 20) =~= s@.subrange(off + 16, off + 20));
        assert(e.subrange(20, 24) =~= s@.subrange(off + 20, off + 24));
        assert(e.subrange(24, 28) =~= s@.subrange(off + 24, off + 28));
        assert(e.subrange(28, 32) =~= s@.subrange(off + 28, off + 32));
        assert(e.subrange(32, 36) =~= s@.subrange(off + 32, off + 36));
    }
    let key = slice_to_vec(slice_subrange(s, off, off + 16));
    let uploaded_lo = crate::bytes::read_u32_le(s, off + 16);
    let downloaded_lo = crate::bytes::read_u32_le(s, off + 20);
    let last_seen = crate::bytes::read_u32_le(s, off + 24);
    let uploaded_hi = crate::bytes::read_u32_le(s, off + 28);
    let downloaded_hi = crate::bytes::read_u32_le(s, off + 32);
    let uploaded = (uploaded_hi as u64) * 0x100000000 + uploaded_lo as u64;
    let downloaded = (downloaded_hi as u64) * 0x100000000 + downloaded_lo as u64;
    let mut secure_ident: Vec<u8> = Vec::new();
    if extended {
        let ksz = crate::bytes::read_u8(s, off + 42);
        let k: usize = if ksz > 80 {
            80
        } else {
            ksz as usize
        };
        secure_ident = slice_to_vec(slice_subrange(s, off + 43, off + 43 + k));
        proof {
            let ksz_i = if e[42] > 80 {
                80int
            } else {
                e[42] as int
            };
            assert(secure_ident@ =~= e.subrange(43, 43 + ksz_i));
        }
    }
    ClientCredit { key, downloaded, uploaded, last_seen, secure_ident }
}

/// Parse a whole `clients.met` buffer: the version byte, a `u32_le`
/// record count, then exactly that many records.
pub fn parse(inp: &[u8]) -> (r: Result<Vec<ClientCredit>, Error>)
    ensures
        match r {
            Ok(credits) => {
                let extended = inp@[0] == CREDITFILE_VERSION;
                let count = spec_u32_from_le_bytes(inp@.subrange(1, 5));
                let size = spec_credit_entry_size(extended);
                &&& inp@.len() >= 5
                &&& (inp@[0] == CREDITFILE_VERSION || inp@[0] == CREDITFILE_VERSION_29)
                &&& inp@.len() - 5 == count * size
                &&& credits@.len() == count
                &&& forall|i: int|
                    0 <= i < count ==> (#[trigger] credits@[i])@ == spec_credit_fields(
                        inp@.subrange(5 + i * size, 5 + (i + 1) * size),
                        extended,
                    )
            },
            Err(e) => if inp@.len() < 1 {
                e == (Error::ShortBuffer { need: 1, have: 0 })
            } else if inp@[0] != CREDITFILE_VERSION && inp@[0] != CREDITFILE_VERSION_29 {
                e == (Error::UnknownVersion { version: inp@[0] })
            } else if inp@.len() < 5 {
                e == (Error::ShortBuffer { need: 4, have: (inp@.len() - 1) as usize })
            } else {
                let extended = inp@[0] == CREDITFILE_VERSION;
                let count = spec_u32_from_le_bytes(inp@.subrange(1, 5));
                let size = spec_credit_entry_size(extended);
                if inp@.len() - 5 < count * size {
                    e == (Error::ShortBuffer {
                        need: (count * size) as usize,
                        have: (inp@.len() - 5) as usize,
                    })
                } else {
                    inp@.len() - 5 > count * size && e == (Error::SpareBytes {
                        count: (inp@.len() - 5 - count * size) as usize,
                    })
                }
            },
        },
{
    if inp.len() < 1 {
        return Err(Error::ShortBuffer { need: 1, have: 0 });
    }
    let version = crate::bytes::read_u8(inp, 0);
    let extended: bool;
    if version == CREDITFILE_VERSION {
        extended = true;
    } else if version == CREDITFILE_VERSION_29 {
        extended = false;
    } else {
        return Err(Error::UnknownVersion { version });
    }
    if inp.len() < 5 {
        return Err(Error::ShortBuffer { need: 4, have: inp.len() - 1 });
    }
    let count = crate::bytes::read_u32_le(inp, 1);
    let entry_size: usize = if extended {
        123
    } else {
        42
    };
    let ghost size = spec_credit_entry_size(extended);
    let need64: u64 = (count as u64) * (entry_size as u64);
    let have64: u64 = (inp.len() - 5) as u64;
    if have64 < need64 {
        proof {
            assert(inp@.len() - 5 < (count as int) * size);
            assert(((count as int) * size) as usize == need64 as usize);
        }
        return Err(Error::ShortBuffer { need: need64 as usize, have: inp.len() - 5 });
    }
    if have64 > need64 {
        proof {
            assert(inp@.len() - 5 > (count as int) * size);
        }
        return Err(Error::SpareBytes { count: inp.len() - 5 - (need64 as usize) });
    }
    let mut credits: Vec<ClientCredit> = Vec::new();
    let mut off: usize = 5;
    while credits.len() < count as usize
        invariant
            inp@.len() >= 5,
            inp@[0] == CREDITFILE_VERSION || inp@[0] == CREDITFILE_VERSION_29,
            extended == (inp@[0] == CREDITFILE_VERSION),
            count == spec_u32_from_le_bytes(inp@.subrange(1, 5)),
            size == spec_credit_entry_size(extended),
            entry_size == size,
            inp@.len() - 5 == count * size,
            credits@.len() <= count,
            off == 5 + credits@.len() * size,
            off <= inp.len(),
            forall|i: int|
                0 <= i < credits@.len() ==> (#[trigger] credits@[i])@ == spec_credit_fields(
                    inp@.subrange(5 + i * size, 5 + (i + 1) * size),
                    extended,
                ),
        decreases count - credits.len(),
    {
        proof {
            let k = credits@.len() as int;
            assert(off + size <= inp@.len()) by (nonlinear_arith)
                requires
                    off == 5 + k * size,
                    k < count,
                    inp@.len() - 5 == (count as int) * size,
                    size > 0,
            ;
        }
        let ghost done = credits@.len() as int;
        let c = read_credit(inp, off, extended);
        credits.push(c);
        off = off + entry_size;
        proof {
            assert(off == 5 + (done + 1) * size) by (nonlinear_arith)
                requires
                    off == 5 + done * size + size,
            ;
        }
    }
    Ok(credits)
}

} // verus!

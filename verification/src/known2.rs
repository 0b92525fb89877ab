//! Parser for the `known2_64.dat` file of CAICH master hashes.
//!
//! After a one-byte version marker the file is a run of trees, each a
//! 20-byte root hash, a `u32_le` child count, and that many 20-byte
//! child hashes, until the end of the file.

use vstd::bytes::*;
use vstd::prelude::*;
use vstd::slice::*;

verus! {

/// The version marker this parser accepts.
pub const KNOWN2_MET_VERSION: u8 = 0x02;

/// The size of one CAICH hash in bytes.
pub const HASHSIZE: usize = 20;

/// Errors raised while parsing a `known2_64.dat` buffer.
#[derive(Clone, Copy, Debug, PartialEq, Eq, Structural)]
pub enum Error {
    /// The version marker or a tree's children needed more bytes than
    /// remained.
    ShortBuffer { need: usize, have: usize },
    /// A version marker this parser does not know.
    UnknownVersion { version: u8 },
    /// Bytes were left over where a whole tree entry was expected.
    SpareBytes { need: usize, have: usize },
}

/// One CAICH hash.
#[derive(Clone, Debug, PartialEq, Eq)]
pub struct CaichHash {
    /// Exactly `HASHSIZE` bytes.
    pub data: Vec<u8>,
}

impl CaichHash {
    /// The bytes of the hash.
    pub open spec fn view(&self) -> Seq<u8> {
        self.data@
    }
}

/// One CAICH tree: a master hash and the hashes it owns.
#[derive(Clone, Debug, PartialEq, Eq)]
pub struct CaichTree {
    pub root: CaichHash,
    pub children: Vec<CaichHash>,
}

/// The mathematical content of a `CaichTree`.
pub struct CaichTreeView {
    pub root: Seq<u8>,
    pub children: Seq<Seq<u8>>,
}

impl CaichTree {
    /// The bytes of the root and of each child, in order.
    pub open spec fn view(&self) -> CaichTreeView {
        CaichTreeView {
            root: self.root@,
            children: self.children@.map(|i: int, c: CaichHash| c@),
        }
    }
}

/// What parsing the tree region `s` (after the version marker) yields:
/// the trees in order, or the error reported. Every byte is consumed.
pub open spec fn spec_trees_parse(s: Seq<u8>) -> Result<Seq<CaichTreeView>, Error>
    decreases s.len(),
{
    if s.len() == 0 {
        Ok(Seq::empty())
    } else if s.len() < 24 {
        Err(Error::SpareBytes { need: 24, have: s.len() as usize })
    } else {
        let ct = spec_u32_from_le_bytes(s.subrange(20, 24)) as int;
        if s.len() - 24 < 20 * ct {
            Err(Error::ShortBuffer { need: (20 * ct) as usize, have: (s.len() - 24) as usize })
        } else {
            let tree = CaichTreeView {
                root: s.subrange(0, 20),
                children: Seq::new(ct as nat, |i: int| s.subrange(24 + 20 * i, 24 + 20 * (i + 1))),
            };
            match spec_trees_parse(s.subrange(24 + 20 * ct, s.len() as int)) {
                Err(e) => Err(e),
                Ok(rest) => Ok(seq![tree] + rest),
            }
        }
    }
}

/// Parse a whole `known2_64.dat` buffer: the version marker, then
/// trees until the end of the buffer.
pub fn parse(inp: &[u8]) -> (r: Result<Vec<CaichTree>, Error>)
    ensures
        match r {
            Ok(trees) => {
                &&& inp@.len() >= 1
                &&& inp@[0] == KNOWN2_MET_VERSION
                &&& spec_trees_parse(inp@.subrange(1, inp@.len() as int)) is Ok
                &&& trees@.map(|i: int, t: CaichTree| t@) == spec_trees_parse(
                    inp@.subrange(1, inp@.len() as int),
                )->Ok_0
            },
            Err(e) => if inp@.len() < 1 {
                e == (Error::ShortBuffer { need: 1, have: 0 })
            } else if inp@[0] != KNOWN2_MET_VERSION {
                e == (Error::UnknownVersion { version: inp@[0] })
            } else {
                spec_trees_parse(inp@.subrange(1, inp@.len() as int)) == Err::<
                    Seq<CaichTreeView>,
                    Error,
                >(e)
            },
        },
{
    if inp.len() < 1 {
        return Err(Error::ShortBuffer { need: 1, have: 0 });
    }
    let version = crate::bytes::read_u8(inp, 0);
    if version != KNOWN2_MET_VERSION {
        return Err(Error::UnknownVersion { version });
    }
    let ghost body = inp@.subrange(1, inp@.len() as int);
    let mut trees: Vec<CaichTree> = Vec::new();
    let mut off: usize = 1;
    while off < inp.len()
        invariant
            1 <= off <= inp.len(),
            inp@[0] == KNOWN2_MET_VERSION,
            body == inp@.subrange(1, inp@.len() as int),
            spec_trees_parse(body) == (match spec_trees_parse(
                inp@.subrange(off as int, inp@.len() as int),
            ) {
                Ok(ts) => Ok::<Seq<CaichTreeView>, Error>(
                    trees@.map(|i: int, t: CaichTree| t@) + ts,
                ),
                Err(e) => Err::<Seq<CaichTreeView>, Error>(e),
            }),
        decreases inp@.len() - off,
    {
        let ghost cur = inp@.subrange(off as int, inp@.len() as int);
        let have = inp.len() - off;
        if have < 24 {
            proof {
                assert(spec_trees_parse(cur) == Err::<Seq<CaichTreeView>, Error>(
                    Error::SpareBytes { need: 24, have: cur.len() as usize },
                ));
            }
            return Err(Error::SpareBytes { need: 24, have });
        }
        let ct = crate::bytes::read_u32_le(inp, off + 20);
        proof {
            assert(cur.subrange(20, 24) =~= inp@.subrange(off + 20, off + 24));
        }
        let need64: u64 = (ct as u64) * 20;
        if ((have - 24) as u64) < need64 {
            proof {
                assert(cur.len() - 24 < 20 * (ct as int));
                assert(spec_trees_parse(cur) == Err::<Seq<CaichTreeView>, Error>(
                    Error::ShortBuffer {
                        need: (20 * (ct as int)) as usize,
                        have: (cur.len() - 24) as usize,
                    },
                ));
                assert((20 * (ct as int)) as usize == need64 as usize);
            }
            return Err(Error::ShortBuffer { need: (need64 as usize), have: have - 24 });
        }
        let block: usize = (need64 as usize);
        proof {
            assert(cur.subrange(0, 20) =~= inp@.subrange(off as int, off + 20));
        }
        let root = CaichHash { data: slice_to_vec(slice_subrange(inp, off, off + 20)) };
        let base = off + 24;
        let mut children: Vec<CaichHash> = Vec::new();
        while children.len() < ct as usize
            invariant
                children@.len() <= ct,
                base + 20 * (ct as int) <= inp.len(),
                forall|j: int|
                    0 <= j < children@.len() ==> #[trigger] children@[j]@ == inp@.subrange(
                        base + 20 * j,
                        base + 20 * (j + 1),
                    ),
            decreases ct - children.len(),
        {
            let j = children.len();
            proof {
                assert(base + 20 * (j as int) + 20 <= base + 20 * (ct as int))
                    by (nonlinear_arith)
                    requires
                        (j as int) < (ct as int),
                ;
            }
            let lo = base + 20 * j;
            let child = CaichHash { data: slice_to_vec(slice_subrange(inp, lo, lo + 20)) };
            proof {
                assert(child@ =~= inp@.subrange(
                    base + 20 * (j as int),
                    base + 20 * ((j as int) + 1),
                ));
            }
            children.push(child);
        }
        let ghost done_views = trees@.map(|i: int, t: CaichTree| t@);
        let ghost ct_i = ct as int;
        let ghost spec_tree = CaichTreeView {
            root: cur.subrange(0, 20),
            children: Seq::new(ct as nat, |i: int| cur.subrange(24 + 20 * i, 24 + 20 * (i + 1))),
        };
        let tree = CaichTree { root, children };
        proof {
            assert forall|j: int| 0 <= j < ct_i implies #[trigger] tree@.children[j]
                == spec_tree.children[j] by {
                assert(tree@.children[j] == tree.children@[j]@);
                assert(cur.subrange(24 + 20 * j, 24 + 20 * (j + 1)) =~= inp@.subrange(
                    base + 20 * j,
                    base + 20 * (j + 1),
                ));
            }
            assert(tree@.children =~= spec_tree.children);
            assert(tree@.root =~= spec_tree.root);
            assert(tree@ == spec_tree);
        }
        trees.push(tree);
        off = base + block;
        proof {
            let next = inp@.subrange(off as int, inp@.len() as int);
            assert(next =~= cur.subrange(24 + 20 * ct_i, cur.len() as int));
            assert(trees@.map(|i: int, t: CaichTree| t@) =~= done_views + seq![spec_tree]);
            match spec_trees_parse(next) {
                Err(e) => {
                    assert(spec_trees_parse(cur) == Err::<Seq<CaichTreeView>, Error>(e));
                },
                Ok(rest) => {
                    assert(spec_trees_parse(cur) == Ok::<Seq<CaichTreeView>, Error>(
                        seq![spec_tree] + rest,
                    ));
                    assert(done_views + (seq![spec_tree] + rest) =~= (done_views + seq![spec_tree])
                        + rest);
                },
            }
        }
    }
    proof {
        assert(inp@.subrange(off as int, inp@.len() as int) =~= Seq::<u8>::empty());
        assert(trees@.map(|i: int, t: CaichTree| t@) + Seq::<CaichTreeView>::empty() =~= trees@.map(
            |i: int, t: CaichTree| t@,
        ));
    }
    Ok(trees)
}

} // verus!

//! Per-node metadata: parsed source locations and the side tables
//! that carry them.
//!
//! The graph nodes themselves keep only what the traversal needs; the
//! presentation data of each kept node (the raw line and its parsed
//! location) lives here, keyed by node index. Address-to-line
//! resolution and source-file search are outside work: this module
//! holds the memo table and the field updates, and the caller hands
//! in what the resolver and the file search returned.

use vstd::prelude::*;

use std::collections::HashMap;

use crate::bytes::all_hex_digits;
use crate::bytes::dec_val;
use crate::bytes::ends_with_spec;
use crate::bytes::hex_val;
use crate::bytes::parse_dec_usize;
use crate::bytes::parse_hex_u64;
use crate::parse::LocParts;
use crate::parse::LocPartsSpec;
use crate::parse::loc_parse;
use crate::tgnode::TgNode;

verus! {

/// Errors of location parsing: a location field of neither accepted
/// shape, an address that is not a hexadecimal number or does not fit
/// in 64 bits, or a line number that does not fit in `usize`.
#[derive(Clone, Copy, PartialEq, Eq, Structural, Debug)]
pub enum MetaError {
    UnparseableLoc,
    BadAddress,
    BadLineNumber,
}

/// A parsed source location: address, file, optional line number,
/// optionally cached source-line text, and function name.
#[derive(Debug)]
pub struct SrcLoc {
    pub addr: u64,
    pub file: Vec<u8>,
    pub lineno: Option<usize>,
    pub src_line: Option<Vec<u8>>,
    pub func: Vec<u8>,
}

/// The value of an address field after its `0x` prefix, when it is a
/// non-empty hexadecimal numeral that fits in 64 bits.
pub open spec fn addr_value(addr: Seq<u8>) -> Option<int> {
    if addr.len() >= 1 && all_hex_digits(addr) && hex_val(addr) <= u64::MAX {
        Some(hex_val(addr) as int)
    } else {
        None
    }
}

impl SrcLoc {
    /// Assemble a location from an already-parsed address.
    pub fn new_u64(addr: u64, file: Vec<u8>, lineno: Option<usize>, func: Vec<u8>) -> (r: SrcLoc)
        ensures
            r.addr == addr,
            r.file@ == file@,
            r.lineno == lineno,
            r.src_line is None,
            r.func@ == func@,
    {
        SrcLoc { addr, file, lineno, src_line: None, func }
    }

    /// Assemble a location from a textual address of the shape `0x`
    /// followed by hexadecimal digits.
    pub fn new(addr: &[u8], file: Vec<u8>, lineno: Option<usize>, func: Vec<u8>) -> (r: Result<
        SrcLoc,
        MetaError,
    >)
        ensures
            match r {
                Ok(loc) => {
                    &&& addr@.len() >= 2
                    &&& addr_value(addr@.subrange(2, addr@.len() as int)) == Some(loc.addr as int)
                    &&& loc.file@ == file@
                    &&& loc.lineno == lineno
                    &&& loc.src_line is None
                    &&& loc.func@ == func@
                },
                Err(e) => e == MetaError::BadAddress && (addr@.len() < 2 || addr_value(
                    addr@.subrange(2, addr@.len() as int),
                ) is None),
            },
    {
        if addr.len() < 2 {
            return Err(MetaError::BadAddress);
        }
        let digits = crate::bytes::sub_vec(addr, 2, addr.len());
        match parse_hex_u64(digits.as_slice()) {
            Some(v) => Ok(Self::new_u64(v, file, lineno, func)),
            None => Err(MetaError::BadAddress),
        }
    }

    /// Fill in what outside resolution produced. `resolved` is the
    /// debug-info resolver's answer for this location's file and
    /// address; it is applied only when no line number was parsed.
    /// `found` is what the source-file search produced afterwards: the
    /// source-line text, and a replacement file path when the line was
    /// found by walking the directory tree rather than at the recorded
    /// path.
    pub fn complete_info(
        &mut self,
        resolved: Option<(Vec<u8>, usize)>,
        found: Option<(Option<Vec<u8>>, Vec<u8>)>,
    )
        ensures
            final(self).addr == old(self).addr,
            final(self).func@ == old(self).func@,
            ({
                let (rfile, rline): (Seq<u8>, Option<usize>) = match (old(self).lineno, resolved) {
                    (None, Some((f, l))) => (f@, Some(l)),
                    _ => (old(self).file@, old(self).lineno),
                };
                match found {
                    Some((fopt, line)) => {
                        &&& final(self).src_line matches Some(s) && s@ == line@
                        &&& final(self).lineno == rline
                        &&& (match fopt {
                            Some(f) => final(self).file@ == f@,
                            None => final(self).file@ == rfile,
                        })
                    },
                    None => {
                        &&& (match (old(self).src_line, final(self).src_line) {
                            (Some(a), Some(b)) => a@ == b@,
                            (None, None) => true,
                            _ => false,
                        })
                        &&& final(self).lineno == rline
                        &&& final(self).file@ == rfile
                    },
                }
            }),
    {
        if self.lineno.is_none() {
            match resolved {
                Some((f, l)) => {
                    self.file = f;
                    self.lineno = Some(l);
                },
                None => {},
            }
        }
        match found {
            Some((fopt, line)) => {
                self.src_line = Some(line);
                match fopt {
                    Some(f) => {
                        self.file = f;
                    },
                    None => {},
                }
            },
            None => {},
        }
    }
}

/// A node's metadata: the raw log line and its parsed location.
#[derive(Debug)]
pub struct TgMetaNode {
    pub line: Vec<u8>,
    pub loc: SrcLoc,
}

/// What parsing a location field yields: address value, file, line
/// number and function name, or the error.
pub open spec fn meta_loc_spec(loc: Seq<u8>) -> Result<(int, Seq<u8>, Option<int>, Seq<u8>), MetaError> {
    match loc_parse(loc) {
        None => Err(MetaError::UnparseableLoc),
        Some(p) => {
            let line_over = match p.lineno {
                Some(d) => dec_val(d) > usize::MAX,
                None => false,
            };
            if line_over {
                Err(MetaError::BadLineNumber)
            } else {
                match addr_value(p.addr) {
                    None => Err(MetaError::BadAddress),
                    Some(a) => match p.lineno {
                        Some(d) => Ok((a, p.file, Some(dec_val(d) as int), p.func)),
                        None => Ok((a, p.file, None, p.func)),
                    },
                }
            }
        },
    }
}

impl TgMetaNode {
    /// Parse the location field and pair it with the raw line.
    pub fn new(line: Vec<u8>, loc_part: &[u8]) -> (r: Result<TgMetaNode, MetaError>)
        ensures
            match r {
                Ok(m) => {
                    &&& meta_loc_spec(loc_part@) matches Ok(p)
                    &&& m.line@ == line@
                    &&& m.loc.addr as int == (match meta_loc_spec(loc_part@) {
                        Ok(p) => p.0,
                        Err(_) => 0,
                    })
                    &&& m.loc.file@ == (match meta_loc_spec(loc_part@) {
                        Ok(p) => p.1,
                        Err(_) => Seq::empty(),
                    })
                    &&& (match (m.loc.lineno, meta_loc_spec(loc_part@)) {
                        (Some(l), Ok(p)) => p.2 == Some(l as int),
                        (None, Ok(p)) => p.2 is None,
                        _ => false,
                    })
                    &&& m.loc.func@ == (match meta_loc_spec(loc_part@) {
                        Ok(p) => p.3,
                        Err(_) => Seq::empty(),
                    })
                    &&& m.loc.src_line is None
                },
                Err(e) => meta_loc_spec(loc_part@) == Err::<
                    (int, Seq<u8>, Option<int>, Seq<u8>),
                    MetaError,
                >(e),
            },
    {
        proof {
            crate::parse::lemma_loc_parse_lineno(loc_part@);
        }
        let parts = match LocParts::parse(loc_part) {
            Some(p) => p,
            None => {
                return Err(MetaError::UnparseableLoc);
            },
        };
        let LocParts { addr, func, file, lineno } = parts;
        let lineno_val: Option<usize> = match lineno {
            Some(d) => {
                match parse_dec_usize(d.as_slice()) {
                    Some(v) => Some(v),
                    None => {
                        return Err(MetaError::BadLineNumber);
                    },
                }
            },
            None => None,
        };
        let addr_val: u64 = match parse_hex_u64(addr.as_slice()) {
            Some(v) => v,
            None => {
                return Err(MetaError::BadAddress);
            },
        };
        Ok(TgMetaNode { line, loc: SrcLoc::new_u64(addr_val, file, lineno_val, func) })
    }

    /// Whether the location's file marks a 3rd-party library frame: a
    /// shared-object path.
    pub fn is_lib(&self) -> (r: bool)
        ensures
            r == is_lib_spec(self.loc.file@),
    {
        let so_tok: [u8; 3] = [46u8, 115u8, 111u8];
        proof {
            assert(so_tok@ =~= seq![46u8, 115u8, 111u8]);
        }
        crate::bytes::ends_with(self.loc.file.as_slice(), so_tok.as_slice())
    }
}

/// A file path names a shared object when it ends with `.so`.
pub open spec fn is_lib_spec(file: Seq<u8>) -> bool {
    ends_with_spec(file, seq![46u8, 115u8, 111u8])
}

/// A side table from node index to metadata.
pub trait TgMetaDb: Sized {
    /// The mapping this table holds.
    spec fn db(&self) -> Map<usize, TgMetaNode>;

    /// An empty table.
    fn new() -> (r: Self)
        ensures
            r.db() == Map::<usize, TgMetaNode>::empty(),
    ;

    /// Record the metadata of node `idx`.
    fn insert(&mut self, idx: usize, meta: TgMetaNode)
        ensures
            final(self).db() == old(self).db().insert(idx, meta),
    ;

    /// Record the metadata of `node`.
    fn insert_node(&mut self, node: &TgNode, meta: TgMetaNode)
        ensures
            final(self).db() == old(self).db().insert(node.idx, meta),
    {
        self.insert(node.idx, meta)
    }

    /// Look the metadata of node `idx` up.
    fn get_by_idx(&self, idx: usize) -> (r: Option<&TgMetaNode>)
        ensures
            match r {
                Some(m) => self.db().contains_key(idx) && *m == self.db()[idx],
                None => !self.db().contains_key(idx),
            },
    ;

    /// Look the metadata of `node` up.
    fn get(&self, node: &TgNode) -> (r: Option<&TgMetaNode>)
        ensures
            match r {
                Some(m) => self.db().contains_key(node.idx) && *m == self.db()[node.idx],
                None => !self.db().contains_key(node.idx),
            },
    {
        self.get_by_idx(node.idx)
    }
}

/// The hash-map-backed metadata table.
pub struct MetaDB {
    map: HashMap<usize, TgMetaNode>,
}

impl TgMetaDb for MetaDB {
    closed spec fn db(&self) -> Map<usize, TgMetaNode> {
        self.map@
    }

    fn new() -> (r: MetaDB) {
        MetaDB { map: HashMap::new() }
    }

    fn insert(&mut self, idx: usize, meta: TgMetaNode) {
        self.map.insert(idx, meta);
    }

    fn get_by_idx(&self, idx: usize) -> (r: Option<&TgMetaNode>) {
        self.map.get(&idx)
    }
}

/// The memo table of the outside debug-info resolver: what it
/// answered for each (binary, address) pair it was asked about, where
/// `None` records that resolution failed.
pub struct DebugInfoDb {
    entries: Vec<(Vec<u8>, u64, Option<(Vec<u8>, usize)>)>,
}

/// Index of the last cache entry for `(binary, addr)`.
pub open spec fn find_addr_key(
    es: Seq<(Vec<u8>, u64, Option<(Vec<u8>, usize)>)>,
    binary: Seq<u8>,
    addr: u64,
    hi: int,
) -> Option<int>
    decreases hi,
{
    if hi <= 0 {
        None
    } else if es[hi - 1].0@ == binary && es[hi - 1].1 == addr {
        Some(hi - 1)
    } else {
        find_addr_key(es, binary, addr, hi - 1)
    }
}

impl DebugInfoDb {
    /// Whether an answer for `(binary, addr)` is cached.
    pub closed spec fn cached(&self, binary: Seq<u8>, addr: u64) -> bool {
        find_addr_key(self.entries@, binary, addr, self.entries@.len() as int) is Some
    }

    /// The cached answer for `(binary, addr)`.
    pub closed spec fn answer(&self, binary: Seq<u8>, addr: u64) -> Option<(Vec<u8>, usize)> {
        match find_addr_key(self.entries@, binary, addr, self.entries@.len() as int) {
            Some(i) => self.entries@[i].2,
            None => None,
        }
    }

    /// An empty memo table.
    pub fn new() -> (r: DebugInfoDb)
        ensures
            forall|b: Seq<u8>, a: u64| !r.cached(b, a),
    {
        DebugInfoDb { entries: Vec::new() }
    }

    /// Whether an answer for `(binary, addr)` is already recorded.
    pub fn contains(&self, binary: &[u8], addr: u64) -> (r: bool)
        ensures
            r == self.cached(binary@, addr),
    {
        let n = self.entries.len();
        let mut i: usize = 0;
        while i < n
            invariant
                n == self.entries@.len(),
                0 <= i <= n,
                find_addr_key(self.entries@, binary@, addr, n as int) == find_addr_key(
                    self.entries@,
                    binary@,
                    addr,
                    n - i,
                ),
            decreases n - i,
        {
            let e = &self.entries[n - 1 - i];
            if e.1 == addr && crate::bytes::bytes_eq(e.0.as_slice(), binary) {
                return true;
            }
            i += 1;
        }
        false
    }

    /// Record the resolver's answer for `(binary, addr)`.
    pub fn record(&mut self, binary: Vec<u8>, addr: u64, answer: Option<(Vec<u8>, usize)>)
        ensures
            final(self).cached(binary@, addr),
            ({
                match (final(self).answer(binary@, addr), answer) {
                    (Some((f1, l1)), Some((f2, l2))) => f1@ == f2@ && l1 == l2,
                    (None, None) => true,
                    _ => false,
                }
            }),
            forall|b: Seq<u8>, a: u64|
                !(b == binary@ && a == addr) ==> #[trigger] final(self).cached(b, a) == old(
                    self,
                ).cached(b, a) && final(self).answer(b, a) == old(self).answer(b, a),
    {
        let ghost old_es = self.entries@;
        self.entries.push((binary, addr, answer));
        proof {
            let es = self.entries@;
            assert(find_addr_key(es, es[es.len() - 1].0@, es[es.len() - 1].1, es.len() as int)
                == Some(es.len() - 1));
            assert forall|b: Seq<u8>, a: u64|
                !(b == es[es.len() - 1].0@ && a == es[es.len() - 1].1) implies #[trigger] self.cached(
                b,
                a,
            ) == old(self).cached(b, a) && self.answer(b, a) == old(self).answer(b, a) by {
                lemma_find_addr_key_prefix(old_es, es, b, a, old_es.len() as int);
                match find_addr_key(old_es, b, a, old_es.len() as int) {
                    Some(i) => {
                        lemma_find_addr_key_bounds(old_es, b, a, old_es.len() as int);
                        assert(es[i] == old_es[i]);
                    },
                    None => {},
                }
            }
        }
    }

    /// Fetch the recorded answer for `(binary, addr)`, handing out a
    /// copy.
    pub fn lookup(&self, binary: &[u8], addr: u64) -> (r: Option<Option<(Vec<u8>, usize)>>)
        ensures
            match r {
                Some(ans) => self.cached(binary@, addr) && (match (
                    ans,
                    self.answer(binary@, addr),
                ) {
                    (Some((f1, l1)), Some((f2, l2))) => f1@ == f2@ && l1 == l2,
                    (None, None) => true,
                    _ => false,
                }),
                None => !self.cached(binary@, addr),
            },
    {
        let n = self.entries.len();
        let mut i: usize = 0;
        while i < n
            invariant
                n == self.entries@.len(),
                0 <= i <= n,
                find_addr_key(self.entries@, binary@, addr, n as int) == find_addr_key(
                    self.entries@,
                    binary@,
                    addr,
                    n - i,
                ),
            decreases n - i,
        {
            let e = &self.entries[n - 1 - i];
            if e.1 == addr && crate::bytes::bytes_eq(e.0.as_slice(), binary) {
                let copy: Option<(Vec<u8>, usize)> = match &e.2 {
                    Some(pair) => Some(
                        (crate::bytes::sub_vec(pair.0.as_slice(), 0, pair.0.len()), pair.1),
                    ),
                    None => None,
                };
                return Some(copy);
            }
            i += 1;
        }
        None
    }
}

/// A found cache entry lies in range.
proof fn lemma_find_addr_key_bounds(
    es: Seq<(Vec<u8>, u64, Option<(Vec<u8>, usize)>)>,
    binary: Seq<u8>,
    addr: u64,
    hi: int,
)
    ensures
        match find_addr_key(es, binary, addr, hi) {
            Some(i) => 0 <= i < hi,
            None => true,
        },
    decreases hi,
{
    if hi > 0 && !(es[hi - 1].0@ == binary && es[hi - 1].1 == addr) {
        lemma_find_addr_key_bounds(es, binary, addr, hi - 1);
    }
}

/// `find_addr_key` only reads entries below `hi`.
proof fn lemma_find_addr_key_prefix(
    es1: Seq<(Vec<u8>, u64, Option<(Vec<u8>, usize)>)>,
    es2: Seq<(Vec<u8>, u64, Option<(Vec<u8>, usize)>)>,
    binary: Seq<u8>,
    addr: u64,
    hi: int,
)
    requires
        0 <= hi <= es1.len(),
        hi <= es2.len(),
        forall|j: int| 0 <= j < hi ==> es1[j] == es2[j],
    ensures
        find_addr_key(es1, binary, addr, hi) == find_addr_key(es2, binary, addr, hi),
    decreases hi,
{
    if hi > 0 {
        lemma_find_addr_key_prefix(es1, es2, binary, addr, hi - 1);
    }
}

} // verus!
